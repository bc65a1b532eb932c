//! What is on the board, as a mathematical value, and what the rules of
//! capture say about it: chains of stones, their liberties, and the position
//! that a play leaves behind.

use crate::game::go::types::{Color, Point};
use crate::zobrist::{cell_index, in_grid, lemma_cell_index_bounds, lemma_cell_index_injective};
use vstd::prelude::*;

verus! {

/// A square grid of side `size`, row by row; each cell is empty or holds a
/// stone.
pub struct Position {
    pub size: nat,
    pub cells: Seq<Option<Color>>,
}

impl Position {
    /// There is one cell for each point of the grid.
    pub open spec fn wf(self) -> bool {
        self.cells.len() == self.size * self.size
    }

    /// The grid of side `size` without a stone.
    pub open spec fn empty(size: nat) -> Position {
        Position { size, cells: Seq::new(size * size, |i: int| None::<Color>) }
    }

    /// Whether `point` lies on the grid.
    pub open spec fn on_grid(self, point: Point) -> bool {
        in_grid(self.size, point)
    }

    /// What the cell of `point` holds.
    pub open spec fn at(self, point: Point) -> Option<Color> {
        self.cells[cell_index(self.size, point)]
    }

    /// The point whose cell has the given index.
    pub open spec fn point_at(self, index: int) -> Point {
        Point {
            row: (index / self.size as int + 1) as usize,
            col: (index % self.size as int + 1) as usize,
        }
    }

    /// The same grid with the cell of `point` replaced.
    pub open spec fn with_cell(self, point: Point, cell: Option<Color>) -> Position {
        Position { size: self.size, cells: self.cells.update(cell_index(self.size, point), cell) }
    }

    /// A path of stones of one colour in which each stone shares an edge with
    /// the next.
    pub open spec fn is_chain(self, path: Seq<Point>) -> bool {
        &&& path.len() > 0
        &&& forall|i: int|
            0 <= i < path.len() ==> {
                &&& self.on_grid(#[trigger] path[i])
                &&& self.at(path[i]) is Some
                &&& self.at(path[i]) == self.at(path[0])
            }
        &&& forall|i: int| 0 <= i < path.len() - 1 ==> (#[trigger] path[i]).adjacent(path[i + 1])
    }

    /// Whether `a` and `b` hold stones of one group: a chain leads from one to
    /// the other.
    pub open spec fn connected(self, a: Point, b: Point) -> bool {
        exists|path: Seq<Point>| #[trigger] self.is_chain(path) && path[0] == a && path.last() == b
    }

    /// Whether `free` is an empty point of the grid next to `stone`.
    pub open spec fn is_liberty(self, stone: Point, free: Point) -> bool {
        &&& self.on_grid(free)
        &&& stone.adjacent(free)
        &&& self.at(free) is None
    }

    /// Whether the group of the stone at `point` has a liberty: an empty point
    /// next to one of its stones.
    pub open spec fn has_liberty(self, point: Point) -> bool {
        exists|stone: Point, free: Point|
            self.connected(point, stone) && #[trigger] self.is_liberty(stone, free)
    }

    /// Whether `dead` lists, each point once, whole groups of stones that
    /// have no liberty.
    pub open spec fn whole_dead_groups(self, dead: Seq<Point>) -> bool {
        &&& dead.no_duplicates()
        &&& forall|x: Point|
            #[trigger] dead.contains(x) ==> self.on_grid(x) && self.at(x) is Some
                && !self.has_liberty(x)
        &&& forall|x: Point, y: Point|
            dead.contains(x) && #[trigger] self.connected(x, y) ==> dead.contains(y)
    }

    /// Whether the stone at `victim` belongs to the group of `next`, a stone
    /// of the other colour than `color` whose group has no liberty.
    pub open spec fn is_taken_through(self, color: Color, next: Point, victim: Point) -> bool {
        &&& self.on_grid(next)
        &&& self.at(next) == Some(color.other())
        &&& self.connected(next, victim)
        &&& !self.has_liberty(next)
    }

    /// Whether the stone at `victim` is taken by a stone of `color` that has
    /// just been put on `point`: it belongs to a group of the other colour
    /// that touches `point` and has no liberty left.
    pub open spec fn is_taken(self, color: Color, point: Point, victim: Point) -> bool {
        exists|next: Point|
            point.adjacent(next) && #[trigger] self.is_taken_through(color, next, victim)
    }

    /// The stones that a play of `color` on `point` takes off the board.
    pub open spec fn captures(self, color: Color, point: Point) -> Set<Point> {
        let placed = self.with_cell(point, Some(color));
        Set::new(|victim: Point| placed.is_taken(color, point, victim))
    }

    /// The position after `color` has played on `point`: the new stone is on
    /// the board and the stones that it takes are gone.
    pub open spec fn place(self, color: Color, point: Point) -> Position {
        let placed = self.with_cell(point, Some(color));
        Position {
            size: self.size,
            cells: Seq::new(
                self.cells.len(),
                |i: int|
                    if placed.is_taken(color, point, placed.point_at(i)) {
                        None
                    } else {
                        placed.cells[i]
                    },
            ),
        }
    }

    /// How many of the first `count` of `corners` lie on the grid and hold a
    /// stone of `color`.
    pub open spec fn friendly_among(self, corners: Seq<Point>, color: Color, count: nat) -> nat
        decreases count,
    {
        if count == 0 {
            0
        } else {
            let corner = corners[count - 1];
            self.friendly_among(corners, color, (count - 1) as nat) + if self.on_grid(corner)
                && self.at(corner) == Some(color) {
                1nat
            } else {
                0nat
            }
        }
    }

    /// How many of the first `count` of `corners` lie off the grid.
    pub open spec fn off_board_among(self, corners: Seq<Point>, count: nat) -> nat
        decreases count,
    {
        if count == 0 {
            0
        } else {
            self.off_board_among(corners, (count - 1) as nat) + if self.on_grid(corners[count - 1]) {
                0nat
            } else {
                1nat
            }
        }
    }

    /// How many of the four diagonal neighbours of `point` hold a stone of
    /// `color`.
    pub open spec fn friendly_corners(self, point: Point, color: Color) -> nat {
        self.friendly_among(point.spec_diagonals(), color, 4)
    }

    /// How many of the four diagonal neighbours of `point` lie off the grid.
    pub open spec fn off_board_corners(self, point: Point) -> nat {
        self.off_board_among(point.spec_diagonals(), 4)
    }

    /// Whether `point` is an eye of `color`: it is empty, each neighbour on
    /// the grid holds a stone of `color`, and so do enough of the diagonal
    /// neighbours. In the middle of the board three of the four are enough;
    /// at an edge or in a corner each one that lies on the grid must.
    pub open spec fn is_eye(self, point: Point, color: Color) -> bool {
        &&& self.at(point) is None
        &&& forall|next: Point|
            #[trigger] point.adjacent(next) && self.on_grid(next) ==> self.at(next) == Some(color)
        &&& if self.off_board_corners(point) > 0 {
            self.off_board_corners(point) + self.friendly_corners(point, color) == 4
        } else {
            self.friendly_corners(point, color) >= 3
        }
    }

    /// Whether `point` lies in the first or last row or column.
    pub open spec fn on_edge(self, point: Point) -> bool {
        point.row == 1 || point.col == 1 || point.row == self.size || point.col == self.size
    }

    /// The points of the grid from cell `from` on, row by row.
    pub open spec fn points_from(self, from: int) -> Seq<Point> {
        Seq::new((self.cells.len() - from) as nat, |i: int| self.point_at(from + i))
    }

    /// The empty points of the grid from cell `from` on, row by row.
    pub open spec fn empty_points_from(self, from: int) -> Seq<Point>
        decreases self.cells.len() - from,
    {
        if from < 0 || from >= self.cells.len() {
            Seq::empty()
        } else if self.cells[from] is None {
            seq![self.point_at(from)] + self.empty_points_from(from + 1)
        } else {
            self.empty_points_from(from + 1)
        }
    }

    /// The number of cells that hold a stone of `color`.
    pub open spec fn count_of(self, color: Color) -> nat {
        count_upto(self.cells, color, self.cells.len())
    }

    /// The number of cells that hold a stone.
    pub open spec fn stones(self) -> nat {
        self.count_of(Color::Black) + self.count_of(Color::White)
    }

    /// A grid holds no more stones than it has cells.
    pub proof fn lemma_stones_bounded(self)
        ensures
            self.stones() <= self.cells.len(),
    {
        lemma_count_bounded(self.cells, self.cells.len());
    }

    /// The empty grid holds no stone.
    pub proof fn lemma_empty_has_no_stones(size: nat)
        ensures
            Position::empty(size).stones() == 0,
            Position::empty(size).wf(),
    {
        let cells = Position::empty(size).cells;
        lemma_count_of_empty(cells, Color::Black, cells.len());
        lemma_count_of_empty(cells, Color::White, cells.len());
    }

    /// Each index below the number of cells belongs to one point of the grid.
    pub proof fn lemma_point_at(self, index: int)
        requires
            self.wf(),
            self.size <= usize::MAX,
            0 <= index < self.cells.len(),
        ensures
            self.on_grid(self.point_at(index)),
            cell_index(self.size, self.point_at(index)) == index,
    {
        let n = self.size as int;
        assert(n > 0) by (nonlinear_arith)
            requires
                index < n * n,
                0 <= index,
                n >= 0,
        ;
        assert(0 <= index / n < n && 0 <= index % n < n && index == (index / n) * n + index % n)
            by (nonlinear_arith)
            requires
                0 <= index < n * n,
                n > 0,
        ;
    }

    /// Each point of the grid is the point of its own cell index.
    pub proof fn lemma_index_of_point(self, point: Point)
        requires
            self.on_grid(point),
        ensures
            self.point_at(cell_index(self.size, point)) == point,
            0 <= cell_index(self.size, point) < self.size * self.size,
    {
        let n = self.size as int;
        let r = point.row - 1;
        let c = point.col - 1;
        lemma_cell_index_bounds(self.size, point);
        assert((r * n + c) / n == r && (r * n + c) % n == c) by (nonlinear_arith)
            requires
                0 <= r,
                0 <= c < n,
        ;
    }

    /// Points of the grid that differ pairwise are no more than the grid has
    /// cells.
    pub proof fn lemma_distinct_points_bounded(self, points: Seq<Point>)
        requires
            points.no_duplicates(),
            forall|i: int| 0 <= i < points.len() ==> self.on_grid(#[trigger] points[i]),
        ensures
            points.len() <= self.size * self.size,
    {
        let size = self.size;
        let area = (size * size) as int;
        let indices = Seq::new(points.len(), |i: int| cell_index(size, points[i]));
        assert forall|i: int, j: int|
            0 <= i < indices.len() && 0 <= j < indices.len() && i != j implies indices[i]
            != indices[j] by {
            if indices[i] == indices[j] {
                lemma_cell_index_injective(size, points[i], points[j]);
            }
        }
        indices.unique_seq_to_set();
        vstd::set_lib::lemma_int_range(0, area);
        assert forall|k: int| indices.to_set().contains(k) implies vstd::set_lib::set_int_range(
            0,
            area,
        ).contains(k) by {
            let i = choose|i: int| 0 <= i < indices.len() && indices[i] == k;
            lemma_cell_index_bounds(size, points[i]);
        }
        vstd::set_lib::lemma_len_subset(indices.to_set(), vstd::set_lib::set_int_range(0, area));
    }

    /// Replacing the cell of one point leaves the cells of all others alone.
    pub proof fn lemma_with_cell_at(self, point: Point, cell: Option<Color>, x: Point)
        requires
            self.wf(),
            self.on_grid(point),
            self.on_grid(x),
        ensures
            self.with_cell(point, cell).wf(),
            self.with_cell(point, cell).at(x) == if x == point {
                cell
            } else {
                self.at(x)
            },
    {
        self.lemma_index_of_point(point);
        self.lemma_index_of_point(x);
        if x != point && cell_index(self.size, x) == cell_index(self.size, point) {
            lemma_cell_index_injective(self.size, x, point);
        }
    }

    /// What a play leaves on the grid: the new stone stays, the stones that
    /// it takes are of the other colour and are gone, and every other point
    /// is as it was.
    pub proof fn lemma_place_at(self, color: Color, point: Point, x: Point)
        requires
            self.wf(),
            self.on_grid(point),
            self.on_grid(x),
        ensures
            self.place(color, point).wf(),
            self.place(color, point).at(point) == Some(color),
            self.with_cell(point, Some(color)).is_taken(color, point, x) ==> self.with_cell(
                point,
                Some(color),
            ).at(x) == Some(color.other()),
            self.place(color, point).at(x) == if self.with_cell(point, Some(color)).is_taken(
                color,
                point,
                x,
            ) {
                None
            } else {
                self.with_cell(point, Some(color)).at(x)
            },
    {
        let placed = self.with_cell(point, Some(color));
        self.lemma_index_of_point(point);
        self.lemma_index_of_point(x);
        placed.lemma_index_of_point(point);
        placed.lemma_index_of_point(x);
        assert(placed.at(point) == Some(color));
        assert forall|victim: Point| placed.is_taken(color, point, victim) implies placed.at(victim)
            == Some(color.other()) by {
            let next = choose|next: Point|
                point.adjacent(next) && #[trigger] placed.is_taken_through(color, next, victim);
            placed.lemma_connected_stones(next, victim);
        }
    }

    /// A play that takes a stone has a liberty afterwards: one of the stones
    /// that it takes lay next to it.
    pub proof fn lemma_capture_frees_liberty(self, color: Color, point: Point, victim: Point)
        requires
            self.wf(),
            self.on_grid(point),
            self.captures(color, point).contains(victim),
        ensures
            self.place(color, point).has_liberty(point),
    {
        let placed = self.with_cell(point, Some(color));
        let after = self.place(color, point);
        let next = choose|next: Point|
            point.adjacent(next) && #[trigger] placed.is_taken_through(color, next, victim);
        placed.lemma_connected_symmetric(next, victim);
        placed.lemma_connected_transitive(next, victim, next);
        assert(placed.is_taken_through(color, next, next));
        assert(placed.is_taken(color, point, next));
        self.lemma_place_at(color, point, next);
        after.lemma_connected_self(point);
        assert(after.connected(point, point) && after.is_liberty(point, next));
    }

    /// A single stone whose neighbours all hold stones of the other colour
    /// once that colour has played on `point`, one of them, is taken by that
    /// play.
    pub proof fn lemma_surrounded_stone_is_taken(self, color: Color, point: Point, victim: Point)
        requires
            self.wf(),
            self.on_grid(point),
            self.at(point) is None,
            self.on_grid(victim),
            self.at(victim) == Some(color.other()),
            point.adjacent(victim),
            forall|next: Point|
                #[trigger] victim.adjacent(next) && self.on_grid(next) && next != point
                    ==> self.at(next) == Some(color),
        ensures
            !self.with_cell(point, Some(color)).has_liberty(victim),
            self.captures(color, point).contains(victim),
            self.place(color, point).at(victim) is None,
    {
        let placed = self.with_cell(point, Some(color));
        self.lemma_index_of_point(point);
        self.lemma_index_of_point(victim);
        assert forall|x: Point| placed.on_grid(x) implies placed.at(x) == if x == point {
            Some(color)
        } else {
            self.at(x)
        } by {
            self.lemma_index_of_point(x);
            if x != point && cell_index(self.size, x) == cell_index(self.size, point) {
                lemma_cell_index_injective(self.size, x, point);
            }
        }
        let alone = Set::new(|x: Point| x == victim);
        placed.lemma_connected_self(victim);
        assert forall|x: Point, y: Point|
            #![trigger alone.contains(x), x.adjacent(y)]
            alone.contains(x) && x.adjacent(y) && placed.on_grid(y) && placed.at(y) == placed.at(
                x,
            ) implies alone.contains(y) by {
            assert(victim.adjacent(y));
        }
        if placed.has_liberty(victim) {
            let (stone, free) = choose|stone: Point, free: Point|
                placed.connected(victim, stone) && #[trigger] placed.is_liberty(stone, free);
            placed.lemma_group_within(victim, stone, alone);
            assert(victim.adjacent(free));
            assert(false);
        }
        assert(placed.is_taken_through(color, victim, victim));
        assert(placed.is_taken(color, point, victim));
        self.lemma_place_at(color, point, victim);
    }

    /// A stone that has an empty neighbour after a play is not taken by it.
    pub proof fn lemma_stone_with_liberty_stays(
        self,
        color: Color,
        point: Point,
        stone: Point,
        free: Point,
    )
        requires
            self.wf(),
            self.on_grid(point),
            self.at(point) is None,
            self.on_grid(stone),
            self.at(stone) is Some,
            self.is_liberty(stone, free),
            free != point,
        ensures
            !self.captures(color, point).contains(stone),
            self.place(color, point).at(stone) == self.at(stone),
    {
        let placed = self.with_cell(point, Some(color));
        self.lemma_index_of_point(point);
        self.lemma_index_of_point(stone);
        self.lemma_index_of_point(free);
        if cell_index(self.size, free) == cell_index(self.size, point) {
            lemma_cell_index_injective(self.size, free, point);
        }
        if cell_index(self.size, stone) == cell_index(self.size, point) {
            lemma_cell_index_injective(self.size, stone, point);
        }
        assert(placed.is_liberty(stone, free));
        placed.lemma_connected_self(stone);
        assert(placed.has_liberty(stone));
        if placed.is_taken(color, point, stone) {
            let next = choose|next: Point|
                point.adjacent(next) && #[trigger] placed.is_taken_through(color, next, stone);
            placed.lemma_liberty_shared(next, stone);
        }
        self.lemma_place_at(color, point, stone);
    }

    /// A stone is connected to itself.
    pub proof fn lemma_connected_self(self, a: Point)
        requires
            self.on_grid(a),
            self.at(a) is Some,
        ensures
            self.connected(a, a),
    {
        let path = seq![a];
        assert(self.is_chain(path) && path[0] == a && path.last() == a);
    }

    /// Connected points are stones of one colour on the grid.
    pub proof fn lemma_connected_stones(self, a: Point, b: Point)
        requires
            self.connected(a, b),
        ensures
            self.on_grid(a),
            self.on_grid(b),
            self.at(a) is Some,
            self.at(a) == self.at(b),
    {
        let path = choose|path: Seq<Point>|
            #[trigger] self.is_chain(path) && path[0] == a && path.last() == b;
        assert(self.on_grid(path[0]));
        assert(self.on_grid(path[path.len() - 1]));
    }

    /// A group grows along an edge to a stone of its colour.
    pub proof fn lemma_connected_extend(self, a: Point, b: Point, c: Point)
        requires
            self.connected(a, b),
            b.adjacent(c),
            self.on_grid(c),
            self.at(c) == self.at(b),
        ensures
            self.connected(a, c),
    {
        let path = choose|path: Seq<Point>|
            #[trigger] self.is_chain(path) && path[0] == a && path.last() == b;
        let longer = path.push(c);
        assert(self.on_grid(path[path.len() - 1]));
        assert forall|i: int| 0 <= i < longer.len() implies {
            &&& self.on_grid(#[trigger] longer[i])
            &&& self.at(longer[i]) is Some
            &&& self.at(longer[i]) == self.at(longer[0])
        } by {
            if i < path.len() {
                assert(longer[i] == path[i]);
            }
        }
        assert forall|i: int| 0 <= i < longer.len() - 1 implies (#[trigger] longer[i]).adjacent(
            longer[i + 1],
        ) by {
            if i < path.len() - 1 {
                assert(longer[i] == path[i]);
                assert(longer[i + 1] == path[i + 1]);
            }
        }
        assert(self.is_chain(longer) && longer[0] == a && longer.last() == c);
    }

    /// If `a` is connected to `b`, then `b` is connected to `a`.
    pub proof fn lemma_connected_symmetric(self, a: Point, b: Point)
        requires
            self.connected(a, b),
        ensures
            self.connected(b, a),
    {
        let path = choose|path: Seq<Point>|
            #[trigger] self.is_chain(path) && path[0] == a && path.last() == b;
        let back = path.reverse();
        assert(self.on_grid(path[path.len() - 1]));
        assert forall|i: int| 0 <= i < back.len() implies {
            &&& self.on_grid(#[trigger] back[i])
            &&& self.at(back[i]) is Some
            &&& self.at(back[i]) == self.at(back[0])
        } by {
            assert(back[i] == path[path.len() - 1 - i]);
        }
        assert forall|i: int| 0 <= i < back.len() - 1 implies (#[trigger] back[i]).adjacent(
            back[i + 1],
        ) by {
            assert(back[i] == path[path.len() - 1 - i]);
            assert(back[i + 1] == path[path.len() - 2 - i]);
            assert(path[path.len() - 2 - i].adjacent(path[path.len() - 2 - i + 1]));
        }
        assert(self.is_chain(back) && back[0] == b && back.last() == a);
    }

    /// A set of points that holds `start` and, with each of its stones, the
    /// neighbours of the same colour, holds every stone of the chain.
    proof fn lemma_chain_within(self, path: Seq<Point>, group: Set<Point>, upto: int)
        requires
            self.is_chain(path),
            group.contains(path[0]),
            0 <= upto < path.len(),
            forall|x: Point, y: Point|
                #![trigger group.contains(x), x.adjacent(y)]
                group.contains(x) && x.adjacent(y) && self.on_grid(y) && self.at(y) == self.at(x)
                    ==> group.contains(y),
        ensures
            group.contains(path[upto]),
        decreases upto,
    {
        if upto > 0 {
            self.lemma_chain_within(path, group, upto - 1);
            assert(path[upto - 1].adjacent(path[upto - 1 + 1]));
            assert(self.on_grid(path[upto]));
            assert(self.on_grid(path[upto - 1]));
        }
    }

    /// A set of points that holds `a` and, with each of its stones, the
    /// neighbours of the same colour, holds the whole group of `a`.
    pub proof fn lemma_group_within(self, a: Point, b: Point, group: Set<Point>)
        requires
            self.connected(a, b),
            group.contains(a),
            forall|x: Point, y: Point|
                #![trigger group.contains(x), x.adjacent(y)]
                group.contains(x) && x.adjacent(y) && self.on_grid(y) && self.at(y) == self.at(x)
                    ==> group.contains(y),
        ensures
            group.contains(b),
    {
        let path = choose|path: Seq<Point>|
            #[trigger] self.is_chain(path) && path[0] == a && path.last() == b;
        self.lemma_chain_within(path, group, path.len() - 1);
    }

    /// If `a` is connected to `b` and `b` to `c`, then `a` is connected to `c`.
    pub proof fn lemma_connected_transitive(self, a: Point, b: Point, c: Point)
        requires
            self.connected(a, b),
            self.connected(b, c),
        ensures
            self.connected(a, c),
    {
        let group = Set::new(|x: Point| self.connected(a, x));
        assert forall|x: Point, y: Point|
            #![trigger group.contains(x), x.adjacent(y)]
            group.contains(x) && x.adjacent(y) && self.on_grid(y) && self.at(y) == self.at(
                x,
            ) implies group.contains(y) by {
            self.lemma_connected_extend(a, x, y);
        }
        self.lemma_group_within(b, c, group);
    }

    /// The stones of one group share their liberties.
    pub proof fn lemma_liberty_shared(self, a: Point, b: Point)
        requires
            self.connected(a, b),
        ensures
            self.has_liberty(a) == self.has_liberty(b),
    {
        self.lemma_connected_symmetric(a, b);
        if self.has_liberty(a) {
            let (stone, free) = choose|stone: Point, free: Point|
                self.connected(a, stone) && #[trigger] self.is_liberty(stone, free);
            self.lemma_connected_transitive(b, a, stone);
            assert(self.connected(b, stone) && self.is_liberty(stone, free));
        }
        if self.has_liberty(b) {
            let (stone, free) = choose|stone: Point, free: Point|
                self.connected(b, stone) && #[trigger] self.is_liberty(stone, free);
            self.lemma_connected_transitive(a, b, stone);
            assert(self.connected(a, stone) && self.is_liberty(stone, free));
        }
    }
}

/// Among the first `count` cells no more than `count` hold a stone.
pub proof fn lemma_count_bounded(cells: Seq<Option<Color>>, count: nat)
    requires
        count <= cells.len(),
    ensures
        count_upto(cells, Color::Black, count) + count_upto(cells, Color::White, count) <= count,
    decreases count,
{
    if count > 0 {
        lemma_count_bounded(cells, (count - 1) as nat);
    }
}

/// Empty cells hold no stone of any colour.
pub proof fn lemma_count_of_empty(cells: Seq<Option<Color>>, color: Color, count: nat)
    requires
        count <= cells.len(),
        forall|i: int| 0 <= i < count ==> cells[i] is None,
    ensures
        count_upto(cells, color, count) == 0,
    decreases count,
{
    if count > 0 {
        lemma_count_of_empty(cells, color, (count - 1) as nat);
    }
}

/// Changing one cell changes the number of stones of a colour by what the
/// cell held and what it holds now.
pub proof fn lemma_count_update(
    cells: Seq<Option<Color>>,
    color: Color,
    index: int,
    cell: Option<Color>,
    count: nat,
)
    requires
        0 <= index < cells.len(),
        count <= cells.len(),
    ensures
        count_upto(cells.update(index, cell), color, count) == if index < count {
            count_upto(cells, color, count) - (if cells[index] == Some(color) {
                1int
            } else {
                0int
            }) + (if cell == Some(color) {
                1int
            } else {
                0int
            })
        } else {
            count_upto(cells, color, count) as int
        },
    decreases count,
{
    if count > 0 {
        lemma_count_update(cells, color, index, cell, (count - 1) as nat);
    }
}

/// The number of the first `count` cells that hold a stone of `color`.
pub open spec fn count_upto(cells: Seq<Option<Color>>, color: Color, count: nat) -> nat
    decreases count,
{
    if count == 0 {
        0
    } else {
        count_upto(cells, color, (count - 1) as nat) + if cells[count - 1] == Some(color) {
            1nat
        } else {
            0nat
        }
    }
}

} // verus!
