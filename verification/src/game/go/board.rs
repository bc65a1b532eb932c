//! The board: a grid of stones with the fingerprint of what lies on it.

use crate::game::go::fill::{
    checked, filling, lemma_drop_last_contains, lemma_fill_is_complete, lemma_lists_fit,
    lemma_push_contains, settled,
};
use crate::game::go::position::{count_upto, lemma_count_update, Position};
use crate::game::go::types::{Color, Point};
use crate::zobrist::{
    cell_index, fingerprint, lemma_cell_index_bounds, lemma_fingerprint_of_empty,
    lemma_fingerprint_update, slot, ZobristHash, ZobristHasher,
};
use std::rc::Rc;
use vstd::prelude::*;

verus! {

/// Calls `Rc::clone`: the handle that it returns points at the same value.
#[verifier::external_body]
fn share<T>(handle: &Rc<T>) -> (shared: Rc<T>)
    ensures
        shared == *handle,
{
    Rc::clone(handle)
}

/// Why a board could not be changed or read.
#[derive(Copy, Clone, Debug, PartialEq, Eq, Structural)]
pub enum BoardError {
    /// The point holds a stone already.
    Occupied(Point),
    /// The text holds a character that stands for no cell.
    InvalidCharacter(char),
    /// The text is not a square block of cells.
    NotSquare,
}

/// A square board. `rows` and `cols` both hold the side of the grid.
#[derive(Debug)]
pub struct Board {
    pub rows: usize,
    pub cols: usize,
    grid: Vec<Option<Color>>,
    hasher: Rc<ZobristHasher>,
    hash: ZobristHash,
}

impl View for Board {
    type V = Position;

    /// What lies on the board.
    closed spec fn view(&self) -> Position {
        Position { size: self.rows as nat, cells: self.grid@ }
    }
}

impl Board {
    /// The table of values that the board's fingerprint is made from.
    pub closed spec fn table(&self) -> Seq<u64> {
        self.hasher.table()
    }

    /// The fingerprint that the board carries along.
    pub closed spec fn spec_hash(&self) -> ZobristHash {
        self.hash
    }

    /// The board is square and its table of values is made for its size.
    pub closed spec fn table_fits(&self) -> bool {
        &&& self.rows == self.cols
        &&& self.hasher.wf()
        &&& self.hasher.size() == self.rows
    }

    /// The board is square, it has one cell for each point, and its
    /// fingerprint is that of the stones that lie on it.
    pub open spec fn wf(&self) -> bool {
        &&& self@.wf()
        &&& self.table_fits()
        &&& self.spec_hash() == fingerprint(self.table(), self@.cells)
    }

    /// The table of a board holds two values for each cell, and the side and
    /// the number of cells fit the machine.
    pub proof fn lemma_table_fits(&self)
        requires
            self.table_fits(),
        ensures
            self.table().len() == 2 * (self@.size * self@.size),
            2 * (self@.size * self@.size) <= usize::MAX,
            self@.size <= usize::MAX,
            self@.size >= 1 ==> self@.size < usize::MAX,
    {
        let side = self@.size;
        if side >= 1 {
            assert(side < usize::MAX) by (nonlinear_arith)
                requires
                    side >= 1,
                    2 * (side * side) <= usize::MAX,
            ;
        }
    }

    /// The fingerprint of a board depends on nothing but the stones that lie
    /// on it: however two boards with one table of values came to hold the
    /// same stones, their fingerprints are equal.
    pub proof fn lemma_same_stones_same_hash(&self, other: &Board)
        requires
            self.wf(),
            other.wf(),
            self.table() == other.table(),
            self@ == other@,
        ensures
            self.spec_hash() == other.spec_hash(),
    {
    }

    /// An empty board of the given side.
    pub fn new(size: usize) -> (board: Board)
        requires
            2 * (size * size) <= usize::MAX,
        ensures
            board.wf(),
            board@ == Position::empty(size as nat),
            board.spec_hash() == 0,
    {
        assert(size * size <= usize::MAX) by (nonlinear_arith)
            requires
                2 * (size * size) <= usize::MAX,
        ;
        let area = size * size;
        let mut grid: Vec<Option<Color>> = Vec::with_capacity(area);
        while grid.len() < area
            invariant
                grid.len() <= area,
                forall|i: int| 0 <= i < grid.len() ==> grid[i] is None,
            decreases area - grid.len(),
        {
            grid.push(None);
        }
        let board = Self {
            rows: size,
            cols: size,
            grid,
            hasher: Rc::new(ZobristHasher::new(size)),
            hash: ZobristHasher::empty_board(),
        };
        proof {
            assert(board@.cells =~= Position::empty(size as nat).cells);
            lemma_fingerprint_of_empty(board.table(), board@.cells, board@.cells.len());
        }
        board
    }

    /// The side of the board.
    pub fn size(&self) -> (side: usize)
        ensures
            side == self@.size,
    {
        self.rows
    }

    /// Whether `point` lies on the board.
    pub fn is_on_grid(&self, point: &Point) -> (inside: bool)
        requires
            self.table_fits(),
        ensures
            inside == self@.on_grid(*point),
    {
        1 <= point.row && point.row <= self.rows && 1 <= point.col && point.col <= self.cols
    }

    /// What the board holds at `point`.
    pub fn get(&self, point: &Point) -> (cell: Option<Color>)
        requires
            self.wf(),
            self@.on_grid(*point),
        ensures
            cell == self@.at(*point),
    {
        proof {
            lemma_cell_index_bounds(self@.size, *point);
        }
        self.grid[(point.row - 1) * self.cols + (point.col - 1)]
    }

    /// Writes `value` into the cell of `point`. The fingerprint is not touched.
    fn set(&mut self, point: &Point, value: Option<Color>)
        requires
            old(self)@.wf(),
            old(self).table_fits(),
            old(self)@.on_grid(*point),
        ensures
            final(self)@ == old(self)@.with_cell(*point, value),
            final(self).table() == old(self).table(),
            final(self).spec_hash() == old(self).spec_hash(),
            final(self).table_fits(),
    {
        proof {
            lemma_cell_index_bounds(self@.size, *point);
        }
        let index = (point.row - 1) * self.cols + (point.col - 1);
        self.grid.set(index, value);
    }

    /// Puts a stone of `player` on the empty point `point`. No stone is taken.
    pub(crate) fn put(&mut self, player: Color, point: &Point)
        requires
            old(self).wf(),
            old(self)@.on_grid(*point),
            old(self)@.at(*point) is None,
        ensures
            final(self).wf(),
            final(self)@ == old(self)@.with_cell(*point, Some(player)),
            final(self).table() == old(self).table(),
            final(self)@.stones() == old(self)@.stones() + 1,
    {
        proof {
            Self::lemma_hash_follows(self@, self.table(), *point, player);
            Self::lemma_stones_follow(self@, *point, Some(player));
            self@.lemma_with_cell_at(*point, Some(player), *point);
        }
        self.apply_hash_for_play(player, point);
        self.set(point, Some(player));
    }

    /// The fingerprint of the stones on the board.
    pub fn hash(&self) -> (hash: ZobristHash)
        ensures
            hash == self.spec_hash(),
    {
        self.hash
    }

    /// Adds the stone of `player` at `point` to the fingerprint, or takes it
    /// out again.
    fn apply_hash_for_play(&mut self, player: Color, point: &Point)
        requires
            old(self).table_fits(),
            old(self)@.on_grid(*point),
        ensures
            final(self).spec_hash() == old(self).spec_hash() ^ old(self).table()[slot(
                cell_index(old(self)@.size, *point),
                player,
            )],
            final(self).table() == old(self).table(),
            final(self).table_fits(),
            final(self)@ == old(self)@,
    {
        self.hash = self.hasher.hash_move(self.hash, player, point);
    }

    /// A stone that enters or leaves at `point` changes the fingerprint of the
    /// cells by its own table value.
    proof fn lemma_hash_follows(pos: Position, table: Seq<u64>, point: Point, stone: Color)
        requires
            pos.wf(),
            pos.on_grid(point),
        ensures
            pos.at(point) is None ==> fingerprint(table, pos.with_cell(point, Some(stone)).cells)
                == fingerprint(table, pos.cells) ^ table[slot(cell_index(pos.size, point), stone)],
            pos.at(point) == Some(stone) ==> fingerprint(table, pos.with_cell(point, None).cells)
                == fingerprint(table, pos.cells) ^ table[slot(cell_index(pos.size, point), stone)],
    {
        let index = cell_index(pos.size, point);
        lemma_cell_index_bounds(pos.size, point);
        let h = fingerprint(table, pos.cells);
        let v = table[slot(index, stone)];
        lemma_fingerprint_update(table, pos.cells, index, Some(stone), pos.cells.len());
        lemma_fingerprint_update(table, pos.cells, index, None, pos.cells.len());
        assert(h ^ 0 ^ v == h ^ v) by (bit_vector);
        assert(h ^ v ^ 0 == h ^ v) by (bit_vector);
    }

    /// What the cells hold of both colours after a stone has come or gone.
    proof fn lemma_stones_follow(pos: Position, point: Point, cell: Option<Color>)
        requires
            pos.wf(),
            pos.on_grid(point),
        ensures
            pos.with_cell(point, cell).stones() == pos.stones() - (if pos.at(point) is Some {
                1int
            } else {
                0int
            }) + (if cell is Some {
                1int
            } else {
                0int
            }),
    {
        let index = cell_index(pos.size, point);
        lemma_cell_index_bounds(pos.size, point);
        lemma_count_update(pos.cells, Color::Black, index, cell, pos.cells.len());
        lemma_count_update(pos.cells, Color::White, index, cell, pos.cells.len());
        assert(pos.with_cell(point, cell).cells.len() == pos.cells.len());
        match pos.at(point) {
            Some(Color::Black) => {},
            Some(Color::White) => {},
            None => {},
        }
        match cell {
            Some(Color::Black) => {},
            Some(Color::White) => {},
            None => {},
        }
    }

    /// Puts a stone of `player` on `point` and takes the groups of the other
    /// colour that this leaves without a liberty off the board. Returns how
    /// many stones were taken, or `Occupied` if the point holds a stone; the
    /// board is then as it was. Whether the new stone's own group has a
    /// liberty is not looked at.
    pub fn place_stone(&mut self, player: Color, point: &Point) -> (outcome: Result<
        usize,
        BoardError,
    >)
        requires
            old(self).wf(),
            old(self)@.on_grid(*point),
        ensures
            final(self).wf(),
            final(self).table() == old(self).table(),
            match outcome {
                Ok(count) => {
                    &&& old(self)@.at(*point) is None
                    &&& final(self)@ == old(self)@.place(player, *point)
                    &&& count == old(self)@.captures(player, *point).len()
                    &&& final(self)@.stones() + count == old(self)@.stones() + 1
                },
                Err(error) => {
                    &&& old(self)@.at(*point) is Some
                    &&& error == BoardError::Occupied(*point)
                    &&& final(self)@ == old(self)@
                    &&& final(self).spec_hash() == old(self).spec_hash()
                },
            },
    {
        if self.get(point).is_some() {
            return Err(BoardError::Occupied(*point));
        }
        let ghost before = self@;
        let ghost table = self.table();
        proof {
            self.lemma_table_fits();
        }
        self.put(player, point);
        let ghost placed = self@;
        // the groups of the other colour next to the new stone that have no
        // liberty left
        let mut captured_points: Vec<Point> = Vec::new();
        let neighbors = point.neighbors();
        let mut i: usize = 0;
        while i < neighbors.len()
            invariant
                self.wf(),
                self@ == placed,
                i <= neighbors@.len(),
                neighbors@ == point.spec_neighbors(),
                placed.whole_dead_groups(captured_points@),
                forall|x: Point|
                    captured_points@.contains(x) <==> exists|j: int|
                        0 <= j < i && #[trigger] placed.is_taken_through(player, neighbors@[j], x),
            decreases neighbors@.len() - i,
        {
            let neighbor = neighbors[i];
            let ghost so_far = captured_points@;
            if self.is_on_grid(&neighbor) && self.get(&neighbor) == Some(player.other()) {
                captured_points = self.group_without_liberties(&neighbor, captured_points);
            }
            proof {
                assert forall|x: Point| captured_points@.contains(x) <==> exists|j: int|
                    0 <= j < i + 1 && #[trigger] placed.is_taken_through(
                        player,
                        neighbors@[j],
                        x,
                    ) by {
                    if captured_points@.contains(x) && !so_far.contains(x) {
                        assert(placed.is_taken_through(player, neighbors@[i as int], x));
                    }
                    if exists|j: int|
                        0 <= j < i + 1 && #[trigger] placed.is_taken_through(
                            player,
                            neighbors@[j],
                            x,
                        ) {
                        let j = choose|j: int|
                            0 <= j < i + 1 && #[trigger] placed.is_taken_through(
                                player,
                                neighbors@[j],
                                x,
                            );
                        if j < i {
                            assert(so_far.contains(x));
                        }
                    }
                }
            }
            i += 1;
        }
        proof {
            assert forall|x: Point| captured_points@.contains(x) <==> placed.is_taken(
                player,
                *point,
                x,
            ) by {
                if captured_points@.contains(x) {
                    let j = choose|j: int|
                        0 <= j < 4 && #[trigger] placed.is_taken_through(player, neighbors@[j], x);
                    point.lemma_adjacent_is_neighbor(neighbors@[j]);
                }
                if placed.is_taken(player, *point, x) {
                    let next = choose|next: Point|
                        point.adjacent(next) && #[trigger] placed.is_taken_through(player, next, x);
                    point.lemma_adjacent_is_neighbor(next);
                    let j = choose|j: int| 0 <= j < neighbors@.len() && neighbors@[j] == next;
                    assert(placed.is_taken_through(player, neighbors@[j], x));
                }
            }
        }
        let mut k: usize = 0;
        while k < captured_points.len()
            invariant
                self.wf(),
                self.table() == table,
                self@.size == placed.size,
                placed.wf(),
                k <= captured_points@.len(),
                captured_points@.no_duplicates(),
                forall|x: Point| #[trigger]
                    captured_points@.contains(x) ==> placed.on_grid(x) && placed.at(x) is Some,
                forall|x: Point|
                    placed.on_grid(x) ==> #[trigger] self@.at(x) == if captured_points@.take(
                        k as int,
                    ).contains(x) {
                        None
                    } else {
                        placed.at(x)
                    },
                self@.stones() + k == placed.stones(),
            decreases captured_points@.len() - k,
        {
            let captured_point = captured_points[k];
            let ghost now = self@;
            let ghost gone = captured_points@.take(k as int);
            proof {
                assert(captured_points@.contains(captured_point));
                if gone.contains(captured_point) {
                    let j = choose|j: int| 0 <= j < gone.len() && gone[j] == captured_point;
                    assert(captured_points@[j] == captured_points@[k as int]);
                }
                Self::lemma_stones_follow(now, captured_point, None);
            }
            self.remove_stone(&captured_point);
            proof {
                assert(captured_points@.take(k + 1) =~= gone.push(captured_point));
                lemma_push_contains(gone, captured_point);
                assert forall|x: Point| placed.on_grid(x) implies #[trigger] self@.at(x)
                    == if captured_points@.take(k + 1).contains(x) {
                    None
                } else {
                    placed.at(x)
                } by {
                    now.lemma_with_cell_at(captured_point, None, x);
                }
            }
            k += 1;
        }
        proof {
            let after = before.place(player, *point);
            assert(captured_points@.take(k as int) =~= captured_points@);
            assert forall|c: int| 0 <= c < after.cells.len() implies self@.cells[c]
                == after.cells[c] by {
                placed.lemma_point_at(c);
                assert(self@.at(placed.point_at(c)) == self@.cells[c]);
            }
            assert(self@.cells =~= after.cells);
            captured_points@.unique_seq_to_set();
            assert(captured_points@.to_set() =~= before.captures(player, *point));
        }
        Ok(captured_points.len())
    }

    /// Takes the stone at `captured_point` off the board.
    pub fn remove_stone(&mut self, captured_point: &Point)
        requires
            old(self).wf(),
            old(self)@.on_grid(*captured_point),
            old(self)@.at(*captured_point) is Some,
        ensures
            final(self).wf(),
            final(self)@ == old(self)@.with_cell(*captured_point, None),
            final(self).table() == old(self).table(),
            final(self)@.stones() + 1 == old(self)@.stones(),
    {
        let ghost before = self@;
        let player = self.get(captured_point).unwrap();
        proof {
            Self::lemma_hash_follows(before, self.table(), *captured_point, player);
            Self::lemma_stones_follow(before, *captured_point, None);
            before.lemma_with_cell_at(*captured_point, None, *captured_point);
        }
        self.apply_hash_for_play(player, captured_point);
        self.set(captured_point, None);
    }

    /// Looks for a liberty of the group of the stone at `point`, stone by
    /// stone from a stack. The first empty neighbour ends the search: the
    /// group lives, and `captured` comes back as it was. A group without a
    /// liberty is appended to `captured`, but for the stones that it holds
    /// already.
    fn group_without_liberties(&self, point: &Point, captured: Vec<Point>) -> (dead: Vec<Point>)
        requires
            self.wf(),
            self@.on_grid(*point),
            self@.at(*point) is Some,
            self@.whole_dead_groups(captured@),
        ensures
            self@.whole_dead_groups(dead@),
            captured@.len() <= dead@.len(),
            dead@.subrange(0, captured@.len() as int) == captured@,
            forall|x: Point|
                dead@.contains(x) <==> captured@.contains(x) || (!self@.has_liberty(*point)
                    && self@.connected(*point, x)),
    {
        let ghost pos = self@;
        let ghost start = *point;
        let ghost area = pos.size * pos.size;
        let ghost given = captured@;
        let ghost mut skipped = false;
        let color = self.get(point).unwrap();
        let mut taken = captured;
        let mut unexplored: Vec<Point> = Vec::new();
        unexplored.push(*point);
        let mut explored: Vec<Point> = Vec::new();
        proof {
            self.lemma_table_fits();
            assert(area >= 1) by (nonlinear_arith)
                requires
                    area == pos.size * pos.size,
                    pos.size >= 1,
            ;
            pos.lemma_connected_self(start);
            assert(unexplored@[0] == start);
            assert(taken@.subrange(0, taken@.len() as int) =~= taken@);
        }
        while unexplored.len() > 0
            invariant
                self.wf(),
                pos == self@,
                area == pos.size * pos.size,
                pos.size < usize::MAX,
                start == *point,
                given == captured@,
                taken@ == given,
                pos.whole_dead_groups(taken@),
                filling(pos, start, color, taken@, explored@, unexplored@, skipped),
                forall|x: Point| #[trigger]
                    explored@.contains(x) ==> settled(pos, color, taken@, explored@, unexplored@, x),
                explored@.len() + unexplored@.len() <= area,
            decreases
                    2 * area + 2 - 2 * explored@.len() - unexplored@.len() - if skipped {
                        2int
                    } else {
                        0int
                    },
        {
            let ghost stack = unexplored@;
            let ghost done = explored@;
            let current = unexplored.pop().unwrap();
            proof {
                assert(unexplored@ == stack.drop_last());
                assert(stack[stack.len() - 1] == current);
                assert(stack.contains(current));
                lemma_drop_last_contains(stack);
                pos.lemma_connected_stones(start, current);
            }
            if !contains_point(&taken, &current) {
                explored.push(current);
                proof {
                    lemma_push_contains(done, current);
                }
            } else {
                proof {
                    skipped = true;
                }
            }
            proof {
                assert forall|x: Point| explored@.contains(x) && x != current implies settled(
                    pos,
                    color,
                    taken@,
                    explored@,
                    unexplored@,
                    x,
                ) by {
                    assert(settled(pos, color, taken@, done, stack, x));
                    assert forall|next: Point| #[trigger] x.adjacent(next) implies checked(
                        pos,
                        color,
                        taken@,
                        explored@,
                        unexplored@,
                        next,
                    ) by {
                        assert(checked(pos, color, taken@, done, stack, next));
                    }
                }
            }
            let neighbors = current.neighbors();
            let ghost popped = unexplored@.len();
            let mut i: usize = 0;
            while i < neighbors.len()
                invariant
                    self.wf(),
                    pos == self@,
                    start == *point,
                    given == captured@,
                    taken@ == given,
                    pos.whole_dead_groups(taken@),
                    filling(pos, start, color, taken@, explored@, unexplored@, skipped),
                    forall|x: Point|
                        explored@.contains(x) && x != current ==> settled(
                            pos,
                            color,
                            taken@,
                            explored@,
                            unexplored@,
                            x,
                        ),
                    forall|j: int|
                        0 <= j < i ==> checked(
                            pos,
                            color,
                            taken@,
                            explored@,
                            unexplored@,
                            #[trigger] neighbors@[j],
                        ),
                    pos.connected(start, current),
                    pos.on_grid(current),
                    pos.at(current) == Some(color),
                    current.has_room(),
                    neighbors@ == current.spec_neighbors(),
                    i <= neighbors@.len(),
                    unexplored@.len() >= popped,
                decreases neighbors@.len() - i,
            {
                let neighbor = neighbors[i];
                let ghost stack = unexplored@;
                proof {
                    current.lemma_adjacent_is_neighbor(neighbor);
                }
                if self.is_on_grid(&neighbor) {
                    match self.get(&neighbor) {
                        None => {
                            // a liberty: the group lives
                            proof {
                                assert(pos.is_liberty(current, neighbor));
                            }
                            return taken;
                        },
                        Some(neighbor_color) => {
                            // a stone of the group that is on no list yet
                            if neighbor_color == color && !contains_point(&taken, &neighbor)
                                && !contains_point(&explored, &neighbor) && !contains_point(
                                &unexplored,
                                &neighbor,
                            ) {
                                unexplored.push(neighbor);
                                proof {
                                    pos.lemma_connected_extend(start, current, neighbor);
                                }
                            }
                        },
                    }
                }
                proof {
                    if unexplored@ != stack {
                        lemma_push_contains(stack, neighbor);
                    }
                    assert forall|x: Point|
                        explored@.contains(x) && x != current implies settled(
                        pos,
                        color,
                        taken@,
                        explored@,
                        unexplored@,
                        x,
                    ) by {
                        assert(settled(pos, color, taken@, explored@, stack, x));
                        assert forall|next: Point| #[trigger] x.adjacent(next) implies checked(
                            pos,
                            color,
                            taken@,
                            explored@,
                            unexplored@,
                            next,
                        ) by {
                            assert(checked(pos, color, taken@, explored@, stack, next));
                        }
                    }
                    assert forall|j: int| 0 <= j < i + 1 implies checked(
                        pos,
                        color,
                        taken@,
                        explored@,
                        unexplored@,
                        #[trigger] neighbors@[j],
                    ) by {
                        if j < i {
                            assert(checked(pos, color, taken@, explored@, stack, neighbors@[j]));
                        }
                    }
                }
                i += 1;
            }
            proof {
                assert forall|next: Point| #[trigger] current.adjacent(next) implies checked(
                    pos,
                    color,
                    taken@,
                    explored@,
                    unexplored@,
                    next,
                ) by {
                    current.lemma_adjacent_is_neighbor(next);
                    let j = choose|j: int| 0 <= j < neighbors@.len() && neighbors@[j] == next;
                    assert(checked(pos, color, taken@, explored@, unexplored@, neighbors@[j]));
                }
                lemma_lists_fit(pos, start, color, taken@, explored@, unexplored@, skipped);
            }
        }
        proof {
            assert(unexplored@ =~= Seq::<Point>::empty());
            assert(filling(pos, start, color, taken@, explored@, Seq::<Point>::empty(), skipped));
            lemma_fill_is_complete(pos, start, color, taken@, explored@);
        }
        taken.append(&mut explored);
        taken
    }

    /// Whether the group of the stone at `point` has a liberty.
    pub fn is_alive(&self, point: &Point) -> (alive: bool)
        requires
            self.wf(),
            self@.on_grid(*point),
            self@.at(*point) is Some,
        ensures
            alive == self@.has_liberty(*point),
    {
        let dead = self.group_without_liberties(point, Vec::new());
        proof {
            if !self@.has_liberty(*point) {
                self@.lemma_connected_self(*point);
                assert(dead@.contains(*point));
            } else if dead@.len() > 0 {
                assert(dead@.contains(dead@[0]));
            }
        }
        dead.len() == 0
    }

    /// Whether `point` is an eye of `color`.
    pub fn is_eye(&self, point: &Point, color: Color) -> (eye: bool)
        requires
            self.wf(),
            self@.on_grid(*point),
        ensures
            eye == self@.is_eye(*point, color),
    {
        proof {
            self.lemma_table_fits();
        }
        match self.get(point) {
            None => {
                let neighbors = point.neighbors();
                let mut i: usize = 0;
                while i < neighbors.len()
                    invariant
                        self.wf(),
                        i <= neighbors@.len(),
                        neighbors@ == point.spec_neighbors(),
                        point.has_room(),
                        forall|j: int|
                            0 <= j < i && self@.on_grid(#[trigger] neighbors@[j]) ==> self@.at(
                                neighbors@[j],
                            ) == Some(color),
                    decreases neighbors@.len() - i,
                {
                    let neighbor = neighbors[i];
                    if self.is_on_grid(&neighbor) {
                        if self.get(&neighbor) != Some(color) {
                            proof {
                                point.lemma_adjacent_is_neighbor(neighbor);
                            }
                            return false;
                        }
                    }
                    i += 1;
                }
                proof {
                    assert forall|next: Point|
                        #[trigger] point.adjacent(next) && self@.on_grid(next) implies self@.at(
                        next,
                    ) == Some(color) by {
                        point.lemma_adjacent_is_neighbor(next);
                        let j = choose|j: int| 0 <= j < neighbors@.len() && neighbors@[j] == next;
                        assert(self@.on_grid(neighbors@[j]));
                    }
                }
                let mut friendly_corners: usize = 0;
                let mut off_board_corners: usize = 0;
                let corners = point.diagonals();
                let ghost pos = self@;
                let mut k: usize = 0;
                while k < corners.len()
                    invariant
                        self.wf(),
                        pos == self@,
                        k <= corners@.len(),
                        corners@ == point.spec_diagonals(),
                        friendly_corners == pos.friendly_among(corners@, color, k as nat),
                        off_board_corners == pos.off_board_among(corners@, k as nat),
                        friendly_corners + off_board_corners <= k,
                    decreases corners@.len() - k,
                {
                    let corner = corners[k];
                    if self.is_on_grid(&corner) {
                        let corner_color = self.get(&corner);
                        if corner_color == Some(color) {
                            friendly_corners += 1;
                        }
                    } else {
                        off_board_corners += 1;
                    }
                    k += 1;
                }
                if off_board_corners > 0 {
                    off_board_corners + friendly_corners == 4
                } else {
                    friendly_corners >= 3
                }
            },
            // a point that holds a stone is no eye
            Some(_) => false,
        }
    }

    /// An iterator over the points of the board, row by row.
    pub fn points(&self) -> (points: BoardPoints<'_>)
        requires
            self.wf(),
        ensures
            points.wf(),
            points.board() == self,
            points.remaining() == self@.points_from(0),
    {
        BoardPoints::new(self)
    }

    /// An iterator over the empty points of the board, row by row.
    pub fn empty_points(&self) -> (points: EmptyBoardPoints<'_>)
        requires
            self.wf(),
        ensures
            points.wf(),
            points.board() == self,
            points.remaining() == self@.empty_points_from(0),
    {
        EmptyBoardPoints::new(self)
    }

    /// The number of stones of `the_color` on the board.
    pub fn number_of_stones_of_color(&self, the_color: Color) -> (count: usize)
        ensures
            count == self@.count_of(the_color),
    {
        let mut count: usize = 0;
        let mut i: usize = 0;
        while i < self.grid.len()
            invariant
                i <= self.grid@.len(),
                count <= i,
                count == count_upto(self.grid@, the_color, i as nat),
            decreases self.grid@.len() - i,
        {
            if self.grid[i] == Some(the_color) {
                count += 1;
            }
            i += 1;
        }
        count
    }

    /// Whether `point` lies in the first or last row or column.
    pub fn is_on_edge(&self, point: &Point) -> (edge: bool)
        requires
            self.table_fits(),
        ensures
            edge == self@.on_edge(*point),
    {
        point.row == 1 || point.col == 1 || point.row == self.rows || point.col == self.cols
    }
}

/// Whether `points` holds `point`.
fn contains_point(points: &Vec<Point>, point: &Point) -> (found: bool)
    ensures
        found == points@.contains(*point),
{
    let mut i: usize = 0;
    while i < points.len()
        invariant
            i <= points.len(),
            forall|j: int| 0 <= j < i ==> points[j] != *point,
        decreases points.len() - i,
    {
        if points[i] == *point {
            return true;
        }
        i += 1;
    }
    false
}

/// The points of a board in reading order, one at a time.
pub struct BoardPoints<'a> {
    board: &'a Board,
    row: usize,
    col: usize,
}

impl<'a> BoardPoints<'a> {
    /// The board whose points are handed out.
    pub closed spec fn board(&self) -> &Board {
        self.board
    }

    /// The index of the cell that comes next.
    pub closed spec fn cursor(&self) -> int {
        if self.row <= self.board.rows {
            (self.row - 1) * self.board.rows + (self.col - 1)
        } else {
            self.board@.cells.len() as int
        }
    }

    /// The cursor stands on a point of a sound board, or behind the last.
    pub closed spec fn wf(&self) -> bool {
        &&& self.board.wf()
        &&& 1 <= self.row <= self.board.rows + 1
        &&& self.row <= self.board.rows ==> 1 <= self.col <= self.board.cols
    }

    /// The points that are still to come.
    pub open spec fn remaining(&self) -> Seq<Point> {
        self.board()@.points_from(self.cursor())
    }

    fn new(board: &'a Board) -> (points: Self)
        requires
            board.wf(),
        ensures
            points.wf(),
            points.board() == board,
            points.cursor() == 0,
    {
        proof {
            let n = board.rows as int;
            assert(n == 0 ==> n * n == 0) by (nonlinear_arith);
            assert(0 * n == 0) by (nonlinear_arith);
        }
        Self { board, row: 1, col: 1 }
    }

    /// The cursor lies between 0 and the number of cells.
    pub proof fn lemma_cursor_bounds(&self)
        requires
            self.wf(),
        ensures
            0 <= self.cursor() <= self.board()@.cells.len(),
    {
        if self.row <= self.board.rows {
            lemma_cell_index_bounds(self.board@.size, Point { row: self.row, col: self.col });
        }
    }

    /// The next point of the walk, or `None` behind the last.
    pub fn next(&mut self) -> (point: Option<Point>)
        requires
            old(self).wf(),
        ensures
            final(self).wf(),
            final(self).board() == old(self).board(),
            match point {
                Some(p) => {
                    &&& old(self).remaining().len() > 0
                    &&& p == old(self).remaining()[0]
                    &&& final(self).remaining() == old(self).remaining().drop_first()
                    &&& old(self).board()@.on_grid(p)
                    &&& final(self).cursor() == old(self).cursor() + 1
                },
                None => {
                    &&& old(self).remaining().len() == 0
                    &&& final(self).remaining().len() == 0
                    &&& final(self).cursor() == old(self).cursor()
                },
            },
    {
        let ghost pos = self.board@;
        let ghost at = self.cursor();
        proof {
            self.lemma_cursor_bounds();
            if at < pos.cells.len() as int {
                assert(pos.points_from(at + 1) =~= pos.points_from(at).drop_first());
            }
        }
        if self.row <= self.board.rows {
            let p = Point::new(self.row, self.col);
            proof {
                self.board.lemma_table_fits();
                lemma_cell_index_bounds(self.board@.size, p);
                self.board@.lemma_index_of_point(p);
                let n = self.board.rows as int;
                let r = self.row as int;
                assert(r * n == (r - 1) * n + n) by (nonlinear_arith);
                assert(n * n == (n + 1 - 1) * n) by (nonlinear_arith);
            }
            self.col += 1;
            if self.col > self.board.cols {
                self.col = 1;
                self.row += 1;
            }
            Some(p)
        } else {
            None
        }
    }
}

/// The empty points of a board in reading order, one at a time. The board
/// cannot change while they are handed out.
pub struct EmptyBoardPoints<'a> {
    board: &'a Board,
    points: BoardPoints<'a>,
}

impl<'a> EmptyBoardPoints<'a> {
    /// The board whose empty points are handed out.
    pub closed spec fn board(&self) -> &Board {
        self.board
    }

    /// The index of the cell that is looked at next.
    pub closed spec fn cursor(&self) -> int {
        self.points.cursor()
    }

    /// The walk over the points is sound, and it is a walk over this board.
    pub closed spec fn wf(&self) -> bool {
        self.points.wf() && self.points.board() == self.board
    }

    /// The empty points that are still to come.
    pub open spec fn remaining(&self) -> Seq<Point> {
        self.board()@.empty_points_from(self.cursor())
    }

    fn new(board: &'a Board) -> (points: Self)
        requires
            board.wf(),
        ensures
            points.wf(),
            points.board() == board,
            points.cursor() == 0,
    {
        Self { board, points: BoardPoints::new(board) }
    }

    /// The next empty point of the walk, or `None` if no later point is empty.
    pub fn next(&mut self) -> (point: Option<Point>)
        requires
            old(self).wf(),
        ensures
            final(self).wf(),
            final(self).board() == old(self).board(),
            match point {
                Some(p) => {
                    &&& old(self).remaining().len() > 0
                    &&& p == old(self).remaining()[0]
                    &&& final(self).remaining() == old(self).remaining().drop_first()
                    &&& old(self).board()@.on_grid(p)
                    &&& old(self).board()@.at(p) is None
                },
                None => {
                    &&& old(self).remaining().len() == 0
                    &&& final(self).remaining().len() == 0
                },
            },
    {
        let ghost pos = self.board@;
        loop
            invariant
                self.wf(),
                self.board() == old(self).board(),
                pos == self.board()@,
                self.remaining() == old(self).remaining(),
            decreases pos.cells.len() - self.cursor(),
        {
            let ghost at = self.cursor();
            proof {
                self.points.lemma_cursor_bounds();
            }
            match self.points.next() {
                Some(p) => {
                    proof {
                        pos.lemma_point_at(at);
                        assert(p == pos.points_from(at)[0]);
                    }
                    if self.board.get(&p).is_none() {
                        proof {
                            assert(pos.empty_points_from(at).drop_first() =~= pos.empty_points_from(
                                at + 1,
                            ));
                        }
                        return Some(p);
                    }
                },
                None => {
                    return None;
                },
            }
        }
    }
}

impl PartialEq for Board {
    /// Whether both boards have the same side and hold the same stones. The
    /// fingerprints are not asked.
    fn eq(&self, other: &Self) -> (same: bool) {
        if self.rows != other.rows || self.grid.len() != other.grid.len() {
            return false;
        }
        let mut i: usize = 0;
        while i < self.grid.len()
            invariant
                i <= self.grid@.len(),
                self.grid@.len() == other.grid@.len(),
                forall|j: int| 0 <= j < i ==> self.grid@[j] == other.grid@[j],
            decreases self.grid@.len() - i,
        {
            if self.grid[i] != other.grid[i] {
                return false;
            }
            i += 1;
        }
        assert(self.grid@ =~= other.grid@);
        true
    }
}

impl vstd::std_specs::cmp::PartialEqSpecImpl for Board {
    open spec fn obeys_eq_spec() -> bool {
        true
    }

    /// Two boards are equal when they hold the same position.
    open spec fn eq_spec(&self, other: &Self) -> bool {
        self@ == other@
    }
}

impl Clone for Board {
    /// A board with the same stones that shares the table of values.
    fn clone(&self) -> (copy: Board)
        ensures
            copy@ == self@,
            copy.table() == self.table(),
            copy.spec_hash() == self.spec_hash(),
            copy.wf() == self.wf(),
    {
        let mut grid: Vec<Option<Color>> = Vec::with_capacity(self.grid.len());
        while grid.len() < self.grid.len()
            invariant
                grid.len() <= self.grid.len(),
                forall|i: int| 0 <= i < grid.len() ==> grid[i] == self.grid[i],
            decreases self.grid.len() - grid.len(),
        {
            grid.push(self.grid[grid.len()]);
        }
        assert(grid@ =~= self.grid@);
        Self { rows: self.rows, cols: self.cols, grid, hasher: share(&self.hasher), hash: self.hash }
    }
}

} // verus!
