//! What the search for the liberties of a group knows while it runs, and
//! what follows when it ends.

use crate::game::go::position::Position;
use crate::game::go::types::{Color, Point};
use vstd::prelude::*;

verus! {

/// Whether a flood fill has `point` on one of its lists.
pub open spec fn seen(
    captured: Seq<Point>,
    explored: Seq<Point>,
    unexplored: Seq<Point>,
    point: Point,
) -> bool {
    captured.contains(point) || explored.contains(point) || unexplored.contains(point)
}

/// Whether the flood fill is done with `next` as a neighbour of a stone of
/// `color`: if it lies on the grid, it is not empty, and if it holds a stone
/// of the same colour, that stone is on one of the lists.
pub open spec fn checked(
    pos: Position,
    color: Color,
    captured: Seq<Point>,
    explored: Seq<Point>,
    unexplored: Seq<Point>,
    next: Point,
) -> bool {
    pos.on_grid(next) ==> {
        &&& pos.at(next) is Some
        &&& pos.at(next) == Some(color) ==> seen(captured, explored, unexplored, next)
    }
}

/// Whether the flood fill is done with all four neighbours of `stone`.
pub open spec fn settled(
    pos: Position,
    color: Color,
    captured: Seq<Point>,
    explored: Seq<Point>,
    unexplored: Seq<Point>,
    stone: Point,
) -> bool {
    forall|next: Point| #[trigger]
        stone.adjacent(next) ==> checked(pos, color, captured, explored, unexplored, next)
}

/// The lists of a flood fill from `start`: they hold stones of the group of
/// `start`, each at most once. `skipped` says that `start` was found among
/// the stones captured before and has left the stack.
pub open spec fn filling(
    pos: Position,
    start: Point,
    color: Color,
    captured: Seq<Point>,
    explored: Seq<Point>,
    unexplored: Seq<Point>,
    skipped: bool,
) -> bool {
    &&& pos.at(start) == Some(color)
    &&& explored.no_duplicates()
    &&& unexplored.no_duplicates()
    &&& forall|x: Point| #[trigger]
        explored.contains(x) ==> pos.connected(start, x) && !unexplored.contains(x)
            && !captured.contains(x)
    &&& forall|x: Point| #[trigger]
        unexplored.contains(x) ==> pos.connected(start, x) && (captured.contains(x) ==> x == start)
    &&& seen(captured, explored, unexplored, start)
    &&& skipped ==> captured.contains(start) && !unexplored.contains(start)
}

/// The stones on the two lists of a flood fill are no more than the board has
/// cells.
pub proof fn lemma_lists_fit(
    pos: Position,
    start: Point,
    color: Color,
    captured: Seq<Point>,
    explored: Seq<Point>,
    unexplored: Seq<Point>,
    skipped: bool,
)
    requires
        filling(pos, start, color, captured, explored, unexplored, skipped),
    ensures
        explored.len() + unexplored.len() <= pos.size * pos.size,
{
    let both = explored + unexplored;
    assert forall|a: int, b: int|
        0 <= a < explored.len() && 0 <= b < unexplored.len() implies explored[a]
        != unexplored[b] by {
        assert(explored.contains(explored[a]));
        assert(unexplored.contains(unexplored[b]));
    }
    vstd::seq_lib::lemma_no_dup_in_concat(explored, unexplored);
    assert forall|k: int| 0 <= k < both.len() implies pos.on_grid(#[trigger] both[k]) by {
        if k < explored.len() {
            assert(explored.contains(explored[k]));
            pos.lemma_connected_stones(start, explored[k]);
        } else {
            let other = unexplored[k - explored.len()];
            assert(unexplored.contains(other));
            pos.lemma_connected_stones(start, other);
        }
    }
    pos.lemma_distinct_points_bounded(both);
}

/// When the stack of a flood fill is empty, the fill has found a group
/// without a liberty: with the stones captured before, the explored stones
/// make up whole dead groups, and they hold the group of `start`.
pub proof fn lemma_fill_is_complete(
    pos: Position,
    start: Point,
    color: Color,
    captured: Seq<Point>,
    explored: Seq<Point>,
)
    requires
        exists|skipped: bool|
            filling(pos, start, color, captured, explored, Seq::<Point>::empty(), skipped),
        pos.whole_dead_groups(captured),
        forall|x: Point| #[trigger]
            explored.contains(x) ==> settled(
                pos,
                color,
                captured,
                explored,
                Seq::<Point>::empty(),
                x,
            ),
    ensures
        !pos.has_liberty(start),
        pos.whole_dead_groups(captured + explored),
        (captured + explored).subrange(0, captured.len() as int) == captured,
        forall|x: Point|
            (captured + explored).contains(x) <==> captured.contains(x) || pos.connected(start, x),
{
    let none = Seq::<Point>::empty();
    let group = Set::new(|x: Point| explored.contains(x) || captured.contains(x));
    assert forall|x: Point, y: Point|
        #![trigger group.contains(x), x.adjacent(y)]
        group.contains(x) && x.adjacent(y) && pos.on_grid(y) && pos.at(y) == pos.at(
            x,
        ) implies group.contains(y) by {
        if explored.contains(x) {
            pos.lemma_connected_stones(start, x);
            assert(settled(pos, color, captured, explored, none, x));
            assert(checked(pos, color, captured, explored, none, y));
        } else {
            pos.lemma_connected_self(x);
            pos.lemma_connected_extend(x, x, y);
        }
    }
    assert forall|x: Point| pos.connected(start, x) implies group.contains(x) by {
        pos.lemma_group_within(start, x, group);
    }
    if pos.has_liberty(start) {
        let (stone, free) = choose|stone: Point, free: Point|
            pos.connected(start, stone) && #[trigger] pos.is_liberty(stone, free);
        assert(group.contains(stone));
        if explored.contains(stone) {
            assert(settled(pos, color, captured, explored, none, stone));
            assert(checked(pos, color, captured, explored, none, free));
        } else {
            pos.lemma_connected_stones(start, stone);
            pos.lemma_connected_self(stone);
            assert(pos.has_liberty(stone));
        }
        assert(false);
    }
    let joined = captured + explored;
    assert forall|a: int, b: int|
        0 <= a < captured.len() && 0 <= b < explored.len() implies captured[a] != explored[b] by {
        assert(captured.contains(captured[a]));
        assert(explored.contains(explored[b]));
    }
    vstd::seq_lib::lemma_no_dup_in_concat(captured, explored);
    assert forall|x: Point| #[trigger] joined.contains(x) <==> group.contains(x) by {
        if joined.contains(x) {
            let k = choose|k: int| 0 <= k < joined.len() && joined[k] == x;
            if k < captured.len() {
                assert(captured[k] == x);
            } else {
                assert(explored[k - captured.len()] == x);
            }
        }
        if captured.contains(x) {
            let k = choose|k: int| 0 <= k < captured.len() && captured[k] == x;
            assert(joined[k] == x);
        }
        if explored.contains(x) {
            let k = choose|k: int| 0 <= k < explored.len() && explored[k] == x;
            assert(joined[k + captured.len()] == x);
        }
    }
    assert forall|x: Point| #[trigger] joined.contains(x) implies pos.on_grid(x) && pos.at(
        x,
    ) is Some && !pos.has_liberty(x) by {
        if explored.contains(x) {
            pos.lemma_connected_stones(start, x);
            pos.lemma_liberty_shared(start, x);
        }
    }
    assert forall|x: Point, y: Point|
        joined.contains(x) && #[trigger] pos.connected(x, y) implies joined.contains(y) by {
        if explored.contains(x) {
            pos.lemma_connected_transitive(start, x, y);
        }
    }
    assert(joined.subrange(0, captured.len() as int) =~= captured);
}

/// What `s.push(a)` holds.
pub proof fn lemma_push_contains<A>(s: Seq<A>, a: A)
    ensures
        forall|x: A| #[trigger] s.push(a).contains(x) <==> s.contains(x) || x == a,
        s.no_duplicates() && !s.contains(a) ==> s.push(a).no_duplicates(),
{
    let longer = s.push(a);
    assert forall|x: A| #[trigger] longer.contains(x) <==> s.contains(x) || x == a by {
        if s.contains(x) {
            let i = choose|i: int| 0 <= i < s.len() && s[i] == x;
            assert(longer[i] == x);
        }
        if x == a {
            assert(longer[s.len() as int] == x);
        }
        if longer.contains(x) {
            let i = choose|i: int| 0 <= i < longer.len() && longer[i] == x;
            if i < s.len() {
                assert(s[i] == x);
            }
        }
    }
}

/// What is left of a list without duplicates when its last item is taken away.
pub proof fn lemma_drop_last_contains<A>(s: Seq<A>)
    requires
        s.len() > 0,
        s.no_duplicates(),
    ensures
        s.drop_last().no_duplicates(),
        forall|x: A| #[trigger] s.drop_last().contains(x) <==> s.contains(x) && x != s.last(),
{
    let shorter = s.drop_last();
    assert forall|x: A| #[trigger] shorter.contains(x) <==> s.contains(x) && x != s.last() by {
        if shorter.contains(x) {
            let i = choose|i: int| 0 <= i < shorter.len() && shorter[i] == x;
            assert(s[i] == x);
        }
        if s.contains(x) && x != s.last() {
            let i = choose|i: int| 0 <= i < s.len() && s[i] == x;
            assert(shorter[i] == x);
        }
    }
}

} // verus!
