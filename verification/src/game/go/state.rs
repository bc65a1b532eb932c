//! The game as it goes on: whose turn it is, what has been played, which
//! positions have been seen, and which moves the rules allow.

use crate::game::go::board::{Board, EmptyBoardPoints};
use crate::game::go::player::Player;
use crate::game::go::position::Position;
use crate::game::go::types::{Color, Move, Point};
use crate::game::GameState;
use crate::zobrist::{fingerprint, ZobristHash};
use vstd::prelude::*;

verus! {

/// A side of a game as a mathematical value: its colour and the number of
/// stones that it has taken.
pub struct Side {
    pub color: Color,
    pub captured: nat,
}

/// A game as a mathematical value.
pub struct GoModel {
    /// What lies on the board.
    pub position: Position,
    /// The table of values that fingerprints are made from.
    pub table: Seq<u64>,
    /// The side to move.
    pub next_player: Side,
    /// The side that has just moved.
    pub previous_player: Side,
    /// For each move made, the fingerprint of the position that it left, with
    /// the colour that was to move then.
    pub previous_states: Seq<(Color, ZobristHash)>,
    /// The moves made, first to last.
    pub moves: Seq<Move>,
}

impl GoModel {
    /// The fingerprint of the position.
    pub open spec fn hash(self) -> ZobristHash {
        fingerprint(self.table, self.position.cells)
    }

    /// The game is over after a resignation and after two passes in a row.
    pub open spec fn over(self) -> bool {
        let count = self.moves.len() as int;
        count > 0 && (self.moves[count - 1] == Move::Resign || (count > 1 && self.moves[count - 1]
            == Move::Pass && self.moves[count - 2] == Move::Pass))
    }

    /// Whether `the_move` puts a stone on an empty point of the board.
    pub open spec fn playable(self, the_move: Move) -> bool {
        match the_move {
            Move::Play(point) => self.position.on_grid(point) && self.position.at(point) is None,
            _ => true,
        }
    }

    /// Whether `the_move` is a play that `color` can make and that leaves the
    /// new stone's own group without a liberty, after the stones that it takes
    /// are gone.
    pub open spec fn self_capture(self, color: Color, the_move: Move) -> bool {
        match the_move {
            Move::Play(point) => self.playable(the_move) && !self.position.place(
                color,
                point,
            ).has_liberty(point),
            _ => false,
        }
    }

    /// Whether `the_move` is a play that `color` can make and that leaves a
    /// position which is on record with the other colour to move.
    pub open spec fn violates_ko(self, color: Color, the_move: Move) -> bool {
        match the_move {
            Move::Play(point) => self.playable(the_move) && self.previous_states.contains(
                (color.other(), fingerprint(self.table, self.position.place(color, point).cells)),
            ),
            _ => false,
        }
    }

    /// Whether the side to move may make `the_move`. A play needs a game that
    /// is not over and an empty point, and must neither take its own group nor
    /// repeat a position. Passing and resigning are always allowed.
    pub open spec fn valid(self, the_move: Move) -> bool {
        match the_move {
            Move::Play(point) => {
                &&& !self.over()
                &&& self.playable(the_move)
                &&& !self.self_capture(self.next_player.color, the_move)
                &&& !self.violates_ko(self.next_player.color, the_move)
            },
            _ => true,
        }
    }

    /// The valid plays on the given points, in their order.
    pub open spec fn plays_on(self, points: Seq<Point>) -> Seq<Move>
        decreases points.len(),
    {
        if points.len() == 0 {
            Seq::empty()
        } else if self.valid(Move::Play(points[0])) {
            seq![Move::Play(points[0])] + self.plays_on(points.drop_first())
        } else {
            self.plays_on(points.drop_first())
        }
    }

    /// What follows the plays among the moves on offer: a pass unless one was
    /// handed out or the game is over, and a resignation unless one was handed
    /// out.
    pub open spec fn closing_moves(self, pass_returned: bool, resign_returned: bool) -> Seq<Move> {
        let pass = if !pass_returned && !self.over() {
            seq![Move::Pass]
        } else {
            Seq::empty()
        };
        let resign = if !resign_returned {
            seq![Move::Resign]
        } else {
            Seq::empty()
        };
        pass + resign
    }

    /// The moves on offer: the valid plays in reading order, then a pass
    /// unless the game is over, then a resignation.
    pub open spec fn moves_offered(self) -> Seq<Move> {
        self.plays_on(self.position.empty_points_from(0)) + self.closing_moves(false, false)
    }

    /// The game after `the_move`: the board after the play, if it is one; the
    /// sides swapped, with the stones that were taken added to the mover's
    /// count; the fingerprint of the new position on record with the side
    /// that moves next; and the move on record.
    pub open spec fn after(self, the_move: Move) -> GoModel {
        let position = match the_move {
            Move::Play(point) => self.position.place(self.next_player.color, point),
            _ => self.position,
        };
        let taken = match the_move {
            Move::Play(point) => self.position.captures(self.next_player.color, point).len(),
            _ => 0,
        };
        GoModel {
            position,
            table: self.table,
            next_player: self.previous_player,
            previous_player: Side {
                color: self.next_player.color,
                captured: self.next_player.captured + taken,
            },
            previous_states: self.previous_states.push(
                (self.previous_player.color, fingerprint(self.table, position.cells)),
            ),
            moves: self.moves.push(the_move),
        }
    }

    /// The stones that count for `side`: those that it has taken and those
    /// of its colour on the board.
    pub open spec fn stones_of(self, side: Side) -> nat {
        side.captured + self.position.count_of(side.color)
    }

    /// What the stones say: those of the side to move less those of the other
    /// side.
    pub open spec fn final_score(self) -> int {
        self.stones_of(self.next_player) - self.stones_of(self.previous_player)
    }

    /// What the last move says to the side that moves next: 10 after a play
    /// on the edge, 50 after a pass, half of the greatest value after a
    /// resignation, else 0.
    pub open spec fn position_score(self) -> int {
        if self.moves.len() == 0 {
            0
        } else {
            match self.moves.last() {
                Move::Play(point) => if self.position.on_edge(point) {
                    10
                } else {
                    0
                },
                Move::Pass => 50,
                Move::Resign => i32::MAX / 2,
            }
        }
    }

    /// The value of the state to the side to move: the difference in stones
    /// and what the last move says.
    pub open spec fn stone_difference(self) -> int {
        self.final_score() + self.position_score()
    }

    /// The stones in the game: those on the board and those that were taken.
    /// A move adds at most one.
    pub open spec fn stones_in_game(self) -> nat {
        self.next_player.captured + self.previous_player.captured + self.position.stones()
    }

    /// The number of moves that fit before the count of the stones in the game
    /// could run over: what is left of `usize::MAX` after them.
    pub open spec fn headroom(self) -> nat {
        if self.stones_in_game() <= usize::MAX {
            (usize::MAX - self.stones_in_game()) as nat
        } else {
            0
        }
    }
}

/// A copy of `items`.
fn duplicate<T: Copy>(items: &Vec<T>) -> (copy: Vec<T>)
    ensures
        copy@ == items@,
{
    let mut copy: Vec<T> = Vec::with_capacity(items.len());
    while copy.len() < items.len()
        invariant
            copy@.len() <= items@.len(),
            forall|i: int| 0 <= i < copy@.len() ==> copy@[i] == items@[i],
        decreases items@.len() - copy@.len(),
    {
        copy.push(items[copy.len()]);
    }
    assert(copy@ =~= items@);
    copy
}

/// Whether `situation` is among `seen`.
fn on_record(seen: &Vec<(Color, ZobristHash)>, situation: (Color, ZobristHash)) -> (found: bool)
    ensures
        found == seen@.contains(situation),
{
    let mut i: usize = 0;
    while i < seen.len()
        invariant
            i <= seen@.len(),
            forall|j: int| 0 <= j < i ==> seen@[j] != situation,
        decreases seen@.len() - i,
    {
        if seen[i].0 == situation.0 && seen[i].1 == situation.1 {
            return true;
        }
        i += 1;
    }
    false
}

/// A game of Go at one moment. A move leads to a new state; the state that it
/// was made in stays as it is.
#[derive(Debug, PartialEq)]
pub struct GoState {
    pub board: Board,
    pub next_player: Player,
    pub previous_player: Player,
    /// For each move made, the colour that was to move after it and the
    /// fingerprint of the position that it left.
    pub previous_states: Vec<(Color, ZobristHash)>,
    pub moves: Vec<Move>,
}

impl GoState {
    /// A new game on an empty board of the given side. Black moves first.
    pub fn new(board_size: usize) -> (game: GoState)
        requires
            2 * (board_size * board_size) <= usize::MAX,
        ensures
            game.wf(),
            game.model().position == Position::empty(board_size as nat),
            game.model().next_player == (Side { color: Color::Black, captured: 0 }),
            game.model().previous_player == (Side { color: Color::White, captured: 0 }),
            game.model().previous_states.len() == 0,
            game.model().moves.len() == 0,
            game.model().stones_in_game() == 0,
    {
        proof {
            Position::lemma_empty_has_no_stones(board_size as nat);
        }
        Self::from_board(Board::new(board_size), Player::black())
    }

    /// A game that starts from the given board with `next_player` to move.
    /// No move is on record, and the other side has taken no stone.
    pub fn from_board(board: Board, next_player: Player) -> (game: GoState)
        requires
            board.wf(),
        ensures
            game.wf(),
            game.model().position == board@,
            game.model().table == board.table(),
            game.model().next_player == (Side {
                color: next_player.color,
                captured: next_player.captured as nat,
            }),
            game.model().previous_player == (Side {
                color: next_player.color.other(),
                captured: 0,
            }),
            game.model().previous_states.len() == 0,
            game.model().moves.len() == 0,
    {
        let other_color = next_player.color.other();
        Self {
            board,
            next_player,
            previous_player: Player::new(other_color),
            previous_states: Vec::new(),
            moves: Vec::new(),
        }
    }

    /// Whether `the_move` is a play of `color` on an empty point that leaves
    /// the new stone's own group without a liberty. Stones that the play takes
    /// are gone before the liberties are counted.
    pub fn is_move_self_capture(&self, color: Color, the_move: &Move) -> (suicide: bool)
        requires
            self.wf(),
        ensures
            suicide == self.model().self_capture(color, *the_move),
    {
        match *the_move {
            Move::Play(point) => {
                if !self.board.is_on_grid(&point) {
                    return false;
                }
                let mut next_board = self.board.clone();
                match next_board.place_stone(color, &point) {
                    Ok(_) => {
                        proof {
                            self.board@.lemma_place_at(color, point, point);
                        }
                        !next_board.is_alive(&point)
                    },
                    Err(_) => false,
                }
            },
            _ => false,
        }
    }

    /// Whether `the_move` is a play of `color` on an empty point that leaves a
    /// position which is on record with the other colour to move.
    pub fn does_move_violate_ko(&self, color: Color, the_move: &Move) -> (repeats: bool)
        requires
            self.wf(),
        ensures
            repeats == self.model().violates_ko(color, *the_move),
    {
        match *the_move {
            Move::Play(point) => {
                if !self.board.is_on_grid(&point) {
                    return false;
                }
                let mut next_board = self.board.clone();
                match next_board.place_stone(color, &point) {
                    Ok(_) => {
                        let next_situation = (color.other(), next_board.hash());
                        on_record(&self.previous_states, next_situation)
                    },
                    Err(_) => false,
                }
            },
            _ => false,
        }
    }
}

impl Clone for GoState {
    /// A state with the same board, players and records.
    fn clone(&self) -> (copy: GoState)
        ensures
            copy.model() == self.model(),
            copy.wf() == self.wf(),
    {
        Self {
            board: self.board.clone(),
            next_player: self.next_player.clone(),
            previous_player: self.previous_player.clone(),
            previous_states: duplicate(&self.previous_states),
            moves: duplicate(&self.moves),
        }
    }
}

impl GameState for GoState {
    type Move = Move;

    type Model = GoModel;

    open spec fn model(&self) -> GoModel {
        GoModel {
            position: self.board@,
            table: self.board.table(),
            next_player: Side {
                color: self.next_player.color,
                captured: self.next_player.captured as nat,
            },
            previous_player: Side {
                color: self.previous_player.color,
                captured: self.previous_player.captured as nat,
            },
            previous_states: self.previous_states@,
            moves: self.moves@,
        }
    }

    /// The board is sound.
    open spec fn wf(&self) -> bool {
        self.board.wf()
    }

    open spec fn headroom(state: GoModel) -> nat {
        state.headroom()
    }

    open spec fn over(state: GoModel) -> bool {
        state.over()
    }

    open spec fn moves(state: GoModel) -> Seq<Move> {
        state.moves_offered()
    }

    open spec fn valid(state: GoModel, the_move: Move) -> bool {
        state.valid(the_move)
    }

    open spec fn playable(state: GoModel, the_move: Move) -> bool {
        state.playable(the_move)
    }

    open spec fn after(state: GoModel, the_move: Move) -> GoModel {
        state.after(the_move)
    }

    proof fn lemma_moves_playable(state: GoModel, index: int) {
        let plays = state.plays_on(state.position.empty_points_from(0));
        if index < plays.len() {
            lemma_plays_are_valid(state, state.position.empty_points_from(0), index);
        }
    }

    proof fn lemma_moves_valid(state: GoModel, index: int) {
        let plays = state.plays_on(state.position.empty_points_from(0));
        if index < plays.len() {
            lemma_plays_are_valid(state, state.position.empty_points_from(0), index);
        }
    }

    proof fn lemma_moves_left(state: GoModel) {
    }

    fn apply_move(&self, m: &Move) -> (next: GoState) {
        let mut next_board = self.board.clone();
        let mut captured_stones: usize = 0;
        match m {
            Move::Play(point) => {
                match next_board.place_stone(self.next_player.color, point) {
                    Ok(count) => {
                        captured_stones = count;
                    },
                    Err(_) => {},
                }
            },
            Move::Pass => {},
            Move::Resign => {},
        }
        let mut previous_states = duplicate(&self.previous_states);
        previous_states.push((self.previous_player.color, next_board.hash()));
        let mut moves = duplicate(&self.moves);
        moves.push(*m);
        let next_player = self.previous_player.clone();
        let mut previous_player = self.next_player.clone();
        previous_player.captured += captured_stones;
        Self { board: next_board, next_player, previous_player, previous_states, moves }
    }

    fn valid_moves(&self) -> (moves: Vec<Move>) {
        let mut offered = ValidMoves::new(self);
        let mut moves: Vec<Move> = Vec::new();
        loop
            invariant
                offered.wf(),
                offered.game() == self,
                moves@ + offered.remaining() == self.model().moves_offered(),
            decreases offered.remaining().len(),
        {
            let ghost before = offered.remaining();
            let ghost collected = moves@;
            match offered.next() {
                Some(the_move) => {
                    moves.push(the_move);
                    assert(moves@ + offered.remaining() =~= collected + before);
                },
                None => {
                    assert(moves@ + offered.remaining() =~= moves@);
                    return moves;
                },
            }
        }
    }

    fn is_valid_move(&self, the_move: &Move) -> (valid: bool) {
        match the_move {
            Move::Play(point) => {
                !self.is_over() && self.board.is_on_grid(point) && self.board.get(point).is_none()
                    && !self.is_move_self_capture(self.next_player.color, the_move)
                    && !self.does_move_violate_ko(self.next_player.color, the_move)
            },
            _ => true,
        }
    }

    fn is_over(&self) -> (over: bool) {
        let count = self.moves.len();
        if count == 0 {
            return false;
        }
        match self.moves[count - 1] {
            Move::Play(_) => false,
            // two passes in a row end the game
            Move::Pass => count > 1 && self.moves[count - 2] == Move::Pass,
            Move::Resign => true,
        }
    }
}

/// A game without moves is not over. It is over when the last move is a
/// resignation, and when the last two moves are passes. A play never ends
/// the game.
pub proof fn lemma_termination(state: GoModel, point: Point)
    ensures
        state.moves.len() == 0 ==> !state.over(),
        state.moves.len() > 0 && state.moves.last() == Move::Resign ==> state.over(),
        state.moves.len() > 1 && state.moves.last() == Move::Pass && state.moves[state.moves.len()
            - 2] == Move::Pass ==> state.over(),
        !state.after(Move::Play(point)).over(),
        state.after(Move::Resign).over(),
        state.after(Move::Pass).after(Move::Pass).over(),
{
}

/// Each move adds one entry to the record of positions: the fingerprint of
/// the position that the move leaves, with the colour that moves next.
pub proof fn lemma_move_is_recorded(state: GoModel, the_move: Move)
    ensures
        state.after(the_move).moves == state.moves.push(the_move),
        state.after(the_move).previous_states.len() == state.previous_states.len() + 1,
        state.after(the_move).previous_states.last() == (
            state.after(the_move).next_player.color,
            state.after(the_move).hash(),
        ),
        state.after(the_move).previous_states.drop_last() == state.previous_states,
{
    assert(state.after(the_move).previous_states.drop_last() =~= state.previous_states);
}

/// What is on record stays on record: a later move only adds to it.
pub proof fn lemma_record_is_kept(state: GoModel, the_move: Move, entry: (Color, ZobristHash))
    requires
        state.previous_states.contains(entry),
    ensures
        state.after(the_move).previous_states.contains(entry),
{
    let index = choose|i: int| 0 <= i < state.previous_states.len() && state.previous_states[i] == entry;
    assert(state.after(the_move).previous_states[index] == entry);
}

/// A play that takes its own group or repeats a position on record is not
/// valid. A play on an empty point that takes a stone is never a
/// self-capture: the point of the stone that was taken is a liberty.
pub proof fn lemma_self_capture_and_ko(state: GoModel, color: Color, point: Point, victim: Point)
    requires
        state.position.wf(),
    ensures
        state.self_capture(state.next_player.color, Move::Play(point)) ==> !state.valid(
            Move::Play(point),
        ),
        state.violates_ko(state.next_player.color, Move::Play(point)) ==> !state.valid(
            Move::Play(point),
        ),
        state.playable(Move::Play(point)) && state.position.captures(color, point).contains(victim)
            ==> !state.self_capture(color, Move::Play(point)),
{
    if state.playable(Move::Play(point)) && state.position.captures(color, point).contains(victim) {
        state.position.lemma_capture_frees_liberty(color, point, victim);
    }
}

/// Each of the plays that are on offer is valid, and so it is playable.
pub proof fn lemma_plays_are_valid(state: GoModel, points: Seq<Point>, index: int)
    requires
        0 <= index < state.plays_on(points).len(),
    ensures
        state.valid(state.plays_on(points)[index]),
        state.playable(state.plays_on(points)[index]),
        state.plays_on(points)[index] is Play,
    decreases points.len(),
{
    if points.len() > 0 {
        if state.valid(Move::Play(points[0])) {
            if index > 0 {
                lemma_plays_are_valid(state, points.drop_first(), index - 1);
            }
        } else {
            lemma_plays_are_valid(state, points.drop_first(), index);
        }
    }
}

/// The moves that a state offers, one at a time: the valid plays in reading
/// order, then a pass unless the game is over, then a resignation.
pub struct ValidMoves<'a> {
    game: &'a GoState,
    points: EmptyBoardPoints<'a>,
    pass_returned: bool,
    resign_returned: bool,
}

impl<'a> ValidMoves<'a> {
    /// The state whose moves are handed out.
    pub closed spec fn game(&self) -> &GoState {
        self.game
    }

    pub closed spec fn wf(&self) -> bool {
        &&& self.game.wf()
        &&& self.points.wf()
        &&& self.points.board() == &self.game.board
    }

    /// The moves that are still to come.
    pub closed spec fn remaining(&self) -> Seq<Move> {
        self.game.model().plays_on(self.points.remaining()) + self.game.model().closing_moves(
            self.pass_returned,
            self.resign_returned,
        )
    }

    fn new(game: &'a GoState) -> (moves: Self)
        requires
            game.wf(),
        ensures
            moves.wf(),
            moves.game() == game,
            moves.remaining() == game.model().moves_offered(),
    {
        Self {
            game,
            points: game.board.empty_points(),
            pass_returned: false,
            resign_returned: false,
        }
    }

    /// The next move on offer, or `None` when all were handed out.
    pub fn next(&mut self) -> (the_move: Option<Move>)
        requires
            old(self).wf(),
        ensures
            final(self).wf(),
            final(self).game() == old(self).game(),
            match the_move {
                Some(m) => {
                    &&& old(self).remaining().len() > 0
                    &&& m == old(self).remaining()[0]
                    &&& final(self).remaining() == old(self).remaining().drop_first()
                },
                None => {
                    &&& old(self).remaining().len() == 0
                    &&& final(self).remaining().len() == 0
                },
            },
    {
        let ghost state = self.game.model();
        // the valid plays come first
        loop
            invariant
                self.wf(),
                self.game() == old(self).game(),
                state == self.game.model(),
                self.remaining() == old(self).remaining(),
            ensures
                self.points.remaining().len() == 0,
            decreases self.points.remaining().len(),
        {
            let ghost points = self.points.remaining();
            match self.points.next() {
                Some(p) => {
                    let the_move = Move::Play(p);
                    if self.game.is_valid_move(&the_move) {
                        proof {
                            let rest = state.plays_on(points.drop_first());
                            let closing = state.closing_moves(
                                self.pass_returned,
                                self.resign_returned,
                            );
                            assert((seq![the_move] + rest + closing).drop_first() =~= rest
                                + closing);
                        }
                        return Some(the_move);
                    }
                },
                None => {
                    break ;
                },
            }
        }
        // then a pass and a resignation
        proof {
            assert(state.plays_on(self.points.remaining()) =~= Seq::<Move>::empty());
        }
        let ghost closing = state.closing_moves(self.pass_returned, self.resign_returned);
        if !self.pass_returned && !self.game.is_over() {
            self.pass_returned = true;
            proof {
                assert(closing.drop_first() =~= state.closing_moves(true, self.resign_returned));
                assert(Seq::<Move>::empty() + closing =~= closing);
                assert(Seq::<Move>::empty() + closing.drop_first() =~= closing.drop_first());
            }
            Some(Move::Pass)
        } else if !self.resign_returned {
            self.resign_returned = true;
            proof {
                assert(closing.drop_first() =~= state.closing_moves(self.pass_returned, true));
                assert(Seq::<Move>::empty() + closing =~= closing);
                assert(Seq::<Move>::empty() + closing.drop_first() =~= closing.drop_first());
            }
            Some(Move::Resign)
        } else {
            proof {
                assert(Seq::<Move>::empty() + closing =~= closing);
            }
            None
        }
    }
}

} // verus!
