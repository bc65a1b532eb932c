//! Position fingerprints after Zobrist: every (point, side) pair owns one value
//! of a table, and the fingerprint of a position is the exclusive-or of the
//! values of its stones. Adding a stone and taking it away are the same
//! operation, so the fingerprint follows the board move by move.

use crate::types::{Player, Point};
use rand::{Rng, SeedableRng};
use rand_pcg::Pcg64;
use vstd::prelude::*;

verus! {

/// The fingerprint of a position.
pub type ZobristHash = u64;

/// The seed of every table. It is fixed so that tables of one size agree.
pub const DEFAULT_SEED: u64 = 1985;

/// The values of a table lie below this bound, that is, in 63 bits.
pub const MAX63: u64 = 0x7fff_ffff_ffff_ffff;

/// The generator `rand_pcg::Pcg64`. Verified code holds one and hands it on;
/// what is inside is not known to it.
#[verifier::external_type_specification]
#[verifier::external_body]
pub struct ExPcg64(Pcg64);

/// Calls `Pcg64::seed_from_u64`. Nothing is claimed of the generator that it
/// returns.
#[verifier::external_body]
fn seeded_generator(seed: u64) -> Pcg64 {
    Pcg64::seed_from_u64(seed)
}

/// Calls `Rng::gen_range` on the half-open range from 0 to `bound`. The range
/// must not be empty; the value drawn lies in it.
#[verifier::external_body]
fn draw_below(rng: &mut Pcg64, bound: u64) -> (value: u64)
    requires
        bound > 0,
    ensures
        value < bound,
{
    rng.gen_range(0..bound)
}

/// The place of a point in a row-major walk of a grid of `size` columns,
/// counted from 0.
pub open spec fn cell_index(size: nat, point: Point) -> int {
    (point.row - 1) * size + (point.col - 1)
}

/// Whether `point` lies on a square grid of side `size`.
pub open spec fn in_grid(size: nat, point: Point) -> bool {
    &&& 1 <= point.row <= size
    &&& 1 <= point.col <= size
}

/// The slot of the table that belongs to a stone of `player` in cell `index`.
pub open spec fn slot(index: int, player: Player) -> int {
    match player {
        Player::Black => 2 * index,
        Player::White => 2 * index + 1,
    }
}

/// What the content of cell `index` adds to a fingerprint: nothing for an
/// empty cell, the stone's table value otherwise.
pub open spec fn cell_key(table: Seq<u64>, index: int, cell: Option<Player>) -> u64 {
    match cell {
        None => 0,
        Some(player) => table[slot(index, player)],
    }
}

/// The exclusive-or of the keys of the first `count` cells.
pub open spec fn fingerprint_upto(table: Seq<u64>, cells: Seq<Option<Player>>, count: nat) -> u64
    decreases count,
{
    if count == 0 {
        0
    } else {
        fingerprint_upto(table, cells, (count - 1) as nat) ^ cell_key(
            table,
            count - 1,
            cells[count - 1],
        )
    }
}

/// The fingerprint of a grid: the exclusive-or of the keys of all its cells.
pub open spec fn fingerprint(table: Seq<u64>, cells: Seq<Option<Player>>) -> u64 {
    fingerprint_upto(table, cells, cells.len())
}

/// A point of the grid has a cell index below the number of cells.
pub proof fn lemma_cell_index_bounds(size: nat, point: Point)
    requires
        in_grid(size, point),
    ensures
        0 <= cell_index(size, point) < size * size,
        (point.row - 1) * size >= 0,
        (point.row - 1) * size + size <= size * size,
{
    let r = point.row - 1;
    assert(r * size >= 0) by (nonlinear_arith)
        requires
            r >= 0,
            size >= 0,
    ;
    assert(r * size + size <= size * size) by (nonlinear_arith)
        requires
            0 <= r < size,
    ;
}

/// Distinct points of the grid have distinct cell indices.
pub proof fn lemma_cell_index_injective(size: nat, a: Point, b: Point)
    requires
        in_grid(size, a),
        in_grid(size, b),
        cell_index(size, a) == cell_index(size, b),
    ensures
        a == b,
{
    let ra = a.row - 1;
    let rb = b.row - 1;
    let ca = a.col - 1;
    let cb = b.col - 1;
    assert(ra == rb) by (nonlinear_arith)
        requires
            ra * size + ca == rb * size + cb,
            0 <= ca < size,
            0 <= cb < size,
            0 <= ra,
            0 <= rb,
    ;
}

/// The fingerprint of the first `count` cells does not depend on later cells.
pub proof fn lemma_fingerprint_prefix(
    table: Seq<u64>,
    a: Seq<Option<Player>>,
    b: Seq<Option<Player>>,
    count: nat,
)
    requires
        count <= a.len(),
        count <= b.len(),
        forall|i: int| 0 <= i < count ==> a[i] == b[i],
    ensures
        fingerprint_upto(table, a, count) == fingerprint_upto(table, b, count),
    decreases count,
{
    if count > 0 {
        lemma_fingerprint_prefix(table, a, b, (count - 1) as nat);
    }
}

/// Changing one cell changes the fingerprint by the key of what the cell held
/// and the key of what it holds now.
pub proof fn lemma_fingerprint_update(
    table: Seq<u64>,
    cells: Seq<Option<Player>>,
    index: int,
    cell: Option<Player>,
    count: nat,
)
    requires
        0 <= index < cells.len(),
        count <= cells.len(),
    ensures
        fingerprint_upto(table, cells.update(index, cell), count) == if index < count {
            fingerprint_upto(table, cells, count) ^ cell_key(table, index, cells[index]) ^ cell_key(
                table,
                index,
                cell,
            )
        } else {
            fingerprint_upto(table, cells, count)
        },
    decreases count,
{
    let changed = cells.update(index, cell);
    if count == 0 {
    } else if index >= count {
        lemma_fingerprint_prefix(table, changed, cells, count);
    } else {
        let before = (count - 1) as nat;
        lemma_fingerprint_update(table, cells, index, cell, before);
        let rest = fingerprint_upto(table, cells, before);
        let old_key = cell_key(table, index, cells[index]);
        let new_key = cell_key(table, index, cell);
        if index == count - 1 {
            assert(fingerprint_upto(table, changed, before) == rest);
            assert(rest ^ new_key == (rest ^ old_key) ^ old_key ^ new_key) by (bit_vector);
        } else {
            let last_key = cell_key(table, count - 1, cells[count - 1]);
            assert(changed[count - 1] == cells[count - 1]);
            assert((rest ^ old_key ^ new_key) ^ last_key == (rest ^ last_key) ^ old_key ^ new_key)
                by (bit_vector);
        }
    }
}

/// A grid without stones has the fingerprint 0.
pub proof fn lemma_fingerprint_of_empty(table: Seq<u64>, cells: Seq<Option<Player>>, count: nat)
    requires
        count <= cells.len(),
        forall|i: int| 0 <= i < count ==> cells[i] is None,
    ensures
        fingerprint_upto(table, cells, count) == 0,
    decreases count,
{
    if count > 0 {
        lemma_fingerprint_of_empty(table, cells, (count - 1) as nat);
        assert(0u64 ^ 0u64 == 0u64) by (bit_vector);
    }
}

/// The table value of a stone on a board of side `size`.
pub open spec fn stone_key(table: Seq<u64>, size: nat, stone: (Player, Point)) -> u64 {
    table[slot(cell_index(size, stone.1), stone.0)]
}

/// The fingerprint `hash` after each of `stones` has been added to it or
/// taken out of it, one by one, as `hash_move` does.
pub open spec fn hash_moves(table: Seq<u64>, size: nat, hash: u64, stones: Seq<(Player, Point)>) -> u64 {
    stones.fold_left(hash, |h: u64, stone: (Player, Point)| h ^ stone_key(table, size, stone))
}

/// A list of stones changes every fingerprint by the same value: the one that
/// it gives to the fingerprint 0.
proof fn lemma_hash_moves_shift(table: Seq<u64>, size: nat, hash: u64, stones: Seq<(Player, Point)>)
    ensures
        hash_moves(table, size, hash, stones) == hash ^ hash_moves(table, size, 0, stones),
    decreases stones.len(),
{
    if stones.len() == 0 {
        assert(hash ^ 0 == hash) by (bit_vector);
    } else {
        let rest = stones.drop_last();
        let key = stone_key(table, size, stones.last());
        let most = hash_moves(table, size, 0, rest);
        lemma_hash_moves_shift(table, size, hash, rest);
        assert((hash ^ most) ^ key == hash ^ (most ^ key)) by (bit_vector);
    }
}

/// Going through a list of stones twice gives the fingerprint back.
proof fn lemma_hash_moves_twice(table: Seq<u64>, size: nat, hash: u64, stones: Seq<(Player, Point)>)
    ensures
        hash_moves(table, size, hash_moves(table, size, hash, stones), stones) == hash,
{
    let all = hash_moves(table, size, 0, stones);
    lemma_hash_moves_shift(table, size, hash, stones);
    lemma_hash_moves_shift(table, size, hash ^ all, stones);
    assert((hash ^ all) ^ all == hash) by (bit_vector);
}

/// Stones that are put on a board and taken away again, in whatever order,
/// leave the fingerprint as it was.
pub proof fn lemma_hash_reversible(
    table: Seq<u64>,
    size: nat,
    hash: u64,
    placed: Seq<(Player, Point)>,
    removed: Seq<(Player, Point)>,
)
    requires
        placed.to_multiset() == removed.to_multiset(),
    ensures
        hash_moves(table, size, hash_moves(table, size, hash, placed), removed) == hash,
{
    let step = |h: u64, stone: (Player, Point)| h ^ stone_key(table, size, stone);
    let once = hash_moves(table, size, hash, placed);
    assert(vstd::seq_lib::commutative_foldl(step)) by {
        assert forall|x: (Player, Point), y: (Player, Point), v: u64| #[trigger]
            step(step(v, x), y) == step(step(v, y), x) by {
            let a = stone_key(table, size, x);
            let b = stone_key(table, size, y);
            assert((v ^ a) ^ b == (v ^ b) ^ a) by (bit_vector);
        }
    }
    vstd::seq_lib::lemma_fold_left_permutation(removed, placed, step, once);
    lemma_hash_moves_twice(table, size, hash, placed);
}

/// The table of values for one board size.
#[derive(Debug)]
pub struct ZobristHasher {
    seed: u64,
    board_size: usize,
    lut: Vec<u64>,
}

impl ZobristHasher {
    /// The side of the board that the table was made for.
    pub closed spec fn size(&self) -> nat {
        self.board_size as nat
    }

    /// The values of the table, two for each cell of the board.
    pub closed spec fn table(&self) -> Seq<u64> {
        self.lut@
    }

    /// The seed that the values were drawn from.
    pub closed spec fn seed(&self) -> u64 {
        self.seed
    }

    /// The table has one value below `MAX63` for each point and side, and its
    /// length fits the machine.
    pub open spec fn wf(&self) -> bool {
        &&& 2 * (self.size() * self.size()) <= usize::MAX
        &&& self.table().len() == 2 * (self.size() * self.size())
        &&& forall|i: int| 0 <= i < self.table().len() ==> #[trigger] self.table()[i] < MAX63
    }

    /// Fills a table for a board of side `board_size` from a generator that is
    /// seeded with `DEFAULT_SEED`.
    pub fn new(board_size: usize) -> (hasher: ZobristHasher)
        requires
            2 * (board_size * board_size) <= usize::MAX,
        ensures
            hasher.wf(),
            hasher.size() == board_size,
            hasher.seed() == DEFAULT_SEED,
    {
        Self::with_seed(board_size, DEFAULT_SEED)
    }

    /// Fills a table for a board of side `board_size` from a generator that is
    /// seeded with `seed`: two values below `MAX63` for each cell, in the
    /// order in which the generator hands them out.
    pub fn with_seed(board_size: usize, seed: u64) -> (hasher: ZobristHasher)
        requires
            2 * (board_size * board_size) <= usize::MAX,
        ensures
            hasher.wf(),
            hasher.size() == board_size,
            hasher.seed() == seed,
    {
        assert(board_size * board_size <= usize::MAX) by (nonlinear_arith)
            requires
                2 * (board_size * board_size) <= usize::MAX,
        ;
        let length = board_size * board_size * 2;
        let mut rng = seeded_generator(seed);
        let mut lut: Vec<u64> = Vec::with_capacity(length);
        while lut.len() < length
            invariant
                lut.len() <= length,
                forall|i: int| 0 <= i < lut.len() ==> #[trigger] lut[i] < MAX63,
            decreases length - lut.len(),
        {
            let value = draw_below(&mut rng, MAX63);
            lut.push(value);
        }
        Self { seed, board_size, lut }
    }

    /// The fingerprint of a board without stones.
    pub fn empty_board() -> (hash: ZobristHash)
        ensures
            hash == 0,
    {
        0
    }

    /// The fingerprint `hash` with the stone of `player` at `point` added if it
    /// was not counted in, and taken away if it was.
    pub fn hash_move(&self, hash: ZobristHash, player: Player, point: &Point) -> (next: ZobristHash)
        requires
            self.wf(),
            in_grid(self.size(), *point),
        ensures
            next == hash ^ self.table()[slot(cell_index(self.size(), *point), player)],
    {
        proof {
            lemma_cell_index_bounds(self.size(), *point);
        }
        let offset: usize = match player {
            Player::Black => 0,
            Player::White => 1,
        };
        let index = ((point.row - 1) * self.board_size + (point.col - 1)) * 2 + offset;
        hash ^ self.lut[index]
    }
}

impl PartialEq for ZobristHasher {
    /// Two tables are the same when they were made for one size from one seed.
    fn eq(&self, other: &Self) -> (same: bool) {
        self.board_size == other.board_size && self.seed == other.seed
    }
}

impl vstd::std_specs::cmp::PartialEqSpecImpl for ZobristHasher {
    open spec fn obeys_eq_spec() -> bool {
        true
    }

    open spec fn eq_spec(&self, other: &Self) -> bool {
        self.size() == other.size() && self.seed() == other.seed()
    }
}

} // verus!
