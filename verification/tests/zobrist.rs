use bgai::game::go::{Board, Color};
use bgai::zobrist::{ZobristHasher, DEFAULT_SEED, MAX63};
use bgai::{Player, Point};

#[test]
fn empty_board_hashes_to_zero() {
    assert_eq!(ZobristHasher::empty_board(), 0);
}

#[test]
fn hash_move_is_its_own_inverse() {
    let hasher = ZobristHasher::new(9);
    let start = 0x1234_5678_9abc_def0;
    let point = Point::new(4, 7);
    let once = hasher.hash_move(start, Player::White, &point);
    assert_ne!(once, start);
    assert_eq!(hasher.hash_move(once, Player::White, &point), start);
}

#[test]
fn hash_moves_commute() {
    let hasher = ZobristHasher::new(5);
    let a = Point::new(1, 1);
    let b = Point::new(5, 5);
    let ab = hasher.hash_move(hasher.hash_move(0, Player::Black, &a), Player::White, &b);
    let ba = hasher.hash_move(hasher.hash_move(0, Player::White, &b), Player::Black, &a);
    assert_eq!(ab, ba);
    let key_a = hasher.hash_move(0, Player::Black, &a);
    let key_b = hasher.hash_move(0, Player::White, &b);
    assert_eq!(ab, key_a ^ key_b);
}

#[test]
fn each_point_and_colour_has_a_value_of_its_own() {
    let hasher = ZobristHasher::new(7);
    let mut keys = Vec::new();
    for row in 1..=7 {
        for col in 1..=7 {
            for player in [Player::Black, Player::White] {
                let key = hasher.hash_move(0, player, &Point::new(row, col));
                assert!(key < MAX63);
                keys.push(key);
            }
        }
    }
    let count = keys.len();
    keys.sort();
    keys.dedup();
    assert_eq!(count, 98);
    assert_eq!(keys.len(), count);
}

#[test]
fn tables_of_one_size_agree() {
    let one = ZobristHasher::new(9);
    let other = ZobristHasher::new(9);
    assert!(one == other);
    assert!(one != ZobristHasher::new(5));
    for row in 1..=9 {
        for col in 1..=9 {
            let point = Point::new(row, col);
            assert_eq!(
                one.hash_move(0, Player::Black, &point),
                other.hash_move(0, Player::Black, &point)
            );
            assert_eq!(
                one.hash_move(0, Player::White, &point),
                other.hash_move(0, Player::White, &point)
            );
        }
    }
    assert_eq!(DEFAULT_SEED, 1985);
}

#[test]
fn board_hash_is_the_xor_of_its_stones() {
    let hasher = ZobristHasher::new(3);
    let board = Board::from_str("x..\n.o.\n..x").unwrap();
    let mut expected = ZobristHasher::empty_board();
    expected = hasher.hash_move(expected, Color::Black, &Point::new(1, 1));
    expected = hasher.hash_move(expected, Color::White, &Point::new(2, 2));
    expected = hasher.hash_move(expected, Color::Black, &Point::new(3, 3));
    assert_eq!(board.hash(), expected);
}

#[test]
fn tables_of_other_seeds_differ() {
    let usual = ZobristHasher::new(5);
    let same = ZobristHasher::with_seed(5, DEFAULT_SEED);
    let other = ZobristHasher::with_seed(5, 7);
    assert!(usual == same);
    assert!(usual != other);
    let point = Point::new(3, 3);
    assert_eq!(
        usual.hash_move(0, Player::Black, &point),
        same.hash_move(0, Player::Black, &point)
    );
    assert_ne!(
        usual.hash_move(0, Player::Black, &point),
        other.hash_move(0, Player::Black, &point)
    );
}
