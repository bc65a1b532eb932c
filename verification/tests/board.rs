use bgai::game::go::board::BoardError;
use bgai::game::go::{Board, Color, Point};

#[test]
fn board_test_stone_with_liberties_is_alive() {
    let board = r#".o.
                             .x.
                             .o."#;
    let board = Board::from_str(board).unwrap();
    assert!(board.is_alive(&Point::new(2, 2)));
}

#[test]
fn board_test_stone_without_liberties_is_dead() {
    let board = r#".o.
                             oxo
                             .o."#;
    let board = Board::from_str(board).unwrap();
    assert!(!board.is_alive(&Point::new(2, 2)));
}

#[test]
fn board_test_stone_in_corner_with_liberties_is_alive() {
    let board = r#"xo
                             .."#;
    let board = Board::from_str(board).unwrap();
    assert!(board.is_alive(&Point::new(1, 1)));
}

#[test]
fn board_test_stone_in_corner_without_liberties_is_dead() {
    let board = r#".o
                             ox"#;
    let board = Board::from_str(board).unwrap();
    assert!(!board.is_alive(&Point::new(2, 2)));
}

#[test]
fn board_test_placing_and_removing_stone_preserves_hash() {
    let mut board = Board::new(19);
    let original_hash = board.hash();
    board.place_stone(Color::White, &Point::new(1, 1)).unwrap();
    assert_ne!(original_hash, board.hash(), "Placing stones changes the hash");
    board.remove_stone(&Point::new(1, 1));
    assert_eq!(original_hash, board.hash(), "Removing stone reverts the hash");
}

#[test]
fn board_test_placing_and_removing_many_stones_preserves_hash() {
    let mut board = Board::new(19);
    let original_hash = board.hash();

    // Add multiple stones
    let _ = board.place_stone(Color::White, &Point::new(1, 1));
    let _ = board.place_stone(Color::White, &Point::new(2, 1));
    let _ = board.place_stone(Color::White, &Point::new(3, 1));
    let _ = board.place_stone(Color::Black, &Point::new(11, 1));
    let _ = board.place_stone(Color::Black, &Point::new(12, 1));
    let _ = board.place_stone(Color::Black, &Point::new(13, 1));

    // Remove in shuffled order
    board.remove_stone(&Point::new(2, 1));
    board.remove_stone(&Point::new(12, 1));
    board.remove_stone(&Point::new(3, 1));
    board.remove_stone(&Point::new(11, 1));
    board.remove_stone(&Point::new(1, 1));
    board.remove_stone(&Point::new(13, 1));

    assert_eq!(original_hash, board.hash(), "Removing stone reverts the hash");
}

#[test]
fn board_test_is_eye_without_off_board_corners() {
    let board = r#".oo
                             o.o
                             .o."#;
    let board = Board::from_str(board).unwrap();
    assert!(!board.is_eye(&Point::new(1, 2), Color::White));
    assert!(!board.is_eye(&Point::new(2, 2), Color::White));
    assert!(!board.is_eye(&Point::new(2, 2), Color::Black));

    let board = r#"ooo
                             o.o
                             .o."#;
    let board = Board::from_str(board).unwrap();
    assert!(!board.is_eye(&Point::new(2, 2), Color::White));
    assert!(!board.is_eye(&Point::new(2, 2), Color::Black));

    let board = r#"ooo
                             o.o
                             .oo"#;
    let board = Board::from_str(board).unwrap();
    assert!(board.is_eye(&Point::new(2, 2), Color::White));
    assert!(!board.is_eye(&Point::new(2, 2), Color::Black));

    let board = r#"ooo
                             o.o
                             ooo"#;
    let board = Board::from_str(board).unwrap();
    assert!(board.is_eye(&Point::new(2, 2), Color::White));
    assert!(!board.is_eye(&Point::new(2, 2), Color::Black));
}

#[test]
fn board_test_is_eye_with_off_board_corners() {
    let board = r#".x.
                             ..x
                             ..."#;
    let board = Board::from_str(board).unwrap();
    assert!(!board.is_eye(&Point::new(1, 3), Color::Black));
    assert!(!board.is_eye(&Point::new(1, 3), Color::White));

    let board = r#".x.
                             .xx
                             ..."#;
    let board = Board::from_str(board).unwrap();
    assert!(board.is_eye(&Point::new(1, 3), Color::Black));
    assert!(!board.is_eye(&Point::new(1, 3), Color::White));

    let board = r#"xx.
                             .x.
                             x.."#;
    let board = Board::from_str(board).unwrap();
    assert!(!board.is_eye(&Point::new(2, 1), Color::Black));
    assert!(!board.is_eye(&Point::new(2, 1), Color::White));

    let board = r#"xx.
                             .x.
                             xx."#;
    let board = Board::from_str(board).unwrap();
    assert!(board.is_eye(&Point::new(2, 1), Color::Black));
    assert!(!board.is_eye(&Point::new(2, 1), Color::White));

    let board = r#"xx.
                             .x.
                             xo."#;
    let board = Board::from_str(board).unwrap();
    assert!(!board.is_eye(&Point::new(2, 1), Color::Black));
    assert!(!board.is_eye(&Point::new(2, 1), Color::White));
}

#[test]
fn test_empty_points_iterates_over_empty_board_points() {
    let board = r#"
        xoo
        o.o
        xo."#;
    let board = Board::from_str(board).unwrap();
    let mut empty_points = board.empty_points();
    assert_eq!(empty_points.next().unwrap(), Point::new(2, 2));
    assert_eq!(empty_points.next().unwrap(), Point::new(3, 3));
    assert!(empty_points.next().is_none());
}

#[test]
fn new_board_is_empty_and_hashes_to_zero() {
    let board = Board::new(4);
    assert_eq!(board.rows, 4);
    assert_eq!(board.cols, 4);
    assert_eq!(board.hash(), 0);
    let mut points = board.points();
    let mut seen = 0;
    while let Some(point) = points.next() {
        assert_eq!(board.get(&point), None);
        seen += 1;
    }
    assert_eq!(seen, 16);
    assert_eq!(board.number_of_stones_of_color(Color::Black), 0);
    assert_eq!(board.number_of_stones_of_color(Color::White), 0);
}

#[test]
fn board_of_side_zero_has_no_points() {
    let board = Board::new(0);
    assert!(board.points().next().is_none());
    assert!(board.empty_points().next().is_none());
    assert!(!board.is_on_grid(&Point::new(1, 1)));
}

#[test]
fn points_come_row_by_row() {
    let board = Board::new(2);
    let mut points = board.points();
    assert_eq!(points.next(), Some(Point::new(1, 1)));
    assert_eq!(points.next(), Some(Point::new(1, 2)));
    assert_eq!(points.next(), Some(Point::new(2, 1)));
    assert_eq!(points.next(), Some(Point::new(2, 2)));
    assert_eq!(points.next(), None);
    assert_eq!(points.next(), None);
}

#[test]
fn placing_on_a_stone_is_refused_and_changes_nothing() {
    let mut board = Board::new(5);
    assert_eq!(board.place_stone(Color::Black, &Point::new(3, 3)), Ok(0));
    let hash = board.hash();
    assert_eq!(
        board.place_stone(Color::White, &Point::new(3, 3)),
        Err(BoardError::Occupied(Point::new(3, 3)))
    );
    assert_eq!(board.hash(), hash);
    assert_eq!(board.get(&Point::new(3, 3)), Some(Color::Black));
}

#[test]
fn surrounded_stone_is_captured_by_the_surrounding_move() {
    let mut board = Board::from_str(".o.\noxo\n...").unwrap();
    assert_eq!(board.place_stone(Color::White, &Point::new(3, 2)), Ok(1));
    assert_eq!(board.get(&Point::new(2, 2)), None);
    assert_eq!(board.number_of_stones_of_color(Color::Black), 0);
    assert_eq!(board.number_of_stones_of_color(Color::White), 4);
    let same = Board::from_str(".o.\no.o\n.o.").unwrap();
    assert_eq!(board.hash(), same.hash());
}

#[test]
fn stone_with_an_empty_neighbour_is_not_captured() {
    let mut board = Board::from_str(".o.\nox.\n...").unwrap();
    assert_eq!(board.place_stone(Color::White, &Point::new(3, 2)), Ok(0));
    assert_eq!(board.get(&Point::new(2, 2)), Some(Color::Black));
}

#[test]
fn diagonal_stones_do_not_surround() {
    let mut board = Board::from_str("o.o\n.x.\no..").unwrap();
    assert_eq!(board.place_stone(Color::White, &Point::new(3, 3)), Ok(0));
    assert!(board.is_alive(&Point::new(2, 2)));
}

#[test]
fn groups_on_several_sides_are_captured_together() {
    let text = "
        .xo.
        xo.o
        .xox
        ..x.";
    let mut board = Board::from_str(text).unwrap();
    // the white stones at (1,3) and (2,2), (3,3) each lose their last liberty
    assert_eq!(board.place_stone(Color::Black, &Point::new(2, 3)), Ok(2));
    assert_eq!(board.get(&Point::new(2, 2)), None);
    assert_eq!(board.get(&Point::new(3, 3)), None);
    assert_eq!(board.get(&Point::new(1, 3)), Some(Color::White));
    assert_eq!(board.get(&Point::new(2, 3)), Some(Color::Black));
}

#[test]
fn a_group_that_touches_twice_is_counted_once() {
    let text = "
        xxx.
        xoox
        xo.x
        .xx.";
    let mut board = Board::from_str(text).unwrap();
    assert_eq!(board.place_stone(Color::Black, &Point::new(3, 3)), Ok(3));
    assert_eq!(board.number_of_stones_of_color(Color::White), 0);
    assert_eq!(board.number_of_stones_of_color(Color::Black), 10);
}

#[test]
fn hash_depends_on_the_stones_only() {
    let mut one = Board::new(9);
    let mut other = Board::new(9);
    one.place_stone(Color::Black, &Point::new(1, 1)).unwrap();
    one.place_stone(Color::White, &Point::new(5, 5)).unwrap();
    other.place_stone(Color::White, &Point::new(5, 5)).unwrap();
    other.place_stone(Color::Black, &Point::new(1, 1)).unwrap();
    assert_eq!(one.hash(), other.hash());
    let colours_swapped = Board::from_str("o........\n.........\n.........\n.........\n....x....\n.........\n.........\n.........\n.........").unwrap();
    assert_ne!(one.hash(), colours_swapped.hash());
}

#[test]
fn neighbouring_stones_of_both_colours_have_their_own_values() {
    let mut one = Board::new(5);
    let mut other = Board::new(5);
    one.place_stone(Color::White, &Point::new(1, 1)).unwrap();
    other.place_stone(Color::Black, &Point::new(1, 2)).unwrap();
    assert_ne!(one.hash(), other.hash());
}

#[test]
fn table_values_lie_below_two_to_the_sixty_third() {
    let board = Board::new(19);
    let mut points = board.points();
    while let Some(point) = points.next() {
        let mut copy = board.clone();
        copy.place_stone(Color::Black, &point).unwrap();
        assert!(copy.hash() < 0x7fff_ffff_ffff_ffff);
        copy.remove_stone(&point);
        copy.place_stone(Color::White, &point).unwrap();
        assert!(copy.hash() < 0x7fff_ffff_ffff_ffff);
    }
}

#[test]
fn clone_is_independent_of_the_original() {
    let board = Board::from_str("x.\n..").unwrap();
    let mut copy = board.clone();
    assert_eq!(copy.hash(), board.hash());
    copy.place_stone(Color::White, &Point::new(2, 2)).unwrap();
    assert_eq!(board.get(&Point::new(2, 2)), None);
    assert_ne!(copy.hash(), board.hash());
}

#[test]
fn text_with_a_wrong_character_names_it() {
    assert_eq!(Board::from_str("x.\n.q").err(), Some(BoardError::InvalidCharacter('q')));
    assert_eq!(Board::from_str("xz\n.q").err(), Some(BoardError::InvalidCharacter('z')));
    assert_eq!(Board::from_str("x y\n...\n...").err(), Some(BoardError::InvalidCharacter(' ')));
}

#[test]
fn text_that_is_not_square_is_refused() {
    assert_eq!(Board::from_str("").err(), Some(BoardError::NotSquare));
    assert_eq!(Board::from_str("  \n \n").err(), Some(BoardError::NotSquare));
    assert_eq!(Board::from_str("xo\n..\n..").err(), Some(BoardError::NotSquare));
    assert_eq!(Board::from_str("xo.\n..").err(), Some(BoardError::NotSquare));
    assert_eq!(Board::from_str("xq.\n..").err(), Some(BoardError::NotSquare));
}

#[test]
fn text_may_hold_blank_lines_and_white_space() {
    let board = Board::from_str("\n\n   x.  \r\n\t\n .o\n\n").unwrap();
    assert_eq!(board.rows, 2);
    assert_eq!(board.get(&Point::new(1, 1)), Some(Color::Black));
    assert_eq!(board.get(&Point::new(1, 2)), None);
    assert_eq!(board.get(&Point::new(2, 1)), None);
    assert_eq!(board.get(&Point::new(2, 2)), Some(Color::White));
    let plain = Board::from_str("x.\n.o").unwrap();
    assert_eq!(board.hash(), plain.hash());
}

#[test]
fn edge_points_are_told_from_inner_points() {
    let board = Board::new(3);
    assert!(board.is_on_edge(&Point::new(1, 2)));
    assert!(board.is_on_edge(&Point::new(2, 1)));
    assert!(board.is_on_edge(&Point::new(3, 2)));
    assert!(board.is_on_edge(&Point::new(2, 3)));
    assert!(!board.is_on_edge(&Point::new(2, 2)));
}

#[test]
fn eye_needs_an_empty_point() {
    let board = Board::from_str("ooo\nooo\nooo").unwrap();
    assert!(!board.is_eye(&Point::new(2, 2), Color::White));
}

#[test]
fn neighbours_and_diagonals_come_in_a_fixed_order() {
    let point = Point::new(2, 3);
    assert_eq!(
        point.neighbors(),
        vec![Point::new(1, 3), Point::new(3, 3), Point::new(2, 2), Point::new(2, 4)]
    );
    assert_eq!(
        point.diagonals(),
        vec![Point::new(1, 2), Point::new(3, 2), Point::new(1, 4), Point::new(3, 4)]
    );
    assert_eq!(Color::Black.other(), Color::White);
    assert_eq!(Color::White.other(), Color::Black);
}

#[test]
fn text_form_has_a_line_for_each_row() {
    let board = Board::from_str("x.o\n...\n.ox").unwrap();
    assert_eq!(board.to_string(), "x.o\n...\n.ox\n");
    assert_eq!(Board::new(0).to_string(), "");
    assert_eq!(Board::new(1).to_string(), ".\n");
}

#[test]
fn text_form_reads_back_as_the_same_board() {
    let board = Board::from_str("x.o.\n.xx.\noo..\n...x").unwrap();
    let again = Board::from_str(&board.to_string()).unwrap();
    assert!(board == again);
    assert_eq!(board.hash(), again.hash());
}

#[test]
fn grid_form_has_numbers_along_two_sides() {
    let board = Board::from_str("x.\n.o").unwrap();
    assert_eq!(board.to_grid_string(), "    1  2\n 1  x  . \n 2  .  o \n");
    let wide = Board::new(10);
    let text = wide.to_grid_string();
    let lines: Vec<&str> = text.lines().collect();
    assert_eq!(lines.len(), 11);
    assert_eq!(lines[0], "    1  2  3  4  5  6  7  8  9 10");
    assert_eq!(lines[9], " 9  .  .  .  .  .  .  .  .  .  . ");
    assert_eq!(lines[10], "10  .  .  .  .  .  .  .  .  .  . ");
}

#[test]
fn boards_are_equal_when_side_and_stones_agree() {
    let mut one = Board::new(3);
    let other = Board::from_str("...\n.x.\n...").unwrap();
    assert!(one != other);
    one.place_stone(Color::Black, &Point::new(2, 2)).unwrap();
    assert!(one == other);
    assert!(one == one.clone());
    assert!(Board::new(3) != Board::new(4));
}

#[test]
fn side_is_reported() {
    assert_eq!(Board::new(7).size(), 7);
    assert_eq!(Board::from_str("..\n..").unwrap().size(), 2);
}
