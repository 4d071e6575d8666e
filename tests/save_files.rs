use nogo::error_handling::NogoErrorKind;
use nogo::game_logic::{
    create_board, get_current_game_state, update_board_with_move, NogoBoard, PlayerInput,
    PlayerType, PLAYER_ONE, PLAYER_ZERO,
};
use nogo::io::{
    get_current_player_id, get_player_type, parse_player_input, parse_player_strings_from_saved_file,
    parse_save_file_metadata, restore_game,
};

fn lines(v: &[&str]) -> Vec<String> {
    v.iter().map(|s| s.to_string()).collect()
}

fn occupied_cells(board: &NogoBoard) -> Vec<(i32, i32)> {
    let mut v: Vec<(i32, i32)> = board.occupied().iter().map(|p| (p.x(), p.y())).collect();
    v.sort();
    v
}

#[test]
fn save_writes_metadata_and_rows() {
    let mut board = create_board(&PlayerType::HUMAN, &PlayerType::COMPUTER, 4, 4);
    update_board_with_move(PLAYER_ZERO, 1, 1, &mut board);
    update_board_with_move(PLAYER_ZERO, 1, 2, &mut board);
    let data = get_current_game_state(&board, PLAYER_ONE);
    assert_eq!(data, lines(&["4 4 h c X", "....", ".00.", "....", "...."]));
}

#[test]
fn save_writes_large_dimensions() {
    let board = create_board(&PlayerType::COMPUTER, &PlayerType::HUMAN, 12, 1000);
    let data = get_current_game_state(&board, PLAYER_ZERO);
    assert_eq!(data.len(), 13);
    assert_eq!(data[0], "12 1000 c h 0");
    assert_eq!(data[5].len(), 1000);
}

#[test]
fn save_then_restore_keeps_occupied_cells() {
    let mut board = create_board(&PlayerType::HUMAN, &PlayerType::COMPUTER, 4, 4);
    update_board_with_move(PLAYER_ZERO, 1, 1, &mut board);
    update_board_with_move(PLAYER_ZERO, 1, 2, &mut board);
    update_board_with_move(PLAYER_ONE, 3, 0, &mut board);
    let data = get_current_game_state(&board, PLAYER_ONE);
    let (mut restored, cur) = restore_game(&data).ok().unwrap();
    assert_eq!(cur, PLAYER_ONE);
    assert_eq!(restored.height(), 4);
    assert_eq!(restored.width(), 4);
    assert_eq!(occupied_cells(&restored), occupied_cells(&board));
    assert_eq!(restored.liberties().len(), 13);
    assert_eq!(*restored.player(PLAYER_ZERO).unwrap().kind(), PlayerType::HUMAN);
    assert_eq!(restored.player(PLAYER_ZERO).unwrap().strings().len(), 1);
    assert_eq!(restored.player(PLAYER_ONE).unwrap().strings().len(), 1);
    assert_eq!(get_current_game_state(&restored, cur), data);
}

#[test]
fn restore_reads_lower_case_marker() {
    let data = lines(&["4 5 c c x", ".....", "x.0..", ".....", "....X"]);
    let (board, cur) = restore_game(&data).ok().unwrap();
    assert_eq!(cur, PLAYER_ONE);
    assert_eq!(board.width(), 5);
    assert_eq!(occupied_cells(&board), vec![(1, 0), (1, 2), (3, 4)]);
}

#[test]
fn restore_rejects_bad_files() {
    let kind = |v: &[&str]| *restore_game(&lines(v)).err().unwrap().kind();
    assert_eq!(kind(&[]), NogoErrorKind::ErrorReadingGameFile);
    assert_eq!(kind(&["4 4 h c"]), NogoErrorKind::ParsingError);
    assert_eq!(kind(&["4 four h c 0"]), NogoErrorKind::ParsingError);
    assert_eq!(kind(&["4 4 h q 0"]), NogoErrorKind::IncorrectTypes);
    assert_eq!(kind(&["4 4 h c 7"]), NogoErrorKind::ParsingError);
    assert_eq!(kind(&["3 4 h c 0", "....", "....", "...."]), NogoErrorKind::InvalidBoardDimensions);
    assert_eq!(kind(&["4 4 h c 0", "....", "....", "...."]), NogoErrorKind::ErrorReadingGameFile);
    assert_eq!(
        kind(&["4 4 h c 0", "....", ".....", "....", "...."]),
        NogoErrorKind::ErrorReadingGameFile
    );
    assert_eq!(
        kind(&["4 4 h c 0", "....", "..a.", "....", "...."]),
        NogoErrorKind::ErrorReadingGameFile
    );
}

#[test]
fn metadata_fields_are_read_in_order() {
    let m = vec!["10", "20", "C", "h", "X"];
    assert_eq!(
        parse_save_file_metadata(&m).ok().unwrap(),
        (10, 20, PlayerType::COMPUTER, PlayerType::HUMAN, PLAYER_ONE)
    );
    let bad = vec!["10", "x", "q", "h", "X"];
    assert_eq!(*parse_save_file_metadata(&bad).err().unwrap().kind(), NogoErrorKind::ParsingError);
    let big = vec!["10", "2000", "c", "h", "0"];
    assert_eq!(
        *parse_save_file_metadata(&big).err().unwrap().kind(),
        NogoErrorKind::InvalidBoardDimensions
    );
}

#[test]
fn player_codes_and_markers() {
    assert_eq!(get_player_type("h").ok().unwrap(), PlayerType::HUMAN);
    assert_eq!(get_player_type("C").ok().unwrap(), PlayerType::COMPUTER);
    assert_eq!(*get_player_type("hc").err().unwrap().kind(), NogoErrorKind::IncorrectTypes);
    assert_eq!(get_current_player_id("0").ok().unwrap(), PLAYER_ZERO);
    assert_eq!(get_current_player_id("x").ok().unwrap(), PLAYER_ONE);
    assert!(get_current_player_id("O").is_err());
}

#[test]
fn grid_rows_give_stones_in_row_order() {
    let a = String::from("0.x");
    let b = String::from("X0.");
    let rows = vec![&a, &b];
    let (zeros, xs) = parse_player_strings_from_saved_file(&rows).ok().unwrap();
    let z: Vec<(i32, i32, char)> = zeros.iter().map(|p| (p.x(), p.y(), *p.t())).collect();
    let x: Vec<(i32, i32, char)> = xs.iter().map(|p| (p.x(), p.y(), *p.t())).collect();
    assert_eq!(z, vec![(0, 0, '0'), (1, 1, '0')]);
    assert_eq!(x, vec![(0, 2, 'X'), (1, 0, 'X')]);
    let c = String::from("0-.");
    let bad = vec![&a, &c];
    assert_eq!(
        *parse_player_strings_from_saved_file(&bad).err().unwrap().kind(),
        NogoErrorKind::ErrorReadingGameFile
    );
}

#[test]
fn typed_lines_become_moves_or_saves() {
    let mut board = create_board(&PlayerType::HUMAN, &PlayerType::HUMAN, 4, 4);
    update_board_with_move(PLAYER_ZERO, 2, 2, &mut board);
    match parse_player_input("  1   3 ", &board) {
        Some(PlayerInput::Point(r, c)) => assert_eq!((r, c), (1, 3)),
        _ => panic!("expected a move"),
    }
    match parse_player_input("w/tmp/game.txt", &board) {
        Some(PlayerInput::Save(p)) => assert_eq!(p, "/tmp/game.txt"),
        _ => panic!("expected a save"),
    }
    assert!(parse_player_input("w", &board).is_none());
    assert!(parse_player_input("", &board).is_none());
    assert!(parse_player_input("2 2", &board).is_none());
    assert!(parse_player_input("4 0", &board).is_none());
    assert!(parse_player_input("-1 0", &board).is_none());
    assert!(parse_player_input("1 2 3", &board).is_none());
    assert!(parse_player_input("a b", &board).is_none());
}
