use nogo::error_handling::{construct_error, NogoError, NogoErrorKind};
use nogo::game_logic::{create_board, update_board_with_move, PlayerType, PLAYER_ZERO};
use nogo::text::{parse_i32, split_words};
use nogo::validation::{
    validate_board_dimensions, validate_new_game_parameters, validate_player_type,
    validate_user_move,
};

#[test]
fn each_error_kind_has_its_status_and_message() {
    let cases = [
        (NogoErrorKind::IncorrectNumberOfArgs, 1, "Program started with incorrect number of arguments"),
        (NogoErrorKind::IncorrectTypes, 2, "Invalid type(s)"),
        (NogoErrorKind::InvalidBoardDimensions, 3, "Invalid board dimension(s)"),
        (NogoErrorKind::CantOpenFileForReading, 4, "Unable to open save file"),
        (NogoErrorKind::ErrorReadingGameFile, 5, "Incorrect save file contents"),
        (NogoErrorKind::EOFWaitingForUserInput, 6, "End of input from user"),
        (NogoErrorKind::CantOpenFileForSaving, 7, "Unable to open new save file"),
        (NogoErrorKind::SystemIOError, 8, "System IO error"),
        (NogoErrorKind::ParsingError, 9, "Error while parsing value"),
    ];
    for (kind, status, general) in cases {
        let e = NogoError::new(kind);
        assert_eq!(*e.kind(), kind);
        assert_eq!(e.status(), status);
        assert_eq!(e.general(), general);
        assert_eq!(e.specific(), "");
    }
}

#[test]
fn constructed_error_carries_specific_message() {
    let mut e = construct_error("bad height", NogoErrorKind::InvalidBoardDimensions);
    assert_eq!(e.specific(), "bad height");
    assert_eq!(e.status(), 3);
    e.set_specific("other");
    assert_eq!(e.specific(), "other");
    assert_eq!(*e.kind(), NogoErrorKind::InvalidBoardDimensions);
}

#[test]
fn new_game_parameters_accepted() {
    assert_eq!(
        validate_new_game_parameters("h", "C", "4", "1000").ok().unwrap(),
        (PlayerType::HUMAN, PlayerType::COMPUTER, 4, 1000)
    );
}

#[test]
fn new_game_parameters_rejected_in_order() {
    let kind = |a, b, c, d| *validate_new_game_parameters(a, b, c, d).err().unwrap().kind();
    assert_eq!(kind("x", "h", "4", "4"), NogoErrorKind::IncorrectTypes);
    assert_eq!(kind("h", "hh", "4", "4"), NogoErrorKind::IncorrectTypes);
    assert_eq!(kind("h", "h", "3", "x"), NogoErrorKind::InvalidBoardDimensions);
    assert_eq!(kind("h", "h", "four", "3"), NogoErrorKind::IncorrectTypes);
    assert_eq!(kind("h", "h", "4", "1001"), NogoErrorKind::InvalidBoardDimensions);
    assert_eq!(kind("h", "h", "4", ""), NogoErrorKind::IncorrectTypes);
}

#[test]
fn player_type_codes() {
    assert_eq!(validate_player_type("c").ok().unwrap(), PlayerType::COMPUTER);
    assert_eq!(validate_player_type("H").ok().unwrap(), PlayerType::HUMAN);
    assert!(validate_player_type("").is_err());
    assert!(validate_player_type("human").is_err());
}

#[test]
fn board_dimensions_bounds() {
    assert_eq!(validate_board_dimensions("4", "4").ok().unwrap(), (4, 4));
    assert_eq!(validate_board_dimensions("+1000", "0999").ok().unwrap(), (1000, 999));
    assert_eq!(
        *validate_board_dimensions("1000", "3").err().unwrap().kind(),
        NogoErrorKind::InvalidBoardDimensions
    );
    assert_eq!(
        *validate_board_dimensions("-5", "4").err().unwrap().kind(),
        NogoErrorKind::InvalidBoardDimensions
    );
}

#[test]
fn integers_read_like_std() {
    for s in ["0", "-0", "+7", "-2147483648", "2147483647", "0012", "-15"] {
        assert_eq!(parse_i32(s), s.parse::<i32>().ok());
    }
    for s in ["", "+", "-", "2147483648", "-2147483649", "1 2", "12a", " 1", "99999999999999999999"] {
        assert_eq!(parse_i32(s), None);
        assert!(s.parse::<i32>().is_err());
    }
}

#[test]
fn words_split_on_white_space() {
    assert_eq!(split_words("  4 5\th  c\n0 "), vec!["4", "5", "h", "c", "0"]);
    assert!(split_words("   ").is_empty());
    assert_eq!(split_words("a\u{3000}b"), vec!["a", "b"]);
}

#[test]
fn user_move_must_be_free_and_on_board() {
    let mut board = create_board(&PlayerType::HUMAN, &PlayerType::HUMAN, 4, 6);
    assert!(validate_user_move(&board, (3, 5)));
    update_board_with_move(PLAYER_ZERO, 3, 5, &mut board);
    assert!(!validate_user_move(&board, (3, 5)));
    assert!(validate_user_move(&board, (0, 0)));
    assert!(!validate_user_move(&board, (4, 0)));
    assert!(!validate_user_move(&board, (0, 6)));
    assert!(!validate_user_move(&board, (-1, 0)));
    let libs = board.liberties();
    for p in libs.iter() {
        assert!(validate_user_move(&board, (p.x(), p.y())));
    }
}
