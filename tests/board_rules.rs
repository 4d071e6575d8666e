use nogo::game_logic::{
    check_winner, create_board, get_next_valid_move, render_board, replay_moves, turn_order,
    update_board_with_move, NogoBoard, NogoBoardState, NogoPlayer, NogoString, Point, PlayerType,
    PLAYER_ONE, PLAYER_ZERO,
};

fn board4() -> NogoBoard {
    create_board(&PlayerType::HUMAN, &PlayerType::COMPUTER, 4, 4)
}

fn has_cell(points: &Vec<Point>, x: i32, y: i32) -> bool {
    points.iter().any(|p| p.x() == x && p.y() == y)
}

#[test]
fn new_board_has_every_cell_free() {
    let board = board4();
    assert_eq!(board.height(), 4);
    assert_eq!(board.width(), 4);
    let libs = board.liberties();
    assert_eq!(libs.len(), 16);
    for i in 0..4 {
        for j in 0..4 {
            assert!(has_cell(&libs, i, j));
        }
    }
    assert!(libs.iter().all(|p| *p.t() == '.'));
}

#[test]
fn two_stones_form_one_string() {
    let mut board = board4();
    assert_eq!(board.liberties().len(), 16);
    update_board_with_move(PLAYER_ZERO, 1, 1, &mut board);
    update_board_with_move(PLAYER_ZERO, 1, 2, &mut board);
    let libs = board.liberties();
    assert_eq!(libs.len(), 14);
    assert!(!has_cell(&libs, 1, 1));
    assert!(!has_cell(&libs, 1, 2));
    let player = board.player(PLAYER_ZERO).unwrap();
    assert_eq!(player.strings().len(), 1);
    assert_eq!(player.strings()[0].components().len(), 2);
    assert!(!player.check_captured(&libs));
}

#[test]
fn surrounded_stone_is_captured() {
    let mut board = board4();
    update_board_with_move(PLAYER_ZERO, 1, 1, &mut board);
    update_board_with_move(PLAYER_ONE, 0, 1, &mut board);
    update_board_with_move(PLAYER_ONE, 2, 1, &mut board);
    update_board_with_move(PLAYER_ONE, 1, 0, &mut board);
    update_board_with_move(PLAYER_ONE, 1, 2, &mut board);
    let libs = board.liberties();
    assert!(board.player(PLAYER_ZERO).unwrap().check_captured(&libs));
    assert!(!board.player(PLAYER_ONE).unwrap().check_captured(&libs));
    assert_eq!(check_winner(&board), Some(PLAYER_ONE));
}

#[test]
fn no_winner_on_open_board() {
    let mut board = board4();
    update_board_with_move(PLAYER_ZERO, 1, 1, &mut board);
    update_board_with_move(PLAYER_ONE, 2, 2, &mut board);
    assert_eq!(check_winner(&board), None);
}

#[test]
fn player_zero_checked_first_when_both_captured() {
    // a corner stone of each player, each shut in by the other
    let mut board = board4();
    update_board_with_move(PLAYER_ZERO, 0, 0, &mut board);
    update_board_with_move(PLAYER_ONE, 0, 1, &mut board);
    update_board_with_move(PLAYER_ONE, 1, 0, &mut board);
    update_board_with_move(PLAYER_ONE, 3, 3, &mut board);
    update_board_with_move(PLAYER_ZERO, 2, 3, &mut board);
    update_board_with_move(PLAYER_ZERO, 3, 2, &mut board);
    assert_eq!(check_winner(&board), Some(PLAYER_ONE));
}

#[test]
fn second_player_captured_gives_first_the_win() {
    let mut board = board4();
    update_board_with_move(PLAYER_ONE, 0, 0, &mut board);
    update_board_with_move(PLAYER_ZERO, 0, 1, &mut board);
    update_board_with_move(PLAYER_ZERO, 1, 0, &mut board);
    assert_eq!(check_winner(&board), Some(PLAYER_ZERO));
}

#[test]
fn capture_counts_stone_by_stone() {
    // two stones that each touch the one free cell (0,2) are not captured
    let mut board = board4();
    update_board_with_move(PLAYER_ZERO, 0, 1, &mut board);
    update_board_with_move(PLAYER_ZERO, 0, 3, &mut board);
    for (r, c) in [(0, 0), (1, 1), (1, 3), (1, 2)] {
        update_board_with_move(PLAYER_ONE, r, c, &mut board);
    }
    let libs = board.liberties();
    assert!(has_cell(&libs, 0, 2));
    assert!(!board.player(PLAYER_ZERO).unwrap().check_captured(&libs));
    let mut none_free: Vec<Point> = Vec::new();
    none_free.push(Point::new(3, 3, '.'));
    assert!(board.player(PLAYER_ZERO).unwrap().check_captured(&none_free));
}

#[test]
fn occupying_twice_changes_nothing() {
    let mut board = board4();
    board.update_occupied(Point::new(2, 3, PLAYER_ZERO));
    let once: Vec<(i32, i32, char)> =
        board.occupied().iter().map(|p| (p.x(), p.y(), *p.t())).collect();
    board.update_occupied(Point::new(2, 3, PLAYER_ONE));
    let twice: Vec<(i32, i32, char)> =
        board.occupied().iter().map(|p| (p.x(), p.y(), *p.t())).collect();
    assert_eq!(once, twice);
    assert_eq!(once, vec![(2, 3, PLAYER_ZERO)]);
    assert_eq!(board.liberties().len(), 15);
}

#[test]
fn liberties_and_occupied_cover_the_board() {
    let mut board = create_board(&PlayerType::COMPUTER, &PlayerType::COMPUTER, 5, 7);
    for (r, c) in [(0, 0), (4, 6), (2, 3), (2, 4)] {
        update_board_with_move(PLAYER_ONE, r, c, &mut board);
    }
    let libs = board.liberties();
    let occ = board.occupied();
    assert_eq!(libs.len() + occ.len(), 35);
    for p in occ.iter() {
        assert!(!has_cell(&libs, p.x(), p.y()));
    }
}

#[test]
fn stone_joins_first_adjacent_string() {
    let mut player = NogoPlayer::new(PLAYER_ZERO, PlayerType::HUMAN);
    player.update_strings(Point::new(0, 0, PLAYER_ZERO));
    player.update_strings(Point::new(0, 2, PLAYER_ZERO));
    assert_eq!(player.strings().len(), 2);
    // (0,1) touches both strings: the first takes it, they are not merged
    player.update_strings(Point::new(0, 1, PLAYER_ZERO));
    assert_eq!(player.strings().len(), 2);
    assert_eq!(player.strings()[0].components().len(), 2);
    assert_eq!(player.strings()[1].components().len(), 1);
    // a lone stone starts a new string
    player.update_strings(Point::new(3, 3, PLAYER_ZERO));
    assert_eq!(player.strings().len(), 3);
    assert_eq!(player.strings()[2].components()[0].x(), 3);
    // diagonal is not adjacent
    player.update_strings(Point::new(2, 2, PLAYER_ZERO));
    assert_eq!(player.strings().len(), 4);
    assert_eq!(player.id(), PLAYER_ZERO);
    assert_eq!(*player.kind(), PlayerType::HUMAN);
}

#[test]
fn string_find_and_add() {
    let mut s = NogoString::new(Point::new(1, 1, PLAYER_ONE));
    assert!(s.find((1, 1)));
    assert!(!s.find((1, 2)));
    s.add(Point::new(1, 2, PLAYER_ONE));
    assert!(s.find((1, 2)));
    assert_eq!(s.components().len(), 2);
}

#[test]
fn replay_places_stones_in_order() {
    let mut board = board4();
    let moves = vec![
        Point::new(0, 0, PLAYER_ONE),
        Point::new(0, 1, PLAYER_ONE),
        Point::new(3, 3, PLAYER_ONE),
    ];
    replay_moves(PLAYER_ONE, moves, &mut board);
    assert_eq!(board.occupied().len(), 3);
    let player = board.player(PLAYER_ONE).unwrap();
    assert_eq!(player.strings().len(), 2);
    assert_eq!(player.strings()[0].components().len(), 2);
}

#[test]
fn player_lookup_by_marker() {
    let mut board = board4();
    assert_eq!(*board.player(PLAYER_ZERO).unwrap().kind(), PlayerType::HUMAN);
    assert_eq!(*board.player(PLAYER_ONE).unwrap().kind(), PlayerType::COMPUTER);
    assert!(board.player('?').is_none());
}

#[test]
fn computer_first_moves_on_empty_board() {
    let board = board4();
    assert_eq!(get_next_valid_move(&board, PLAYER_ZERO), (2, 1));
    assert_eq!(get_next_valid_move(&board, PLAYER_ONE), (3, 3));
}

#[test]
fn computer_skips_taken_cells() {
    let mut board = board4();
    update_board_with_move(PLAYER_ONE, 2, 1, &mut board);
    assert_eq!(get_next_valid_move(&board, PLAYER_ZERO), (0, 2));
}

#[test]
fn computer_finds_last_free_cell() {
    let mut board = board4();
    for i in 0..4 {
        for j in 0..4 {
            if (i, j) != (3, 0) {
                update_board_with_move(PLAYER_ONE, i, j, &mut board);
            }
        }
    }
    assert_eq!(get_next_valid_move(&board, PLAYER_ZERO), (3, 0));
    let mut big = create_board(&PlayerType::COMPUTER, &PlayerType::COMPUTER, 10, 10);
    for i in 0..10 {
        for j in 0..10 {
            if (i, j) != (9, 9) {
                update_board_with_move(PLAYER_ZERO, i, j, &mut big);
            }
        }
    }
    assert_eq!(get_next_valid_move(&big, PLAYER_ZERO), (9, 9));
}

#[test]
fn board_is_drawn_with_borders() {
    let mut board = board4();
    update_board_with_move(PLAYER_ZERO, 0, 0, &mut board);
    update_board_with_move(PLAYER_ONE, 3, 2, &mut board);
    let lines = render_board(&board);
    assert_eq!(lines, vec!["/----\\", "|0...|", "|....|", "|....|", "|..X.|", "\\----/"]);
}

#[test]
fn turn_order_follows_start_player() {
    assert_eq!(
        turn_order(&PlayerType::HUMAN, &PlayerType::COMPUTER, PLAYER_ZERO),
        ((PLAYER_ZERO, PlayerType::HUMAN), (PLAYER_ONE, PlayerType::COMPUTER))
    );
    assert_eq!(
        turn_order(&PlayerType::HUMAN, &PlayerType::COMPUTER, PLAYER_ONE),
        ((PLAYER_ONE, PlayerType::COMPUTER), (PLAYER_ZERO, PlayerType::HUMAN))
    );
}

#[test]
fn computer_moves_fill_a_board() {
    // both computer players move in turn until no cell is left; every move is a free cell
    let mut board = create_board(&PlayerType::COMPUTER, &PlayerType::COMPUTER, 6, 9);
    let mut turn = 0;
    while !board.liberties().is_empty() {
        let id = if turn % 2 == 0 { PLAYER_ZERO } else { PLAYER_ONE };
        let (x, y) = get_next_valid_move(&board, id);
        assert!(has_cell(&board.liberties(), x, y));
        update_board_with_move(id, x, y, &mut board);
        turn += 1;
    }
    assert_eq!(turn, 54);
    assert_eq!(board.occupied().len(), 54);
}

#[test]
fn board_state_on_its_own() {
    let state = NogoBoardState::new(PlayerType::HUMAN, PlayerType::COMPUTER, (4, 5));
    assert_eq!(state.liberties().len(), 20);
    assert!(state.occupied().is_empty());
    let (p0, p1) = state.players();
    assert_eq!((p0.id(), p1.id()), (PLAYER_ZERO, PLAYER_ONE));
    assert_eq!((*p0.kind(), *p1.kind()), (PlayerType::HUMAN, PlayerType::COMPUTER));
}
