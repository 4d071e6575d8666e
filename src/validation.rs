use vstd::prelude::*;
use crate::error_handling::{construct_error, NogoError, NogoErrorKind};
use crate::game_logic::{coords, NogoBoard, PlayerType, MAX_BOARD_DIMENSION, MIN_BOARD_DIMENSION};
use crate::text::{chars_of, i32_of, parse_i32};

verus! {

/// The kind of player that a code names: `c` or `C` for the computer, `h` or `H` for a human.
pub open spec fn player_type_of(s: Seq<char>) -> Option<PlayerType> {
    if s.len() == 1 && (s[0] == 'c' || s[0] == 'C') {
        Some(PlayerType::COMPUTER)
    } else if s.len() == 1 && (s[0] == 'h' || s[0] == 'H') {
        Some(PlayerType::HUMAN)
    } else {
        None
    }
}

/// A board dimension as text: a number within bounds, or the kind of error it gives.
pub open spec fn dimension_of(s: Seq<char>) -> Result<i32, NogoErrorKind> {
    match i32_of(s) {
        None => Err(NogoErrorKind::IncorrectTypes),
        Some(v) => if MIN_BOARD_DIMENSION <= v <= MAX_BOARD_DIMENSION {
            Ok(v)
        } else {
            Err(NogoErrorKind::InvalidBoardDimensions)
        },
    }
}

/// The parameters of a new game, checked in order; the first failure decides the error.
pub open spec fn new_game_parameters_of(
    p1: Seq<char>,
    p2: Seq<char>,
    height: Seq<char>,
    width: Seq<char>,
) -> Result<(PlayerType, PlayerType, i32, i32), NogoErrorKind> {
    if player_type_of(p1) is None {
        Err(NogoErrorKind::IncorrectTypes)
    } else if player_type_of(p2) is None {
        Err(NogoErrorKind::IncorrectTypes)
    } else if dimension_of(height) is Err {
        Err(dimension_of(height)->Err_0)
    } else if dimension_of(width) is Err {
        Err(dimension_of(width)->Err_0)
    } else {
        Ok(
            (
                player_type_of(p1)->0,
                player_type_of(p2)->0,
                dimension_of(height)->Ok_0,
                dimension_of(width)->Ok_0,
            ),
        )
    }
}

/// Checks the two player codes and the two dimensions of a new game.
pub fn validate_new_game_parameters<'a>(p1: &'a str, p2: &'a str, height: &'a str, width: &'a str) -> (r:
    Result<(PlayerType, PlayerType, i32, i32), NogoError<'a>>)
    ensures
        r is Ok <==> new_game_parameters_of(p1@, p2@, height@, width@) is Ok,
        r is Ok ==> r->Ok_0 == new_game_parameters_of(p1@, p2@, height@, width@)->Ok_0,
        r is Err ==> r->Err_0.spec_kind() == new_game_parameters_of(
            p1@,
            p2@,
            height@,
            width@,
        )->Err_0,
{
    let p1type = match validate_player_type(p1) {
        Ok(typ) => typ,
        Err(e) => return Err(e),
    };
    let p2type = match validate_player_type(p2) {
        Ok(typ) => typ,
        Err(e) => return Err(e),
    };
    let (height, width) = match validate_board_dimensions(height, width) {
        Ok((h, w)) => (h, w),
        Err(e) => return Err(e),
    };
    Ok((p1type, p2type, height, width))
}

/// The kind of player that the code `pt` names.
pub fn validate_player_type<'a>(pt: &'a str) -> (r: Result<PlayerType, NogoError<'a>>)
    ensures
        r is Ok <==> player_type_of(pt@) is Some,
        r is Ok ==> r->Ok_0 == player_type_of(pt@)->0,
        r is Err ==> r->Err_0.spec_kind() == NogoErrorKind::IncorrectTypes,
{
    let chars = chars_of(pt);
    if chars.len() == 1 {
        let c = chars[0];
        proof {
            assert(pt@ == seq![c]);
        }
        if c == 'c' || c == 'C' {
            return Ok(PlayerType::COMPUTER);
        } else if c == 'h' || c == 'H' {
            return Ok(PlayerType::HUMAN);
        }
    }
    Err(
        construct_error(
            "wrong input for player type - only 'c' or 'h' accepted",
            NogoErrorKind::IncorrectTypes,
        ),
    )
}

/// Checks the height, then the width, of a new board.
pub fn validate_board_dimensions<'a>(height: &'a str, width: &'a str) -> (r: Result<
    (i32, i32),
    NogoError<'a>,
>)
    ensures
        r is Ok <==> dimension_of(height@) is Ok && dimension_of(width@) is Ok,
        r is Ok ==> r->Ok_0 == (dimension_of(height@)->Ok_0, dimension_of(width@)->Ok_0),
        r is Err ==> r->Err_0.spec_kind() == if dimension_of(height@) is Err {
            dimension_of(height@)->Err_0
        } else {
            dimension_of(width@)->Err_0
        },
{
    let h: i32;
    let w: i32;
    match parse_i32(height) {
        Some(val) => {
            if val < MIN_BOARD_DIMENSION || val > MAX_BOARD_DIMENSION {
                return Err(
                    construct_error(
                        "height must be between 4 and 1000 (inclusive)",
                        NogoErrorKind::InvalidBoardDimensions,
                    ),
                );
            }
            h = val;
        },
        None => {
            return Err(
                construct_error(
                    "incorrect type of height - only a number is accepted",
                    NogoErrorKind::IncorrectTypes,
                ),
            );
        },
    }
    match parse_i32(width) {
        Some(val) => {
            if val < MIN_BOARD_DIMENSION || val > MAX_BOARD_DIMENSION {
                return Err(
                    construct_error(
                        "width must be between 4 and 1000 (inclusive)",
                        NogoErrorKind::InvalidBoardDimensions,
                    ),
                );
            }
            w = val;
        },
        None => {
            return Err(
                construct_error(
                    "incorrect type of width - only a number is accepted",
                    NogoErrorKind::IncorrectTypes,
                ),
            );
        },
    }
    Ok((h, w))
}

/// Whether the cell `mv` is a free cell of the board.
pub fn validate_user_move(board: &NogoBoard, mv: (i32, i32)) -> (r: bool)
    requires
        board.wf(),
    ensures
        r == board.free_coords().contains((mv.0 as int, mv.1 as int)),
{
    let points = board.liberties();
    let mut i: usize = 0;
    while i < points.len()
        invariant
            0 <= i <= points.len(),
            coords(points@) == board.free_coords(),
            forall|j: int|
                0 <= j < i ==> (#[trigger] points@[j])@.0 != mv.0 || points@[j]@.1 != mv.1,
        decreases points.len() - i,
    {
        let point = &points[i];
        if point.x() == mv.0 && point.y() == mv.1 {
            assert(crate::game_logic::coord(points@[i as int]@) == (mv.0 as int, mv.1 as int));
            return true;
        }
        i += 1;
    }
    proof {
        assert(!coords(points@).contains((mv.0 as int, mv.1 as int))) by {
            if coords(points@).contains((mv.0 as int, mv.1 as int)) {
                let j = choose|j: int|
                    0 <= j < points@.len() && #[trigger] crate::game_logic::coord(points@[j]@) == (
                    mv.0 as int,
                    mv.1 as int,
                );
                assert(points@[j]@.0 != mv.0 || points@[j]@.1 != mv.1);
            }
        }
    }
    false
}

/// The move check agrees with the free cells: a cell passes it exactly when it is among the
/// liberties of the board.
pub proof fn lemma_validator_agrees(board: NogoBoard, mv: (i32, i32), liberties: Seq<
    crate::game_logic::Point,
>)
    requires
        board.wf(),
        coords(liberties) == board.free_coords(),
    ensures
        crate::game_logic::has_coord(liberties, (mv.0 as int, mv.1 as int))
            == board.free_coords().contains((mv.0 as int, mv.1 as int)),
{
}

} // verus!
