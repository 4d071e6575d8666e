use vstd::prelude::*;
use crate::error_handling::{construct_error, NogoError, NogoErrorKind};
use crate::game_logic::{
    cell_char, coord, coords, create_board, grid_line, has_coord, kind_code, lemma_coords_concat,
    lemma_board_dimensions, lemma_has_coord_push, lemma_occupied_after_all_coords, lemma_spec_new_view, metadata_line,
    occupied_after_all, replay_moves, save_lines, strings_after_all, NogoBoard, Point, PlayerInput,
    PlayerType,
    MAX_BOARD_DIMENSION, MIN_BOARD_DIMENSION, PLAYER_ONE, PLAYER_ZERO,
};
use crate::text::{
    push_char, chars_of, decimal, i32_of, lemma_decimal_round_trip, lemma_words_of_fields, parse_i32,
    split_words, words,
};
use crate::validation::{player_type_of, validate_user_move};

verus! {

/// The player that a marker in a save file names: `0`, or `x` or `X`.
pub open spec fn player_id_of(s: Seq<char>) -> Option<char> {
    if s.len() == 1 && s[0] == '0' {
        Some(PLAYER_ZERO)
    } else if s.len() == 1 && (s[0] == 'x' || s[0] == 'X') {
        Some(PLAYER_ONE)
    } else {
        None
    }
}

/// The fields of the first line of a save file, checked in order: height, width, the two
/// kinds of player, the player to move, then the bounds of the board.
pub open spec fn metadata_of(m: Seq<Seq<char>>) -> Result<
    (i32, i32, PlayerType, PlayerType, char),
    NogoErrorKind,
> {
    if m.len() < 5 {
        Err(NogoErrorKind::ParsingError)
    } else if i32_of(m[0]) is None || i32_of(m[1]) is None {
        Err(NogoErrorKind::ParsingError)
    } else if player_type_of(m[2]) is None || player_type_of(m[3]) is None {
        Err(NogoErrorKind::IncorrectTypes)
    } else if player_id_of(m[4]) is None {
        Err(NogoErrorKind::ParsingError)
    } else {
        let h = i32_of(m[0])->0;
        let w = i32_of(m[1])->0;
        if MIN_BOARD_DIMENSION <= h <= MAX_BOARD_DIMENSION && MIN_BOARD_DIMENSION <= w
            <= MAX_BOARD_DIMENSION {
            Ok((h, w, player_type_of(m[2])->0, player_type_of(m[3])->0, player_id_of(m[4])->0))
        } else {
            Err(NogoErrorKind::InvalidBoardDimensions)
        }
    }
}

/// The kind of player that the code `p` names.
pub fn get_player_type<'a>(p: &str) -> (r: Result<PlayerType, NogoError<'a>>)
    ensures
        r is Ok <==> player_type_of(p@) is Some,
        r is Ok ==> r->Ok_0 == player_type_of(p@)->0,
        r is Err ==> r->Err_0.spec_kind() == NogoErrorKind::IncorrectTypes,
{
    let chars = chars_of(p);
    if chars.len() == 1 {
        let c = chars[0];
        proof {
            assert(p@ == seq![c]);
        }
        if c == 'c' || c == 'C' {
            return Ok(PlayerType::COMPUTER);
        } else if c == 'h' || c == 'H' {
            return Ok(PlayerType::HUMAN);
        }
    }
    Err(construct_error("incorrect type for player 0", NogoErrorKind::IncorrectTypes))
}

/// The player that the marker `p_id` names.
pub fn get_current_player_id<'a>(p_id: &str) -> (r: Result<char, NogoError<'a>>)
    ensures
        r is Ok <==> player_id_of(p_id@) is Some,
        r is Ok ==> r->Ok_0 == player_id_of(p_id@)->0,
        r is Err ==> r->Err_0.spec_kind() == NogoErrorKind::ParsingError,
{
    let chars = chars_of(p_id);
    if chars.len() == 1 {
        let c = chars[0];
        proof {
            assert(p_id@ == seq![c]);
        }
        if c == '0' {
            return Ok(PLAYER_ZERO);
        } else if c == 'x' || c == 'X' {
            return Ok(PLAYER_ONE);
        }
    }
    Err(
        construct_error(
            "incorrect type specified for current player",
            NogoErrorKind::ParsingError,
        ),
    )
}

/// Reads the fields of the first line of a save file.
pub fn parse_save_file_metadata<'a>(metadata: &Vec<&str>) -> (r: Result<
    (i32, i32, PlayerType, PlayerType, char),
    NogoError<'a>,
>)
    ensures
        r is Ok <==> metadata_of(metadata@.map_values(|s: &str| s@)) is Ok,
        r is Ok ==> r->Ok_0 == metadata_of(metadata@.map_values(|s: &str| s@))->Ok_0,
        r is Err ==> r->Err_0.spec_kind() == metadata_of(
            metadata@.map_values(|s: &str| s@),
        )->Err_0,
{
    let ghost m = metadata@.map_values(|s: &str| s@);
    if metadata.len() < 5 {
        return Err(construct_error("missing fields in save file", NogoErrorKind::ParsingError));
    }
    assert(m[0] == metadata@[0]@ && m[1] == metadata@[1]@ && m[2] == metadata@[2]@);
    assert(m[3] == metadata@[3]@ && m[4] == metadata@[4]@);
    let h = match parse_i32(metadata[0]) {
        Some(v) => v,
        None => {
            return Err(construct_error("height is not a number", NogoErrorKind::ParsingError));
        },
    };
    let w = match parse_i32(metadata[1]) {
        Some(v) => v,
        None => {
            return Err(construct_error("width is not a number", NogoErrorKind::ParsingError));
        },
    };
    let p1 = match get_player_type(metadata[2]) {
        Ok(t) => t,
        Err(e) => {
            return Err(e);
        },
    };
    let p2 = match get_player_type(metadata[3]) {
        Ok(t) => t,
        Err(e) => {
            return Err(e);
        },
    };
    let c = match get_current_player_id(metadata[4]) {
        Ok(c) => c,
        Err(e) => {
            return Err(e);
        },
    };
    if h < MIN_BOARD_DIMENSION || h > MAX_BOARD_DIMENSION || w < MIN_BOARD_DIMENSION || w
        > MAX_BOARD_DIMENSION {
        return Err(
            construct_error(
                "board dimensions must be between 4 and 1000 (inclusive)",
                NogoErrorKind::InvalidBoardDimensions,
            ),
        );
    }
    Ok((h, w, p1, p2, c))
}

/// The player whose stone a character of the board stands for: `0`, or `x` or `X`.
pub open spec fn cell_owner(c: char) -> Option<char> {
    if c == '0' {
        Some(PLAYER_ZERO)
    } else if c == 'x' || c == 'X' {
        Some(PLAYER_ONE)
    } else {
        None
    }
}

/// A character that may stand in the board of a save file.
pub open spec fn valid_cell(c: char) -> bool {
    c == '.' || cell_owner(c) is Some
}

/// Every character of the rows `rows` may stand in a board.
pub open spec fn grid_valid(rows: Seq<Seq<char>>) -> bool {
    forall|i: int, j: int|
        0 <= i < rows.len() && 0 <= j < rows[i].len() ==> valid_cell(#[trigger] rows[i][j])
}

/// The stones of player `id` in `line`, row `i` of a board, left to right.
pub open spec fn line_stones(line: Seq<char>, i: int, id: char) -> Seq<Point>
    decreases line.len(),
{
    if line.len() == 0 {
        Seq::empty()
    } else {
        let rest = line_stones(line.drop_last(), i, id);
        if cell_owner(line.last()) == Some(id) {
            rest.push(Point::spec_new(i as i32, (line.len() - 1) as i32, id))
        } else {
            rest
        }
    }
}

/// The stones of player `id` in the rows `rows`, row by row, each row left to right.
pub open spec fn grid_stones(rows: Seq<Seq<char>>, id: char) -> Seq<Point>
    decreases rows.len(),
{
    if rows.len() == 0 {
        Seq::empty()
    } else {
        grid_stones(rows.drop_last(), id) + line_stones(rows.last(), rows.len() - 1, id)
    }
}

/// Reads the stones of the two players from the rows of a save file.
pub fn parse_player_strings_from_saved_file<'a>(data: &Vec<&String>) -> (r: Result<
    (Vec<Point>, Vec<Point>),
    NogoError<'a>,
>)
    requires
        data@.len() <= i32::MAX,
        forall|k: int| 0 <= k < data@.len() ==> (#[trigger] data@[k])@.len() <= i32::MAX,
    ensures
        r is Ok <==> grid_valid(data@.map_values(|s: &String| s@)),
        r is Ok ==> r->Ok_0.0@ == grid_stones(data@.map_values(|s: &String| s@), PLAYER_ZERO),
        r is Ok ==> r->Ok_0.1@ == grid_stones(data@.map_values(|s: &String| s@), PLAYER_ONE),
        r is Err ==> r->Err_0.spec_kind() == NogoErrorKind::ErrorReadingGameFile,
{
    let ghost rows = data@.map_values(|s: &String| s@);
    let mut zero_points: Vec<Point> = Vec::new();
    let mut x_points: Vec<Point> = Vec::new();
    let mut i: i32 = 0;
    let mut k: usize = 0;
    while k < data.len()
        invariant
            0 <= k <= data@.len(),
            i == k,
            data@.len() <= i32::MAX,
            forall|k2: int| 0 <= k2 < data@.len() ==> (#[trigger] data@[k2])@.len() <= i32::MAX,
            rows == data@.map_values(|s: &String| s@),
            grid_valid(rows.take(k as int)),
            zero_points@ == grid_stones(rows.take(k as int), PLAYER_ZERO),
            x_points@ == grid_stones(rows.take(k as int), PLAYER_ONE),
        decreases data@.len() - k,
    {
        let line = chars_of(data[k].as_str());
        assert(line@ == rows[k as int]);
        let ghost z0 = zero_points@;
        let ghost x0 = x_points@;
        let mut j: i32 = 0;
        let mut l: usize = 0;
        while l < line.len()
            invariant
                0 <= l <= line@.len(),
                j == l,
                i == k,
                k < data@.len(),
                line@.len() <= i32::MAX,
                rows == data@.map_values(|s: &String| s@),
                line@ == rows[k as int],
                forall|c: int| 0 <= c < l ==> valid_cell(#[trigger] line@[c]),
                zero_points@ == z0 + line_stones(line@.take(l as int), i as int, PLAYER_ZERO),
                x_points@ == x0 + line_stones(line@.take(l as int), i as int, PLAYER_ONE),
            decreases line@.len() - l,
        {
            let c = line[l];
            assert(line@.take(l + 1).drop_last() == line@.take(l as int));
            assert(line@.take(l + 1).last() == c);
            assert(line@.take(l + 1).len() - 1 == j);
            match c {
                '0' => {
                    zero_points.push(Point::new(i, j, PLAYER_ZERO));
                    assert(zero_points@ =~= z0 + line_stones(
                        line@.take(l + 1),
                        i as int,
                        PLAYER_ZERO,
                    ));
                },
                'x' | 'X' => {
                    x_points.push(Point::new(i, j, PLAYER_ONE));
                    assert(x_points@ =~= x0 + line_stones(
                        line@.take(l + 1),
                        i as int,
                        PLAYER_ONE,
                    ));
                },
                '.' => {},
                _ => {
                    assert(!valid_cell(rows[k as int][l as int]));
                    assert(!grid_valid(rows));
                    return Err(
                        construct_error(
                            "invalid character found in board data",
                            NogoErrorKind::ErrorReadingGameFile,
                        ),
                    );
                },
            }
            j += 1;
            l += 1;
        }
        proof {
            assert(line@.take(line@.len() as int) == line@);
            let next = rows.take(k + 1);
            assert(next.drop_last() == rows.take(k as int));
            assert(next.last() == line@);
            assert forall|a: int, b: int|
                0 <= a < next.len() && 0 <= b < next[a].len() implies valid_cell(
                #[trigger] next[a][b],
            ) by {
                if a < k {
                    assert(next[a] == rows.take(k as int)[a]);
                } else {
                    assert(next[a] == line@);
                }
            }
        }
        i += 1;
        k += 1;
    }
    assert(rows.take(data@.len() as int) == rows);
    Ok((zero_points, x_points))
}

/// The error that reading the lines `lines` of a save file gives, if any.
pub open spec fn restore_error(lines: Seq<Seq<char>>) -> Option<NogoErrorKind> {
    if lines.len() == 0 {
        Some(NogoErrorKind::ErrorReadingGameFile)
    } else {
        match metadata_of(words(lines[0])) {
            Err(e) => Some(e),
            Ok(m) => {
                let rows = lines.drop_first();
                if rows.len() != m.0 || exists|i: int|
                    0 <= i < rows.len() && #[trigger] rows[i].len() != m.1 {
                    Some(NogoErrorKind::ErrorReadingGameFile)
                } else if !grid_valid(rows) {
                    Some(NogoErrorKind::ErrorReadingGameFile)
                } else {
                    None
                }
            },
        }
    }
}

/// Rebuilds a game from the lines of its save file: the board, with the stones of player `0`
/// replayed row by row and then those of player `X`, and the player to move.
pub fn restore_game<'a>(game_data: &Vec<String>) -> (r: Result<(NogoBoard, char), NogoError<'a>>)
    ensures
        ({
            let lines = game_data@.map_values(|s: String| s@);
            &&& r is Ok <==> restore_error(lines) is None
            &&& r is Err ==> r->Err_0.spec_kind() == restore_error(lines)->0
            &&& r is Ok ==> {
                let m = metadata_of(words(lines[0]))->Ok_0;
                let rows = lines.drop_first();
                let zeros = grid_stones(rows, PLAYER_ZERO);
                let xs = grid_stones(rows, PLAYER_ONE);
                let board = r->Ok_0.0;
                &&& board.wf()
                &&& board.spec_height() == m.0
                &&& board.spec_width() == m.1
                &&& board.player_zero().spec_kind() == m.2
                &&& board.player_one().spec_kind() == m.3
                &&& r->Ok_0.1 == m.4
                &&& board.occupied_view() == occupied_after_all(
                    occupied_after_all(Seq::empty(), zeros),
                    xs,
                )
                &&& board.player_zero().strings_view() == strings_after_all(Seq::empty(), zeros)
                &&& board.player_one().strings_view() == strings_after_all(Seq::empty(), xs)
            }
        }),
{
    let ghost lines = game_data@.map_values(|s: String| s@);
    if game_data.len() == 0 {
        return Err(construct_error("empty save file", NogoErrorKind::ErrorReadingGameFile));
    }
    let words_vec = split_words(game_data[0].as_str());
    let mut metadata: Vec<&str> = Vec::new();
    let mut k: usize = 0;
    while k < words_vec.len()
        invariant
            0 <= k <= words_vec.len(),
            metadata@.len() == k,
            forall|j: int| 0 <= j < k ==> (#[trigger] metadata@[j])@ == words_vec@[j]@,
        decreases words_vec.len() - k,
    {
        metadata.push(words_vec[k].as_str());
        k += 1;
    }
    assert(metadata@.map_values(|s: &str| s@) =~= words(lines[0])) by {
        assert(words_vec@.map_values(|w: String| w@) == words(game_data@[0]@));
    }
    let (height, width, p1type, p2type, curr_player) = match parse_save_file_metadata(&metadata) {
        Ok(m) => m,
        Err(e) => {
            return Err(e);
        },
    };
    let ghost rows = lines.drop_first();
    if game_data.len() - 1 != height as usize {
        return Err(
            construct_error("wrong number of rows in save file", NogoErrorKind::ErrorReadingGameFile),
        );
    }
    let mut grid: Vec<&String> = Vec::new();
    let mut k: usize = 1;
    while k < game_data.len()
        invariant
            1 <= k <= game_data.len(),
            game_data@.len() == height + 1,
            MIN_BOARD_DIMENSION <= width <= MAX_BOARD_DIMENSION,
            lines == game_data@.map_values(|s: String| s@),
            rows == lines.drop_first(),
            lines.len() > 0,
            metadata_of(words(lines[0])) == Ok::<(i32, i32, PlayerType, PlayerType, char), NogoErrorKind>((height, width, p1type, p2type, curr_player)),
            grid@.len() == k - 1,
            forall|j: int| 0 <= j < k - 1 ==> (#[trigger] grid@[j])@ == rows[j],
            forall|j: int| 0 <= j < k - 1 ==> (#[trigger] rows[j]).len() == width,
        decreases game_data.len() - k,
    {
        let row = &game_data[k];
        if chars_of(row.as_str()).len() != width as usize {
            assert(rows[k - 1] == row@);
            assert(rows[k - 1].len() != width);
            assert(restore_error(lines) == Some(NogoErrorKind::ErrorReadingGameFile));
            return Err(
                construct_error(
                    "wrong number of columns in save file",
                    NogoErrorKind::ErrorReadingGameFile,
                ),
            );
        }
        grid.push(row);
        k += 1;
    }
    assert(grid@.map_values(|s: &String| s@) =~= rows);
    let (player_0_strings, player_1_strings) = match parse_player_strings_from_saved_file(&grid) {
        Ok(p) => p,
        Err(e) => {
            return Err(e);
        },
    };
    let mut board = create_board(&p1type, &p2type, height, width);
    replay_moves(PLAYER_ZERO, player_0_strings, &mut board);
    replay_moves(PLAYER_ONE, player_1_strings, &mut board);
    Ok((board, curr_player))
}

/// The cells of the stones of player `id` in row `i`.
proof fn lemma_line_stones_coords(line: Seq<char>, i: int, id: char)
    requires
        i32::MIN <= i <= i32::MAX,
        line.len() <= i32::MAX + 1,
    ensures
        forall|q: (int, int)|
            #[trigger] coords(line_stones(line, i, id)).contains(q) <==> (q.0 == i && 0 <= q.1
                < line.len() && cell_owner(line[q.1]) == Some(id)),
    decreases line.len(),
{
    if line.len() > 0 {
        let pre = line.drop_last();
        lemma_line_stones_coords(pre, i, id);
        let rest = line_stones(pre, i, id);
        let p = Point::spec_new(i as i32, (line.len() - 1) as i32, id);
        lemma_spec_new_view(i as i32, (line.len() - 1) as i32, id);
        assert forall|q: (int, int)|
            #[trigger] coords(line_stones(line, i, id)).contains(q) <==> (q.0 == i && 0 <= q.1
                < line.len() && cell_owner(line[q.1]) == Some(id)) by {
            lemma_has_coord_push(rest, p, q);
            assert(coords(rest).contains(q) == has_coord(rest, q));
            if 0 <= q.1 < line.len() - 1 {
                assert(pre[q.1] == line[q.1]);
            }
        }
    }
}

/// The cells of the stones of player `id` in the rows `rows`.
proof fn lemma_grid_stones_coords(rows: Seq<Seq<char>>, id: char)
    requires
        rows.len() <= i32::MAX + 1,
        forall|i: int| 0 <= i < rows.len() ==> (#[trigger] rows[i]).len() <= i32::MAX + 1,
    ensures
        forall|q: (int, int)|
            #[trigger] coords(grid_stones(rows, id)).contains(q) <==> (0 <= q.0 < rows.len() && 0
                <= q.1 < rows[q.0].len() && cell_owner(rows[q.0][q.1]) == Some(id)),
    decreases rows.len(),
{
    if rows.len() > 0 {
        let pre = rows.drop_last();
        let last = rows.last();
        let i = rows.len() - 1;
        assert forall|k: int| 0 <= k < pre.len() implies (#[trigger] pre[k]).len() <= i32::MAX
            + 1 by {
            assert(pre[k] == rows[k]);
        }
        lemma_grid_stones_coords(pre, id);
        lemma_line_stones_coords(last, i, id);
        lemma_coords_concat(grid_stones(pre, id), line_stones(last, i, id));
        assert forall|q: (int, int)|
            #[trigger] coords(grid_stones(rows, id)).contains(q) <==> (0 <= q.0 < rows.len() && 0
                <= q.1 < rows[q.0].len() && cell_owner(rows[q.0][q.1]) == Some(id)) by {
            assert(coords(grid_stones(pre, id)).contains(q) <==> (0 <= q.0 < pre.len() && 0 <= q.1
                < pre[q.0].len() && cell_owner(pre[q.0][q.1]) == Some(id)));
            assert(coords(line_stones(last, i, id)).contains(q) <==> (q.0 == i && 0 <= q.1
                < last.len() && cell_owner(last[q.1]) == Some(id)));
            if 0 <= q.0 < pre.len() {
                assert(pre[q.0] == rows[q.0]);
            }
        }
    }
}

/// Saving a game and reading the lines back succeeds and occupies exactly the cells that were
/// occupied; where each player is a human or the computer, it also gives back the dimensions,
/// the kinds of player and the player to move. This holds of a board whose stones stand on it
/// and carry the players' markers, with a player's marker to move.
pub proof fn lemma_save_restore_round_trip(board: NogoBoard, cur: char)
    requires
        board.wf(),
        board.occupied_coords().subset_of(board.all_coords()),
        forall|i: int|
            0 <= i < board.occupied_view().len() ==> (#[trigger] board.occupied_view()[i])@.2
                == PLAYER_ZERO || board.occupied_view()[i]@.2 == PLAYER_ONE,
        cur == PLAYER_ZERO || cur == PLAYER_ONE,
    ensures
        ({
            let lines = save_lines(board, cur);
            let rows = lines.drop_first();
            &&& restore_error(lines) is None
            &&& board.player_zero().spec_kind() != PlayerType::NONE
                && board.player_one().spec_kind() != PlayerType::NONE ==> metadata_of(
                words(lines[0]),
            ) == Ok::<
                (i32, i32, PlayerType, PlayerType, char),
                NogoErrorKind,
            >(
                (
                    board.spec_height() as i32,
                    board.spec_width() as i32,
                    board.player_zero().spec_kind(),
                    board.player_one().spec_kind(),
                    cur,
                ),
            )
            &&& coords(
                occupied_after_all(
                    occupied_after_all(Seq::empty(), grid_stones(rows, PLAYER_ZERO)),
                    grid_stones(rows, PLAYER_ONE),
                ),
            ) == board.occupied_coords()
        }),
{
    let h = board.spec_height();
    let w = board.spec_width();
    let k1 = board.player_zero().spec_kind();
    let k2 = board.player_one().spec_kind();
    let occ = board.occupied_view();
    let lines = save_lines(board, cur);
    let rows = lines.drop_first();
    lemma_board_dimensions(board);
    lemma_decimal_round_trip(h as nat);
    lemma_decimal_round_trip(w as nat);
    lemma_words_of_fields(decimal(h as nat), decimal(w as nat), kind_code(k1), kind_code(k2), cur);
    assert(lines[0] == metadata_line(h as nat, w as nat, k1, k2, cur));
    let m = words(lines[0]);
    assert(m == seq![decimal(h as nat), decimal(w as nat), seq![kind_code(k1)], seq![kind_code(k2)], seq![cur]]);
    assert(i32_of(m[0]) == Some(h as i32));
    assert(i32_of(m[1]) == Some(w as i32));
    assert(player_type_of(m[2]) is Some && player_type_of(m[3]) is Some);
    assert(k1 != PlayerType::NONE ==> player_type_of(m[2]) == Some(k1));
    assert(k2 != PlayerType::NONE ==> player_type_of(m[3]) == Some(k2));
    assert(player_id_of(m[4]) == Some(cur));
    assert(rows.len() == h);
    assert forall|i: int| 0 <= i < rows.len() implies #[trigger] rows[i] == grid_line(occ, i, w) by {
    }
    assert forall|i: int, j: int|
        0 <= i < rows.len() && 0 <= j < rows[i].len() implies (#[trigger] rows[i][j] == cell_char(
        occ,
        (i, j),
    )) && (cell_owner(rows[i][j]) is Some <==> has_coord(occ, (i, j))) && valid_cell(rows[i][j]) by {
        assert(rows[i] == grid_line(occ, i, w));
        if has_coord(occ, (i, j)) {
            let c = choose|c: int| 0 <= c < occ.len() && #[trigger] coord(occ[c]@) == (i, j);
            assert(occ[c]@.2 == PLAYER_ZERO || occ[c]@.2 == PLAYER_ONE);
        }
    }
    assert(!exists|i: int| 0 <= i < rows.len() && #[trigger] rows[i].len() != w);
    assert(grid_valid(rows));
    let zeros = grid_stones(rows, PLAYER_ZERO);
    let xs = grid_stones(rows, PLAYER_ONE);
    lemma_grid_stones_coords(rows, PLAYER_ZERO);
    lemma_grid_stones_coords(rows, PLAYER_ONE);
    lemma_occupied_after_all_coords(Seq::empty(), zeros);
    lemma_occupied_after_all_coords(occupied_after_all(Seq::empty(), zeros), xs);
    assert(coords(Seq::<Point>::empty()) =~= Set::<(int, int)>::empty());
    assert forall|q: (int, int)| #[trigger] coords(zeros).union(coords(xs)).contains(q)
        == board.occupied_coords().contains(q) by {
        if board.occupied_coords().contains(q) {
            assert(board.all_coords().contains(q));
            assert(rows[q.0].len() == w);
        }
        if 0 <= q.0 < rows.len() && 0 <= q.1 < rows[q.0].len() {
            assert(cell_owner(rows[q.0][q.1]) is Some <==> has_coord(occ, q));
        }
    }
    assert(coords(zeros).union(coords(xs)) =~= board.occupied_coords());
    assert(coords(Seq::<Point>::empty()).union(coords(zeros)) =~= coords(zeros));
}

/// The path that a line asks to save the game to: the line is one word, `w` or `W` followed
/// by the path.
pub open spec fn save_path_of(ws: Seq<Seq<char>>) -> Option<Seq<char>> {
    if ws.len() == 1 && ws[0].len() > 1 && (ws[0][0] == 'w' || ws[0][0] == 'W') {
        Some(ws[0].drop_first())
    } else {
        None
    }
}

/// The move that a line proposes: two numbers, a row and a column, that name a free cell.
pub open spec fn move_of(ws: Seq<Seq<char>>, board: NogoBoard) -> Option<(i32, i32)> {
    if ws.len() == 2 && i32_of(ws[0]) is Some && i32_of(ws[1]) is Some {
        let r = i32_of(ws[0])->0;
        let c = i32_of(ws[1])->0;
        if board.free_coords().contains((r as int, c as int)) {
            Some((r, c))
        } else {
            None
        }
    } else {
        None
    }
}

/// What a line typed by a human player asks for: saving the game, a move to a free cell, or
/// nothing that can be played (`None`, and the player is asked again).
pub fn parse_player_input(line: &str, board: &NogoBoard) -> (r: Option<PlayerInput>)
    requires
        board.wf(),
    ensures
        ({
            let ws = words(line@);
            &&& r is None <==> save_path_of(ws) is None && move_of(ws, *board) is None
            &&& save_path_of(ws) is Some ==> (r matches Some(PlayerInput::Save(p)) && p@
                == save_path_of(ws)->0)
            &&& save_path_of(ws) is None && move_of(ws, *board) is Some ==> {
                let (row, col) = move_of(ws, *board)->0;
                r == Some(PlayerInput::Point(row, col))
            }
        }),
{
    let entries = split_words(line);
    let ghost ws = words(line@);
    assert(entries@.len() == ws.len());
    if entries.len() == 1 {
        let first = chars_of(entries[0].as_str());
        assert(first@ == ws[0]);
        if first.len() > 1 && (first[0] == 'w' || first[0] == 'W') {
            let mut path = String::new();
            let mut k: usize = 1;
            while k < first.len()
                invariant
                    1 <= k <= first@.len(),
                    path@ == first@.subrange(1, k as int),
                decreases first@.len() - k,
            {
                push_char(&mut path, first[k]);
                assert(path@ =~= first@.subrange(1, k + 1));
                k += 1;
            }
            assert(path@ =~= ws[0].drop_first());
            return Some(PlayerInput::Save(path));
        }
        return None;
    }
    if entries.len() != 2 {
        return None;
    }
    assert(entries@[0]@ == ws[0] && entries@[1]@ == ws[1]);
    let r = match parse_i32(entries[0].as_str()) {
        Some(v) => v,
        None => {
            return None;
        },
    };
    let c = match parse_i32(entries[1].as_str()) {
        Some(v) => v,
        None => {
            return None;
        },
    };
    if r >= board.height() || r < 0 {
        return None;
    }
    if c >= board.width() || c < 0 {
        return None;
    }
    if !validate_user_move(board, (r, c)) {
        return None;
    }
    Some(PlayerInput::Point(r, c))
}

} // verus!
