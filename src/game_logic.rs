use vstd::prelude::*;
use vstd::arithmetic::div_mod::{lemma_fundamental_div_mod, lemma_fundamental_div_mod_converse};
use crate::validation::validate_user_move;
use crate::text::{decimal, push_char, push_decimal};

verus! {

/// Smallest height or width of a board.
pub const MIN_BOARD_DIMENSION: i32 = 4;

/// Largest height or width of a board.
pub const MAX_BOARD_DIMENSION: i32 = 1000;

/// Marker of the first player.
pub const PLAYER_ZERO: char = '0';

/// Marker of the second player.
pub const PLAYER_ONE: char = 'X';

/// Starting row of the computer's moves, for each player.
pub const IR0: i32 = 1;
pub const IRX: i32 = 2;

/// Starting column of the computer's moves, for each player.
pub const IC0: i32 = 4;
pub const ICX: i32 = 10;

/// Stride of the computer's jumps, for each player.
pub const F0: i32 = 29;
pub const FX: i32 = 17;

/// Modulus of the computer's jumps.
pub const MOD_FACTOR: i32 = 10000003;

/// Who chooses the moves of a side.
#[derive(Debug, Copy, Clone, PartialEq, Eq, Structural)]
pub enum PlayerType {
    HUMAN,
    COMPUTER,
    NONE,
}

/// What a human player asked for: a move, or saving the game to a path.
pub enum PlayerInput {
    Point(i32, i32),
    Save(String),
}

/// The two cells are 4-adjacent: one coordinate is equal, the other differs by one.
pub open spec fn adjacent(a: (int, int), b: (int, int)) -> bool {
    (a.0 == b.0 && (a.1 - b.1 == 1 || b.1 - a.1 == 1)) || (a.1 == b.1 && (a.0 - b.0 == 1 || b.0
        - a.0 == 1))
}

/// The row and column of a point's view.
pub open spec fn coord(p: (int, int, char)) -> (int, int) {
    (p.0, p.1)
}

/// Some point of `s` stands at the cell `q`.
pub open spec fn has_coord(s: Seq<Point>, q: (int, int)) -> bool {
    exists|i: int| 0 <= i < s.len() && #[trigger] coord(s[i]@) == q
}

/// The cells that the points of `s` stand at.
pub open spec fn coords(s: Seq<Point>) -> Set<(int, int)> {
    Set::new(|q: (int, int)| has_coord(s, q))
}

/// No two points of `s` stand at the same cell.
pub open spec fn unique_coords(s: Seq<Point>) -> bool {
    forall|i: int, j: int|
        0 <= i < s.len() && 0 <= j < s.len() && i != j ==> coord(#[trigger] s[i]@) != coord(
            #[trigger] s[j]@,
        )
}

/// The cells of a board of `h` rows and `w` columns.
pub open spec fn grid(h: int, w: int) -> Set<(int, int)> {
    Set::new(|q: (int, int)| 0 <= q.0 < h && 0 <= q.1 < w)
}


/// A cell of the board: its row, its column and the marker it carries.
#[derive(Debug, Copy, Clone)]
pub struct Point {
    x: i32,
    y: i32,
    t: char,
}

impl View for Point {
    type V = (int, int, char);

    closed spec fn view(&self) -> (int, int, char) {
        (self.x as int, self.y as int, self.t)
    }
}

impl Point {
    /// The point at row `x` and column `y` with marker `t`.
    pub closed spec fn spec_new(x: i32, y: i32, t: char) -> Point {
        Point { x: x, y: y, t: t }
    }

    pub fn new(x: i32, y: i32, t: char) -> (r: Self)
        ensures
            r == Point::spec_new(x, y, t),
            r@ == (x as int, y as int, t),
    {
        Point { x: x, y: y, t: t }
    }

    pub fn x(&self) -> (r: i32)
        ensures
            r as int == self@.0,
    {
        self.x
    }

    pub fn y(&self) -> (r: i32)
        ensures
            r as int == self@.1,
    {
        self.y
    }

    pub fn t(&self) -> (r: &char)
        ensures
            *r == self@.2,
    {
        &self.t
    }
}

/// One of the four cells next to `q` is among `cells`.
pub open spec fn near(cells: Set<(int, int)>, q: (int, int)) -> bool {
    cells.contains((q.0, q.1 - 1)) || cells.contains((q.0 - 1, q.1)) || cells.contains(
        (q.0, q.1 + 1),
    ) || cells.contains((q.0 + 1, q.1))
}

/// Some point of `s` stands at one of the four cells next to `q`.
pub open spec fn neighbour_in(s: Seq<Point>, q: (int, int)) -> bool {
    near(coords(s), q)
}

/// No stone of the string `s` has a cell of `free` among its four neighbours.
pub open spec fn string_captured(s: Seq<Point>, free: Set<(int, int)>) -> bool {
    forall|i: int| 0 <= i < s.len() ==> !near(free, coord(#[trigger] s[i]@))
}

/// Some string of `ss` is captured.
pub open spec fn player_captured(ss: Seq<Seq<Point>>, free: Set<(int, int)>) -> bool {
    exists|k: int| 0 <= k < ss.len() && string_captured(#[trigger] ss[k], free)
}

/// `k` is the first string of `ss` with a stone next to the cell `q`.
pub open spec fn first_touching(ss: Seq<Seq<Point>>, q: (int, int), k: int) -> bool {
    &&& 0 <= k < ss.len()
    &&& neighbour_in(ss[k], q)
    &&& forall|j: int| 0 <= j < k ==> !neighbour_in(#[trigger] ss[j], q)
}

/// The strings after the stone `p` is placed: the first string next to it takes it,
/// or else it starts a string of its own.
pub open spec fn strings_after(ss: Seq<Seq<Point>>, p: Point) -> Seq<Seq<Point>> {
    if exists|k: int| first_touching(ss, coord(p@), k) {
        let k = choose|k: int| first_touching(ss, coord(p@), k);
        ss.update(k, ss[k].push(p))
    } else {
        ss.push(seq![p])
    }
}

/// A cell outside the range of `i32` holds no point.
proof fn lemma_no_point_beyond_i32(s: Seq<Point>, q: (int, int))
    requires
        !(i32::MIN <= q.0 <= i32::MAX && i32::MIN <= q.1 <= i32::MAX),
    ensures
        !has_coord(s, q),
{
    assert forall|i: int| 0 <= i < s.len() implies #[trigger] coord(s[i]@) != q by {
        assert(s[i]@ == (s[i].x as int, s[i].y as int, s[i].t));
    }
}

/// Whether a point of `v` stands at the cell `(x, y)`.
fn contains_coord(v: &Vec<Point>, x: i32, y: i32) -> (r: bool)
    ensures
        r == has_coord(v@, (x as int, y as int)),
{
    match find_at(v, x, y) {
        Some(_) => true,
        None => false,
    }
}

/// A group of stones of one player, grown one stone at a time.
#[derive(Debug)]
pub struct NogoString {
    components: Vec<Point>,
}

impl View for NogoString {
    type V = Seq<Point>;

    closed spec fn view(&self) -> Seq<Point> {
        self.components@
    }
}

impl NogoString {
    /// A string of the one stone `p`.
    pub fn new(p: Point) -> (r: Self)
        ensures
            r@ == seq![p],
    {
        let mut string = NogoString { components: Vec::new() };
        string.components.push(p);
        assert(string@ =~= seq![p]);
        string
    }

    /// Whether a stone of the string stands at the cell `t`.
    pub fn find(&self, t: (i32, i32)) -> (r: bool)
        ensures
            r == has_coord(self@, (t.0 as int, t.1 as int)),
    {
        contains_coord(&self.components, t.0, t.1)
    }

    /// Appends the stone `p`.
    pub fn add(&mut self, p: Point)
        ensures
            final(self)@ == old(self)@.push(p),
    {
        self.components.push(p);
    }

    /// The stones of the string, in the order they joined it.
    pub fn components(&self) -> (r: &Vec<Point>)
        ensures
            r@ == self@,
    {
        &self.components
    }
}

/// Whether a stone of `s` stands next to the cell `(x, y)`, asked one neighbour at a time.
fn string_touches(s: &NogoString, x: i32, y: i32) -> (r: bool)
    ensures
        r == neighbour_in(s@, (x as int, y as int)),
{
    proof {
        if y == i32::MIN {
            lemma_no_point_beyond_i32(s@, (x as int, y - 1));
        }
        if x == i32::MIN {
            lemma_no_point_beyond_i32(s@, (x - 1, y as int));
        }
        if y == i32::MAX {
            lemma_no_point_beyond_i32(s@, (x as int, y + 1));
        }
        if x == i32::MAX {
            lemma_no_point_beyond_i32(s@, (x + 1, y as int));
        }
    }
    (y > i32::MIN && s.find((x, y - 1))) || (x > i32::MIN && s.find((x - 1, y))) || (y < i32::MAX
        && s.find((x, y + 1))) || (x < i32::MAX && s.find((x + 1, y)))
}

/// One side of the game: its marker, who plays it, and its strings.
#[derive(Debug)]
pub struct NogoPlayer {
    id: char,
    strings: Vec<NogoString>,
    kind: PlayerType,
}

impl NogoPlayer {
    /// The marker of the player.
    pub closed spec fn spec_id(&self) -> char {
        self.id
    }

    /// Who plays this side.
    pub closed spec fn spec_kind(&self) -> PlayerType {
        self.kind
    }

    /// The stones of each string, strings in the order they were started.
    pub closed spec fn strings_view(&self) -> Seq<Seq<Point>> {
        self.strings@.map_values(|s: NogoString| s@)
    }

    /// A player with no stones yet.
    pub fn new(id: char, typ: PlayerType) -> (r: Self)
        ensures
            r.spec_id() == id,
            r.spec_kind() == typ,
            r.strings_view() == Seq::<Seq<Point>>::empty(),
    {
        let r = NogoPlayer { id: id, strings: Vec::new(), kind: typ };
        assert(r.strings_view() =~= Seq::<Seq<Point>>::empty());
        r
    }

    pub fn id(&self) -> (r: char)
        ensures
            r == self.spec_id(),
    {
        self.id
    }

    pub fn kind(&self) -> (r: &PlayerType)
        ensures
            *r == self.spec_kind(),
    {
        &self.kind
    }

    /// The strings of the player, in the order they were started.
    pub fn strings(&self) -> (r: &Vec<NogoString>)
        ensures
            r@.map_values(|s: NogoString| s@) == self.strings_view(),
    {
        &self.strings
    }

    /// Places the stone `pt` among the strings: the first string with a stone next to it
    /// takes it; with none, it starts a new string.
    pub fn update_strings(&mut self, pt: Point)
        ensures
            final(self).spec_id() == old(self).spec_id(),
            final(self).spec_kind() == old(self).spec_kind(),
            final(self).strings_view() == strings_after(old(self).strings_view(), pt),
    {
        let (x, y) = (pt.x, pt.y);
        let ghost q = coord(pt@);
        let ghost ss = old(self).strings_view();
        let mut i: usize = 0;
        while i < self.strings.len()
            invariant
                0 <= i <= self.strings.len(),
                *self == *old(self),
                ss == self.strings_view(),
                q == (x as int, y as int),
                q == coord(pt@),
                forall|j: int| 0 <= j < i ==> !neighbour_in(#[trigger] ss[j], q),
            decreases self.strings.len() - i,
        {
            if string_touches(&self.strings[i], x, y) {
                assert(first_touching(ss, q, i as int));
                let ghost before = self.strings@;
                self.strings[i].add(pt);
                assert(self.strings@[i as int]@ == ss[i as int].push(pt));
                assert(forall|j: int|
                    0 <= j < before.len() && j != i ==> self.strings@[j] == before[j]);
                proof {
                    let k = choose|k: int| first_touching(ss, q, k);
                    assert(k == i as int) by {
                        if k < i {
                            assert(!neighbour_in(ss[k], q));
                        } else if k > i {
                            assert(!neighbour_in(ss[i as int], q));
                        }
                    }
                    assert(self.strings_view() =~= strings_after(ss, pt));
                }
                return;
            }
            i += 1;
        }
        self.strings.push(NogoString::new(pt));
        proof {
            assert(!exists|k: int| first_touching(ss, q, k));
            assert(self.strings_view() =~= strings_after(ss, pt));
        }
    }
    /// Whether some string of the player has no stone with a free neighbouring cell,
    /// counted stone by stone.
    pub fn check_captured(&self, free: &Vec<Point>) -> (r: bool)
        ensures
            r == player_captured(self.strings_view(), coords(free@)),
    {
        let ghost ss = self.strings_view();
        let mut k: usize = 0;
        while k < self.strings.len()
            invariant
                0 <= k <= self.strings.len(),
                ss == self.strings_view(),
                forall|j: int| 0 <= j < k ==> !string_captured(#[trigger] ss[j], coords(free@)),
            decreases self.strings.len() - k,
        {
            let string = &self.strings[k];
            let ghost s = ss[k as int];
            assert(s == string.components@);
            let mut count: usize = 0;
            let mut i: usize = 0;
            while i < string.components.len()
                invariant
                    0 <= i <= string.components.len(),
                    s == string.components@,
                    count <= i,
                    count == 0 <==> forall|j: int|
                        0 <= j < i ==> !near(coords(free@), coord(#[trigger] s[j]@)),
                decreases string.components.len() - i,
            {
                let component = string.components[i];
                let (r, c) = (component.x, component.y);
                proof {
                    if c == i32::MIN {
                        lemma_no_point_beyond_i32(free@, (r as int, c - 1));
                    }
                    if r == i32::MIN {
                        lemma_no_point_beyond_i32(free@, (r - 1, c as int));
                    }
                    if c == i32::MAX {
                        lemma_no_point_beyond_i32(free@, (r as int, c + 1));
                    }
                    if r == i32::MAX {
                        lemma_no_point_beyond_i32(free@, (r + 1, c as int));
                    }
                }
                if (c > i32::MIN && self.find_point(&(r, c - 1), free)) || (r > i32::MIN
                    && self.find_point(&(r - 1, c), free)) || (c < i32::MAX && self.find_point(
                    &(r, c + 1),
                    free,
                )) || (r < i32::MAX && self.find_point(&(r + 1, c), free)) {
                    assert(near(coords(free@), coord(s[i as int]@)));
                    count += 1;
                }
                i += 1;
            }
            if count == 0 {
                assert(string_captured(ss[k as int], coords(free@)));
                return true;
            }
            k += 1;
        }
        false
    }

    /// Whether a point of `haystack` stands at the cell `needle`.
    pub fn find_point(&self, needle: &(i32, i32), haystack: &Vec<Point>) -> (r: bool)
        ensures
            r == has_coord(haystack@, (needle.0 as int, needle.1 as int)),
    {
        contains_coord(haystack, needle.0, needle.1)
    }
}

/// `has_coord` over a sequence with one more point.
pub(crate) proof fn lemma_has_coord_push(s: Seq<Point>, p: Point, q: (int, int))
    ensures
        has_coord(s.push(p), q) == (has_coord(s, q) || coord(p@) == q),
{
    if has_coord(s, q) {
        let i = choose|i: int| 0 <= i < s.len() && #[trigger] coord(s[i]@) == q;
        assert(coord(s.push(p)[i]@) == q);
    }
    if coord(p@) == q {
        assert(coord(s.push(p)[s.len() as int]@) == q);
    }
    if has_coord(s.push(p), q) {
        let i = choose|i: int| 0 <= i < s.len() + 1 && #[trigger] coord(s.push(p)[i]@) == q;
        if i < s.len() {
            assert(coord(s[i]@) == q);
        }
    }
}

/// The occupied points after `p` is occupied: a cell already taken is left as it is.
pub open spec fn occupied_after(s: Seq<Point>, p: Point) -> Seq<Point> {
    if has_coord(s, coord(p@)) {
        s
    } else {
        s.push(p)
    }
}

/// The two players, every cell of the board, and the occupied cells.
#[derive(Debug)]
pub struct NogoBoardState {
    players: (NogoPlayer, NogoPlayer),
    all_points: Vec<Point>,
    occupied_points: Vec<Point>,
}

impl NogoBoardState {
    /// Every cell of the board, each once, marked empty.
    pub closed spec fn all_view(&self) -> Seq<Point> {
        self.all_points@
    }

    /// The occupied points, in the order they were taken.
    pub closed spec fn occupied_view(&self) -> Seq<Point> {
        self.occupied_points@
    }

    /// The player whose marker is `0`.
    pub closed spec fn player_zero(&self) -> NogoPlayer {
        self.players.0
    }

    /// The player whose marker is `X`.
    pub closed spec fn player_one(&self) -> NogoPlayer {
        self.players.1
    }

    /// Every cell once, marked empty; each occupied cell once; the players' markers.
    pub closed spec fn wf(&self) -> bool {
        &&& unique_coords(self.all_points@)
        &&& forall|i: int| 0 <= i < self.all_points@.len() ==> (#[trigger] self.all_points@[i])@.2 == '.'
        &&& unique_coords(self.occupied_points@)
        &&& self.players.0.spec_id() == PLAYER_ZERO
        &&& self.players.1.spec_id() == PLAYER_ONE
    }

    /// A state with no stone on a board of `limits.0` rows and `limits.1` columns.
    pub fn new(p1: PlayerType, p2: PlayerType, limits: (i32, i32)) -> (r: Self)
        ensures
            r.wf(),
            coords(r.all_view()) == grid(limits.0 as int, limits.1 as int),
            r.occupied_view() == Seq::<Point>::empty(),
            r.player_zero().spec_kind() == p1,
            r.player_one().spec_kind() == p2,
            r.player_zero().strings_view() == Seq::<Seq<Point>>::empty(),
            r.player_one().strings_view() == Seq::<Seq<Point>>::empty(),
    {
        let mut state = NogoBoardState {
            players: (NogoPlayer::new(PLAYER_ZERO, p1), NogoPlayer::new(PLAYER_ONE, p2)),
            all_points: Vec::new(),
            occupied_points: Vec::new(),
        };
        let (h, w) = limits;
        let mut i: i32 = 0;
        while i < h
            invariant
                0 <= i,
                i <= h || i == 0,
                h == limits.0,
                w == limits.1,
                state.wf(),
                state.occupied_view() == Seq::<Point>::empty(),
                state.player_zero().spec_kind() == p1,
                state.player_one().spec_kind() == p2,
                state.player_zero().strings_view() == Seq::<Seq<Point>>::empty(),
                state.player_one().strings_view() == Seq::<Seq<Point>>::empty(),
                forall|q: (int, int)|
                    has_coord(state.all_points@, q) <==> (0 <= q.0 < i && 0 <= q.1 < w),
            decreases h - i,
        {
            let mut j: i32 = 0;
            while j < w
                invariant
                    0 <= i < h,
                    0 <= j,
                    h == limits.0,
                    w == limits.1,
                    j <= w || j == 0,
                    state.wf(),
                    state.occupied_view() == Seq::<Point>::empty(),
                    state.player_zero().spec_kind() == p1,
                    state.player_one().spec_kind() == p2,
                    state.player_zero().strings_view() == Seq::<Seq<Point>>::empty(),
                    state.player_one().strings_view() == Seq::<Seq<Point>>::empty(),
                    forall|q: (int, int)|
                        has_coord(state.all_points@, q) <==> ((0 <= q.0 < i && 0 <= q.1 < w) || (
                        q.0 == i && 0 <= q.1 < j)),
                decreases w - j,
            {
                let point = Point::new(i, j, '.');
                let ghost before = state.all_points@;
                proof {
                    assert(!has_coord(before, coord(point@)));
                    assert forall|a: int, b: int|
                        0 <= a < before.len() + 1 && 0 <= b < before.len() + 1 && a != b implies coord(
                        #[trigger] before.push(point)[a]@,
                    ) != coord(#[trigger] before.push(point)[b]@) by {
                        if a == before.len() {
                            assert(coord(before[b]@) != coord(point@));
                        } else if b == before.len() {
                            assert(coord(before[a]@) != coord(point@));
                        }
                    }
                }
                state.all_points.push(point);
                proof {
                    assert forall|q: (int, int)|
                        has_coord(state.all_points@, q) <==> ((0 <= q.0 < i && 0 <= q.1 < w) || (
                        q.0 == i && 0 <= q.1 < j + 1)) by {
                        lemma_has_coord_push(before, point, q);
                    }
                }
                j += 1;
            }
            assert forall|q: (int, int)|
                has_coord(state.all_points@, q) <==> (0 <= q.0 < i + 1 && 0 <= q.1 < w) by {
                assert(j == w || j == 0);
                if has_coord(state.all_points@, q) {
                    assert((0 <= q.0 < i && 0 <= q.1 < w) || (q.0 == i && 0 <= q.1 < j));
                }
                if 0 <= q.0 < i + 1 && 0 <= q.1 < w && q.0 == i {
                    assert(0 <= q.1 < j);
                }
            }
            i += 1;
        }
        proof {
            assert forall|q: (int, int)|
                #[trigger] coords(state.all_points@).contains(q) == grid(
                    limits.0 as int,
                    limits.1 as int,
                ).contains(q) by {
                assert(has_coord(state.all_points@, q) <==> (0 <= q.0 < i && 0 <= q.1 < w));
            }
            assert(coords(state.all_points@) =~= grid(limits.0 as int, limits.1 as int));
        }
        state
    }

    /// The two players, the one marked `0` first.
    pub fn players(&self) -> (r: (&NogoPlayer, &NogoPlayer))
        ensures
            *r.0 == self.player_zero(),
            *r.1 == self.player_one(),
    {
        (&self.players.0, &self.players.1)
    }

    /// The cells of the board that no point occupies, each once and marked empty.
    pub fn liberties(&self) -> (r: Vec<Point>)
        requires
            self.wf(),
        ensures
            coords(r@) == coords(self.all_view()).difference(coords(self.occupied_view())),
            unique_coords(r@),
            forall|i: int| 0 <= i < r@.len() ==> (#[trigger] r@[i])@.2 == '.',
    {
        let mut free: Vec<Point> = Vec::new();
        let all = &self.all_points;
        let mut i: usize = 0;
        while i < all.len()
            invariant
                0 <= i <= all.len(),
                all@ == self.all_view(),
                self.wf(),
                unique_coords(free@),
                forall|k: int| 0 <= k < free@.len() ==> (#[trigger] free@[k])@.2 == '.',
                forall|k: int|
                    0 <= k < free@.len() ==> exists|m: int|
                        0 <= m < i && #[trigger] all@[m] == #[trigger] free@[k],
                forall|q: (int, int)|
                    has_coord(free@, q) <==> (exists|m: int|
                        0 <= m < i && #[trigger] coord(all@[m]@) == q) && !has_coord(
                        self.occupied_view(),
                        q,
                    ),
            decreases all.len() - i,
        {
            let point = all[i];
            if !contains_coord(self.occupied(), point.x, point.y) {
                let ghost before = free@;
                proof {
                    assert forall|a: int, b: int|
                        0 <= a < before.len() + 1 && 0 <= b < before.len() + 1 && a != b implies coord(
                        #[trigger] before.push(point)[a]@,
                    ) != coord(#[trigger] before.push(point)[b]@) by {
                        if a == before.len() {
                            let m = choose|m: int| 0 <= m < i && all@[m] == before[b];
                            assert(coord(all@[m]@) != coord(all@[i as int]@));
                        } else if b == before.len() {
                            let m = choose|m: int| 0 <= m < i && all@[m] == before[a];
                            assert(coord(all@[m]@) != coord(all@[i as int]@));
                        }
                    }
                }
                free.push(point);
                proof {
                    assert forall|q: (int, int)|
                        has_coord(free@, q) <==> (exists|m: int|
                            0 <= m < i + 1 && #[trigger] coord(all@[m]@) == q) && !has_coord(
                            self.occupied_view(),
                            q,
                        ) by {
                        lemma_has_coord_push(before, point, q);
                        if coord(point@) == q {
                            assert(coord(all@[i as int]@) == q);
                        }
                    }
                    assert forall|k: int| 0 <= k < free@.len() implies exists|m: int|
                        0 <= m < i + 1 && #[trigger] all@[m] == #[trigger] free@[k] by {
                        if k == before.len() {
                            assert(all@[i as int] == free@[k]);
                        } else {
                            assert(free@[k] == before[k]);
                        }
                    }
                }
            } else {
                proof {
                    assert forall|q: (int, int)|
                        has_coord(free@, q) <==> (exists|m: int|
                            0 <= m < i + 1 && #[trigger] coord(all@[m]@) == q) && !has_coord(
                            self.occupied_view(),
                            q,
                        ) by {
                        if coord(point@) == q {
                            assert(coord(all@[i as int]@) == q);
                        }
                    }
                }
            }
            i += 1;
        }
        proof {
            assert forall|q: (int, int)|
                #[trigger] coords(free@).contains(q) == coords(all@).difference(
                    coords(self.occupied_view()),
                ).contains(q) by {
                if has_coord(all@, q) {
                    let m = choose|m: int| 0 <= m < all@.len() && #[trigger] coord(all@[m]@) == q;
                    assert(coord(all@[m]@) == q);
                }
            }
            assert(coords(free@) =~= coords(all@).difference(coords(self.occupied_view())));
        }
        free
    }

    /// The occupied points, in the order they were taken.
    pub fn occupied(&self) -> (r: &Vec<Point>)
        ensures
            r@ == self.occupied_view(),
    {
        &self.occupied_points
    }

    /// Occupies the cell of `p`, unless a point already stands there.
    pub fn update_occupied(&mut self, p: Point)
        requires
            old(self).wf(),
        ensures
            final(self).wf(),
            final(self).all_view() == old(self).all_view(),
            final(self).player_zero() == old(self).player_zero(),
            final(self).player_one() == old(self).player_one(),
            final(self).occupied_view() == occupied_after(old(self).occupied_view(), p),
    {
        if !contains_coord(&self.occupied_points, p.x, p.y) {
            let ghost before = self.occupied_points@;
            proof {
                assert forall|a: int, b: int|
                    0 <= a < before.len() + 1 && 0 <= b < before.len() + 1 && a != b implies coord(
                    #[trigger] before.push(p)[a]@,
                ) != coord(#[trigger] before.push(p)[b]@) by {
                    if a == before.len() {
                        assert(coord(before[b]@) != coord(p@));
                    } else if b == before.len() {
                        assert(coord(before[a]@) != coord(p@));
                    }
                }
            }
            self.occupied_points.push(p);
        }
    }
}

/// A board of `height` rows and `width` columns, with its state.
#[derive(Debug)]
pub struct NogoBoard {
    height: i32,
    width: i32,
    state: NogoBoardState,
}

impl NogoBoard {
    pub closed spec fn spec_height(&self) -> int {
        self.height as int
    }

    pub closed spec fn spec_width(&self) -> int {
        self.width as int
    }

    /// The occupied points, in the order they were taken.
    pub closed spec fn occupied_view(&self) -> Seq<Point> {
        self.state.occupied_view()
    }

    /// The player whose marker is `0`.
    pub closed spec fn player_zero(&self) -> NogoPlayer {
        self.state.player_zero()
    }

    /// The player whose marker is `X`.
    pub closed spec fn player_one(&self) -> NogoPlayer {
        self.state.player_one()
    }

    /// Dimensions within bounds, and a state whose cells are those of the board.
    pub closed spec fn wf(&self) -> bool {
        &&& MIN_BOARD_DIMENSION <= self.height <= MAX_BOARD_DIMENSION
        &&& MIN_BOARD_DIMENSION <= self.width <= MAX_BOARD_DIMENSION
        &&& self.state.wf()
        &&& coords(self.state.all_view()) == grid(self.height as int, self.width as int)
    }

    /// The cells of the board.
    pub open spec fn all_coords(&self) -> Set<(int, int)> {
        grid(self.spec_height(), self.spec_width())
    }

    /// The occupied cells.
    pub open spec fn occupied_coords(&self) -> Set<(int, int)> {
        coords(self.occupied_view())
    }

    /// The cells of the board that no stone occupies.
    pub open spec fn free_coords(&self) -> Set<(int, int)> {
        self.all_coords().difference(self.occupied_coords())
    }

    /// The player with marker `id`, if there is one.
    pub open spec fn spec_player(&self, id: char) -> Option<NogoPlayer> {
        if id == PLAYER_ZERO {
            Some(self.player_zero())
        } else if id == PLAYER_ONE {
            Some(self.player_one())
        } else {
            None
        }
    }

    /// An empty board of `h` rows and `w` columns.
    pub fn new(p1: PlayerType, p2: PlayerType, h: i32, w: i32) -> (r: Self)
        requires
            MIN_BOARD_DIMENSION <= h <= MAX_BOARD_DIMENSION,
            MIN_BOARD_DIMENSION <= w <= MAX_BOARD_DIMENSION,
        ensures
            r.wf(),
            r.spec_height() == h,
            r.spec_width() == w,
            r.occupied_view() == Seq::<Point>::empty(),
            r.player_zero().spec_kind() == p1,
            r.player_one().spec_kind() == p2,
            r.player_zero().strings_view() == Seq::<Seq<Point>>::empty(),
            r.player_one().strings_view() == Seq::<Seq<Point>>::empty(),
    {
        NogoBoard { height: h, width: w, state: NogoBoardState::new(p1, p2, (h, w)) }
    }

    /// The player with marker `id`, to update.
    pub fn player(&mut self, id: char) -> (r: Option<&mut NogoPlayer>)
        requires
            old(self).wf(),
        ensures
            r is Some <==> (id == PLAYER_ZERO || id == PLAYER_ONE),
            r is Some ==> Some(*r->0) == old(self).spec_player(id),
            id == PLAYER_ZERO ==> final(self).player_zero() == *final(r->0),
            id == PLAYER_ZERO ==> final(self).player_one() == old(self).player_one(),
            id == PLAYER_ONE ==> final(self).player_one() == *final(r->0),
            id == PLAYER_ONE ==> final(self).player_zero() == old(self).player_zero(),
            final(self).spec_height() == old(self).spec_height(),
            final(self).spec_width() == old(self).spec_width(),
            final(self).occupied_view() == old(self).occupied_view(),
            r is Some && (*final(r->0)).spec_id() == id ==> final(self).wf(),
    {
        match self.state.players {
            (ref mut p1, ref mut p2) => {
                if p1.id == id {
                    Some(p1)
                } else if p2.id == id {
                    Some(p2)
                } else {
                    None
                }
            }
        }
    }

    pub fn height(&self) -> (r: i32)
        ensures
            r == self.spec_height(),
    {
        self.height
    }

    pub fn width(&self) -> (r: i32)
        ensures
            r == self.spec_width(),
    {
        self.width
    }

    /// The free cells of the board, each once and marked empty.
    pub fn liberties(&self) -> (r: Vec<Point>)
        requires
            self.wf(),
        ensures
            coords(r@) == self.free_coords(),
            unique_coords(r@),
            forall|i: int| 0 <= i < r@.len() ==> (#[trigger] r@[i])@.2 == '.',
    {
        self.state.liberties()
    }

    /// The occupied points, in the order they were taken.
    pub fn occupied(&self) -> (r: &Vec<Point>)
        ensures
            r@ == self.occupied_view(),
    {
        self.state.occupied()
    }

    /// Occupies the cell of `p`, unless a point already stands there.
    pub fn update_occupied(&mut self, p: Point)
        requires
            old(self).wf(),
        ensures
            final(self).wf(),
            final(self).spec_height() == old(self).spec_height(),
            final(self).spec_width() == old(self).spec_width(),
            final(self).player_zero() == old(self).player_zero(),
            final(self).player_one() == old(self).player_one(),
            final(self).occupied_view() == occupied_after(old(self).occupied_view(), p),
    {
        self.state.update_occupied(p);
    }
}

/// The occupied points after each of `moves` is occupied in turn.
pub open spec fn occupied_after_all(s: Seq<Point>, moves: Seq<Point>) -> Seq<Point>
    decreases moves.len(),
{
    if moves.len() == 0 {
        s
    } else {
        occupied_after(occupied_after_all(s, moves.drop_last()), moves.last())
    }
}

/// The strings after each of `moves` is placed in turn.
pub open spec fn strings_after_all(ss: Seq<Seq<Point>>, moves: Seq<Point>) -> Seq<Seq<Point>>
    decreases moves.len(),
{
    if moves.len() == 0 {
        ss
    } else {
        strings_after(strings_after_all(ss, moves.drop_last()), moves.last())
    }
}

/// The board after the stone `pt` of the player marked `id`: the cell is occupied and the
/// player's strings take the stone.
pub open spec fn board_after_move(old: NogoBoard, new: NogoBoard, id: char, pt: Point) -> bool {
    &&& new.wf()
    &&& new.spec_height() == old.spec_height()
    &&& new.spec_width() == old.spec_width()
    &&& new.occupied_view() == occupied_after(old.occupied_view(), pt)
    &&& id == PLAYER_ZERO ==> new.player_zero().strings_view() == strings_after(
        old.player_zero().strings_view(),
        pt,
    ) && new.player_one() == old.player_one()
    &&& id == PLAYER_ONE ==> new.player_one().strings_view() == strings_after(
        old.player_one().strings_view(),
        pt,
    ) && new.player_zero() == old.player_zero()
    &&& new.player_zero().spec_kind() == old.player_zero().spec_kind()
    &&& new.player_one().spec_kind() == old.player_one().spec_kind()
}

/// An empty board of `h` rows and `w` columns, with the two kinds of player.
pub fn create_board(p1: &PlayerType, p2: &PlayerType, h: i32, w: i32) -> (r: NogoBoard)
    requires
        MIN_BOARD_DIMENSION <= h <= MAX_BOARD_DIMENSION,
        MIN_BOARD_DIMENSION <= w <= MAX_BOARD_DIMENSION,
    ensures
        r.wf(),
        r.spec_height() == h,
        r.spec_width() == w,
        r.occupied_view() == Seq::<Point>::empty(),
        r.player_zero().spec_kind() == *p1,
        r.player_one().spec_kind() == *p2,
        r.player_zero().strings_view() == Seq::<Seq<Point>>::empty(),
        r.player_one().strings_view() == Seq::<Seq<Point>>::empty(),
{
    NogoBoard::new(*p1, *p2, h, w)
}

/// Plays the stone of the player marked `p_id` at row `r` and column `c`.
pub fn update_board_with_move(p_id: char, r: i32, c: i32, board: &mut NogoBoard)
    requires
        old(board).wf(),
        p_id == PLAYER_ZERO || p_id == PLAYER_ONE,
    ensures
        board_after_move(*old(board), *final(board), p_id, Point::spec_new(r, c, p_id)),
{
    let point = Point::new(r, c, p_id);
    board.update_occupied(point.clone());
    match board.player(p_id) {
        Some(player) => {
            player.update_strings(point);
        },
        None => {},
    }
}

/// Replays the stones `moves` of the player marked `player`, in order.
pub fn replay_moves(player: char, moves: Vec<Point>, board: &mut NogoBoard)
    requires
        old(board).wf(),
        player == PLAYER_ZERO || player == PLAYER_ONE,
    ensures
        final(board).wf(),
        final(board).spec_height() == old(board).spec_height(),
        final(board).spec_width() == old(board).spec_width(),
        final(board).occupied_view() == occupied_after_all(old(board).occupied_view(), moves@),
        final(board).player_zero().spec_kind() == old(board).player_zero().spec_kind(),
        final(board).player_one().spec_kind() == old(board).player_one().spec_kind(),
        player == PLAYER_ZERO ==> final(board).player_zero().strings_view() == strings_after_all(
            old(board).player_zero().strings_view(),
            moves@,
        ) && final(board).player_one() == old(board).player_one(),
        player == PLAYER_ONE ==> final(board).player_one().strings_view() == strings_after_all(
            old(board).player_one().strings_view(),
            moves@,
        ) && final(board).player_zero() == old(board).player_zero(),
{
    let mut i: usize = 0;
    while i < moves.len()
        invariant
            0 <= i <= moves.len(),
            player == PLAYER_ZERO || player == PLAYER_ONE,
            board.wf(),
            board.spec_height() == old(board).spec_height(),
            board.spec_width() == old(board).spec_width(),
            board.occupied_view() == occupied_after_all(
                old(board).occupied_view(),
                moves@.take(i as int),
            ),
            board.player_zero().spec_kind() == old(board).player_zero().spec_kind(),
            board.player_one().spec_kind() == old(board).player_one().spec_kind(),
            player == PLAYER_ZERO ==> board.player_zero().strings_view() == strings_after_all(
                old(board).player_zero().strings_view(),
                moves@.take(i as int),
            ) && board.player_one() == old(board).player_one(),
            player == PLAYER_ONE ==> board.player_one().strings_view() == strings_after_all(
                old(board).player_one().strings_view(),
                moves@.take(i as int),
            ) && board.player_zero() == old(board).player_zero(),
        decreases moves.len() - i,
    {
        let mov = moves[i];
        proof {
            assert(moves@.take(i + 1).drop_last() == moves@.take(i as int));
            assert(moves@.take(i + 1).last() == mov);
        }
        board.update_occupied(mov);
        match board.player(player) {
            Some(p) => {
                p.update_strings(mov);
            },
            None => {},
        }
        i += 1;
    }
    assert(moves@.take(moves.len() as int) == moves@);
}

/// Who wins now, if anyone: a captured player loses, the player marked `0` checked first.
pub open spec fn winner_of(board: NogoBoard) -> Option<char> {
    if player_captured(board.player_zero().strings_view(), board.free_coords()) {
        Some(PLAYER_ONE)
    } else if player_captured(board.player_one().strings_view(), board.free_coords()) {
        Some(PLAYER_ZERO)
    } else {
        None
    }
}

/// The marker of the winner, if a player is captured.
pub fn check_winner(board: &NogoBoard) -> (r: Option<char>)
    requires
        board.wf(),
    ensures
        r == winner_of(*board),
{
    let free_points = board.liberties();
    let (p1, p2) = board.state.players();
    if p1.check_captured(&free_points) {
        Some(p2.id())
    } else if p2.check_captured(&free_points) {
        Some(p1.id())
    } else {
        None
    }
}

/// Starting row, starting column and stride of the computer's moves for the player `p`.
pub open spec fn generator_start(p: char) -> (int, int, int) {
    if p == PLAYER_ZERO {
        (IR0 as int, IC0 as int, F0 as int)
    } else {
        (IRX as int, ICX as int, FX as int)
    }
}

/// How far the `j`-th attempt of each round of five has moved from the round's anchor.
pub open spec fn step_offset(j: int) -> (int, int) {
    if j == 0 {
        (0, 0)
    } else if j == 1 {
        (1, 1)
    } else if j == 2 {
        (3, 2)
    } else if j == 3 {
        (4, 2)
    } else {
        (4, 3)
    }
}

/// The cell that round `k` of the computer's moves starts from, before reduction to the board:
/// the start itself, then a jump through the packed index for each later round.
pub open spec fn generator_anchor(p: char, w: int, k: int) -> (int, int) {
    let (ir, ic, f) = generator_start(p);
    if k == 0 {
        (ir, ic)
    } else {
        let n = (ir * w + ic + k * f) % (MOD_FACTOR as int);
        (n / w, n % w)
    }
}

/// Row and column of attempt `m`, before reduction to the board.
pub open spec fn generator_raw(p: char, w: int, m: int) -> (int, int) {
    let a = generator_anchor(p, w, m / 5);
    let o = step_offset(m % 5);
    (a.0 + o.0, a.1 + o.1)
}

/// The cell that attempt `m` of the computer's moves for the player `p` proposes.
pub open spec fn generator_candidate(p: char, h: int, w: int, m: int) -> (int, int) {
    let raw = generator_raw(p, w, m);
    (raw.0 % h, raw.1 % w)
}

/// Attempt `m` proposes the free cell `cell`, and no earlier attempt proposed a free cell.
pub open spec fn first_free_candidate(board: NogoBoard, p: char, m: int, cell: (int, int)) -> bool {
    &&& m >= 1
    &&& generator_candidate(p, board.spec_height(), board.spec_width(), m) == cell
    &&& board.free_coords().contains(cell)
    &&& forall|m2: int|
        1 <= m2 < m ==> !board.free_coords().contains(
            #[trigger] generator_candidate(p, board.spec_height(), board.spec_width(), m2),
        )
}

/// Every cell of the board is proposed by a jump of the computer's moves within the first
/// `MOD_FACTOR` rounds: the stride has an inverse modulo `MOD_FACTOR`.
proof fn lemma_generator_reaches(p: char, h: int, w: int, t: (int, int)) -> (k: int)
    requires
        MIN_BOARD_DIMENSION <= h <= MAX_BOARD_DIMENSION,
        MIN_BOARD_DIMENSION <= w <= MAX_BOARD_DIMENSION,
        0 <= t.0 < h,
        0 <= t.1 < w,
    ensures
        1 <= k <= MOD_FACTOR,
        generator_candidate(p, h, w, 5 * k) == t,
{
    let (ir, ic, f) = generator_start(p);
    let big_m = MOD_FACTOR as int;
    let inv: int = if p == PLAYER_ZERO {
        4482760
    } else {
        1176471
    };
    let q: int = if p == PLAYER_ZERO {
        13
    } else {
        2
    };
    assert(f * inv == q * big_m + 1);
    let b = ir * w + ic;
    let nt = t.0 * w + t.1;
    assert(0 <= nt < big_m) by (nonlinear_arith)
        requires
            nt == t.0 * w + t.1,
            0 <= t.0 < h,
            0 <= t.1 < w,
            h <= 1000,
            w <= 1000,
            big_m == 10000003,
    ;
    let a = (nt - b) * inv;
    let d = a / big_m;
    let k0 = a % big_m;
    lemma_fundamental_div_mod(a, big_m);
    let z = (nt - b) * q - d * f;
    assert(b + k0 * f == z * big_m + nt) by (nonlinear_arith)
        requires
            a == big_m * d + k0,
            a == (nt - b) * inv,
            f * inv == q * big_m + 1,
            z == (nt - b) * q - d * f,
    ;
    let k = if k0 == 0 {
        big_m
    } else {
        k0
    };
    let zk = if k0 == 0 {
        z + f
    } else {
        z
    };
    assert(b + k * f == zk * big_m + nt);
    lemma_fundamental_div_mod_converse(b + k * f, big_m, zk, nt);
    lemma_fundamental_div_mod_converse(nt, w, t.0, t.1);
    assert((5 * k) / 5 == k && (5 * k) % 5 == 0);
    assert(generator_anchor(p, w, k) == (t.0, t.1));
    lemma_fundamental_div_mod_converse(t.0, h, 0, t.0);
    lemma_fundamental_div_mod_converse(t.1, w, 0, t.1);
    k
}

/// On a board with a free cell, one of the first `5 * MOD_FACTOR` attempts of the computer's
/// moves, for either player, proposes a free cell.
pub proof fn lemma_generator_liveness(board: NogoBoard, p: char)
    requires
        board.wf(),
        exists|q: (int, int)| board.free_coords().contains(q),
    ensures
        exists|m: int|
            1 <= m <= 5 * MOD_FACTOR && board.free_coords().contains(
                #[trigger] generator_candidate(p, board.spec_height(), board.spec_width(), m),
            ),
{
    let t = choose|q: (int, int)| board.free_coords().contains(q);
    let k = lemma_generator_reaches(p, board.spec_height(), board.spec_width(), t);
    assert(board.free_coords().contains(
        generator_candidate(p, board.spec_height(), board.spec_width(), 5 * k),
    ));
}

/// The computer's next move for the player `p`: the first free cell that its fixed sequence
/// of attempts proposes.
pub fn get_next_valid_move(board: &NogoBoard, p: char) -> (r: (i32, i32))
    requires
        board.wf(),
        exists|q: (int, int)| board.free_coords().contains(q),
    ensures
        exists|m: int|
            m <= 5 * MOD_FACTOR && first_free_candidate(*board, p, m, (r.0 as int, r.1 as int)),
{
    let ir = if p == '0' {
        IR0
    } else {
        IRX
    };
    let ic = if p == '0' {
        IC0
    } else {
        ICX
    };
    let f = if p == '0' {
        F0
    } else {
        FX
    };
    let gw = board.width();
    let gh = board.height();
    let mut r = ir;
    let mut c = ic;
    let b = ir * gw + ic;
    let mut m: i32 = 0;
    let ghost free = board.free_coords();
    let ghost t = choose|q: (int, int)| board.free_coords().contains(q);
    let ghost k: int;
    proof {
        k = lemma_generator_reaches(p, gh as int, gw as int, t);
    }
    loop
        invariant
            board.wf(),
            free == board.free_coords(),
            gw == board.spec_width(),
            gh == board.spec_height(),
            MIN_BOARD_DIMENSION <= gh <= MAX_BOARD_DIMENSION,
            MIN_BOARD_DIMENSION <= gw <= MAX_BOARD_DIMENSION,
            (ir as int, ic as int, f as int) == generator_start(p),
            b == ir * gw + ic,
            1 <= k <= MOD_FACTOR,
            generator_candidate(p, gh as int, gw as int, 5 * k) == t,
            free.contains(t),
            0 <= m < 5 * k,
            (r as int, c as int) == generator_raw(p, gw as int, m as int),
            forall|m2: int|
                1 <= m2 <= m ==> !free.contains(
                    #[trigger] generator_candidate(p, gh as int, gw as int, m2),
                ),
        decreases 5 * k - m,
    {
        proof {
            let a = generator_anchor(p, gw as int, m / 5);
            if m / 5 > 0 {
                let n = (ir * gw + ic + (m / 5) * f) % (MOD_FACTOR as int);
                assert(0 <= n < MOD_FACTOR);
                assert(0 <= n / (gw as int) <= n);
                assert(0 <= n % (gw as int) < gw);
            }
            assert(0 <= a.0 <= MOD_FACTOR && 0 <= a.1 <= 1000);
        }
        m += 1;
        let mu = m as u32;
        let (mut x, mut y) = match mu % 5 {
            0 => {
                assert(0 <= mu / 5 <= MOD_FACTOR);
                assert((mu / 5) * f <= 10000003 * 29) by (nonlinear_arith)
                    requires
                        0 <= mu / 5 <= 10000003,
                        0 < f <= 29,
                ;
                assert(0 <= b <= 2010) by (nonlinear_arith)
                    requires
                        b == ir * gw + ic,
                        1 <= ir <= 2,
                        4 <= ic <= 10,
                        0 <= gw <= 1000,
                ;
                let n = ((b + (mu / 5) as i32 * f) as u32 % MOD_FACTOR as u32) as i32;
                r = (n as u32 / gw as u32) as i32;
                c = (n as u32 % gw as u32) as i32;
                (r, c)
            },
            1 => {
                r += 1;
                c += 1;
                (r, c)
            },
            2 => {
                r += 2;
                c += 1;
                (r, c)
            },
            3 => {
                r += 1;
                (r, c)
            },
            4 => {
                c += 1;
                (r, c)
            },
            _ => (r, c),
        };
        assert((r as int, c as int) == generator_raw(p, gw as int, m as int));
        x = (x as u32 % gh as u32) as i32;
        y = (y as u32 % gw as u32) as i32;
        assert((x as int, y as int) == generator_candidate(p, gh as int, gw as int, m as int));
        if validate_user_move(board, (x, y)) {
            assert(first_free_candidate(*board, p, m as int, (x as int, y as int)));
            assert(m <= 5 * MOD_FACTOR);
            return (x, y);
        }
    }
}

/// The code of a kind of player in a save file: `h` for a human, `c` otherwise.
pub open spec fn kind_code(k: PlayerType) -> char {
    if k == PlayerType::HUMAN {
        'h'
    } else {
        'c'
    }
}

/// The first line of a save file.
pub open spec fn metadata_line(h: nat, w: nat, k1: PlayerType, k2: PlayerType, cur: char) -> Seq<
    char,
> {
    decimal(h) + seq![' '] + decimal(w) + seq![' ', kind_code(k1), ' ', kind_code(k2), ' ', cur]
}

/// The character of the cell `q` in a save file: the marker of the point there, or `.`.
pub open spec fn cell_char(occ: Seq<Point>, q: (int, int)) -> char {
    if has_coord(occ, q) {
        occ[choose|i: int| 0 <= i < occ.len() && #[trigger] coord(occ[i]@) == q]@.2
    } else {
        '.'
    }
}

/// Row `i` of the board in a save file.
pub open spec fn grid_line(occ: Seq<Point>, i: int, w: int) -> Seq<char> {
    Seq::new(w as nat, |j: int| cell_char(occ, (i, j)))
}

/// The lines of a save file: the metadata, then one line per row.
pub open spec fn save_lines(board: NogoBoard, cur: char) -> Seq<Seq<char>> {
    seq![
        metadata_line(
            board.spec_height() as nat,
            board.spec_width() as nat,
            board.player_zero().spec_kind(),
            board.player_one().spec_kind(),
            cur,
        ),
    ] + Seq::new(
        board.spec_height() as nat,
        |i: int| grid_line(board.occupied_view(), i, board.spec_width()),
    )
}

/// The index of the first point of `v` at the cell `(x, y)`, if there is one.
fn find_at(v: &Vec<Point>, x: i32, y: i32) -> (r: Option<usize>)
    ensures
        r is None <==> !has_coord(v@, (x as int, y as int)),
        r is Some ==> r->0 < v@.len() && coord(v@[r->0 as int]@) == (x as int, y as int),
{
    let mut i: usize = 0;
    while i < v.len()
        invariant
            0 <= i <= v.len(),
            forall|j: int| 0 <= j < i ==> #[trigger] coord(v@[j]@) != (x as int, y as int),
        decreases v.len() - i,
    {
        if v[i].x == x && v[i].y == y {
            assert(coord(v@[i as int]@) == (x as int, y as int));
            return Some(i);
        }
        i += 1;
    }
    None
}

/// Row `i` of the board: the marker of the point at each cell, or `.`.
fn grid_row(board: &NogoBoard, i: i32) -> (line: String)
    requires
        board.wf(),
        0 <= i < board.spec_height(),
    ensures
        line@ == grid_line(board.occupied_view(), i as int, board.spec_width()),
{
    let points = board.state.occupied();
    let ghost occ = board.occupied_view();
    let mut line = String::new();
    let mut j: i32 = 0;
    while j < board.width
        invariant
            0 <= i < board.height,
            0 <= j <= board.width,
            board.wf(),
            points@ == occ,
            occ == board.occupied_view(),
            line@ == grid_line(occ, i as int, board.width as int).take(j as int),
        decreases board.width - j,
    {
        match find_at(points, i, j) {
            Some(k) => {
                proof {
                    let q = (i as int, j as int);
                    let c = choose|c: int| 0 <= c < occ.len() && #[trigger] coord(occ[c]@) == q;
                    assert(c == k) by {
                        if c != k {
                            assert(coord(occ[c]@) != coord(occ[k as int]@));
                        }
                    }
                }
                push_char(&mut line, points[k].t);
            },
            None => {
                push_char(&mut line, '.');
            },
        }
        assert(line@ =~= grid_line(occ, i as int, board.width as int).take(j + 1));
        j += 1;
    }
    assert(line@ =~= grid_line(occ, i as int, board.width as int));
    line
}

/// A border line of the drawn board: `open`, a dash per column, then `close`.
pub open spec fn border_line(open: char, close: char, w: int) -> Seq<char> {
    seq![open] + Seq::new(w as nat, |j: int| '-') + seq![close]
}

/// The board as drawn for the players: a top border, each row between bars, a bottom border.
pub open spec fn drawn_board(board: NogoBoard) -> Seq<Seq<char>> {
    seq![border_line('/', '\\', board.spec_width())] + Seq::new(
        board.spec_height() as nat,
        |i: int| seq!['|'] + grid_line(board.occupied_view(), i, board.spec_width()) + seq!['|'],
    ) + seq![border_line('\\', '/', board.spec_width())]
}

/// A border line of `n` dashes between `open` and `close`.
fn border(open: char, close: char, n: i32) -> (r: String)
    requires
        n >= 0,
    ensures
        r@ == border_line(open, close, n as int),
{
    let mut s = String::new();
    push_char(&mut s, open);
    let mut k: i32 = 0;
    while k < n
        invariant
            0 <= k <= n,
            s@ == seq![open] + Seq::new(k as nat, |j: int| '-'),
        decreases n - k,
    {
        push_char(&mut s, '-');
        assert(s@ =~= seq![open] + Seq::new((k + 1) as nat, |j: int| '-'));
        k += 1;
    }
    push_char(&mut s, close);
    assert(s@ =~= border_line(open, close, n as int));
    s
}

/// The lines that draw the board.
pub fn render_board(board: &NogoBoard) -> (r: Vec<String>)
    requires
        board.wf(),
    ensures
        r@.map_values(|s: String| s@) == drawn_board(*board),
{
    let ghost expected = drawn_board(*board);
    let mut lines: Vec<String> = Vec::new();
    lines.push(border('/', '\\', board.width));
    let mut i: i32 = 0;
    while i < board.height
        invariant
            0 <= i <= board.height,
            board.wf(),
            expected == drawn_board(*board),
            lines@.len() == i + 1,
            forall|k: int| 0 <= k < lines@.len() ==> #[trigger] lines@[k]@ == expected[k],
        decreases board.height - i,
    {
        let mut line = String::new();
        push_char(&mut line, '|');
        let row = grid_row(board, i);
        line.append(row.as_str());
        push_char(&mut line, '|');
        assert(line@ =~= expected[i + 1]);
        lines.push(line);
        i += 1;
    }
    lines.push(border('\\', '/', board.width));
    assert(lines@.map_values(|s: String| s@) =~= expected);
    lines
}

/// The markers and kinds of the player who moves first and of the one who moves second.
pub open spec fn turn_order_of(p1: PlayerType, p2: PlayerType, start_player: char) -> (
    (char, PlayerType),
    (char, PlayerType),
) {
    if start_player == PLAYER_ZERO {
        ((PLAYER_ZERO, p1), (PLAYER_ONE, p2))
    } else {
        ((start_player, p2), (PLAYER_ZERO, p1))
    }
}

/// Who moves first and who second, the player marked `start_player` first.
pub fn turn_order(p1: &PlayerType, p2: &PlayerType, start_player: char) -> (r: (
    (char, PlayerType),
    (char, PlayerType),
))
    ensures
        r == turn_order_of(*p1, *p2, start_player),
{
    let first_player_type = if start_player == PLAYER_ZERO {
        p1
    } else {
        p2
    };
    let second_player_type = if *first_player_type == *p1 {
        p2
    } else {
        p1
    };
    let other_player = if start_player == PLAYER_ZERO {
        PLAYER_ONE
    } else {
        PLAYER_ZERO
    };
    ((start_player, *first_player_type), (other_player, *second_player_type))
}

/// The lines of a save file for the board, with `curr_player` to move next.
pub fn get_current_game_state(board: &NogoBoard, curr_player: char) -> (r: Vec<String>)
    requires
        board.wf(),
    ensures
        r@.map_values(|s: String| s@) == save_lines(*board, curr_player),
{
    let mut data: Vec<String> = Vec::new();
    let (p1, p2) = board.state.players();
    let mut meta = String::new();
    push_decimal(&mut meta, board.height() as u32);
    push_char(&mut meta, ' ');
    push_decimal(&mut meta, board.width() as u32);
    push_char(&mut meta, ' ');
    push_char(
        &mut meta,
        if *p1.kind() == PlayerType::HUMAN {
            'h'
        } else {
            'c'
        },
    );
    push_char(&mut meta, ' ');
    push_char(
        &mut meta,
        if *p2.kind() == PlayerType::HUMAN {
            'h'
        } else {
            'c'
        },
    );
    push_char(&mut meta, ' ');
    push_char(&mut meta, curr_player);
    let ghost expected = save_lines(*board, curr_player);
    assert(meta@ =~= expected[0]);
    data.push(meta);
    let mut i: i32 = 0;
    while i < board.height
        invariant
            0 <= i <= board.height,
            board.wf(),
            expected == save_lines(*board, curr_player),
            data@.len() == i + 1,
            forall|k: int| 0 <= k < data@.len() ==> #[trigger] data@[k]@ == expected[k],
        decreases board.height - i,
    {
        let line = grid_row(board, i);
        assert(line@ =~= expected[i + 1]);
        data.push(line);
        i += 1;
    }
    assert(data@.map_values(|s: String| s@) =~= expected);
    data
}

/// On a board whose stones all stand on it, the free cells and the occupied cells split the
/// cells of the board: together they are all of them, and no cell is both.
pub proof fn lemma_cells_partition(board: NogoBoard)
    requires
        board.wf(),
        board.occupied_coords().subset_of(board.all_coords()),
    ensures
        board.free_coords().union(board.occupied_coords()) == board.all_coords(),
        board.free_coords().disjoint(board.occupied_coords()),
{
    assert(board.free_coords().union(board.occupied_coords()) =~= board.all_coords());
}

/// Occupying a cell a second time, with any marker, leaves the occupied points as the first
/// time left them.
pub proof fn lemma_occupy_idempotent(s: Seq<Point>, p: Point, p2: Point)
    requires
        coord(p@) == coord(p2@),
    ensures
        occupied_after(occupied_after(s, p), p2) == occupied_after(s, p),
{
    if !has_coord(s, coord(p@)) {
        assert(coord(s.push(p)[s.len() as int]@) == coord(p2@));
    }
}

/// After a stone is placed, it ends a string that is either new and holds it alone, or holds
/// an earlier stone 4-adjacent to it.
pub proof fn lemma_string_adjacency(ss: Seq<Seq<Point>>, p: Point)
    ensures
        ({
            let after = strings_after(ss, p);
            exists|k: int|
                0 <= k < after.len() && after[k].len() > 0 && after[k].last() == p && (
                after[k] == seq![p] || exists|i: int|
                    0 <= i < after[k].len() - 1 && adjacent(
                        coord(#[trigger] after[k][i]@),
                        coord(p@),
                    ))
        }),
{
    let after = strings_after(ss, p);
    let q = coord(p@);
    if exists|k: int| first_touching(ss, q, k) {
        let k = choose|k: int| first_touching(ss, q, k);
        let s = ss[k];
        assert(after[k] == s.push(p));
        let n = if coords(s).contains((q.0, q.1 - 1)) {
            (q.0, q.1 - 1)
        } else if coords(s).contains((q.0 - 1, q.1)) {
            (q.0 - 1, q.1)
        } else if coords(s).contains((q.0, q.1 + 1)) {
            (q.0, q.1 + 1)
        } else {
            (q.0 + 1, q.1)
        };
        assert(has_coord(s, n));
        let i = choose|i: int| 0 <= i < s.len() && #[trigger] coord(s[i]@) == n;
        assert(after[k][i] == s[i]);
        assert(adjacent(coord(after[k][i]@), q));
    } else {
        assert(after[ss.len() as int] == seq![p]);
    }
}

/// Where a player's strings are all captured or none is, and there is one at least, the
/// player counts as captured exactly when every string has no stone next to a free cell.
pub proof fn lemma_capture_all_strings(ss: Seq<Seq<Point>>, free: Set<(int, int)>)
    requires
        ss.len() > 0,
        !exists|a: int, b: int|
            0 <= a < ss.len() && 0 <= b < ss.len() && string_captured(#[trigger] ss[a], free)
                && !string_captured(#[trigger] ss[b], free),
    ensures
        player_captured(ss, free) <==> forall|k: int|
            0 <= k < ss.len() ==> string_captured(#[trigger] ss[k], free),
{
    if player_captured(ss, free) {
        let a = choose|a: int| 0 <= a < ss.len() && string_captured(#[trigger] ss[a], free);
        assert forall|k: int| 0 <= k < ss.len() implies string_captured(#[trigger] ss[k], free) by {
            if !string_captured(ss[k], free) {
                assert(string_captured(ss[a], free) && !string_captured(ss[k], free));
            }
        }
    } else {
        assert(!string_captured(ss[0], free));
    }
}

/// What the point built from a row, a column and a marker shows of itself.
pub proof fn lemma_spec_new_view(x: i32, y: i32, t: char)
    ensures
        Point::spec_new(x, y, t)@ == (x as int, y as int, t),
{
}

/// The cells of two sequences of points put end to end.
pub proof fn lemma_coords_concat(a: Seq<Point>, b: Seq<Point>)
    ensures
        coords(a + b) == coords(a).union(coords(b)),
{
    assert forall|q: (int, int)| #[trigger] coords(a + b).contains(q) == coords(a).union(
        coords(b),
    ).contains(q) by {
        if has_coord(a + b, q) {
            let i = choose|i: int| 0 <= i < (a + b).len() && #[trigger] coord((a + b)[i]@) == q;
            if i < a.len() {
                assert(coord(a[i]@) == q);
            } else {
                assert(coord(b[i - a.len()]@) == q);
            }
        }
        if has_coord(a, q) {
            let i = choose|i: int| 0 <= i < a.len() && #[trigger] coord(a[i]@) == q;
            assert(coord((a + b)[i]@) == q);
        }
        if has_coord(b, q) {
            let i = choose|i: int| 0 <= i < b.len() && #[trigger] coord(b[i]@) == q;
            assert(coord((a + b)[a.len() + i]@) == q);
        }
    }
    assert(coords(a + b) =~= coords(a).union(coords(b)));
}

/// Occupying the cells of `moves` in turn adds exactly those cells.
pub proof fn lemma_occupied_after_all_coords(s: Seq<Point>, moves: Seq<Point>)
    ensures
        coords(occupied_after_all(s, moves)) == coords(s).union(coords(moves)),
    decreases moves.len(),
{
    if moves.len() > 0 {
        let pre = moves.drop_last();
        let p = moves.last();
        lemma_occupied_after_all_coords(s, pre);
        let mid = occupied_after_all(s, pre);
        assert(moves == pre.push(p));
        assert forall|q: (int, int)| #[trigger] coords(occupied_after(mid, p)).contains(q)
            == coords(s).union(coords(moves)).contains(q) by {
            lemma_has_coord_push(mid, p, q);
            lemma_has_coord_push(pre, p, q);
            assert(coords(mid).contains(q) == (coords(s).contains(q) || coords(pre).contains(q)));
            assert(has_coord(moves, q) == (has_coord(pre, q) || coord(p@) == q));
            if has_coord(mid, coord(p@)) {
                assert(occupied_after(mid, p) == mid);
                if coord(p@) == q {
                    assert(has_coord(mid, q));
                }
            } else {
                assert(occupied_after(mid, p) == mid.push(p));
            }
        }
        assert(coords(occupied_after(mid, p)) =~= coords(s).union(coords(moves)));
    } else {
        assert(coords(moves) =~= Set::<(int, int)>::empty());
        assert(coords(s).union(coords(moves)) =~= coords(s));
    }
}

/// The dimensions of a well-formed board lie within bounds.
pub proof fn lemma_board_dimensions(board: NogoBoard)
    requires
        board.wf(),
    ensures
        MIN_BOARD_DIMENSION <= board.spec_height() <= MAX_BOARD_DIMENSION,
        MIN_BOARD_DIMENSION <= board.spec_width() <= MAX_BOARD_DIMENSION,
{
}

} // verus!
