use vstd::prelude::*;

verus! {

broadcast use vstd::string::group_string_axioms;

/// The characters of `s`, in order.
pub fn chars_of(s: &str) -> (r: Vec<char>)
    ensures
        r@ == s@,
{
    let mut out: Vec<char> = Vec::new();
    for c in iter: s.chars()
        invariant
            iter.seq() == s@,
            out@ == iter.seq().take(iter.index()),
    {
        out.push(c);
    }
    out
}

/// The value of a decimal digit, if `c` is one.
pub open spec fn digit_of(c: char) -> Option<int> {
    if c == '0' {
        Some(0)
    } else if c == '1' {
        Some(1)
    } else if c == '2' {
        Some(2)
    } else if c == '3' {
        Some(3)
    } else if c == '4' {
        Some(4)
    } else if c == '5' {
        Some(5)
    } else if c == '6' {
        Some(6)
    } else if c == '7' {
        Some(7)
    } else if c == '8' {
        Some(8)
    } else if c == '9' {
        Some(9)
    } else {
        None
    }
}

/// The digit that stands for `d`, for `d` in `0..10`.
pub open spec fn digit_char(d: int) -> char {
    if d == 0 {
        '0'
    } else if d == 1 {
        '1'
    } else if d == 2 {
        '2'
    } else if d == 3 {
        '3'
    } else if d == 4 {
        '4'
    } else if d == 5 {
        '5'
    } else if d == 6 {
        '6'
    } else if d == 7 {
        '7'
    } else if d == 8 {
        '8'
    } else {
        '9'
    }
}

/// Every character of `s` is a decimal digit.
pub open spec fn all_digits(s: Seq<char>) -> bool {
    forall|i: int| 0 <= i < s.len() ==> (#[trigger] digit_of(s[i])) is Some
}

/// The number that the digits `s` write, most significant first.
pub open spec fn digits_value(s: Seq<char>) -> int
    decreases s.len(),
{
    if s.len() == 0 {
        0
    } else {
        digits_value(s.drop_last()) * 10 + digit_of(s.last())->0
    }
}

/// The integer that `s` writes: an optional sign, then one digit or more.
pub open spec fn int_of(s: Seq<char>) -> Option<int> {
    if s.len() > 0 && (s[0] == '+' || s[0] == '-') {
        let d = s.drop_first();
        if d.len() > 0 && all_digits(d) {
            Some(if s[0] == '-' { -digits_value(d) } else { digits_value(d) })
        } else {
            None
        }
    } else if s.len() > 0 && all_digits(s) {
        Some(digits_value(s))
    } else {
        None
    }
}

/// The `i32` that `s` writes, if it writes one within the range of `i32`.
pub open spec fn i32_of(s: Seq<char>) -> Option<i32> {
    match int_of(s) {
        Some(v) => if i32::MIN <= v <= i32::MAX {
            Some(v as i32)
        } else {
            None
        },
        None => None,
    }
}

/// The decimal digits of `n`, most significant first, without leading zeros.
pub open spec fn decimal(n: nat) -> Seq<char>
    decreases n,
{
    if n < 10 {
        seq![digit_char(n as int)]
    } else {
        decimal(n / 10).push(digit_char((n % 10) as int))
    }
}

/// Reading back the decimal digits of `n` gives `n`.
pub proof fn lemma_decimal_round_trip(n: nat)
    ensures
        decimal(n).len() > 0,
        all_digits(decimal(n)),
        digit_of(decimal(n)[0]) is Some,
        digits_value(decimal(n)) == n,
        int_of(decimal(n)) == Some(n as int),
    decreases n,
{
    let s = decimal(n);
    assert(digit_of('+') is None && digit_of('-') is None);
    if n < 10 {
        assert(s.drop_last() =~= Seq::<char>::empty());
        assert(digits_value(Seq::<char>::empty()) == 0);
        assert(digit_of(s[0]) is Some);
        assert(digits_value(s) == n);
    } else {
        lemma_decimal_round_trip(n / 10);
        assert(s.drop_last() == decimal(n / 10));
        assert(digit_of(s.last()) == Some((n % 10) as int));
        assert(digits_value(s) == digits_value(decimal(n / 10)) * 10 + (n % 10));
        assert(digits_value(s) == n);
        assert(s[0] == decimal(n / 10)[0]);
        assert forall|i: int| 0 <= i < s.len() implies (#[trigger] digit_of(s[i])) is Some by {
            if i < s.len() - 1 {
                assert(s[i] == decimal(n / 10)[i]);
            }
        }
    }
}

/// Digits appended to digits never make a smaller number.
proof fn lemma_digits_value_grows(s: Seq<char>, k: int)
    requires
        0 <= k <= s.len(),
        all_digits(s),
    ensures
        0 <= digits_value(s.take(k)) <= digits_value(s),
    decreases s.len() - k,
{
    if k < s.len() {
        lemma_digits_value_grows(s, k + 1);
        assert(s.take(k + 1).drop_last() == s.take(k));
        assert(digit_of(s[k]) is Some);
        lemma_digits_value_nonneg(s.take(k));
    } else {
        assert(s.take(k) == s);
        lemma_digits_value_nonneg(s);
    }
}

proof fn lemma_digits_value_nonneg(s: Seq<char>)
    requires
        all_digits(s),
    ensures
        digits_value(s) >= 0,
    decreases s.len(),
{
    if s.len() > 0 {
        assert(digit_of(s[s.len() - 1]) is Some);
        lemma_digits_value_nonneg(s.drop_last());
    }
}

/// `int_of` once the sign, if any, is set apart from the digits `d`.
proof fn lemma_int_of_digits(s: Seq<char>, start: int, d: Seq<char>)
    requires
        s.len() > 0,
        start == 1 ==> d == s.drop_first() && (s[0] == '+' || s[0] == '-'),
        start == 0 ==> d == s && !(s[0] == '+' || s[0] == '-'),
        start == 0 || start == 1,
    ensures
        int_of(s) == if d.len() > 0 && all_digits(d) {
            Some(
                if s[0] == '-' {
                    -digits_value(d)
                } else {
                    digits_value(d)
                },
            )
        } else {
            None::<int>
        },
{
}

/// The value of the decimal digit `c`, if it is one.
fn digit(c: char) -> (r: Option<i64>)
    ensures
        r is Some <==> digit_of(c) is Some,
        r is Some ==> r->0 as int == digit_of(c)->0,
{
    match c {
        '0' => Some(0),
        '1' => Some(1),
        '2' => Some(2),
        '3' => Some(3),
        '4' => Some(4),
        '5' => Some(5),
        '6' => Some(6),
        '7' => Some(7),
        '8' => Some(8),
        '9' => Some(9),
        _ => None,
    }
}

/// Reads an `i32` written in decimal: an optional `+` or `-`, then one digit or more.
pub fn parse_i32(s: &str) -> (r: Option<i32>)
    ensures
        r == i32_of(s@),
{
    let chars = chars_of(s);
    let n = chars.len();
    if n == 0 {
        return None;
    }
    let neg = chars[0] == '-';
    let start: usize = if chars[0] == '+' || chars[0] == '-' {
        1
    } else {
        0
    };
    if start == n {
        return None;
    }
    let ghost d = chars@.subrange(start as int, n as int);
    assert(start == 1 ==> d =~= s@.drop_first());
    assert(start == 0 ==> d =~= s@);
    let bound: i64 = 2147483648;
    let mut acc: i64 = 0;
    let mut i: usize = start;
    while i < n
        invariant
            start <= i <= n,
            start == 0 || start == 1,
            n == chars@.len(),
            chars@ == s@,
            d == chars@.subrange(start as int, n as int),
            d.len() > 0,
            start == 1 ==> d == s@.drop_first() && (s@[0] == '+' || s@[0] == '-'),
            start == 0 ==> d == s@ && !(s@[0] == '+' || s@[0] == '-'),
            neg == (s@[0] == '-'),
            bound == 2147483648,
            all_digits(d.take(i - start)),
            acc as int == digits_value(d.take(i - start)),
            0 <= acc <= bound,
        decreases n - i,
    {
        let ghost k = i - start;
        match digit(chars[i]) {
            None => {
                assert(d[k] == chars@[i as int]);
                assert(!all_digits(d));
                proof {
                    lemma_int_of_digits(s@, start as int, d);
                }
                return None;
            },
            Some(v) => {
                assert(d.take(k + 1).drop_last() == d.take(k));
                assert(d.take(k + 1).last() == chars@[i as int]);
                assert(all_digits(d.take(k + 1))) by {
                    assert forall|j: int| 0 <= j < k + 1 implies (#[trigger] digit_of(
                        d.take(k + 1)[j],
                    )) is Some by {
                        if j < k {
                            assert(d.take(k + 1)[j] == d.take(k)[j]);
                        }
                    }
                }
                assert(0 <= v <= 9);
                assert(acc * 10 + v <= bound * 10 + 9) by (nonlinear_arith)
                    requires
                        0 <= acc <= bound,
                        0 <= v <= 9,
                ;
                acc = acc * 10 + v;
                if acc > bound {
                    proof {
                        lemma_int_of_digits(s@, start as int, d);
                        if all_digits(d) {
                            lemma_digits_value_grows(d, k + 1);
                        }
                    }
                    return None;
                }
            },
        }
        i += 1;
    }
    assert(d.take(n - start) == d);
    proof {
        lemma_int_of_digits(s@, start as int, d);
    }
    if neg {
        Some((-acc) as i32)
    } else if acc < bound {
        Some(acc as i32)
    } else {
        None
    }
}

/// Relies on `String::push`: appends the one character `c`.
#[verifier::external_body]
pub(crate) fn push_char(s: &mut String, c: char)
    ensures
        final(s)@ == old(s)@.push(c),
{
    s.push(c)
}

/// Appends the decimal digits of `n`.
pub fn push_decimal(s: &mut String, n: u32)
    ensures
        final(s)@ == old(s)@ + decimal(n as nat),
    decreases n,
{
    if n >= 10 {
        push_decimal(s, n / 10);
    }
    let c = match n % 10 {
        0 => '0',
        1 => '1',
        2 => '2',
        3 => '3',
        4 => '4',
        5 => '5',
        6 => '6',
        7 => '7',
        8 => '8',
        _ => '9',
    };
    push_char(s, c);
    proof {
        if n >= 10 {
            assert(final(s)@ =~= old(s)@ + decimal(n as nat));
        } else {
            assert(final(s)@ =~= old(s)@ + decimal(n as nat));
        }
    }
}

/// `c` is white space, as Unicode defines it.
pub open spec fn is_space(c: char) -> bool {
    ('\u{9}' <= c <= '\u{d}') || c == ' ' || c == '\u{85}' || c == '\u{a0}' || c == '\u{1680}' || (
    '\u{2000}' <= c <= '\u{200a}') || c == '\u{2028}' || c == '\u{2029}' || c == '\u{202f}' || c
        == '\u{205f}' || c == '\u{3000}'
}

/// The words of `s` read so far, and the word being read, scanning from the left.
pub open spec fn words_scan(s: Seq<char>) -> (Seq<Seq<char>>, Seq<char>)
    decreases s.len(),
{
    if s.len() == 0 {
        (Seq::empty(), Seq::empty())
    } else {
        let (ws, cur) = words_scan(s.drop_last());
        if is_space(s.last()) {
            if cur.len() > 0 {
                (ws.push(cur), Seq::empty())
            } else {
                (ws, cur)
            }
        } else {
            (ws, cur.push(s.last()))
        }
    }
}

/// The maximal runs of characters of `s` that are not white space, in order.
pub open spec fn words(s: Seq<char>) -> Seq<Seq<char>> {
    let (ws, cur) = words_scan(s);
    if cur.len() > 0 {
        ws.push(cur)
    } else {
        ws
    }
}

/// Whether `c` is white space.
fn space(c: char) -> (r: bool)
    ensures
        r == is_space(c),
{
    ('\u{9}' <= c && c <= '\u{d}') || c == ' ' || c == '\u{85}' || c == '\u{a0}' || c == '\u{1680}'
        || ('\u{2000}' <= c && c <= '\u{200a}') || c == '\u{2028}' || c == '\u{2029}' || c
        == '\u{202f}' || c == '\u{205f}' || c == '\u{3000}'
}

/// The words of `s`: its maximal runs of characters that are not white space.
pub fn split_words(s: &str) -> (r: Vec<String>)
    ensures
        r@.map_values(|w: String| w@) == words(s@),
{
    let chars = chars_of(s);
    let mut ws: Vec<String> = Vec::new();
    let mut cur = String::new();
    let mut i: usize = 0;
    while i < chars.len()
        invariant
            0 <= i <= chars.len(),
            chars@ == s@,
            (ws@.map_values(|w: String| w@), cur@) == words_scan(chars@.take(i as int)),
        decreases chars.len() - i,
    {
        let c = chars[i];
        let ghost pre = chars@.take(i as int);
        assert(chars@.take(i + 1).drop_last() == pre);
        assert(chars@.take(i + 1).last() == c);
        let ghost old_ws = ws@;
        if space(c) {
            if !cur.as_str().is_empty() {
                assert(cur@.len() > 0);
                ws.push(cur);
                cur = String::new();
                assert(ws@.map_values(|w: String| w@) =~= old_ws.map_values(|w: String| w@).push(
                    words_scan(pre).1,
                ));
            } else {
                assert(cur@.len() == 0);
            }
        } else {
            push_char(&mut cur, c);
        }
        i += 1;
    }
    assert(chars@.take(chars@.len() as int) == s@);
    if !cur.as_str().is_empty() {
        let ghost old_ws = ws@;
        ws.push(cur);
        assert(ws@.map_values(|w: String| w@) =~= old_ws.map_values(|w: String| w@).push(
            words_scan(s@).1,
        ));
    }
    ws
}

/// Reading on through characters that are not white space extends the current word.
pub proof fn lemma_words_scan_word(x: Seq<char>, y: Seq<char>)
    requires
        forall|i: int| 0 <= i < y.len() ==> !is_space(#[trigger] y[i]),
    ensures
        words_scan(x + y) == (words_scan(x).0, words_scan(x).1 + y),
    decreases y.len(),
{
    if y.len() == 0 {
        assert(x + y == x);
        assert(words_scan(x).1 + y == words_scan(x).1);
    } else {
        lemma_words_scan_word(x, y.drop_last());
        assert((x + y).drop_last() == x + y.drop_last());
        assert((x + y).last() == y.last());
        assert(words_scan(x).1 + y.drop_last() + seq![y.last()] == words_scan(x).1 + y);
    }
}

/// A white space ends the current word, if there is one.
pub proof fn lemma_words_scan_space(x: Seq<char>, c: char)
    requires
        is_space(c),
    ensures
        words_scan(x.push(c)) == if words_scan(x).1.len() > 0 {
            (words_scan(x).0.push(words_scan(x).1), Seq::<char>::empty())
        } else {
            words_scan(x)
        },
{
    assert(x.push(c).drop_last() == x);
}

/// A decimal digit is no white space.
pub proof fn lemma_digits_not_space(s: Seq<char>)
    requires
        all_digits(s),
    ensures
        forall|i: int| 0 <= i < s.len() ==> !is_space(#[trigger] s[i]),
{
    assert forall|i: int| 0 <= i < s.len() implies !is_space(#[trigger] s[i]) by {
        assert(digit_of(s[i]) is Some);
    }
}

/// The words of `a b c d e`, where `a` and `b` are digits and `c`, `d`, `e` single characters
/// that are not white space.
pub proof fn lemma_words_of_fields(a: Seq<char>, b: Seq<char>, c: char, d: char, e: char)
    requires
        a.len() > 0,
        b.len() > 0,
        all_digits(a),
        all_digits(b),
        !is_space(c),
        !is_space(d),
        !is_space(e),
    ensures
        words(a + seq![' '] + b + seq![' ', c, ' ', d, ' ', e]) == seq![
            a,
            b,
            seq![c],
            seq![d],
            seq![e],
        ],
{
    let empty = Seq::<char>::empty();
    lemma_digits_not_space(a);
    lemma_digits_not_space(b);
    assert(words_scan(empty) == (Seq::<Seq<char>>::empty(), empty));
    lemma_words_scan_word(empty, a);
    assert(empty + a == a);
    let s1 = a.push(' ');
    lemma_words_scan_space(a, ' ');
    lemma_words_scan_word(s1, b);
    let s2 = s1 + b;
    lemma_words_scan_space(s2, ' ');
    let s3 = s2.push(' ');
    assert(words_scan(s3) == (seq![a, b], empty));
    lemma_words_scan_word(s3, seq![c]);
    let s4 = s3 + seq![c];
    lemma_words_scan_space(s4, ' ');
    let s5 = s4.push(' ');
    lemma_words_scan_word(s5, seq![d]);
    let s6 = s5 + seq![d];
    lemma_words_scan_space(s6, ' ');
    let s7 = s6.push(' ');
    lemma_words_scan_word(s7, seq![e]);
    let s8 = s7 + seq![e];
    assert(s8 =~= a + seq![' '] + b + seq![' ', c, ' ', d, ' ', e]);
    assert(words_scan(s8) == (seq![a, b, seq![c], seq![d]], seq![e]));
    assert(words(s8) =~= seq![a, b, seq![c], seq![d], seq![e]]);
}

} // verus!
