//! Character-level text handling shared by every parser in the crate: ASCII
//! case folding, Unicode whitespace trimming, splitting, and decimal numbers.
//! Each operation is stated over `Seq<char>` and proved.

use vstd::prelude::*;

verus! {

// ---------------------------------------------------------------- specs

/// ASCII lowercase of one character; every other character is unchanged.
pub open spec fn lower_char(c: char) -> char {
    if 'A' <= c && c <= 'Z' {
        ((c as u32) + 32) as char
    } else {
        c
    }
}

/// ASCII lowercase of a character sequence.
pub open spec fn lower(s: Seq<char>) -> Seq<char> {
    s.map_values(|c: char| lower_char(c))
}

/// ASCII case-insensitive equality.
pub open spec fn eq_ic(a: Seq<char>, b: Seq<char>) -> bool {
    lower(a) == lower(b)
}

pub open spec fn is_digit(c: char) -> bool {
    '0' <= c && c <= '9'
}

pub open spec fn is_alpha(c: char) -> bool {
    ('a' <= c && c <= 'z') || ('A' <= c && c <= 'Z')
}

pub open spec fn is_hex(c: char) -> bool {
    is_digit(c) || ('a' <= c && c <= 'f') || ('A' <= c && c <= 'F')
}

/// The Unicode `White_Space` characters, which is what `char::is_whitespace`
/// (and so `str::trim`) recognises.
pub open spec fn is_ws(c: char) -> bool {
    ||| c == ' '
    ||| ('\t' <= c && c <= '\r')
    ||| c == '\u{85}'
    ||| c == '\u{a0}'
    ||| c == '\u{1680}'
    ||| ('\u{2000}' <= c && c <= '\u{200a}')
    ||| c == '\u{2028}'
    ||| c == '\u{2029}'
    ||| c == '\u{202f}'
    ||| c == '\u{205f}'
    ||| c == '\u{3000}'
}

/// The Unicode `Cc` category, which is what `char::is_control` recognises.
pub open spec fn is_control(c: char) -> bool {
    c <= '\u{1f}' || ('\u{7f}' <= c && c <= '\u{9f}')
}

/// `s` with its leading whitespace removed.
pub open spec fn trim_start(s: Seq<char>) -> Seq<char>
    decreases s.len(),
{
    if s.len() > 0 && is_ws(s[0]) {
        trim_start(s.drop_first())
    } else {
        s
    }
}

/// `s` with its trailing whitespace removed.
pub open spec fn trim_end(s: Seq<char>) -> Seq<char>
    decreases s.len(),
{
    if s.len() > 0 && is_ws(s.last()) {
        trim_end(s.drop_last())
    } else {
        s
    }
}

/// `s` with whitespace removed from both ends.
pub open spec fn trim(s: Seq<char>) -> Seq<char> {
    trim_end(trim_start(s))
}

pub open spec fn starts_with(s: Seq<char>, p: Seq<char>) -> bool {
    p.len() <= s.len() && s.take(p.len() as int) == p
}

pub open spec fn ends_with(s: Seq<char>, p: Seq<char>) -> bool {
    p.len() <= s.len() && s.skip(s.len() - p.len()) == p
}

/// The index of the first `c` in `s`, if any.
pub open spec fn find_char(s: Seq<char>, c: char) -> Option<int>
    decreases s.len(),
{
    if s.len() == 0 {
        None
    } else if s[0] == c {
        Some(0)
    } else {
        match find_char(s.drop_first(), c) {
            Some(i) => Some(i + 1),
            None => None,
        }
    }
}

/// The index of the last `c` in `s`, if any.
pub open spec fn rfind_char(s: Seq<char>, c: char) -> Option<int>
    decreases s.len(),
{
    if s.len() == 0 {
        None
    } else if s.last() == c {
        Some(s.len() - 1)
    } else {
        rfind_char(s.drop_last(), c)
    }
}

/// `str::split_once(c)`: the text before and after the first `c`.
pub open spec fn split_once(s: Seq<char>, c: char) -> Option<(Seq<char>, Seq<char>)> {
    match find_char(s, c) {
        Some(i) => Some((s.take(i), s.skip(i + 1))),
        None => None,
    }
}

/// `str::rsplit_once(c)`: the text before and after the last `c`.
pub open spec fn rsplit_once(s: Seq<char>, c: char) -> Option<(Seq<char>, Seq<char>)> {
    match rfind_char(s, c) {
        Some(i) => Some((s.take(i), s.skip(i + 1))),
        None => None,
    }
}

/// `str::split(c)`: every piece between separators, empty pieces included.
pub open spec fn split_on(s: Seq<char>, c: char) -> Seq<Seq<char>>
    decreases s.len(),
{
    match find_char(s, c) {
        Some(i) => {
            if 0 <= i < s.len() {
                seq![s.take(i)] + split_on(s.skip(i + 1), c)
            } else {
                seq![s]
            }
        },
        None => seq![s],
    }
}

/// One line without its terminator: a trailing `\r` is dropped too.
pub open spec fn strip_cr(l: Seq<char>) -> Seq<char> {
    if l.len() > 0 && l.last() == '\r' {
        l.drop_last()
    } else {
        l
    }
}

/// The text split on `\n`, each line without a trailing `\r`, and no final
/// empty line after a terminating `\n`. This is `str::lines` except that a
/// bare `\r` ending an unterminated last line is dropped here and kept by
/// std; every reader of these lines trims them, so no result differs.
pub open spec fn lines(s: Seq<char>) -> Seq<Seq<char>>
    decreases s.len(),
{
    if s.len() == 0 {
        seq![]
    } else {
        match find_char(s, '\n') {
            Some(i) => {
                if 0 <= i < s.len() {
                    seq![strip_cr(s.take(i))] + lines(s.skip(i + 1))
                } else {
                    seq![strip_cr(s)]
                }
            },
            None => seq![strip_cr(s)],
        }
    }
}

/// The value of a run of decimal digits.
pub open spec fn digits_value(s: Seq<char>) -> nat
    decreases s.len(),
{
    if s.len() == 0 {
        0
    } else {
        digits_value(s.drop_last()) * 10 + ((s.last() as u32 - '0' as u32) as nat)
    }
}

pub open spec fn all_digits(s: Seq<char>) -> bool {
    forall|i: int| 0 <= i < s.len() ==> is_digit(#[trigger] s[i])
}

/// Rust's `u64::from_str`: an optional `+`, then at least one digit and nothing
/// else, within range.
pub open spec fn parse_u64_spec(s: Seq<char>) -> Option<u64> {
    let body = if s.len() > 0 && s[0] == '+' { s.drop_first() } else { s };
    if body.len() > 0 && all_digits(body) && digits_value(body) <= u64::MAX {
        Some(digits_value(body) as u64)
    } else {
        None
    }
}

/// Rust's `i64::from_str`: an optional sign, then at least one digit, within
/// range.
pub open spec fn parse_i64_spec(s: Seq<char>) -> Option<i64> {
    let neg = s.len() > 0 && s[0] == '-';
    let body = if s.len() > 0 && (s[0] == '+' || s[0] == '-') { s.drop_first() } else { s };
    if body.len() > 0 && all_digits(body) {
        let v: int = if neg { -(digits_value(body) as int) } else { digits_value(body) as int };
        if i64::MIN <= v && v <= i64::MAX {
            Some(v as i64)
        } else {
            None
        }
    } else {
        None
    }
}

/// Rust's `i32::from_str`.
pub open spec fn parse_i32_spec(s: Seq<char>) -> Option<i32> {
    match parse_i64_spec(s) {
        Some(v) => if i32::MIN <= v && v <= i32::MAX { Some(v as i32) } else { None },
        None => None,
    }
}

/// Rust's `u32::from_str`.
pub open spec fn parse_u32_spec(s: Seq<char>) -> Option<u32> {
    match parse_u64_spec(s) {
        Some(v) => if v <= u32::MAX { Some(v as u32) } else { None },
        None => None,
    }
}

/// The decimal digit for `d < 10`.
pub open spec fn digit_char(d: nat) -> char {
    ((d + '0' as u32) as u32) as char
}

/// The shortest decimal rendering of `n` (what `to_string` prints).
pub open spec fn dec(n: nat) -> Seq<char>
    decreases n,
{
    if n < 10 {
        seq![digit_char(n)]
    } else {
        dec(n / 10).push(digit_char(n % 10))
    }
}

/// A signed decimal rendering.
pub open spec fn dec_int(n: int) -> Seq<char> {
    if n < 0 {
        seq!['-'] + dec((-n) as nat)
    } else {
        dec(n as nat)
    }
}

/// `n` in decimal, left-padded with zeros to at least `width` digits
/// (`format!("{n:0width$}")`).
pub open spec fn dec_pad(n: nat, width: nat) -> Seq<char> {
    let d = dec(n);
    if d.len() >= width {
        d
    } else {
        Seq::new((width - d.len()) as nat, |i: int| '0') + d
    }
}

// ---------------------------------------------------------------- lemmas

pub proof fn lemma_lower_len(s: Seq<char>)
    ensures
        lower(s).len() == s.len(),
{
}

pub proof fn lemma_lower_push(s: Seq<char>, c: char)
    ensures
        lower(s.push(c)) == lower(s).push(lower_char(c)),
{
    assert(lower(s.push(c)) =~= lower(s).push(lower_char(c)));
}

pub proof fn lemma_lower_add(a: Seq<char>, b: Seq<char>)
    ensures
        lower(a + b) == lower(a) + lower(b),
{
    assert(lower(a + b) =~= lower(a) + lower(b));
}

pub proof fn lemma_find_char_some(s: Seq<char>, c: char)
    ensures
        match find_char(s, c) {
            Some(i) => 0 <= i < s.len() && s[i] == c && forall|j: int| 0 <= j < i ==> s[j] != c,
            None => forall|j: int| 0 <= j < s.len() ==> s[j] != c,
        },
    decreases s.len(),
{
    if s.len() > 0 && s[0] != c {
        lemma_find_char_some(s.drop_first(), c);
        match find_char(s.drop_first(), c) {
            Some(i) => {
                assert forall|j: int| 0 <= j < i + 1 implies s[j] != c by {
                    if j > 0 {
                        assert(s[j] == s.drop_first()[j - 1]);
                    }
                }
            },
            None => {
                assert forall|j: int| 0 <= j < s.len() implies s[j] != c by {
                    if j > 0 {
                        assert(s[j] == s.drop_first()[j - 1]);
                    }
                }
            },
        }
    }
}

/// The first-occurrence characterisation determines `find_char`.
pub proof fn lemma_find_char_at(s: Seq<char>, c: char, i: int)
    requires
        0 <= i < s.len(),
        s[i] == c,
        forall|j: int| 0 <= j < i ==> s[j] != c,
    ensures
        find_char(s, c) == Some(i),
{
    lemma_find_char_some(s, c);
}

pub proof fn lemma_find_char_none(s: Seq<char>, c: char)
    requires
        forall|j: int| 0 <= j < s.len() ==> s[j] != c,
    ensures
        find_char(s, c) == None::<int>,
{
    lemma_find_char_some(s, c);
}

/// A line without `\n`, its terminator, then the rest: the line comes first.
pub proof fn lemma_lines_cons(l: Seq<char>, rest: Seq<char>)
    requires
        forall|j: int| 0 <= j < l.len() ==> l[j] != '\n',
    ensures
        lines(l + seq!['\n'] + rest) == seq![strip_cr(l)] + lines(rest),
{
    let s = l + seq!['\n'] + rest;
    lemma_find_char_at(s, '\n', l.len() as int);
    assert(s.take(l.len() as int) =~= l);
    assert(s.skip(l.len() as int + 1) =~= rest);
}

/// Lines of text that ends with a line break, then more text: the lines of
/// the one, then the lines of the other.
pub proof fn lemma_lines_append(a: Seq<char>, b: Seq<char>)
    requires
        a.len() == 0 || a.last() == '\n',
    ensures
        lines(a + b) == lines(a) + lines(b),
    decreases a.len(),
{
    if a.len() == 0 {
        assert(a + b =~= b);
        assert(lines(a) =~= Seq::<Seq<char>>::empty());
        assert(lines(a) + lines(b) =~= lines(b));
    } else {
        lemma_find_char_some(a, '\n');
        let i = match find_char(a, '\n') {
            Some(i) => i,
            None => { assert(a[a.len() - 1] == '\n'); 0 },
        };
        lemma_find_char_at(a + b, '\n', i);
        assert((a + b).take(i) =~= a.take(i));
        assert((a + b).skip(i + 1) =~= a.skip(i + 1) + b);
        lemma_lines_append(a.skip(i + 1), b);
        assert(lines(a + b) =~= lines(a) + lines(b));
    }
}

/// One line without `\n`, terminated: exactly that line.
pub proof fn lemma_lines_one(l: Seq<char>)
    requires
        forall|j: int| 0 <= j < l.len() ==> l[j] != '\n',
    ensures
        lines(l + seq!['\n']) == seq![strip_cr(l)],
{
    lemma_lines_cons(l, Seq::empty());
    assert(l + seq!['\n'] + Seq::<char>::empty() =~= l + seq!['\n']);
    assert(lines(Seq::<char>::empty()) =~= Seq::<Seq<char>>::empty());
    assert(seq![strip_cr(l)] + Seq::<Seq<char>>::empty() =~= seq![strip_cr(l)]);
}

/// The decimal text of a number reads back as that number.
pub proof fn lemma_parse_dec(n: u64)
    ensures
        parse_u64_spec(dec(n as nat)) == Some(n),
        trim(dec(n as nat)) == dec(n as nat),
{
    lemma_dec_digits(n as nat);
    let d = dec(n as nat);
    assert(is_digit(d[0]));
    assert(is_digit(d[d.len() - 1]));
    lemma_trim_fixed(d);
}

/// No line of a text holds a line break.
pub proof fn lemma_lines_no_newline(s: Seq<char>)
    ensures
        forall|i: int, j: int| 0 <= i < lines(s).len() && 0 <= j < lines(s)[i].len() ==> lines(s)[i][j] != '\n',
    decreases s.len(),
{
    if s.len() > 0 {
        lemma_find_char_some(s, '\n');
        match find_char(s, '\n') {
            Some(k) => {
                lemma_lines_no_newline(s.skip(k + 1));
                let first = strip_cr(s.take(k));
                assert forall|j: int| 0 <= j < first.len() implies first[j] != '\n' by {
                    assert(first[j] == s[j]);
                }
                assert forall|i: int, j: int| 0 <= i < lines(s).len() && 0 <= j < lines(s)[i].len() implies lines(s)[i][j] != '\n' by {
                    if i > 0 {
                        assert(lines(s)[i] == lines(s.skip(k + 1))[i - 1]);
                    }
                }
            },
            None => {
                let first = strip_cr(s);
                assert forall|j: int| 0 <= j < first.len() implies first[j] != '\n' by {
                    assert(first[j] == s[j]);
                }
            },
        }
    }
}

/// A trimmed, non-empty text keeps its first and last character.
pub proof fn lemma_trim_fixed(s: Seq<char>)
    requires
        s.len() > 0,
        !is_ws(s[0]),
        !is_ws(s.last()),
    ensures
        trim(s) == s,
{
    assert(trim_start(s) == s);
    assert(trim_end(s) == s);
}

/// Splitting two texts joined by the separator: the pieces of the one, then
/// the pieces of the other.
pub proof fn lemma_split_on_append(a: Seq<char>, b: Seq<char>, c: char)
    ensures
        split_on(a + seq![c] + b, c) == split_on(a, c) + split_on(b, c),
    decreases a.len(),
{
    let s = a + seq![c] + b;
    lemma_find_char_some(a, c);
    match find_char(a, c) {
        Some(i) => {
            lemma_find_char_at(s, c, i);
            assert(s.take(i) =~= a.take(i));
            assert(s.skip(i + 1) =~= a.skip(i + 1) + seq![c] + b);
            lemma_split_on_append(a.skip(i + 1), b, c);
            assert(split_on(s, c) =~= split_on(a, c) + split_on(b, c));
        },
        None => {
            lemma_find_char_at(s, c, a.len() as int);
            assert(s.take(a.len() as int) =~= a);
            assert(s.skip(a.len() as int + 1) =~= b);
            assert(split_on(s, c) =~= split_on(a, c) + split_on(b, c));
        },
    }
}

/// The signed decimal text of an `i32` reads back as it, is its own trim, and
/// holds only a sign and digits, ending in a digit.
pub proof fn lemma_parse_dec_int(x: i32)
    ensures
        parse_i32_spec(dec_int(x as int)) == Some(x),
        trim(dec_int(x as int)) == dec_int(x as int),
        dec_int(x as int).len() > 0,
        is_digit(dec_int(x as int).last()),
        forall|j: int| 0 <= j < dec_int(x as int).len() ==> #[trigger] dec_int(x as int)[j] == '-' || is_digit(dec_int(x as int)[j]),
{
    let d = dec_int(x as int);
    if x < 0 {
        let m: nat = (-(x as int)) as nat;
        lemma_dec_digits(m);
        let body = dec(m);
        assert(d == seq!['-'] + body);
        assert(d.drop_first() =~= body);
        assert(d.last() == body.last());
        assert(is_digit(body[body.len() - 1]));
        assert forall|j: int| 0 <= j < d.len() implies #[trigger] d[j] == '-' || is_digit(d[j]) by {
            if j > 0 {
                assert(d[j] == body[j - 1]);
            }
        }
        lemma_trim_fixed(d);
    } else {
        lemma_dec_digits(x as nat);
        assert(is_digit(d[0]));
        assert(is_digit(d[d.len() - 1]));
        lemma_trim_fixed(d);
    }
}

/// Trimming twice is trimming once; a trimmed text is a piece of the original
/// and, when not empty, ends in a non-whitespace character.
pub proof fn lemma_trim_idem(s: Seq<char>)
    ensures
        trim(trim(s)) == trim(s),
        trim(s).len() > 0 ==> !is_ws(trim(s).last()) && !is_ws(trim(s)[0]),
        trim(s).len() <= trim_start(s).len() <= s.len(),
        forall|j: int| 0 <= j < trim(s).len() ==> #[trigger] trim(s)[j] == s[j + (s.len() - trim_start(s).len())],
{
    lemma_trim_start_is_suffix(s);
    let a = trim_start(s);
    lemma_trim_end_is_prefix(a);
    let t = trim(s);
    assert forall|j: int| 0 <= j < t.len() implies #[trigger] t[j] == s[j + (s.len() - a.len())] by {
        assert(t[j] == a[j]);
    }
    if t.len() > 0 {
        assert(t[0] == a[0]);
        lemma_trim_fixed(t);
    } else {
        assert(trim_start(t) =~= t);
    }
}

pub proof fn lemma_rfind_char_some(s: Seq<char>, c: char)
    ensures
        match rfind_char(s, c) {
            Some(i) => 0 <= i < s.len() && s[i] == c && forall|j: int| i < j < s.len() ==> s[j] != c,
            None => forall|j: int| 0 <= j < s.len() ==> s[j] != c,
        },
    decreases s.len(),
{
    if s.len() > 0 && s.last() != c {
        lemma_rfind_char_some(s.drop_last(), c);
        match rfind_char(s.drop_last(), c) {
            Some(i) => {
                assert(s[i] == s.drop_last()[i]);
                assert forall|j: int| i < j < s.len() implies s[j] != c by {
                    if j < s.len() - 1 {
                        assert(s[j] == s.drop_last()[j]);
                    }
                }
            },
            None => {
                assert forall|j: int| 0 <= j < s.len() implies s[j] != c by {
                    if j < s.len() - 1 {
                        assert(s[j] == s.drop_last()[j]);
                    }
                }
            },
        }
    }
}

pub proof fn lemma_rfind_char_at(s: Seq<char>, c: char, i: int)
    requires
        0 <= i < s.len(),
        s[i] == c,
        forall|j: int| i < j < s.len() ==> s[j] != c,
    ensures
        rfind_char(s, c) == Some(i),
{
    lemma_rfind_char_some(s, c);
    match rfind_char(s, c) {
        Some(k) => {
            if k < i {
                assert(false);
            } else if k > i {
                assert(false);
            }
        },
        None => {},
    }
}

pub proof fn lemma_rfind_char_none(s: Seq<char>, c: char)
    requires
        forall|j: int| 0 <= j < s.len() ==> s[j] != c,
    ensures
        rfind_char(s, c) == None::<int>,
{
    lemma_rfind_char_some(s, c);
}

pub proof fn lemma_trim_start_is_suffix(s: Seq<char>)
    ensures
        trim_start(s).len() <= s.len(),
        trim_start(s) == s.skip(s.len() - trim_start(s).len()),
        trim_start(s).len() > 0 ==> !is_ws(trim_start(s)[0]),
        forall|j: int| 0 <= j < s.len() - trim_start(s).len() ==> is_ws(#[trigger] s[j]),
    decreases s.len(),
{
    if s.len() > 0 && is_ws(s[0]) {
        lemma_trim_start_is_suffix(s.drop_first());
        assert(s.drop_first().skip(s.drop_first().len() - trim_start(s.drop_first()).len())
            =~= s.skip(s.len() - trim_start(s).len()));
        assert forall|j: int| 0 <= j < s.len() - trim_start(s).len() implies is_ws(#[trigger] s[j]) by {
            if j > 0 {
                assert(s[j] == s.drop_first()[j - 1]);
            }
        }
    } else {
        assert(s.skip(0) =~= s);
    }
}

pub proof fn lemma_trim_end_is_prefix(s: Seq<char>)
    ensures
        trim_end(s).len() <= s.len(),
        trim_end(s) == s.take(trim_end(s).len() as int),
        trim_end(s).len() > 0 ==> !is_ws(trim_end(s).last()),
        forall|j: int| trim_end(s).len() <= j < s.len() ==> is_ws(#[trigger] s[j]),
    decreases s.len(),
{
    if s.len() > 0 && is_ws(s.last()) {
        lemma_trim_end_is_prefix(s.drop_last());
        assert(s.drop_last().take(trim_end(s.drop_last()).len() as int)
            =~= s.take(trim_end(s).len() as int));
        assert forall|j: int| trim_end(s).len() <= j < s.len() implies is_ws(#[trigger] s[j]) by {
            if j < s.len() - 1 {
                assert(s[j] == s.drop_last()[j]);
            }
        }
    } else {
        assert(s.take(s.len() as int) =~= s);
    }
}

/// Trimming is determined by the first and last non-whitespace positions.
pub proof fn lemma_trim_start_at(s: Seq<char>, k: int)
    requires
        0 <= k <= s.len(),
        forall|j: int| 0 <= j < k ==> is_ws(#[trigger] s[j]),
        k < s.len() ==> !is_ws(s[k]),
    ensures
        trim_start(s) == s.skip(k),
    decreases k,
{
    if k > 0 {
        assert(is_ws(s[0]));
        assert forall|j: int| 0 <= j < k - 1 implies is_ws(#[trigger] s.drop_first()[j]) by {
            assert(s.drop_first()[j] == s[j + 1]);
        }
        lemma_trim_start_at(s.drop_first(), k - 1);
        assert(s.drop_first().skip(k - 1) =~= s.skip(k));
    } else {
        assert(s.skip(0) =~= s);
    }
}

pub proof fn lemma_trim_end_at(s: Seq<char>, k: int)
    requires
        0 <= k <= s.len(),
        forall|j: int| k <= j < s.len() ==> is_ws(#[trigger] s[j]),
        k > 0 ==> !is_ws(s[k - 1]),
    ensures
        trim_end(s) == s.take(k),
    decreases s.len() - k,
{
    if k < s.len() {
        assert(is_ws(s.last()));
        assert forall|j: int| k <= j < s.drop_last().len() implies is_ws(#[trigger] s.drop_last()[j]) by {
            assert(s.drop_last()[j] == s[j]);
        }
        lemma_trim_end_at(s.drop_last(), k);
        assert(s.drop_last().take(k) =~= s.take(k));
    } else {
        assert(s.take(k) =~= s);
    }
}

pub proof fn lemma_digits_value_push(s: Seq<char>, c: char)
    ensures
        digits_value(s.push(c)) == digits_value(s) * 10 + ((c as u32 - '0' as u32) as nat),
{
    assert(s.push(c).drop_last() =~= s);
}

pub proof fn lemma_dec_digits(n: nat)
    ensures
        dec(n).len() >= 1,
        all_digits(dec(n)),
        digits_value(dec(n)) == n,
    decreases n,
{
    if n < 10 {
        assert(seq![digit_char(n)].drop_last() =~= Seq::<char>::empty());
        assert(digit_char(n) as u32 == n + 48);
        assert(digits_value(seq![digit_char(n)]) == digits_value(Seq::<char>::empty()) * 10 + ((digit_char(n) as u32 - '0' as u32) as nat));
    } else {
        lemma_dec_digits(n / 10);
        lemma_digits_value_push(dec(n / 10), digit_char(n % 10));
        assert(digit_char(n % 10) as u32 == n % 10 + 48);
        assert(n == (n / 10) * 10 + n % 10);
        assert(dec(n) == dec(n / 10).push(digit_char(n % 10)));
        assert(digits_value(dec(n)) == digits_value(dec(n / 10)) * 10 + ((digit_char(n % 10) as u32 - '0' as u32) as nat));
        assert(((digit_char(n % 10) as u32 - '0' as u32) as nat) == n % 10);
        assert forall|i: int| 0 <= i < dec(n).len() implies is_digit(#[trigger] dec(n)[i]) by {
            if i < dec(n / 10).len() {
                assert(dec(n)[i] == dec(n / 10)[i]);
            }
        }
    }
}

// ---------------------------------------------------------------- exec

/// Append one character (std's `String::push`).
#[verifier::external_body]
pub fn push_char(s: &mut String, c: char)
    ensures
        final(s)@ == old(s)@.push(c),
{
    s.push(c);
}

/// A `String` holding exactly `v`.
pub fn string_of(v: &[char]) -> (s: String)
    ensures
        s@ == v@,
{
    let mut s = String::new();
    let mut i: usize = 0;
    while i < v.len()
        invariant
            i <= v.len(),
            s@ == v@.take(i as int),
        decreases v.len() - i,
    {
        push_char(&mut s, v[i]);
        i = i + 1;
        assert(s@ =~= v@.take(i as int));
    }
    assert(v@.take(v.len() as int) =~= v@);
    s
}

/// The characters of a string slice, in order.
pub fn chars_of(s: &str) -> (v: Vec<char>)
    ensures
        v@ == s@,
{
    let mut v: Vec<char> = Vec::new();
    for c in it: s.chars()
        invariant
            v@ == it.seq().take(it.index() as int),
    {
        v.push(c);
    }
    v
}

/// Append a whole string slice.
pub fn push_str(s: &mut String, t: &str)
    ensures
        final(s)@ == old(s)@ + t@,
{
    s.append(t);
}

/// Append a run of characters.
pub fn push_chars(s: &mut String, t: &[char])
    ensures
        final(s)@ == old(s)@ + t@,
{
    let ghost s0 = s@;
    let mut i: usize = 0;
    while i < t.len()
        invariant
            i <= t.len(),
            s@ == s0 + t@.take(i as int),
        decreases t.len() - i,
    {
        push_char(s, t[i]);
        i = i + 1;
        assert(s@ =~= s0 + t@.take(i as int));
    }
    assert(t@.take(t.len() as int) =~= t@);
}

/// A copy of a subrange.
pub fn slice_vec(v: &[char], lo: usize, hi: usize) -> (r: Vec<char>)
    requires
        lo <= hi <= v.len(),
    ensures
        r@ == v@.subrange(lo as int, hi as int),
{
    let mut r: Vec<char> = Vec::new();
    let mut i = lo;
    while i < hi
        invariant
            lo <= i <= hi <= v.len(),
            r@ == v@.subrange(lo as int, i as int),
        decreases hi - i,
    {
        r.push(v[i]);
        i = i + 1;
        assert(r@ =~= v@.subrange(lo as int, i as int));
    }
    r
}

pub fn lower_char_exec(c: char) -> (r: char)
    ensures
        r == lower_char(c),
{
    if 'A' <= c && c <= 'Z' {
        ((c as u8) + 32) as char
    } else {
        c
    }
}

/// ASCII lowercase of a character run.
pub fn lower_vec(v: &[char]) -> (r: Vec<char>)
    ensures
        r@ == lower(v@),
{
    let mut r: Vec<char> = Vec::new();
    let mut i: usize = 0;
    while i < v.len()
        invariant
            i <= v.len(),
            r@ == lower(v@.take(i as int)),
        decreases v.len() - i,
    {
        let c = lower_char_exec(v[i]);
        proof {
            lemma_lower_push(v@.take(i as int), v[i as int]);
            assert(v@.take(i as int).push(v[i as int]) =~= v@.take(i + 1));
        }
        r.push(c);
        i = i + 1;
    }
    assert(v@.take(v.len() as int) =~= v@);
    r
}

/// `str::to_ascii_lowercase`.
pub fn to_lower(s: &str) -> (r: String)
    ensures
        r@ == lower(s@),
{
    let v = chars_of(s);
    let l = lower_vec(&v);
    string_of(&l)
}

/// Exact equality of two character runs.
pub fn eq_chars(a: &[char], b: &[char]) -> (r: bool)
    ensures
        r == (a@ == b@),
{
    if a.len() != b.len() {
        return false;
    }
    let mut i: usize = 0;
    while i < a.len()
        invariant
            a.len() == b.len(),
            i <= a.len(),
            forall|j: int| 0 <= j < i ==> a@[j] == b@[j],
        decreases a.len() - i,
    {
        if a[i] != b[i] {
            return false;
        }
        i = i + 1;
    }
    assert(a@ =~= b@);
    true
}

/// ASCII case-insensitive equality of two character runs.
pub fn eq_ic_chars(a: &[char], b: &[char]) -> (r: bool)
    ensures
        r == eq_ic(a@, b@),
{
    if a.len() != b.len() {
        assert(lower(a@).len() != lower(b@).len());
        return false;
    }
    let mut i: usize = 0;
    while i < a.len()
        invariant
            a.len() == b.len(),
            i <= a.len(),
            forall|j: int| 0 <= j < i ==> lower_char(a@[j]) == lower_char(b@[j]),
        decreases a.len() - i,
    {
        if lower_char_exec(a[i]) != lower_char_exec(b[i]) {
            assert(lower(a@)[i as int] != lower(b@)[i as int]);
            return false;
        }
        i = i + 1;
    }
    assert(lower(a@) =~= lower(b@));
    true
}

/// `str::eq_ignore_ascii_case`.
pub fn eq_ic_str(a: &str, b: &str) -> (r: bool)
    ensures
        r == eq_ic(a@, b@),
{
    let va = chars_of(a);
    let vb = chars_of(b);
    eq_ic_chars(&va, &vb)
}

/// Exact equality of two string slices.
pub fn eq_str(a: &str, b: &str) -> (r: bool)
    ensures
        r == (a@ == b@),
{
    let va = chars_of(a);
    let vb = chars_of(b);
    eq_chars(&va, &vb)
}

pub fn is_ws_exec(c: char) -> (r: bool)
    ensures
        r == is_ws(c),
{
    c == ' ' || ('\t' <= c && c <= '\r') || c == '\u{85}' || c == '\u{a0}' || c == '\u{1680}'
        || ('\u{2000}' <= c && c <= '\u{200a}') || c == '\u{2028}' || c == '\u{2029}'
        || c == '\u{202f}' || c == '\u{205f}' || c == '\u{3000}'
}

pub fn is_control_exec(c: char) -> (r: bool)
    ensures
        r == is_control(c),
{
    c <= '\u{1f}' || ('\u{7f}' <= c && c <= '\u{9f}')
}

/// `str::trim` over a character run.
pub fn trim_vec(v: &[char]) -> (r: Vec<char>)
    ensures
        r@ == trim(v@),
{
    let mut lo: usize = 0;
    while lo < v.len() && is_ws_exec(v[lo])
        invariant
            lo <= v.len(),
            forall|j: int| 0 <= j < lo ==> is_ws(#[trigger] v@[j]),
        decreases v.len() - lo,
    {
        lo = lo + 1;
    }
    proof {
        lemma_trim_start_at(v@, lo as int);
    }
    let mut hi: usize = v.len();
    while hi > lo && is_ws_exec(v[hi - 1])
        invariant
            lo <= hi <= v.len(),
            forall|j: int| hi <= j < v.len() ==> is_ws(#[trigger] v@[j]),
        decreases hi - lo,
    {
        hi = hi - 1;
    }
    proof {
        let t = v@.skip(lo as int);
        assert forall|j: int| hi - lo <= j < t.len() implies is_ws(#[trigger] t[j]) by {
            assert(t[j] == v@[j + lo]);
        }
        if hi > lo {
            assert(t[hi - lo - 1] == v@[hi - 1]);
        }
        lemma_trim_end_at(t, hi - lo);
        assert(t.take(hi - lo) =~= v@.subrange(lo as int, hi as int));
    }
    slice_vec(v, lo, hi)
}

/// `str::trim`.
pub fn trim_str(s: &str) -> (r: String)
    ensures
        r@ == trim(s@),
{
    let v = chars_of(s);
    let t = trim_vec(&v);
    string_of(&t)
}

/// The index of the first `c`.
pub fn find_char_exec(v: &[char], c: char) -> (r: Option<usize>)
    ensures
        match r {
            Some(i) => find_char(v@, c) == Some(i as int),
            None => find_char(v@, c) == None::<int>,
        },
{
    let mut i: usize = 0;
    while i < v.len()
        invariant
            i <= v.len(),
            forall|j: int| 0 <= j < i ==> v@[j] != c,
        decreases v.len() - i,
    {
        if v[i] == c {
            proof {
                lemma_find_char_at(v@, c, i as int);
            }
            return Some(i);
        }
        i = i + 1;
    }
    proof {
        lemma_find_char_none(v@, c);
    }
    None
}

/// The index of the last `c`.
pub fn rfind_char_exec(v: &[char], c: char) -> (r: Option<usize>)
    ensures
        match r {
            Some(i) => rfind_char(v@, c) == Some(i as int),
            None => rfind_char(v@, c) == None::<int>,
        },
{
    let mut i: usize = v.len();
    while i > 0
        invariant
            i <= v.len(),
            forall|j: int| i <= j < v.len() ==> v@[j] != c,
        decreases i,
    {
        if v[i - 1] == c {
            proof {
                lemma_rfind_char_at(v@, c, i - 1);
            }
            return Some(i - 1);
        }
        i = i - 1;
    }
    proof {
        lemma_rfind_char_none(v@, c);
    }
    None
}

/// `str::split_once(c)` over a character run.
pub fn split_once_vec(v: &[char], c: char) -> (r: Option<(Vec<char>, Vec<char>)>)
    ensures
        match r {
            Some((a, b)) => split_once(v@, c) == Some((a@, b@)),
            None => split_once(v@, c) == None::<(Seq<char>, Seq<char>)>,
        },
{
    match find_char_exec(v, c) {
        Some(i) => {
            proof {
                lemma_find_char_some(v@, c);
                assert(find_char(v@, c) == Some(i as int));
                assert(i < v@.len());
            }
            let n = v.len();
            assert(i < n);
            let a = slice_vec(v, 0, i);
            let b = slice_vec(v, i + 1, v.len());
            assert(a@ =~= v@.take(i as int));
            assert(b@ =~= v@.skip(i + 1));
            Some((a, b))
        },
        None => None,
    }
}

/// `str::rsplit_once(c)` over a character run.
pub fn rsplit_once_vec(v: &[char], c: char) -> (r: Option<(Vec<char>, Vec<char>)>)
    ensures
        match r {
            Some((a, b)) => rsplit_once(v@, c) == Some((a@, b@)),
            None => rsplit_once(v@, c) == None::<(Seq<char>, Seq<char>)>,
        },
{
    match rfind_char_exec(v, c) {
        Some(i) => {
            proof {
                lemma_rfind_char_some(v@, c);
                assert(rfind_char(v@, c) == Some(i as int));
                assert(i < v@.len());
            }
            let n = v.len();
            assert(i < n);
            let a = slice_vec(v, 0, i);
            let b = slice_vec(v, i + 1, v.len());
            assert(a@ =~= v@.take(i as int));
            assert(b@ =~= v@.skip(i + 1));
            Some((a, b))
        },
        None => None,
    }
}

pub fn starts_with_vec(s: &[char], p: &[char]) -> (r: bool)
    ensures
        r == starts_with(s@, p@),
{
    if p.len() > s.len() {
        return false;
    }
    let mut i: usize = 0;
    while i < p.len()
        invariant
            p.len() <= s.len(),
            i <= p.len(),
            forall|j: int| 0 <= j < i ==> s@[j] == p@[j],
        decreases p.len() - i,
    {
        if s[i] != p[i] {
            assert(s@.take(p.len() as int)[i as int] != p@[i as int]);
            return false;
        }
        i = i + 1;
    }
    assert(s@.take(p.len() as int) =~= p@);
    true
}

pub fn ends_with_vec(s: &[char], p: &[char]) -> (r: bool)
    ensures
        r == ends_with(s@, p@),
{
    if p.len() > s.len() {
        return false;
    }
    let off = s.len() - p.len();
    let mut i: usize = 0;
    while i < p.len()
        invariant
            p.len() <= s.len(),
            off == s.len() - p.len(),
            i <= p.len(),
            forall|j: int| 0 <= j < i ==> s@[off + j] == p@[j],
        decreases p.len() - i,
    {
        if s[off + i] != p[i] {
            assert(s@.skip(off as int)[i as int] != p@[i as int]);
            return false;
        }
        i = i + 1;
    }
    assert(s@.skip(off as int) =~= p@);
    true
}

/// Whether `c` occurs in `v`.
pub fn contains_char(v: &[char], c: char) -> (r: bool)
    ensures
        r == v@.contains(c),
{
    let mut i: usize = 0;
    while i < v.len()
        invariant
            i <= v.len(),
            forall|j: int| 0 <= j < i ==> v@[j] != c,
        decreases v.len() - i,
    {
        if v[i] == c {
            return true;
        }
        i = i + 1;
    }
    false
}

/// `str::split(c)` over a character run.
pub fn split_vec(v: &[char], c: char) -> (r: Vec<Vec<char>>)
    ensures
        r@.len() == split_on(v@, c).len(),
        forall|i: int| 0 <= i < r@.len() ==> (#[trigger] r@[i])@ == split_on(v@, c)[i],
{
    let mut out: Vec<Vec<char>> = Vec::new();
    let mut start: usize = 0;
    let ghost mut done: Seq<Seq<char>> = seq![];
    assert(v@.skip(0) =~= v@);
    assert(done + split_on(v@, c) =~= split_on(v@, c));
    loop
        invariant
            start <= v.len(),
            out@.len() == done.len(),
            forall|i: int| 0 <= i < out@.len() ==> (#[trigger] out@[i])@ == done[i],
            done + split_on(v@.skip(start as int), c) == split_on(v@, c),
        decreases v.len() - start,
    {
        let rest = slice_vec(v, start, v.len());
        assert(rest@ =~= v@.skip(start as int));
        match find_char_exec(&rest, c) {
            Some(i) => {
                proof {
                    lemma_find_char_some(rest@, c);
                }
                let piece = slice_vec(&rest, 0, i);
                proof {
                    assert(piece@ =~= rest@.take(i as int));
                    assert(rest@.skip(i + 1) =~= v@.skip(start + i + 1));
                    done = done.push(piece@);
                    assert(seq![rest@.take(i as int)] + split_on(rest@.skip(i + 1), c)
                        == split_on(rest@, c));
                    assert(done + split_on(v@.skip(start + i + 1), c) =~= (done.drop_last()
                        + split_on(v@.skip(start as int), c)));
                }
                out.push(piece);
                start = start + i + 1;
            },
            None => {
                proof {
                    done = done.push(rest@);
                    assert(done =~= split_on(v@, c));
                }
                out.push(rest);
                return out;
            },
        }
    }
}

/// `str::lines` over a character run.
pub fn lines_vec(v: &[char]) -> (r: Vec<Vec<char>>)
    ensures
        r@.len() == lines(v@).len(),
        forall|i: int| 0 <= i < r@.len() ==> (#[trigger] r@[i])@ == lines(v@)[i],
{
    let mut out: Vec<Vec<char>> = Vec::new();
    let mut start: usize = 0;
    let ghost mut done: Seq<Seq<char>> = seq![];
    assert(v@.skip(0) =~= v@);
    
    assert(done + lines(v@) =~= lines(v@));
    loop
        invariant
            start <= v.len(),
            out@.len() == done.len(),
            forall|i: int| 0 <= i < out@.len() ==> (#[trigger] out@[i])@ == done[i],
            done + lines(v@.skip(start as int)) == lines(v@),
        decreases v.len() - start,
    {
        let rest = slice_vec(v, start, v.len());
        assert(rest@ =~= v@.skip(start as int));
        if rest.len() == 0 {
            assert(done =~= lines(v@));
            return out;
        }
        let line_end: usize;
        let next: usize;
        match find_char_exec(&rest, '\n') {
            Some(i) => {
                proof {
                    lemma_find_char_some(rest@, '\n');
                }
                line_end = i;
                next = start + i + 1;
            },
            None => {
                line_end = rest.len();
                next = v.len();
            },
        }
        let mut piece = slice_vec(&rest, 0, line_end);
        if piece.len() > 0 && piece[piece.len() - 1] == '\r' {
            piece.pop();
        }
        proof {
            assert(piece@ =~= strip_cr(rest@.take(line_end as int)));
            if next < v.len() || find_char(rest@, '\n').is_some() {
                assert(rest@.skip(line_end + 1) =~= v@.skip(next as int));
            }
            if find_char(rest@, '\n').is_none() {
                assert(rest@.take(line_end as int) =~= rest@);
                assert(v@.skip(v.len() as int) =~= Seq::<char>::empty());
                assert(lines(v@.skip(v.len() as int)) =~= Seq::<Seq<char>>::empty());
            }
            done = done.push(piece@);
            assert(done + lines(v@.skip(next as int)) =~= (done.drop_last() + lines(
                v@.skip(start as int),
            )));
        }
        out.push(piece);
        start = next;
    }
}

/// The value of a non-empty run of digits, if it fits a `u64`.
pub fn digits_to_u64(v: &[char]) -> (r: Option<u64>)
    requires
        all_digits(v@),
    ensures
        match r {
            Some(n) => n == digits_value(v@),
            None => digits_value(v@) > u64::MAX,
        },
{
    let mut acc: u64 = 0;
    let mut i: usize = 0;
    while i < v.len()
        invariant
            i <= v.len(),
            all_digits(v@),
            acc == digits_value(v@.take(i as int)),
        decreases v.len() - i,
    {
        let d = (v[i] as u32 - '0' as u32) as u64;
        proof {
            assert(is_digit(v@[i as int]));
            lemma_digits_value_push(v@.take(i as int), v@[i as int]);
            assert(v@.take(i as int).push(v@[i as int]) =~= v@.take(i + 1));
        }
        if acc > (u64::MAX - d) / 10 {
            proof {
                lemma_digits_prefix_monotone(v@, i + 1);
            }
            return None;
        }
        acc = acc * 10 + d;
        i = i + 1;
    }
    assert(v@.take(v.len() as int) =~= v@);
    Some(acc)
}

/// A longer digit prefix is never worth less.
pub proof fn lemma_digits_prefix_monotone(s: Seq<char>, k: int)
    requires
        0 <= k <= s.len(),
    ensures
        digits_value(s.take(k)) <= digits_value(s),
    decreases s.len() - k,
{
    if k < s.len() {
        lemma_digits_prefix_monotone(s.drop_last(), k);
        assert(s.drop_last().take(k) =~= s.take(k));
        if s.len() > 0 {
            assert(digits_value(s) >= digits_value(s.drop_last()) * 10);
        }
    } else {
        assert(s.take(k) =~= s);
    }
}

pub fn is_digit_exec(c: char) -> (r: bool)
    ensures
        r == is_digit(c),
{
    '0' <= c && c <= '9'
}

pub fn all_digits_exec(v: &[char]) -> (r: bool)
    ensures
        r == all_digits(v@),
{
    let mut i: usize = 0;
    while i < v.len()
        invariant
            i <= v.len(),
            forall|j: int| 0 <= j < i ==> is_digit(#[trigger] v@[j]),
        decreases v.len() - i,
    {
        if !is_digit_exec(v[i]) {
            return false;
        }
        i = i + 1;
    }
    true
}

/// `u64::from_str` over a character run.
pub fn parse_u64_vec(v: &[char]) -> (r: Option<u64>)
    ensures
        r == parse_u64_spec(v@),
{
    let body = if v.len() > 0 && v[0] == '+' { slice_vec(v, 1, v.len()) } else { slice_vec(v, 0, v.len()) };
    assert(body@ =~= (if v@.len() > 0 && v@[0] == '+' { v@.drop_first() } else { v@ }));
    if body.len() == 0 || !all_digits_exec(&body) {
        return None;
    }
    digits_to_u64(&body)
}

/// `u64::from_str`.
pub fn parse_u64(s: &str) -> (r: Option<u64>)
    ensures
        r == parse_u64_spec(s@),
{
    let v = chars_of(s);
    parse_u64_vec(&v)
}

/// `i64::from_str` over a character run.
pub fn parse_i64_vec(v: &[char]) -> (r: Option<i64>)
    ensures
        r == parse_i64_spec(v@),
{
    let neg = v.len() > 0 && v[0] == '-';
    let body = if v.len() > 0 && (v[0] == '+' || v[0] == '-') {
        slice_vec(v, 1, v.len())
    } else {
        slice_vec(v, 0, v.len())
    };
    assert(body@ =~= (if v@.len() > 0 && (v@[0] == '+' || v@[0] == '-') {
        v@.drop_first()
    } else {
        v@
    }));
    if body.len() == 0 || !all_digits_exec(&body) {
        return None;
    }
    match digits_to_u64(&body) {
        None => None,
        Some(n) => {
            if neg {
                if n <= 9223372036854775808u64 {
                    if n == 9223372036854775808u64 {
                        Some(i64::MIN)
                    } else {
                        Some(-(n as i64))
                    }
                } else {
                    None
                }
            } else {
                if n <= 9223372036854775807u64 {
                    Some(n as i64)
                } else {
                    None
                }
            }
        },
    }
}

/// `i32::from_str` over a character run.
pub fn parse_i32_vec(v: &[char]) -> (r: Option<i32>)
    ensures
        r == parse_i32_spec(v@),
{
    match parse_i64_vec(v) {
        Some(n) => if -2147483648 <= n && n <= 2147483647 { Some(n as i32) } else { None },
        None => None,
    }
}

/// `u32::from_str` over a character run.
pub fn parse_u32_vec(v: &[char]) -> (r: Option<u32>)
    ensures
        r == parse_u32_spec(v@),
{
    match parse_u64_vec(v) {
        Some(n) => if n <= 4294967295 { Some(n as u32) } else { None },
        None => None,
    }
}

/// `n.to_string()` as characters.
pub fn dec_vec(n: u64) -> (r: Vec<char>)
    ensures
        r@ == dec(n as nat),
    decreases n,
{
    if n < 10 {
        let c = ((n as u8) + 48) as char;
        let mut r: Vec<char> = Vec::new();
        r.push(c);
        assert(r@ =~= seq![digit_char(n as nat)]);
        r
    } else {
        let mut r = dec_vec(n / 10);
        let c = (((n % 10) as u8) + 48) as char;
        r.push(c);
        r
    }
}

/// `n.to_string()`.
pub fn u64_to_string(n: u64) -> (r: String)
    ensures
        r@ == dec(n as nat),
{
    let v = dec_vec(n);
    string_of(&v)
}

/// Signed `n.to_string()`.
pub fn i64_to_string(n: i64) -> (r: String)
    ensures
        r@ == dec_int(n as int),
{
    if n < 0 {
        let m: u64 = if n == i64::MIN { 9223372036854775808u64 } else { (-n) as u64 };
        let mut s = String::new();
        push_char(&mut s, '-');
        let d = dec_vec(m);
        push_chars(&mut s, &d);
        assert(s@ =~= seq!['-'] + dec((-n) as nat));
        s
    } else {
        u64_to_string(n as u64)
    }
}

/// `format!("{n:0w$}")` as characters.
pub fn dec_pad_vec(n: u64, width: usize) -> (r: Vec<char>)
    ensures
        r@ == dec_pad(n as nat, width as nat),
{
    let d = dec_vec(n);
    if d.len() >= width {
        return d;
    }
    let mut r: Vec<char> = Vec::new();
    let pad = width - d.len();
    let mut i: usize = 0;
    while i < pad
        invariant
            i <= pad,
            r@ == Seq::new(i as nat, |k: int| '0'),
        decreases pad - i,
    {
        r.push('0');
        i = i + 1;
        assert(r@ =~= Seq::new(i as nat, |k: int| '0'));
    }
    let mut j: usize = 0;
    let ghost r0 = r@;
    while j < d.len()
        invariant
            j <= d.len(),
            r@ == r0 + d@.take(j as int),
        decreases d.len() - j,
    {
        r.push(d[j]);
        j = j + 1;
        assert(r@ =~= r0 + d@.take(j as int));
    }
    assert(d@.take(d.len() as int) =~= d@);
    r
}

} // verus!
