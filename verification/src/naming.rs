//! Names derived from downloads: a mod's name and Nexus id guessed from an
//! archive file name, and a folder name made safe for any file system.

use vstd::prelude::*;

use crate::text::{
    all_digits, all_digits_exec, chars_of, digits_to_u64, digits_value, is_alpha, is_control,
    is_control_exec, is_digit, is_ws, is_ws_exec, lemma_rfind_char_some, rfind_char,
    rfind_char_exec, slice_vec, split_on, split_vec, string_of, trim, trim_vec,
};

verus! {

/// The last path component that is neither empty nor `.`.
pub open spec fn last_part(p: Seq<char>) -> Option<Seq<char>>
    decreases p.len(),
{
    match rfind_char(p, '/') {
        Some(i) => {
            if 0 <= i < p.len() {
                let tail = p.skip(i + 1);
                if tail.len() > 0 && tail != seq!['.'] {
                    Some(tail)
                } else {
                    last_part(p.take(i))
                }
            } else {
                None
            }
        },
        None => if p.len() > 0 && p != seq!['.'] {
            Some(p)
        } else {
            None
        },
    }
}

/// `Path::file_name` on a `/`-separated path: the final component, unless it
/// is `..` or there is none.
pub open spec fn file_name(p: Seq<char>) -> Option<Seq<char>> {
    match last_part(p) {
        Some(c) => if c == seq!['.', '.'] { None } else { Some(c) },
        None => None,
    }
}

/// `Path::file_stem` of a file name: the part before the final `.`, or the
/// whole name when it has no `.` past its first character.
pub open spec fn stem_of_name(n: Seq<char>) -> Seq<char> {
    match rfind_char(n, '.') {
        Some(i) => if i == 0 { n } else { n.take(i) },
        None => n,
    }
}

/// The stem an archive's name is guessed from; `Mod` when the path has no
/// file name.
pub open spec fn archive_stem(p: Seq<char>) -> Seq<char> {
    match file_name(p) {
        Some(n) => stem_of_name(n),
        None => "Mod"@,
    }
}

fn file_name_exec(p: &[char]) -> (r: Option<Vec<char>>)
    ensures
        match r {
            Some(v) => file_name(p@) == Some(v@),
            None => file_name(p@) is None,
        },
{
    let mut j: usize = p.len();
    assert(p@.take(j as int) =~= p@);
    loop
        invariant
            j <= p@.len(),
            last_part(p@) == last_part(p@.take(j as int)),
        decreases j,
    {
        let head = slice_vec(p, 0, j);
        assert(head@ =~= p@.take(j as int));
        match rfind_char_exec(&head, '/') {
            Some(i) => {
                proof {
                    lemma_rfind_char_some(head@, '/');
                }
                let tail = slice_vec(&head, i + 1, j);
                assert(tail@ =~= head@.skip(i + 1));
                let is_dot = tail.len() == 1 && tail[0] == '.';
                assert(is_dot == (tail@ == seq!['.'])) by {
                    if tail@.len() == 1 {
                        assert(tail@ =~= seq![tail@[0]]);
                    }
                }
                if tail.len() > 0 && !is_dot {
                    return finish_file_name(tail);
                }
                assert(head@.take(i as int) =~= p@.take(i as int));
                j = i;
            },
            None => {
                let is_dot = head.len() == 1 && head[0] == '.';
                assert(is_dot == (head@ == seq!['.'])) by {
                    if head@.len() == 1 {
                        assert(head@ =~= seq![head@[0]]);
                    }
                }
                if head.len() > 0 && !is_dot {
                    return finish_file_name(head);
                }
                return None;
            },
        }
    }
}

fn finish_file_name(c: Vec<char>) -> (r: Option<Vec<char>>)
    ensures
        match r {
            Some(v) => (if c@ == seq!['.', '.'] { None } else { Some(c@) }) == Some(v@),
            None => c@ == seq!['.', '.'],
        },
{
    let dd = c.len() == 2 && c[0] == '.' && c[1] == '.';
    assert(dd == (c@ == seq!['.', '.'])) by {
        if c@.len() == 2 {
            assert(c@ =~= seq![c@[0], c@[1]]);
        }
    }
    if dd {
        None
    } else {
        Some(c)
    }
}

fn archive_stem_exec(p: &[char]) -> (r: Vec<char>)
    ensures
        r@ == archive_stem(p@),
{
    match file_name_exec(p) {
        Some(n) => match rfind_char_exec(&n, '.') {
            Some(i) => {
                proof {
                    lemma_rfind_char_some(n@, '.');
                }
                if i == 0 {
                    n
                } else {
                    let r = slice_vec(&n, 0, i);
                    assert(r@ =~= n@.take(i as int));
                    r
                }
            },
            None => n,
        },
        None => chars_of("Mod"),
    }
}

/// The number of leading ASCII digits.
pub open spec fn lead_digits(s: Seq<char>) -> nat
    decreases s.len(),
{
    if s.len() > 0 && is_digit(s[0]) {
        1 + lead_digits(s.drop_first())
    } else {
        0
    }
}

/// A name group that looks like a Nexus version, id or timestamp: after
/// trimming, digits followed by nothing or by at most three ASCII letters.
pub open spec fn version_like(s: Seq<char>) -> bool {
    let t = trim(s);
    let d = lead_digits(t);
    let tail = t.skip(d as int);
    d > 0 && (tail.len() == 0 || (tail.len() <= 3 && forall|i: int| 0 <= i < tail.len() ==> is_alpha(#[trigger] tail[i])))
}

proof fn lemma_lead_digits(s: Seq<char>)
    ensures
        lead_digits(s) <= s.len(),
        forall|i: int| 0 <= i < lead_digits(s) ==> is_digit(#[trigger] s[i]),
        lead_digits(s) < s.len() ==> !is_digit(s[lead_digits(s) as int]),
    decreases s.len(),
{
    if s.len() > 0 && is_digit(s[0]) {
        lemma_lead_digits(s.drop_first());
        assert forall|i: int| 0 <= i < lead_digits(s) implies is_digit(#[trigger] s[i]) by {
            if i > 0 {
                assert(s[i] == s.drop_first()[i - 1]);
            }
        }
    }
}

proof fn lemma_lead_digits_at(s: Seq<char>, k: int)
    requires
        0 <= k <= s.len(),
        forall|i: int| 0 <= i < k ==> is_digit(#[trigger] s[i]),
        k < s.len() ==> !is_digit(s[k]),
    ensures
        lead_digits(s) == k,
    decreases k,
{
    if k > 0 {
        assert forall|i: int| 0 <= i < k - 1 implies is_digit(#[trigger] s.drop_first()[i]) by {
            assert(s.drop_first()[i] == s[i + 1]);
        }
        lemma_lead_digits_at(s.drop_first(), k - 1);
    }
}

fn version_like_exec(s: &[char]) -> (b: bool)
    ensures
        b == version_like(s@),
{
    let t = trim_vec(s);
    let mut d: usize = 0;
    while d < t.len() && is_digit_char(t[d])
        invariant
            d <= t@.len(),
            forall|i: int| 0 <= i < d ==> is_digit(#[trigger] t@[i]),
        decreases t.len() - d,
    {
        d = d + 1;
    }
    proof {
        lemma_lead_digits_at(t@, d as int);
    }
    if d == 0 {
        return false;
    }
    let n = t.len();
    let tail = slice_vec(&t, d, n);
    assert(tail@ =~= t@.skip(d as int));
    if tail.len() == 0 {
        return true;
    }
    if tail.len() > 3 {
        return false;
    }
    let mut k: usize = 0;
    while k < tail.len()
        invariant
            k <= tail@.len(),
            0 < d,
            t@ == trim(s@),
            lead_digits(t@) == d,
            tail@ == t@.skip(d as int),
            0 < tail@.len() <= 3,
            forall|i: int| 0 <= i < k ==> is_alpha(#[trigger] tail@[i]),
        decreases tail.len() - k,
    {
        let c = tail[k];
        if !(('a' <= c && c <= 'z') || ('A' <= c && c <= 'Z')) {
            assert(!is_alpha(tail@[k as int]));
            return false;
        }
        k = k + 1;
    }
    true
}

fn is_digit_char(c: char) -> (b: bool)
    ensures
        b == is_digit(c),
{
    '0' <= c && c <= '9'
}

/// How many leading name groups stay in the name: trailing version-like
/// groups are stripped while more than one group is left.
pub open spec fn keep_len(parts: Seq<Seq<char>>) -> nat
    decreases parts.len(),
{
    if parts.len() > 1 && version_like(parts.last()) {
        keep_len(parts.drop_last())
    } else {
        parts.len()
    }
}

/// A group read as a Nexus mod id: at least two digits after trimming.
pub open spec fn id_of(p: Seq<char>) -> Option<u64> {
    let t = trim(p);
    if t.len() >= 2 && all_digits(t) && digits_value(t) <= u64::MAX {
        Some(digits_value(t) as u64)
    } else {
        None
    }
}

/// The first group, from the left, that reads as a mod id.
pub open spec fn first_id(s: Seq<Seq<char>>) -> Option<u64>
    decreases s.len(),
{
    if s.len() == 0 {
        None
    } else {
        match id_of(s[0]) {
            Some(v) => Some(v),
            None => first_id(s.drop_first()),
        }
    }
}

/// The groups joined with `-`.
pub open spec fn join_dash(s: Seq<Seq<char>>) -> Seq<char>
    decreases s.len(),
{
    if s.len() == 0 {
        Seq::empty()
    } else if s.len() == 1 {
        s[0]
    } else {
        join_dash(s.drop_last()) + seq!['-'] + s.last()
    }
}

/// `s` without trailing `c`s.
pub open spec fn strip_trail(s: Seq<char>, c: char) -> Seq<char>
    decreases s.len(),
{
    if s.len() > 0 && s.last() == c {
        strip_trail(s.drop_last(), c)
    } else {
        s
    }
}

/// The guessed mod name and Nexus mod id of an archive path: the file stem is
/// split on `-`, the trailing version-like groups are dropped from the name,
/// and the first of those groups that is a number of two or more digits is the
/// id. A name that comes out empty is the whole stem.
pub open spec fn guess_spec(archive: Seq<char>) -> (Seq<char>, Option<u64>) {
    let stem = archive_stem(archive);
    let parts = split_on(stem, '-');
    let k = keep_len(parts);
    let name = trim(strip_trail(trim(join_dash(parts.take(k as int))), '-'));
    (if name.len() == 0 { stem } else { name }, first_id(parts.skip(k as int)))
}

fn strip_trail_exec(v: &[char], c: char) -> (r: Vec<char>)
    ensures
        r@ == strip_trail(v@, c),
{
    let mut j: usize = v.len();
    assert(v@.take(j as int) =~= v@);
    while j > 0 && v[j - 1] == c
        invariant
            j <= v.len(),
            strip_trail(v@, c) == strip_trail(v@.take(j as int), c),
        decreases j,
    {
        assert(v@.take(j as int).drop_last() =~= v@.take(j - 1));
        j = j - 1;
    }
    let r = slice_vec(v, 0, j);
    assert(r@ =~= v@.take(j as int));
    r
}

fn id_exec(p: &[char]) -> (r: Option<u64>)
    ensures
        r == id_of(p@),
{
    let t = trim_vec(p);
    if t.len() >= 2 && all_digits_exec(&t) {
        digits_to_u64(&t)
    } else {
        None
    }
}

/// Guess a clean mod name and the Nexus mod id from a (possibly
/// Nexus-suffixed) archive file name:
/// `Foo - Bar-19181-1-7-1575746557.7z` gives `("Foo - Bar", Some(19181))`.
pub fn guess_mod_name_and_id(archive: &str) -> (r: (String, Option<u64>))
    ensures
        (r.0@, r.1) == guess_spec(archive@),
{
    let a = chars_of(archive);
    let stem = archive_stem_exec(&a);
    let parts = split_vec(&stem, '-');
    let ghost ps = split_on(stem@, '-');
    assert(parts@.map_values(|p: Vec<char>| p@) =~= ps);
    let mut k: usize = parts.len();
    assert(ps.take(k as int) =~= ps);
    while k > 1 && version_like_exec(&parts[k - 1])
        invariant
            k <= parts@.len(),
            parts@.len() == ps.len(),
            forall|i: int| 0 <= i < parts@.len() ==> (#[trigger] parts@[i])@ == ps[i],
            keep_len(ps) == keep_len(ps.take(k as int)),
        decreases k,
    {
        assert(ps.take(k as int).drop_last() =~= ps.take(k - 1));
        assert(ps.take(k as int).last() == ps[k - 1]);
        k = k - 1;
    }
    proof {
        if k > 1 {
            assert(ps.take(k as int).last() == ps[k - 1]);
        }
    }
    let mut id: Option<u64> = None;
    let mut j: usize = k;
    while j < parts.len() && id.is_none()
        invariant
            k <= j <= parts@.len(),
            parts@.len() == ps.len(),
            forall|i: int| 0 <= i < parts@.len() ==> (#[trigger] parts@[i])@ == ps[i],
            id.is_none() ==> first_id(ps.skip(k as int)) == first_id(ps.skip(j as int)),
            id.is_some() ==> id == first_id(ps.skip(k as int)),
        decreases parts.len() - j,
    {
        let v = id_exec(&parts[j]);
        assert(ps.skip(j as int)[0] == ps[j as int]);
        assert(ps.skip(j as int).drop_first() =~= ps.skip(j + 1));
        id = v;
        j = j + 1;
    }
    proof {
        if id.is_none() {
            assert(ps.skip(j as int).len() == 0);
        }
    }
    let mut joined: Vec<char> = Vec::new();
    let mut i: usize = 0;
    while i < k
        invariant
            i <= k <= parts@.len(),
            parts@.len() == ps.len(),
            forall|x: int| 0 <= x < parts@.len() ==> (#[trigger] parts@[x])@ == ps[x],
            joined@ == join_dash(ps.take(i as int)),
        decreases k - i,
    {
        assert(ps.take(i + 1).drop_last() =~= ps.take(i as int));
        if i > 0 {
            joined.push('-');
        }
        let mut piece = parts[i].clone();
        joined.append(&mut piece);
        proof {
            if i == 0 {
                assert(joined@ =~= ps.take(1)[0]);
            }
        }
        i = i + 1;
    }
    let t1 = trim_vec(&joined);
    let t2 = strip_trail_exec(&t1, '-');
    let name = trim_vec(&t2);
    let name = if name.len() == 0 { stem } else { name };
    (string_of(&name), id)
}

/// Just the guessed mod name.
pub fn guess_mod_name(archive: &str) -> (r: String)
    ensures
        r@ == guess_spec(archive@).0,
{
    guess_mod_name_and_id(archive).0
}


/// Characters a folder name may not hold: the Windows-illegal set and the
/// control characters.
pub open spec fn bad_dir_char(c: char) -> bool {
    c == '<' || c == '>' || c == ':' || c == '"' || c == '/' || c == '\\' || c == '|' || c == '?'
        || c == '*' || is_control(c)
}

/// `s` without its illegal characters.
pub open spec fn drop_bad(s: Seq<char>) -> Seq<char>
    decreases s.len(),
{
    if s.len() == 0 {
        Seq::empty()
    } else {
        let p = drop_bad(s.drop_last());
        if bad_dir_char(s.last()) { p } else { p.push(s.last()) }
    }
}

/// `s` with each run of whitespace replaced by one space.
pub open spec fn squeeze(s: Seq<char>) -> Seq<char>
    decreases s.len(),
{
    if s.len() == 0 {
        Seq::empty()
    } else {
        let p = squeeze(s.drop_last());
        let c = s.last();
        if is_ws(c) {
            if p.len() > 0 && p.last() == ' ' { p } else { p.push(' ') }
        } else {
            p.push(c)
        }
    }
}

/// `s` without trailing dots and spaces.
pub open spec fn strip_dots(s: Seq<char>) -> Seq<char>
    decreases s.len(),
{
    if s.len() > 0 && (s.last() == '.' || s.last() == ' ') {
        strip_dots(s.drop_last())
    } else {
        s
    }
}

/// The cleaned folder name: illegal characters dropped, whitespace runs
/// collapsed to single spaces, trailing dots and spaces stripped, trimmed.
pub open spec fn clean_dir_name(name: Seq<char>) -> Seq<char> {
    trim(strip_dots(trim(squeeze(drop_bad(name)))))
}

fn strip_dots_exec(v: &[char]) -> (r: Vec<char>)
    ensures
        r@ == strip_dots(v@),
{
    let mut j: usize = v.len();
    assert(v@.take(j as int) =~= v@);
    while j > 0 && (v[j - 1] == '.' || v[j - 1] == ' ')
        invariant
            j <= v.len(),
            strip_dots(v@) == strip_dots(v@.take(j as int)),
        decreases j,
    {
        assert(v@.take(j as int).drop_last() =~= v@.take(j - 1));
        j = j - 1;
    }
    let r = slice_vec(v, 0, j);
    assert(r@ =~= v@.take(j as int));
    r
}

/// Make a mod folder name safe for the file system: drop `<>:"/\|?*` and
/// control characters, collapse internal whitespace, strip trailing dots and
/// spaces. `None` if nothing usable remains. What it gives is clean (see
/// [`clean_shape`]) and comes back unchanged when cleaned again.
pub fn fix_directory_name(name: &str) -> (r: Option<String>)
    ensures
        match r {
            Some(s) => s@ == clean_dir_name(name@) && s@.len() > 0,
            None => clean_dir_name(name@).len() == 0,
        },
        r matches Some(s) ==> clean_shape(s@) && clean_dir_name(s@) == s@,
{
    proof {
        lemma_clean_dir_name(name@);
    }
    let v = chars_of(name);
    let mut cleaned: Vec<char> = Vec::new();
    let mut sq: Vec<char> = Vec::new();
    let mut i: usize = 0;
    while i < v.len()
        invariant
            i <= v@.len(),
            cleaned@ == drop_bad(v@.take(i as int)),
            sq@ == squeeze(cleaned@),
        decreases v.len() - i,
    {
        let c = v[i];
        assert(v@.take(i + 1).drop_last() =~= v@.take(i as int));
        let bad = c == '<' || c == '>' || c == ':' || c == '"' || c == '/' || c == '\\' || c == '|'
            || c == '?' || c == '*' || is_control_exec(c);
        if !bad {
            let ghost before = cleaned@;
            cleaned.push(c);
            assert(cleaned@.drop_last() =~= before);
            if is_ws_exec(c) {
                if !(sq.len() > 0 && sq[sq.len() - 1] == ' ') {
                    sq.push(' ');
                }
            } else {
                sq.push(c);
            }
        }
        i = i + 1;
    }
    assert(v@.take(v@.len() as int) =~= v@);
    let collapsed = trim_vec(&sq);
    let stripped = strip_dots_exec(&collapsed);
    let out = trim_vec(&stripped);
    if out.len() == 0 {
        None
    } else {
        Some(string_of(&out))
    }
}

/// A folder name as the cleaner leaves it: no illegal character, spaces as
/// its only whitespace and never two in a row, no space at either end and no
/// dot at the end.
pub open spec fn clean_shape(r: Seq<char>) -> bool {
    &&& forall|j: int| 0 <= j < r.len() ==> !bad_dir_char(#[trigger] r[j]) && (is_ws(r[j]) ==> r[j] == ' ')
    &&& forall|j: int| 0 <= j < r.len() - 1 ==> !(#[trigger] r[j] == ' ' && r[j + 1] == ' ')
    &&& r.len() > 0 ==> r[0] != ' ' && r.last() != ' ' && r.last() != '.'
}

/// The inner properties: no illegal character, spaces the only whitespace,
/// never two spaces in a row.
spec fn inner_clean(r: Seq<char>) -> bool {
    &&& forall|j: int| 0 <= j < r.len() ==> !bad_dir_char(#[trigger] r[j]) && (is_ws(r[j]) ==> r[j] == ' ')
    &&& forall|j: int| 0 <= j < r.len() - 1 ==> !(#[trigger] r[j] == ' ' && r[j + 1] == ' ')
}

proof fn lemma_drop_bad_clean(s: Seq<char>)
    ensures
        forall|j: int| 0 <= j < drop_bad(s).len() ==> !bad_dir_char(#[trigger] drop_bad(s)[j]),
    decreases s.len(),
{
    if s.len() > 0 {
        lemma_drop_bad_clean(s.drop_last());
        let p = drop_bad(s.drop_last());
        if !bad_dir_char(s.last()) {
            assert forall|j: int| 0 <= j < p.push(s.last()).len() implies !bad_dir_char(#[trigger] p.push(s.last())[j]) by {
                if j < p.len() {
                    assert(p.push(s.last())[j] == p[j]);
                }
            }
        }
    }
}

proof fn lemma_squeeze_clean(s: Seq<char>)
    requires
        forall|j: int| 0 <= j < s.len() ==> !bad_dir_char(#[trigger] s[j]),
    ensures
        inner_clean(squeeze(s)),
    decreases s.len(),
{
    if s.len() > 0 {
        let q = s.drop_last();
        assert forall|j: int| 0 <= j < q.len() implies !bad_dir_char(#[trigger] q[j]) by {
            assert(q[j] == s[j]);
        }
        lemma_squeeze_clean(q);
        let p = squeeze(q);
        let c = s.last();
        assert(!bad_dir_char(s[s.len() - 1]));
        let r = squeeze(s);
        if r != p {
            let x = if is_ws(c) { ' ' } else { c };
            assert(r == p.push(x));
            assert forall|j: int| 0 <= j < r.len() implies !bad_dir_char(#[trigger] r[j]) && (is_ws(r[j]) ==> r[j] == ' ') by {
                if j < p.len() {
                    assert(r[j] == p[j]);
                }
            }
            assert forall|j: int| 0 <= j < r.len() - 1 implies !(#[trigger] r[j] == ' ' && r[j + 1] == ' ') by {
                if j < p.len() - 1 {
                    assert(r[j] == p[j] && r[j + 1] == p[j + 1]);
                } else {
                    assert(r[j] == p.last());
                }
            }
        }
    }
}

proof fn lemma_piece_clean(s: Seq<char>, r: Seq<char>, off: int)
    requires
        inner_clean(s),
        0 <= off,
        off + r.len() <= s.len(),
        forall|j: int| 0 <= j < r.len() ==> #[trigger] r[j] == s[j + off],
    ensures
        inner_clean(r),
{
    assert forall|j: int| 0 <= j < r.len() implies !bad_dir_char(#[trigger] r[j]) && (is_ws(r[j]) ==> r[j] == ' ') by {
        assert(r[j] == s[j + off]);
    }
    assert forall|j: int| 0 <= j < r.len() - 1 implies !(#[trigger] r[j] == ' ' && r[j + 1] == ' ') by {
        assert(r[j] == s[j + off] && r[j + 1] == s[j + 1 + off]);
    }
}

proof fn lemma_strip_dots_prefix(s: Seq<char>)
    ensures
        strip_dots(s).len() <= s.len(),
        strip_dots(s) == s.take(strip_dots(s).len() as int),
        strip_dots(s).len() > 0 ==> strip_dots(s).last() != '.' && strip_dots(s).last() != ' ',
    decreases s.len(),
{
    if s.len() > 0 && (s.last() == '.' || s.last() == ' ') {
        lemma_strip_dots_prefix(s.drop_last());
        let r = strip_dots(s.drop_last());
        assert(s.drop_last().take(r.len() as int) =~= s.take(r.len() as int));
    } else {
        assert(s.take(s.len() as int) =~= s);
    }
}

proof fn lemma_strip_dots_fixed(s: Seq<char>)
    requires
        s.len() > 0 ==> s.last() != '.' && s.last() != ' ',
    ensures
        strip_dots(s) == s,
{
}

proof fn lemma_drop_bad_fixed(s: Seq<char>)
    requires
        forall|j: int| 0 <= j < s.len() ==> !bad_dir_char(#[trigger] s[j]),
    ensures
        drop_bad(s) == s,
    decreases s.len(),
{
    if s.len() > 0 {
        let q = s.drop_last();
        assert forall|j: int| 0 <= j < q.len() implies !bad_dir_char(#[trigger] q[j]) by {
            assert(q[j] == s[j]);
        }
        lemma_drop_bad_fixed(q);
        assert(!bad_dir_char(s[s.len() - 1]));
        assert(q.push(s.last()) =~= s);
    }
}

proof fn lemma_squeeze_fixed(s: Seq<char>)
    requires
        inner_clean(s),
    ensures
        squeeze(s) == s,
    decreases s.len(),
{
    if s.len() > 0 {
        let q = s.drop_last();
        lemma_piece_clean(s, q, 0);
        lemma_squeeze_fixed(q);
        let c = s.last();
        assert(c == s[s.len() - 1]);
        if is_ws(c) && q.len() > 0 {
            assert(q.last() == s[s.len() - 2]);
        }
        assert(q.push(c) =~= s);
    }
}

/// What [`fix_directory_name`] gives is a clean folder name, and cleaning it
/// again changes nothing.
pub proof fn lemma_clean_dir_name(name: Seq<char>)
    ensures
        clean_shape(clean_dir_name(name)),
        clean_dir_name(clean_dir_name(name)) == clean_dir_name(name),
{
    let a = drop_bad(name);
    lemma_drop_bad_clean(name);
    let b = squeeze(a);
    lemma_squeeze_clean(a);
    let c = trim(b);
    crate::text::lemma_trim_idem(b);
    lemma_piece_clean(b, c, b.len() - crate::text::trim_start(b).len());
    let d = strip_dots(c);
    lemma_strip_dots_prefix(c);
    lemma_piece_clean(c, d, 0);
    if d.len() > 0 {
        assert(d[0] == c[0]);
        assert(!is_ws(d.last())) by {
            assert(d.last() == d[d.len() - 1]);
        }
        crate::text::lemma_trim_fixed(d);
    } else {
        assert(crate::text::trim_start(d) =~= d);
        assert(trim(d) =~= d);
    }
    let r = trim(d);
    assert(r == d);
    assert(clean_shape(r));
    lemma_drop_bad_fixed(r);
    lemma_squeeze_fixed(r);
    if r.len() > 0 {
        crate::text::lemma_trim_fixed(r);
    } else {
        assert(crate::text::trim_start(r) =~= r);
        assert(trim(r) =~= r);
    }
    lemma_strip_dots_fixed(r);
}

} // verus!
