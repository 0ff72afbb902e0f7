//! The INI line grammar the metadata and profile files share: `[section]`
//! headers, `key=value` lines whose value is kept raw, and line segments that
//! keep their terminators so untouched text can be reproduced exactly.

use vstd::prelude::*;

use crate::text::{
    find_char, find_char_exec, is_ws, lemma_find_char_at, lemma_find_char_some, lemma_trim_end_is_prefix,
    lemma_trim_fixed, lines, strip_cr, slice_vec, split_once, split_once_vec, trim, trim_end, trim_start, trim_vec,
};

verus! {

/// The section name of a `[name]` header line (trimmed inside and out).
pub open spec fn section_header(line: Seq<char>) -> Option<Seq<char>> {
    let t = trim(line);
    if t.len() >= 2 && t[0] == '[' && t.last() == ']' {
        Some(trim(t.subrange(1, t.len() - 1)))
    } else {
        None
    }
}

/// A `key=value` line: the trimmed key before the first `=` and the raw
/// value after it. Comment lines (`;` or `#`), lines without `=` and an empty
/// key give `None`.
pub open spec fn key_value(line: Seq<char>) -> Option<(Seq<char>, Seq<char>)> {
    let t = trim_start(line);
    if t.len() > 0 && (t[0] == ';' || t[0] == '#') {
        None
    } else {
        match split_once(line, '=') {
            Some((k, v)) => if trim(k).len() > 0 { Some((trim(k), v)) } else { None },
            None => None,
        }
    }
}

/// Whether a text uses CRLF line endings: it holds a `\r\n`.
pub open spec fn is_crlf(text: Seq<char>) -> bool {
    exists|i: int| 0 <= i < text.len() - 1 && text[i] == '\r' && #[trigger] text[i + 1] == '\n'
}

/// The length of the first segment of `t`: through its first `\n`, or all of
/// it.
pub open spec fn seg_len(t: Seq<char>) -> int {
    match find_char(t, '\n') {
        Some(i) => i + 1,
        None => t.len() as int,
    }
}

/// A segment without its `\n` and any `\r`s before it.
pub open spec fn seg_body(seg: Seq<char>) -> Seq<char> {
    strip_cr_all(if seg.len() > 0 && seg.last() == '\n' { seg.drop_last() } else { seg })
}

/// `s` without trailing `\r`s.
pub open spec fn strip_cr_all(s: Seq<char>) -> Seq<char>
    decreases s.len(),
{
    if s.len() > 0 && s.last() == '\r' {
        strip_cr_all(s.drop_last())
    } else {
        s
    }
}

pub proof fn lemma_seg_len(t: Seq<char>)
    requires
        t.len() > 0,
    ensures
        0 < seg_len(t) <= t.len(),
{
    lemma_find_char_some(t, '\n');
}

pub fn section_header_exec(line: &[char]) -> (r: Option<Vec<char>>)
    ensures
        match r {
            Some(v) => section_header(line@) == Some(v@),
            None => section_header(line@) is None,
        },
{
    let t = trim_vec(line);
    let n = t.len();
    if n >= 2 && t[0] == '[' && t[n - 1] == ']' {
        let inner = slice_vec(&t, 1, n - 1);
        Some(trim_vec(&inner))
    } else {
        None
    }
}

pub fn key_value_exec(line: &[char]) -> (r: Option<(Vec<char>, Vec<char>)>)
    ensures
        match r {
            Some((k, v)) => key_value(line@) == Some((k@, v@)),
            None => key_value(line@) is None,
        },
{
    let mut i: usize = 0;
    assert(line@.skip(0) =~= line@);
    while i < line.len() && crate::text::is_ws_exec(line[i])
        invariant
            i <= line@.len(),
            trim_start(line@) == trim_start(line@.skip(i as int)),
        decreases line.len() - i,
    {
        assert(line@.skip(i as int).drop_first() =~= line@.skip(i + 1));
        i = i + 1;
    }
    proof {
        if i < line@.len() {
            assert(line@.skip(i as int)[0] == line@[i as int]);
        }
        assert(trim_start(line@.skip(i as int)) == line@.skip(i as int));
    }
    if i < line.len() && (line[i] == ';' || line[i] == '#') {
        return None;
    }
    match split_once_vec(line, '=') {
        Some((k, v)) => {
            let kt = trim_vec(&k);
            if kt.len() > 0 {
                Some((kt, v))
            } else {
                None
            }
        },
        None => None,
    }
}

/// Whether a text holds a `\r\n`.
pub fn is_crlf_exec(text: &[char]) -> (b: bool)
    ensures
        b == is_crlf(text@),
{
    let mut i: usize = 0;
    while i < text.len() && i + 1 < text.len()
        invariant
            i <= text@.len(),
            forall|j: int| 0 <= j < i && j < text@.len() - 1 ==> !(text@[j] == '\r' && #[trigger] text@[j + 1] == '\n'),
        decreases text.len() - i,
    {
        if text[i] == '\r' && text[i + 1] == '\n' {
            return true;
        }
        i = i + 1;
    }
    false
}

/// The end of the segment starting at `pos`.
pub fn seg_end(v: &[char], pos: usize) -> (e: usize)
    requires
        pos < v@.len(),
    ensures
        pos < e <= v@.len(),
        e - pos == seg_len(v@.skip(pos as int)),
{
    let n = v.len();
    let rest = slice_vec(v, pos, n);
    assert(rest@ =~= v@.skip(pos as int));
    proof {
        lemma_find_char_some(rest@, '\n');
    }
    match find_char_exec(&rest, '\n') {
        Some(i) => pos + i + 1,
        None => n,
    }
}

/// A segment's body.
pub fn seg_body_exec(seg: &[char]) -> (b: Vec<char>)
    ensures
        b@ == seg_body(seg@),
{
    let mut j: usize = seg.len();
    if j > 0 && seg[j - 1] == '\n' {
        j = j - 1;
    }
    let base = slice_vec(seg, 0, j);
    assert(base@ =~= (if seg@.len() > 0 && seg@.last() == '\n' { seg@.drop_last() } else { seg@ }));
    let mut k: usize = base.len();
    assert(base@.take(k as int) =~= base@);
    while k > 0 && base[k - 1] == '\r'
        invariant
            k <= base@.len(),
            strip_cr_all(base@) == strip_cr_all(base@.take(k as int)),
        decreases k,
    {
        assert(base@.take(k as int).drop_last() =~= base@.take(k - 1));
        k = k - 1;
    }
    let r = slice_vec(&base, 0, k);
    assert(r@ =~= base@.take(k as int));
    r
}

/// A key fit to start a `key=value` line: not empty, no `=`, no whitespace at
/// either end, and not starting a comment or a section header.
pub open spec fn plain_key(k: Seq<char>) -> bool {
    &&& k.len() > 0
    &&& !is_ws(k[0])
    &&& !is_ws(k.last())
    &&& k[0] != ';' && k[0] != '#' && k[0] != '['
    &&& forall|j: int| 0 <= j < k.len() ==> k[j] != '='
}

/// A `key=value` line with a plain key and a trimmed value is its own trim,
/// and reads back as that key and that value.
pub proof fn lemma_kv_line(k: Seq<char>, v: Seq<char>)
    requires
        plain_key(k),
        trim(v) == v,
    ensures
        ({
            let l = k + seq!['='] + v;
            &&& trim(l) == l
            &&& key_value(l) == Some((k, v))
            &&& section_header(l) is None
            &&& l.len() > 0 && l[0] == k[0]
            &&& !is_ws(l.last())
        }),
{
    let l = k + seq!['='] + v;
    assert(l[0] == k[0]);
    if v.len() > 0 {
        lemma_trim_end_is_prefix(trim_start(v));
        assert(l.last() == v.last());
    } else {
        assert(l.last() == '=');
    }
    lemma_trim_fixed(l);
    lemma_find_char_at(l, '=', k.len() as int);
    assert(l.take(k.len() as int) =~= k);
    assert(l.skip(k.len() as int + 1) =~= v);
    lemma_trim_fixed(k);
}

/// A text that starts with a `key=value` line: that line first.
pub proof fn lemma_kv_lines_cons(k: Seq<char>, v: Seq<char>, rest: Seq<char>)
    requires
        plain_key(k),
        trim(v) == v,
        forall|j: int| 0 <= j < k.len() ==> k[j] != '\n',
        forall|j: int| 0 <= j < v.len() ==> v[j] != '\n',
    ensures
        lines(k + seq!['='] + v + seq!['\n'] + rest) == seq![k + seq!['='] + v] + lines(rest),
        trim(k + seq!['='] + v) == k + seq!['='] + v,
        key_value(k + seq!['='] + v) == Some((k, v)),
        section_header(k + seq!['='] + v) is None,
        (k + seq!['='] + v)[0] == k[0],
{
    let l = k + seq!['='] + v;
    lemma_kv_line(k, v);
    assert forall|j: int| 0 <= j < l.len() implies l[j] != '\n' by {
        if j < k.len() {
            assert(l[j] == k[j]);
        } else if j > k.len() {
            assert(l[j] == v[j - k.len() - 1]);
        }
    }
    crate::text::lemma_lines_cons(l, rest);
    assert(strip_cr(l) == l);
}

/// A terminated `key=value` line.
pub open spec fn kv_text(k: Seq<char>, v: Seq<char>) -> Seq<char> {
    k + seq!['='] + v + seq!['\n']
}

/// A terminated `key=value` line is exactly one line, which reads back as
/// that key and value.
pub proof fn lemma_kv_text(k: Seq<char>, v: Seq<char>)
    requires
        plain_key(k),
        trim(v) == v,
        forall|j: int| 0 <= j < k.len() ==> k[j] != '\n',
        forall|j: int| 0 <= j < v.len() ==> v[j] != '\n',
    ensures
        lines(kv_text(k, v)) == seq![k + seq!['='] + v],
        trim(k + seq!['='] + v) == k + seq!['='] + v,
        key_value(k + seq!['='] + v) == Some((k, v)),
        section_header(k + seq!['='] + v) is None,
        (k + seq!['='] + v)[0] == k[0],
        kv_text(k, v).last() == '\n',
{
    lemma_kv_lines_cons(k, v, Seq::empty());
    assert(kv_text(k, v) =~= k + seq!['='] + v + seq!['\n'] + Seq::<char>::empty());
    assert(lines(Seq::<char>::empty()) =~= Seq::<Seq<char>>::empty());
    assert(seq![k + seq!['='] + v] + Seq::<Seq<char>>::empty() =~= seq![k + seq!['='] + v]);
}

} // verus!
