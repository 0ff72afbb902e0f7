//! Reading back the array sections a metadata file rewrites in place: the
//! section scan over a tail, and what a replaced `[INI Tweaks]` or `[Plugins]`
//! section reads back as.

use vstd::prelude::*;

use crate::ini::{lemma_seg_len, section_header, seg_body, seg_len, strip_cr_all};
use crate::ini::{key_value, plain_key};
use crate::meta::{
    bain_entry, bain_lines, bain_of, bain_prefix_escaped, body_text, eol, idx_names, idx_pos, indexed, kvs, name_suffix,
    option_word, plugins_section, replace_section, section_entries, section_span, section_text, size_eq, sort_by_idx,
    span_scan, strip_prefix, strip_suffix, tweak_entry, tweak_lines, tweaks_of, tweaks_section,
};
use crate::text::{
    dec, eq_ic, find_char, is_digit, is_ws, lemma_find_char_at, lemma_find_char_some, lines, parse_u32_spec, strip_cr, trim,
};

verus! {

/// A text made of whole lines: empty, or ending in `\n`.
pub open spec fn whole_lines(t: Seq<char>) -> bool {
    t.len() == 0 || t.last() == '\n'
}

/// The section named by the first line of a text, when that line is a header.
pub open spec fn first_header(r: Seq<char>) -> Option<Seq<char>> {
    if r.len() == 0 {
        None
    } else {
        section_header(seg_body(r.take(seg_len(r))))
    }
}

/// No line of a text is a header named `name`, or, with `any`, a header at all.
pub open spec fn headerless(r: Seq<char>, name: Seq<char>, any: bool) -> bool
    decreases r.len(),
{
    if r.len() == 0 {
        true
    } else {
        let e = seg_len(r);
        if e <= 0 || e > r.len() {
            true
        } else {
            (match first_header(r) {
                Some(h) => !any && !eq_ic(h, name),
                None => true,
            }) && headerless(r.skip(e), name, any)
        }
    }
}

/// The first line of whole lines followed by more text is the same line.
proof fn lemma_seg_concat(a: Seq<char>, c: Seq<char>)
    requires
        a.len() > 0,
        a.last() == '\n',
    ensures
        seg_len(a + c) == seg_len(a),
        0 < seg_len(a) <= a.len(),
        (a + c).take(seg_len(a)) == a.take(seg_len(a)),
        (a + c).skip(seg_len(a)) == a.skip(seg_len(a)) + c,
        whole_lines(a.skip(seg_len(a))),
        a.take(seg_len(a)).last() == '\n',
{
    lemma_find_char_some(a, '\n');
    let i = match find_char(a, '\n') {
        Some(i) => i,
        None => {
            assert(a[a.len() - 1] == '\n');
            0
        },
    };
    lemma_find_char_at(a + c, '\n', i);
    assert((a + c).take(i + 1) =~= a.take(i + 1));
    assert((a + c).skip(i + 1) =~= a.skip(i + 1) + c);
    if a.skip(i + 1).len() > 0 {
        assert(a.skip(i + 1).last() == a.last());
    }
}

/// Scanning whole lines that hold no header that matters passes over them.
pub proof fn lemma_scan_pass(a: Seq<char>, c: Seq<char>, pos: int, total: int, name: Seq<char>, start: Option<int>)
    requires
        whole_lines(a),
        headerless(a, name, start is Some),
    ensures
        span_scan(a + c, pos, total, name, start) == span_scan(c, pos + a.len(), total, name, start),
    decreases a.len(),
{
    if a.len() == 0 {
        assert(a + c =~= c);
    } else {
        lemma_seg_concat(a, c);
        let e = seg_len(a);
        lemma_scan_pass(a.skip(e), c, pos + e, total, name, start);
    }
}

/// A scan inside a section stops at the end of the text or at the next header.
pub proof fn lemma_scan_end(c: Seq<char>, pos: int, total: int, name: Seq<char>, s: int)
    ensures
        c.len() == 0 ==> span_scan(c, pos, total, name, Some(s)) == Some((s, total)),
        first_header(c) is Some ==> span_scan(c, pos, total, name, Some(s)) == Some((s, pos)),
{
    if c.len() > 0 {
        lemma_seg_len(c);
    }
}

/// A scan that meets a matching header starts the section there.
pub proof fn lemma_scan_opens(c: Seq<char>, pos: int, total: int, name: Seq<char>)
    requires
        first_header(c) is Some,
        eq_ic(first_header(c)->0, name),
    ensures
        span_scan(c, pos, total, name, None::<int>)
            == span_scan(c.skip(seg_len(c)), pos + seg_len(c), total, name, Some(pos)),
{
    lemma_seg_len(c);
}

/// A text without a matching header holds no such section.
pub proof fn lemma_scan_none(r: Seq<char>, pos: int, total: int, name: Seq<char>)
    requires
        headerless(r, name, false),
    ensures
        span_scan(r, pos, total, name, None::<int>) is None,
    decreases r.len(),
{
    if r.len() > 0 {
        lemma_seg_len(r);
        lemma_scan_none(r.skip(seg_len(r)), pos + seg_len(r), total, name);
    }
}

/// A scan that finds no section saw no matching header.
pub proof fn lemma_scan_none_inv(r: Seq<char>, pos: int, total: int, name: Seq<char>)
    requires
        span_scan(r, pos, total, name, None::<int>) is None,
    ensures
        headerless(r, name, false),
    decreases r.len(),
{
    if r.len() > 0 {
        lemma_seg_len(r);
        let e = seg_len(r);
        match first_header(r) {
            Some(h) => {
                if eq_ic(h, name) {
                    let _ = lemma_scan_closes(r.skip(e), pos + e, total, name, pos);
                    assert(false);
                }
            },
            None => {},
        }
        lemma_scan_none_inv(r.skip(e), pos + e, total, name);
    }
}

/// Where an open section closes: after `m` more characters, at the end of the
/// text or before a header.
pub proof fn lemma_scan_closes(r: Seq<char>, pos: int, total: int, name: Seq<char>, s: int) -> (m: int)
    ensures
        0 <= m <= r.len(),
        span_scan(r, pos, total, name, Some(s)) == (if m == r.len() { Some((s, total)) } else { Some((s, pos + m)) }),
        m < r.len() ==> first_header(r.skip(m)) is Some,
    decreases r.len(),
{
    if r.len() == 0 {
        0
    } else {
        lemma_seg_len(r);
        let e = seg_len(r);
        if first_header(r) is Some {
            assert(r.skip(0) =~= r);
            0
        } else {
            let m2 = lemma_scan_closes(r.skip(e), pos + e, total, name, s);
            assert(r.skip(e).skip(m2) =~= r.skip(e + m2));
            e + m2
        }
    }
}

/// A whole line that is no header that matters, then headerless whole lines.
proof fn lemma_headerless_cons(x: Seq<char>, y: Seq<char>, name: Seq<char>, any: bool)
    requires
        x.len() > 0,
        x.last() == '\n',
        seg_len(x) == x.len(),
        match first_header(x) {
            Some(h) => !any && !eq_ic(h, name),
            None => true,
        },
        whole_lines(y),
        headerless(y, name, any),
    ensures
        headerless(x + y, name, any),
        whole_lines(x + y),
{
    lemma_seg_concat(x, y);
    assert(x.take(x.len() as int) =~= x);
    assert(x.skip(x.len() as int) =~= Seq::<char>::empty());
    assert(Seq::<char>::empty() + y =~= y);
    if y.len() > 0 {
        assert((x + y).last() == y.last());
    }
}

/// Where a scan that finds a section finds it: after `a` characters of whole
/// lines without a matching header, at a matching header line.
pub proof fn lemma_scan_found(r: Seq<char>, pos: int, total: int, name: Seq<char>) -> (a: int)
    requires
        span_scan(r, pos, total, name, None::<int>) is Some,
    ensures
        0 <= a < r.len(),
        whole_lines(r.take(a)),
        headerless(r.take(a), name, false),
        first_header(r.skip(a)) is Some,
        eq_ic(first_header(r.skip(a))->0, name),
        0 < seg_len(r.skip(a)) <= r.len() - a,
        span_scan(r, pos, total, name, None::<int>) == span_scan(
            r.skip(a + seg_len(r.skip(a))),
            pos + a + seg_len(r.skip(a)),
            total,
            name,
            Some(pos + a),
        ),
    decreases r.len(), 1int,
{
    lemma_seg_len(r);
    let e = seg_len(r);
    assert(r.skip(0) =~= r);
    assert(r.take(0) =~= Seq::<char>::empty());
    match first_header(r) {
        Some(h) => {
            if eq_ic(h, name) {
                0
            } else {
                lemma_scan_found_rest(r, pos, total, name)
            }
        },
        None => lemma_scan_found_rest(r, pos, total, name),
    }
}

/// The first line of a text that has a line break, as a whole line.
proof fn lemma_first_line(r: Seq<char>)
    requires
        r.len() > 0,
        r.skip(seg_len(r)).len() > 0,
    ensures
        ({
            let x = r.take(seg_len(r));
            &&& x.len() > 0 && x.last() == '\n'
            &&& seg_len(x) == x.len()
            &&& x + r.skip(seg_len(r)) == r
            &&& first_header(x) == first_header(r)
        }),
{
    lemma_seg_len(r);
    let e = seg_len(r);
    let x = r.take(e);
    let rest = r.skip(e);
    lemma_find_char_some(r, '\n');
    match find_char(r, '\n') {
        Some(i) => {
            assert(x.last() == '\n');
        },
        None => {
            assert(false);
        },
    }
    assert(x + rest =~= r);
    lemma_seg_concat(x, rest);
    assert(x.take(x.len() as int) =~= x);
}

#[verifier::spinoff_prover]
proof fn lemma_scan_found_rest(r: Seq<char>, pos: int, total: int, name: Seq<char>) -> (a: int)
    requires
        r.len() > 0,
        span_scan(r, pos, total, name, None::<int>) is Some,
        match first_header(r) {
            Some(h) => !eq_ic(h, name),
            None => true,
        },
    ensures
        0 <= a < r.len(),
        whole_lines(r.take(a)),
        headerless(r.take(a), name, false),
        first_header(r.skip(a)) is Some,
        eq_ic(first_header(r.skip(a))->0, name),
        0 < seg_len(r.skip(a)) <= r.len() - a,
        span_scan(r, pos, total, name, None::<int>) == span_scan(
            r.skip(a + seg_len(r.skip(a))),
            pos + a + seg_len(r.skip(a)),
            total,
            name,
            Some(pos + a),
        ),
    decreases r.len(), 0int,
{
    lemma_seg_len(r);
    let e = seg_len(r);
    let rest = r.skip(e);
    if rest.len() == 0 {
        assert(span_scan(rest, pos + e, total, name, None::<int>) is None);
    }
    assert(span_scan(r, pos, total, name, None::<int>) == span_scan(rest, pos + e, total, name, None::<int>));
    lemma_first_line(r);
    let x = r.take(e);
    let a2 = lemma_scan_found(rest, pos + e, total, name);
    let a = e + a2;
    assert(r.take(a) =~= x + rest.take(a2));
    assert(rest.skip(a2) =~= r.skip(a));
    let k = seg_len(r.skip(a));
    assert(rest.skip(a2 + k) =~= r.skip(a + k));
    lemma_headerless_cons(x, rest.take(a2), name, false);
    a
}

/// Section lines a metadata file can carry as they are: not empty, not
/// starting with whitespace or `[`, on one line, not ending in `\r`.
pub open spec fn body_ok(b: Seq<Seq<char>>) -> bool {
    forall|i: int| 0 <= i < b.len() ==> {
        let l = #[trigger] b[i];
        &&& l.len() > 0
        &&& !is_ws(l[0])
        &&& l[0] != '['
        &&& forall|j: int| 0 <= j < l.len() ==> l[j] != '\n'
        &&& l.last() != '\r'
    }
}

/// Headerless whole lines, then one more whole line that is no header.
proof fn lemma_headerless_append(a: Seq<char>, x: Seq<char>, name: Seq<char>, any: bool)
    requires
        whole_lines(a),
        headerless(a, name, any),
        x.len() > 0,
        x.last() == '\n',
        seg_len(x) == x.len(),
        match first_header(x) {
            Some(h) => !any && !eq_ic(h, name),
            None => true,
        },
    ensures
        whole_lines(a + x),
        headerless(a + x, name, any),
    decreases a.len(),
{
    if a.len() == 0 {
        assert(a + x =~= x);
        lemma_headerless_cons(x, Seq::empty(), name, any);
        assert(x + Seq::<char>::empty() =~= x);
    } else {
        lemma_seg_concat(a, x);
        let e = seg_len(a);
        lemma_headerless_append(a.skip(e), x, name, any);
        assert((a + x).take(seg_len(a + x)) == a.take(e));
        assert((a + x).last() == x.last());
    }
}

/// A line and its terminator: one segment, read as that line.
proof fn lemma_line_seg(l: Seq<char>, crlf: bool)
    requires
        forall|j: int| 0 <= j < l.len() ==> l[j] != '\n',
        l.len() == 0 || l.last() != '\r',
    ensures
        ({
            let x = l + eol(crlf);
            &&& x.len() > 0 && x.last() == '\n'
            &&& seg_len(x) == x.len()
            &&& seg_body(x.take(seg_len(x))) == l
            &&& lines(x) == seq![l]
        }),
{
    let x = l + eol(crlf);
    crate::meta::lemma_seg_line(l, crlf, Seq::empty());
    assert(x + Seq::<char>::empty() =~= x);
    if crlf {
        let lr = l.push('\r');
        assert forall|j: int| 0 <= j < lr.len() implies lr[j] != '\n' by {
            if j < l.len() {
                assert(lr[j] == l[j]);
            }
        }
        crate::text::lemma_lines_one(lr);
        assert(x =~= lr + seq!['\n']);
        assert(lr.drop_last() =~= l);
    } else {
        crate::text::lemma_lines_one(l);
    }
}

/// Written section lines are whole lines without a header, and read back as
/// those lines.
proof fn lemma_body_text(b: Seq<Seq<char>>, crlf: bool, name: Seq<char>)
    requires
        body_ok(b),
    ensures
        whole_lines(body_text(b, eol(crlf))),
        headerless(body_text(b, eol(crlf)), name, true),
        lines(body_text(b, eol(crlf))) == b,
    decreases b.len(),
{
    let e = eol(crlf);
    if b.len() == 0 {
        assert(lines(Seq::<char>::empty()) =~= Seq::<Seq<char>>::empty());
    } else {
        let q = b.drop_last();
        assert(body_ok(q)) by {
            assert forall|i: int| 0 <= i < q.len() implies #[trigger] q[i] == b[i] by {}
        }
        lemma_body_text(q, crlf, name);
        let l = b.last();
        assert(body_ok(b) ==> l == b[b.len() - 1]);
        lemma_line_seg(l, crlf);
        let x = l + e;
        crate::text::lemma_trim_start_is_suffix(l);
        assert(crate::text::trim_start(l) == l);
        let t = trim(l);
        crate::text::lemma_trim_end_is_prefix(l);
        if t.len() > 0 {
            assert(t[0] == l[0]);
        }
        assert(section_header(l) is None);
        assert(x.take(seg_len(x)) =~= x);
        assert(first_header(x) is None);
        lemma_headerless_append(body_text(q, e), x, name, true);
        assert(body_text(b, e) =~= body_text(q, e) + x);
        crate::text::lemma_lines_append(body_text(q, e), x);
        assert(q.push(l) =~= b);
    }
}

/// The header line of a section.
pub open spec fn header_text(name: Seq<char>) -> Seq<char> {
    seq!['['] + name + seq![']']
}

/// A written section opens with its own header, and reads back as its lines.
proof fn lemma_section_text(name: Seq<char>, b: Seq<Seq<char>>, crlf: bool, rest: Seq<char>)
    requires
        trim(name) == name,
        forall|j: int| 0 <= j < name.len() ==> name[j] != '\n',
        body_ok(b),
        b.len() > 0,
    ensures
        ({
            let sec = section_text(name, b, eol(crlf));
            let h = (header_text(name).len() + eol(crlf).len()) as int;
            &&& first_header(sec + rest) == Some(name)
            &&& seg_len(sec + rest) == h
            &&& (sec + rest).skip(h) == body_text(b, eol(crlf)) + rest
            &&& sec.len() == h + body_text(b, eol(crlf)).len()
            &&& whole_lines(sec)
            &&& lines(sec) == seq![header_text(name)] + b
        }),
{
    let e = eol(crlf);
    let hd = header_text(name);
    let bt = body_text(b, e);
    let sec = section_text(name, b, e);
    assert(sec =~= hd + e + bt);
    assert forall|j: int| 0 <= j < hd.len() implies hd[j] != '\n' by {
        if 0 < j < hd.len() - 1 {
            assert(hd[j] == name[j - 1]);
        }
    }
    crate::meta::lemma_seg_line(hd, crlf, bt + rest);
    assert(sec + rest =~= hd + e + (bt + rest));
    crate::text::lemma_trim_fixed(hd);
    assert(hd.subrange(1, hd.len() - 1) =~= name);
    assert(section_header(hd) == Some(name));
    lemma_body_text(b, crlf, name);
    lemma_line_seg(hd, crlf);
    crate::text::lemma_lines_append(hd + e, bt);
    assert(sec.last() == bt.last());
}

/// Ending the last line of a headerless text keeps it headerless.
proof fn lemma_extend_line(t: Seq<char>, crlf: bool, name: Seq<char>)
    requires
        t.len() > 0,
        t.last() != '\n',
        headerless(t, name, false),
    ensures
        whole_lines(t + eol(crlf)),
        headerless(t + eol(crlf), name, false),
    decreases t.len(),
{
    let e = eol(crlf);
    lemma_seg_len(t);
    lemma_find_char_some(t, '\n');
    match find_char(t, '\n') {
        Some(i) => {
            let k = seg_len(t);
            let x = t.take(k);
            let rest = t.skip(k);
            assert(rest.len() > 0) by {
                if rest.len() == 0 {
                    assert(t.last() == t[i]);
                }
            }
            lemma_first_line(t);
            lemma_extend_line(rest, crlf, name);
            assert(rest.last() == t.last());
            assert(t + e =~= x + (rest + e));
            lemma_headerless_cons(x, rest + e, name, false);
        },
        None => {
            let x = t + e;
            let n = x.len() - 1;
            assert forall|j: int| 0 <= j < n implies x[j] != '\n' by {
                if j < t.len() {
                    assert(x[j] == t[j]);
                }
            }
            lemma_find_char_at(x, '\n', n);
            assert(seg_len(x) == x.len());
            assert(x.take(x.len() as int) =~= x);
            assert(x.skip(x.len() as int) =~= Seq::<char>::empty());
            assert(seg_len(t) == t.len());
            assert(t.take(t.len() as int) =~= t);
            let body = if crlf { t.push('\r') } else { t };
            assert(x.drop_last() =~= body);
            if crlf {
                assert(t.push('\r').drop_last() =~= t);
                assert(strip_cr_all(t.push('\r')) == strip_cr_all(t));
            }
            assert(seg_body(x) == strip_cr_all(body));
            assert(seg_body(t) == strip_cr_all(t));
            assert(first_header(x) == first_header(t));
            assert(t.skip(t.len() as int) =~= Seq::<char>::empty());
        },
    }
}

/// The tail holds at most one section named `name`.
pub open spec fn one_section(t: Seq<char>, name: Seq<char>) -> bool {
    match section_span(t, name) {
        Some((s, en)) => headerless(t.skip(en), name, false),
        None => true,
    }
}

/// Where the section a tail holds starts and ends, as the scan finds it.
proof fn lemma_span_shape(t: Seq<char>, name: Seq<char>)
    requires
        section_span(t, name) is Some,
    ensures
        ({
            let (s, en) = section_span(t, name)->0;
            &&& 0 <= s <= en <= t.len()
            &&& whole_lines(t.take(s))
            &&& headerless(t.take(s), name, false)
            &&& (en == t.len() || first_header(t.skip(en)) is Some)
        }),
{
    let a = lemma_scan_found(t, 0, t.len() as int, name);
    let h = seg_len(t.skip(a));
    let r2 = t.skip(a + h);
    let m = lemma_scan_closes(r2, a + h, t.len() as int, name, a);
    assert(r2.skip(m) =~= t.skip(a + h + m));
}

proof fn lemma_remove_entries(t: Seq<char>, name: Seq<char>, crlf: bool)
    requires
        one_section(t, name),
    ensures
        section_span(replace_section(t, name, Seq::empty(), eol(crlf)), name) is None,
{
    let e = eol(crlf);
    let body = Seq::<Seq<char>>::empty();
    let t2 = replace_section(t, name, body, e);
    assert(section_text(name, body, e).len() == 0);
    match section_span(t, name) {
        Some((s, en)) => {
            lemma_span_shape(t, name);
            assert(t2 =~= t.take(s) + t.skip(en));
            lemma_scan_pass(t.take(s), t.skip(en), 0, t2.len() as int, name, None);
            lemma_scan_none(t.skip(en), s, t2.len() as int, name);
        },
        None => {
            assert(t2 == t);
        },
    }
}

#[verifier::spinoff_prover]
proof fn lemma_rewrite_entries(t: Seq<char>, name: Seq<char>, body: Seq<Seq<char>>, crlf: bool)
    requires
        trim(name) == name,
        forall|j: int| 0 <= j < name.len() ==> name[j] != '\n',
        body_ok(body),
        body.len() > 0,
        section_span(t, name) is Some,
    ensures
        ({
            let t2 = replace_section(t, name, body, eol(crlf));
            let (s, en) = section_span(t, name)->0;
            let sec = section_text(name, body, eol(crlf));
            &&& section_span(t2, name) == Some((s, s + sec.len()))
            &&& t2.subrange(s, s + sec.len()) == sec
        }),
{
    let e = eol(crlf);
    let sec = section_text(name, body, e);
    let t2 = replace_section(t, name, body, e);
    let (s, en) = section_span(t, name)->0;
    let hl = (header_text(name).len() + e.len()) as int;
    let bt = body_text(body, e);
    assert(eq_ic(name, name));
    lemma_span_shape(t, name);
    let r = t.skip(en);
    assert(t2 =~= t.take(s) + (sec + r));
    let total = t2.len() as int;
    lemma_scan_pass(t.take(s), sec + r, 0, total, name, None);
    lemma_section_text(name, body, crlf, r);
    lemma_body_text(body, crlf, name);
    lemma_scan_opens(sec + r, s, total, name);
    lemma_scan_pass(bt, r, s + hl, total, name, Some(s));
    lemma_scan_end(r, s + hl + bt.len(), total, name, s);
    assert(t2.subrange(s, s + sec.len()) =~= sec);
}

/// A tail without the section, its last line ended: whole lines without it.
proof fn lemma_whole_prefix(t: Seq<char>, crlf: bool, name: Seq<char>)
    requires
        section_span(t, name) is None,
    ensures
        ({
            let w = if t.len() > 0 && t.last() != '\n' { t + eol(crlf) } else { t };
            whole_lines(w) && headerless(w, name, false)
        }),
{
    lemma_scan_none_inv(t, 0, t.len() as int, name);
    if t.len() > 0 && t.last() != '\n' {
        lemma_extend_line(t, crlf, name);
    }
}

#[verifier::spinoff_prover]
#[verifier::rlimit(40)]
proof fn lemma_add_entries(t: Seq<char>, name: Seq<char>, body: Seq<Seq<char>>, crlf: bool)
    requires
        trim(name) == name,
        forall|j: int| 0 <= j < name.len() ==> name[j] != '\n',
        body_ok(body),
        body.len() > 0,
        section_span(t, name) is None,
    ensures
        ({
            let t2 = replace_section(t, name, body, eol(crlf));
            let sec = section_text(name, body, eol(crlf));
            let p = t2.len() - sec.len();
            &&& section_span(t2, name) == Some((p, t2.len() as int))
            &&& t2.subrange(p, t2.len() as int) == sec
        }),
{
    let e = eol(crlf);
    let sec = section_text(name, body, e);
    let t2 = replace_section(t, name, body, e);
    let hl = (header_text(name).len() + e.len()) as int;
    let bt = body_text(body, e);
    assert(eq_ic(name, name));
    let w = if t.len() > 0 && t.last() != '\n' { t + e } else { t };
    lemma_whole_prefix(t, crlf, name);
    lemma_section_text(name, body, crlf, Seq::empty());
    lemma_body_text(body, crlf, name);
    assert(sec.len() > 0);
    assert(t2 == w + sec);
    let total = t2.len() as int;
    lemma_scan_pass(w, sec, 0, total, name, None);
    assert(sec + Seq::<char>::empty() =~= sec);
    lemma_scan_opens(sec, w.len() as int, total, name);
    assert(sec.skip(hl) =~= bt + Seq::<char>::empty());
    lemma_scan_pass(bt, Seq::empty(), w.len() + hl, total, name, Some(w.len() as int));
    lemma_scan_end(Seq::empty(), w.len() + hl + bt.len(), total, name, w.len() as int);
    assert(t2.subrange(w.len() as int, total) =~= sec);
}

/// A section written over a tail reads back as exactly the lines written:
/// replacing it, adding it, or (with no lines, when the tail held at most one
/// such section) removing it.
pub proof fn lemma_replace_entries(t: Seq<char>, name: Seq<char>, body: Seq<Seq<char>>, crlf: bool)
    requires
        trim(name) == name,
        forall|j: int| 0 <= j < name.len() ==> name[j] != '\n',
        body_ok(body),
        body.len() == 0 ==> one_section(t, name),
    ensures
        section_entries(replace_section(t, name, body, eol(crlf)), name) == kvs(body),
{
    if body.len() == 0 {
        lemma_remove_entries(t, name, crlf);
        assert(kvs(body) =~= Seq::<(Seq<char>, Seq<char>)>::empty());
    } else {
        if section_span(t, name) is Some {
            lemma_rewrite_entries(t, name, body, crlf);
        } else {
            lemma_add_entries(t, name, body, crlf);
        }
        lemma_section_text(name, body, crlf, Seq::empty());
        let ls = lines(section_text(name, body, eol(crlf)));
        assert(ls.drop_first() =~= body);
    }
}

/// Names an array section carries unchanged: not empty, trimmed, on one
/// line, and few enough to number.
pub open spec fn array_names(names: Seq<Seq<char>>) -> bool {
    &&& names.len() < u32::MAX
    &&& forall|i: int| 0 <= i < names.len() ==> {
        let n = #[trigger] names[i];
        n.len() > 0 && trim(n) == n && forall|j: int| 0 <= j < n.len() ==> n[j] != '\n'
    }
}

/// An array line `key=value` with a plain key and a name for its value reads
/// back as that pair and is fit for a section.
proof fn lemma_array_line(k: Seq<char>, v: Seq<char>)
    requires
        plain_key(k),
        forall|j: int| 0 <= j < k.len() ==> k[j] != '\n',
        v.len() > 0,
        trim(v) == v,
        forall|j: int| 0 <= j < v.len() ==> v[j] != '\n',
    ensures
        key_value(k + seq!['='] + v) == Some((k, v)),
        body_ok(seq![k + seq!['='] + v]),
{
    crate::ini::lemma_kv_line(k, v);
    let l = k + seq!['='] + v;
    assert forall|j: int| 0 <= j < l.len() implies l[j] != '\n' by {
        if j < k.len() {
            assert(l[j] == k[j]);
        } else if j > k.len() {
            assert(l[j] == v[j - k.len() - 1]);
        }
    }
    assert(seq![l][0] == l);
}

/// The decimal text of a number: digits only, reading back as the number.
proof fn lemma_dec_digits_text(n: nat)
    requires
        n <= u32::MAX,
    ensures
        dec(n).len() > 0,
        forall|j: int| 0 <= j < dec(n).len() ==> is_digit(#[trigger] dec(n)[j]),
        parse_u32_spec(trim(dec(n))) == Some(n as u32),
{
    crate::text::lemma_parse_dec(n as u64);
    crate::text::lemma_dec_digits(n);
}

/// The key of the tweak numbered `n`.
spec fn tweak_key(n: nat) -> Seq<char> {
    dec(n) + name_suffix()
}

proof fn lemma_tweak_key(n: nat)
    requires
        1 <= n <= u32::MAX,
    ensures
        plain_key(tweak_key(n)),
        forall|j: int| 0 <= j < tweak_key(n).len() ==> tweak_key(n)[j] != '\n',
        strip_suffix(tweak_key(n), name_suffix()) == Some(dec(n)),
        parse_u32_spec(trim(dec(n))) == Some(n as u32),
{
    lemma_dec_digits_text(n);
    let d = dec(n);
    let k = tweak_key(n);
    assert(k[0] == d[0]);
    assert(is_digit(d[0]));
    assert(k.last() == 'e');
    assert forall|j: int| 0 <= j < k.len() implies k[j] != '\n' && k[j] != '=' by {
        if j < d.len() {
            assert(k[j] == d[j]);
            assert(is_digit(d[j]));
        } else {
            assert(k[j] == name_suffix()[j - d.len()]);
        }
    }
    assert(k.skip(k.len() - name_suffix().len()) =~= name_suffix());
    assert(k.take(k.len() - name_suffix().len()) =~= d);
}

/// The key of the BAIN option numbered `n`.
spec fn bain_key(n: nat) -> Seq<char> {
    bain_prefix_escaped() + option_word() + dec(n)
}

proof fn lemma_bain_key(n: nat)
    requires
        n <= u32::MAX,
    ensures
        plain_key(bain_key(n)),
        forall|j: int| 0 <= j < bain_key(n).len() ==> bain_key(n)[j] != '\n',
        strip_prefix(bain_key(n), bain_prefix_escaped()) == Some(option_word() + dec(n)),
        strip_prefix(option_word() + dec(n), option_word()) == Some(dec(n)),
        parse_u32_spec(trim(dec(n))) == Some(n as u32),
{
    lemma_dec_digits_text(n);
    let d = dec(n);
    let p = bain_prefix_escaped() + option_word();
    let k = bain_key(n);
    assert(k[0] == 'B');
    assert(k.last() == d.last());
    assert(is_digit(d[d.len() - 1]));
    assert forall|j: int| 0 <= j < k.len() implies k[j] != '\n' && k[j] != '=' by {
        if j < p.len() {
            assert(k[j] == p[j]);
            if j < bain_prefix_escaped().len() {
                assert(p[j] == bain_prefix_escaped()[j]);
            } else {
                assert(p[j] == option_word()[j - bain_prefix_escaped().len()]);
            }
        } else {
            assert(k[j] == d[j - p.len()]);
            assert(is_digit(d[j - p.len()]));
        }
    }
    assert(k.take(bain_prefix_escaped().len() as int) =~= bain_prefix_escaped());
    assert(k.skip(bain_prefix_escaped().len() as int) =~= option_word() + d);
    assert((option_word() + d).take(option_word().len() as int) =~= option_word());
    assert((option_word() + d).skip(option_word().len() as int) =~= d);
}

/// Entries with strictly rising indexes are already sorted.
proof fn lemma_sort_rising(s: Seq<(u32, Seq<char>)>)
    requires
        forall|i: int, j: int| 0 <= i < j < s.len() ==> s[i].0 < s[j].0,
    ensures
        sort_by_idx(s) == s,
    decreases s.len(),
{
    if s.len() > 0 {
        let q = s.drop_last();
        lemma_sort_rising(q);
        if q.len() > 0 {
            assert(q.last().0 < s.last().0);
        }
        assert(idx_pos(q, s.last().0) == q.len());
        assert(q.insert(q.len() as int, s.last()) =~= s);
    }
}

/// The tweak pairs a list of names is written as, in order.
spec fn tweak_pairs(names: Seq<Seq<char>>, k: int) -> Seq<(Seq<char>, Seq<char>)> {
    Seq::new(k as nat, |i: int| (tweak_key((i + 1) as nat), names[i]))
}

#[verifier::spinoff_prover]
#[verifier::rlimit(40)]
proof fn lemma_tweak_prefix(names: Seq<Seq<char>>, k: int)
    requires
        array_names(names),
        0 <= k <= names.len(),
    ensures
        kvs(tweak_lines(names).take(k)) == tweak_pairs(names, k),
        indexed(tweak_pairs(names, k), false) == Seq::new(k as nat, |i: int| (((i + 1) as u32), names[i])),
        body_ok(tweak_lines(names).take(k)),
    decreases k,
{
    let ls = tweak_lines(names);
    if k == 0 {
        assert(ls.take(0) =~= Seq::<Seq<char>>::empty());
        assert(tweak_pairs(names, 0) =~= Seq::<(Seq<char>, Seq<char>)>::empty());
        assert(Seq::new(0, |i: int| (((i + 1) as u32), names[i])) =~= Seq::<(u32, Seq<char>)>::empty());
    } else {
        lemma_tweak_prefix(names, k - 1);
        let n = names[k - 1];
        let key = tweak_key(k as nat);
        lemma_tweak_key(k as nat);
        lemma_array_line(key, n);
        let l = key + seq!['='] + n;
        assert(ls[k - 1] =~= l);
        assert(ls.take(k).drop_last() =~= ls.take(k - 1));
        assert(ls.take(k).last() == l);
        assert(tweak_pairs(names, k) =~= tweak_pairs(names, k - 1).push((key, n)));
        assert(tweak_pairs(names, k).drop_last() =~= tweak_pairs(names, k - 1));
        assert(tweak_entry((key, n)) == Some(((k as u32), n)));
        assert(Seq::new(k as nat, |i: int| (((i + 1) as u32), names[i]))
            =~= Seq::new((k - 1) as nat, |i: int| (((i + 1) as u32), names[i])).push(((k as u32), n)));
        assert forall|i: int| 0 <= i < k implies #[trigger] ls.take(k)[i] == ls[i] by {}
        assert(body_ok(ls.take(k))) by {
            assert forall|i: int| 0 <= i < k implies {
                let l2 = #[trigger] ls.take(k)[i];
                &&& l2.len() > 0
                &&& !is_ws(l2[0])
                &&& l2[0] != '['
                &&& forall|j: int| 0 <= j < l2.len() ==> l2[j] != '\n'
                &&& l2.last() != '\r'
            } by {
                if i < k - 1 {
                    assert(ls.take(k)[i] == ls.take(k - 1)[i]);
                } else {
                    assert(seq![l][0] == l);
                }
            }
        }
    }
}

/// INI tweaks written into a tail read back as exactly those names, in order
/// (clearing them, when the tail held at most one `[INI Tweaks]` section).
pub proof fn lemma_tweaks_round_trip(t: Seq<char>, names: Seq<Seq<char>>, crlf: bool)
    requires
        array_names(names),
        names.len() == 0 ==> one_section(t, tweaks_section()),
    ensures
        tweaks_of(replace_section(t, tweaks_section(), tweak_lines(names), eol(crlf))) == names,
{
    let nm = tweaks_section();
    assert(trim(nm) == nm) by {
        crate::text::lemma_trim_fixed(nm);
    }
    let ls = tweak_lines(names);
    let k = names.len() as int;
    if k == 0 {
        assert(body_ok(ls));
        lemma_replace_entries(t, nm, ls, crlf);
        assert(kvs(ls) =~= Seq::<(Seq<char>, Seq<char>)>::empty());
        assert(idx_names(sort_by_idx(indexed(Seq::<(Seq<char>, Seq<char>)>::empty(), false))) =~= names);
    } else {
        lemma_tweak_prefix(names, k);
        let size = size_eq() + dec(k as nat);
        lemma_dec_digits_text(k as nat);
        let d = dec(k as nat);
        assert(plain_key(seq!['s', 'i', 'z', 'e']));
        assert(size =~= seq!['s', 'i', 'z', 'e'] + seq!['='] + d);
        crate::text::lemma_trim_fixed(d);
        assert(is_digit(d[0]) && is_digit(d[d.len() - 1]));
        assert forall|j: int| 0 <= j < d.len() implies d[j] != '\n' by {
            assert(is_digit(d[j]));
        }
        lemma_array_line(seq!['s', 'i', 'z', 'e'], d);
        assert(ls.take(k).push(size) =~= ls);
        assert(ls.drop_last() =~= ls.take(k));
        assert(body_ok(ls)) by {
            assert forall|i: int| 0 <= i < ls.len() implies {
                let l2 = #[trigger] ls[i];
                &&& l2.len() > 0
                &&& !is_ws(l2[0])
                &&& l2[0] != '['
                &&& forall|j: int| 0 <= j < l2.len() ==> l2[j] != '\n'
                &&& l2.last() != '\r'
            } by {
                if i < k {
                    assert(ls[i] == ls.take(k)[i]);
                } else {
                    assert(seq![size][0] == size);
                }
            }
        }
        lemma_replace_entries(t, nm, ls, crlf);
        let pairs = tweak_pairs(names, k);
        let kv = kvs(ls);
        assert(kv == pairs.push((seq!['s', 'i', 'z', 'e'], d)));
        assert(tweak_entry((seq!['s', 'i', 'z', 'e'], d)) is None);
        assert(kv.drop_last() =~= pairs);
        let ix = Seq::new(k as nat, |i: int| (((i + 1) as u32), names[i]));
        assert(indexed(kv, false) == ix);
        lemma_sort_rising(ix);
        assert(idx_names(ix) =~= names);
    }
}

/// The BAIN pairs a list of names is written as, in order.
spec fn bain_pairs(names: Seq<Seq<char>>, k: int) -> Seq<(Seq<char>, Seq<char>)> {
    Seq::new(k as nat, |i: int| (bain_key(i as nat), names[i]))
}

#[verifier::spinoff_prover]
#[verifier::rlimit(40)]
proof fn lemma_bain_prefix(names: Seq<Seq<char>>, k: int)
    requires
        array_names(names),
        0 <= k <= names.len(),
    ensures
        kvs(bain_lines(names).take(k)) == bain_pairs(names, k),
        indexed(bain_pairs(names, k), true) == Seq::new(k as nat, |i: int| ((i as u32), names[i])),
        body_ok(bain_lines(names).take(k)),
    decreases k,
{
    let ls = bain_lines(names);
    if k == 0 {
        assert(ls.take(0) =~= Seq::<Seq<char>>::empty());
        assert(bain_pairs(names, 0) =~= Seq::<(Seq<char>, Seq<char>)>::empty());
        assert(Seq::new(0, |i: int| ((i as u32), names[i])) =~= Seq::<(u32, Seq<char>)>::empty());
    } else {
        lemma_bain_prefix(names, k - 1);
        let n = names[k - 1];
        let key = bain_key((k - 1) as nat);
        lemma_bain_key((k - 1) as nat);
        lemma_array_line(key, n);
        let l = key + seq!['='] + n;
        assert(ls[k - 1] =~= l);
        assert(ls.take(k).drop_last() =~= ls.take(k - 1));
        assert(ls.take(k).last() == l);
        assert(bain_pairs(names, k) =~= bain_pairs(names, k - 1).push((key, n)));
        assert(bain_pairs(names, k).drop_last() =~= bain_pairs(names, k - 1));
        assert(bain_entry((key, n)) == Some((((k - 1) as u32), n)));
        assert(Seq::new(k as nat, |i: int| ((i as u32), names[i]))
            =~= Seq::new((k - 1) as nat, |i: int| ((i as u32), names[i])).push((((k - 1) as u32), n)));
        assert(body_ok(ls.take(k))) by {
            assert forall|i: int| 0 <= i < k implies {
                let l2 = #[trigger] ls.take(k)[i];
                &&& l2.len() > 0
                &&& !is_ws(l2[0])
                &&& l2[0] != '['
                &&& forall|j: int| 0 <= j < l2.len() ==> l2[j] != '\n'
                &&& l2.last() != '\r'
            } by {
                if i < k - 1 {
                    assert(ls.take(k)[i] == ls.take(k - 1)[i]);
                } else {
                    assert(seq![l][0] == l);
                }
            }
        }
    }
}

/// BAIN options written into a tail read back as exactly those names, in
/// order (clearing them, when the tail held at most one `[Plugins]` section).
pub proof fn lemma_bain_round_trip(t: Seq<char>, names: Seq<Seq<char>>, crlf: bool)
    requires
        array_names(names),
        names.len() == 0 ==> one_section(t, plugins_section()),
    ensures
        bain_of(replace_section(t, plugins_section(), bain_lines(names), eol(crlf))) == names,
{
    let nm = plugins_section();
    assert(trim(nm) == nm) by {
        crate::text::lemma_trim_fixed(nm);
    }
    let ls = bain_lines(names);
    let k = names.len() as int;
    lemma_bain_prefix(names, k);
    assert(ls.take(k) =~= ls);
    lemma_replace_entries(t, nm, ls, crlf);
    let ix = Seq::new(k as nat, |i: int| ((i as u32), names[i]));
    lemma_sort_rising(ix);
    assert(idx_names(ix) =~= names);
}

} // verus!
