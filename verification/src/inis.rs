//! Game INI text as it sits on disk: UTF-8, or Windows ANSI (code page 1252)
//! for the files the game wrote itself. A file is read in whichever of the
//! two it is in, and written back in the same one.

use vstd::prelude::*;
use vstd::utf8::{decode_utf8, valid_utf8};

verus! {

/// What decoding bytes as Windows-1252 (with the byte-order-mark sniffing of
/// the WHATWG _decode_ algorithm) gives.
pub uninterp spec fn windows_1252_decode(bytes: Seq<u8>) -> Seq<char>;

/// What encoding text as Windows-1252 gives, unmappable characters written as
/// HTML numeric character references.
pub uninterp spec fn windows_1252_encode(text: Seq<char>) -> Seq<u8>;

/// `std::str::from_utf8`: the text the bytes encode when they are valid
/// UTF-8, and nothing otherwise.
#[verifier::external_body]
fn utf8_text(bytes: &[u8]) -> (r: Option<String>)
    ensures
        match r {
            Some(s) => valid_utf8(bytes@) && s@ == decode_utf8(bytes@),
            None => !valid_utf8(bytes@),
        },
{
    match std::str::from_utf8(bytes) {
        Ok(t) => Some(t.to_string()),
        Err(_) => None,
    }
}

/// `encoding_rs::WINDOWS_1252.decode`: the text of the bytes, read as
/// Windows-1252 (after a byte-order mark, in the encoding it names).
#[verifier::external_body]
fn cp1252_decode(bytes: &[u8]) -> (r: String)
    requires
        bytes@.len() <= usize::MAX / 4,
    ensures
        r@ == windows_1252_decode(bytes@),
{
    encoding_rs::WINDOWS_1252.decode(bytes).0.into_owned()
}

/// `encoding_rs::WINDOWS_1252.encode`: the Windows-1252 bytes of the text.
#[verifier::external_body]
fn cp1252_encode(text: &str) -> (r: Vec<u8>)
    requires
        text@.len() <= usize::MAX / 16,
    ensures
        r@ == windows_1252_encode(text@),
{
    encoding_rs::WINDOWS_1252.encode(text).0.into_owned()
}

/// The text of a file's bytes and whether it was Windows-1252: valid UTF-8
/// is read as UTF-8, anything else as Windows-1252.
pub fn decode_text_lossy(bytes: &[u8]) -> (r: (String, bool))
    requires
        bytes@.len() <= usize::MAX / 4,
    ensures
        valid_utf8(bytes@) ==> r.0@ == decode_utf8(bytes@) && !r.1,
        !valid_utf8(bytes@) ==> r.0@ == windows_1252_decode(bytes@) && r.1,
{
    match utf8_text(bytes) {
        Some(t) => (t, false),
        None => (cp1252_decode(bytes), true),
    }
}

/// The bytes to write `text` as, in the encoding it was read in.
pub fn encode_text(text: &str, cp1252: bool) -> (r: Vec<u8>)
    requires
        text@.len() <= usize::MAX / 16,
    ensures
        cp1252 ==> r@ == windows_1252_encode(text@),
        !cp1252 ==> r@ == vstd::utf8::encode_utf8(text@),
{
    if cp1252 {
        cp1252_encode(text)
    } else {
        let b = text.as_bytes();
        let mut v: Vec<u8> = Vec::new();
        let mut i: usize = 0;
        while i < b.len()
            invariant
                i <= b@.len(),
                v@ == b@.take(i as int),
            decreases b.len() - i,
        {
            v.push(b[i]);
            i = i + 1;
            assert(v@ =~= b@.take(i as int));
        }
        assert(b@.take(b@.len() as int) =~= b@);
        v
    }
}

/// What to do with one INI the game left in the prefix after a run.
#[derive(Debug, Clone, Copy, PartialEq, Eq)]
pub enum CaptureAction {
    /// Both copies are empty placeholders: nothing to capture or report.
    Skip,
    /// The prefix copy looks like a crash artifact: keep the profile's copy,
    /// and remember the refused size when `record` (a non-empty file).
    Refuse { record: bool },
    /// Copy it into the profile; `stash` keeps the displaced profile copy,
    /// because a repeated compact size is being accepted on a heuristic.
    Capture { stash: bool },
}

/// A refused size seen again: the same non-empty size within a tenth of the
/// last refused one, and at least 16 bytes of slack.
pub open spec fn stable_repeat(src_len: u64, last_refused: Option<u64>) -> bool {
    src_len > 0 && match last_refused {
        Some(prev) => prev > 0 && (if src_len >= prev { src_len - prev } else { prev - src_len }) <= (if prev / 10 >= 16 {
            prev / 10
        } else {
            16
        }),
        None => false,
    }
}

/// The size a refused-length marker records: its trimmed text as a number.
pub open spec fn refused_len(marker: Option<Seq<char>>) -> Option<u64> {
    match marker {
        Some(t) => crate::text::parse_u64_spec(crate::text::trim(t)),
        None => None,
    }
}

/// The capture decision: empty on both sides is skipped; an empty prefix copy
/// over a non-empty profile copy, or one under half its size that is not a
/// stable repeat of a refused size, is refused; anything else is captured.
pub open spec fn capture_spec(src_len: u64, dst_len: u64, marker: Option<Seq<char>>) -> CaptureAction {
    let stable = stable_repeat(src_len, refused_len(marker));
    if src_len == 0 && dst_len == 0 {
        CaptureAction::Skip
    } else if (src_len == 0 && dst_len > 0) || (dst_len > 0 && src_len < dst_len / 2 && !stable) {
        CaptureAction::Refuse { record: src_len > 0 }
    } else {
        CaptureAction::Capture { stash: stable }
    }
}

/// Decide what to do with an INI the game left behind: `src_len` is the
/// prefix copy's size, `dst_len` the profile copy's (0 when absent), and
/// `marker` the text of the refused-length marker, when there is one.
pub fn capture_action(src_len: u64, dst_len: u64, marker: Option<&str>) -> (a: CaptureAction)
    ensures
        a == capture_spec(src_len, dst_len, match marker {
            Some(t) => Some(t@),
            None => None,
        }),
{
    let last = match marker {
        Some(t) => {
            let v = crate::text::chars_of(t);
            let tv = crate::text::trim_vec(&v);
            crate::text::parse_u64_vec(&tv)
        },
        None => None,
    };
    let stable = src_len > 0 && match last {
        Some(prev) => {
            let diff = if src_len >= prev { src_len - prev } else { prev - src_len };
            let slack = if prev / 10 >= 16 { prev / 10 } else { 16 };
            prev > 0 && diff <= slack
        },
        None => false,
    };
    if src_len == 0 && dst_len == 0 {
        CaptureAction::Skip
    } else if (src_len == 0 && dst_len > 0) || (dst_len > 0 && src_len < dst_len / 2 && !stable) {
        CaptureAction::Refuse { record: src_len > 0 }
    } else {
        CaptureAction::Capture { stash: stable }
    }
}

/// An empty INI is never captured over the profile's copy, and a capture
/// under half the profile copy's size happens only as a stable repeat of a
/// size refused before.
pub proof fn lemma_capture_guard(src_len: u64, dst_len: u64, marker: Option<Seq<char>>)
    ensures
        capture_spec(src_len, dst_len, marker) matches CaptureAction::Capture { .. } ==> src_len > 0,
        (capture_spec(src_len, dst_len, marker) matches CaptureAction::Capture { .. } && src_len < dst_len / 2)
            ==> stable_repeat(src_len, refused_len(marker)),
{
}

/// One key an INI tweak changed: where it is, the value before any tweak
/// touched it (`None` when the key was absent), and what the last fragment
/// wrote, so a capture can tell a value that is still the tweak's from one
/// the game or the user changed while running.
#[derive(Debug, Clone, PartialEq, Eq)]
pub struct TweakedKey {
    pub section: String,
    pub key: String,
    pub before: Option<String>,
    pub after: String,
}

/// A tweak record as `(section, key, before, after)`.
pub type TweakM = (Seq<char>, Seq<char>, Option<Seq<char>>, Seq<char>);

impl TweakedKey {
    pub open spec fn model(&self) -> TweakM {
        (self.section@, self.key@, match self.before {
            Some(b) => Some(b@),
            None => None,
        }, self.after@)
    }
}

/// The models of a tweak record.
pub open spec fn record_view(v: Seq<TweakedKey>) -> Seq<TweakM> {
    v.map_values(|t: TweakedKey| t.model())
}

/// What one fragment line does while reading a fragment in section
/// `section`: a new section for a `[name]` header, a `(key, value)` write for
/// a line split on its first `=` (both trimmed, the key not empty) inside a
/// section, and nothing for blanks, `;` and `#` comments and anything else.
pub open spec fn fragment_line(l: Seq<char>) -> Option<Result<Seq<char>, (Seq<char>, Seq<char>)>> {
    let t = crate::text::trim(l);
    if t.len() == 0 || t[0] == ';' || t[0] == '#' {
        None
    } else {
        match crate::ini::section_header(t) {
            Some(sec) => Some(Ok(sec)),
            None => match crate::text::split_once(t, '=') {
                Some((k, v)) => if crate::text::trim(k).len() > 0 {
                    Some(Err((crate::text::trim(k), crate::text::trim(v))))
                } else {
                    None
                },
                None => None,
            },
        }
    }
}

/// The writes of a fragment's lines, as `(section, key, value)`, with the
/// section they end in; keys before any section are dropped (an INI's leading
/// keys belong to no section the engine reads).
pub open spec fn fragment_fold(ls: Seq<Seq<char>>) -> (Seq<(Seq<char>, Seq<char>, Seq<char>)>, Seq<char>)
    decreases ls.len(),
{
    if ls.len() == 0 {
        (Seq::empty(), Seq::empty())
    } else {
        let (w, sec) = fragment_fold(ls.drop_last());
        match fragment_line(ls.last()) {
            Some(Ok(s)) => (w, s),
            Some(Err((k, v))) => if sec.len() == 0 { (w, sec) } else { (w.push((sec, k, v)), sec) },
            None => (w, sec),
        }
    }
}

/// The writes an INI-tweak fragment makes, in order: `(section, key, value)`.
pub fn fragment_writes(fragment: &str) -> (r: Vec<(String, String, String)>)
    ensures
        r@.map_values(|w: (String, String, String)| (w.0@, w.1@, w.2@)) == fragment_fold(crate::text::lines(fragment@)).0,
{
    let v = crate::text::chars_of(fragment);
    let ls = crate::text::lines_vec(&v);
    let ghost lm = crate::text::lines(fragment@);
    let mut out: Vec<(String, String, String)> = Vec::new();
    let mut section: Vec<char> = Vec::new();
    let mut i: usize = 0;
    while i < ls.len()
        invariant
            i <= ls@.len(),
            ls@.len() == lm.len(),
            forall|k: int| 0 <= k < ls@.len() ==> (#[trigger] ls@[k])@ == lm[k],
            out@.map_values(|w: (String, String, String)| (w.0@, w.1@, w.2@)) == fragment_fold(lm.take(i as int)).0,
            section@ == fragment_fold(lm.take(i as int)).1,
        decreases ls.len() - i,
    {
        assert(lm.take(i + 1).drop_last() =~= lm.take(i as int));
        assert(lm.take(i + 1).last() == ls@[i as int]@);
        let t = crate::text::trim_vec(&ls[i]);
        proof {
            crate::text::lemma_trim_idem(ls@[i as int]@);
        }
        if t.len() == 0 || t[0] == ';' || t[0] == '#' {
        } else {
            match crate::ini::section_header_exec(&t) {
                Some(sec) => {
                    section = sec;
                },
                None => match crate::text::split_once_vec(&t, '=') {
                    Some((k, val)) => {
                        let kt = crate::text::trim_vec(&k);
                        if kt.len() > 0 && section.len() > 0 {
                            let vt = crate::text::trim_vec(&val);
                            let ghost before = out@.map_values(|w: (String, String, String)| (w.0@, w.1@, w.2@));
                            out.push((crate::text::string_of(&section), crate::text::string_of(&kt), crate::text::string_of(&vt)));
                            assert(out@.map_values(|w: (String, String, String)| (w.0@, w.1@, w.2@)) =~= before.push(
                                (section@, kt@, vt@),
                            ));
                        }
                    },
                    None => {},
                },
            }
        }
        i = i + 1;
    }
    assert(lm.take(i as int) =~= lm);
    out
}

/// The record entry for a section and key (ignoring ASCII case): the first.
pub open spec fn record_slot(rec: Seq<TweakM>, section: Seq<char>, key: Seq<char>) -> Option<int>
    decreases rec.len(),
{
    if rec.len() == 0 {
        None
    } else {
        match record_slot(rec.drop_last(), section, key) {
            Some(i) => Some(i),
            None => if crate::text::eq_ic(rec.last().0, section) && crate::text::eq_ic(rec.last().1, key) {
                Some(rec.len() - 1)
            } else {
                None
            },
        }
    }
}

/// Noting one tweak write: a key already written keeps the value from before
/// the first tweak and takes the new `after`; a new key is recorded with the
/// value it had (`before`).
pub open spec fn note_spec(rec: Seq<TweakM>, section: Seq<char>, key: Seq<char>, before: Option<Seq<char>>, value: Seq<char>) -> Seq<TweakM> {
    match record_slot(rec, section, key) {
        Some(i) => rec.update(i, (rec[i].0, rec[i].1, rec[i].2, value)),
        None => rec.push((section, key, before, value)),
    }
}

proof fn lemma_record_slot(rec: Seq<TweakM>, section: Seq<char>, key: Seq<char>)
    ensures
        record_slot(rec, section, key) matches Some(i) ==> 0 <= i < rec.len(),
    decreases rec.len(),
{
    if rec.len() > 0 {
        lemma_record_slot(rec.drop_last(), section, key);
    }
}

/// Note one tweak write in the record (see [`note_spec`]): only the first
/// fragment to touch a key records its original value.
pub fn note_tweak(record: &mut Vec<TweakedKey>, section: &str, key: &str, before: Option<String>, value: &str)
    ensures
        record_view(final(record)@) == note_spec(record_view(old(record)@), section@, key@, match before {
            Some(b) => Some(b@),
            None => None,
        }, value@),
{
    let ghost rv = record_view(record@);
    let mut i: usize = 0;
    assert(rv.take(0) =~= Seq::<TweakM>::empty());
    while i < record.len()
        invariant
            i <= record@.len(),
            rv == record_view(record@),
            rv == record_view(old(record)@),
            record_slot(rv.take(i as int), section@, key@) is None,
        decreases record.len() - i,
    {
        assert(rv.take(i + 1).drop_last() =~= rv.take(i as int));
        assert(rv.take(i + 1).last() == record@[i as int].model());
        if crate::text::eq_ic_str(record[i].section.as_str(), section) && crate::text::eq_ic_str(record[i].key.as_str(), key) {
            proof {
                crate::text::lemma_lower_len(section@);
                lemma_record_slot(rv, section@, key@);
                lemma_record_slot_prefix(rv, i as int + 1, section@, key@);
            }
            let old_entry = record[i].clone_key();
            record.set(i, TweakedKey { section: old_entry.section, key: old_entry.key, before: old_entry.before, after: value.to_owned() });
            assert(record_view(record@) =~= rv.update(i as int, (rv[i as int].0, rv[i as int].1, rv[i as int].2, value@)));
            return;
        }
        i = i + 1;
    }
    assert(rv.take(i as int) =~= rv);
    let ghost b = record_view(record@);
    record.push(TweakedKey { section: section.to_owned(), key: key.to_owned(), before, after: value.to_owned() });
    assert(record_view(record@) =~= b.push((section@, key@, match before {
        Some(x) => Some(x@),
        None => None,
    }, value@)));
}

/// A slot found in a prefix of the record is the slot of the whole record.
proof fn lemma_record_slot_prefix(rec: Seq<TweakM>, n: int, section: Seq<char>, key: Seq<char>)
    requires
        0 <= n <= rec.len(),
        record_slot(rec.take(n), section, key) is Some,
    ensures
        record_slot(rec, section, key) == record_slot(rec.take(n), section, key),
    decreases rec.len() - n,
{
    if n < rec.len() {
        assert(rec.take(n + 1).drop_last() =~= rec.take(n));
        lemma_record_slot_prefix(rec, n + 1, section, key);
    } else {
        assert(rec.take(n) =~= rec);
    }
}

impl TweakedKey {
    /// A copy of this record entry.
    pub fn clone_key(&self) -> (c: TweakedKey)
        ensures
            c.model() == self.model(),
    {
        TweakedKey {
            section: self.section.clone(),
            key: self.key.clone(),
            before: match &self.before {
                Some(b) => Some(b.clone()),
                None => None,
            },
            after: self.after.clone(),
        }
    }
}

} // verus!
