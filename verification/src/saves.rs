//! Save-game files: which names are saves and which are the script-extender
//! co-saves that travel with them.

use vstd::prelude::*;

use crate::archive::{ext_of, ext_exec_pub};

verus! {

/// The save-file extensions: `ess`, `fos`, `sfs`.
pub open spec fn save_exts() -> Seq<Seq<char>> {
    seq!["ess"@, "fos"@, "sfs"@]
}

/// The co-save extensions.
pub open spec fn cosave_exts() -> Seq<Seq<char>> {
    seq!["skse"@, "f4se"@, "nvse"@, "fose"@, "sfse"@, "obse"@]
}

fn in_list(list: &[&str], e: &[char]) -> (b: bool)
    ensures
        b == list@.map_values(|x: &str| x@).contains(e@),
{
    let ghost m = list@.map_values(|x: &str| x@);
    let mut i: usize = 0;
    while i < list.len()
        invariant
            i <= list@.len(),
            m == list@.map_values(|x: &str| x@),
            forall|j: int| 0 <= j < i ==> m[j] != e@,
        decreases list.len() - i,
    {
        let c = crate::text::chars_of(list[i]);
        if crate::text::eq_chars(&c, e) {
            assert(m[i as int] == e@);
            return true;
        }
        i = i + 1;
    }
    false
}

/// Save data: a save or its co-save, by extension (ignoring ASCII case).
pub fn is_save_data(name: &str) -> (b: bool)
    ensures
        b == (save_exts().contains(ext_of(name@)) || cosave_exts().contains(ext_of(name@))),
{
    let e = ext_exec_pub(name);
    let a = in_list(&["ess", "fos", "sfs"], &e);
    assert(["ess", "fos", "sfs"]@.map_values(|x: &str| x@) =~= save_exts());
    let b = in_list(&["skse", "f4se", "nvse", "fose", "sfse", "obse"], &e);
    assert(["skse", "f4se", "nvse", "fose", "sfse", "obse"]@.map_values(|x: &str| x@) =~= cosave_exts());
    a || b
}

/// A save as the user thinks of one: co-saves are not listed separately.
pub fn is_save_listing(name: &str) -> (b: bool)
    ensures
        b == save_exts().contains(ext_of(name@)),
{
    let e = ext_exec_pub(name);
    let a = in_list(&["ess", "fos", "sfs"], &e);
    assert(["ess", "fos", "sfs"]@.map_values(|x: &str| x@) =~= save_exts());
    a
}

/// One save file in a profile's `saves/` directory.
#[derive(Debug, Clone)]
pub struct SaveEntry {
    /// The file's name.
    pub filename: String,
    /// Its path.
    pub path: String,
    /// Size in bytes.
    pub size: u64,
    /// Last-modified time, in nanoseconds since the epoch.
    pub mtime: u128,
}

/// Where a save with time `t` goes in a newest-first list: after every entry
/// at least as new, so saves of the same time keep their order.
pub open spec fn time_pos(sorted: Seq<SaveEntry>, t: u128) -> int
    decreases sorted.len(),
{
    if sorted.len() == 0 {
        0
    } else if sorted.last().mtime < t {
        time_pos(sorted.drop_last(), t)
    } else {
        sorted.len() as int
    }
}

/// Whether a file is listed as a save: not a dotfile, and a save by its
/// extension.
pub open spec fn listed(name: Seq<char>) -> bool {
    !(name.len() > 0 && name[0] == '.') && save_exts().contains(ext_of(name))
}

/// The listed saves among the files, newest first; saves of the same time
/// keep the order they were found in.
pub open spec fn savegames_spec(files: Seq<SaveEntry>) -> Seq<SaveEntry>
    decreases files.len(),
{
    if files.len() == 0 {
        Seq::empty()
    } else {
        let p = savegames_spec(files.drop_last());
        let f = files.last();
        if listed(f.filename@) { p.insert(time_pos(p, f.mtime), f) } else { p }
    }
}

/// How many saves a profile's list shows at most: the newest ones.
pub const MAX_LISTED_SAVES: usize = 1000;

/// The list a profile shows: the newest [`MAX_LISTED_SAVES`] of the listed
/// saves, newest first.
pub open spec fn shown_saves(files: Seq<SaveEntry>) -> Seq<SaveEntry> {
    let all = savegames_spec(files);
    if all.len() <= MAX_LISTED_SAVES { all } else { all.take(MAX_LISTED_SAVES as int) }
}

proof fn lemma_time_pos(sorted: Seq<SaveEntry>, t: u128)
    ensures
        0 <= time_pos(sorted, t) <= sorted.len(),
    decreases sorted.len(),
{
    if sorted.len() > 0 {
        lemma_time_pos(sorted.drop_last(), t);
    }
}

/// The saves among the regular files found in a profile's `saves/`
/// directory, newest first and capped to the newest [`MAX_LISTED_SAVES`].
/// Dotfiles and files that are not saves (co-saves, cloud-sync metadata) are
/// skipped.
pub fn savegames(files: Vec<SaveEntry>) -> (r: Vec<SaveEntry>)
    ensures
        r@ == shown_saves(files@),
{
    let mut out: Vec<SaveEntry> = Vec::new();
    let mut i: usize = 0;
    let n = files.len();
    let mut files = files;
    let ghost all = files@;
    assert(all.skip(0) =~= all);
    assert(out@ =~= savegames_spec(all.take(0)));
    while i < n
        invariant
            n == all.len(),
            files@ == all.skip(i as int),
            i <= n,
            out@ == savegames_spec(all.take(i as int)),
        decreases n - i,
    {
        assert(all.take(i + 1).drop_last() =~= all.take(i as int));
        assert(all.take(i + 1).last() == all[i as int]);
        assert(files@.len() > 0 && files@[0] == all[i as int]);
        let f = files.remove(0);
        assert(files@ =~= all.skip(i + 1));
        let dot = {
            let c = crate::text::chars_of(f.filename.as_str());
            c.len() > 0 && c[0] == '.'
        };
        if !dot && is_save_listing(f.filename.as_str()) {
            let ghost sv = out@;
            let mut k: usize = out.len();
            assert(sv.take(k as int) =~= sv);
            while k > 0 && out[k - 1].mtime < f.mtime
                invariant
                    k <= out@.len(),
                    sv == out@,
                    time_pos(sv, f.mtime) == time_pos(sv.take(k as int), f.mtime),
                decreases k,
            {
                assert(sv.take(k as int).drop_last() =~= sv.take(k - 1));
                assert(sv.take(k as int).last() == sv[k - 1]);
                k = k - 1;
            }
            proof {
                if k > 0 {
                    assert(sv.take(k as int).last() == sv[k - 1]);
                }
            }
            out.insert(k, f);
        }
        i = i + 1;
    }
    assert(all.take(n as int) =~= all);
    out.truncate(MAX_LISTED_SAVES);
    out
}

/// What a profile's save-seeding marker records.
#[derive(Debug, Clone, PartialEq, Eq)]
pub enum SeedMarker {
    /// No marker: saves were never adopted.
    Absent,
    /// Adoption finished.
    Done,
    /// A previous adoption failed on these files (lowercased); only they are
    /// retried.
    Partial(Vec<String>),
}

/// A marker as `(kind, pending)`: 0 absent, 1 done, 2 partial.
pub type MarkerM = (u8, Seq<Seq<char>>);

impl SeedMarker {
    pub open spec fn model(&self) -> MarkerM {
        match self {
            SeedMarker::Absent => (0, Seq::empty()),
            SeedMarker::Done => (1, Seq::empty()),
            SeedMarker::Partial(p) => (2, p@.map_values(|s: String| s@)),
        }
    }
}

/// What a marker text says: `partial` on its first line, then the failed
/// names one per line (trimmed, lowercased); anything else is done.
pub open spec fn marker_of(text: Seq<char>) -> MarkerM {
    let ls = crate::text::lines(text);
    if ls.len() > 0 && crate::text::trim(ls[0]) == "partial"@ {
        (2, ls.drop_first().map_values(|l: Seq<char>| crate::text::lower(crate::text::trim(l))))
    } else {
        (1, Seq::empty())
    }
}

/// Read a seeding marker: `None` when there is none (or it cannot be read).
pub fn read_seed_marker(state: Option<&str>) -> (m: SeedMarker)
    ensures
        m.model() == match state {
            Some(t) => marker_of(t@),
            None => (0u8, Seq::<Seq<char>>::empty()),
        },
{
    match state {
        None => SeedMarker::Absent,
        Some(t) => {
            proof { reveal_strlit("partial"); }
            let v = crate::text::chars_of(t);
            let ls = crate::text::lines_vec(&v);
            if ls.len() == 0 {
                return SeedMarker::Done;
            }
            let first = crate::text::trim_vec(&ls[0]);
            let word = crate::text::chars_of("partial");
            if !crate::text::eq_chars(&first, &word) {
                return SeedMarker::Done;
            }
            let ghost lm = crate::text::lines(t@);
            let ghost want = lm.drop_first().map_values(|l: Seq<char>| crate::text::lower(crate::text::trim(l)));
            let mut pending: Vec<String> = Vec::new();
            let mut i: usize = 1;
            while i < ls.len()
                invariant
                    1 <= i <= ls@.len(),
                    ls@.len() == lm.len(),
                    forall|k: int| 0 <= k < ls@.len() ==> (#[trigger] ls@[k])@ == lm[k],
                    want == lm.drop_first().map_values(|l: Seq<char>| crate::text::lower(crate::text::trim(l))),
                    pending@.map_values(|s: String| s@) == want.take(i - 1),
                decreases ls.len() - i,
            {
                let tv = crate::text::trim_vec(&ls[i]);
                let lv = crate::text::lower_vec(&tv);
                let ghost p0 = pending@.map_values(|s: String| s@);
                let sv = crate::text::string_of(&lv);
                assert(ls@[i as int]@ == lm[i as int]);
                assert(lm.drop_first()[i - 1] == lm[i as int]);
                assert(want[i - 1] == crate::text::lower(crate::text::trim(lm[i as int])));
                assert(sv@ == want[i - 1]);
                pending.push(sv);
                assert(pending@.map_values(|s: String| s@) =~= p0.push(sv@));
                assert(want.take(i as int) =~= want.take(i - 1).push(want[i - 1]));
                i = i + 1;
            }
            assert(want.take(i - 1) =~= want);
            SeedMarker::Partial(pending)
        },
    }
}

/// Whether seeding copies a save file that is not in the profile yet: any,
/// unless a partial adoption is being resumed, which fetches only the files
/// that failed last time (ignoring ASCII case).
pub fn seed_wanted(marker: &SeedMarker, name: &str) -> (b: bool)
    ensures
        b == (marker.model().0 != 2 || marker.model().1.contains(crate::text::lower(name@))),
{
    match marker {
        SeedMarker::Partial(p) => {
            let v = crate::text::chars_of(name);
            let key = crate::text::lower_vec(&v);
            let found = holds_name(p, &key);
            assert(marker.model().1 =~= p@.map_values(|s: String| s@));
            found
        },
        _ => true,
    }
}

fn holds_name(p: &Vec<String>, key: &[char]) -> (b: bool)
    ensures
        b == p@.map_values(|s: String| s@).contains(key@),
{
    let ghost pm = p@.map_values(|s: String| s@);
    let mut i: usize = 0;
    while i < p.len()
        invariant
            i <= p@.len(),
            pm == p@.map_values(|s: String| s@),
            forall|j: int| 0 <= j < i ==> pm[j] != key@,
        decreases p.len() - i,
    {
        let c = crate::text::chars_of(p[i].as_str());
        if crate::text::eq_chars(&c, key) {
            assert(pm[i as int] == key@);
            return true;
        }
        i = i + 1;
    }
    false
}

/// Names joined by line breaks.
pub open spec fn joined_lines(names: Seq<Seq<char>>) -> Seq<char>
    decreases names.len(),
{
    if names.len() == 0 {
        Seq::empty()
    } else if names.len() == 1 {
        names[0]
    } else {
        joined_lines(names.drop_last()) + seq!['\n'] + names.last()
    }
}

/// The marker a seeding pass leaves: the failed names after `partial` when
/// any failed, `done` when it saw save data, and none for a directory that
/// held no save data yet.
pub open spec fn marker_after(failed: Seq<Seq<char>>, saw_any: bool) -> Option<Seq<char>> {
    if failed.len() > 0 {
        Some("partial\n"@ + joined_lines(failed))
    } else if saw_any {
        Some("done"@)
    } else {
        None
    }
}

/// The marker text to leave after seeding.
pub fn seed_marker_text(failed: &[String], saw_any: bool) -> (r: Option<String>)
    ensures
        match r {
            Some(s) => marker_after(failed@.map_values(|x: String| x@), saw_any) == Some(s@),
            None => marker_after(failed@.map_values(|x: String| x@), saw_any) is None,
        },
{
    let ghost fm = failed@.map_values(|x: String| x@);
    if failed.len() > 0 {
        let mut out = "partial\n".to_owned();
        let ghost base = out@;
        let mut i: usize = 0;
        assert(joined_lines(fm.take(0)) =~= Seq::<char>::empty());
        while i < failed.len()
            invariant
                i <= failed@.len(),
                fm == failed@.map_values(|x: String| x@),
                out@ == base + joined_lines(fm.take(i as int)),
            decreases failed.len() - i,
        {
            assert(fm.take(i + 1).drop_last() =~= fm.take(i as int));
            assert(fm.take(i + 1).last() == failed@[i as int]@);
            if i > 0 {
                crate::text::push_char(&mut out, '\n');
            }
            crate::text::push_str(&mut out, failed[i].as_str());
            assert(out@ =~= base + joined_lines(fm.take(i + 1)));
            i = i + 1;
        }
        assert(fm.take(i as int) =~= fm);
        Some(out)
    } else if saw_any {
        Some("done".to_owned())
    } else {
        None
    }
}

/// `Path::file_stem` of a file name: the name before its last `.`, unless
/// that dot is the first character (or the name is `..`).
pub open spec fn file_stem(name: Seq<char>) -> Seq<char> {
    if name == ".."@ {
        name
    } else {
        match crate::text::rfind_char(name, '.') {
            Some(i) => if i == 0 { name } else { name.take(i) },
            None => name,
        }
    }
}

/// Whether `name` is a co-save of the save `save_name`: the same stem and a
/// co-save extension, both ignoring ASCII case.
pub open spec fn is_cosave_of(save_name: Seq<char>, name: Seq<char>) -> bool {
    let l = crate::text::lower(name);
    match crate::text::rsplit_once(l, '.') {
        Some((s, e)) => s == crate::text::lower(file_stem(save_name)) && cosave_exts().contains(e),
        None => false,
    }
}

/// Whether the file `name` beside the save `save_name` is one of its
/// co-saves, which must travel with it (same stem, co-save extension, both
/// ignoring ASCII case).
pub fn cosave_sibling(save_name: &str, name: &str) -> (b: bool)
    ensures
        b == is_cosave_of(save_name@, name@),
{
    proof { reveal_strlit(".."); }
    let sv = crate::text::chars_of(save_name);
    let dots = crate::text::chars_of("..");
    proof {
        crate::text::lemma_rfind_char_some(save_name@, '.');
    }
    let stem = if crate::text::eq_chars(&sv, &dots) {
        sv
    } else {
        match crate::text::rfind_char_exec(&sv, '.') {
            Some(i) => if i == 0 { sv } else { crate::text::slice_vec(&sv, 0, i) },
            None => sv,
        }
    };
    assert(stem@ == file_stem(save_name@)) by {
        if save_name@ != ".."@ {
            match crate::text::rfind_char(save_name@, '.') {
                Some(i) => if i != 0 {
                    assert(stem@ =~= save_name@.take(i));
                },
                None => {},
            }
        }
    }
    let want = crate::text::lower_vec(&stem);
    let nv = crate::text::chars_of(name);
    let l = crate::text::lower_vec(&nv);
    match crate::text::rsplit_once_vec(&l, '.') {
        Some((s, e)) => {
            crate::text::eq_chars(&s, &want) && in_list(&["skse", "f4se", "nvse", "fose", "sfse", "obse"], &e) && {
                assert(["skse", "f4se", "nvse", "fose", "sfse", "obse"]@.map_values(|x: &str| x@) =~= cosave_exts());
                true
            }
        },
        None => false,
    }
}

/// A final line break adds no line.
proof fn lemma_lines_trailing(x: Seq<char>)
    requires
        x.len() > 0,
        x.last() != '\n',
    ensures
        crate::text::lines(x + seq!['\n']) == crate::text::lines(x),
    decreases x.len(),
{
    let y = x + seq!['\n'];
    crate::text::lemma_find_char_some(x, '\n');
    match crate::text::find_char(x, '\n') {
        Some(i) => {
            crate::text::lemma_find_char_at(y, '\n', i);
            assert(y.take(i) =~= x.take(i));
            let r = x.skip(i + 1);
            assert(r.len() > 0) by {
                if r.len() == 0 {
                    assert(x.last() == x[i]);
                }
            }
            assert(r.last() == x.last());
            assert(y.skip(i + 1) =~= r + seq!['\n']);
            lemma_lines_trailing(r);
        },
        None => {
            crate::text::lemma_find_char_at(y, '\n', x.len() as int);
            assert(y.take(x.len() as int) =~= x);
            assert(y.skip(x.len() as int + 1) =~= Seq::<char>::empty());
            assert(crate::text::lines(Seq::<char>::empty()) =~= Seq::<Seq<char>>::empty());
        },
    }
}

/// Names fit for a marker line: not empty, trimmed, on one line.
pub open spec fn marker_names(names: Seq<Seq<char>>) -> bool {
    forall|i: int| 0 <= i < names.len() ==> {
        let n = #[trigger] names[i];
        n.len() > 0 && crate::text::trim(n) == n && forall|j: int| 0 <= j < n.len() ==> n[j] != '\n'
    }
}

proof fn lemma_joined_lines(names: Seq<Seq<char>>)
    requires
        names.len() > 0,
        marker_names(names),
    ensures
        crate::text::lines(joined_lines(names) + seq!['\n']) == names,
        joined_lines(names).len() > 0,
        joined_lines(names).last() != '\n',
    decreases names.len(),
{
    let l = names.last();
    assert(l == names[names.len() - 1]);
    crate::text::lemma_trim_idem(l);
    crate::text::lemma_lines_one(l);
    assert(crate::text::strip_cr(l) == l);
    if names.len() == 1 {
        assert(names =~= seq![l]);
    } else {
        let q = names.drop_last();
        assert(marker_names(q)) by {
            assert forall|i: int| 0 <= i < q.len() implies #[trigger] q[i] == names[i] by {}
        }
        lemma_joined_lines(q);
        let a = joined_lines(q) + seq!['\n'];
        assert(joined_lines(names) + seq!['\n'] =~= a + (l + seq!['\n']));
        crate::text::lemma_lines_append(a, l + seq!['\n']);
        assert(q.push(l) =~= names);
        assert(joined_lines(names).last() == l.last());
    }
}

/// The marker a partial adoption leaves reads back as exactly the files that
/// failed (so the next pass retries those and nothing else), and the one a
/// finished adoption leaves reads back as done.
pub proof fn lemma_marker_round_trip(failed: Seq<Seq<char>>, saw_any: bool)
    requires
        marker_names(failed),
    ensures
        failed.len() > 0 ==> marker_of(marker_after(failed, saw_any)->0)
            == (2u8, failed.map_values(|n: Seq<char>| crate::text::lower(n))),
        failed.len() == 0 && saw_any ==> marker_of(marker_after(failed, saw_any)->0) == (1u8, Seq::<Seq<char>>::empty()),
{
    reveal_strlit("partial\n");
    reveal_strlit("partial");
    reveal_strlit("done");
    if failed.len() > 0 {
        lemma_joined_lines(failed);
        let j = joined_lines(failed);
        lemma_lines_trailing(j);
        let h = "partial"@;
        assert("partial\n"@ =~= h + seq!['\n']);
        crate::text::lemma_lines_cons(h, j);
        assert(crate::text::strip_cr(h) == h);
        crate::text::lemma_trim_fixed(h);
        let ls = crate::text::lines("partial\n"@ + j);
        assert("partial\n"@ + j =~= h + seq!['\n'] + j);
        assert(ls.drop_first() =~= failed);
        assert forall|i: int| 0 <= i < failed.len() implies crate::text::trim(#[trigger] failed[i]) == failed[i] by {}
        assert(ls.drop_first().map_values(|l: Seq<char>| crate::text::lower(crate::text::trim(l)))
            =~= failed.map_values(|n: Seq<char>| crate::text::lower(n)));
    } else if saw_any {
        let d = "done"@;
        crate::text::lemma_find_char_none(d, '\n');
        assert(crate::text::strip_cr(d) == d);
        assert(crate::text::lines(d) =~= seq![d]);
        crate::text::lemma_trim_fixed(d);
        assert(d.len() != "partial"@.len());
    }
}

/// How a seeding pass starts.
#[derive(Debug, Clone, Copy, PartialEq, Eq, Structural)]
pub enum SeedStart {
    /// Adoption already finished: nothing to do.
    Finished,
    /// A profile from before the marker whose saves folder holds something:
    /// those are its adoption. Record it as done and stop.
    StampDone,
    /// Go through the source's saves; `resuming` a partial adoption fetches
    /// only the files that failed last time.
    Adopt { resuming: bool },
}

/// The start of a seeding pass, from the marker and whether the profile's
/// saves folder already holds anything.
pub open spec fn seed_start_spec(marker: MarkerM, dst_nonempty: bool) -> SeedStart {
    if marker.0 == 1 {
        SeedStart::Finished
    } else if marker.0 == 2 {
        SeedStart::Adopt { resuming: true }
    } else if dst_nonempty {
        SeedStart::StampDone
    } else {
        SeedStart::Adopt { resuming: false }
    }
}

/// How a seeding pass starts (see [`seed_start_spec`]).
pub fn seed_start(marker: &SeedMarker, dst_nonempty: bool) -> (r: SeedStart)
    ensures
        r == seed_start_spec(marker.model(), dst_nonempty),
{
    match marker {
        SeedMarker::Done => SeedStart::Finished,
        SeedMarker::Partial(_) => SeedStart::Adopt { resuming: true },
        SeedMarker::Absent => if dst_nonempty {
            SeedStart::StampDone
        } else {
            SeedStart::Adopt { resuming: false }
        },
    }
}

/// What a seeding pass does with one entry of the source folder.
#[derive(Debug, Clone, Copy, PartialEq, Eq, Structural)]
pub enum SeedFile {
    /// Not save data (or not a regular file): not looked at.
    Ignore,
    /// Save data that is not copied: already in the profile, or not one of
    /// the files a resumed adoption fetches.
    Seen,
    /// Save data to copy into the profile.
    Copy,
}

/// The decision for one source entry `name`: save data that is a regular
/// file is copied unless the profile has it already or a resumed adoption
/// does not want it.
pub open spec fn seed_file_spec(marker: MarkerM, name: Seq<char>, is_file: bool, in_profile: bool) -> SeedFile {
    if !(save_exts().contains(ext_of(name)) || cosave_exts().contains(ext_of(name))) || !is_file {
        SeedFile::Ignore
    } else if in_profile || !(marker.0 != 2 || marker.1.contains(crate::text::lower(name))) {
        SeedFile::Seen
    } else {
        SeedFile::Copy
    }
}

/// What to do with one source entry (see [`seed_file_spec`]).
pub fn seed_file(marker: &SeedMarker, name: &str, is_file: bool, in_profile: bool) -> (r: SeedFile)
    ensures
        r == seed_file_spec(marker.model(), name@, is_file, in_profile),
{
    if !is_save_data(name) || !is_file {
        SeedFile::Ignore
    } else if in_profile || !seed_wanted(marker, name) {
        SeedFile::Seen
    } else {
        SeedFile::Copy
    }
}

/// Where a seeding pass stands: how many files it copied, which failed, and
/// whether it saw any save data.
#[derive(Debug, Clone)]
pub struct SeedProgress {
    pub copied: usize,
    pub failed: Vec<String>,
    pub saw_any: bool,
}

/// One step of a seeding pass: an entry's decision and, for a copy, whether
/// the copy succeeded. Ignored entries change nothing; any save data is
/// seen; a copy counts as copied or as failed.
pub fn seed_step(progress: &mut SeedProgress, action: SeedFile, name: &str, copied_ok: bool)
    requires
        old(progress).copied < usize::MAX,
    ensures
        final(progress).saw_any == (old(progress).saw_any || action != SeedFile::Ignore),
        final(progress).copied == old(progress).copied + (if action == SeedFile::Copy && copied_ok { 1usize } else { 0usize }),
        final(progress).failed@.map_values(|x: String| x@) == if action == SeedFile::Copy && !copied_ok {
            old(progress).failed@.map_values(|x: String| x@).push(name@)
        } else {
            old(progress).failed@.map_values(|x: String| x@)
        },
{
    match action {
        SeedFile::Ignore => {},
        SeedFile::Seen => {
            progress.saw_any = true;
        },
        SeedFile::Copy => {
            progress.saw_any = true;
            if copied_ok {
                progress.copied = progress.copied + 1;
            } else {
                let ghost before = progress.failed@.map_values(|x: String| x@);
                progress.failed.push(name.to_owned());
                assert(progress.failed@.map_values(|x: String| x@) =~= before.push(name@));
            }
        },
    }
}

/// A resumed adoption only fetches what failed last time: under a partial
/// marker, an entry is copied only when the marker lists it (ignoring ASCII
/// case), and never when the profile has it already.
pub proof fn lemma_resume_fetches_only_failures(failed: Seq<Seq<char>>, name: Seq<char>, is_file: bool, in_profile: bool)
    ensures
        seed_file_spec((2u8, failed), name, is_file, in_profile) == SeedFile::Copy ==> failed.contains(
            crate::text::lower(name),
        ) && !in_profile,
{
}

/// Seeding is once, ever: a pass that saw save data and had no failure
/// leaves the marker `done`, and every later pass then finishes at once.
pub proof fn lemma_seeding_is_once(dst_nonempty: bool)
    ensures
        marker_after(Seq::empty(), true) == Some("done"@),
        seed_start_spec(marker_of("done"@), dst_nonempty) == SeedStart::Finished,
{
    reveal_strlit("done");
    reveal_strlit("partial");
    let t = "done"@;
    crate::text::lemma_lines_no_newline(t);
    crate::text::lemma_trim_fixed(t);
    assert(t != "partial"@) by {
        assert(t.len() != "partial"@.len());
    }
}

} // verus!
