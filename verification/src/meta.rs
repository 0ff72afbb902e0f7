//! Per-mod `meta.ini` in Mod Organizer 2's dialect. `[General]` values are kept
//! raw (everything after the first `=`), everything from the first non-key
//! line on is kept verbatim, the line-ending style is remembered, and only a
//! real change marks the metadata dirty, so an untouched file is never
//! rewritten and a single changed field leaves every other byte alone.

use vstd::prelude::*;

use crate::ini::{
    is_crlf, is_crlf_exec, key_value, key_value_exec, lemma_seg_len, section_header,
    section_header_exec, seg_body, seg_body_exec, seg_end, seg_len,
};
use crate::text::{
    chars_of, dec, eq_ic, eq_ic_chars, eq_ic_str, lines, lines_vec, parse_u32_spec, parse_u32_vec,
    parse_u64_spec, parse_u64_vec, push_char, push_chars, push_str, slice_vec, string_of, trim,
    trim_vec, u64_to_string,
};

verus! {

/// The mathematical model of a `meta.ini`.
pub struct MetaM {
    /// `[General]` entries as `(key, raw value)`, in file order.
    pub general: Seq<(Seq<char>, Seq<char>)>,
    /// Everything after the `[General]` entries, verbatim.
    pub tail: Seq<char>,
    /// Enabled INI-tweak fragment names, in application order.
    pub ini_tweaks: Seq<Seq<char>>,
    /// The BAIN sub-packages the last install ticked.
    pub bain_options: Seq<Seq<char>>,
    /// The source used CRLF line endings.
    pub crlf: bool,
    /// Something changed since the metadata was read.
    pub dirty: bool,
}

/// Per-mod metadata, read non-destructively; writing preserves every untouched
/// key, later section and the original line endings.
#[derive(Debug, Clone)]
pub struct ModMeta {
    general: Vec<(String, String)>,
    tail: String,
    ini_tweaks: Vec<String>,
    bain_options: Vec<String>,
    crlf: bool,
    dirty: bool,
}

/// The views of a list of key/value pairs.
pub open spec fn pairs_view(v: Seq<(String, String)>) -> Seq<(Seq<char>, Seq<char>)> {
    v.map_values(|p: (String, String)| (p.0@, p.1@))
}

/// The views of a list of strings.
pub open spec fn strs_view(v: Seq<String>) -> Seq<Seq<char>> {
    v.map_values(|s: String| s@)
}

impl View for ModMeta {
    type V = MetaM;

    closed spec fn view(&self) -> MetaM {
        MetaM {
            general: pairs_view(self.general@),
            tail: self.tail@,
            ini_tweaks: strs_view(self.ini_tweaks@),
            bain_options: strs_view(self.bain_options@),
            crlf: self.crlf,
            dirty: self.dirty,
        }
    }
}

/// The index of the first entry whose key equals `key` ignoring ASCII case.
pub open spec fn find_key(g: Seq<(Seq<char>, Seq<char>)>, key: Seq<char>) -> Option<int>
    decreases g.len(),
{
    if g.len() == 0 {
        None
    } else if eq_ic(g[0].0, key) {
        Some(0)
    } else {
        match find_key(g.drop_first(), key) {
            Some(i) => Some(i + 1),
            None => None,
        }
    }
}

/// The raw value of a `[General]` key, matched ignoring ASCII case.
pub open spec fn raw_of(g: Seq<(Seq<char>, Seq<char>)>, key: Seq<char>) -> Option<Seq<char>> {
    match find_key(g, key) {
        Some(i) => Some(g[i].1),
        None => None,
    }
}

/// One layer of surrounding double quotes removed from the trimmed value.
pub open spec fn unquote(v: Seq<char>) -> Seq<char> {
    let t = trim(v);
    if t.len() >= 2 && t[0] == '"' && t.last() == '"' {
        t.subrange(1, t.len() - 1)
    } else {
        t
    }
}

/// A string value: unquoted, with an empty value treated as absent.
pub open spec fn string_of_key(g: Seq<(Seq<char>, Seq<char>)>, key: Seq<char>) -> Option<Seq<char>> {
    match raw_of(g, key) {
        Some(v) => if unquote(v).len() > 0 { Some(unquote(v)) } else { None },
        None => None,
    }
}

/// A flag value: the trimmed raw value is `1` or `true`.
pub open spec fn flag_of(g: Seq<(Seq<char>, Seq<char>)>, key: Seq<char>) -> bool {
    match raw_of(g, key) {
        Some(v) => trim(v) == "1"@ || trim(v) == "true"@,
        None => false,
    }
}

/// A number value: the trimmed raw value as a non-zero `u64`.
pub open spec fn number_of(g: Seq<(Seq<char>, Seq<char>)>, key: Seq<char>) -> Option<u64> {
    match raw_of(g, key) {
        Some(v) => match parse_u64_spec(trim(v)) {
            Some(n) => if n != 0 { Some(n) } else { None },
            None => None,
        },
        None => None,
    }
}

/// `<...>` tags removed, trimmed.
pub open spec fn strip_tags(s: Seq<char>) -> Seq<char> {
    trim(untagged(s, false))
}

/// The characters of `s` outside tags, given whether it starts inside one.
pub open spec fn untagged(s: Seq<char>, in_tag: bool) -> Seq<char>
    decreases s.len(),
{
    if s.len() == 0 {
        Seq::empty()
    } else if s[0] == '<' {
        untagged(s.drop_first(), true)
    } else if s[0] == '>' {
        untagged(s.drop_first(), false)
    } else if in_tag {
        untagged(s.drop_first(), true)
    } else {
        seq![s[0]] + untagged(s.drop_first(), false)
    }
}

/// The entries after `set(key, v)`: the first matching entry's value replaced,
/// or the pair appended.
pub open spec fn set_general(g: Seq<(Seq<char>, Seq<char>)>, key: Seq<char>, v: Seq<char>) -> Seq<(Seq<char>, Seq<char>)> {
    match find_key(g, key) {
        Some(i) => g.update(i, (g[i].0, v)),
        None => g.push((key, v)),
    }
}

pub proof fn lemma_find_key(g: Seq<(Seq<char>, Seq<char>)>, key: Seq<char>)
    ensures
        match find_key(g, key) {
            Some(i) => 0 <= i < g.len() && eq_ic(g[i].0, key) && forall|j: int| 0 <= j < i ==> !eq_ic(#[trigger] g[j].0, key),
            None => forall|j: int| 0 <= j < g.len() ==> !eq_ic(#[trigger] g[j].0, key),
        },
    decreases g.len(),
{
    if g.len() > 0 && !eq_ic(g[0].0, key) {
        lemma_find_key(g.drop_first(), key);
        assert forall|j: int| 1 <= j < g.len() implies g[j] == g.drop_first()[j - 1] by {}
    }
}

pub proof fn lemma_find_key_at(g: Seq<(Seq<char>, Seq<char>)>, key: Seq<char>, i: int)
    requires
        0 <= i <= g.len(),
        i < g.len() ==> eq_ic(g[i].0, key),
        forall|j: int| 0 <= j < i ==> !eq_ic(#[trigger] g[j].0, key),
    ensures
        find_key(g, key) == (if i < g.len() { Some(i) } else { None::<int> }),
{
    lemma_find_key(g, key);
    match find_key(g, key) {
        Some(k) => {
            if k > i {
                assert(!eq_ic(g[i].0, key));
            }
        },
        None => {},
    }
}

/// Reading a key back after setting it gives the value set.
pub proof fn lemma_raw_after_set(g: Seq<(Seq<char>, Seq<char>)>, key: Seq<char>, v: Seq<char>)
    ensures
        raw_of(set_general(g, key, v), key) == Some(v),
{
    lemma_find_key(g, key);
    let h = set_general(g, key, v);
    match find_key(g, key) {
        Some(i) => {
            lemma_find_key_at(h, key, i);
        },
        None => {
            assert(eq_ic(h[g.len() as int].0, key));
            lemma_find_key_at(h, key, g.len() as int);
        },
    }
}

fn unquote_exec(v: &[char]) -> (r: Vec<char>)
    ensures
        r@ == unquote(v@),
{
    let t = trim_vec(v);
    let n = t.len();
    if n >= 2 && t[0] == '"' && t[n - 1] == '"' {
        let r = slice_vec(&t, 1, n - 1);
        r
    } else {
        t
    }
}

fn strip_tags_exec(s: &[char]) -> (r: Vec<char>)
    ensures
        r@ == strip_tags(s@),
{
    let mut out: Vec<char> = Vec::new();
    let mut in_tag = false;
    let mut i: usize = 0;
    assert(s@.skip(0) =~= s@);
    while i < s.len()
        invariant
            i <= s@.len(),
            untagged(s@, false) == out@ + untagged(s@.skip(i as int), in_tag),
        decreases s.len() - i,
    {
        let c = s[i];
        assert(s@.skip(i as int)[0] == c);
        assert(s@.skip(i as int).drop_first() =~= s@.skip(i + 1));
        if c == '<' {
            in_tag = true;
        } else if c == '>' {
            in_tag = false;
        } else if !in_tag {
            let ghost before = out@;
            out.push(c);
            assert(before + (seq![c] + untagged(s@.skip(i + 1), false)) =~= out@ + untagged(s@.skip(i + 1), false));
        }
        i = i + 1;
    }
    assert(out@ + untagged(s@.skip(i as int), in_tag) =~= out@);
    trim_vec(&out)
}

fn str_is(v: &[char], s: &str) -> (b: bool)
    ensures
        b == (v@ == s@),
{
    let w = chars_of(s);
    crate::text::eq_chars(v, &w)
}

impl ModMeta {
    /// Empty metadata: no keys, no tail, LF line endings, clean.
    pub fn new() -> (m: ModMeta)
        ensures
            m@ == (MetaM {
                general: Seq::empty(),
                tail: Seq::empty(),
                ini_tweaks: Seq::empty(),
                bain_options: Seq::empty(),
                crlf: false,
                dirty: false,
            }),
    {
        let m = ModMeta {
            general: Vec::new(),
            tail: String::new(),
            ini_tweaks: Vec::new(),
            bain_options: Vec::new(),
            crlf: false,
            dirty: false,
        };
        assert(pairs_view(m.general@) =~= Seq::empty());
        assert(strs_view(m.ini_tweaks@) =~= Seq::empty());
        assert(strs_view(m.bain_options@) =~= Seq::empty());
        m
    }

    /// The index of the first `[General]` entry whose key matches.
    fn slot(&self, key: &str) -> (r: Option<usize>)
        ensures
            match r {
                Some(i) => find_key(self@.general, key@) == Some(i as int) && i < self.general@.len(),
                None => find_key(self@.general, key@) is None,
            },
    {
        let ghost g = self@.general;
        let mut i: usize = 0;
        while i < self.general.len()
            invariant
                i <= self.general@.len(),
                g == self@.general,
                g == pairs_view(self.general@),
                forall|j: int| 0 <= j < i ==> !eq_ic(#[trigger] g[j].0, key@),
            decreases self.general.len() - i,
        {
            if eq_ic_str(self.general[i].0.as_str(), key) {
                proof {
                    lemma_find_key_at(g, key@, i as int);
                }
                return Some(i);
            }
            i = i + 1;
        }
        proof {
            lemma_find_key_at(g, key@, i as int);
        }
        None
    }

    /// The raw value (everything after `=`) of a `[General]` key.
    fn raw(&self, key: &str) -> (r: Option<Vec<char>>)
        ensures
            match r {
                Some(v) => raw_of(self@.general, key@) == Some(v@),
                None => raw_of(self@.general, key@) is None,
            },
    {
        match self.slot(key) {
            Some(i) => Some(chars_of(self.general[i].1.as_str())),
            None => None,
        }
    }

    /// A `[General]` string value, unquoted, with empty treated as absent.
    fn string(&self, key: &str) -> (r: Option<String>)
        ensures
            opt_str(r) == string_of_key(self@.general, key@),
    {
        match self.raw(key) {
            Some(v) => {
                let u = unquote_exec(&v);
                if u.len() > 0 {
                    Some(string_of(&u))
                } else {
                    None
                }
            },
            None => None,
        }
    }

    fn flag(&self, key: &str) -> (b: bool)
        ensures
            b == flag_of(self@.general, key@),
    {
        match self.raw(key) {
            Some(v) => {
                let t = trim_vec(&v);
                str_is(&t, "1") || str_is(&t, "true")
            },
            None => false,
        }
    }

    fn number(&self, key: &str) -> (r: Option<u64>)
        ensures
            r == number_of(self@.general, key@),
    {
        match self.raw(key) {
            Some(v) => {
                let t = trim_vec(&v);
                match parse_u64_vec(&t) {
                    Some(n) => if n != 0 { Some(n) } else { None },
                    None => None,
                }
            },
            None => None,
        }
    }

    pub fn game_name(&self) -> (r: Option<String>)
        ensures
            opt_str(r) == string_of_key(self@.general, "gameName"@),
    {
        self.string("gameName")
    }

    /// The Nexus mod id (`0` or absent gives `None`).
    pub fn mod_id(&self) -> (r: Option<u64>)
        ensures
            r == number_of(self@.general, "modid"@),
    {
        self.number("modid")
    }

    pub fn version(&self) -> (r: Option<String>)
        ensures
            opt_str(r) == string_of_key(self@.general, "version"@),
    {
        self.string("version")
    }

    pub fn newest_version(&self) -> (r: Option<String>)
        ensures
            opt_str(r) == string_of_key(self@.general, "newestVersion"@),
    {
        self.string("newestVersion")
    }

    /// The category field, unquoted (a comma-terminated id list, e.g. `-1,`).
    pub fn category(&self) -> (r: Option<String>)
        ensures
            opt_str(r) == string_of_key(self@.general, "category"@),
    {
        self.string("category")
    }

    pub fn installation_file(&self) -> (r: Option<String>)
        ensures
            opt_str(r) == string_of_key(self@.general, "installationFile"@),
    {
        self.string("installationFile")
    }

    /// The download sidecar's `modName`.
    pub fn mod_name(&self) -> (r: Option<String>)
        ensures
            opt_str(r) == string_of_key(self@.general, "modName"@),
    {
        self.string("modName")
    }

    /// The archive's total size in bytes (`0` or absent gives `None`).
    pub fn total_size(&self) -> (r: Option<u64>)
        ensures
            r == number_of(self@.general, "totalsize"@),
    {
        self.number("totalsize")
    }

    /// The sidecar's `name`, with HTML tags removed; empty gives `None`.
    pub fn name(&self) -> (r: Option<String>)
        ensures
            opt_str(r) == match string_of_key(self@.general, "name"@) {
                Some(s) => if strip_tags(s).len() > 0 { Some(strip_tags(s)) } else { None },
                None => None,
            },
    {
        match self.string("name") {
            Some(s) => {
                let v = chars_of(s.as_str());
                let t = strip_tags_exec(&v);
                if t.len() > 0 {
                    Some(string_of(&t))
                } else {
                    None
                }
            },
            None => None,
        }
    }

    /// The sidecar's `fileCategory`.
    pub fn file_category(&self) -> (r: Option<String>)
        ensures
            opt_str(r) == string_of_key(self@.general, "fileCategory"@),
    {
        self.string("fileCategory")
    }

    pub fn repository(&self) -> (r: Option<String>)
        ensures
            opt_str(r) == string_of_key(self@.general, "repository"@),
    {
        self.string("repository")
    }

    pub fn endorsed(&self) -> (b: bool)
        ensures
            b == flag_of(self@.general, "endorsed"@),
    {
        self.flag("endorsed")
    }

    pub fn is_tracked(&self) -> (b: bool)
        ensures
            b == flag_of(self@.general, "tracked"@),
    {
        self.flag("tracked")
    }

    /// When set, the mod is excluded from update markers even if a newer
    /// version exists.
    pub fn ignore_update(&self) -> (b: bool)
        ensures
            b == flag_of(self@.general, "ignoreUpdate"@),
    {
        self.flag("ignoreUpdate")
    }

    /// The archive has been installed into a mod.
    pub fn installed(&self) -> (b: bool)
        ensures
            b == flag_of(self@.general, "installed"@),
    {
        self.flag("installed")
    }

    /// The archive's mod was later removed.
    pub fn uninstalled(&self) -> (b: bool)
        ensures
            b == flag_of(self@.general, "uninstalled"@),
    {
        self.flag("uninstalled")
    }

    /// The download was paused mid-transfer.
    pub fn paused(&self) -> (b: bool)
        ensures
            b == flag_of(self@.general, "paused"@),
    {
        self.flag("paused")
    }

    /// The download was hidden in the manager.
    pub fn removed(&self) -> (b: bool)
        ensures
            b == flag_of(self@.general, "removed"@),
    {
        self.flag("removed")
    }

    /// The user's free-text note.
    pub fn notes(&self) -> (r: Option<String>)
        ensures
            opt_str(r) == string_of_key(self@.general, "notes"@),
    {
        self.string("notes")
    }

    /// The mod's author, as the update check recorded it.
    pub fn author(&self) -> (r: Option<String>)
        ensures
            opt_str(r) == string_of_key(self@.general, "author"@),
    {
        self.string("author")
    }

    /// Who uploaded the mod, as the update check recorded it.
    pub fn uploader(&self) -> (r: Option<String>)
        ensures
            opt_str(r) == string_of_key(self@.general, "uploader"@),
    {
        self.string("uploader")
    }

    /// The uploader's profile page, as the update check recorded it.
    pub fn uploader_url(&self) -> (r: Option<String>)
        ensures
            opt_str(r) == string_of_key(self@.general, "uploaderUrl"@),
    {
        self.string("uploaderUrl")
    }

    /// When this mod was last checked against Nexus (unix seconds; `0` or
    /// absent gives `None`).
    pub fn last_nexus_update(&self) -> (r: Option<u64>)
        ensures
            r == number_of(self@.general, "lastNexusUpdate"@),
    {
        self.number("lastNexusUpdate")
    }

    /// Whether Nexus still serves this mod's page as of the last check;
    /// `None` when never checked.
    pub fn nexus_available(&self) -> (r: Option<bool>)
        ensures
            r == match raw_of(self@.general, "nexusAvailable"@) {
                Some(v) => if trim(v) == "1"@ || trim(v) == "true"@ {
                    Some(true)
                } else if trim(v) == "0"@ || trim(v) == "false"@ {
                    Some(false)
                } else {
                    None
                },
                None => None,
            },
    {
        match self.raw("nexusAvailable") {
            Some(v) => {
                let t = trim_vec(&v);
                if str_is(&t, "1") || str_is(&t, "true") {
                    Some(true)
                } else if str_is(&t, "0") || str_is(&t, "false") {
                    Some(false)
                } else {
                    None
                }
            },
            None => None,
        }
    }

    pub fn is_dirty(&self) -> (b: bool)
        ensures
            b == self@.dirty,
    {
        self.dirty
    }

    /// The enabled INI-tweak fragments, in application order.
    pub fn ini_tweaks(&self) -> (r: &[String])
        ensures
            strs_view(r@) == self@.ini_tweaks,
    {
        self.ini_tweaks.as_slice()
    }

    /// The BAIN sub-packages the last install ticked, in install order.
    pub fn bain_options(&self) -> (r: &[String])
        ensures
            strs_view(r@) == self@.bain_options,
    {
        self.bain_options.as_slice()
    }

    /// Set a `[General]` value (raw). Updates the first matching key in place
    /// or appends; writing the value already there changes nothing.
    pub fn set(&mut self, key: &str, raw_value: &str)
        ensures
            final(self)@ == set_meta(old(self)@, key@, raw_value@),
    {
        let ghost g0 = self@.general;
        match self.slot(key) {
            Some(i) => {
                let same = crate::text::eq_str(self.general[i].1.as_str(), raw_value);
                if same {
                    return;
                }
                let k = self.general[i].0.clone();
                let ghost before = self.general@;
                self.general.set(i, (k, raw_value.to_owned()));
                assert(pairs_view(self.general@) =~= g0.update(i as int, (g0[i as int].0, raw_value@)));
            },
            None => {
                let ghost before = self.general@;
                self.general.push((key.to_owned(), raw_value.to_owned()));
                assert(pairs_view(self.general@) =~= g0.push((key@, raw_value@)));
            },
        }
        self.dirty = true;
    }
}

/// The view of an optional string.
pub open spec fn opt_str(o: Option<String>) -> Option<Seq<char>> {
    match o {
        Some(s) => Some(s@),
        None => None,
    }
}


/// The metadata after setting `key` to the raw value `v`: unchanged when the
/// key already holds exactly `v`, else updated and dirty.
pub open spec fn set_meta(m: MetaM, key: Seq<char>, v: Seq<char>) -> MetaM {
    if raw_of(m.general, key) == Some(v) {
        m
    } else {
        MetaM { general: set_general(m.general, key, v), dirty: true, ..m }
    }
}

/// The raw `1`/`0` form of a flag.
pub open spec fn one_zero(b: bool) -> Seq<char> {
    if b { "1"@ } else { "0"@ }
}

/// The raw `true`/`false` form of a flag.
pub open spec fn true_false(b: bool) -> Seq<char> {
    if b { "true"@ } else { "false"@ }
}

/// `\` and `"` escaped with a backslash.
pub open spec fn escape_note(s: Seq<char>) -> Seq<char>
    decreases s.len(),
{
    if s.len() == 0 {
        Seq::empty()
    } else {
        let rest = escape_note(s.drop_last());
        let c = s.last();
        if c == '\\' || c == '"' {
            rest + seq!['\\', c]
        } else {
            rest.push(c)
        }
    }
}

/// The raw value a note is stored as: empty for a blank note, else the
/// trimmed text escaped and quoted.
pub open spec fn note_raw(notes: Seq<char>) -> Seq<char> {
    let t = trim(notes);
    if t.len() == 0 {
        Seq::empty()
    } else {
        seq!['"'] + escape_note(t) + seq!['"']
    }
}

impl ModMeta {
    /// Record the latest version seen on Nexus.
    pub fn set_newest_version(&mut self, v: &str)
        ensures
            final(self)@ == set_meta(old(self)@, "newestVersion"@, v@),
    {
        self.set("newestVersion", v);
    }

    /// Record what the last update check saw.
    pub fn set_nexus_available(&mut self, available: bool)
        ensures
            final(self)@ == set_meta(old(self)@, "nexusAvailable"@, one_zero(available)),
    {
        self.set("nexusAvailable", if available { "1" } else { "0" });
    }

    /// Endorse or abstain locally, in the `1`/`0` form `endorsed` reads.
    pub fn set_endorsed(&mut self, b: bool)
        ensures
            final(self)@ == set_meta(old(self)@, "endorsed"@, one_zero(b)),
    {
        self.set("endorsed", if b { "1" } else { "0" });
    }

    /// Track or untrack the mod (local flag only).
    pub fn set_tracked(&mut self, b: bool)
        ensures
            final(self)@ == set_meta(old(self)@, "tracked"@, one_zero(b)),
    {
        self.set("tracked", if b { "1" } else { "0" });
    }

    /// Set or clear the "ignore update" flag.
    pub fn set_ignore_update(&mut self, b: bool)
        ensures
            final(self)@ == set_meta(old(self)@, "ignoreUpdate"@, one_zero(b)),
    {
        self.set("ignoreUpdate", if b { "1" } else { "0" });
    }

    /// Mark the archive installed or not installed.
    pub fn set_installed(&mut self, b: bool)
        ensures
            final(self)@ == set_meta(old(self)@, "installed"@, true_false(b)),
    {
        self.set("installed", if b { "true" } else { "false" });
    }

    pub fn set_uninstalled(&mut self, b: bool)
        ensures
            final(self)@ == set_meta(old(self)@, "uninstalled"@, true_false(b)),
    {
        self.set("uninstalled", if b { "true" } else { "false" });
    }

    pub fn set_removed(&mut self, b: bool)
        ensures
            final(self)@ == set_meta(old(self)@, "removed"@, true_false(b)),
    {
        self.set("removed", if b { "true" } else { "false" });
    }

    /// Set when this mod was last checked against Nexus.
    pub fn set_last_nexus_update(&mut self, ts: u64)
        ensures
            final(self)@ == set_meta(old(self)@, "lastNexusUpdate"@, dec(ts as nat)),
    {
        let s = u64_to_string(ts);
        self.set("lastNexusUpdate", s.as_str());
    }

    /// Set the note text, trimmed, escaped and quoted so a value with spaces
    /// or commas round-trips. A blank note clears it.
    pub fn set_notes(&mut self, notes: &str)
        ensures
            final(self)@ == set_meta(old(self)@, "notes"@, note_raw(notes@)),
    {
        let v = chars_of(notes);
        let t = trim_vec(&v);
        if t.len() == 0 {
            proof {
                reveal_strlit("");
            }
            assert(""@ =~= note_raw(notes@));
            self.set("notes", "");
        } else {
            let mut out = String::new();
            push_char(&mut out, '"');
            let mut i: usize = 0;
            while i < t.len()
                invariant
                    i <= t@.len(),
                    out@ == seq!['"'] + escape_note(t@.take(i as int)),
                decreases t.len() - i,
            {
                let c = t[i];
                assert(t@.take(i + 1).drop_last() =~= t@.take(i as int));
                assert(t@.take(i + 1).last() == c);
                if c == '\\' || c == '"' {
                    push_char(&mut out, '\\');
                }
                push_char(&mut out, c);
                assert(out@ =~= seq!['"'] + escape_note(t@.take(i + 1)));
                i = i + 1;
            }
            push_char(&mut out, '"');
            assert(t@.take(t@.len() as int) =~= t@);
            assert(out@ =~= note_raw(notes@));
            self.set("notes", out.as_str());
        }
    }
}


/// A version segment separator.
pub open spec fn is_vsep(c: char) -> bool {
    c == '.' || c == '-' || c == '_'
}

/// The completed segments and the segment in progress after reading `s`.
pub open spec fn vpieces(s: Seq<char>) -> (Seq<Seq<char>>, Seq<char>)
    decreases s.len(),
{
    if s.len() == 0 {
        (Seq::empty(), Seq::empty())
    } else {
        let (ps, cur) = vpieces(s.drop_last());
        let c = s.last();
        if is_vsep(c) {
            (if cur.len() > 0 { ps.push(cur) } else { ps }, Seq::empty())
        } else {
            (ps, cur.push(c))
        }
    }
}

/// The non-empty segments of `s` split on `.`, `-` and `_`.
pub open spec fn vsegs(s: Seq<char>) -> Seq<Seq<char>> {
    let (ps, cur) = vpieces(s);
    if cur.len() > 0 { ps.push(cur) } else { ps }
}

/// `s` without leading `v` or `V`.
pub open spec fn strip_v(s: Seq<char>) -> Seq<char>
    decreases s.len(),
{
    if s.len() > 0 && (s[0] == 'v' || s[0] == 'V') {
        strip_v(s.drop_first())
    } else {
        s
    }
}

/// Every segment as a number, if all of them are numbers.
pub open spec fn parse_segs(ps: Seq<Seq<char>>) -> Option<Seq<u64>>
    decreases ps.len(),
{
    if ps.len() == 0 {
        Some(Seq::empty())
    } else {
        match (parse_segs(ps.drop_last()), parse_u64_spec(ps.last())) {
            (Some(xs), Some(x)) => Some(xs.push(x)),
            _ => None,
        }
    }
}

/// The numeric segments of a version: trimmed, leading `v`s dropped, split on
/// `.`, `-` and `_`; `None` when a segment is not a number or there are none.
pub open spec fn segments(s: Seq<char>) -> Option<Seq<u64>> {
    let ps = vsegs(strip_v(trim(s)));
    if ps.len() == 0 {
        None
    } else {
        parse_segs(ps)
    }
}

/// Trailing zero segments removed.
pub open spec fn drop_zeros(x: Seq<u64>) -> Seq<u64>
    decreases x.len(),
{
    if x.len() > 0 && x.last() == 0 {
        drop_zeros(x.drop_last())
    } else {
        x
    }
}

/// Two versions are the same when their numeric segments agree up to
/// trailing zeros; when either is not numeric, when their trimmed texts agree
/// ignoring ASCII case.
pub open spec fn same_version_spec(a: Seq<char>, b: Seq<char>) -> bool {
    match (segments(a), segments(b)) {
        (Some(x), Some(y)) => drop_zeros(x) == drop_zeros(y),
        _ => eq_ic(trim(a), trim(b)),
    }
}

fn segments_exec(s: &str) -> (r: Option<Vec<u64>>)
    ensures
        match r {
            Some(v) => segments(s@) == Some(v@),
            None => segments(s@) is None,
        },
{
    let v = chars_of(s);
    let t = trim_vec(&v);
    let mut i: usize = 0;
    assert(t@.skip(0) =~= t@);
    while i < t.len() && (t[i] == 'v' || t[i] == 'V')
        invariant
            i <= t@.len(),
            strip_v(t@) == strip_v(t@.skip(i as int)),
        decreases t.len() - i,
    {
        assert(t@.skip(i as int).drop_first() =~= t@.skip(i + 1));
        i = i + 1;
    }
    let n = t.len();
    let body = slice_vec(&t, i, n);
    assert(body@ =~= t@.skip(i as int));
    proof {
        if i < t@.len() {
            assert(t@.skip(i as int)[0] == t@[i as int]);
        }
        assert(strip_v(body@) == body@);
    }
    let mut pieces: Vec<Vec<char>> = Vec::new();
    let mut cur: Vec<char> = Vec::new();
    let mut k: usize = 0;
    while k < body.len()
        invariant
            k <= body@.len(),
            vpieces(body@.take(k as int)) == (pieces@.map_values(|p: Vec<char>| p@), cur@),
        decreases body.len() - k,
    {
        let c = body[k];
        assert(body@.take(k + 1).drop_last() =~= body@.take(k as int));
        assert(body@.take(k + 1).last() == c);
        if c == '.' || c == '-' || c == '_' {
            if cur.len() > 0 {
                let ghost before = pieces@.map_values(|p: Vec<char>| p@);
                pieces.push(cur);
                assert(pieces@.map_values(|p: Vec<char>| p@) =~= before.push(old_cur_view(&pieces)));
            }
            cur = Vec::new();
        } else {
            cur.push(c);
        }
        k = k + 1;
    }
    assert(body@.take(body@.len() as int) =~= body@);
    if cur.len() > 0 {
        let ghost before = pieces@.map_values(|p: Vec<char>| p@);
        let ghost cv = cur@;
        pieces.push(cur);
        assert(pieces@.map_values(|p: Vec<char>| p@) =~= before.push(cv));
    }
    let ghost ps = pieces@.map_values(|p: Vec<char>| p@);
    assert(ps == vsegs(strip_v(trim(s@))));
    if pieces.len() == 0 {
        return None;
    }
    let mut out: Vec<u64> = Vec::new();
    let mut j: usize = 0;
    while j < pieces.len()
        invariant
            j <= pieces@.len(),
            ps == pieces@.map_values(|p: Vec<char>| p@),
            ps == vsegs(strip_v(trim(s@))),
            ps.len() > 0,
            parse_segs(ps.take(j as int)) == Some(out@),
        decreases pieces.len() - j,
    {
        assert(ps.take(j + 1).drop_last() =~= ps.take(j as int));
        assert(ps.take(j + 1).last() == pieces@[j as int]@);
        match parse_u64_vec(&pieces[j]) {
            Some(x) => {
                out.push(x);
            },
            None => {
                proof {
                    lemma_parse_segs_none(ps, j as int + 1);
                }
                return None;
            },
        }
        j = j + 1;
    }
    assert(ps.take(j as int) =~= ps);
    Some(out)
}

/// The view of the segment just pushed.
spec fn old_cur_view(pieces: &Vec<Vec<char>>) -> Seq<char> {
    pieces@.last()@
}

/// Once a prefix of the segments fails to parse, the whole list fails.
proof fn lemma_parse_segs_none(ps: Seq<Seq<char>>, n: int)
    requires
        0 <= n <= ps.len(),
        parse_segs(ps.take(n)) is None,
    ensures
        parse_segs(ps) is None,
    decreases ps.len() - n,
{
    if n < ps.len() {
        assert(ps.take(n + 1).drop_last() =~= ps.take(n));
        lemma_parse_segs_none(ps, n + 1);
    } else {
        assert(ps.take(n) =~= ps);
    }
}

fn drop_zeros_exec(x: &mut Vec<u64>)
    ensures
        final(x)@ == drop_zeros(old(x)@),
{
    while x.len() > 0 && x[x.len() - 1] == 0
        invariant
            drop_zeros(x@) == drop_zeros(old(x)@),
        decreases x.len(),
    {
        x.pop();
    }
}

/// Whether two version strings denote the same version: numeric segments
/// compared up to trailing zeros (`1.5` equals `1.5.0` and `v1.5`); a
/// non-numeric segment on either side falls back to a trimmed, ASCII
/// case-insensitive text compare.
pub fn same_version(a: &str, b: &str) -> (r: bool)
    ensures
        r == same_version_spec(a@, b@),
{
    match (segments_exec(a), segments_exec(b)) {
        (Some(mut x), Some(mut y)) => {
            drop_zeros_exec(&mut x);
            drop_zeros_exec(&mut y);
            let mut eq = x.len() == y.len();
            let mut i: usize = 0;
            while eq && i < x.len()
                invariant
                    i <= x@.len(),
                    eq ==> x@.len() == y@.len(),
                    eq ==> forall|j: int| 0 <= j < i ==> x@[j] == y@[j],
                    !eq ==> x@ != y@,
                decreases x.len() - i,
            {
                if x[i] != y[i] {
                    eq = false;
                }
                i = i + 1;
            }
            assert(eq ==> x@ =~= y@);
            eq
        },
        _ => {
            let av = chars_of(a);
            let bv = chars_of(b);
            let at = trim_vec(&av);
            let bt = trim_vec(&bv);
            crate::text::eq_ic_chars(&at, &bt)
        },
    }
}

impl ModMeta {
    /// A Nexus update is available when `newestVersion` is present and is not
    /// the same version as the installed `version`.
    pub fn update_available(&self) -> (b: bool)
        ensures
            b == match (string_of_key(self@.general, "version"@), string_of_key(self@.general, "newestVersion"@)) {
                (Some(v), Some(n)) => !same_version_spec(v, n),
                _ => false,
            },
    {
        match (self.version(), self.newest_version()) {
            (Some(v), Some(n)) => !same_version(v.as_str(), n.as_str()),
            _ => false,
        }
    }
}


/// The value of a hexadecimal digit byte.
pub open spec fn hex_digit_value(c: u8) -> int {
    if 48 <= c <= 57 {
        c - 48
    } else if 97 <= c <= 102 {
        c - 87
    } else {
        c - 55
    }
}

pub open spec fn is_hex_byte(c: u8) -> bool {
    (48 <= c <= 57) || (97 <= c <= 102) || (65 <= c <= 70)
}

/// The number of leading hexadecimal digit bytes.
pub open spec fn hex_run(b: Seq<u8>) -> nat
    decreases b.len(),
{
    if b.len() > 0 && is_hex_byte(b[0]) {
        1 + hex_run(b.drop_first())
    } else {
        0
    }
}

/// The value of a run of hexadecimal digits.
pub open spec fn hex_value(b: Seq<u8>) -> nat
    decreases b.len(),
{
    if b.len() == 0 {
        0
    } else {
        (hex_value(b.drop_last()) * 16 + hex_digit_value(b.last())) as nat
    }
}

/// The bytes an escape sequence inside `@Variant(...)` stands for: `\0`,
/// `\xNN..` (as a `u32`, low byte kept), `\\`, `\n`, `\r`, `\t`, and `\c` for
/// any other `c`; other bytes stand for themselves. `None` on a dangling `\`,
/// an `\x` without digits, or a hex number beyond `u32`.
pub open spec fn unescape(b: Seq<u8>) -> Option<Seq<u8>>
    decreases b.len(),
{
    if b.len() == 0 {
        Some(Seq::empty())
    } else if b[0] != 92 {
        match unescape(b.drop_first()) {
            Some(r) => Some(seq![b[0]] + r),
            None => None,
        }
    } else if b.len() < 2 {
        None
    } else {
        let c = b[1];
        if c == 120 || c == 88 {
            let rest = b.skip(2);
            let h = hex_run(rest);
            if h == 0 || h > rest.len() {
                None
            } else if hex_value(rest.take(h as int)) > u32::MAX {
                None
            } else {
                match unescape(rest.skip(h as int)) {
                    Some(r) => Some(seq![(hex_value(rest.take(h as int)) % 256) as u8] + r),
                    None => None,
                }
            }
        } else {
            let v: u8 = if c == 48 {
                0
            } else if c == 110 {
                10
            } else if c == 114 {
                13
            } else if c == 116 {
                9
            } else {
                c
            };
            match unescape(b.skip(2)) {
                Some(r) => Some(seq![v] + r),
                None => None,
            }
        }
    }
}

/// `@Variant(`.
pub open spec fn variant_open() -> Seq<char> {
    seq!['@', 'V', 'a', 'r', 'i', 'a', 'n', 't', '(']
}

/// The RGB of a `@Variant(...)` `QColor` value: the unescaped bytes must be at
/// least 13 long and start with the type id 67 as a big-endian `u32`; the
/// channels are the high bytes of the big-endian red, green and blue fields.
pub open spec fn decode_color(raw: Seq<char>) -> Option<(u8, u8, u8)> {
    let t = trim(raw);
    if t.len() >= 10 && t.take(9) == variant_open() && t.last() == ')' {
        let inner = t.subrange(9, t.len() - 1);
        match unescape(vstd::utf8::encode_utf8(inner)) {
            Some(bs) => if bs.len() < 13 || bs[0] != 0 || bs[1] != 0 || bs[2] != 0 || bs[3] != 67 {
                None
            } else {
                Some((bs[7], bs[9], bs[11]))
            },
            None => None,
        }
    } else {
        None
    }
}

/// The `QColor` stream of an opaque RGB colour: type id 67, RGB spec, alpha
/// `FFFF`, each channel scaled by 257, and a zero pad.
pub open spec fn color_bytes(r: u8, g: u8, b: u8) -> Seq<u8> {
    seq![0u8, 0, 0, 67, 1, 255, 255, r, r, g, g, b, b, 0, 0]
}

/// A lowercase hexadecimal digit.
pub open spec fn hex_char(d: u8) -> char {
    if d < 10 { (48 + d) as char } else { (87 + d) as char }
}

/// One byte escaped: `\0` for zero, else `\x` and two lowercase hex digits.
pub open spec fn escape_byte(x: u8) -> Seq<char> {
    if x == 0 {
        seq!['\\', '0']
    } else {
        seq!['\\', 'x', hex_char(x / 16), hex_char(x % 16)]
    }
}

/// Escaped bytes, concatenated.
pub open spec fn escape_bytes(b: Seq<u8>) -> Seq<char>
    decreases b.len(),
{
    if b.len() == 0 {
        Seq::empty()
    } else {
        escape_bytes(b.drop_last()) + escape_byte(b.last())
    }
}

/// The `@Variant(...)` text of an RGB colour.
pub open spec fn encode_color(r: u8, g: u8, b: u8) -> Seq<char> {
    variant_open() + escape_bytes(color_bytes(r, g, b)) + seq![')']
}

fn hex_char_exec(d: u8) -> (c: char)
    requires
        d < 16,
    ensures
        c == hex_char(d),
{
    if d < 10 {
        (48 + d) as char
    } else {
        (87 + d) as char
    }
}

fn hex_digit_exec(c: u8) -> (r: u32)
    requires
        is_hex_byte(c),
    ensures
        r == hex_digit_value(c),
        r < 16,
{
    if 48 <= c && c <= 57 {
        (c - 48) as u32
    } else if 97 <= c && c <= 102 {
        (c - 87) as u32
    } else {
        (c - 55) as u32
    }
}

/// Unescape the bytes inside `@Variant(...)`.
fn unescape_exec(b: &[u8]) -> (r: Option<Vec<u8>>)
    ensures
        match r {
            Some(v) => unescape(b@) == Some(v@),
            None => unescape(b@) is None,
        },
{
    let mut out: Vec<u8> = Vec::new();
    let mut i: usize = 0;
    assert(b@.skip(0) =~= b@);
    assert(out@ + Seq::<u8>::empty() =~= out@);
    while i < b.len()
        invariant
            i <= b@.len(),
            match unescape(b@.skip(i as int)) {
                Some(r) => unescape(b@) == Some(out@ + r),
                None => unescape(b@) is None,
            },
        decreases b.len() - i,
    {
        let ghost s = b@.skip(i as int);
        assert(s[0] == b@[i as int]);
        if b[i] != 92 {
            assert(s.drop_first() =~= b@.skip(i + 1));
            let ghost o = out@;
            out.push(b[i]);
            proof {
                match unescape(b@.skip(i + 1)) {
                    Some(r) => assert(o + (seq![b@[i as int]] + r) =~= out@ + r),
                    None => {},
                }
            }
            i = i + 1;
        } else {
            if i + 1 >= b.len() {
                return None;
            }
            let c = b[i + 1];
            assert(s[1] == c);
            assert(s.skip(2) =~= b@.skip(i + 2));
            if c == 120 || c == 88 {
                let start = i + 2;
                let mut j = start;
                let mut acc: u64 = 0;
                let mut over = false;
                let ghost rest = b@.skip(start as int);
                while j < b.len() && is_hex_exec(b[j])
                    invariant
                        start <= j <= b@.len(),
                        rest == b@.skip(start as int),
                        forall|k: int| start <= k < j ==> is_hex_byte(#[trigger] b@[k]),
                        !over ==> acc == hex_value(b@.subrange(start as int, j as int)),
                        !over ==> acc <= u32::MAX,
                        over ==> hex_value(b@.subrange(start as int, j as int)) > u32::MAX,
                    decreases b.len() - j,
                {
                    let d = hex_digit_exec(b[j]);
                    assert(b@.subrange(start as int, j + 1).drop_last() =~= b@.subrange(start as int, j as int));
                    if !over {
                        let next = acc * 16 + d as u64;
                        if next > 0xffff_ffff {
                            over = true;
                        } else {
                            acc = next;
                        }
                    }
                    j = j + 1;
                }
                proof {
                    lemma_hex_run_at(rest, (j - start) as int);
                    assert(rest.take((j - start) as int) =~= b@.subrange(start as int, j as int));
                    assert(rest.skip((j - start) as int) =~= b@.skip(j as int));
                }
                if j == start || over {
                    return None;
                }
                let ghost o = out@;
                out.push((acc % 256) as u8);
                proof {
                    match unescape(b@.skip(j as int)) {
                        Some(r) => assert(o + (seq![(acc % 256) as u8] + r) =~= out@ + r),
                        None => {},
                    }
                }
                i = j;
            } else {
                let v: u8 = if c == 48 {
                    0
                } else if c == 110 {
                    10
                } else if c == 114 {
                    13
                } else if c == 116 {
                    9
                } else {
                    c
                };
                let ghost o = out@;
                out.push(v);
                proof {
                    match unescape(b@.skip(i + 2)) {
                        Some(r) => assert(o + (seq![v] + r) =~= out@ + r),
                        None => {},
                    }
                }
                i = i + 2;
            }
        }
    }
    assert(b@.skip(i as int) =~= Seq::<u8>::empty());
    assert(out@ + Seq::<u8>::empty() =~= out@);
    Some(out)
}

fn is_hex_exec(c: u8) -> (r: bool)
    ensures
        r == is_hex_byte(c),
{
    (48 <= c && c <= 57) || (97 <= c && c <= 102) || (65 <= c && c <= 70)
}

proof fn lemma_hex_run_at(s: Seq<u8>, k: int)
    requires
        0 <= k <= s.len(),
        forall|i: int| 0 <= i < k ==> is_hex_byte(#[trigger] s[i]),
        k < s.len() ==> !is_hex_byte(s[k]),
    ensures
        hex_run(s) == k,
    decreases k,
{
    if k > 0 {
        assert forall|i: int| 0 <= i < k - 1 implies is_hex_byte(#[trigger] s.drop_first()[i]) by {
            assert(s.drop_first()[i] == s[i + 1]);
        }
        lemma_hex_run_at(s.drop_first(), k - 1);
    }
}

/// Decode a `@Variant(...)` `QColor` value to RGB; `None` for any shape not
/// recognised.
pub fn variant_qcolor_decode(raw: &str) -> (r: Option<[u8; 3]>)
    ensures
        match r {
            Some(a) => decode_color(raw@) == Some((a@[0], a@[1], a@[2])),
            None => decode_color(raw@) is None,
        },
{
    let v = chars_of(raw);
    let t = trim_vec(&v);
    let n = t.len();
    if n < 10 {
        return None;
    }
    let head = slice_vec(&t, 0, 9);
    let open = ['@', 'V', 'a', 'r', 'i', 'a', 'n', 't', '('];
    assert(open@ =~= variant_open());
    if !crate::text::eq_chars(&head, &open) || t[n - 1] != ')' {
        assert(head@ =~= t@.take(9));
        return None;
    }
    assert(head@ =~= t@.take(9));
    let inner = slice_vec(&t, 9, n - 1);
    let s = string_of(&inner);
    let bytes = s.as_str().as_bytes();
    match unescape_exec(bytes) {
        Some(bs) => {
            if bs.len() < 13 || bs[0] != 0 || bs[1] != 0 || bs[2] != 0 || bs[3] != 67 {
                None
            } else {
                let a = [bs[7], bs[9], bs[11]];
                assert(a@[0] == bs@[7] && a@[1] == bs@[9] && a@[2] == bs@[11]);
                Some(a)
            }
        },
        None => None,
    }
}

fn push_escaped(s: &mut String, x: u8)
    ensures
        final(s)@ == old(s)@ + escape_byte(x),
{
    push_char(s, '\\');
    if x == 0 {
        push_char(s, '0');
    } else {
        push_char(s, 'x');
        push_char(s, hex_char_exec(x / 16));
        push_char(s, hex_char_exec(x % 16));
    }
    assert(s@ =~= old(s)@ + escape_byte(x));
}

/// Encode RGB in the `@Variant(...)` `QColor` form.
pub fn variant_qcolor_encode(rgb: [u8; 3]) -> (s: String)
    ensures
        s@ == encode_color(rgb@[0], rgb@[1], rgb@[2]),
{
    let r = rgb[0];
    let g = rgb[1];
    let b = rgb[2];
    let bytes: [u8; 15] = [0, 0, 0, 67, 1, 255, 255, r, r, g, g, b, b, 0, 0];
    assert(bytes@ =~= color_bytes(r, g, b));
    let mut s = String::new();
    let open = ['@', 'V', 'a', 'r', 'i', 'a', 'n', 't', '('];
    push_chars(&mut s, &open);
    assert(s@ =~= variant_open());
    let mut i: usize = 0;
    while i < 15
        invariant
            i <= 15,
            bytes@ == color_bytes(r, g, b),
            s@ == variant_open() + escape_bytes(bytes@.take(i as int)),
        decreases 15 - i,
    {
        assert(bytes@.take(i + 1).drop_last() =~= bytes@.take(i as int));
        push_escaped(&mut s, bytes[i]);
        assert(s@ =~= variant_open() + escape_bytes(bytes@.take(i + 1)));
        i = i + 1;
    }
    push_char(&mut s, ')');
    assert(bytes@.take(15) =~= bytes@);
    s
}

impl ModMeta {
    /// A separator's display colour, decoded from its `@Variant(...)` value;
    /// `None` if absent or unparseable.
    pub fn color(&self) -> (r: Option<[u8; 3]>)
        ensures
            match r {
                Some(a) => match raw_of(self@.general, "color"@) {
                    Some(v) => decode_color(v) == Some((a@[0], a@[1], a@[2])),
                    None => false,
                },
                None => match raw_of(self@.general, "color"@) {
                    Some(v) => decode_color(v) is None,
                    None => true,
                },
            },
    {
        match self.raw("color") {
            Some(v) => {
                let s = string_of(&v);
                variant_qcolor_decode(s.as_str())
            },
            None => None,
        }
    }

    /// Set, or with `None` clear, the separator colour in `@Variant(...)` form.
    pub fn set_color(&mut self, rgb: Option<[u8; 3]>)
        ensures
            final(self)@ == match rgb {
                Some(a) => set_meta(old(self)@, "color"@, encode_color(a@[0], a@[1], a@[2])),
                None => set_meta(old(self)@, "color"@, Seq::empty()),
            },
    {
        match rgb {
            Some(a) => {
                let e = variant_qcolor_encode(a);
                self.set("color", e.as_str());
            },
            None => {
                proof {
                    reveal_strlit("");
                }
                assert(""@ =~= Seq::<char>::empty());
                self.set("color", "");
            },
        }
    }
}


impl ModMeta {
    /// Set the mod's categories: `primary` first, then the rest, in the
    /// on-disk comma-terminated form, quoted so the value reads back as one
    /// string; `None` writes the uncategorised placeholder.
    pub fn set_categories(&mut self, primary: Option<i32>, others: &[i32])
        ensures
            final(self)@ == set_meta(old(self)@, "category"@, seq!['"'] + crate::categories::format_spec(primary, others@) + seq!['"']),
    {
        let raw = crate::categories::format_categories(primary, others);
        let mut q = String::new();
        push_char(&mut q, '"');
        push_str(&mut q, raw.as_str());
        push_char(&mut q, '"');
        assert(q@ =~= seq!['"'] + crate::categories::format_spec(primary, others@) + seq!['"']);
        self.set("category", q.as_str());
    }
}


/// `General`.
pub open spec fn general_name() -> Seq<char> {
    seq!['G', 'e', 'n', 'e', 'r', 'a', 'l']
}

/// The `[General]` entries of a text and the verbatim tail after them: the
/// consecutive `key=value` lines after the `[General]` header; the tail runs
/// from the first line that is not one to the end. Without a `[General]`
/// section, or when the entries run to the end, the tail is empty.
pub open spec fn scan_general(t: Seq<char>, in_general: bool) -> (Seq<(Seq<char>, Seq<char>)>, Seq<char>)
    decreases t.len(),
{
    if t.len() == 0 {
        (Seq::empty(), Seq::empty())
    } else {
        let e = seg_len(t);
        if e <= 0 || e > t.len() {
            (Seq::empty(), Seq::empty())
        } else {
            let body = seg_body(t.take(e));
            let sec = section_header(body);
            if !in_general {
                scan_general(t.skip(e), match sec {
                    Some(h) => eq_ic(h, general_name()),
                    None => false,
                })
            } else if sec is None && key_value(body) is Some {
                let (g, tail) = scan_general(t.skip(e), true);
                (seq![key_value(body)->0] + g, tail)
            } else {
                (Seq::empty(), t)
            }
        }
    }
}

/// Where a named section starts and ends in a text scanned from `pos`: from
/// its header line to the next header or the end.
pub open spec fn span_scan(r: Seq<char>, pos: int, total: int, name: Seq<char>, start: Option<int>) -> Option<(int, int)>
    decreases r.len(),
{
    if r.len() == 0 {
        match start {
            Some(s) => Some((s, total)),
            None => None,
        }
    } else {
        let e = seg_len(r);
        if e <= 0 || e > r.len() {
            None
        } else {
            let body = seg_body(r.take(e));
            match section_header(body) {
                Some(h) => if start is Some {
                    Some((start->0, pos))
                } else if eq_ic(h, name) {
                    span_scan(r.skip(e), pos + e, total, name, Some(pos))
                } else {
                    span_scan(r.skip(e), pos + e, total, name, None)
                },
                None => span_scan(r.skip(e), pos + e, total, name, start),
            }
        }
    }
}

/// The span of a named section in a text, header line included.
pub open spec fn section_span(text: Seq<char>, name: Seq<char>) -> Option<(int, int)> {
    span_scan(text, 0, text.len() as int, name, None)
}

/// The `key=value` entries of the lines, in order.
pub open spec fn kvs(ls: Seq<Seq<char>>) -> Seq<(Seq<char>, Seq<char>)>
    decreases ls.len(),
{
    if ls.len() == 0 {
        Seq::empty()
    } else {
        match key_value(ls.last()) {
            Some(kv) => kvs(ls.drop_last()).push(kv),
            None => kvs(ls.drop_last()),
        }
    }
}

/// The `key=value` lines of a named section, header excluded.
pub open spec fn section_entries(text: Seq<char>, name: Seq<char>) -> Seq<(Seq<char>, Seq<char>)> {
    match section_span(text, name) {
        Some((s, e)) => {
            let ls = lines(text.subrange(s, e));
            kvs(if ls.len() > 0 { ls.drop_first() } else { ls })
        },
        None => Seq::empty(),
    }
}

/// `s` with `p` removed from its end.
pub open spec fn strip_suffix(s: Seq<char>, p: Seq<char>) -> Option<Seq<char>> {
    if p.len() <= s.len() && s.skip(s.len() - p.len()) == p {
        Some(s.take(s.len() - p.len()))
    } else {
        None
    }
}

/// `s` with `p` removed from its start.
pub open spec fn strip_prefix(s: Seq<char>, p: Seq<char>) -> Option<Seq<char>> {
    if p.len() <= s.len() && s.take(p.len() as int) == p {
        Some(s.skip(p.len() as int))
    } else {
        None
    }
}

/// `\name`.
pub open spec fn name_suffix() -> Seq<char> {
    seq!['\\', 'n', 'a', 'm', 'e']
}

/// An `[INI Tweaks]` array entry `<n>\name=<file>` as `(n, file)`.
pub open spec fn tweak_entry(kv: (Seq<char>, Seq<char>)) -> Option<(u32, Seq<char>)> {
    match strip_suffix(kv.0, name_suffix()) {
        Some(idx) => match parse_u32_spec(trim(idx)) {
            Some(n) => if trim(kv.1).len() > 0 { Some((n, trim(kv.1))) } else { None },
            None => None,
        },
        None => None,
    }
}

/// The escaped BAIN key prefix, `BAIN%20Installer\`.
pub open spec fn bain_prefix_escaped() -> Seq<char> {
    seq!['B', 'A', 'I', 'N', '%', '2', '0', 'I', 'n', 's', 't', 'a', 'l', 'l', 'e', 'r', '\\']
}

/// The plain BAIN key prefix, `BAIN Installer\`.
pub open spec fn bain_prefix_plain() -> Seq<char> {
    seq!['B', 'A', 'I', 'N', ' ', 'I', 'n', 's', 't', 'a', 'l', 'l', 'e', 'r', '\\']
}

/// `option`.
pub open spec fn option_word() -> Seq<char> {
    seq!['o', 'p', 't', 'i', 'o', 'n']
}

/// A `[Plugins]` entry `BAIN%20Installer\option<n>=<name>` as `(n, name)`.
pub open spec fn bain_entry(kv: (Seq<char>, Seq<char>)) -> Option<(u32, Seq<char>)> {
    let rest = match strip_prefix(kv.0, bain_prefix_escaped()) {
        Some(r) => Some(r),
        None => strip_prefix(kv.0, bain_prefix_plain()),
    };
    match rest {
        Some(r) => match strip_prefix(r, option_word()) {
            Some(idx) => match parse_u32_spec(trim(idx)) {
                Some(n) => if trim(kv.1).len() > 0 { Some((n, trim(kv.1))) } else { None },
                None => None,
            },
            None => None,
        },
        None => None,
    }
}

/// Where an entry with index `n` goes in a list sorted by index: after every
/// entry whose index is not greater.
pub open spec fn idx_pos(sorted: Seq<(u32, Seq<char>)>, n: u32) -> int
    decreases sorted.len(),
{
    if sorted.len() == 0 {
        0
    } else if n < sorted.last().0 {
        idx_pos(sorted.drop_last(), n)
    } else {
        sorted.len() as int
    }
}

/// A stable sort by index.
pub open spec fn sort_by_idx(s: Seq<(u32, Seq<char>)>) -> Seq<(u32, Seq<char>)>
    decreases s.len(),
{
    if s.len() == 0 {
        Seq::empty()
    } else {
        let p = sort_by_idx(s.drop_last());
        p.insert(idx_pos(p, s.last().0), s.last())
    }
}

/// The indexed entries of a section, in file order.
pub open spec fn indexed(kv: Seq<(Seq<char>, Seq<char>)>, bain: bool) -> Seq<(u32, Seq<char>)>
    decreases kv.len(),
{
    if kv.len() == 0 {
        Seq::empty()
    } else {
        let e = if bain { bain_entry(kv.last()) } else { tweak_entry(kv.last()) };
        match e {
            Some(x) => indexed(kv.drop_last(), bain).push(x),
            None => indexed(kv.drop_last(), bain),
        }
    }
}

/// The names of indexed entries.
pub open spec fn idx_names(s: Seq<(u32, Seq<char>)>) -> Seq<Seq<char>> {
    s.map_values(|e: (u32, Seq<char>)| e.1)
}

/// `INI Tweaks`.
pub open spec fn tweaks_section() -> Seq<char> {
    seq!['I', 'N', 'I', ' ', 'T', 'w', 'e', 'a', 'k', 's']
}

/// `Plugins`.
pub open spec fn plugins_section() -> Seq<char> {
    seq!['P', 'l', 'u', 'g', 'i', 'n', 's']
}

/// The enabled INI-tweak fragments of a tail, ordered by their array index.
pub open spec fn tweaks_of(tail: Seq<char>) -> Seq<Seq<char>> {
    idx_names(sort_by_idx(indexed(section_entries(tail, tweaks_section()), false)))
}

/// The BAIN sub-packages recorded in a tail, ordered by option index.
pub open spec fn bain_of(tail: Seq<char>) -> Seq<Seq<char>> {
    idx_names(sort_by_idx(indexed(section_entries(tail, plugins_section()), true)))
}

/// The metadata a `meta.ini` text gives.
pub open spec fn parse_meta(text: Seq<char>) -> MetaM {
    let (g, tail) = scan_general(text, false);
    MetaM {
        general: g,
        tail,
        ini_tweaks: tweaks_of(tail),
        bain_options: bain_of(tail),
        crlf: is_crlf(text),
        dirty: false,
    }
}

fn scan_general_exec(v: &[char]) -> (r: (Vec<(String, String)>, Vec<char>))
    ensures
        (pairs_view(r.0@), r.1@) == scan_general(v@, false),
{
    let mut general: Vec<(String, String)> = Vec::new();
    let mut in_general = false;
    let mut pos: usize = 0;
    let general_word = ['G', 'e', 'n', 'e', 'r', 'a', 'l'];
    assert(general_word@ =~= general_name());
    assert(v@.skip(0) =~= v@);
    assert(pairs_view(general@) =~= Seq::<(Seq<char>, Seq<char>)>::empty());
    while pos < v.len()
        invariant
            pos <= v@.len(),
            general_word@ == general_name(),
            !in_general ==> general@.len() == 0,
            scan_general(v@, false) == {
                let (g, tail) = scan_general(v@.skip(pos as int), in_general);
                (pairs_view(general@) + g, tail)
            },
        decreases v.len() - pos,
    {
        let ghost r = v@.skip(pos as int);
        let e = seg_end(v, pos);
        let seg = slice_vec(v, pos, e);
        assert(seg@ =~= r.take(e - pos));
        assert(r.skip(e - pos) =~= v@.skip(e as int));
        let body = seg_body_exec(&seg);
        let sec = section_header_exec(&body);
        if !in_general {
            match sec {
                Some(h) => {
                    if eq_ic_chars(&h, &general_word) {
                        in_general = true;
                    }
                },
                None => {},
            }
            pos = e;
        } else {
            if sec.is_none() {
                match key_value_exec(&body) {
                    Some((k, val)) => {
                        let ghost before = pairs_view(general@);
                        general.push((string_of(&k), string_of(&val)));
                        proof {
                            let (g2, t2) = scan_general(v@.skip(e as int), true);
                            assert(pairs_view(general@) =~= before.push((k@, val@)));
                            assert(before + (seq![(k@, val@)] + g2) =~= pairs_view(general@) + g2);
                        }
                        pos = e;
                        continue;
                    },
                    None => {},
                }
            }
            let n = v.len();
            let tail = slice_vec(v, pos, n);
            assert(tail@ =~= r);
            assert(pairs_view(general@) + Seq::<(Seq<char>, Seq<char>)>::empty() =~= pairs_view(general@));
            return (general, tail);
        }
    }
    assert(v@.skip(pos as int) =~= Seq::<char>::empty());
    assert(pairs_view(general@) + Seq::<(Seq<char>, Seq<char>)>::empty() =~= pairs_view(general@));
    (general, Vec::new())
}

fn section_span_exec(t: &[char], name: &[char]) -> (r: Option<(usize, usize)>)
    ensures
        match r {
            Some((s, e)) => section_span(t@, name@) == Some((s as int, e as int)) && s <= e <= t@.len(),
            None => section_span(t@, name@) is None,
        },
{
    let mut start: Option<usize> = None;
    let mut pos: usize = 0;
    assert(t@.skip(0) =~= t@);
    while pos < t.len()
        invariant
            pos <= t@.len(),
            match start {
                Some(s) => s <= pos,
                None => true,
            },
            section_span(t@, name@) == span_scan(t@.skip(pos as int), pos as int, t@.len() as int, name@, match start {
                Some(s) => Some(s as int),
                None => None::<int>,
            }),
        decreases t.len() - pos,
    {
        let ghost r = t@.skip(pos as int);
        let e = seg_end(t, pos);
        let seg = slice_vec(t, pos, e);
        assert(seg@ =~= r.take(e - pos));
        assert(r.skip(e - pos) =~= t@.skip(e as int));
        let body = seg_body_exec(&seg);
        match section_header_exec(&body) {
            Some(h) => {
                if start.is_some() {
                    return Some((start.unwrap(), pos));
                }
                if eq_ic_chars(&h, name) {
                    start = Some(pos);
                }
            },
            None => {},
        }
        pos = e;
    }
    assert(t@.skip(pos as int).len() == 0);
    match start {
        Some(s) => Some((s, t.len())),
        None => None,
    }
}

fn kvs_exec(ls: &Vec<Vec<char>>, from: usize) -> (r: Vec<(Vec<char>, Vec<char>)>)
    requires
        from <= ls@.len(),
    ensures
        r@.map_values(|p: (Vec<char>, Vec<char>)| (p.0@, p.1@)) == kvs(ls@.map_values(|l: Vec<char>| l@).skip(from as int)),
{
    let ghost lm = ls@.map_values(|l: Vec<char>| l@).skip(from as int);
    let mut out: Vec<(Vec<char>, Vec<char>)> = Vec::new();
    let mut i: usize = from;
    assert(lm.take(0) =~= Seq::<Seq<char>>::empty());
    assert(out@.map_values(|p: (Vec<char>, Vec<char>)| (p.0@, p.1@)) =~= Seq::<(Seq<char>, Seq<char>)>::empty());
    while i < ls.len()
        invariant
            from <= i <= ls@.len(),
            lm == ls@.map_values(|l: Vec<char>| l@).skip(from as int),
            out@.map_values(|p: (Vec<char>, Vec<char>)| (p.0@, p.1@)) == kvs(lm.take(i - from)),
        decreases ls.len() - i,
    {
        assert(lm.take(i - from + 1).drop_last() =~= lm.take(i - from));
        assert(lm.take(i - from + 1).last() == ls@[i as int]@);
        match key_value_exec(&ls[i]) {
            Some((k, v)) => {
                let ghost before = out@.map_values(|p: (Vec<char>, Vec<char>)| (p.0@, p.1@));
                out.push((k, v));
                assert(out@.map_values(|p: (Vec<char>, Vec<char>)| (p.0@, p.1@)) =~= before.push((out@.last().0@, out@.last().1@)));
            },
            None => {},
        }
        i = i + 1;
    }
    assert(lm.take(i - from) =~= lm);
    out
}

fn section_entries_exec(t: &[char], name: &[char]) -> (r: Vec<(Vec<char>, Vec<char>)>)
    ensures
        r@.map_values(|p: (Vec<char>, Vec<char>)| (p.0@, p.1@)) == section_entries(t@, name@),
{
    match section_span_exec(t, name) {
        Some((s, e)) => {
            let part = slice_vec(t, s, e);
            let ls = lines_vec(&part);
            let ghost lm = lines(part@);
            assert(ls@.map_values(|l: Vec<char>| l@) =~= lm);
            if ls.len() > 0 {
                assert(lm.drop_first() =~= lm.skip(1));
                kvs_exec(&ls, 1)
            } else {
                assert(lm.skip(0) =~= lm);
                kvs_exec(&ls, 0)
            }
        },
        None => {
            let r: Vec<(Vec<char>, Vec<char>)> = Vec::new();
            assert(r@.map_values(|p: (Vec<char>, Vec<char>)| (p.0@, p.1@)) =~= Seq::<(Seq<char>, Seq<char>)>::empty());
            r
        },
    }
}

fn strip_prefix_exec(s: &[char], p: &[char]) -> (r: Option<Vec<char>>)
    ensures
        match r {
            Some(v) => strip_prefix(s@, p@) == Some(v@),
            None => strip_prefix(s@, p@) is None,
        },
{
    if p.len() <= s.len() {
        let head = slice_vec(s, 0, p.len());
        assert(head@ =~= s@.take(p@.len() as int));
        if crate::text::eq_chars(&head, p) {
            let n = s.len();
            let rest = slice_vec(s, p.len(), n);
            assert(rest@ =~= s@.skip(p@.len() as int));
            return Some(rest);
        }
    }
    None
}

/// `s` with `p` removed from its start, for other modules.
pub fn strip_prefix_pub(s: &[char], p: &[char]) -> (r: Option<Vec<char>>)
    ensures
        match r {
            Some(v) => strip_prefix(s@, p@) == Some(v@),
            None => strip_prefix(s@, p@) is None,
        },
{
    strip_prefix_exec(s, p)
}

fn strip_suffix_exec(s: &[char], p: &[char]) -> (r: Option<Vec<char>>)
    ensures
        match r {
            Some(v) => strip_suffix(s@, p@) == Some(v@),
            None => strip_suffix(s@, p@) is None,
        },
{
    if p.len() <= s.len() {
        let n = s.len();
        let k = n - p.len();
        let tailv = slice_vec(s, k, n);
        assert(tailv@ =~= s@.skip(k as int));
        if crate::text::eq_chars(&tailv, p) {
            let head = slice_vec(s, 0, k);
            assert(head@ =~= s@.take(k as int));
            return Some(head);
        }
    }
    None
}

fn entry_exec(kv: &(Vec<char>, Vec<char>), bain: bool) -> (r: Option<(u32, Vec<char>)>)
    ensures
        match r {
            Some((n, v)) => (if bain { bain_entry((kv.0@, kv.1@)) } else { tweak_entry((kv.0@, kv.1@)) }) == Some((n, v@)),
            None => (if bain { bain_entry((kv.0@, kv.1@)) } else { tweak_entry((kv.0@, kv.1@)) }) is None,
        },
{
    let idx = if bain {
        let esc = ['B', 'A', 'I', 'N', '%', '2', '0', 'I', 'n', 's', 't', 'a', 'l', 'l', 'e', 'r', '\\'];
        let plain = ['B', 'A', 'I', 'N', ' ', 'I', 'n', 's', 't', 'a', 'l', 'l', 'e', 'r', '\\'];
        let opt = ['o', 'p', 't', 'i', 'o', 'n'];
        assert(esc@ =~= bain_prefix_escaped());
        assert(plain@ =~= bain_prefix_plain());
        assert(opt@ =~= option_word());
        let rest = match strip_prefix_exec(&kv.0, &esc) {
            Some(r) => Some(r),
            None => strip_prefix_exec(&kv.0, &plain),
        };
        match rest {
            Some(r) => strip_prefix_exec(&r, &opt),
            None => None,
        }
    } else {
        let suf = ['\\', 'n', 'a', 'm', 'e'];
        assert(suf@ =~= name_suffix());
        strip_suffix_exec(&kv.0, &suf)
    };
    match idx {
        Some(i) => {
            let it = trim_vec(&i);
            match parse_u32_vec(&it) {
                Some(n) => {
                    let vt = trim_vec(&kv.1);
                    if vt.len() > 0 {
                        Some((n, vt))
                    } else {
                        None
                    }
                },
                None => None,
            }
        },
        None => None,
    }
}

/// The names of a section's indexed entries, ordered by index.
fn indexed_names(tail: &[char], name: &[char], bain: bool) -> (r: Vec<String>)
    ensures
        strs_view(r@) == idx_names(sort_by_idx(indexed(section_entries(tail@, name@), bain))),
{
    let es = section_entries_exec(tail, name);
    let ghost em = es@.map_values(|p: (Vec<char>, Vec<char>)| (p.0@, p.1@));
    let mut sorted: Vec<(u32, Vec<char>)> = Vec::new();
    let mut i: usize = 0;
    assert(sorted@.map_values(|e: (u32, Vec<char>)| (e.0, e.1@)) =~= Seq::<(u32, Seq<char>)>::empty());
    while i < es.len()
        invariant
            i <= es@.len(),
            em == es@.map_values(|p: (Vec<char>, Vec<char>)| (p.0@, p.1@)),
            sorted@.map_values(|e: (u32, Vec<char>)| (e.0, e.1@)) == sort_by_idx(indexed(em.take(i as int), bain)),
        decreases es.len() - i,
    {
        assert(em.take(i + 1).drop_last() =~= em.take(i as int));
        assert(em.take(i + 1).last() == (es@[i as int].0@, es@[i as int].1@));
        match entry_exec(&es[i], bain) {
            Some((n, v)) => {
                let ghost sv = sorted@.map_values(|e: (u32, Vec<char>)| (e.0, e.1@));
                let ghost xs = indexed(em.take(i + 1), bain);
                assert(xs.drop_last() =~= indexed(em.take(i as int), bain));
                assert(xs.last() == (n, v@));
                let mut k: usize = sorted.len();
                assert(sv.take(k as int) =~= sv);
                while k > 0 && n < sorted[k - 1].0
                    invariant
                        k <= sorted@.len(),
                        sv == sorted@.map_values(|e: (u32, Vec<char>)| (e.0, e.1@)),
                        idx_pos(sv, n) == idx_pos(sv.take(k as int), n),
                    decreases k,
                {
                    assert(sv.take(k as int).drop_last() =~= sv.take(k - 1));
                    assert(sv.take(k as int).last() == sv[k - 1]);
                    k = k - 1;
                }
                proof {
                    if k > 0 {
                        assert(sv.take(k as int).last() == sv[k - 1]);
                    }
                }
                let ghost vv = v@;
                sorted.insert(k, (n, v));
                assert(sorted@.map_values(|e: (u32, Vec<char>)| (e.0, e.1@)) =~= sv.insert(k as int, (n, vv)));
            },
            None => {},
        }
        i = i + 1;
    }
    assert(em.take(i as int) =~= em);
    let ghost sm = sorted@.map_values(|e: (u32, Vec<char>)| (e.0, e.1@));
    let mut out: Vec<String> = Vec::new();
    let mut j: usize = 0;
    while j < sorted.len()
        invariant
            j <= sorted@.len(),
            sm == sorted@.map_values(|e: (u32, Vec<char>)| (e.0, e.1@)),
            strs_view(out@) == idx_names(sm.take(j as int)),
        decreases sorted.len() - j,
    {
        let ghost before = strs_view(out@);
        let nm = string_of(&sorted[j].1);
        assert(nm@ == sm[j as int].1);
        out.push(nm);
        assert(strs_view(out@) =~= before.push(nm@));
        assert(idx_names(sm.take(j + 1)) =~= idx_names(sm.take(j as int)).push(sm[j as int].1));
        assert(strs_view(out@) =~= idx_names(sm.take(j + 1)));
        j = j + 1;
    }
    assert(sm.take(j as int) =~= sm);
    out
}

impl ModMeta {
    /// The metadata a `meta.ini` text holds, clean.
    pub fn from_text(text: &str) -> (m: ModMeta)
        ensures
            m@ == parse_meta(text@),
    {
        let v = chars_of(text);
        let crlf = is_crlf_exec(&v);
        let (general, tail) = scan_general_exec(&v);
        let tw = ['I', 'N', 'I', ' ', 'T', 'w', 'e', 'a', 'k', 's'];
        let pl = ['P', 'l', 'u', 'g', 'i', 'n', 's'];
        assert(tw@ =~= tweaks_section());
        assert(pl@ =~= plugins_section());
        let ini_tweaks = indexed_names(&tail, &tw, false);
        let bain_options = indexed_names(&tail, &pl, true);
        ModMeta { general, tail: string_of(&tail), ini_tweaks, bain_options, crlf, dirty: false }
    }
}


/// The line ending a metadata file is written with.
pub open spec fn eol(crlf: bool) -> Seq<char> {
    if crlf { seq!['\r', '\n'] } else { seq!['\n'] }
}

/// `key=value` lines of the `[General]` entries.
pub open spec fn general_lines(g: Seq<(Seq<char>, Seq<char>)>, e: Seq<char>) -> Seq<char>
    decreases g.len(),
{
    if g.len() == 0 {
        Seq::empty()
    } else {
        general_lines(g.drop_last(), e) + g.last().0 + seq!['='] + g.last().1 + e
    }
}

/// The text a metadata file is written as: the `[General]` header, its
/// entries, then the tail verbatim.
pub open spec fn render_meta(m: MetaM) -> Seq<char> {
    seq!['[', 'G', 'e', 'n', 'e', 'r', 'a', 'l', ']'] + eol(m.crlf) + general_lines(m.general, eol(m.crlf)) + m.tail
}

/// Lines, each followed by `e`.
pub open spec fn body_text(body: Seq<Seq<char>>, e: Seq<char>) -> Seq<char>
    decreases body.len(),
{
    if body.len() == 0 {
        Seq::empty()
    } else {
        body_text(body.drop_last(), e) + body.last() + e
    }
}

/// A section's text: its header and lines; nothing for no lines.
pub open spec fn section_text(name: Seq<char>, body: Seq<Seq<char>>, e: Seq<char>) -> Seq<char> {
    if body.len() == 0 {
        Seq::empty()
    } else {
        seq!['['] + name + seq![']'] + e + body_text(body, e)
    }
}

/// A tail with one named section replaced by `body`: removed for no lines,
/// appended when it was not there.
pub open spec fn replace_section(tail: Seq<char>, name: Seq<char>, body: Seq<Seq<char>>, e: Seq<char>) -> Seq<char> {
    let sec = section_text(name, body, e);
    match section_span(tail, name) {
        Some((s, en)) => tail.take(s) + sec + tail.skip(en),
        None => if sec.len() == 0 {
            tail
        } else {
            (if tail.len() > 0 && tail.last() != '\n' { tail + e } else { tail }) + sec
        },
    }
}

/// `size=`.
pub open spec fn size_eq() -> Seq<char> {
    seq!['s', 'i', 'z', 'e', '=']
}

/// The `[INI Tweaks]` array lines: `<n>\name=<file>` one-based, then
/// `size=<count>`; nothing for no fragments.
pub open spec fn tweak_lines(names: Seq<Seq<char>>) -> Seq<Seq<char>> {
    if names.len() == 0 {
        Seq::empty()
    } else {
        Seq::new(names.len(), |i: int| dec((i + 1) as nat) + name_suffix() + seq!['='] + names[i])
            .push(size_eq() + dec(names.len()))
    }
}

/// The `[Plugins]` lines: `BAIN%20Installer\option<n>=<name>` zero-based.
pub open spec fn bain_lines(names: Seq<Seq<char>>) -> Seq<Seq<char>> {
    Seq::new(names.len(), |i: int| bain_prefix_escaped() + option_word() + dec(i as nat) + seq!['='] + names[i])
}

fn eol_exec(crlf: bool) -> (e: Vec<char>)
    ensures
        e@ == eol(crlf),
{
    let mut e: Vec<char> = Vec::new();
    if crlf {
        e.push('\r');
    }
    e.push('\n');
    assert(e@ =~= eol(crlf));
    e
}

fn same_strs(a: &Vec<String>, b: &[String]) -> (r: bool)
    ensures
        r == (strs_view(a@) == strs_view(b@)),
{
    if a.len() != b.len() {
        assert(strs_view(a@).len() != strs_view(b@).len());
        return false;
    }
    let mut i: usize = 0;
    while i < a.len()
        invariant
            i <= a@.len(),
            a@.len() == b@.len(),
            forall|j: int| 0 <= j < i ==> a@[j]@ == b@[j]@,
        decreases a.len() - i,
    {
        if !crate::text::eq_str(a[i].as_str(), b[i].as_str()) {
            assert(strs_view(a@)[i as int] != strs_view(b@)[i as int]);
            return false;
        }
        i = i + 1;
    }
    assert(strs_view(a@) =~= strs_view(b@));
    true
}

fn copy_strs(b: &[String]) -> (r: Vec<String>)
    ensures
        strs_view(r@) == strs_view(b@),
{
    let mut out: Vec<String> = Vec::new();
    let mut i: usize = 0;
    while i < b.len()
        invariant
            i <= b@.len(),
            strs_view(out@) == strs_view(b@).take(i as int),
        decreases b.len() - i,
    {
        let ghost before = strs_view(out@);
        let c = b[i].clone();
        assert(c@ == strs_view(b@)[i as int]);
        out.push(c);
        assert(strs_view(out@) =~= before.push(c@));
        assert(strs_view(out@) =~= strs_view(b@).take(i + 1));
        i = i + 1;
    }
    assert(strs_view(b@).take(i as int) =~= strs_view(b@));
    out
}

impl ModMeta {
    /// The text the metadata is written as: `[General]`, its entries, and the
    /// preserved tail, in the original line-ending style.
    pub fn to_text(&self) -> (s: String)
        ensures
            s@ == render_meta(self@),
            writable_meta(self@) ==> parse_meta(s@).general == self@.general && parse_meta(s@).tail == self@.tail
                && parse_meta(s@).crlf == self@.crlf,
    {
        proof {
            if writable_meta(self@) {
                lemma_meta_round_trip(self@);
            }
        }
        let e = eol_exec(self.crlf);
        let mut out = String::new();
        let head = ['[', 'G', 'e', 'n', 'e', 'r', 'a', 'l', ']'];
        push_chars(&mut out, &head);
        push_chars(&mut out, &e);
        let ghost g = self@.general;
        let ghost base = out@;
        let mut i: usize = 0;
        while i < self.general.len()
            invariant
                i <= self.general@.len(),
                g == pairs_view(self.general@),
                e@ == eol(self.crlf),
                out@ == base + general_lines(g.take(i as int), e@),
            decreases self.general.len() - i,
        {
            assert(g.take(i + 1).drop_last() =~= g.take(i as int));
            assert(g.take(i + 1).last() == (self.general@[i as int].0@, self.general@[i as int].1@));
            push_str(&mut out, self.general[i].0.as_str());
            push_char(&mut out, '=');
            push_str(&mut out, self.general[i].1.as_str());
            push_chars(&mut out, &e);
            assert(out@ =~= base + general_lines(g.take(i + 1), e@));
            i = i + 1;
        }
        assert(g.take(i as int) =~= g);
        push_str(&mut out, self.tail.as_str());
        assert(out@ =~= render_meta(self@));
        out
    }

    /// Replace one named section of the tail with `body`.
    fn replace_section_exec(&mut self, name: &[char], body: &Vec<Vec<char>>)
        ensures
            final(self)@ == (MetaM {
                tail: replace_section(old(self)@.tail, name@, body@.map_values(|l: Vec<char>| l@), eol(old(self)@.crlf)),
                ..old(self)@
            }),
    {
        let e = eol_exec(self.crlf);
        let ghost bm = body@.map_values(|l: Vec<char>| l@);
        let mut sec: Vec<char> = Vec::new();
        if body.len() > 0 {
            sec.push('[');
            let mut nm = dup(&name);
            sec.append(&mut nm);
            sec.push(']');
            let mut ee = dup(&e);
            sec.append(&mut ee);
            let ghost base = sec@;
            let mut i: usize = 0;
            while i < body.len()
                invariant
                    i <= body@.len(),
                    bm == body@.map_values(|l: Vec<char>| l@),
                    e@ == eol(self.crlf),
                    sec@ == base + body_text(bm.take(i as int), e@),
                decreases body.len() - i,
            {
                assert(bm.take(i + 1).drop_last() =~= bm.take(i as int));
                let mut line = dup(&body[i]);
                let mut ee = dup(&e);
                sec.append(&mut line);
                sec.append(&mut ee);
                assert(sec@ =~= base + body_text(bm.take(i + 1), e@));
                i = i + 1;
            }
            assert(bm.take(i as int) =~= bm);
            assert(sec@ =~= section_text(name@, bm, e@));
        } else {
            assert(sec@ =~= section_text(name@, bm, e@));
        }
        let t = chars_of(self.tail.as_str());
        match section_span_exec(&t, name) {
            Some((s, en)) => {
                let mut out = slice_vec(&t, 0, s);
                let mut sc = dup(&sec);
                out.append(&mut sc);
                let n = t.len();
                let mut rest = slice_vec(&t, en, n);
                out.append(&mut rest);
                assert(out@ =~= t@.take(s as int) + sec@ + t@.skip(en as int));
                self.tail = string_of(&out);
            },
            None => {
                if sec.len() > 0 {
                    let mut out = dup(&t);
                    if t.len() > 0 && t[t.len() - 1] != '\n' {
                        let mut ee = dup(&e);
                        out.append(&mut ee);
                    }
                    let mut sc = dup(&sec);
                    out.append(&mut sc);
                    self.tail = string_of(&out);
                }
            },
        }
    }

    /// Replace the enabled fragment list; an empty list removes the section.
    /// Written as the array form: `<n>\name=<file>` one-based, then `size`.
    pub fn set_ini_tweaks(&mut self, names: &[String])
        ensures
            old(self)@.ini_tweaks == strs_view(names@) ==> final(self)@ == old(self)@,
            old(self)@.ini_tweaks != strs_view(names@) ==> final(self)@ == (MetaM {
                ini_tweaks: strs_view(names@),
                tail: replace_section(old(self)@.tail, tweaks_section(), tweak_lines(strs_view(names@)), eol(old(self)@.crlf)),
                dirty: true,
                ..old(self)@
            }),
    {
        if same_strs(&self.ini_tweaks, names) {
            return;
        }
        let ghost nv = strs_view(names@);
        self.ini_tweaks = copy_strs(names);
        let mut body: Vec<Vec<char>> = Vec::new();
        if names.len() > 0 {
            let suf = ['\\', 'n', 'a', 'm', 'e', '='];
            let mut i: usize = 0;
            while i < names.len()
                invariant
                    i <= names@.len(),
                    nv == strs_view(names@),
                    suf@ == name_suffix() + seq!['='],
                    body@.map_values(|l: Vec<char>| l@) == Seq::new(nv.len(), |k: int| dec((k + 1) as nat) + name_suffix() + seq!['='] + nv[k]).take(i as int),
                decreases names.len() - i,
            {
                let mut line = crate::text::dec_vec((i + 1) as u64);
                let mut sv = dup(&suf);
                line.append(&mut sv);
                let mut nm = chars_of(names[i].as_str());
                line.append(&mut nm);
                let ghost before = body@.map_values(|l: Vec<char>| l@);
                let ghost lv = line@;
                assert(nv[i as int] == names@[i as int]@);
                assert(lv =~= dec((i + 1) as nat) + name_suffix() + seq!['='] + nv[i as int]);
                body.push(line);
                assert(body@.map_values(|l: Vec<char>| l@) =~= before.push(lv));
                assert(body@.map_values(|l: Vec<char>| l@) =~= Seq::new(nv.len(), |k: int| dec((k + 1) as nat) + name_suffix() + seq!['='] + nv[k]).take(i + 1));
                i = i + 1;
            }
            let mut size = vec!['s', 'i', 'z', 'e', '='];
            let mut d = crate::text::dec_vec(names.len() as u64);
            size.append(&mut d);
            let ghost before = body@.map_values(|l: Vec<char>| l@);
            let ghost sz = size@;
            body.push(size);
            assert(body@.map_values(|l: Vec<char>| l@) =~= before.push(sz));
            assert(body@.map_values(|l: Vec<char>| l@) =~= tweak_lines(nv));
        } else {
            assert(body@.map_values(|l: Vec<char>| l@) =~= tweak_lines(nv));
        }
        let tw = ['I', 'N', 'I', ' ', 'T', 'w', 'e', 'a', 'k', 's'];
        assert(tw@ =~= tweaks_section());
        self.replace_section_exec(&tw, &body);
        self.dirty = true;
    }

    /// Record the ticked BAIN sub-packages; an empty list removes the section.
    pub fn set_bain_options(&mut self, options: &[String])
        ensures
            old(self)@.bain_options == strs_view(options@) ==> final(self)@ == old(self)@,
            old(self)@.bain_options != strs_view(options@) ==> final(self)@ == (MetaM {
                bain_options: strs_view(options@),
                tail: replace_section(old(self)@.tail, plugins_section(), bain_lines(strs_view(options@)), eol(old(self)@.crlf)),
                dirty: true,
                ..old(self)@
            }),
    {
        if same_strs(&self.bain_options, options) {
            return;
        }
        let ghost nv = strs_view(options@);
        self.bain_options = copy_strs(options);
        let pre = ['B', 'A', 'I', 'N', '%', '2', '0', 'I', 'n', 's', 't', 'a', 'l', 'l', 'e', 'r', '\\', 'o', 'p', 't', 'i', 'o', 'n'];
        assert(pre@ =~= bain_prefix_escaped() + option_word());
        let mut body: Vec<Vec<char>> = Vec::new();
        let mut i: usize = 0;
        while i < options.len()
            invariant
                i <= options@.len(),
                nv == strs_view(options@),
                pre@ == bain_prefix_escaped() + option_word(),
                body@.map_values(|l: Vec<char>| l@) == bain_lines(nv).take(i as int),
            decreases options.len() - i,
        {
            let mut line = dup(&pre);
            let mut d = crate::text::dec_vec(i as u64);
            line.append(&mut d);
            line.push('=');
            let mut nm = chars_of(options[i].as_str());
            line.append(&mut nm);
            let ghost before = body@.map_values(|l: Vec<char>| l@);
            let ghost lv = line@;
            assert(nv[i as int] == options@[i as int]@);
            assert(lv =~= bain_prefix_escaped() + option_word() + dec(i as nat) + seq!['='] + nv[i as int]);
            body.push(line);
            assert(body@.map_values(|l: Vec<char>| l@) =~= before.push(lv));
            assert(body@.map_values(|l: Vec<char>| l@) =~= bain_lines(nv).take(i + 1));
            i = i + 1;
        }
        assert(bain_lines(nv).take(i as int) =~= bain_lines(nv));
        let pl = ['P', 'l', 'u', 'g', 'i', 'n', 's'];
        assert(pl@ =~= plugins_section());
        self.replace_section_exec(&pl, &body);
        self.dirty = true;
    }
}


/// A copy of a character run.
fn dup(a: &[char]) -> (r: Vec<char>)
    ensures
        r@ == a@,
{
    let n = a.len();
    let r = slice_vec(a, 0, n);
    assert(r@ =~= a@);
    r
}

/// Setting a key leaves every key that differs from it (ignoring ASCII
/// case) reading as before.
pub proof fn lemma_raw_other_key(g: Seq<(Seq<char>, Seq<char>)>, key: Seq<char>, v: Seq<char>, other: Seq<char>)
    requires
        !eq_ic(key, other),
    ensures
        raw_of(set_general(g, key, v), other) == raw_of(g, other),
{
    lemma_find_key(g, key);
    lemma_find_key(g, other);
    let h = set_general(g, key, v);
    assert forall|j: int| 0 <= j < g.len() implies eq_ic((#[trigger] h[j]).0, other) == eq_ic(g[j].0, other) by {
        assert(h[j].0 == g[j].0);
    }
    match find_key(g, other) {
        Some(i) => {
            assert forall|j: int| 0 <= j < i implies !eq_ic(#[trigger] h[j].0, other) by {
                assert(h[j].0 == g[j].0);
            }
            assert(h[i].0 == g[i].0);
            lemma_find_key_at(h, other, i);
            match find_key(g, key) {
                Some(k) => {
                    if k == i {
                        assert(eq_ic(g[i].0, key));
                        assert(crate::text::lower(key) == crate::text::lower(other));
                    }
                },
                None => {},
            }
        },
        None => {
            match find_key(g, key) {
                Some(k) => {
                    assert forall|j: int| 0 <= j < h.len() implies !eq_ic(#[trigger] h[j].0, other) by {
                        assert(h[j].0 == g[j].0);
                    }
                    lemma_find_key_at(h, other, h.len() as int);
                },
                None => {
                    assert forall|j: int| 0 <= j < h.len() implies !eq_ic(#[trigger] h[j].0, other) by {
                        if j < g.len() {
                            assert(h[j].0 == g[j].0);
                        } else {
                            assert(h[j].0 == key);
                        }
                    }
                    lemma_find_key_at(h, other, h.len() as int);
                },
            }
        },
    }
}

/// A flag set in the `1`/`0` or `true`/`false` form reads back as set.
pub proof fn lemma_flag_after_set(m: MetaM, key: Seq<char>, b: bool)
    ensures
        flag_of(set_meta(m, key, one_zero(b)).general, key) == b,
        flag_of(set_meta(m, key, true_false(b)).general, key) == b,
{
    reveal_strlit("1");
    reveal_strlit("0");
    reveal_strlit("true");
    reveal_strlit("false");
    lemma_raw_after_set(m.general, key, one_zero(b));
    lemma_raw_after_set(m.general, key, true_false(b));
    crate::text::lemma_trim_fixed(one_zero(b));
    crate::text::lemma_trim_fixed(true_false(b));
    assert("0"@[0] != "1"@[0]);
    assert("false"@.len() != "true"@.len());
    assert("0"@.len() != "true"@.len());
    assert("false"@[0] != "1"@[0]);
}

/// A time stamp set reads back, `0` as absent.
pub proof fn lemma_number_after_set(m: MetaM, key: Seq<char>, n: u64)
    ensures
        number_of(set_meta(m, key, dec(n as nat)).general, key) == (if n != 0 { Some(n) } else { None }),
{
    lemma_raw_after_set(m.general, key, dec(n as nat));
    crate::text::lemma_parse_dec(n);
}

proof fn lemma_escape_plain(t: Seq<char>)
    requires
        forall|j: int| 0 <= j < t.len() ==> t[j] != '"' && t[j] != '\\',
    ensures
        escape_note(t) == t,
    decreases t.len(),
{
    if t.len() > 0 {
        lemma_escape_plain(t.drop_last());
        assert(t.drop_last().push(t.last()) =~= t);
    }
}

/// A note without quotes or backslashes reads back trimmed, and a blank one
/// as no note.
pub proof fn lemma_notes_after_set(m: MetaM, notes: Seq<char>)
    requires
        forall|j: int| 0 <= j < notes.len() ==> notes[j] != '"' && notes[j] != '\\',
    ensures
        string_of_key(set_meta(m, "notes"@, note_raw(notes)).general, "notes"@)
            == (if trim(notes).len() > 0 { Some(trim(notes)) } else { None }),
{
    let t = trim(notes);
    lemma_raw_after_set(m.general, "notes"@, note_raw(notes));
    crate::text::lemma_trim_start_is_suffix(notes);
    crate::text::lemma_trim_end_is_prefix(crate::text::trim_start(notes));
    assert forall|j: int| 0 <= j < t.len() implies t[j] != '"' && t[j] != '\\' by {
        let ts = crate::text::trim_start(notes);
        assert(t[j] == ts[j]);
        assert(ts[j] == notes[notes.len() - ts.len() + j]);
    }
    if t.len() > 0 {
        lemma_escape_plain(t);
        let q = seq!['"'] + t + seq!['"'];
        crate::text::lemma_trim_fixed(q);
        assert(q.subrange(1, q.len() - 1) =~= t);
        assert(unquote(q) == t);
    } else {
        assert(unquote(Seq::<char>::empty()) =~= Seq::<char>::empty()) by {
            assert(trim(Seq::<char>::empty()) =~= Seq::<char>::empty());
        }
    }
}

/// A `[General]` entry that writing and reading back keeps: a plain key on
/// one line, and a value on one line that does not end in `\r`.
pub open spec fn writable_entry(p: (Seq<char>, Seq<char>)) -> bool {
    &&& crate::ini::plain_key(p.0)
    &&& forall|j: int| 0 <= j < p.0.len() ==> p.0[j] != '\n'
    &&& forall|j: int| 0 <= j < p.1.len() ==> p.1[j] != '\n'
    &&& p.1.len() == 0 || p.1.last() != '\r'
}

/// A tail that does not start with a `key=value` line (which reading would
/// take for one more `[General]` entry).
pub open spec fn tail_clean(tail: Seq<char>) -> bool {
    tail.len() == 0 || ({
        let b = seg_body(tail.take(seg_len(tail)));
        section_header(b) is Some || key_value(b) is None
    })
}

/// Metadata that writing and reading back keeps: writable entries, a clean
/// tail, and no CRLF in the tail of an LF file.
pub open spec fn writable_meta(m: MetaM) -> bool {
    &&& forall|i: int| 0 <= i < m.general.len() ==> writable_entry(#[trigger] m.general[i])
    &&& tail_clean(m.tail)
    &&& !m.crlf ==> !is_crlf(m.tail)
}

/// One written entry line with its terminator.
spec fn entry_text(p: (Seq<char>, Seq<char>), e: Seq<char>) -> Seq<char> {
    p.0 + seq!['='] + p.1 + e
}

proof fn lemma_general_lines_front(g: Seq<(Seq<char>, Seq<char>)>, e: Seq<char>)
    requires
        g.len() > 0,
    ensures
        general_lines(g, e) == entry_text(g[0], e) + general_lines(g.drop_first(), e),
    decreases g.len(),
{
    if g.len() == 1 {
        assert(g.drop_last() =~= Seq::<(Seq<char>, Seq<char>)>::empty());
        assert(g.drop_first() =~= Seq::<(Seq<char>, Seq<char>)>::empty());
        assert(general_lines(Seq::<(Seq<char>, Seq<char>)>::empty(), e) =~= Seq::<char>::empty());
        assert(g.last() == g[0]);
        assert(general_lines(g, e) =~= entry_text(g[0], e));
        assert(entry_text(g[0], e) + Seq::<char>::empty() =~= entry_text(g[0], e));
    } else {
        lemma_general_lines_front(g.drop_last(), e);
        assert(g.drop_last()[0] == g[0]);
        assert(g.drop_last().drop_first() =~= g.drop_first().drop_last());
        assert(g.drop_first().last() == g.last());
        assert(general_lines(g, e) =~= entry_text(g[0], e) + general_lines(g.drop_first(), e));
    }
}

/// The segment a terminated line opens a text with.
pub(crate) proof fn lemma_seg_line(l: Seq<char>, crlf: bool, rest: Seq<char>)
    requires
        forall|j: int| 0 <= j < l.len() ==> l[j] != '\n',
        l.len() == 0 || l.last() != '\r',
    ensures
        ({
            let t = l + eol(crlf) + rest;
            &&& seg_len(t) == l.len() + eol(crlf).len()
            &&& seg_body(t.take(seg_len(t))) == l
            &&& t.skip(seg_len(t)) == rest
        }),
{
    let e = eol(crlf);
    let t = l + e + rest;
    let n = l.len() + e.len() - 1;
    assert forall|j: int| 0 <= j < n implies t[j] != '\n' by {
        if j < l.len() {
            assert(t[j] == l[j]);
        } else {
            assert(crlf && t[j] == '\r');
        }
    }
    assert(t[n] == '\n');
    crate::text::lemma_find_char_at(t, '\n', n);
    assert(t.take(n + 1) =~= l + e);
    assert(t.skip(n + 1) =~= rest);
    assert((l + e).drop_last() =~= if crlf { l.push('\r') } else { l });
    assert(crate::ini::strip_cr_all(l) == l);
    if crlf {
        assert(l.push('\r').drop_last() =~= l);
        assert(crate::ini::strip_cr_all(l.push('\r')) == crate::ini::strip_cr_all(l));
    }
    assert(seg_body(t.take(seg_len(t))) == l);
}

/// The parts of an entry line reading takes it for.
proof fn lemma_entry_line(p: (Seq<char>, Seq<char>))
    requires
        writable_entry(p),
    ensures
        ({
            let l = p.0 + seq!['='] + p.1;
            &&& section_header(l) is None
            &&& key_value(l) == Some(p)
            &&& forall|j: int| 0 <= j < l.len() ==> l[j] != '\n'
            &&& l.len() > 0 && l.last() != '\r'
        }),
{
    let (k, v) = p;
    let l = k + seq!['='] + v;
    assert(l[0] == k[0]);
    crate::text::lemma_trim_start_is_suffix(l);
    assert(crate::text::trim_start(l) == l);
    crate::text::lemma_trim_end_is_prefix(l);
    let t = trim(l);
    if t.len() > 0 {
        assert(t[0] == l[0]);
    }
    crate::text::lemma_find_char_at(l, '=', k.len() as int);
    assert(l.take(k.len() as int) =~= k);
    assert(l.skip(k.len() as int + 1) =~= v);
    crate::text::lemma_trim_fixed(k);
    assert forall|j: int| 0 <= j < l.len() implies l[j] != '\n' by {
        if j < k.len() {
            assert(l[j] == k[j]);
        } else if j > k.len() {
            assert(l[j] == v[j - k.len() - 1]);
        }
    }
    if v.len() > 0 {
        assert(l.last() == v.last());
    }
}

/// Reading written entries, then a clean tail, gives back those entries and
/// that tail.
proof fn lemma_scan_written(g: Seq<(Seq<char>, Seq<char>)>, crlf: bool, tail: Seq<char>)
    requires
        forall|i: int| 0 <= i < g.len() ==> writable_entry(#[trigger] g[i]),
        tail_clean(tail),
    ensures
        scan_general(general_lines(g, eol(crlf)) + tail, true) == (g, tail),
    decreases g.len(),
{
    let e = eol(crlf);
    if g.len() == 0 {
        assert(general_lines(g, e) + tail =~= tail);
        if tail.len() > 0 {
            lemma_seg_len(tail);
        }
    } else {
        lemma_general_lines_front(g, e);
        let p = g[0];
        let l = p.0 + seq!['='] + p.1;
        lemma_entry_line(p);
        let rest = general_lines(g.drop_first(), e) + tail;
        assert(general_lines(g, e) + tail =~= l + e + rest);
        lemma_seg_line(l, crlf, rest);
        assert forall|i: int| 0 <= i < g.drop_first().len() implies writable_entry(#[trigger] g.drop_first()[i]) by {
            assert(g.drop_first()[i] == g[i + 1]);
        }
        lemma_scan_written(g.drop_first(), crlf, tail);
        assert(seq![p] + g.drop_first() =~= g);
    }
}

/// A text without a `\r\n`.
spec fn crlf_free(s: Seq<char>) -> bool {
    forall|i: int| 0 <= i < s.len() - 1 ==> !(s[i] == '\r' && #[trigger] s[i + 1] == '\n')
}

proof fn lemma_crlf_free_concat(a: Seq<char>, b: Seq<char>)
    requires
        crlf_free(a),
        crlf_free(b),
        a.len() == 0 || a.last() != '\r',
    ensures
        crlf_free(a + b),
{
    let t = a + b;
    assert forall|i: int| 0 <= i < t.len() - 1 implies !(t[i] == '\r' && #[trigger] t[i + 1] == '\n') by {
        if i + 1 < a.len() {
            assert(t[i] == a[i] && t[i + 1] == a[i + 1]);
        } else if i + 1 == a.len() {
            assert(t[i] == a.last());
        } else {
            let j = i - a.len();
            assert(t[i] == b[j] && t[i + 1] == b[j + 1]);
        }
    }
}

proof fn lemma_general_lf(g: Seq<(Seq<char>, Seq<char>)>)
    requires
        forall|i: int| 0 <= i < g.len() ==> writable_entry(#[trigger] g[i]),
    ensures
        crlf_free(general_lines(g, eol(false))),
        general_lines(g, eol(false)).len() == 0 || general_lines(g, eol(false)).last() == '\n',
    decreases g.len(),
{
    if g.len() > 0 {
        let e = eol(false);
        lemma_general_lf(g.drop_last());
        let p = g.last();
        assert(writable_entry(g[g.len() - 1]));
        lemma_entry_line(p);
        let l = p.0 + seq!['='] + p.1;
        let le = l + e;
        assert forall|i: int| 0 <= i < le.len() - 1 implies !(le[i] == '\r' && #[trigger] le[i + 1] == '\n') by {
            assert(le[i + 1] == l[i + 1] || i + 1 == l.len());
            if i + 1 == l.len() {
                assert(le[i] == l.last());
            }
        }
        let prev = general_lines(g.drop_last(), e);
        lemma_crlf_free_concat(prev, le);
        assert(general_lines(g, e) =~= prev + le);
    }
}

/// Writing metadata and reading it back gives the same `[General]` entries,
/// the same tail and the same line-ending style, whenever the metadata is fit
/// to write.
pub proof fn lemma_meta_round_trip(m: MetaM)
    requires
        writable_meta(m),
    ensures
        parse_meta(render_meta(m)).general == m.general,
        parse_meta(render_meta(m)).tail == m.tail,
        parse_meta(render_meta(m)).crlf == m.crlf,
{
    let h = seq!['[', 'G', 'e', 'n', 'e', 'r', 'a', 'l', ']'];
    let e = eol(m.crlf);
    let gl = general_lines(m.general, e);
    let text = render_meta(m);
    assert(text =~= h + e + (gl + m.tail));
    lemma_seg_line(h, m.crlf, gl + m.tail);
    crate::text::lemma_trim_fixed(h);
    assert(h.subrange(1, h.len() - 1) =~= general_name());
    crate::text::lemma_trim_fixed(general_name());
    assert(section_header(h) == Some(general_name()));
    lemma_scan_written(m.general, m.crlf, m.tail);
    if m.crlf {
        let i: int = 9;
        assert(text[i] == '\r' && text[i + 1] == '\n');
    } else {
        lemma_general_lf(m.general);
        let he = h + e;
        assert(crlf_free(he));
        assert(crlf_free(m.tail));
        lemma_crlf_free_concat(gl, m.tail);
        lemma_crlf_free_concat(he, gl + m.tail);
        assert(he + (gl + m.tail) =~= text);
        assert(!is_crlf(text));
    }
}

/// ASCII characters as the bytes that encode them.
spec fn ascii_bytes(s: Seq<char>) -> Seq<u8> {
    s.map_values(|c: char| c as u8)
}

proof fn lemma_hex_char(d: u8)
    requires
        d < 16,
    ensures
        is_hex_byte(hex_char(d) as u8),
        hex_digit_value(hex_char(d) as u8) == d,
        hex_char(d) as u8 != 92,
        '\0' <= hex_char(d) <= '\u{7f}',
{
    if d < 10 {
        assert((48 + d) as char as u8 == 48 + d);
    } else {
        assert((87 + d) as char as u8 == 87 + d);
    }
}

proof fn lemma_escape_ascii(bs: Seq<u8>)
    ensures
        vstd::utf8::is_ascii_chars(escape_bytes(bs)),
    decreases bs.len(),
{
    if bs.len() > 0 {
        lemma_escape_ascii(bs.drop_last());
        let x = bs.last();
        lemma_hex_char(x / 16);
        lemma_hex_char(x % 16);
        let a = escape_bytes(bs.drop_last());
        let e = escape_byte(x);
        assert forall|i: int| 0 <= i < (a + e).len() implies '\0' <= #[trigger] (a + e)[i] <= '\u{7f}' by {
            if i < a.len() {
                assert((a + e)[i] == a[i]);
            } else {
                assert((a + e)[i] == e[i - a.len()]);
            }
        }
    }
}

/// Reading back one escaped byte: it comes out, and reading goes on after it.
proof fn lemma_unescape_one(x: u8, rest: Seq<u8>)
    requires
        rest.len() == 0 || rest[0] == 92,
    ensures
        unescape(ascii_bytes(escape_byte(x)) + rest) == match unescape(rest) {
            Some(r) => Some(seq![x] + r),
            None => None::<Seq<u8>>,
        },
{
    let t = ascii_bytes(escape_byte(x)) + rest;
    if x == 0 {
        assert(t[0] == 92 && t[1] == 48);
        assert(t.skip(2) =~= rest);
    } else {
        let h1 = hex_char(x / 16) as u8;
        let h2 = hex_char(x % 16) as u8;
        lemma_hex_char(x / 16);
        lemma_hex_char(x % 16);
        assert(t[0] == 92 && t[1] == 120);
        let r2 = t.skip(2);
        assert(r2 =~= seq![h1, h2] + rest);
        assert(r2.drop_first() =~= seq![h2] + rest);
        assert(r2.drop_first().drop_first() =~= rest);
        assert(hex_run(rest) == 0);
        assert(hex_run(r2.drop_first()) == 1);
        assert(hex_run(r2) == 2);
        let hs = r2.take(2);
        assert(hs =~= seq![h1, h2]);
        assert(hs.drop_last() =~= seq![h1]);
        assert(seq![h1].drop_last() =~= Seq::<u8>::empty());
        assert(hex_value(Seq::<u8>::empty()) == 0);
        assert(seq![h1].last() == h1);
        assert(hex_digit_value(h1) == x / 16);
        assert(hex_value(seq![h1]) == x / 16);
        assert(hs.last() == h2);
        assert(hex_value(hs) == (x / 16) * 16 + x % 16);
        assert(hex_value(hs) == x);
        assert(r2.skip(2) =~= rest);
    }
}

/// Reading back escaped bytes gives those bytes, then what follows.
proof fn lemma_unescape_all(bs: Seq<u8>, rest: Seq<u8>)
    requires
        rest.len() == 0 || rest[0] == 92,
    ensures
        unescape(ascii_bytes(escape_bytes(bs)) + rest) == match unescape(rest) {
            Some(r) => Some(bs + r),
            None => None::<Seq<u8>>,
        },
    decreases bs.len(),
{
    if bs.len() == 0 {
        assert(ascii_bytes(escape_bytes(bs)) + rest =~= rest);
        match unescape(rest) {
            Some(r) => assert(bs + r =~= r),
            None => {},
        }
    } else {
        let x = bs.last();
        let e = ascii_bytes(escape_byte(x));
        let rest2 = e + rest;
        assert(rest2[0] == 92);
        lemma_unescape_one(x, rest);
        lemma_unescape_all(bs.drop_last(), rest2);
        assert(ascii_bytes(escape_bytes(bs)) + rest =~= ascii_bytes(escape_bytes(bs.drop_last())) + rest2);
        match unescape(rest) {
            Some(r) => assert(bs.drop_last() + (seq![x] + r) =~= bs + r),
            None => {},
        }
    }
}

/// Every colour reads back from the `@Variant(...)` text it is stored as.
pub proof fn lemma_color_round_trip(r: u8, g: u8, b: u8)
    ensures
        decode_color(encode_color(r, g, b)) == Some((r, g, b)),
{
    let cb = color_bytes(r, g, b);
    let inner = escape_bytes(cb);
    let t = encode_color(r, g, b);
    assert(t[0] == '@');
    assert(t.last() == ')');
    crate::text::lemma_trim_fixed(t);
    assert(t.take(9) =~= variant_open());
    assert(t.subrange(9, t.len() - 1) =~= inner);
    lemma_escape_ascii(cb);
    vstd::utf8::is_ascii_chars_encode_utf8(inner);
    assert(vstd::utf8::encode_utf8(inner) =~= ascii_bytes(inner));
    lemma_unescape_all(cb, Seq::empty());
    assert(unescape(Seq::<u8>::empty()) == Some(Seq::<u8>::empty()));
    assert(ascii_bytes(inner) + Seq::<u8>::empty() =~= ascii_bytes(inner));
    assert(cb + Seq::<u8>::empty() =~= cb);
}

} // verus!
