//! The instance layout and the profile mod list: where an instance keeps its
//! mods, overwrite and profiles; how a profile's `modlist.txt` reconciles with
//! the mod folders present (the disk decides which mods exist, the file their
//! order and enabled state) and is written back; and when a reconciled list is
//! safe to persist.

use vstd::prelude::*;

use crate::archive::key_lt;
use crate::paths::{join, path_join};
use crate::text::{
    chars_of, dec, eq_str, is_ws, lemma_lines_cons, lemma_trim_fixed, lines, lines_vec, push_char,
    push_str, starts_with, starts_with_vec, strip_cr, string_of, trim, trim_vec, u64_to_string,
};

verus! {

/// One mod in the list: a folder under `mods/`, with its enabled state.
#[derive(Debug, Clone)]
pub struct ModEntry {
    pub name: String,
    pub enabled: bool,
    pub path: String,
    /// Content the game owns and was not installed as a mod: shown, never
    /// reordered by the engine's rules, never mounted.
    pub unmanaged: bool,
}

/// An entry as `(name, enabled, path, unmanaged)`.
pub type EntryM = (Seq<char>, bool, Seq<char>, bool);

impl ModEntry {
    pub open spec fn model(&self) -> EntryM {
        (self.name@, self.enabled, self.path@, self.unmanaged)
    }
}

/// The models of a list of entries.
pub open spec fn entries_view(v: Seq<ModEntry>) -> Seq<EntryM> {
    v.map_values(|m: ModEntry| m.model())
}

/// `_separator`.
pub open spec fn separator_suffix() -> Seq<char> {
    seq!['_', 's', 'e', 'p', 'a', 'r', 'a', 't', 'o', 'r']
}

/// A separator's folder name ends with `_separator`.
pub open spec fn is_separator_spec(name: Seq<char>) -> bool {
    separator_suffix().len() <= name.len() && name.skip(name.len() - separator_suffix().len()) == separator_suffix()
}

/// Whether a mod folder name marks a separator: a visual group divider that
/// contributes no files.
pub fn is_separator_name(name: &str) -> (b: bool)
    ensures
        b == is_separator_spec(name@),
{
    let v = chars_of(name);
    let suf = ['_', 's', 'e', 'p', 'a', 'r', 'a', 't', 'o', 'r'];
    assert(suf@ =~= separator_suffix());
    crate::text::ends_with_vec(&v, &suf)
}

impl ModEntry {
    /// Whether this entry is a separator (by its folder name).
    pub fn is_separator(&self) -> (b: bool)
        ensures
            b == is_separator_spec(self.name@),
    {
        is_separator_name(self.name.as_str())
    }

    /// The name shown to the user: the folder name without the `_separator`
    /// suffix; a normal mod's name unchanged.
    pub fn display_name(&self) -> (s: String)
        ensures
            s@ == if is_separator_spec(self.name@) {
                self.name@.take(self.name@.len() - separator_suffix().len())
            } else {
                self.name@
            },
    {
        let v = chars_of(self.name.as_str());
        if is_separator_name(self.name.as_str()) {
            let n = v.len() - 10;
            let h = crate::text::slice_vec(&v, 0, n);
            assert(h@ =~= self.name@.take(self.name@.len() - separator_suffix().len()));
            string_of(&h)
        } else {
            self.name.clone()
        }
    }

    /// Whether this entry is content the game owns.
    pub fn is_unmanaged(&self) -> (b: bool)
        ensures
            b == self.unmanaged,
    {
        self.unmanaged
    }
}

/// Whether a freshly reconciled mod list may be written back.
#[derive(Debug, Clone, PartialEq, Eq)]
pub enum ListTrust {
    /// Safe to save.
    Good,
    /// Lost implausibly much: fine to display, never to persist; carries why.
    Suspect(String),
}

/// A verdict as `None` for good or the reason.
pub open spec fn trust_view(t: ListTrust) -> Option<Seq<char>> {
    match t {
        ListTrust::Good => None,
        ListTrust::Suspect(s) => Some(s@),
    }
}

/// A list smaller than this is never second-guessed.
pub const MIN_ACTIVES: usize = 10;

/// A loss must exceed this many entries to look accidental.
pub const MAX_ABSOLUTE_DROP: usize = 10;

/// The verdict on a scan of `listed` entries of which `kept` are still backed
/// by a folder: an unreadable mods folder is suspect; any loss of everything
/// listed is suspect; so is a loss from a list longer than 10 that is both
/// more than 10 entries and more than 30% of it; anything else is good.
pub open spec fn judge_spec(readable: bool, listed: nat, kept: nat) -> Option<Seq<char>> {
    let lost: nat = if listed > kept { (listed - kept) as nat } else { 0 };
    if !readable {
        Some("the mods folder could not be read (is the drive it lives on mounted?)"@)
    } else if lost == 0 {
        None
    } else if kept == 0 && listed > 0 {
        Some("all "@ + dec(listed) + " listed mod(s) are missing from the mods folder"@)
    } else if listed > MIN_ACTIVES && lost > MAX_ABSOLUTE_DROP && 10 * lost > 3 * listed {
        Some(dec(lost) + " of "@ + dec(listed) + " listed mod(s) are missing from the mods folder"@)
    } else {
        None
    }
}

/// What the verdict on a scan means, by the numbers alone: an unreadable
/// mods folder is never trusted; a scan that lost nothing is trusted; losing
/// every listed mod is never trusted; a list of more than 10 that lost more
/// than 10 entries and more than 30% of them (`10 * lost > 3 * listed`) is
/// not trusted, with a reason naming both counts; any smaller loss is trusted.
pub proof fn lemma_judge_verdicts(readable: bool, listed: nat, kept: nat)
    ensures
        !readable ==> judge_spec(readable, listed, kept) is Some,
        readable && kept >= listed ==> judge_spec(readable, listed, kept) is None,
        readable && kept == 0 && listed > 0 ==> judge_spec(readable, listed, kept) is Some,
        readable && listed > 10 && listed > kept && listed - kept > 10 && 10 * (listed - kept) > 3 * listed && kept > 0
            ==> judge_spec(readable, listed, kept) == Some(
            dec((listed - kept) as nat) + " of "@ + dec(listed) + " listed mod(s) are missing from the mods folder"@,
        ),
        readable && listed > 10 && listed > kept && listed - kept > 10 && 10 * (listed - kept) > 3 * listed
            ==> judge_spec(readable, listed, kept) is Some,
        readable && kept < listed && (listed <= 10 || listed - kept <= 10 || 10 * (listed - kept) <= 3 * listed)
            && kept > 0 ==> judge_spec(readable, listed, kept) is None,
{
}

impl ListTrust {
    pub fn is_good(&self) -> (b: bool)
        ensures
            b == (trust_view(*self) is None),
    {
        match self {
            ListTrust::Good => true,
            ListTrust::Suspect(_) => false,
        }
    }

    /// The reason a list is not to be trusted, if it is not.
    pub fn reason(&self) -> (r: Option<&str>)
        ensures
            match r {
                Some(s) => trust_view(*self) == Some(s@),
                None => trust_view(*self) is None,
            },
    {
        match self {
            ListTrust::Good => None,
            ListTrust::Suspect(why) => Some(why.as_str()),
        }
    }

    /// Judge a scan: `listed` entries read from the list, `kept` of them still
    /// backed by a folder. The 30% threshold is compared exactly, as
    /// `10 * lost > 3 * listed`.
    pub fn judge(readable: bool, listed: usize, kept: usize) -> (t: ListTrust)
        ensures
            trust_view(t) == judge_spec(readable, listed as nat, kept as nat),
            !readable ==> t is Suspect,
            readable && kept >= listed ==> t is Good,
            readable && kept == 0 && listed > 0 ==> t is Suspect,
            readable && listed > 10 && listed > kept && listed - kept > 10 && 10 * (listed - kept) > 3 * listed
                ==> t is Suspect,
            readable && kept < listed && (listed <= 10 || listed - kept <= 10 || 10 * (listed - kept) <= 3 * listed)
                && kept > 0 ==> t is Good,
    {
        proof {
            lemma_judge_verdicts(readable, listed as nat, kept as nat);
        }
        if !readable {
            return ListTrust::Suspect("the mods folder could not be read (is the drive it lives on mounted?)".to_owned());
        }
        let lost: usize = if listed > kept { listed - kept } else { 0 };
        if lost == 0 {
            return ListTrust::Good;
        }
        if kept == 0 && listed > 0 {
            let mut s = "all ".to_owned();
            push_str(&mut s, u64_to_string(listed as u64).as_str());
            push_str(&mut s, " listed mod(s) are missing from the mods folder");
            return ListTrust::Suspect(s);
        }
        if listed > MIN_ACTIVES && lost > MAX_ABSOLUTE_DROP && 10 * (lost as u128) > 3 * (listed as u128) {
            let mut s = u64_to_string(lost as u64);
            push_str(&mut s, " of ");
            push_str(&mut s, u64_to_string(listed as u64).as_str());
            push_str(&mut s, " listed mod(s) are missing from the mods folder");
            return ListTrust::Suspect(s);
        }
        ListTrust::Good
    }
}


/// A modding instance rooted at a directory.
#[derive(Debug, Clone)]
pub struct Instance {
    pub root: String,
}

/// One profile of an instance: a named mod order and enabled set over the
/// instance's shared mods.
#[derive(Debug, Clone)]
pub struct Profile {
    pub instance_root: String,
    pub name: String,
}

impl Instance {
    /// The global instance for a game id under the data home:
    /// `<data_home>/eidos/<id>`.
    pub fn global(data_home: &str, game_id: &str) -> (i: Instance)
        ensures
            i.root@ == path_join(path_join(data_home@, "eidos"@), game_id@),
    {
        let base = join(data_home, "eidos");
        Instance { root: join(base.as_str(), game_id) }
    }

    /// A portable instance at an explicit folder.
    pub fn portable(root: String) -> (i: Instance)
        ensures
            i.root@ == root@,
    {
        Instance { root }
    }

    /// `<root>/mods`.
    pub fn mods_dir(&self) -> (p: String)
        ensures
            p@ == path_join(self.root@, "mods"@),
    {
        join(self.root.as_str(), "mods")
    }

    /// The metadata path of a mod: `<root>/mods/<name>/meta.ini`.
    pub fn meta_path(&self, name: &str) -> (p: String)
        ensures
            p@ == path_join(path_join(path_join(self.root@, "mods"@), name@), "meta.ini"@),
    {
        let m = self.mods_dir();
        let d = join(m.as_str(), name);
        join(d.as_str(), "meta.ini")
    }

    /// The instance manifest path: `<root>/eidos-instance.ini`.
    pub fn manifest_path(&self) -> (p: String)
        ensures
            p@ == path_join(self.root@, "eidos-instance.ini"@),
    {
        join(self.root.as_str(), "eidos-instance.ini")
    }

    /// `<root>/overwrite`.
    pub fn overwrite_dir(&self) -> (p: String)
        ensures
            p@ == path_join(self.root@, "overwrite"@),
    {
        join(self.root.as_str(), "overwrite")
    }

    /// The stash mountpoint for the pristine game data: `<root>/.base`.
    pub fn base_dir(&self) -> (p: String)
        ensures
            p@ == path_join(self.root@, ".base"@),
    {
        join(self.root.as_str(), ".base")
    }

    /// The stash mountpoint for the pristine game root: `<root>/.base-root`.
    pub fn base_root_dir(&self) -> (p: String)
        ensures
            p@ == path_join(self.root@, ".base-root"@),
    {
        join(self.root.as_str(), ".base-root")
    }

    /// Where writes to the game install root land: the overwrite's `Root/`.
    pub fn root_overwrite_dir(&self) -> (p: String)
        ensures
            p@ == path_join(path_join(self.root@, "overwrite"@), "Root"@),
    {
        let o = self.overwrite_dir();
        join(o.as_str(), "Root")
    }

    /// `<root>/downloads`.
    pub fn downloads_dir(&self) -> (p: String)
        ensures
            p@ == path_join(self.root@, "downloads"@),
    {
        join(self.root.as_str(), "downloads")
    }

    /// `<root>/profiles`.
    pub fn profiles_dir(&self) -> (p: String)
        ensures
            p@ == path_join(self.root@, "profiles"@),
    {
        join(self.root.as_str(), "profiles")
    }

    /// The profile of the given name.
    pub fn profile(&self, name: &str) -> (p: Profile)
        ensures
            p.instance_root@ == self.root@,
            p.name@ == name@,
    {
        Profile { instance_root: self.root.clone(), name: name.to_owned() }
    }
}

impl Profile {
    /// `<instance>/profiles/<name>`.
    pub fn dir(&self) -> (p: String)
        ensures
            p@ == path_join(path_join(self.instance_root@, "profiles"@), self.name@),
    {
        let d = join(self.instance_root.as_str(), "profiles");
        join(d.as_str(), self.name.as_str())
    }

    /// The shared mod pool: `<instance>/mods`.
    pub fn mods_dir(&self) -> (p: String)
        ensures
            p@ == path_join(self.instance_root@, "mods"@),
    {
        join(self.instance_root.as_str(), "mods")
    }

    /// This profile's `modlist.txt`.
    pub fn modlist_path(&self) -> (p: String)
        ensures
            p@ == path_join(path_join(path_join(self.instance_root@, "profiles"@), self.name@), "modlist.txt"@),
    {
        let d = self.dir();
        join(d.as_str(), "modlist.txt")
    }

    /// Where to read the mod list from: the profile's own file, or, for the
    /// `Default` profile of an instance that predates profiles, the flat
    /// `<instance>/modlist.txt` when only that exists.
    pub fn modlist_source(&self, own_exists: bool, legacy_exists: bool) -> (p: String)
        ensures
            p@ == if !own_exists && self.name@ == "Default"@ && legacy_exists {
                path_join(self.instance_root@, "modlist.txt"@)
            } else {
                path_join(path_join(path_join(self.instance_root@, "profiles"@), self.name@), "modlist.txt"@)
            },
    {
        if !own_exists && eq_str(self.name.as_str(), "Default") && legacy_exists {
            join(self.instance_root.as_str(), "modlist.txt")
        } else {
            self.modlist_path()
        }
    }

    /// The profile's copy of a game INI.
    pub fn ini_path(&self, ini_file: &str) -> (p: String)
        ensures
            p@ == path_join(path_join(path_join(self.instance_root@, "profiles"@), self.name@), ini_file@),
    {
        let d = self.dir();
        join(d.as_str(), ini_file)
    }

    /// The profile's own INI-tweak file, applied after every mod's.
    pub fn tweaks_path(&self) -> (p: String)
        ensures
            p@ == path_join(path_join(path_join(self.instance_root@, "profiles"@), self.name@), "initweaks.ini"@),
    {
        let d = self.dir();
        join(d.as_str(), "initweaks.ini")
    }

    /// The profile's `plugins.txt`, in its plugin state directory.
    pub fn plugins_txt_path(&self) -> (p: String)
        ensures
            p@ == path_join(path_join(path_join(path_join(self.instance_root@, "profiles"@), self.name@), "plugins"@), "plugins.txt"@),
    {
        let d = self.dir();
        let s = join(d.as_str(), "plugins");
        join(s.as_str(), "plugins.txt")
    }

    /// The profile's `loadorder.txt`, in its plugin state directory.
    pub fn loadorder_txt_path(&self) -> (p: String)
        ensures
            p@ == path_join(path_join(path_join(path_join(self.instance_root@, "profiles"@), self.name@), "plugins"@), "loadorder.txt"@),
    {
        let d = self.dir();
        let s = join(d.as_str(), "plugins");
        join(s.as_str(), "loadorder.txt")
    }

    /// The pinned load-order positions.
    pub fn locked_order_path(&self) -> (p: String)
        ensures
            p@ == path_join(path_join(path_join(self.instance_root@, "profiles"@), self.name@), "lockedorder.txt"@),
    {
        let d = self.dir();
        join(d.as_str(), "lockedorder.txt")
    }

    /// The pre-session snapshot of `plugins.txt`.
    pub fn plugins_snapshot_path(&self) -> (p: String)
        ensures
            p@ == path_join(path_join(path_join(self.instance_root@, "profiles"@), self.name@), "plugins.txt.pre-session"@),
    {
        let d = self.dir();
        join(d.as_str(), "plugins.txt.pre-session")
    }

    /// The profile's saves.
    pub fn saves_dir(&self) -> (p: String)
        ensures
            p@ == path_join(path_join(path_join(self.instance_root@, "profiles"@), self.name@), "saves"@),
    {
        let d = self.dir();
        join(d.as_str(), "saves")
    }

    /// The profile's backups.
    pub fn backups_dir(&self) -> (p: String)
        ensures
            p@ == path_join(path_join(path_join(self.instance_root@, "profiles"@), self.name@), "backups"@),
    {
        let d = self.dir();
        join(d.as_str(), "backups")
    }
}


/// What reading `modlist.txt` gave.
#[derive(Debug, Clone)]
pub enum ListFile {
    /// There is no file yet.
    Missing,
    /// The file exists but could not be read.
    Unreadable,
    /// The file's text.
    Text(String),
}

/// The parse of one `modlist.txt` line as `(enabled, unmanaged, name)`:
/// trimmed; blank lines and `#` comments skipped; `+` enabled, `-` disabled,
/// `*` the game's own content (enabled), each with the rest trimmed; any other
/// line an enabled mod named by the whole line.
pub open spec fn list_line(line: Seq<char>) -> Option<(bool, bool, Seq<char>)> {
    let t = trim(line);
    if t.len() == 0 || t[0] == '#' {
        None
    } else if t[0] == '+' {
        Some((true, false, trim(t.drop_first())))
    } else if t[0] == '-' {
        Some((false, false, trim(t.drop_first())))
    } else if t[0] == '*' {
        Some((true, true, trim(t.drop_first())))
    } else {
        Some((true, false, t))
    }
}

/// Whether an entry named `name` is in the list already.
pub open spec fn has_name(out: Seq<EntryM>, name: Seq<char>) -> bool {
    exists|k: int| 0 <= k < out.len() && (#[trigger] out[k]).0 == name
}

/// The entries and the listed count after reading the lines, in file order
/// (highest priority first): a listed mod is kept when its folder is present
/// and it was not listed before; the game's own content is kept without a
/// path, once.
pub open spec fn read_lines(ls: Seq<Seq<char>>, present: Seq<Seq<char>>, mods_dir: Seq<char>) -> (Seq<EntryM>, nat)
    decreases ls.len(),
{
    if ls.len() == 0 {
        (Seq::empty(), 0)
    } else {
        let (out, listed) = read_lines(ls.drop_last(), present, mods_dir);
        match list_line(ls.last()) {
            None => (out, listed),
            Some((en, un, name)) => {
                if un {
                    if has_name(out, name) {
                        (out, listed + 1)
                    } else {
                        (out.push((name, en, Seq::empty(), true)), listed + 1)
                    }
                } else if present.contains(name) && !has_name(out, name) {
                    (out.push((name, en, path_join(mods_dir, name), false)), listed + 1)
                } else {
                    (out, listed + 1)
                }
            },
        }
    }
}

/// The folders nobody listed, appended disabled at the lowest priority.
pub open spec fn add_unlisted(out: Seq<EntryM>, names: Seq<Seq<char>>, mods_dir: Seq<char>) -> Seq<EntryM>
    decreases names.len(),
{
    if names.len() == 0 {
        out
    } else {
        let prev = add_unlisted(out, names.drop_last(), mods_dir);
        let n = names.last();
        if has_name(prev, n) {
            prev
        } else {
            prev.push((n, false, path_join(mods_dir, n), false))
        }
    }
}

/// The prefix of the installer's own extraction temporaries.
pub open spec fn temp_prefix() -> Seq<char> {
    ".eidos-install-"@
}

/// Where `n` goes in a sorted list: after every name not greater.
pub open spec fn str_pos(sorted: Seq<Seq<char>>, n: Seq<char>) -> int
    decreases sorted.len(),
{
    if sorted.len() == 0 {
        0
    } else if key_lt(n, sorted.last()) {
        str_pos(sorted.drop_last(), n)
    } else {
        sorted.len() as int
    }
}

/// The folder names that are mods, sorted: everything but the installer's
/// temporaries.
pub open spec fn mod_folders(names: Seq<Seq<char>>) -> Seq<Seq<char>>
    decreases names.len(),
{
    if names.len() == 0 {
        Seq::empty()
    } else {
        let p = mod_folders(names.drop_last());
        let n = names.last();
        if starts_with(n, temp_prefix()) { p } else { p.insert(str_pos(p, n), n) }
    }
}

/// The text of a modlist file, or nothing.
pub open spec fn list_text(f: ListFile) -> Seq<char> {
    match f {
        ListFile::Text(t) => t@,
        _ => Seq::empty(),
    }
}

/// The message for a list file that exists but could not be read.
pub open spec fn lost_message() -> Seq<char> {
    "modlist.txt exists but could not be read (truncated, or permissions) - the load order it holds is unknown"@
}

/// The reconciled list in display order (lowest priority first) and its
/// verdict, from what the list file held and the folder names a scan of the
/// mods folder found (`None` when it could not be read). The verdict weighs
/// the entries the list named against those of them that survived: each
/// backed by a folder, or a row of the game's own content (which never lives
/// in the mods folder). Folders the list never named do not count as kept.
pub open spec fn reconcile(f: ListFile, scan: Option<Seq<Seq<char>>>, mods_dir: Seq<char>) -> (Seq<EntryM>, Option<Seq<char>>) {
    let present = match scan {
        Some(ns) => mod_folders(ns),
        None => Seq::empty(),
    };
    let (out, listed) = read_lines(lines(list_text(f)), present, mods_dir);
    let all = add_unlisted(out, present, mods_dir);
    let lost = f is Unreadable || (f is Text && trim(list_text(f)).len() == 0 && present.len() > 0);
    let trust = if lost { Some(lost_message()) } else { judge_spec(scan is Some, listed, out.len()) };
    (all.reverse(), trust)
}

fn has_name_exec(out: &Vec<ModEntry>, name: &str) -> (b: bool)
    ensures
        b == has_name(entries_view(out@), name@),
{
    let ghost m = entries_view(out@);
    let mut i: usize = 0;
    while i < out.len()
        invariant
            i <= out@.len(),
            m == entries_view(out@),
            forall|k: int| 0 <= k < i ==> (#[trigger] m[k]).0 != name@,
        decreases out.len() - i,
    {
        if eq_str(out[i].name.as_str(), name) {
            assert(m[i as int].0 == name@);
            return true;
        }
        i = i + 1;
    }
    false
}

fn contains_str(v: &Vec<String>, s: &str) -> (b: bool)
    ensures
        b == crate::meta::strs_view(v@).contains(s@),
{
    let ghost m = crate::meta::strs_view(v@);
    let mut i: usize = 0;
    while i < v.len()
        invariant
            i <= v@.len(),
            m == crate::meta::strs_view(v@),
            forall|k: int| 0 <= k < i ==> m[k] != s@,
        decreases v.len() - i,
    {
        if eq_str(v[i].as_str(), s) {
            assert(m[i as int] == s@);
            return true;
        }
        i = i + 1;
    }
    false
}

/// The sorted mod folders of a scan.
fn mod_folders_exec(names: &Vec<String>) -> (r: Vec<String>)
    ensures
        crate::meta::strs_view(r@) == mod_folders(crate::meta::strs_view(names@)),
{
    let ghost nm = crate::meta::strs_view(names@);
    let pre = chars_of(".eidos-install-");
    let mut out: Vec<String> = Vec::new();
    let mut i: usize = 0;
    assert(crate::meta::strs_view(out@) =~= Seq::<Seq<char>>::empty());
    while i < names.len()
        invariant
            i <= names@.len(),
            nm == crate::meta::strs_view(names@),
            pre@ == temp_prefix(),
            crate::meta::strs_view(out@) == mod_folders(nm.take(i as int)),
        decreases names.len() - i,
    {
        assert(nm.take(i + 1).drop_last() =~= nm.take(i as int));
        assert(nm.take(i + 1).last() == names@[i as int]@);
        let n = chars_of(names[i].as_str());
        if !starts_with_vec(&n, &pre) {
            let ghost sv = crate::meta::strs_view(out@);
            let mut k: usize = out.len();
            assert(sv.take(k as int) =~= sv);
            while k > 0 && crate::archive::key_lt_exec(&n, &chars_of(out[k - 1].as_str()))
                invariant
                    k <= out@.len(),
                    sv == crate::meta::strs_view(out@),
                    n@ == names@[i as int]@,
                    str_pos(sv, n@) == str_pos(sv.take(k as int), n@),
                decreases k,
            {
                assert(sv.take(k as int).drop_last() =~= sv.take(k - 1));
                assert(sv.take(k as int).last() == sv[k - 1]);
                k = k - 1;
            }
            proof {
                if k > 0 {
                    assert(sv.take(k as int).last() == sv[k - 1]);
                }
            }
            out.insert(k, names[i].clone());
            assert(crate::meta::strs_view(out@) =~= sv.insert(k as int, n@));
        }
        i = i + 1;
    }
    assert(nm.take(i as int) =~= nm);
    out
}

/// The parse of one line.
fn list_line_exec(line: &[char]) -> (r: Option<(bool, bool, Vec<char>)>)
    ensures
        match r {
            Some((en, un, n)) => list_line(line@) == Some((en, un, n@)),
            None => list_line(line@) is None,
        },
{
    let t = trim_vec(line);
    if t.len() == 0 || t[0] == '#' {
        return None;
    }
    let n = t.len();
    let rest = crate::text::slice_vec(&t, 1, n);
    assert(rest@ =~= t@.drop_first());
    if t[0] == '+' {
        Some((true, false, trim_vec(&rest)))
    } else if t[0] == '-' {
        Some((false, false, trim_vec(&rest)))
    } else if t[0] == '*' {
        Some((true, true, trim_vec(&rest)))
    } else {
        Some((true, false, t))
    }
}

impl Profile {
    /// The mod list reconciled with the mod folders, in display order (lowest
    /// priority first), and whether it is safe to persist. `list` is what
    /// reading the list file gave; `scan` the names of the folders (and links)
    /// under `mods/`, or `None` when that could not be read.
    pub fn modlist_checked(&self, list: &ListFile, scan: Option<&Vec<String>>) -> (r: (Vec<ModEntry>, ListTrust))
        ensures
            (entries_view(r.0@), trust_view(r.1)) == reconcile(*list, match scan {
                Some(ns) => Some(crate::meta::strs_view(ns@)),
                None => None,
            }, path_join(self.instance_root@, "mods"@)),
    {
        let mods_dir = self.mods_dir();
        let present: Vec<String> = match scan {
            Some(ns) => mod_folders_exec(ns),
            None => Vec::new(),
        };
        let ghost pv = crate::meta::strs_view(present@);
        proof {
            if scan.is_none() {
                assert(pv =~= Seq::<Seq<char>>::empty());
            }
        }
        let text: String = match list {
            ListFile::Text(t) => t.clone(),
            _ => String::new(),
        };
        assert(text@ == list_text(*list));
        let tv = chars_of(text.as_str());
        let ls = lines_vec(&tv);
        let ghost lm = lines(tv@);
        let mut out: Vec<ModEntry> = Vec::new();
        let mut listed: usize = 0;
        let mut i: usize = 0;
        assert(entries_view(out@) =~= Seq::<EntryM>::empty());
        while i < ls.len()
            invariant
                i <= ls@.len(),
                ls@.len() == lm.len(),
                forall|k: int| 0 <= k < ls@.len() ==> (#[trigger] ls@[k])@ == lm[k],
                pv == crate::meta::strs_view(present@),
                (entries_view(out@), listed as nat) == read_lines(lm.take(i as int), pv, mods_dir@),
                listed <= i,
            decreases ls.len() - i,
        {
            assert(lm.take(i + 1).drop_last() =~= lm.take(i as int));
            assert(lm.take(i + 1).last() == ls@[i as int]@);
            match list_line_exec(&ls[i]) {
                None => {},
                Some((en, un, nv)) => {
                    let name = string_of(&nv);
                    let ghost before = entries_view(out@);
                    if un {
                        if !has_name_exec(&out, name.as_str()) {
                            let e = ModEntry { name, enabled: en, path: String::new(), unmanaged: true };
                            out.push(e);
                            assert(entries_view(out@) =~= before.push(e.model()));
                        }
                    } else if contains_str(&present, name.as_str()) && !has_name_exec(&out, name.as_str()) {
                        let path = join(mods_dir.as_str(), name.as_str());
                        let e = ModEntry { name, enabled: en, path, unmanaged: false };
                        out.push(e);
                        assert(entries_view(out@) =~= before.push(e.model()));
                    }
                    listed = listed + 1;
                },
            }
            i = i + 1;
        }
        assert(lm.take(i as int) =~= lm);
        let kept = out.len();
        let mut j: usize = 0;
        let ghost base = entries_view(out@);
        while j < present.len()
            invariant
                j <= present@.len(),
                pv == crate::meta::strs_view(present@),
                entries_view(out@) == add_unlisted(base, pv.take(j as int), mods_dir@),
            decreases present.len() - j,
        {
            assert(pv.take(j + 1).drop_last() =~= pv.take(j as int));
            assert(pv.take(j + 1).last() == present@[j as int]@);
            let n = &present[j];
            if !has_name_exec(&out, n.as_str()) {
                let ghost before = entries_view(out@);
                let e = ModEntry { name: n.clone(), enabled: false, path: join(mods_dir.as_str(), n.as_str()), unmanaged: false };
                out.push(e);
                assert(entries_view(out@) =~= before.push(e.model()));
            }
            j = j + 1;
        }
        assert(pv.take(j as int) =~= pv);
        let lost = match list {
            ListFile::Unreadable => true,
            ListFile::Text(t) => trim_str_empty(t.as_str()) && present.len() > 0,
            ListFile::Missing => false,
        };
        let trust = if lost {
            ListTrust::Suspect("modlist.txt exists but could not be read (truncated, or permissions) - the load order it holds is unknown".to_owned())
        } else {
            ListTrust::judge(scan.is_some(), listed, kept)
        };
        let ghost fwd = entries_view(out@);
        let mut rev: Vec<ModEntry> = Vec::new();
        let mut k: usize = out.len();
        while k > 0
            invariant
                k <= out@.len(),
                fwd == entries_view(out@),
                rev@.len() == fwd.len() - k,
                forall|x: int| 0 <= x < rev@.len() ==> #[trigger] entries_view(rev@)[x] == fwd[fwd.len() - 1 - x],
            decreases k,
        {
            let e = out[k - 1].clone_entry();
            let ghost before = entries_view(rev@);
            rev.push(e);
            assert(entries_view(rev@) =~= before.push(e.model()));
            k = k - 1;
        }
        assert(entries_view(rev@) =~= fwd.reverse());
        (rev, trust)
    }

    /// The mod list in display order (lowest priority first); see
    /// [`Profile::modlist_checked`].
    pub fn modlist(&self, list: &ListFile, scan: Option<&Vec<String>>) -> (r: Vec<ModEntry>)
        ensures
            entries_view(r@) == reconcile(*list, match scan {
                Some(ns) => Some(crate::meta::strs_view(ns@)),
                None => None,
            }, path_join(self.instance_root@, "mods"@)).0,
    {
        self.modlist_checked(list, scan).0
    }
}

fn trim_str_empty(t: &str) -> (b: bool)
    ensures
        b == (trim(t@).len() == 0),
{
    let v = chars_of(t);
    let w = trim_vec(&v);
    w.len() == 0
}

impl ModEntry {
    /// A copy of this entry.
    pub fn clone_entry(&self) -> (e: ModEntry)
        ensures
            e.model() == self.model(),
    {
        ModEntry { name: self.name.clone(), enabled: self.enabled, path: self.path.clone(), unmanaged: self.unmanaged }
    }
}

/// The marker a row is written with: `*` for the game's content, else `+`
/// for enabled and `-` for disabled.
pub open spec fn marker(e: EntryM) -> char {
    if e.3 { '*' } else if e.1 { '+' } else { '-' }
}

/// The `modlist.txt` text of a list in display order: highest priority first,
/// one `<marker><name>` line each.
pub open spec fn render_list(ms: Seq<EntryM>) -> Seq<char>
    decreases ms.len(),
{
    if ms.len() == 0 {
        Seq::empty()
    } else {
        seq![marker(ms.last())] + ms.last().0 + seq!['\n'] + render_list(ms.drop_last())
    }
}

/// The `modlist.txt` text for a mod list given in display order.
pub fn render_modlist(mods: &[ModEntry]) -> (s: String)
    ensures
        s@ == render_list(entries_view(mods@)),
{
    let ghost m = entries_view(mods@);
    let mut s = String::new();
    let mut k: usize = mods.len();
    assert(m.take(k as int) =~= m);
    assert(s@ + render_list(m.take(k as int)) =~= render_list(m));
    while k > 0
        invariant
            k <= mods@.len(),
            m == entries_view(mods@),
            s@ + render_list(m.take(k as int)) == render_list(m),
        decreases k,
    {
        let e = &mods[k - 1];
        let ghost before = s@;
        push_char(&mut s, if e.unmanaged { '*' } else if e.enabled { '+' } else { '-' });
        push_str(&mut s, e.name.as_str());
        push_char(&mut s, '\n');
        assert(m.take(k as int).drop_last() =~= m.take(k - 1));
        assert(m.take(k as int).last() == e.model());
        assert(s@ + render_list(m.take(k - 1)) =~= before + render_list(m.take(k as int)));
        k = k - 1;
    }
    assert(s@ + render_list(m.take(0)) =~= s@);
    s
}

/// A name that a `modlist.txt` line carries unchanged: not empty, no line
/// break, no whitespace at either end.
pub open spec fn line_safe(n: Seq<char>) -> bool {
    &&& n.len() > 0
    &&& !is_ws(n[0])
    &&& !is_ws(n.last())
    &&& forall|j: int| 0 <= j < n.len() ==> n[j] != '\n'
}

/// The line of one entry.
pub open spec fn entry_line(e: EntryM) -> Seq<char> {
    seq![marker(e)] + e.0
}

/// The lines of a rendered list: the entries from the last to the first.
pub open spec fn rendered_lines(ms: Seq<EntryM>) -> Seq<Seq<char>> {
    Seq::new(ms.len(), |i: int| entry_line(ms[ms.len() - 1 - i]))
}

proof fn lemma_render_lines(ms: Seq<EntryM>)
    requires
        forall|i: int| 0 <= i < ms.len() ==> line_safe(#[trigger] ms[i].0),
    ensures
        lines(render_list(ms)) == rendered_lines(ms),
    decreases ms.len(),
{
    if ms.len() > 0 {
        let e = ms.last();
        lemma_render_lines(ms.drop_last());
        let l = entry_line(e);
        assert(line_safe(ms[ms.len() - 1].0));
        assert forall|j: int| 0 <= j < l.len() implies l[j] != '\n' by {
            if j > 0 {
                assert(l[j] == e.0[j - 1]);
            }
        }
        lemma_lines_cons(l, render_list(ms.drop_last()));
        assert(seq![marker(e)] + e.0 + seq!['\n'] + render_list(ms.drop_last()) =~= l + seq!['\n'] + render_list(ms.drop_last()));
        assert(l.last() == e.0.last());
        assert(strip_cr(l) == l);
        assert(lines(render_list(ms)) =~= rendered_lines(ms));
    }
}

proof fn lemma_entry_line_parse(e: EntryM)
    requires
        line_safe(e.0),
    ensures
        list_line(entry_line(e)) == Some((e.3 || e.1, e.3, e.0)),
{
    let l = entry_line(e);
    assert(l.last() == e.0.last());
    lemma_trim_fixed(l);
    lemma_trim_fixed(e.0);
    assert(l.drop_first() =~= e.0);
}

proof fn lemma_str_pos_range(sorted: Seq<Seq<char>>, n: Seq<char>)
    ensures
        0 <= str_pos(sorted, n) <= sorted.len(),
    decreases sorted.len(),
{
    if sorted.len() > 0 {
        lemma_str_pos_range(sorted.drop_last(), n);
    }
}

/// The sorted mod folders of a scan are exactly its names that are not the
/// installer's temporaries.
pub proof fn lemma_mod_folders_contains(names: Seq<Seq<char>>, n: Seq<char>)
    ensures
        mod_folders(names).contains(n) == (names.contains(n) && !starts_with(n, temp_prefix())),
    decreases names.len(),
{
    if names.len() > 0 {
        let p = mod_folders(names.drop_last());
        lemma_mod_folders_contains(names.drop_last(), n);
        let x = names.last();
        if names.drop_last().contains(n) {
            let k = choose|k: int| 0 <= k < names.drop_last().len() && names.drop_last()[k] == n;
            assert(names[k] == n);
        }
        if names.contains(n) && n != x {
            let k = choose|k: int| 0 <= k < names.len() && names[k] == n;
            assert(names.drop_last()[k] == n);
        }
        if !starts_with(x, temp_prefix()) {
            lemma_str_pos_range(p, x);
            let q = p.insert(str_pos(p, x), x);
            if q.contains(n) {
                let k = choose|k: int| 0 <= k < q.len() && q[k] == n;
                if n != x {
                    if k < str_pos(p, x) {
                        assert(p[k] == n);
                    } else {
                        assert(p[k - 1] == n);
                    }
                }
            }
            if p.contains(n) {
                let k = choose|k: int| 0 <= k < p.len() && p[k] == n;
                if k < str_pos(p, x) {
                    assert(q[k] == n);
                } else {
                    assert(q[k + 1] == n);
                }
            }
            if n == x {
                assert(q[str_pos(p, x)] == n);
            }
        }
    }
}

/// The well-formed lists that a save and a load carry unchanged: names safe
/// on a line and distinct, the game's own content enabled and without a
/// path, every managed mod at `<mods_dir>/<name>` and present in the scan.
pub open spec fn reloadable(ms: Seq<EntryM>, scan: Seq<Seq<char>>, mods_dir: Seq<char>) -> bool {
    &&& forall|i: int| 0 <= i < ms.len() ==> line_safe(#[trigger] ms[i].0)
    &&& forall|i: int, j: int| 0 <= i < j < ms.len() ==> ms[i].0 != ms[j].0
    &&& forall|i: int| 0 <= i < ms.len() && (#[trigger] ms[i]).3 ==> ms[i].1 && ms[i].2 == Seq::<char>::empty()
    &&& forall|i: int| 0 <= i < ms.len() && !(#[trigger] ms[i]).3 ==> {
        &&& ms[i].2 == path_join(mods_dir, ms[i].0)
        &&& scan.contains(ms[i].0)
        &&& !starts_with(ms[i].0, temp_prefix())
    }
}

proof fn lemma_read_rendered(ms: Seq<EntryM>, scan: Seq<Seq<char>>, mods_dir: Seq<char>, k: int)
    requires
        reloadable(ms, scan, mods_dir),
        0 <= k <= ms.len(),
    ensures
        read_lines(rendered_lines(ms).take(k), mod_folders(scan), mods_dir)
            == (Seq::new(k as nat, |i: int| ms[ms.len() - 1 - i]), k as nat),
    decreases k,
{
    let ls = rendered_lines(ms);
    let rev = Seq::new(k as nat, |i: int| ms[ms.len() - 1 - i]);
    if k == 0 {
        assert(ls.take(0) =~= Seq::<Seq<char>>::empty());
        assert(rev =~= Seq::<EntryM>::empty());
    } else {
        lemma_read_rendered(ms, scan, mods_dir, k - 1);
        let prev = Seq::new((k - 1) as nat, |i: int| ms[ms.len() - 1 - i]);
        assert(ls.take(k).drop_last() =~= ls.take(k - 1));
        let idx = ms.len() - k;
        let e = ms[idx];
        assert(ls.take(k).last() == entry_line(e));
        assert(line_safe(ms[idx].0));
        lemma_entry_line_parse(e);
        assert(!has_name(prev, e.0)) by {
            if has_name(prev, e.0) {
                let t = choose|t: int| 0 <= t < prev.len() && (#[trigger] prev[t]).0 == e.0;
                assert(prev[t] == ms[ms.len() - 1 - t]);
                assert(ms.len() - 1 - t > idx);
            }
        }
        if !e.3 {
            assert(!(#[trigger] ms[idx]).3);
            lemma_mod_folders_contains(scan, e.0);
        } else {
            assert((#[trigger] ms[idx]).3);
        }
        assert(prev.push(e) =~= rev);
    }
}

proof fn lemma_add_unlisted_none(out: Seq<EntryM>, names: Seq<Seq<char>>, mods_dir: Seq<char>)
    requires
        forall|k: int| 0 <= k < names.len() ==> has_name(out, #[trigger] names[k]),
    ensures
        add_unlisted(out, names, mods_dir) == out,
    decreases names.len(),
{
    if names.len() > 0 {
        lemma_add_unlisted_none(out, names.drop_last(), mods_dir);
        assert(has_name(out, names[names.len() - 1]));
    }
}

/// A list saved with [`render_modlist`] reads back as the same list, and safe
/// to persist, when the scan of the mods folder finds exactly its managed
/// mods (besides the installer's temporaries).
pub proof fn lemma_modlist_round_trip(ms: Seq<EntryM>, f: ListFile, scan: Seq<Seq<char>>, mods_dir: Seq<char>)
    requires
        reloadable(ms, scan, mods_dir),
        f is Text,
        list_text(f) == render_list(ms),
        forall|k: int| 0 <= k < scan.len() && !starts_with(#[trigger] scan[k], temp_prefix())
            ==> exists|i: int| 0 <= i < ms.len() && !ms[i].3 && ms[i].0 == scan[k],
    ensures
        reconcile(f, Some(scan), mods_dir) == (ms, None::<Seq<char>>),
{
    let present = mod_folders(scan);
    lemma_render_lines(ms);
    let ls = rendered_lines(ms);
    lemma_read_rendered(ms, scan, mods_dir, ms.len() as int);
    assert(ls.take(ms.len() as int) =~= ls);
    let out = Seq::new(ms.len(), |i: int| ms[ms.len() - 1 - i]);
    assert forall|k: int| 0 <= k < present.len() implies has_name(out, #[trigger] present[k]) by {
        let n = present[k];
        assert(present.contains(n));
        lemma_mod_folders_contains(scan, n);
        let q = choose|q: int| 0 <= q < scan.len() && scan[q] == n;
        assert(!starts_with(scan[q], temp_prefix()));
        let i = choose|i: int| 0 <= i < ms.len() && !ms[i].3 && ms[i].0 == scan[q];
        assert(out[ms.len() - 1 - i] == ms[i]);
    }
    lemma_add_unlisted_none(out, present, mods_dir);
    assert(out.reverse() =~= ms);
    if ms.len() == 0 {
        if present.len() > 0 {
            let n = present[0];
            assert(present.contains(n));
            lemma_mod_folders_contains(scan, n);
            let q = choose|q: int| 0 <= q < scan.len() && scan[q] == n;
            assert(!starts_with(scan[q], temp_prefix()));
        }
    } else {
        let t = render_list(ms);
        let l = entry_line(ms.last());
        assert(t[0] == marker(ms.last()));
        assert(!is_ws(t[0]));
        assert(crate::text::trim_start(t) == t);
        crate::text::lemma_trim_end_is_prefix(t);
        assert(trim(t).len() > 0);
    }
}

/// Whether an entry is a mount layer: enabled, a mod Eidos installed, and not
/// a separator.
pub open spec fn mounted(e: EntryM) -> bool {
    e.1 && !e.3 && !is_separator_spec(e.0)
}

/// The folders of the mounted entries of a list in display order, highest
/// priority (the last row) first.
pub open spec fn load_order_spec(ms: Seq<EntryM>) -> Seq<Seq<char>>
    decreases ms.len(),
{
    if ms.len() == 0 {
        Seq::empty()
    } else if mounted(ms.last()) {
        seq![ms.last().2] + load_order_spec(ms.drop_last())
    } else {
        load_order_spec(ms.drop_last())
    }
}

/// What reading the mods folder gave.
#[derive(Debug, Clone)]
pub enum ModsDirScan {
    /// It could not be read; the error's text.
    Unreadable(String),
    /// It was read; whether it holds any folder or link.
    Read(bool),
}

/// How many lines of a list file name a mod: not blank, not a `#` comment.
pub open spec fn listed_count(ls: Seq<Seq<char>>) -> nat
    decreases ls.len(),
{
    if ls.len() == 0 {
        0
    } else {
        let t = trim(ls.last());
        listed_count(ls.drop_last()) + if t.len() > 0 && t[0] != '#' { 1nat } else { 0nat }
    }
}

/// Why writing the list now would destroy the saved order, or nothing when
/// it is safe: a list with entries must not be overwritten while the mods
/// folder cannot be read or holds nothing.
pub open spec fn refusal(f: ListFile, scan: ModsDirScan, list_path: Seq<char>) -> Option<Seq<char>> {
    match f {
        ListFile::Text(t) => {
            let n = listed_count(lines(t@));
            if n == 0 {
                None
            } else {
                match scan {
                    ModsDirScan::Unreadable(e) => Some(
                        "the mods folder could not be read ("@ + e@ + "); refusing to overwrite a list of "@ + dec(n)
                            + " mod(s). Is the drive it lives on mounted?"@,
                    ),
                    ModsDirScan::Read(any) => if any {
                        None
                    } else {
                        Some(
                            "the mods folder is empty while the saved list has "@ + dec(n)
                                + " mod(s); refusing to overwrite it. If the mods really are gone, delete "@
                                + list_path + " to start over."@,
                        )
                    },
                }
            }
        },
        _ => None,
    }
}

fn listed_count_exec(ls: &Vec<Vec<char>>) -> (n: u64)
    ensures
        n == listed_count(ls@.map_values(|l: Vec<char>| l@)),
{
    let ghost lm = ls@.map_values(|l: Vec<char>| l@);
    let mut n: u64 = 0;
    let mut i: usize = 0;
    while i < ls.len()
        invariant
            i <= ls@.len(),
            lm == ls@.map_values(|l: Vec<char>| l@),
            n == listed_count(lm.take(i as int)),
            n <= i,
        decreases ls.len() - i,
    {
        assert(lm.take(i + 1).drop_last() =~= lm.take(i as int));
        assert(lm.take(i + 1).last() == ls@[i as int]@);
        let t = trim_vec(&ls[i]);
        if t.len() > 0 && t[0] != '#' {
            n = n + 1;
        }
        i = i + 1;
    }
    assert(lm.take(i as int) =~= lm);
    n
}

impl Profile {
    /// The mount layers of a mod list given in display order: the enabled
    /// mods' folders, highest priority first. Separators and the game's own
    /// content are never layers.
    pub fn load_order(&self, mods: &[ModEntry]) -> (r: Vec<String>)
        ensures
            crate::meta::strs_view(r@) == load_order_spec(entries_view(mods@)),
    {
        let ghost m = entries_view(mods@);
        let mut out: Vec<String> = Vec::new();
        let mut k: usize = mods.len();
        assert(m.take(k as int) =~= m);
        assert(crate::meta::strs_view(out@) + load_order_spec(m) =~= load_order_spec(m));
        while k > 0
            invariant
                k <= mods@.len(),
                m == entries_view(mods@),
                crate::meta::strs_view(out@) + load_order_spec(m.take(k as int)) == load_order_spec(m),
            decreases k,
        {
            let e = &mods[k - 1];
            let ghost before = crate::meta::strs_view(out@);
            assert(m.take(k as int).drop_last() =~= m.take(k - 1));
            assert(m.take(k as int).last() == e.model());
            if e.enabled && !e.unmanaged && !e.is_separator() {
                out.push(e.path.clone());
                assert(crate::meta::strs_view(out@) =~= before.push(e.path@));
                assert(before + load_order_spec(m.take(k as int)) =~= crate::meta::strs_view(out@) + load_order_spec(m.take(k - 1)));
            }
            k = k - 1;
        }
        assert(m.take(0) =~= Seq::<EntryM>::empty());
        assert(crate::meta::strs_view(out@) + Seq::<Seq<char>>::empty() =~= crate::meta::strs_view(out@));
        out
    }

    /// Why writing `modlist.txt` now would destroy the saved order rather
    /// than record an edit, or `None` when it is safe. `list` is what reading
    /// the list the profile loads from gave, `scan` what reading the mods
    /// folder gave.
    pub fn unsafe_to_persist(&self, list: &ListFile, scan: &ModsDirScan) -> (r: Option<String>)
        ensures
            match r {
                Some(s) => refusal(*list, *scan, path_join(path_join(path_join(self.instance_root@, "profiles"@), self.name@), "modlist.txt"@)) == Some(s@),
                None => refusal(*list, *scan, path_join(path_join(path_join(self.instance_root@, "profiles"@), self.name@), "modlist.txt"@)) is None,
            },
    {
        match list {
            ListFile::Text(t) => {
                let v = chars_of(t.as_str());
                let ls = lines_vec(&v);
                assert(ls@.map_values(|l: Vec<char>| l@) =~= lines(t@));
                let n = listed_count_exec(&ls);
                if n == 0 {
                    return None;
                }
                match scan {
                    ModsDirScan::Unreadable(e) => {
                        let mut s = "the mods folder could not be read (".to_owned();
                        push_str(&mut s, e.as_str());
                        push_str(&mut s, "); refusing to overwrite a list of ");
                        push_str(&mut s, u64_to_string(n).as_str());
                        push_str(&mut s, " mod(s). Is the drive it lives on mounted?");
                        Some(s)
                    },
                    ModsDirScan::Read(any) => {
                        if *any {
                            None
                        } else {
                            let mut s = "the mods folder is empty while the saved list has ".to_owned();
                            push_str(&mut s, u64_to_string(n).as_str());
                            push_str(&mut s, " mod(s); refusing to overwrite it. If the mods really are gone, delete ");
                            push_str(&mut s, self.modlist_path().as_str());
                            push_str(&mut s, " to start over.");
                            Some(s)
                        }
                    },
                }
            },
            _ => None,
        }
    }
}

/// The names sorted: each inserted after every name not greater.
pub open spec fn sorted_names(names: Seq<Seq<char>>) -> Seq<Seq<char>>
    decreases names.len(),
{
    if names.len() == 0 {
        Seq::empty()
    } else {
        let p = sorted_names(names.drop_last());
        p.insert(str_pos(p, names.last()), names.last())
    }
}

/// The profile names: the sorted folder names, or `Default` when there are
/// none.
pub open spec fn profile_names(found: Seq<Seq<char>>) -> Seq<Seq<char>> {
    if found.len() == 0 { seq!["Default"@] } else { sorted_names(found) }
}

fn sorted_names_exec(names: &Vec<String>) -> (r: Vec<String>)
    ensures
        crate::meta::strs_view(r@) == sorted_names(crate::meta::strs_view(names@)),
{
    let ghost nm = crate::meta::strs_view(names@);
    let mut out: Vec<String> = Vec::new();
    let mut i: usize = 0;
    assert(crate::meta::strs_view(out@) =~= Seq::<Seq<char>>::empty());
    while i < names.len()
        invariant
            i <= names@.len(),
            nm == crate::meta::strs_view(names@),
            crate::meta::strs_view(out@) == sorted_names(nm.take(i as int)),
        decreases names.len() - i,
    {
        assert(nm.take(i + 1).drop_last() =~= nm.take(i as int));
        assert(nm.take(i + 1).last() == names@[i as int]@);
        let n = chars_of(names[i].as_str());
        let ghost sv = crate::meta::strs_view(out@);
        let mut k: usize = out.len();
        assert(sv.take(k as int) =~= sv);
        while k > 0 && crate::archive::key_lt_exec(&n, &chars_of(out[k - 1].as_str()))
            invariant
                k <= out@.len(),
                sv == crate::meta::strs_view(out@),
                n@ == names@[i as int]@,
                str_pos(sv, n@) == str_pos(sv.take(k as int), n@),
            decreases k,
        {
            assert(sv.take(k as int).drop_last() =~= sv.take(k - 1));
            assert(sv.take(k as int).last() == sv[k - 1]);
            k = k - 1;
        }
        proof {
            if k > 0 {
                assert(sv.take(k as int).last() == sv[k - 1]);
            }
        }
        out.insert(k, names[i].clone());
        assert(crate::meta::strs_view(out@) =~= sv.insert(k as int, n@));
        i = i + 1;
    }
    assert(nm.take(i as int) =~= nm);
    out
}

/// The profile a manifest selection resolves to: the selected one (or
/// `Default`) when its folder exists, else the first existing profile.
pub open spec fn active_spec(selected: Option<Seq<char>>, found: Seq<Seq<char>>) -> Seq<char> {
    let sel = match selected {
        Some(s) => s,
        None => "Default"@,
    };
    if found.contains(sel) { sel } else { profile_names(found)[0] }
}

/// The first entry named `want` (ignoring ASCII case) that is a directory.
pub open spec fn first_dir_named(names: Seq<Seq<char>>, is_dir: Seq<bool>, want: Seq<char>) -> Option<int>
    decreases names.len(),
{
    if names.len() == 0 {
        None
    } else {
        match first_dir_named(names.drop_last(), is_dir, want) {
            Some(i) => Some(i),
            None => if crate::text::eq_ic(names.last(), want) && is_dir[names.len() - 1] {
                Some(names.len() - 1)
            } else {
                None
            },
        }
    }
}

/// The first entry named `want` (ignoring ASCII case) that is a directory.
pub fn pick_dir(names: &[String], is_dir: &[bool], want: &str) -> (r: Option<usize>)
    requires
        names.len() == is_dir.len(),
    ensures
        match r {
            Some(i) => first_dir_named(crate::meta::strs_view(names@), is_dir@, want@) == Some(i as int),
            None => first_dir_named(crate::meta::strs_view(names@), is_dir@, want@) is None,
        },
{
    let ghost nm = crate::meta::strs_view(names@);
    let mut i: usize = 0;
    while i < names.len()
        invariant
            i <= names@.len(),
            names@.len() == is_dir@.len(),
            nm == crate::meta::strs_view(names@),
            first_dir_named(nm.take(i as int), is_dir@, want@) is None,
        decreases names.len() - i,
    {
        assert(nm.take(i + 1).drop_last() =~= nm.take(i as int));
        assert(nm.take(i + 1).last() == names@[i as int]@);
        if crate::text::eq_ic_str(names[i].as_str(), want) && is_dir[i] {
            proof {
                lemma_first_dir_prefix(nm, is_dir@, want@, i + 1, i as int);
            }
            return Some(i);
        }
        i = i + 1;
    }
    assert(nm.take(i as int) =~= nm);
    None
}

proof fn lemma_first_dir_prefix(names: Seq<Seq<char>>, is_dir: Seq<bool>, want: Seq<char>, k: int, x: int)
    requires
        0 <= k <= names.len(),
        first_dir_named(names.take(k), is_dir, want) == Some(x),
    ensures
        first_dir_named(names, is_dir, want) == Some(x),
    decreases names.len() - k,
{
    if k < names.len() {
        assert(names.take(k + 1).drop_last() =~= names.take(k));
        assert(first_dir_named(names.take(k + 1), is_dir, want) == Some(x));
        lemma_first_dir_prefix(names, is_dir, want, k + 1, x);
    } else {
        assert(names.take(k) =~= names);
    }
}

/// The mounted `Root/` directories, highest priority first, of a list in
/// display order, given each row's `Root/` directory if it has one.
pub open spec fn layers_spec(ms: Seq<EntryM>, roots: Seq<Option<Seq<char>>>) -> Seq<Seq<char>>
    decreases ms.len(),
{
    if ms.len() == 0 {
        Seq::empty()
    } else {
        let rest = layers_spec(ms.drop_last(), roots);
        let e = ms.last();
        if e.1 && !is_separator_spec(e.0) {
            match roots[ms.len() - 1] {
                Some(r) => seq![r] + rest,
                None => rest,
            }
        } else {
            rest
        }
    }
}

/// The views of optional strings.
pub open spec fn opt_strs(v: Seq<Option<String>>) -> Seq<Option<Seq<char>>> {
    v.map_values(|o: Option<String>| match o {
        Some(s) => Some(s@),
        None => None,
    })
}

/// The INI-tweak fragment paths of the enabled mods, in list order, each in
/// its mod's tweak directory.
pub open spec fn tweaks_spec(ms: Seq<EntryM>, tweaks: Seq<Seq<Seq<char>>>, dirs: Seq<Seq<char>>) -> Seq<Seq<char>>
    decreases ms.len(),
{
    if ms.len() == 0 {
        Seq::empty()
    } else {
        let n = ms.len() - 1;
        let prev = tweaks_spec(ms.drop_last(), tweaks, dirs);
        if ms.last().1 && !is_separator_spec(ms.last().0) {
            prev + tweaks[n].map_values(|t: Seq<char>| path_join(dirs[n], t))
        } else {
            prev
        }
    }
}

impl Instance {
    /// All profile names, sorted, given the profile folders found; `Default`
    /// when there are none.
    pub fn profiles(&self, found: &Vec<String>) -> (r: Vec<String>)
        ensures
            crate::meta::strs_view(r@) == profile_names(crate::meta::strs_view(found@)),
    {
        if found.len() == 0 {
            let mut v: Vec<String> = Vec::new();
            v.push("Default".to_owned());
            assert(crate::meta::strs_view(v@) =~= seq!["Default"@]);
            v
        } else {
            sorted_names_exec(found)
        }
    }

    /// The active profile: the manifest's selection (or `Default`) when its
    /// folder exists among `found`, else the first existing profile, so a
    /// renamed or deleted profile never launches as an empty ghost.
    pub fn active_profile(&self, selected: Option<&str>, found: &Vec<String>) -> (r: String)
        ensures
            r@ == active_spec(match selected {
                Some(s) => Some(s@),
                None => None,
            }, crate::meta::strs_view(found@)),
    {
        let ghost selv: Seq<char> = match selected {
            Some(s) => s@,
            None => "Default"@,
        };
        let sel: String = match selected {
            Some(s) => s.to_owned(),
            None => "Default".to_owned(),
        };
        assert(sel@ == selv);
        let ghost fm = crate::meta::strs_view(found@);
        let mut i: usize = 0;
        while i < found.len()
            invariant
                i <= found@.len(),
                fm == crate::meta::strs_view(found@),
                sel@ == selv,
                selv == match selected {
                    Some(s) => s@,
                    None => "Default"@,
                },
                forall|j: int| 0 <= j < i ==> fm[j] != sel@,
            decreases found.len() - i,
        {
            if eq_str(found[i].as_str(), sel.as_str()) {
                assert(fm[i as int] == sel@);
                assert(fm.contains(sel@));
                return sel;
            }
            i = i + 1;
        }
        assert(!fm.contains(selv));
        let names = self.profiles(found);
        proof {
            lemma_sorted_names_len(fm);
            assert(crate::meta::strs_view(names@).len() == names@.len());
            assert(profile_names(fm).len() >= 1);
        }
        let r = names[0].clone();
        assert(r@ == crate::meta::strs_view(names@)[0]);
        r
    }

    /// The `Root/` directories of the enabled mods, highest priority first.
    /// `mods` is the list in display order and `roots[i]` the `Root/`
    /// directory found in `mods[i]`'s folder, if any.
    pub fn root_layers(&self, mods: &[ModEntry], roots: &[Option<String>]) -> (r: Vec<String>)
        requires
            roots.len() == mods.len(),
        ensures
            crate::meta::strs_view(r@) == layers_spec(entries_view(mods@), opt_strs(roots@)),
    {
        let ghost m = entries_view(mods@);
        let ghost rs = opt_strs(roots@);
        let mut out: Vec<String> = Vec::new();
        let mut k: usize = mods.len();
        assert(m.take(k as int) =~= m);
        assert(crate::meta::strs_view(out@) + layers_spec(m, rs) =~= layers_spec(m, rs));
        while k > 0
            invariant
                k <= mods@.len(),
                roots@.len() == mods@.len(),
                m == entries_view(mods@),
                rs == opt_strs(roots@),
                crate::meta::strs_view(out@) + layers_spec(m.take(k as int), rs) == layers_spec(m, rs),
            decreases k,
        {
            let e = &mods[k - 1];
            let ghost before = crate::meta::strs_view(out@);
            assert(m.take(k as int).drop_last() =~= m.take(k - 1));
            assert(m.take(k as int).last() == e.model());
            if e.enabled && !e.is_separator() {
                match &roots[k - 1] {
                    Some(r) => {
                        out.push(r.clone());
                        assert(crate::meta::strs_view(out@) =~= before.push(r@));
                        assert(before + layers_spec(m.take(k as int), rs) =~= crate::meta::strs_view(out@) + layers_spec(m.take(k - 1), rs));
                    },
                    None => {},
                }
            }
            k = k - 1;
        }
        assert(m.take(0) =~= Seq::<EntryM>::empty());
        assert(crate::meta::strs_view(out@) + Seq::<Seq<char>>::empty() =~= crate::meta::strs_view(out@));
        out
    }

    /// The INI-tweak fragments the enabled mods name, in application order
    /// (lowest priority first, so a higher-priority mod's fragment wins):
    /// `metas[i]` is the metadata of `mods[i]` and `tweak_dirs[i]` its tweak
    /// directory. Whether each fragment exists on disk is for the caller to
    /// check.
    pub fn enabled_ini_tweaks(&self, mods: &[ModEntry], metas: &[crate::meta::ModMeta], tweak_dirs: &[String]) -> (r: Vec<String>)
        requires
            metas.len() == mods.len(),
            tweak_dirs.len() == mods.len(),
        ensures
            crate::meta::strs_view(r@) == tweaks_spec(
                entries_view(mods@),
                metas@.map_values(|x: crate::meta::ModMeta| x@.ini_tweaks),
                crate::meta::strs_view(tweak_dirs@),
            ),
    {
        let ghost m = entries_view(mods@);
        let ghost tw = metas@.map_values(|x: crate::meta::ModMeta| x@.ini_tweaks);
        let ghost ds = crate::meta::strs_view(tweak_dirs@);
        let mut out: Vec<String> = Vec::new();
        let mut i: usize = 0;
        assert(crate::meta::strs_view(out@) =~= tweaks_spec(m.take(0), tw, ds));
        while i < mods.len()
            invariant
                i <= mods@.len(),
                metas@.len() == mods@.len(),
                tweak_dirs@.len() == mods@.len(),
                m == entries_view(mods@),
                tw == metas@.map_values(|x: crate::meta::ModMeta| x@.ini_tweaks),
                ds == crate::meta::strs_view(tweak_dirs@),
                crate::meta::strs_view(out@) == tweaks_spec(m.take(i as int), tw, ds),
            decreases mods.len() - i,
        {
            assert(m.take(i + 1).drop_last() =~= m.take(i as int));
            assert(m.take(i + 1).last() == mods@[i as int].model());
            let e = &mods[i];
            if e.enabled && !e.is_separator() {
                let names = metas[i].ini_tweaks();
                let ghost base = crate::meta::strs_view(out@);
                let ghost want = tw[i as int].map_values(|t: Seq<char>| path_join(ds[i as int], t));
                let mut j: usize = 0;
                while j < names.len()
                    invariant
                        j <= names@.len(),
                        i < mods@.len(),
                        crate::meta::strs_view(names@) == tw[i as int],
                        tweak_dirs@.len() == mods@.len(),
                        ds == crate::meta::strs_view(tweak_dirs@),
                        want == tw[i as int].map_values(|t: Seq<char>| path_join(ds[i as int], t)),
                        crate::meta::strs_view(out@) == base + want.take(j as int),
                    decreases names.len() - j,
                {
                    let ghost before = crate::meta::strs_view(out@);
                    let p = join(tweak_dirs[i].as_str(), names[j].as_str());
                    out.push(p);
                    assert(crate::meta::strs_view(out@) =~= before.push(p@));
                    assert(want.take(j + 1) =~= want.take(j as int).push(want[j as int]));
                    assert(crate::meta::strs_view(out@) =~= base + want.take(j + 1));
                    j = j + 1;
                }
                assert(want.take(j as int) =~= want);
            }
            i = i + 1;
        }
        assert(m.take(i as int) =~= m);
        out
    }
}

proof fn lemma_sorted_names_len(names: Seq<Seq<char>>)
    ensures
        sorted_names(names).len() == names.len(),
    decreases names.len(),
{
    if names.len() > 0 {
        lemma_sorted_names_len(names.drop_last());
        lemma_str_pos_range(sorted_names(names.drop_last()), names.last());
    }
}

/// The load order is the mod list read backwards, keeping the mounted
/// entries' folders: the filter of the mounted rows, their paths, reversed.
pub proof fn lemma_load_order_layers(ms: Seq<EntryM>)
    ensures
        load_order_spec(ms) == ms.filter(|e: EntryM| mounted(e)).map_values(|e: EntryM| e.2).reverse(),
    decreases ms.len(),
{
    broadcast use Seq::lemma_filter_push;
    if ms.len() == 0 {
        assert(ms.filter(|e: EntryM| mounted(e)) =~= Seq::<EntryM>::empty());
        assert(ms.filter(|e: EntryM| mounted(e)).map_values(|e: EntryM| e.2).reverse() =~= Seq::<Seq<char>>::empty());
    } else {
        let q = ms.drop_last();
        let x = ms.last();
        lemma_load_order_layers(q);
        assert(q.push(x) =~= ms);
        let fq = q.filter(|e: EntryM| mounted(e));
        if mounted(x) {
            assert(ms.filter(|e: EntryM| mounted(e)) == fq.push(x));
            assert(fq.push(x).map_values(|e: EntryM| e.2) =~= fq.map_values(|e: EntryM| e.2).push(x.2));
            assert(fq.map_values(|e: EntryM| e.2).push(x.2).reverse() =~= seq![x.2] + fq.map_values(|e: EntryM| e.2).reverse());
        } else {
            assert(ms.filter(|e: EntryM| mounted(e)) == fq);
        }
    }
}

proof fn lemma_sorted_names_members(names: Seq<Seq<char>>)
    ensures
        sorted_names(names).len() == names.len(),
        forall|k: int| 0 <= k < names.len() ==> names.contains(#[trigger] sorted_names(names)[k]),
    decreases names.len(),
{
    if names.len() > 0 {
        let q = names.drop_last();
        lemma_sorted_names_members(q);
        let p = sorted_names(q);
        lemma_str_pos_range(p, names.last());
        let pos = str_pos(p, names.last());
        let r = sorted_names(names);
        assert forall|k: int| 0 <= k < names.len() implies names.contains(#[trigger] r[k]) by {
            if k < pos {
                assert(r[k] == p[k]);
                let j = choose|j: int| 0 <= j < q.len() && q[j] == p[k];
                assert(names[j] == q[j]);
            } else if k == pos {
                assert(r[k] == names[names.len() - 1]);
            } else {
                assert(r[k] == p[k - 1]);
                let j = choose|j: int| 0 <= j < q.len() && q[j] == p[k - 1];
                assert(names[j] == q[j]);
            }
        }
    }
}

/// The active profile is never a ghost: it is the selection (or `Default`)
/// whenever that folder exists, and otherwise, as long as any profile exists,
/// one of the existing profiles.
pub proof fn lemma_active_profile_exists(selected: Option<Seq<char>>, found: Seq<Seq<char>>)
    ensures
        found.contains(match selected {
            Some(s) => s,
            None => "Default"@,
        }) ==> active_spec(selected, found) == match selected {
            Some(s) => s,
            None => "Default"@,
        },
        found.len() > 0 ==> found.contains(active_spec(selected, found)),
{
    lemma_sorted_names_members(found);
    if found.len() > 0 {
        assert(found.contains(sorted_names(found)[0]));
    }
}

} // verus!
