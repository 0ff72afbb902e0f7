//! The checks the instance makes before touching the disk: which names a new
//! mod, a mod made from the Overwrite, or a renamed profile may take, when a
//! profile may be deleted, and the names a mod backup is tried under.

use vstd::prelude::*;

use crate::text::{chars_of, dec, eq_str, string_of, trim, trim_vec, u64_to_string};

verus! {

/// Whether a text holds a path separator.
pub open spec fn has_separator(s: Seq<char>) -> bool {
    exists|j: int| 0 <= j < s.len() && (s[j] == '/' || s[j] == '\\')
}

fn has_separator_exec(v: &[char]) -> (b: bool)
    ensures
        b == has_separator(v@),
{
    let mut i: usize = 0;
    while i < v.len()
        invariant
            i <= v@.len(),
            forall|j: int| 0 <= j < i ==> v@[j] != '/' && v@[j] != '\\',
        decreases v.len() - i,
    {
        if v[i] == '/' || v[i] == '\\' {
            return true;
        }
        i = i + 1;
    }
    false
}

/// The name a new empty mod takes: the trimmed name, unless that is empty or
/// holds a path separator.
pub open spec fn new_mod_name_spec(name: Seq<char>) -> Option<Seq<char>> {
    let t = trim(name);
    if t.len() == 0 || has_separator(t) { None } else { Some(t) }
}

/// The folder name for "Create empty mod", or `None` for an invalid name.
pub fn new_mod_name(name: &str) -> (r: Option<String>)
    ensures
        match r {
            Some(s) => new_mod_name_spec(name@) == Some(s@),
            None => new_mod_name_spec(name@) is None,
        },
{
    let v = chars_of(name);
    let t = trim_vec(&v);
    if t.len() == 0 || has_separator_exec(&t) {
        None
    } else {
        Some(string_of(&t))
    }
}

/// A plain folder name: not `.` or `..`.
pub open spec fn dot_name(s: Seq<char>) -> bool {
    s == "."@ || s == ".."@
}

/// The mod an Overwrite is moved into: the trimmed name, unless that is
/// empty, holds a path separator, or is `.` or `..`.
pub open spec fn overwrite_mod_name_spec(name: Seq<char>) -> Option<Seq<char>> {
    let t = trim(name);
    if t.len() == 0 || has_separator(t) || dot_name(t) { None } else { Some(t) }
}

/// The folder name for "Create mod from Overwrite", or `None` for an invalid
/// name.
pub fn overwrite_mod_name(name: &str) -> (r: Option<String>)
    ensures
        match r {
            Some(s) => overwrite_mod_name_spec(name@) == Some(s@),
            None => overwrite_mod_name_spec(name@) is None,
        },
{
    let v = chars_of(name);
    let t = trim_vec(&v);
    let s = string_of(&t);
    if t.len() == 0 || has_separator_exec(&t) || eq_str(s.as_str(), ".") || eq_str(s.as_str(), "..") {
        None
    } else {
        Some(s)
    }
}

/// Why a profile cannot be renamed.
#[derive(Debug, Clone, Copy, PartialEq, Eq, Structural)]
pub enum RenameRefusal {
    /// The new name is blank or the same as the old one.
    InvalidName,
    /// The new name would leave the profiles directory.
    PathSeparator,
    /// There is no profile by the old name.
    NoSuchProfile,
    /// A profile by the new name exists already.
    TargetExists,
}

/// The rename rules, in order: a blank or unchanged name, then a name with a
/// separator or a dot component, then a missing source, then a taken target.
pub open spec fn rename_check_spec(old: Seq<char>, new: Seq<char>, old_exists: bool, new_exists: bool) -> Option<RenameRefusal> {
    if trim(new).len() == 0 || old == new {
        Some(RenameRefusal::InvalidName)
    } else if has_separator(new) || dot_name(new) {
        Some(RenameRefusal::PathSeparator)
    } else if !old_exists {
        Some(RenameRefusal::NoSuchProfile)
    } else if new_exists {
        Some(RenameRefusal::TargetExists)
    } else {
        None
    }
}

/// Whether a profile may be renamed from `old` to `new`, given whether the
/// old profile's folder exists and whether anything is at the new one.
pub fn rename_check(old: &str, new: &str, old_exists: bool, new_exists: bool) -> (r: Option<RenameRefusal>)
    ensures
        r == rename_check_spec(old@, new@, old_exists, new_exists),
{
    let nv = chars_of(new);
    let nt = trim_vec(&nv);
    if nt.len() == 0 || eq_str(old, new) {
        Some(RenameRefusal::InvalidName)
    } else if has_separator_exec(&nv) || eq_str(new, ".") || eq_str(new, "..") {
        Some(RenameRefusal::PathSeparator)
    } else if !old_exists {
        Some(RenameRefusal::NoSuchProfile)
    } else if new_exists {
        Some(RenameRefusal::TargetExists)
    } else {
        None
    }
}

/// Whether the active-profile pointer follows a rename: it does exactly when
/// it named the renamed profile.
pub fn rename_moves_pointer(selected: Option<&str>, old: &str) -> (b: bool)
    ensures
        b == match selected {
            Some(s) => s@ == old@,
            None => false,
        },
{
    match selected {
        Some(s) => eq_str(s, old),
        None => false,
    }
}

/// Why a profile cannot be deleted.
#[derive(Debug, Clone, Copy, PartialEq, Eq, Structural)]
pub enum DeleteRefusal {
    /// It is the active profile.
    ActiveProfile,
    /// It is the only profile left.
    LastProfile,
}

/// Whether a profile may be deleted: never the active one, never the last.
pub fn delete_check(name: &str, active: &str, profile_count: usize) -> (r: Option<DeleteRefusal>)
    ensures
        r == if active@ == name@ {
            Some(DeleteRefusal::ActiveProfile)
        } else if profile_count <= 1 {
            Some(DeleteRefusal::LastProfile)
        } else {
            None::<DeleteRefusal>
        },
{
    if eq_str(active, name) {
        Some(DeleteRefusal::ActiveProfile)
    } else if profile_count <= 1 {
        Some(DeleteRefusal::LastProfile)
    } else {
        None
    }
}

/// The name the `n`-th backup of a mod folder is tried under: `<name>_backup`,
/// then `<name>_backup2`, `<name>_backup3`, and so on.
pub open spec fn backup_candidate_spec(name: Seq<char>, n: u64) -> Seq<char> {
    if n <= 1 { name + "_backup"@ } else { name + "_backup"@ + dec(n as nat) }
}

/// The name the `n`-th backup of a mod folder is tried under (counting from 1).
pub fn backup_candidate(name: &str, n: u64) -> (s: String)
    ensures
        s@ == backup_candidate_spec(name@, n),
{
    let mut out = name.to_owned();
    crate::text::push_str(&mut out, "_backup");
    if n > 1 {
        let d = u64_to_string(n);
        crate::text::push_str(&mut out, d.as_str());
    }
    out
}

} // verus!
