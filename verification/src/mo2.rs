//! Importing a Mod Organizer 2 profile's mod list: MO2's order and enabled
//! states are taken for the mods installed here (matched ignoring ASCII case),
//! local mods MO2 never listed stay at the bottom, and what MO2 lists but is
//! not installed is reported.

use vstd::prelude::*;

use crate::modlist::{entries_view, EntryM, ModEntry};
use crate::text::{chars_of, eq_chars, lines, lines_vec, lower, lower_vec, slice_vec, string_of, trim, trim_vec};

verus! {

/// What an import took over.
#[derive(Debug, Clone, PartialEq, Eq)]
pub struct Mo2Import {
    /// Mods MO2 listed that are installed here; their order and state applied.
    pub matched: usize,
    /// Local mods MO2 never listed, kept at the bottom of the order.
    pub kept_local: usize,
    /// Mods MO2 listed that are not installed here.
    pub missing: Vec<String>,
    /// How many of `plugins.txt` / `loadorder.txt` were imported.
    pub plugin_files: usize,
}

/// A `modlist.txt` line as MO2 writes it: `(enabled, name)` for `+name`,
/// `-name` or a bare name; none for a blank or `#` line, a foreign `*` entry,
/// or an empty name.
pub open spec fn mo2_line(l: Seq<char>) -> Option<(bool, Seq<char>)> {
    let t = trim(l);
    if t.len() == 0 || t[0] == '#' || t[0] == '*' {
        None
    } else {
        let (en, name) = if t[0] == '+' {
            (true, trim(t.drop_first()))
        } else if t[0] == '-' {
            (false, trim(t.drop_first()))
        } else {
            (true, t)
        };
        if name.len() == 0 { None } else { Some((en, name)) }
    }
}

/// Every content line of a list starts with an ASCII character.
pub open spec fn ascii_led(text: Seq<char>) -> bool {
    forall|i: int| 0 <= i < lines(text).len() ==> {
        let t = trim(#[trigger] lines(text)[i]);
        t.len() == 0 || (t[0] as u32) < 128
    }
}

/// The last of our mods whose name is `key` ignoring ASCII case.
pub open spec fn find_mod(ours: Seq<EntryM>, key: Seq<char>) -> Option<int>
    decreases ours.len(),
{
    if ours.len() == 0 {
        None
    } else if lower(ours.last().0) == key {
        Some(ours.len() - 1)
    } else {
        find_mod(ours.drop_last(), key)
    }
}

/// What reading MO2's lines so far gives: the matched entries in MO2's order
/// (highest priority first), the keys taken, and the names not installed.
pub open spec fn mo2_fold(ours: Seq<EntryM>, ls: Seq<Seq<char>>) -> (Seq<EntryM>, Seq<Seq<char>>, Seq<Seq<char>>)
    decreases ls.len(),
{
    if ls.len() == 0 {
        (Seq::empty(), Seq::empty(), Seq::empty())
    } else {
        let (ordered, taken, missing) = mo2_fold(ours, ls.drop_last());
        match mo2_line(ls.last()) {
            None => (ordered, taken, missing),
            Some((en, name)) => {
                let key = lower(name);
                match find_mod(ours, key) {
                    Some(i) => if taken.contains(key) {
                        (ordered, taken, missing)
                    } else {
                        (ordered.push((ours[i].0, en, ours[i].2, ours[i].3)), taken.push(key), missing)
                    },
                    None => (ordered, taken, missing.push(name)),
                }
            },
        }
    }
}

/// Our mods whose key MO2 did not take, in our order.
pub open spec fn kept_mods(ours: Seq<EntryM>, taken: Seq<Seq<char>>) -> Seq<EntryM>
    decreases ours.len(),
{
    if ours.len() == 0 {
        Seq::empty()
    } else {
        let prev = kept_mods(ours.drop_last(), taken);
        if taken.contains(lower(ours.last().0)) { prev } else { prev.push(ours.last()) }
    }
}

/// The list an import gives, in display order: the local mods MO2 never
/// listed, then MO2's matches with its lowest priority first.
pub open spec fn import_list(ours: Seq<EntryM>, text: Seq<char>) -> Seq<EntryM> {
    let (ordered, taken, _) = mo2_fold(ours, lines(text));
    kept_mods(ours, taken) + ordered.reverse()
}

fn find_mod_exec(ours: &[ModEntry], key: &[char]) -> (r: Option<usize>)
    ensures
        match r {
            Some(i) => find_mod(entries_view(ours@), key@) == Some(i as int) && i < ours@.len(),
            None => find_mod(entries_view(ours@), key@) is None,
        },
{
    let ghost m = entries_view(ours@);
    let mut i: usize = ours.len();
    assert(m.take(i as int) =~= m);
    while i > 0
        invariant
            i <= ours@.len(),
            m == entries_view(ours@),
            find_mod(m, key@) == find_mod(m.take(i as int), key@),
        decreases i,
    {
        let name = chars_of(ours[i - 1].name.as_str());
        let l = lower_vec(&name);
        assert(m.take(i as int).last() == m[i - 1]);
        if eq_chars(&l, key) {
            return Some(i - 1);
        }
        assert(m.take(i as int).drop_last() =~= m.take(i - 1));
        i = i - 1;
    }
    None
}

fn contains_key(keys: &Vec<Vec<char>>, key: &[char]) -> (b: bool)
    ensures
        b == keys@.map_values(|k: Vec<char>| k@).contains(key@),
{
    let ghost km = keys@.map_values(|k: Vec<char>| k@);
    let mut i: usize = 0;
    while i < keys.len()
        invariant
            i <= keys@.len(),
            km == keys@.map_values(|k: Vec<char>| k@),
            forall|j: int| 0 <= j < i ==> km[j] != key@,
        decreases keys.len() - i,
    {
        if eq_chars(&keys[i], key) {
            assert(km[i as int] == key@);
            return true;
        }
        i = i + 1;
    }
    false
}

/// One line as MO2 wrote it: `(enabled, name)`, or none for a line that
/// carries no mod.
fn mo2_line_exec(l: &[char]) -> (r: Option<(bool, Vec<char>)>)
    requires
        trim(l@).len() == 0 || (trim(l@)[0] as u32) < 128,
    ensures
        match r {
            Some((en, name)) => mo2_line(l@) == Some((en, name@)),
            None => mo2_line(l@) is None,
        },
{
    let t = trim_vec(l);
    if t.len() == 0 || t[0] == '#' || t[0] == '*' {
        return None;
    }
    let (en, name) = if t[0] == '+' || t[0] == '-' {
        let rest = slice_vec(&t, 1, t.len());
        assert(rest@ =~= t@.drop_first());
        (t[0] == '+', trim_vec(&rest))
    } else {
        (true, t)
    };
    if name.len() == 0 {
        None
    } else {
        Some((en, name))
    }
}

/// Merge MO2's `modlist.txt` text into our mod list: every line naming an
/// installed mod (ignoring ASCII case, the first mention counting) takes its
/// MO2 order and enabled state; our mods MO2 never listed keep theirs at the
/// bottom; the names MO2 lists that are not installed are reported. No line
/// may start with a non-ASCII character (MO2 never writes one).
pub fn import_mo2_list(ours: &[ModEntry], text: &str) -> (r: (Vec<ModEntry>, Mo2Import))
    requires
        ascii_led(text@),
    ensures
        entries_view(r.0@) == import_list(entries_view(ours@), text@),
        r.1.matched == mo2_fold(entries_view(ours@), lines(text@)).0.len(),
        r.1.kept_local == kept_mods(entries_view(ours@), mo2_fold(entries_view(ours@), lines(text@)).1).len(),
        r.1.missing@.map_values(|s: String| s@) == mo2_fold(entries_view(ours@), lines(text@)).2,
        r.1.plugin_files == 0,
{
    let ghost m = entries_view(ours@);
    let v = chars_of(text);
    let ls = lines_vec(&v);
    let ghost lm = ls@.map_values(|l: Vec<char>| l@);
    assert(lm =~= lines(text@));
    let mut ordered: Vec<ModEntry> = Vec::new();
    let mut taken: Vec<Vec<char>> = Vec::new();
    let mut missing: Vec<String> = Vec::new();
    let mut i: usize = 0;
    while i < ls.len()
        invariant
            i <= ls@.len(),
            m == entries_view(ours@),
            lm == ls@.map_values(|l: Vec<char>| l@),
            lm == lines(text@),
            ascii_led(text@),
            mo2_fold(m, lm.take(i as int)) == (
                entries_view(ordered@),
                taken@.map_values(|k: Vec<char>| k@),
                missing@.map_values(|s: String| s@),
            ),
        decreases ls.len() - i,
    {
        assert(lm.take(i + 1).drop_last() =~= lm.take(i as int));
        assert(lm.take(i + 1).last() == ls@[i as int]@);
        assert(lines(text@)[i as int] == ls@[i as int]@);
        match mo2_line_exec(&ls[i]) {
            None => {},
            Some((en, name)) => {
                let key = lower_vec(&name);
                match find_mod_exec(ours, &key) {
                    Some(k) => {
                        if !contains_key(&taken, &key) {
                            let e = ModEntry {
                                name: ours[k].name.clone(),
                                enabled: en,
                                path: ours[k].path.clone(),
                                unmanaged: ours[k].unmanaged,
                            };
                            let ghost o0 = entries_view(ordered@);
                            let ghost t0 = taken@.map_values(|x: Vec<char>| x@);
                            ordered.push(e);
                            taken.push(key);
                            assert(entries_view(ordered@) =~= o0.push((m[k as int].0, en, m[k as int].2, m[k as int].3)));
                            assert(taken@.map_values(|x: Vec<char>| x@) =~= t0.push(lower(name@)));
                        }
                    },
                    None => {
                        let ghost s0 = missing@.map_values(|s: String| s@);
                        missing.push(string_of(&name));
                        assert(missing@.map_values(|s: String| s@) =~= s0.push(name@));
                    },
                }
            },
        }
        i = i + 1;
    }
    assert(lm.take(i as int) =~= lm);
    let matched = ordered.len();
    let ghost tk = taken@.map_values(|k: Vec<char>| k@);
    let mut out: Vec<ModEntry> = Vec::new();
    let mut j: usize = 0;
    assert(m.take(0) =~= Seq::<EntryM>::empty());
    while j < ours.len()
        invariant
            j <= ours@.len(),
            m == entries_view(ours@),
            tk == taken@.map_values(|k: Vec<char>| k@),
            entries_view(out@) == kept_mods(m.take(j as int), tk),
        decreases ours.len() - j,
    {
        assert(m.take(j + 1).drop_last() =~= m.take(j as int));
        assert(m.take(j + 1).last() == ours@[j as int].model());
        let name = chars_of(ours[j].name.as_str());
        let key = lower_vec(&name);
        if !contains_key(&taken, &key) {
            let ghost o0 = entries_view(out@);
            out.push(ours[j].clone_entry());
            assert(entries_view(out@) =~= o0.push(m[j as int]));
        }
        j = j + 1;
    }
    assert(m.take(j as int) =~= m);
    let kept_local = out.len();
    let ghost kept = entries_view(out@);
    let ghost ord = entries_view(ordered@);
    let mut k: usize = ordered.len();
    while k > 0
        invariant
            k <= ordered@.len(),
            ord == entries_view(ordered@),
            entries_view(out@) == kept + ord.reverse().take(ordered@.len() - k),
        decreases k,
    {
        let ghost o0 = entries_view(out@);
        out.push(ordered[k - 1].clone_entry());
        assert(ord.reverse().take(ordered@.len() - k + 1) =~= ord.reverse().take(ordered@.len() - k).push(ord[k - 1]));
        assert(entries_view(out@) =~= o0.push(ord[k - 1]));
        k = k - 1;
    }
    assert(ord.reverse().take(ordered@.len() as int) =~= ord.reverse());
    (out, Mo2Import { matched, kept_local, missing, plugin_files: 0 })
}

proof fn lemma_find_mod(ours: Seq<EntryM>, key: Seq<char>)
    ensures
        match find_mod(ours, key) {
            Some(i) => 0 <= i < ours.len() && lower(ours[i].0) == key,
            None => forall|j: int| 0 <= j < ours.len() ==> lower(ours[j].0) != key,
        },
    decreases ours.len(),
{
    if ours.len() > 0 && lower(ours.last().0) != key {
        lemma_find_mod(ours.drop_last(), key);
        assert forall|j: int| 0 <= j < ours.len() - 1 implies ours[j] == ours.drop_last()[j] by {}
    }
}

/// The same mod, whatever its enabled state.
pub open spec fn same_mod(a: EntryM, b: EntryM) -> bool {
    a.0 == b.0 && a.2 == b.2 && a.3 == b.3
}

/// Each taken key matched the entry taken with it.
proof fn lemma_fold_taken(ours: Seq<EntryM>, ls: Seq<Seq<char>>)
    ensures
        ({
            let (ordered, taken, _) = mo2_fold(ours, ls);
            &&& ordered.len() == taken.len()
            &&& forall|t: int| 0 <= t < taken.len() ==> {
                let i = find_mod(ours, #[trigger] taken[t])->0;
                &&& find_mod(ours, taken[t]) is Some
                &&& same_mod(ordered[t], ours[i])
            }
        }),
    decreases ls.len(),
{
    if ls.len() > 0 {
        lemma_fold_taken(ours, ls.drop_last());
        let (ordered, taken, missing) = mo2_fold(ours, ls.drop_last());
        match mo2_line(ls.last()) {
            None => {},
            Some((en, name)) => {
                let key = lower(name);
                lemma_find_mod(ours, key);
                match find_mod(ours, key) {
                    Some(i) => {
                        if !taken.contains(key) {
                            let o2 = ordered.push((ours[i].0, en, ours[i].2, ours[i].3));
                            let t2 = taken.push(key);
                            assert forall|t: int| 0 <= t < t2.len() implies {
                                let i2 = find_mod(ours, #[trigger] t2[t])->0;
                                &&& find_mod(ours, t2[t]) is Some
                                &&& same_mod(o2[t], ours[i2])
                            } by {
                                if t < taken.len() {
                                    assert(t2[t] == taken[t]);
                                    assert(o2[t] == ordered[t]);
                                }
                            }
                        }
                    },
                    None => {},
                }
            },
        }
    }
}

/// Every mod whose key was not taken is kept.
proof fn lemma_kept_has(ours: Seq<EntryM>, taken: Seq<Seq<char>>, i: int)
    requires
        0 <= i < ours.len(),
        !taken.contains(lower(ours[i].0)),
    ensures
        exists|j: int| 0 <= j < kept_mods(ours, taken).len() && kept_mods(ours, taken)[j] == ours[i],
    decreases ours.len(),
{
    let prev = kept_mods(ours.drop_last(), taken);
    if i == ours.len() - 1 {
        assert(ours.last() == ours[i]);
        assert(kept_mods(ours, taken) == prev.push(ours.last()));
        assert(kept_mods(ours, taken)[prev.len() as int] == ours[i]);
    } else {
        assert(ours.drop_last()[i] == ours[i]);
        lemma_kept_has(ours.drop_last(), taken, i);
        let j = choose|j: int| 0 <= j < prev.len() && prev[j] == ours[i];
        if !taken.contains(lower(ours.last().0)) {
            assert(kept_mods(ours, taken) == prev.push(ours.last()));
            assert(kept_mods(ours, taken)[j] == prev[j]);
        } else {
            assert(kept_mods(ours, taken) == prev);
        }
    }
}

/// Importing never loses a mod installed here: when our mod names differ
/// ignoring ASCII case, every one of them is in the imported list (with its
/// own or MO2's enabled state).
pub proof fn lemma_import_keeps_local(ours: Seq<EntryM>, text: Seq<char>)
    requires
        forall|a: int, b: int| 0 <= a < ours.len() && 0 <= b < ours.len() && a != b ==> lower(ours[a].0) != lower(ours[b].0),
    ensures
        forall|i: int| #![trigger ours[i]] 0 <= i < ours.len() ==> exists|j: int|
            0 <= j < import_list(ours, text).len() && same_mod(#[trigger] import_list(ours, text)[j], ours[i]),
{
    let ls = lines(text);
    let (ordered, taken, _) = mo2_fold(ours, ls);
    lemma_fold_taken(ours, ls);
    let kept = kept_mods(ours, taken);
    let r = import_list(ours, text);
    assert(r == kept + ordered.reverse());
    assert forall|i: int| #![trigger ours[i]] 0 <= i < ours.len() implies exists|j: int|
        0 <= j < r.len() && same_mod(#[trigger] r[j], ours[i]) by {
        let key = lower(ours[i].0);
        if taken.contains(key) {
            let t = choose|t: int| 0 <= t < taken.len() && taken[t] == key;
            let i2 = find_mod(ours, taken[t])->0;
            lemma_find_mod(ours, key);
            assert(i2 == i);
            let j = kept.len() + (ordered.len() - 1 - t);
            assert(r[j] == ordered.reverse()[ordered.len() - 1 - t]);
            assert(r[j] == ordered[t]);
        } else {
            lemma_kept_has(ours, taken, i);
            let j = choose|j: int| 0 <= j < kept.len() && kept[j] == ours[i];
            assert(r[j] == kept[j]);
        }
    }
}

} // verus!
