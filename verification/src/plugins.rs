//! A profile's plugin state: counting the active plugins of a `plugins.txt`,
//! the loss guard that tells an edit from a wreck, the pinned load-order
//! positions, and which of the game's side files a profile adopts.

use vstd::prelude::*;

use crate::text::{
    chars_of, eq_chars, eq_ic, lines, lines_vec, lower, lower_vec, push_char, push_str, string_of, trim,
    trim_vec, u64_to_string,
};

verus! {

/// How a game marks the active plugins of its `plugins.txt`.
#[derive(Debug, Clone, Copy, PartialEq, Eq, Structural)]
pub enum LoadOrderMechanism {
    /// A leading `*` marks an active plugin.
    Asterisk,
    /// Every listed plugin is active.
    PlainList,
}

/// The listed plugins of a `plugins.txt`: trimmed lines that are neither
/// blank nor `#` comments, in order.
pub open spec fn listed_plugins(ls: Seq<Seq<char>>) -> Seq<Seq<char>>
    decreases ls.len(),
{
    if ls.len() == 0 {
        Seq::empty()
    } else {
        let prev = listed_plugins(ls.drop_last());
        let t = trim(ls.last());
        if t.len() == 0 || t[0] == '#' { prev } else { prev.push(t) }
    }
}

/// How many of the listed lines are marked active with a `*`.
pub open spec fn starred(ls: Seq<Seq<char>>) -> nat
    decreases ls.len(),
{
    if ls.len() == 0 {
        0
    } else {
        starred(ls.drop_last()) + if ls.last()[0] == '*' { 1nat } else { 0nat }
    }
}

/// The active plugins of a `plugins.txt` text under a mechanism.
pub open spec fn actives_spec(text: Seq<char>, mech: LoadOrderMechanism) -> nat {
    let l = listed_plugins(lines(text));
    match mech {
        LoadOrderMechanism::Asterisk => starred(l),
        LoadOrderMechanism::PlainList => l.len(),
    }
}

proof fn lemma_starred_le(ls: Seq<Seq<char>>)
    ensures
        starred(ls) <= ls.len(),
    decreases ls.len(),
{
    if ls.len() > 0 {
        lemma_starred_le(ls.drop_last());
    }
}

/// The listed and the `*`-active entries of a `plugins.txt` text.
fn tally(text: &str) -> (r: (usize, usize))
    ensures
        r.0 == listed_plugins(lines(text@)).len(),
        r.1 == starred(listed_plugins(lines(text@))),
{
    let v = chars_of(text);
    let ls = lines_vec(&v);
    let ghost lm = lines(text@);
    let mut listed: usize = 0;
    let mut active: usize = 0;
    let mut i: usize = 0;
    while i < ls.len()
        invariant
            i <= ls@.len(),
            ls@.len() == lm.len(),
            forall|k: int| 0 <= k < ls@.len() ==> (#[trigger] ls@[k])@ == lm[k],
            listed == listed_plugins(lm.take(i as int)).len(),
            active == starred(listed_plugins(lm.take(i as int))),
            listed <= i,
        decreases ls.len() - i,
    {
        assert(lm.take(i + 1).drop_last() =~= lm.take(i as int));
        assert(lm.take(i + 1).last() == ls@[i as int]@);
        proof {
            lemma_starred_le(listed_plugins(lm.take(i as int)));
        }
        let t = trim_vec(&ls[i]);
        if t.len() > 0 && t[0] != '#' {
            let ghost p = listed_plugins(lm.take(i as int));
            assert(listed_plugins(lm.take(i + 1)).drop_last() =~= p);
            listed = listed + 1;
            if t[0] == '*' {
                active = active + 1;
            }
        }
        i = i + 1;
    }
    assert(lm.take(i as int) =~= lm);
    (listed, active)
}

/// The active plugins of a `plugins.txt` text: the `*`-marked listed lines,
/// or every listed line where the game lists only active ones.
pub fn count_actives(text: &str, mechanism: LoadOrderMechanism) -> (n: usize)
    ensures
        n == actives_spec(text@, mechanism),
{
    let (listed, active) = tally(text);
    match mechanism {
        LoadOrderMechanism::Asterisk => active,
        LoadOrderMechanism::PlainList => listed,
    }
}

/// Whether a `plugins.txt` text has a crash artifact's signature: at least
/// three plugins listed and none active.
pub fn looks_like_crash_artifact(text: &str) -> (b: bool)
    ensures
        b == (listed_plugins(lines(text@)).len() >= 3 && starred(listed_plugins(lines(text@))) == 0),
{
    let (listed, active) = tally(text);
    listed >= 3 && active == 0
}

/// Why a new plugin state loses too much of the active set to be trusted.
#[derive(Debug, Clone, Copy, PartialEq, Eq)]
pub enum ActiveLoss {
    /// Every active plugin is gone.
    ClearsAll { before: usize },
    /// `dropped` of `before` active plugins are gone.
    Drops { dropped: usize, before: usize },
}

/// The loss guard: no loss when the count did not fall; a total wipe at any
/// size; more than ten dropped and over 30% of the list; or more than two
/// dropped and over half of it.
pub open spec fn active_loss_spec(before: usize, after: usize) -> Option<ActiveLoss> {
    if after >= before {
        None
    } else if after == 0 {
        Some(ActiveLoss::ClearsAll { before })
    } else {
        let dropped = (before - after) as usize;
        if (dropped > 10 && 10 * dropped > 3 * before) || (dropped > 2 && 2 * dropped > before) {
            Some(ActiveLoss::Drops { dropped, before })
        } else {
            None
        }
    }
}

/// Whether going from `before` to `after` active plugins looks like a wreck
/// rather than an edit, and why. The shares are compared exactly.
pub fn active_loss(before: usize, after: usize) -> (r: Option<ActiveLoss>)
    ensures
        r == active_loss_spec(before, after),
{
    if after >= before {
        return None;
    }
    if after == 0 {
        return Some(ActiveLoss::ClearsAll { before });
    }
    let dropped = before - after;
    let d = dropped as u128;
    let b = before as u128;
    if (dropped > 10 && 10 * d > 3 * b) || (dropped > 2 && 2 * d > b) {
        Some(ActiveLoss::Drops { dropped, before })
    } else {
        None
    }
}

/// A wipe of the whole active set is always flagged, at any size.
pub proof fn lemma_wipe_always_flagged(before: usize)
    requires
        before > 0,
    ensures
        active_loss_spec(before, 0) == Some(ActiveLoss::ClearsAll { before }),
{
}

/// A list that did not shrink is never flagged.
pub proof fn lemma_growth_never_flagged(before: usize, after: usize)
    requires
        after >= before,
    ensures
        active_loss_spec(before, after) is None,
{
}

/// One pinned position line `name|index`: the trimmed name (ASCII lowercased)
/// and the trimmed index; none for a line without `|`, with an empty name, or
/// with an index that is not a number.
pub open spec fn pin_line(l: Seq<char>) -> Option<(Seq<char>, usize)> {
    match crate::text::split_once(trim(l), '|') {
        Some((n, i)) => if trim(n).len() == 0 {
            None
        } else {
            match crate::text::parse_u64_spec(trim(i)) {
                Some(x) => if x <= usize::MAX { Some((lower(trim(n)), x as usize)) } else { None },
                None => None,
            }
        },
        None => None,
    }
}

/// The pins of the lines read so far, by name: a later line for the same
/// name replaces the earlier one.
pub open spec fn pins_fold(ls: Seq<Seq<char>>) -> Map<Seq<char>, usize>
    decreases ls.len(),
{
    if ls.len() == 0 {
        Map::empty()
    } else {
        let m = pins_fold(ls.drop_last());
        match pin_line(ls.last()) {
            Some((n, i)) => m.insert(n, i),
            None => m,
        }
    }
}

/// Pins as a list of `(name, index)`, read as a map.
pub open spec fn pins_map(v: Seq<(Seq<char>, usize)>) -> Map<Seq<char>, usize>
    decreases v.len(),
{
    if v.len() == 0 {
        Map::empty()
    } else {
        pins_map(v.drop_last()).insert(v.last().0, v.last().1)
    }
}

/// The views of a list of pins.
pub open spec fn pins_view(v: Seq<(String, usize)>) -> Seq<(Seq<char>, usize)> {
    v.map_values(|p: (String, usize)| (p.0@, p.1))
}

/// Pins in strictly increasing name order (the order of `String` keys), so
/// no name is pinned twice.
pub open spec fn pins_sorted(v: Seq<(Seq<char>, usize)>) -> bool {
    forall|a: int, b: int| 0 <= a < b < v.len() ==> crate::archive::key_lt(v[a].0, v[b].0)
}

proof fn lemma_pins_map_update(v: Seq<(Seq<char>, usize)>, k: int, i: usize)
    requires
        pins_sorted(v),
        0 <= k < v.len(),
    ensures
        pins_map(v.update(k, (v[k].0, i))) == pins_map(v).insert(v[k].0, i),
        pins_sorted(v.update(k, (v[k].0, i))),
    decreases v.len(),
{
    let w = v.update(k, (v[k].0, i));
    if k == v.len() - 1 {
        assert(w.drop_last() =~= v.drop_last());
        assert(pins_map(w) =~= pins_map(v).insert(v[k].0, i));
    } else {
        assert(w.drop_last() =~= v.drop_last().update(k, (v[k].0, i)));
        assert(pins_sorted(v.drop_last()));
        lemma_pins_map_update(v.drop_last(), k, i);
        crate::archive::lemma_key_lt_order(v[k].0, v.last().0, v.last().0);
        assert(v.last().0 != v[k].0);
        assert(pins_map(w) =~= pins_map(v).insert(v[k].0, i));
    }
    assert forall|a: int, b: int| 0 <= a < b < w.len() implies crate::archive::key_lt(w[a].0, w[b].0) by {
        assert(w[a].0 == v[a].0 && w[b].0 == v[b].0);
    }
}

/// Inserting a new name where it sorts.
proof fn lemma_pins_map_insert(v: Seq<(Seq<char>, usize)>, k: int, n: Seq<char>, i: usize)
    requires
        pins_sorted(v),
        0 <= k <= v.len(),
        forall|a: int| 0 <= a < k ==> crate::archive::key_lt(v[a].0, n),
        k < v.len() ==> !crate::archive::key_lt(v[k].0, n) && v[k].0 != n,
    ensures
        pins_map(v.insert(k, (n, i))) == pins_map(v).insert(n, i),
        pins_sorted(v.insert(k, (n, i))),
    decreases v.len(),
{
    let w = v.insert(k, (n, i));
    if k < v.len() {
        crate::archive::lemma_key_lt_order(n, v[k].0, v[k].0);
        assert(crate::archive::key_lt(n, v[k].0));
    }
    assert forall|b: int| k <= b < v.len() implies crate::archive::key_lt(n, #[trigger] v[b].0) by {
        if b > k {
            crate::archive::lemma_key_lt_order(n, v[k].0, v[b].0);
        }
    }
    assert forall|a: int, b: int| 0 <= a < b < w.len() implies crate::archive::key_lt(w[a].0, w[b].0) by {
        if a < k && b < k {
            assert(w[a] == v[a] && w[b] == v[b]);
        } else if a < k && b == k {
            assert(w[a] == v[a]);
        } else if a < k && b > k {
            assert(w[a] == v[a] && w[b] == v[b - 1]);
            crate::archive::lemma_key_lt_order(v[a].0, n, v[b - 1].0);
        } else if a == k {
            assert(w[b] == v[b - 1]);
        } else {
            assert(w[a] == v[a - 1] && w[b] == v[b - 1]);
        }
    }
    if k == v.len() {
        assert(w.drop_last() =~= v);
        assert(pins_map(w) =~= pins_map(v).insert(n, i));
    } else {
        assert(w.drop_last() =~= v.drop_last().insert(k, (n, i)));
        assert(pins_sorted(v.drop_last()));
        lemma_pins_map_insert(v.drop_last(), k, n, i);
        assert(w.last() == v.last());
        assert(crate::archive::key_lt(n, v.last().0));
        crate::archive::lemma_key_lt_order(n, v.last().0, n);
        assert(pins_map(w) =~= pins_map(v).insert(n, i));
    }
}

/// Read the pinned load-order positions: one `name|index` per line, names
/// matched ignoring ASCII case, a later pin for a name replacing an earlier
/// one, and malformed lines skipped. Pins come out sorted by name.
pub fn read_locked_order(body: &str) -> (r: Vec<(String, usize)>)
    ensures
        pins_map(pins_view(r@)) == pins_fold(lines(body@)),
        pins_sorted(pins_view(r@)),
{
    let v = chars_of(body);
    let ls = lines_vec(&v);
    let ghost lm = lines(body@);
    let mut out: Vec<(String, usize)> = Vec::new();
    let mut i: usize = 0;
    while i < ls.len()
        invariant
            i <= ls@.len(),
            ls@.len() == lm.len(),
            forall|k: int| 0 <= k < ls@.len() ==> (#[trigger] ls@[k])@ == lm[k],
            pins_map(pins_view(out@)) == pins_fold(lm.take(i as int)),
            pins_sorted(pins_view(out@)),
        decreases ls.len() - i,
    {
        assert(lm.take(i + 1).drop_last() =~= lm.take(i as int));
        assert(lm.take(i + 1).last() == ls@[i as int]@);
        let t = trim_vec(&ls[i]);
        match crate::text::split_once_vec(&t, '|') {
            Some((n, x)) => {
                let nt = trim_vec(&n);
                let xt = trim_vec(&x);
                if nt.len() > 0 {
                    match crate::text::parse_u64_vec(&xt) {
                        Some(idx) => {
                            if idx <= usize::MAX as u64 {
                                let key = lower_vec(&nt);
                                let ghost pv = pins_view(out@);
                                let mut k: usize = 0;
                                while k < out.len() && crate::archive::key_lt_exec(&chars_of(out[k].0.as_str()), &key)
                                    invariant
                                        k <= out@.len(),
                                        pv == pins_view(out@),
                                        forall|a: int| 0 <= a < k ==> crate::archive::key_lt(pv[a].0, key@),
                                    decreases out.len() - k,
                                {
                                    k = k + 1;
                                }
                                let ghost before = pins_view(out@);
                                if k < out.len() && eq_chars(&chars_of(out[k].0.as_str()), &key) {
                                    proof {
                                        lemma_pins_map_update(before, k as int, idx as usize);
                                    }
                                    out.set(k, (string_of(&key), idx as usize));
                                    assert(pins_view(out@) =~= before.update(k as int, (before[k as int].0, idx as usize)));
                                } else {
                                    proof {
                                        lemma_pins_map_insert(before, k as int, key@, idx as usize);
                                    }
                                    out.insert(k, (string_of(&key), idx as usize));
                                    assert(pins_view(out@) =~= before.insert(k as int, (key@, idx as usize)));
                                }
                            }
                        },
                        None => {},
                    }
                }
            },
            None => {},
        }
        i = i + 1;
    }
    assert(lm.take(i as int) =~= lm);
    out
}

/// The text of pinned positions: `name|index` lines, in the given order.
pub open spec fn pins_text(v: Seq<(Seq<char>, usize)>) -> Seq<char>
    decreases v.len(),
{
    if v.len() == 0 {
        Seq::empty()
    } else {
        pins_text(v.drop_last()) + v.last().0 + seq!['|'] + crate::text::dec(v.last().1 as nat) + seq!['\n']
    }
}

/// Render pinned positions, one `name|index` line each. An empty text means
/// nothing is pinned (the file is then removed rather than written).
pub fn write_locked_order(pins: &[(String, usize)]) -> (s: String)
    ensures
        s@ == pins_text(pins_view(pins@)),
{
    let ghost pv = pins_view(pins@);
    let mut out = String::new();
    let mut i: usize = 0;
    assert(pins_text(pv.take(0)) =~= Seq::<char>::empty());
    while i < pins.len()
        invariant
            i <= pins@.len(),
            pv == pins_view(pins@),
            out@ == pins_text(pv.take(i as int)),
        decreases pins.len() - i,
    {
        assert(pv.take(i + 1).drop_last() =~= pv.take(i as int));
        assert(pv.take(i + 1).last() == (pins@[i as int].0@, pins@[i as int].1));
        push_str(&mut out, pins[i].0.as_str());
        push_char(&mut out, '|');
        push_str(&mut out, u64_to_string(pins[i].1 as u64).as_str());
        push_char(&mut out, '\n');
        assert(out@ =~= pins_text(pv.take(i + 1)));
        i = i + 1;
    }
    assert(pv.take(i as int) =~= pv);
    out
}

/// A side file of the game's plugin directory that a profile adopts: not one
/// of the two state files (handled on their own, in any case) and not a
/// `.tmp` leftover of a crashed write.
pub open spec fn adopted_side_file(name: Seq<char>) -> bool {
    let l = lower(name);
    !eq_ic(name, "plugins.txt"@) && !eq_ic(name, "loadorder.txt"@) && !crate::text::ends_with(l, ".tmp"@)
}

/// Whether a file beside the game's plugin state is adopted into a profile.
pub fn is_adopted_side_file(name: &str) -> (b: bool)
    ensures
        b == adopted_side_file(name@),
{
    let v = chars_of(name);
    let l = lower_vec(&v);
    let p = chars_of("plugins.txt");
    let o = chars_of("loadorder.txt");
    let t = chars_of(".tmp");
    !crate::text::eq_ic_chars(&v, &p) && !crate::text::eq_ic_chars(&v, &o) && !crate::text::ends_with_vec(&l, &t)
}

} // verus!
