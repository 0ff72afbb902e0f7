//! The game's own content shown in the mod list: the plugins in the game's
//! `Data` that no managed mod provides, in the order the engine loads them.

use vstd::prelude::*;

use crate::archive::{key_lt, key_lt_exec, lemma_key_lt_order};
use crate::modlist::{entries_view, is_separator_spec, EntryM, ModEntry};
use crate::paths::{join, path_join};
use crate::text::{chars_of, ends_with, eq_chars, lower, lower_vec, rsplit_once, string_of, trim, trim_vec};

verus! {

/// What `str::to_lowercase` gives: the Unicode lowercase of a text.
pub uninterp spec fn unicode_lower(s: Seq<char>) -> Seq<char>;

/// `str::to_lowercase`.
#[verifier::external_body]
fn to_lowercase(s: &str) -> (r: String)
    ensures
        r@ == unicode_lower(s@),
{
    s.to_lowercase()
}

/// A Bethesda plugin file name: `.esp`, `.esm` or `.esl`, ignoring ASCII case.
pub open spec fn is_plugin_file(n: Seq<char>) -> bool {
    let l = lower(n);
    ends_with(l, ".esp"@) || ends_with(l, ".esm"@) || ends_with(l, ".esl"@)
}

fn is_plugin_file_exec(n: &str) -> (b: bool)
    ensures
        b == is_plugin_file(n@),
{
    let v = chars_of(n);
    let l = lower_vec(&v);
    crate::text::ends_with_vec(&l, &chars_of(".esp")) || crate::text::ends_with_vec(&l, &chars_of(".esm"))
        || crate::text::ends_with_vec(&l, &chars_of(".esl"))
}

/// A file name without its last extension.
pub open spec fn stem_of(n: Seq<char>) -> Seq<char> {
    match rsplit_once(n, '.') {
        Some((s, _)) => s,
        None => n,
    }
}

fn stem_exec(v: &[char]) -> (r: Vec<char>)
    ensures
        r@ == stem_of(v@),
{
    assert(v@.subrange(0, v@.len() as int) =~= v@);
    match crate::text::rsplit_once_vec(v, '.') {
        Some((s, _)) => s,
        None => crate::text::slice_vec(v, 0, v.len()),
    }
}

/// The key an engine-order entry ranks under: its trimmed stem, lowercased.
pub open spec fn order_key(n: Seq<char>) -> Seq<char> {
    lower(stem_of(trim(n)))
}

/// The rank of a key in the engine's order: the last entry naming it.
pub open spec fn rank_of(order: Seq<Seq<char>>, key: Seq<char>) -> Option<int>
    decreases order.len(),
{
    if order.len() == 0 {
        None
    } else if order_key(order.last()) == key {
        Some(order.len() - 1)
    } else {
        rank_of(order.drop_last(), key)
    }
}

/// Where an entry sorts: its engine rank (unranked after every ranked one),
/// then its name, lowercased.
pub open spec fn rank_or_last(order: Seq<Seq<char>>, name: Seq<char>) -> int {
    match rank_of(order, lower(name)) {
        Some(i) => i,
        None => usize::MAX as int,
    }
}

/// Whether entry `a` sorts strictly after entry `b`.
pub open spec fn sorts_after(order: Seq<Seq<char>>, a: EntryM, b: EntryM) -> bool {
    rank_or_last(order, a.0) > rank_or_last(order, b.0)
        || (rank_or_last(order, a.0) == rank_or_last(order, b.0) && key_lt(unicode_lower(b.0), unicode_lower(a.0)))
}

/// Where an entry goes in a sorted list: after every entry it does not sort
/// before, so equal entries keep their order.
pub open spec fn sort_pos(order: Seq<Seq<char>>, sorted: Seq<EntryM>, e: EntryM) -> int
    decreases sorted.len(),
{
    if sorted.len() == 0 {
        0
    } else if sorts_after(order, sorted.last(), e) {
        sort_pos(order, sorted.drop_last(), e)
    } else {
        sorted.len() as int
    }
}

/// The game's plugins no managed mod provides, as unmanaged entries, sorted
/// by engine order and then name (a stable sort of the files in the order
/// found).
pub open spec fn unmanaged_spec(
    game_data: Seq<char>,
    files: Seq<Seq<char>>,
    provided: Seq<Seq<char>>,
    order: Seq<Seq<char>>,
) -> Seq<EntryM>
    decreases files.len(),
{
    if files.len() == 0 {
        Seq::empty()
    } else {
        let prev = unmanaged_spec(game_data, files.drop_last(), provided, order);
        let n = files.last();
        if is_plugin_file(n) && !provided.contains(lower(n)) {
            let e = (stem_of(n), true, path_join(game_data, n), true);
            prev.insert(sort_pos(order, prev, e), e)
        } else {
            prev
        }
    }
}

/// The plugin files the managed mods provide (lowercased): the files of
/// every managed mod that is not a separator, each mod's listing beside it.
pub open spec fn provided_spec(managed: Seq<EntryM>, listings: Seq<Seq<Seq<char>>>) -> Seq<Seq<char>>
    decreases managed.len(),
{
    if managed.len() == 0 || listings.len() == 0 {
        Seq::empty()
    } else {
        let prev = provided_spec(managed.drop_last(), listings.drop_last());
        if is_separator_spec(managed.last().0) {
            prev
        } else {
            prev + plugin_keys(listings.last())
        }
    }
}

/// The lowercased plugin file names of a listing.
pub open spec fn plugin_keys(names: Seq<Seq<char>>) -> Seq<Seq<char>>
    decreases names.len(),
{
    if names.len() == 0 {
        Seq::empty()
    } else {
        let prev = plugin_keys(names.drop_last());
        if is_plugin_file(names.last()) { prev.push(lower(names.last())) } else { prev }
    }
}

/// The views of a list of listings.
pub open spec fn listings_view(v: Seq<Vec<String>>) -> Seq<Seq<Seq<char>>> {
    v.map_values(|l: Vec<String>| l@.map_values(|s: String| s@))
}

fn plugin_keys_exec(out: &mut Vec<Vec<char>>, names: &Vec<String>)
    ensures
        final(out)@.map_values(|k: Vec<char>| k@) == old(out)@.map_values(|k: Vec<char>| k@)
            + plugin_keys(names@.map_values(|s: String| s@)),
{
    let ghost nm = names@.map_values(|s: String| s@);
    let ghost base = out@.map_values(|k: Vec<char>| k@);
    let mut i: usize = 0;
    assert(plugin_keys(nm.take(0)) =~= Seq::<Seq<char>>::empty());
    assert(base + Seq::<Seq<char>>::empty() =~= base);
    while i < names.len()
        invariant
            i <= names@.len(),
            nm == names@.map_values(|s: String| s@),
            out@.map_values(|k: Vec<char>| k@) == base + plugin_keys(nm.take(i as int)),
        decreases names.len() - i,
    {
        assert(nm.take(i + 1).drop_last() =~= nm.take(i as int));
        assert(nm.take(i + 1).last() == names@[i as int]@);
        if is_plugin_file_exec(names[i].as_str()) {
            let ghost o0 = out@.map_values(|k: Vec<char>| k@);
            let v = chars_of(names[i].as_str());
            out.push(lower_vec(&v));
            assert(out@.map_values(|k: Vec<char>| k@) =~= o0.push(lower(nm[i as int])));
        }
        i = i + 1;
    }
    assert(nm.take(i as int) =~= nm);
}

fn holds_key(keys: &Vec<Vec<char>>, key: &[char]) -> (b: bool)
    ensures
        b == keys@.map_values(|k: Vec<char>| k@).contains(key@),
{
    let ghost km = keys@.map_values(|k: Vec<char>| k@);
    let mut i: usize = 0;
    while i < keys.len()
        invariant
            i <= keys@.len(),
            km == keys@.map_values(|k: Vec<char>| k@),
            forall|j: int| 0 <= j < i ==> km[j] != key@,
        decreases keys.len() - i,
    {
        if eq_chars(&keys[i], key) {
            assert(km[i as int] == key@);
            return true;
        }
        i = i + 1;
    }
    false
}

fn rank_exec(order: &[String], key: &[char]) -> (r: usize)
    requires
        order@.len() < usize::MAX,
    ensures
        r as int == match rank_of(order@.map_values(|s: String| s@), key@) {
            Some(i) => i,
            None => usize::MAX as int,
        },
{
    let ghost om = order@.map_values(|s: String| s@);
    let mut i: usize = order.len();
    assert(om.take(i as int) =~= om);
    while i > 0
        invariant
            i <= order@.len(),
            om == order@.map_values(|s: String| s@),
            rank_of(om, key@) == rank_of(om.take(i as int), key@),
        decreases i,
    {
        assert(om.take(i as int).last() == order@[i - 1]@);
        let v = chars_of(order[i - 1].as_str());
        let t = trim_vec(&v);
        let s = stem_exec(&t);
        let l = lower_vec(&s);
        if eq_chars(&l, key) {
            return i - 1;
        }
        assert(om.take(i as int).drop_last() =~= om.take(i - 1));
        i = i - 1;
    }
    usize::MAX
}

/// The game's own plugins shown in the mod list: every plugin file found in
/// the game's `Data` (`files`, in the order found) that no managed mod
/// provides (`listings` holds the files of each managed mod, beside
/// `managed`), as an enabled unmanaged entry named by its stem, in the
/// engine's order (`engine_order`, ranked by stem, the last mention counting)
/// and then by lowercased name.
pub fn unmanaged_mods(
    game_data: &str,
    files: &Vec<String>,
    managed: &[ModEntry],
    listings: &Vec<Vec<String>>,
    engine_order: &[String],
) -> (r: Vec<ModEntry>)
    requires
        engine_order@.len() < usize::MAX,
        listings@.len() == managed@.len(),
    ensures
        entries_view(r@) == unmanaged_spec(
            game_data@,
            files@.map_values(|s: String| s@),
            provided_spec(entries_view(managed@), listings_view(listings@)),
            engine_order@.map_values(|s: String| s@),
        ),
{
    let ghost om = engine_order@.map_values(|s: String| s@);
    let ghost mm = entries_view(managed@);
    let ghost lv = listings_view(listings@);
    let mut provided: Vec<Vec<char>> = Vec::new();
    let mut k: usize = 0;
    while k < managed.len()
        invariant
            k <= managed@.len(),
            listings@.len() == managed@.len(),
            mm == entries_view(managed@),
            lv == listings_view(listings@),
            provided@.map_values(|x: Vec<char>| x@) == provided_spec(mm.take(k as int), lv.take(k as int)),
        decreases managed.len() - k,
    {
        assert(mm.take(k + 1).drop_last() =~= mm.take(k as int));
        assert(lv.take(k + 1).drop_last() =~= lv.take(k as int));
        assert(mm.take(k + 1).last() == managed@[k as int].model());
        assert(lv.take(k + 1).last() == listings@[k as int]@.map_values(|s: String| s@));
        if !managed[k].is_separator() {
            plugin_keys_exec(&mut provided, &listings[k]);
        }
        k = k + 1;
    }
    assert(mm.take(k as int) =~= mm);
    assert(lv.take(k as int) =~= lv);
    let ghost pv = provided@.map_values(|x: Vec<char>| x@);
    let ghost fm = files@.map_values(|s: String| s@);
    let mut out: Vec<ModEntry> = Vec::new();
    let mut keys: Vec<(usize, Vec<char>)> = Vec::new();
    let mut i: usize = 0;
    while i < files.len()
        invariant
            i <= files@.len(),
            fm == files@.map_values(|s: String| s@),
            om == engine_order@.map_values(|s: String| s@),
            engine_order@.len() < usize::MAX,
            pv == provided@.map_values(|x: Vec<char>| x@),
            entries_view(out@) == unmanaged_spec(game_data@, fm.take(i as int), pv, om),
            keys@.len() == out@.len(),
            forall|j: int| 0 <= j < out@.len() ==> (#[trigger] keys@[j]).0 as int == rank_or_last(om, out@[j].name@)
                && keys@[j].1@ == unicode_lower(out@[j].name@),
        decreases files.len() - i,
    {
        assert(fm.take(i + 1).drop_last() =~= fm.take(i as int));
        assert(fm.take(i + 1).last() == files@[i as int]@);
        let name = files[i].as_str();
        let v = chars_of(name);
        let lname = lower_vec(&v);
        if is_plugin_file_exec(name) && !holds_key(&provided, &lname) {
            let st = stem_exec(&v);
            let stem = string_of(&st);
            let sl = lower_vec(&st);
            let rank = rank_exec(engine_order, &sl);
            let ul = chars_of(to_lowercase(stem.as_str()).as_str());
            let e = ModEntry { name: stem, enabled: true, path: join(game_data, name), unmanaged: true };
            let ghost em = e.model();
            let ghost prev = entries_view(out@);
            let mut p: usize = out.len();
            assert(sort_pos(om, prev.take(p as int), em) == sort_pos(om, prev, em)) by {
                assert(prev.take(p as int) =~= prev);
            }
            while p > 0 && (keys[p - 1].0 > rank || (keys[p - 1].0 == rank && key_lt_exec(&ul, &keys[p - 1].1)))
                invariant
                    p <= out@.len(),
                    keys@.len() == out@.len(),
                    prev == entries_view(out@),
                    em == e.model(),
                    rank as int == rank_or_last(om, em.0),
                    ul@ == unicode_lower(em.0),
                    forall|j: int| 0 <= j < out@.len() ==> (#[trigger] keys@[j]).0 as int == rank_or_last(om, out@[j].name@)
                        && keys@[j].1@ == unicode_lower(out@[j].name@),
                    sort_pos(om, prev, em) == sort_pos(om, prev.take(p as int), em),
                decreases p,
            {
                assert(prev.take(p as int).last() == prev[p - 1]);
                assert(prev[p - 1].0 == out@[p - 1].name@);
                assert(prev.take(p as int).drop_last() =~= prev.take(p - 1));
                p = p - 1;
            }
            proof {
                lemma_sort_pos_range(om, prev.take(p as int), em);
                if p > 0 {
                    assert(prev.take(p as int).last() == prev[p - 1]);
                    assert(prev[p - 1].0 == out@[p - 1].name@);
                }
            }
            assert(sort_pos(om, prev, em) == p);
            keys.insert(p, (rank, ul));
            out.insert(p, e);
            assert(entries_view(out@) =~= prev.insert(p as int, em));
            assert forall|j: int| 0 <= j < out@.len() implies (#[trigger] keys@[j]).0 as int == rank_or_last(om, out@[j].name@)
                && keys@[j].1@ == unicode_lower(out@[j].name@) by {
                if j < p {
                } else if j > p {
                }
            }
        }
        i = i + 1;
    }
    assert(fm.take(i as int) =~= fm);
    out
}

proof fn lemma_sort_pos_range(order: Seq<Seq<char>>, sorted: Seq<EntryM>, e: EntryM)
    ensures
        0 <= sort_pos(order, sorted, e) <= sorted.len(),
        sorted.len() > 0 && !sorts_after(order, sorted.last(), e) ==> sort_pos(order, sorted, e) == sorted.len(),
        sorted.len() == 0 ==> sort_pos(order, sorted, e) == 0,
    decreases sorted.len(),
{
    if sorted.len() > 0 {
        lemma_sort_pos_range(order, sorted.drop_last(), e);
    }
}

/// Where a name goes in a list sorted by lowercased name: after every name
/// that does not sort after it, so equal keys keep their order.
pub open spec fn name_pos(sorted: Seq<Seq<char>>, n: Seq<char>) -> int
    decreases sorted.len(),
{
    if sorted.len() == 0 {
        0
    } else if key_lt(unicode_lower(n), unicode_lower(sorted.last())) {
        name_pos(sorted.drop_last(), n)
    } else {
        sorted.len() as int
    }
}

/// Names stably sorted by their Unicode lowercase.
pub open spec fn sorted_by_lower(names: Seq<Seq<char>>) -> Seq<Seq<char>>
    decreases names.len(),
{
    if names.len() == 0 {
        Seq::empty()
    } else {
        let p = sorted_by_lower(names.drop_last());
        p.insert(name_pos(p, names.last()), names.last())
    }
}

proof fn lemma_name_pos(sorted: Seq<Seq<char>>, n: Seq<char>)
    ensures
        0 <= name_pos(sorted, n) <= sorted.len(),
    decreases sorted.len(),
{
    if sorted.len() > 0 {
        lemma_name_pos(sorted.drop_last(), n);
    }
}

/// Sort names by their lowercase (a stable sort: names whose lowercase is the
/// same keep their order), as the INI-tweak fragments of a mod are listed.
pub fn sort_by_lowercase(names: Vec<String>) -> (r: Vec<String>)
    ensures
        r@.map_values(|s: String| s@) == sorted_by_lower(names@.map_values(|s: String| s@)),
{
    let ghost nm = names@.map_values(|s: String| s@);
    let mut out: Vec<String> = Vec::new();
    let mut keys: Vec<Vec<char>> = Vec::new();
    let mut i: usize = 0;
    assert(nm.take(0) =~= Seq::<Seq<char>>::empty());
    while i < names.len()
        invariant
            i <= names@.len(),
            nm == names@.map_values(|s: String| s@),
            out@.map_values(|s: String| s@) == sorted_by_lower(nm.take(i as int)),
            keys@.len() == out@.len(),
            forall|j: int| 0 <= j < out@.len() ==> (#[trigger] keys@[j])@ == unicode_lower(out@[j]@),
        decreases names.len() - i,
    {
        assert(nm.take(i + 1).drop_last() =~= nm.take(i as int));
        assert(nm.take(i + 1).last() == names@[i as int]@);
        let n = names[i].clone();
        let k = chars_of(to_lowercase(names[i].as_str()).as_str());
        let ghost prev = out@.map_values(|s: String| s@);
        let ghost nv = names@[i as int]@;
        let mut p: usize = out.len();
        assert(prev.take(p as int) =~= prev);
        while p > 0 && key_lt_exec(&k, &keys[p - 1])
            invariant
                p <= out@.len(),
                keys@.len() == out@.len(),
                prev == out@.map_values(|s: String| s@),
                k@ == unicode_lower(nv),
                forall|j: int| 0 <= j < out@.len() ==> (#[trigger] keys@[j])@ == unicode_lower(out@[j]@),
                name_pos(prev, nv) == name_pos(prev.take(p as int), nv),
            decreases p,
        {
            assert(prev.take(p as int).last() == prev[p - 1]);
            assert(prev.take(p as int).drop_last() =~= prev.take(p - 1));
            p = p - 1;
        }
        proof {
            lemma_name_pos(prev.take(p as int), nv);
            if p > 0 {
                assert(prev.take(p as int).last() == prev[p - 1]);
            }
        }
        keys.insert(p, k);
        out.insert(p, n);
        assert(out@.map_values(|s: String| s@) =~= prev.insert(p as int, nv));
        assert forall|j: int| 0 <= j < out@.len() implies (#[trigger] keys@[j])@ == unicode_lower(out@[j]@) by {
            if j < p {
            } else if j > p {
            }
        }
        i = i + 1;
    }
    assert(nm.take(i as int) =~= nm);
    out
}

} // verus!
