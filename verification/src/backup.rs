//! Timestamped restore points of the mod list and of the plugin load order:
//! their kinds, the names of their stamped copies, which of them are listed
//! and kept, and how a stamp reads as a date.

use vstd::prelude::*;

use crate::meta::strs_view;
use crate::modlist::Profile;
use crate::paths::{join, path_join};
use crate::text::{
    all_digits, chars_of, dec, dec_pad, dec_pad_vec, digits_value, digits_to_u64, push_char, push_chars,
    push_str, starts_with, starts_with_vec, u64_to_string, all_digits_exec, slice_vec,
};

verus! {

/// How many restore points are kept per list.
pub const KEEP_BACKUPS: usize = 10;

/// Which list a backup covers.
#[derive(Debug, Clone, Copy, PartialEq, Eq, Structural)]
pub enum BackupKind {
    /// `modlist.txt`: the mod order and each mod's enabled state.
    ModList,
    /// `plugins.txt` and `loadorder.txt`, backed up and restored together.
    LoadOrder,
}

impl BackupKind {
    pub fn label(self) -> (r: &'static str)
        ensures
            r@ == (match self {
                BackupKind::ModList => "mod list"@,
                BackupKind::LoadOrder => "load order"@,
            }),
    {
        match self {
            BackupKind::ModList => "mod list",
            BackupKind::LoadOrder => "load order",
        }
    }
}

/// One restore point.
#[derive(Debug, Clone, PartialEq, Eq)]
pub struct Backup {
    /// Unix seconds, taken when the backup was made; also its file suffix.
    pub stamp: u64,
    /// The files this restore point holds.
    pub files: Vec<String>,
}

/// Seconds as the signed 64-bit count they are read as.
pub open spec fn wrap_i64(secs: u64) -> int {
    if secs <= i64::MAX {
        secs as int
    } else {
        secs - 0x1_0000_0000_0000_0000int
    }
}

/// The proleptic Gregorian `(year, month, day)` of a count of days since
/// 1970-01-01 (the civil-from-days computation, over floor division).
pub open spec fn civil(days: int) -> (int, int, int) {
    let z = days + 719468;
    let era = z / 146097;
    let doe = z % 146097;
    let yoe = (doe - doe / 1460 + doe / 36524 - doe / 146096) / 365;
    let y = yoe + era * 400;
    let doy = doe - (365 * yoe + yoe / 4 - yoe / 100);
    let mp = (5 * doy + 2) / 153;
    let d = doy - (153 * mp + 2) / 5 + 1;
    let m = if mp < 10 { mp + 3 } else { mp - 9 };
    (if m <= 2 { y + 1 } else { y }, m, d)
}

/// A year as `{y:04}` prints it: at least four characters, sign included.
pub open spec fn year_text(y: int) -> Seq<char> {
    if y < 0 {
        seq!['-'] + dec_pad((-y) as nat, 3)
    } else {
        dec_pad(y as nat, 4)
    }
}

/// The date and time of a stamp, UTC: `(year, month, day, hour, minute, second)`.
pub open spec fn stamp_parts(secs: u64) -> (int, int, int, int, int, int) {
    let s = wrap_i64(secs);
    let days = s / 86400;
    let rem = s % 86400;
    let (y, m, d) = civil(days);
    (y, m, d, rem / 3600, (rem % 3600) / 60, rem % 60)
}

/// `YYYY-MM-DD HH:MM`, UTC.
pub open spec fn stamp_text(secs: u64) -> Seq<char> {
    let (y, m, d, h, mi, s) = stamp_parts(secs);
    year_text(y) + seq!['-'] + dec_pad(m as nat, 2) + seq!['-'] + dec_pad(d as nat, 2) + seq![' ']
        + dec_pad(h as nat, 2) + seq![':'] + dec_pad(mi as nat, 2)
}

proof fn lemma_civil_ranges(doe: int)
    requires
        0 <= doe < 146097,
    ensures
        ({
            let yoe = (doe - doe / 1460 + doe / 36524 - doe / 146096) / 365;
            let doy = doe - (365 * yoe + yoe / 4 - yoe / 100);
            let mp = (5 * doy + 2) / 153;
            let d = doy - (153 * mp + 2) / 5 + 1;
            &&& 0 <= yoe < 400
            &&& 0 <= doy < 366
            &&& 0 <= mp < 12
            &&& 1 <= d <= 31
        }),
{
}

/// The civil date parts of a stamp, computed without overflow: the shifted
/// quantities stay non-negative so every division is a floor division.
pub(crate) fn stamp_parts_exec(secs: u64) -> (r: (i128, u64, u64, u64, u64, u64))
    ensures
        -0x1_0000_0000_0000_0000i128 < r.0 < 0x1_0000_0000_0000_0000i128,
        ({
            let (y, m, d, h, mi, s) = stamp_parts(secs);
            &&& r.0 == y && r.1 == m && r.2 == d && r.3 == h && r.4 == mi && r.5 == s
        }),
{
    let s: i128 = if secs <= 0x7fff_ffff_ffff_ffffu64 {
        secs as i128
    } else {
        secs as i128 - 0x1_0000_0000_0000_0000i128
    };
    assert(s == wrap_i64(secs));
    let sh: u128 = (s + 17_280_000_000_000_000_000i128) as u128;
    let days_sh: u128 = sh / 86400;
    let rem: u128 = sh % 86400;
    assert(days_sh == s / 86400 + 200_000_000_000_000);
    assert(rem == s % 86400);
    let big: u128 = days_sh + 146_097_000_000_000 + 719468 - 200_000_000_000_000;
    let era_sh: u128 = big / 146097;
    let doe: u128 = big % 146097;
    proof {
        let z = s / 86400 + 719468;
        assert(big == z + 146097 * 1_000_000_000);
        assert(era_sh == z / 146097 + 1_000_000_000);
        assert(doe == z % 146097);
        lemma_civil_ranges(doe as int);
    }
    let yoe: u128 = (doe - doe / 1460 + doe / 36524 - doe / 146096) / 365;
    let doy: u128 = doe - (365 * yoe + yoe / 4 - yoe / 100);
    let mp: u128 = (5 * doy + 2) / 153;
    let d: u128 = doy - (153 * mp + 2) / 5 + 1;
    let m: u128 = if mp < 10 { mp + 3 } else { mp - 9 };
    let y0: i128 = yoe as i128 + (era_sh as i128 - 1_000_000_000) * 400;
    let y: i128 = if m <= 2 { y0 + 1 } else { y0 };
    (y, m as u64, d as u64, (rem / 3600) as u64, ((rem % 3600) / 60) as u64, (rem % 60) as u64)
}

pub(crate) fn push_year(out: &mut String, y: i128)
    requires
        -0x1_0000_0000_0000_0000i128 < y < 0x1_0000_0000_0000_0000i128,
    ensures
        final(out)@ == old(out)@ + year_text(y as int),
{
    if y < 0 {
        push_char(out, '-');
        let v = dec_pad_vec((-y) as u64, 3);
        push_chars(out, &v);
    } else {
        let v = dec_pad_vec(y as u64, 4);
        push_chars(out, &v);
    }
}

pub(crate) fn push_two(out: &mut String, n: u64)
    ensures
        final(out)@ == old(out)@ + dec_pad(n as nat, 2),
{
    let v = dec_pad_vec(n, 2);
    push_chars(out, &v);
}

/// A stamp as `YYYY-MM-DD HH:MM`, UTC.
pub fn format_stamp(secs: u64) -> (r: String)
    ensures
        r@ == stamp_text(secs),
{
    let (y, m, d, h, mi, _s) = stamp_parts_exec(secs);
    let mut out = String::new();
    push_year(&mut out, y);
    push_char(&mut out, '-');
    push_two(&mut out, m);
    push_char(&mut out, '-');
    push_two(&mut out, d);
    push_char(&mut out, ' ');
    push_two(&mut out, h);
    push_char(&mut out, ':');
    push_two(&mut out, mi);
    out
}

impl Backup {
    /// `YYYY-MM-DD HH:MM` in UTC, for the restore list.
    pub fn when(&self) -> (r: String)
        ensures
            r@ == stamp_text(self.stamp),
    {
        format_stamp(self.stamp)
    }
}

/// The base names of the stamped copies a backup of `kind` covers.
pub open spec fn slots(kind: BackupKind) -> Seq<Seq<char>> {
    match kind {
        BackupKind::ModList => seq!["modlist.txt"@],
        BackupKind::LoadOrder => seq!["plugins.txt"@, "loadorder.txt"@],
    }
}

/// The base names of the stamped copies a backup of `kind` covers.
pub fn backup_slots(kind: BackupKind) -> (r: Vec<String>)
    ensures
        strs_view(r@) == slots(kind),
{
    let mut v: Vec<String> = Vec::new();
    match kind {
        BackupKind::ModList => {
            v.push("modlist.txt".to_owned());
        },
        BackupKind::LoadOrder => {
            v.push("plugins.txt".to_owned());
            v.push("loadorder.txt".to_owned());
        },
    }
    assert(strs_view(v@) =~= slots(kind));
    v
}

/// `<base>.<stamp>`: the name of a stamped copy.
pub open spec fn stamped_name_spec(base: Seq<char>, stamp: u64) -> Seq<char> {
    base + seq!['.'] + dec(stamp as nat)
}

/// The name of the copy of `base` stamped `stamp`.
pub fn stamped_name(base: &str, stamp: u64) -> (r: String)
    ensures
        r@ == stamped_name_spec(base@, stamp),
{
    let mut s = base.to_owned();
    push_char(&mut s, '.');
    push_str(&mut s, u64_to_string(stamp).as_str());
    s
}

/// The stamp of a file named `<base>.<digits>`; any other name (a `.bak`, a
/// hand-made copy) has none.
pub open spec fn stamp_of_spec(name: Seq<char>, base: Seq<char>) -> Option<u64> {
    let p = base + seq!['.'];
    let rest = name.skip(p.len() as int);
    if starts_with(name, p) && rest.len() > 0 && all_digits(rest) && digits_value(rest) <= u64::MAX {
        Some(digits_value(rest) as u64)
    } else {
        None
    }
}

/// The stamp of a file named `<base>.<digits>`, if it is one.
pub fn stamp_of(name: &str, base: &str) -> (r: Option<u64>)
    ensures
        r == stamp_of_spec(name@, base@),
{
    let mut pv = chars_of(base);
    pv.push('.');
    let nv = chars_of(name);
    assert(pv@ == base@ + seq!['.']);
    if !starts_with_vec(&nv, &pv) {
        return None;
    }
    let rest = slice_vec(&nv, pv.len(), nv.len());
    assert(rest@ == nv@.skip(pv@.len() as int));
    if rest.len() == 0 || !all_digits_exec(&rest) {
        return None;
    }
    digits_to_u64(&rest)
}

/// The stamped files of one restore point: each slot's stamped copy in the
/// backups directory.
pub open spec fn point_files(dir: Seq<char>, kind: BackupKind, stamp: u64) -> Seq<Seq<char>> {
    slots(kind).map_values(|b: Seq<char>| path_join(dir, stamped_name_spec(b, stamp)))
}

/// The stamps, in order, whose restore point is complete.
pub open spec fn complete_stamps(found: Seq<u64>, complete: Seq<bool>) -> Seq<u64>
    decreases found.len(),
{
    if found.len() == 0 {
        Seq::empty()
    } else {
        let rest = complete_stamps(found.drop_last(), complete);
        if complete[found.len() - 1] { rest.push(found.last()) } else { rest }
    }
}

/// Newest first.
pub open spec fn newest_first(s: Seq<u64>) -> bool {
    forall|i: int, j: int| 0 <= i < j < s.len() ==> s[i] >= s[j]
}

/// `x` inserted into a newest-first list at its place.
fn insert_newest_first(v: &mut Vec<u64>, x: u64)
    requires
        newest_first(old(v)@),
    ensures
        newest_first(final(v)@),
        final(v)@.to_multiset() == old(v)@.to_multiset().insert(x),
{
    let mut p: usize = 0;
    while p < v.len() && v[p] >= x
        invariant
            p <= v@.len(),
            forall|j: int| 0 <= j < p ==> v@[j] >= x,
        decreases v.len() - p,
    {
        p = p + 1;
    }
    let ghost before = v@;
    v.insert(p, x);
    proof {
        vstd::seq_lib::to_multiset_insert(before, p as int, x);
        assert forall|i: int, j: int| 0 <= i < j < v@.len() implies v@[i] >= v@[j] by {
            if j < p {
            } else if j == p {
                assert(v@[i] == before[i]);
            } else if i < p {
                assert(v@[j] == before[j - 1]);
                if p < before.len() {
                    assert(before[p as int] < x);
                }
            } else if i == p {
                assert(before[p as int] < x);
                assert(v@[j] == before[j - 1]);
            } else {
                assert(v@[i] == before[i - 1]);
                assert(v@[j] == before[j - 1]);
            }
        }
    }
}

/// The complete restore points among the stamps found, newest first.
pub fn newest_complete(found: &[u64], complete: &[bool]) -> (r: Vec<u64>)
    requires
        found.len() == complete.len(),
    ensures
        newest_first(r@),
        r@.to_multiset() == complete_stamps(found@, complete@).to_multiset(),
{
    let mut r: Vec<u64> = Vec::new();
    let mut i: usize = 0;
    assert(r@ =~= complete_stamps(found@.take(0), complete@));
    while i < found.len()
        invariant
            i <= found@.len(),
            found@.len() == complete@.len(),
            newest_first(r@),
            r@.to_multiset() == complete_stamps(found@.take(i as int), complete@).to_multiset(),
        decreases found.len() - i,
    {
        assert(found@.take(i + 1).drop_last() =~= found@.take(i as int));
        let ghost prev = complete_stamps(found@.take(i as int), complete@);
        if complete[i] {
            insert_newest_first(&mut r, found[i]);
            proof {
                vstd::seq_lib::to_multiset_build(prev, found@[i as int]);
            }
        }
        i = i + 1;
    }
    assert(found@.take(i as int) =~= found@);
    r
}

impl Profile {
    /// Every complete restore point of `kind`, newest first. `found` are the
    /// stamps of the first slot's copies present in the backups directory,
    /// and `complete[i]` whether every slot's copy of `found[i]` is present:
    /// half a load-order backup cannot be restored, so it is not listed.
    pub fn backups(&self, kind: BackupKind, found: &[u64], complete: &[bool]) -> (r: Vec<Backup>)
        requires
            found.len() == complete.len(),
        ensures
            newest_first(r@.map_values(|b: Backup| b.stamp)),
            r@.map_values(|b: Backup| b.stamp).to_multiset() == complete_stamps(found@, complete@).to_multiset(),
            forall|i: int| 0 <= i < r@.len() ==> strs_view((#[trigger] r@[i]).files@)
                == point_files(path_join(path_join(path_join(self.instance_root@, "profiles"@), self.name@), "backups"@), kind, r@[i].stamp),
    {
        let stamps = newest_complete(found, complete);
        let dir = self.backups_dir();
        let names = backup_slots(kind);
        let mut out: Vec<Backup> = Vec::new();
        let mut i: usize = 0;
        while i < stamps.len()
            invariant
                i <= stamps@.len(),
                out@.len() == i,
                strs_view(names@) == slots(kind),
                dir@ == path_join(path_join(path_join(self.instance_root@, "profiles"@), self.name@), "backups"@),
                forall|k: int| 0 <= k < i ==> (#[trigger] out@[k]).stamp == stamps@[k],
                forall|k: int| 0 <= k < i ==> strs_view((#[trigger] out@[k]).files@) == point_files(dir@, kind, out@[k].stamp),
            decreases stamps.len() - i,
        {
            let st = stamps[i];
            let mut files: Vec<String> = Vec::new();
            let mut j: usize = 0;
            while j < names.len()
                invariant
                    j <= names@.len(),
                    strs_view(names@) == slots(kind),
                    strs_view(files@) == point_files(dir@, kind, st).take(j as int),
                decreases names.len() - j,
            {
                let ghost before = strs_view(files@);
                let nm = stamped_name(names[j].as_str(), st);
                let f = join(dir.as_str(), nm.as_str());
                files.push(f);
                assert(strs_view(files@) =~= before.push(f@));
                assert(strs_view(files@) =~= point_files(dir@, kind, st).take(j + 1));
                j = j + 1;
            }
            assert(point_files(dir@, kind, st).take(j as int) =~= point_files(dir@, kind, st));
            out.push(Backup { stamp: st, files });
            i = i + 1;
        }
        assert(out@.map_values(|b: Backup| b.stamp) =~= stamps@);
        out
    }
}

/// The smallest stamp at or after `now` that no restore point uses yet.
pub fn free_stamp(taken: &[u64], now: u64) -> (r: u64)
    requires
        now + taken.len() <= u64::MAX,
    ensures
        r >= now,
        !taken@.contains(r),
        forall|s: u64| now <= s < r ==> taken@.contains(s),
{
    let mut stamp = now;
    loop
        invariant
            now <= stamp,
            now + taken@.len() <= u64::MAX,
            forall|s: u64| now <= s < stamp ==> taken@.contains(s),
            stamp - now <= taken@.len(),
        decreases taken@.len() - (stamp - now),
    {
        let mut hit = false;
        let mut k: usize = 0;
        while k < taken.len()
            invariant
                k <= taken@.len(),
                hit == exists|j: int| 0 <= j < k && taken@[j] == stamp,
            decreases taken.len() - k,
        {
            if taken[k] == stamp {
                hit = true;
            }
            k = k + 1;
        }
        if !hit {
            return stamp;
        }
        proof {
            lemma_taken_bound(taken@, now, stamp);
        }
        stamp = stamp + 1;
    }
}

/// If every stamp from `now` through `stamp` is taken, there are more taken
/// stamps than that run is long.
proof fn lemma_taken_bound(taken: Seq<u64>, now: u64, stamp: u64)
    requires
        now <= stamp,
        forall|s: u64| now <= s <= stamp ==> taken.contains(s),
    ensures
        stamp - now < taken.len(),
{
    let ti = taken.map_values(|x: u64| x as int);
    let r = vstd::set_lib::set_int_range(now as int, stamp + 1);
    vstd::set_lib::lemma_int_range(now as int, stamp + 1);
    assert forall|v: int| r.contains(v) implies ti.to_set().contains(v) by {
        let s = v as u64;
        assert(now <= s <= stamp);
        assert(taken.contains(s));
        let j = choose|j: int| 0 <= j < taken.len() && taken[j] == s;
        assert(ti[j] == v);
    }
    ti.lemma_cardinality_of_set();
    vstd::seq_lib::seq_to_set_is_finite(ti);
    vstd::set_lib::lemma_len_subset(r, ti.to_set());
}

/// The restore points kept: the first [`KEEP_BACKUPS`] of a newest-first list.
pub open spec fn kept(newest: Seq<u64>) -> Seq<u64> {
    if newest.len() <= KEEP_BACKUPS { newest } else { newest.take(KEEP_BACKUPS as int) }
}

/// The stamps of `found` that are not kept, in order.
pub open spec fn pruned(newest: Seq<u64>, found: Seq<u64>) -> Seq<u64>
    decreases found.len(),
{
    if found.len() == 0 {
        Seq::empty()
    } else {
        let rest = pruned(newest, found.drop_last());
        if kept(newest).contains(found.last()) { rest } else { rest.push(found.last()) }
    }
}

/// Which stamped copies of a slot to remove: every stamp found for it that is
/// not among the [`KEEP_BACKUPS`] newest complete restore points, so that the
/// halves of an interrupted backup are swept too.
pub fn stamps_to_prune(newest: &[u64], found: &[u64]) -> (r: Vec<u64>)
    ensures
        r@ == pruned(newest@, found@),
{
    let keep_n: usize = if newest.len() <= KEEP_BACKUPS { newest.len() } else { KEEP_BACKUPS };
    let ghost k = kept(newest@);
    assert(k =~= newest@.take(keep_n as int));
    let mut out: Vec<u64> = Vec::new();
    let mut i: usize = 0;
    while i < found.len()
        invariant
            i <= found@.len(),
            keep_n <= newest@.len(),
            k == newest@.take(keep_n as int),
            k == kept(newest@),
            out@ == pruned(newest@, found@.take(i as int)),
        decreases found.len() - i,
    {
        assert(found@.take(i + 1).drop_last() =~= found@.take(i as int));
        let x = found[i];
        assert(found@.take(i + 1).last() == x);
        let mut hit = false;
        let mut j: usize = 0;
        while j < keep_n
            invariant
                j <= keep_n <= newest@.len(),
                k == newest@.take(keep_n as int),
                k == kept(newest@),
                out@ == pruned(newest@, found@.take(i as int)),
                hit == exists|t: int| 0 <= t < j && k[t] == x,
            decreases keep_n - j,
        {
            assert(k[j as int] == newest@[j as int]);
            if newest[j] == x {
                hit = true;
            }
            j = j + 1;
        }
        proof {
            if hit {
                let t = choose|t: int| 0 <= t < j && k[t] == x;
                assert(k.contains(x));
            } else {
                assert(!k.contains(x));
            }
        }
        if !hit {
            out.push(x);
        }
        i = i + 1;
    }
    assert(found@.take(i as int) =~= found@);
    out
}

} // verus!
