use eidos::instance_ops::{
    backup_candidate, delete_check, new_mod_name, overwrite_mod_name, rename_check, rename_moves_pointer,
    DeleteRefusal, RenameRefusal,
};
use eidos::mo2::import_mo2_list;
use eidos::modlist::ModEntry;
use eidos::saves::{
    cosave_sibling, read_seed_marker, seed_file, seed_marker_text, seed_start, seed_step, seed_wanted, SeedFile, SeedMarker,
    SeedProgress, SeedStart,
};
use eidos::unmanaged::{sort_by_lowercase, unmanaged_mods};

fn m(name: &str, enabled: bool) -> ModEntry {
    ModEntry { name: name.into(), enabled, path: format!("/i/mods/{name}"), unmanaged: false }
}

fn names(v: &[ModEntry]) -> Vec<&str> {
    v.iter().map(|e| e.name.as_str()).collect()
}

fn strings(v: &[&str]) -> Vec<String> {
    v.iter().map(|s| s.to_string()).collect()
}

#[test]
fn mo2_import_applies_order_and_states_keeping_local_mods() {
    let ours = vec![m("LocalOnly", false), m("SkyUI", false), m("USSEP", true)];
    let (list, r) = import_mo2_list(&ours, "+SkyUI\n-ussep\n+NotInstalled\n*Foreign\n");
    assert_eq!(r.matched, 2, "SkyUI + USSEP matched (case-insensitively)");
    assert_eq!(r.kept_local, 1, "LocalOnly is kept");
    assert_eq!(r.missing, vec!["NotInstalled".to_string()]);
    assert_eq!(names(&list), vec!["LocalOnly", "USSEP", "SkyUI"]);
    assert!(!list[1].enabled, "MO2 had it disabled");
    assert!(list[2].enabled);
    assert!(!list[0].enabled, "a local mod keeps its own state");
    assert_eq!(list[2].path, "/i/mods/SkyUI", "the entry is ours, only its state is MO2's");
}

#[test]
fn mo2_import_ignores_duplicates_blanks_and_comments() {
    let ours = vec![m("A", true), m("B", true)];
    let (list, r) = import_mo2_list(&ours, "# header\r\n\r\n-b\r\n+B\r\n+   \r\na\r\n");
    assert_eq!(r.matched, 2);
    assert_eq!(r.kept_local, 0);
    assert!(r.missing.is_empty());
    // MO2's first line is its highest priority, shown last.
    assert_eq!(names(&list), vec!["A", "B"]);
    assert!(list[0].enabled);
    assert!(!list[1].enabled, "the first mention counts");
    let (same, none) = import_mo2_list(&ours, "");
    assert_eq!(names(&same), vec!["A", "B"]);
    assert_eq!((none.matched, none.kept_local), (0, 2));
}

#[test]
fn create_empty_mod_names_are_trimmed_and_plain() {
    assert_eq!(new_mod_name("  My Patch "), Some("My Patch".to_string()));
    assert_eq!(new_mod_name("   "), None);
    assert_eq!(new_mod_name("a/b"), None);
    assert_eq!(new_mod_name("a\\b"), None);
    assert_eq!(overwrite_mod_name(" Output "), Some("Output".to_string()));
    assert_eq!(overwrite_mod_name(".."), None);
    assert_eq!(overwrite_mod_name(" . "), None);
    assert_eq!(overwrite_mod_name(""), None);
    assert_eq!(overwrite_mod_name("x/y"), None);
}

#[test]
fn rename_profile_rules_come_in_order() {
    assert_eq!(rename_check("Default", "Survival", true, false), None);
    assert_eq!(rename_check("Default", "  ", true, false), Some(RenameRefusal::InvalidName));
    assert_eq!(rename_check("Default", "Default", true, false), Some(RenameRefusal::InvalidName));
    assert_eq!(rename_check("Default", "../x", true, false), Some(RenameRefusal::PathSeparator));
    assert_eq!(rename_check("Default", "..", true, false), Some(RenameRefusal::PathSeparator));
    assert_eq!(rename_check("Default", "New", false, false), Some(RenameRefusal::NoSuchProfile));
    assert_eq!(rename_check("Default", "New", true, true), Some(RenameRefusal::TargetExists));
    assert!(rename_moves_pointer(Some("Default"), "Default"));
    assert!(!rename_moves_pointer(Some("Other"), "Default"));
    assert!(!rename_moves_pointer(None, "Default"));
}

#[test]
fn delete_profile_guards_active_and_last_decisions() {
    assert_eq!(delete_check("Default", "Default", 3), Some(DeleteRefusal::ActiveProfile));
    assert_eq!(delete_check("Only", "Other", 1), Some(DeleteRefusal::LastProfile));
    assert_eq!(delete_check("Spare", "Default", 2), None);
}

#[test]
fn mod_backups_are_numbered_from_the_second() {
    assert_eq!(backup_candidate("SkyUI", 1), "SkyUI_backup");
    assert_eq!(backup_candidate("SkyUI", 2), "SkyUI_backup2");
    assert_eq!(backup_candidate("SkyUI", 17), "SkyUI_backup17");
}

#[test]
fn the_seed_marker_reads_and_writes_partial_adoption() {
    assert_eq!(read_seed_marker(None), SeedMarker::Absent);
    assert_eq!(read_seed_marker(Some("done")), SeedMarker::Done);
    assert_eq!(read_seed_marker(Some("")), SeedMarker::Done);
    let partial = read_seed_marker(Some("partial\n A.ess \r\nB.SKSE\n"));
    assert_eq!(partial, SeedMarker::Partial(strings(&["a.ess", "b.skse"])));
    assert!(seed_wanted(&partial, "a.ESS"));
    assert!(!seed_wanted(&partial, "c.ess"));
    assert!(seed_wanted(&SeedMarker::Absent, "c.ess"));
    assert!(seed_wanted(&SeedMarker::Done, "c.ess"));

    let text = seed_marker_text(&strings(&["A.ess", "B.skse"]), true).unwrap();
    assert_eq!(text, "partial\nA.ess\nB.skse");
    assert_eq!(read_seed_marker(Some(&text)), SeedMarker::Partial(strings(&["a.ess", "b.skse"])));
    assert_eq!(seed_marker_text(&[], true), Some("done".to_string()));
    assert_eq!(seed_marker_text(&[], false), None);
}

#[test]
fn emptying_the_saves_dir_does_not_resurrect_prefix_saves() {
    // The first seeding saw a save and leaves "done"; a later pass wants
    // nothing new only because the marker says seeding already happened.
    let marker = seed_marker_text(&[], true);
    assert_eq!(marker.as_deref(), Some("done"));
    assert_eq!(read_seed_marker(marker.as_deref()), SeedMarker::Done);
}

#[test]
fn cosaves_travel_with_their_save() {
    assert!(cosave_sibling("Save 1.ess", "Save 1.skse"));
    assert!(cosave_sibling("Save 1.ess", "save 1.SKSE"));
    assert!(cosave_sibling("Quick.fos", "quick.f4se"));
    assert!(!cosave_sibling("Save 1.ess", "Save 2.skse"));
    assert!(!cosave_sibling("Save 1.ess", "Save 1.bak"));
    assert!(!cosave_sibling("Save 1.ess", "Save 1"));
}

#[test]
fn the_games_own_plugins_show_as_unmanaged_rows_in_engine_order() {
    let files = strings(&["Zeta.esp", "Update.esm", "Skyrim.esm", "readme.txt", "Provided.ESP", "apple.esl"]);
    let managed = vec![m("Sep_separator", true), m("Patch", true)];
    let listings = vec![strings(&["Zeta.esp"]), strings(&["provided.esp", "x.bsa"])];
    let order = strings(&["Skyrim.esm", " update.esm "]);
    let rows = unmanaged_mods("/game/Data", &files, &managed, &listings, &order);
    // A separator provides nothing; the engine's order first, then by name.
    assert_eq!(names(&rows), vec!["Skyrim", "Update", "apple", "Zeta"]);
    assert!(rows.iter().all(|r| r.enabled && r.unmanaged));
    assert_eq!(rows[0].path, "/game/Data/Skyrim.esm");
}

#[test]
fn tweak_fragments_sort_by_their_lowercase_and_keep_ties() {
    let sorted = sort_by_lowercase(strings(&["b.ini", "A.ini", "a.ini", "C.ini"]));
    assert_eq!(sorted, strings(&["A.ini", "a.ini", "b.ini", "C.ini"]));
    assert_eq!(sort_by_lowercase(vec![]), Vec::<String>::new());
}

/// One seeding pass over `(name, is_file, in_profile, copy_ok)` entries,
/// driven by the library's decisions; the marker text it leaves and the count.
fn pass(marker_text: Option<&str>, dst_nonempty: bool, entries: &[(&str, bool, bool, bool)]) -> (Option<String>, usize) {
    let marker = read_seed_marker(marker_text);
    match seed_start(&marker, dst_nonempty) {
        SeedStart::Finished => return (marker_text.map(|s| s.to_string()), 0),
        SeedStart::StampDone => return (Some("done".to_string()), 0),
        SeedStart::Adopt { .. } => {},
    }
    let mut progress = SeedProgress { copied: 0, failed: vec![], saw_any: false };
    for (name, is_file, in_profile, ok) in entries {
        let action = seed_file(&marker, name, *is_file, *in_profile);
        seed_step(&mut progress, action, name, *ok);
    }
    (seed_marker_text(&progress.failed, progress.saw_any).or(marker_text.map(|s| s.to_string())), progress.copied)
}

#[test]
fn saves_seed_adopts_existing_then_skips() {
    let first = pass(None, false, &[("Save1.ess", true, false, true), ("Save2.ess", true, false, true)]);
    assert_eq!(first, (Some("done".to_string()), 2));
    // The profile has saves now: never re-seed.
    let again = pass(first.0.as_deref(), true, &[("Save3.ess", true, false, true)]);
    assert_eq!(again.1, 0);
    // A profile from before the marker with saves in it is stamped done.
    assert_eq!(pass(None, true, &[("Save3.ess", true, false, true)]), (Some("done".to_string()), 0));
}

#[test]
fn a_partial_adoption_resumes_with_exactly_what_failed() {
    let first = pass(None, false, &[("A.ess", true, false, true), ("B.ess", true, false, false), ("junk.vdf", true, false, true)]);
    assert_eq!(first, (Some("partial\nB.ess".to_string()), 1));
    // The user deleted A meanwhile; only B is fetched again.
    let second = pass(first.0.as_deref(), true, &[("A.ess", true, false, true), ("b.ESS", true, false, true)]);
    assert_eq!(second, (Some("done".to_string()), 1));
    assert_eq!(seed_file(&SeedMarker::Absent, "dir.ess", false, false), SeedFile::Ignore);
    assert_eq!(seed_file(&SeedMarker::Absent, "x.ess", true, true), SeedFile::Seen);
    assert_eq!(seed_file(&SeedMarker::Absent, "x.skse", true, false), SeedFile::Copy);
    // A folder with no save data leaves no marker.
    assert_eq!(pass(None, false, &[("steam_autocloud.vdf", true, false, true)]), (None, 0));
}
