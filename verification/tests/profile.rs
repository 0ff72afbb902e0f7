use eidos::modlist::{is_separator_name, render_modlist, ListFile, ModEntry, ModsDirScan, Profile};
use eidos::paths::join;
use eidos::saves::{savegames, SaveEntry, MAX_LISTED_SAVES};

const ROOT: &str = "/srv/eidos-inst";

fn prof(name: &str) -> Profile {
    Profile { instance_root: ROOT.to_string(), name: name.to_string() }
}

fn mods_path(n: &str) -> String {
    join(&join(ROOT, "mods"), n)
}

fn e(n: &str, enabled: bool) -> ModEntry {
    ModEntry { name: n.into(), enabled, path: mods_path(n), unmanaged: false }
}

fn scan(names: &[&str]) -> Vec<String> {
    names.iter().map(|n| n.to_string()).collect()
}

/// Save `mods` and read the list back against a mods folder holding `present`.
fn reload(p: &Profile, mods: &[ModEntry], present: &[&str]) -> Vec<ModEntry> {
    let text = render_modlist(mods);
    let folders = scan(present);
    p.modlist(&ListFile::Text(text), Some(&folders))
}

fn names_enabled(v: &[ModEntry]) -> Vec<(String, bool)> {
    v.iter().map(|m| (m.name.clone(), m.enabled)).collect()
}

#[test]
fn separator_name_and_display_name() {
    let sep = ModEntry { name: "Gameplay_separator".into(), enabled: true, path: String::new(), unmanaged: false };
    assert!(sep.is_separator());
    assert_eq!(sep.display_name(), "Gameplay");
    let modd = ModEntry { name: "SkyUI".into(), enabled: true, path: String::new(), unmanaged: false };
    assert!(!modd.is_separator());
    assert_eq!(modd.display_name(), "SkyUI");
    assert!(is_separator_name("X_separator"));
    assert!(!is_separator_name("Xseparator"));
    assert!(!is_separator_name("separator_X"));
}

#[test]
fn a_separator_above_the_games_content_round_trips() {
    let p = prof("Default");
    let un = ModEntry {
        name: "Dawnguard".into(),
        enabled: true,
        path: join(&join(ROOT, "gamedata"), "Dawnguard"),
        unmanaged: true,
    };
    let list = vec![e("Skyrim DLCs_separator", true), un, e("Real", true)];
    let back = reload(&p, &list, &["Skyrim DLCs_separator", "Real"]);
    assert_eq!(
        back.iter().map(|m| m.name.as_str()).collect::<Vec<_>>(),
        ["Skyrim DLCs_separator", "Dawnguard", "Real"],
        "the header did not stay above the game's content"
    );
    assert!(back[1].unmanaged, "the DLC row is still the game's, not a mod");
    let mounted = p.load_order(&back);
    assert!(!mounted.iter().any(|m| m.contains("_separator")), "{mounted:?}");
}

#[test]
fn unmanaged_content_keeps_its_position_but_is_never_mounted() {
    let p = prof("Default");
    let un = ModEntry {
        name: "Dawnguard".into(),
        enabled: true,
        path: join(&join(ROOT, "gamedata"), "Dawnguard"),
        unmanaged: true,
    };
    let list = vec![un, e("Real", true)];
    let written = render_modlist(&list);
    assert!(written.contains("+Real"), "{written}");
    assert!(written.contains("*Dawnguard"), "the game's content needs a line to have a place: {written}");
    let folders = scan(&["Real"]);
    let (back, _) = p.modlist_checked(&ListFile::Text(written), Some(&folders));
    let dg = back.iter().find(|m| m.name == "Dawnguard").expect("row survived the round trip");
    assert!(dg.unmanaged, "a `*` line is the game's content, not a mod");
    assert!(dg.path.is_empty(), "this layer cannot know the game's data dir");
    assert_eq!(back.iter().map(|m| m.name.as_str()).collect::<Vec<_>>(), ["Dawnguard", "Real"]);
    let mounted = p.load_order(&back);
    assert!(!mounted.iter().any(|m| m.contains("Dawnguard")), "{mounted:?}");
}

#[test]
fn modlist_round_trips_per_profile() {
    let p = prof("Default");
    let mods = vec![e("B", true), e("A", false), e("C", true)];
    let read = names_enabled(&reload(&p, &mods, &["A", "B", "C"]));
    assert_eq!(read, vec![("B".into(), true), ("A".into(), false), ("C".into(), true)]);
}

#[test]
fn save_modlist_is_atomic_and_keeps_a_backup() {
    let p = prof("Default");
    let v1 = vec![e("C", true), e("B", false), e("A", true)];
    let v2 = vec![e("A", false), e("C", true), e("B", true)];
    let first = render_modlist(&v1);
    let read = names_enabled(&reload(&p, &v2, &["A", "B", "C"]));
    assert_eq!(read, vec![("A".into(), false), ("C".into(), true), ("B".into(), true)]);
    // The previous list, as the one-deep backup keeps it: highest priority first.
    assert_eq!(first, "+A\n-B\n+C\n");
    assert_eq!(p.modlist_path(), format!("{ROOT}/profiles/Default/modlist.txt"));
}

#[test]
fn modlist_parses_star_and_trims_names() {
    let p = prof("Default");
    let folders = scan(&["A", "B", "C"]);
    let got = names_enabled(&p.modlist(&ListFile::Text("*A\n-  B\n+ C \n".into()), Some(&folders)));
    assert_eq!(got, vec![("C".into(), true), ("B".into(), false), ("A".into(), true)]);
}

#[test]
fn two_profiles_share_mods_but_keep_own_order() {
    let d = names_enabled(&reload(&prof("Default"), &[e("A", true), e("B", false)], &["A", "B"]));
    let t = names_enabled(&reload(&prof("Test"), &[e("B", true), e("A", true)], &["A", "B"]));
    assert_eq!(d, vec![("A".into(), true), ("B".into(), false)]);
    assert_eq!(t, vec![("B".into(), true), ("A".into(), true)]);
    assert_ne!(prof("Default").modlist_path(), prof("Test").modlist_path());
}

#[test]
fn default_profile_falls_back_to_legacy_flat_modlist() {
    let p = prof("Default");
    // No profile list yet, but a legacy flat one at the instance root.
    assert_eq!(p.modlist_source(false, true), format!("{ROOT}/modlist.txt"));
    assert_eq!(prof("Other").modlist_source(false, true), format!("{ROOT}/profiles/Other/modlist.txt"));
    let folders = scan(&["A", "B"]);
    let read = names_enabled(&p.modlist(&ListFile::Text("-A\n+B\n".into()), Some(&folders)));
    assert_eq!(read, vec![("B".into(), true), ("A".into(), false)]);
}

#[test]
fn a_folder_nobody_listed_appears_disabled() {
    let read = names_enabled(&reload(&prof("Default"), &[e("A", true)], &["A", "New"]));
    assert_eq!(read, vec![("New".into(), false), ("A".into(), true)]);
}

#[test]
fn a_mod_whose_folder_is_gone_leaves_the_list_but_not_the_file() {
    let p = prof("Default");
    let text = render_modlist(&[e("A", true), e("B", true)]);
    let folders = scan(&["A"]);
    let (list, trust) = p.modlist_checked(&ListFile::Text(text.clone()), Some(&folders));
    assert_eq!(list.iter().map(|m| m.name.as_str()).collect::<Vec<_>>(), ["A"]);
    assert!(trust.is_good(), "{trust:?}");
    assert!(text.contains("B"));
}

#[test]
fn an_unmounted_mods_folder_cannot_flatten_the_order() {
    let p = prof("Default");
    let before = render_modlist(&[e("A", true), e("B", true), e("C", true)]);
    let empty: Vec<String> = Vec::new();
    let (list, trust) = p.modlist_checked(&ListFile::Text(before.clone()), Some(&empty));
    assert!(list.is_empty());
    assert!(!trust.is_good(), "an empty scan against a non-empty list must not be trusted");
    let why = p.unsafe_to_persist(&ListFile::Text(before), &ModsDirScan::Read(false));
    assert!(why.is_some(), "the save is refused rather than silently flattening the order");
}

#[test]
fn a_mod_whose_name_starts_with_a_dot_is_kept() {
    let p = prof("Default");
    let folders = scan(&[".NET Script Framework", ".eidos-install-abc123", "A"]);
    let names: Vec<String> = p.modlist(&ListFile::Missing, Some(&folders)).iter().map(|m| m.name.clone()).collect();
    assert!(names.iter().any(|n| n == ".NET Script Framework"), "{names:?}");
    assert!(!names.iter().any(|n| n.starts_with(".eidos-install-")), "{names:?}");
}

#[test]
fn savegames_is_empty_when_no_saves_dir() {
    assert!(savegames(Vec::new()).is_empty());
}

#[test]
fn display_order_file_order_and_load_order_stay_consistent() {
    let p = prof("Default");
    let list = vec![e("Low", true), e("High", true)];
    assert_eq!(render_modlist(&list), "+High\n+Low\n");
    let back = reload(&p, &list, &["Low", "High"]);
    let names: Vec<_> = back.iter().map(|m| m.name.clone()).collect();
    assert_eq!(names, vec!["Low".to_string(), "High".to_string()]);
    assert_eq!(p.load_order(&back), vec![mods_path("High"), mods_path("Low")]);
}

#[test]
fn separator_round_trips_keeps_position_and_is_excluded_from_load_order() {
    let p = prof("Default");
    let mods = vec![e("A", true), e("Sec_separator", false), e("B", true)];
    assert_eq!(render_modlist(&mods), "+B\n-Sec_separator\n+A\n");
    let read = reload(&p, &mods, &["A", "Sec_separator", "B"]);
    assert_eq!(
        names_enabled(&read),
        vec![("A".into(), true), ("Sec_separator".into(), false), ("B".into(), true)]
    );
    assert!(read[1].is_separator());
    assert_eq!(read[1].display_name(), "Sec");
    assert!(!read[0].is_separator());
    assert_eq!(p.load_order(&read), vec![mods_path("B"), mods_path("A")]);
    let solo = reload(&p, &[e("Solo_separator", true)], &["Solo_separator"]);
    assert!(p.load_order(&solo).is_empty());
}

// ---- further cases

#[test]
fn savegames_lists_saves_newest_first_and_skips_the_rest() {
    let f = |n: &str, t: u128| SaveEntry { filename: n.into(), path: format!("/s/{n}"), size: n.len() as u64, mtime: t };
    let list = savegames(vec![f("Old.ess", 10), f("New.ess", 20), f(".DS_Store", 30), f("New.skse", 25), f("Tie.fos", 10)]);
    let names: Vec<_> = list.iter().map(|s| s.filename.clone()).collect();
    assert_eq!(names, vec!["New.ess", "Old.ess", "Tie.fos"]);
}

#[test]
fn an_unreadable_mods_folder_refuses_with_the_reason() {
    let p = prof("Default");
    let text = render_modlist(&[e("A", true), e("B", true)]);
    let why = p.unsafe_to_persist(&ListFile::Text(text.clone()), &ModsDirScan::Unreadable("permission denied".into()));
    assert_eq!(
        why.as_deref(),
        Some("the mods folder could not be read (permission denied); refusing to overwrite a list of 2 mod(s). Is the drive it lives on mounted?")
    );
    assert_eq!(p.unsafe_to_persist(&ListFile::Text(text), &ModsDirScan::Read(true)), None);
    assert_eq!(p.unsafe_to_persist(&ListFile::Missing, &ModsDirScan::Read(false)), None);
    let (_, trust) = p.modlist_checked(&ListFile::Unreadable, Some(&scan(&["A"])));
    assert!(!trust.is_good());
}

#[test]
fn unlisted_folders_do_not_count_as_kept_listed_mods() {
    let p = prof("Default");
    let text = render_modlist(&[e("A", true)]);
    let folders = scan(&["B"]);
    let (list, trust) = p.modlist_checked(&ListFile::Text(text), Some(&folders));
    assert_eq!(list.iter().map(|m| m.name.as_str()).collect::<Vec<_>>(), ["B"]);
    assert!(!trust.is_good(), "the one listed mod lost its folder: {trust:?}");
}

#[test]
fn the_saves_list_is_capped_to_the_newest() {
    let files: Vec<SaveEntry> = (0..(MAX_LISTED_SAVES as u128 + 5))
        .map(|i| SaveEntry { filename: format!("s{i}.ess"), path: format!("/s/s{i}.ess"), size: 1, mtime: i })
        .collect();
    let shown = savegames(files);
    assert_eq!(shown.len(), MAX_LISTED_SAVES);
    assert_eq!(shown[0].filename, format!("s{}.ess", MAX_LISTED_SAVES + 4));
    assert_eq!(shown[MAX_LISTED_SAVES - 1].filename, "s5.ess");
}
