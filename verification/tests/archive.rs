use eidos::archive::{
    bain_default_selection, ArchiveEntry, ArchiveTree, CheckReturn, LayoutRules, BAIN_MIN_SUBPACKAGES,
    MAX_TREE_DEPTH,
};
use eidos::naming::{fix_directory_name, guess_mod_name, guess_mod_name_and_id};

fn rules() -> LayoutRules {
    LayoutRules::default()
}

fn tree(files: &[&str]) -> ArchiveTree {
    let entries: Vec<ArchiveEntry> =
        files.iter().map(|p| ArchiveEntry { path: p.to_string(), is_dir: p.ends_with('/') }).collect();
    ArchiveTree::from_entries(&entries)
}

#[test]
fn valid_when_top_level_is_a_data_folder() {
    assert_eq!(tree(&["meshes/armor/a.nif"]).data_looks_valid(rules()), CheckReturn::Valid);
}

#[test]
fn engine_fixes_all_in_one_splits_into_both_halves() {
    let t = tree(&[
        "data/skse/plugins/EngineFixes.dll",
        "data/skse/plugins/EngineFixes.toml",
        "d3dx9_42.dll",
        "SSE Engine Fixes - Install Instructions.txt",
        "vortex_override_instructions.json",
    ]);
    assert_eq!(t.simple_archive_base(rules()), None, "must not already resolve as simple");
    let split = t.root_builder_split(rules()).expect("root builder split");
    assert_eq!(split.data_prefix.as_deref(), Some("data/"));
    assert_eq!(split.root_dir, None);
    assert!(split.root_entries.contains(&"d3dx9_42.dll".to_string()));
    assert!(split.root_entries.contains(&"vortex_override_instructions.json".to_string()));
    assert!(!split.root_entries.iter().any(|e| e.ends_with(".txt")));
}

#[test]
fn an_explicit_root_folder_is_taken_as_itself() {
    let t = tree(&["Data/MyMod.esp", "Root/binkw64.dll", "Root/tools/patch.exe"]);
    let split = t.root_builder_split(rules()).expect("root builder split");
    assert_eq!(split.data_prefix.as_deref(), Some("Data/"));
    assert_eq!(split.root_dir.as_deref(), Some("Root"));
    assert!(split.root_entries.is_empty(), "Root/ contents are not also loose entries");
}

#[test]
fn a_bare_preloader_dll_is_a_pure_root_mod() {
    let t = tree(&["d3dx9_42.dll", "vortex_override_instructions.json"]);
    assert_eq!(t.simple_archive_base(rules()), None);
    let split = t.root_builder_split(rules()).expect("pure root mod");
    assert_eq!(split.data_prefix, None, "there is no Data half to place");
    assert!(split.root_entries.contains(&"d3dx9_42.dll".to_string()));
}

#[test]
fn a_dataless_archive_without_an_executable_is_left_to_the_picker() {
    assert_eq!(tree(&["config.json", "notes.md"]).root_builder_split(rules()), None);
}

#[test]
fn a_dataless_archive_with_a_stray_directory_is_not_a_pure_root_mod() {
    assert_eq!(tree(&["loader.dll", "extras/thing.cfg"]).root_builder_split(rules()), None);
}

#[test]
fn a_data_folder_beside_only_docs_is_not_a_root_split() {
    let t = tree(&["Data/MyMod.esp", "readme.txt", "preview.png"]);
    assert!(t.simple_archive_base(rules()).is_some(), "still the simple/DataText path");
    assert_eq!(t.root_builder_split(rules()), None);
}

#[test]
fn a_coincidental_data_folder_is_not_a_root_split() {
    assert_eq!(tree(&["data/settings.cfg", "loader.dll"]).root_builder_split(rules()), None);
}

#[test]
fn a_directory_beside_data_disqualifies_the_split() {
    for files in [
        &["Data/meshes/a.nif", "2K Textures/textures/a.dds"][..],
        &["Data/Core.esp", "Optional Textures/textures/a.dds"][..],
        &["Data/meshes/a.nif", "Documentation/manual.pdf"][..],
    ] {
        assert_eq!(
            tree(files).root_builder_split(rules()),
            None,
            "must not claim {files:?} - it belongs to BAIN or the manual picker"
        );
    }
}

#[test]
fn a_directory_beside_a_loose_dll_disqualifies_the_split() {
    assert_eq!(tree(&["loader.dll", "extras/thing.cfg"]).root_builder_split(rules()), None);
}

#[test]
fn valid_when_top_level_has_a_plugin() {
    assert_eq!(tree(&["MyMod.esp", "readme.txt"]).data_looks_valid(rules()), CheckReturn::Valid);
}

#[test]
fn invalid_when_wrapped_in_a_useless_folder() {
    assert_eq!(tree(&["MyMod-1234/meshes/a.nif"]).data_looks_valid(rules()), CheckReturn::Invalid);
}

#[test]
fn base_strips_a_single_wrapper() {
    let t = tree(&["MyMod-1234/meshes/a.nif", "MyMod-1234/textures/b.dds"]);
    assert_eq!(t.simple_archive_base(rules()).as_deref(), Some("MyMod-1234/"));
}

#[test]
fn base_strips_nested_wrappers() {
    let t = tree(&["a/b/scripts/x.pex", "a/b/MyMod.esp"]);
    assert_eq!(t.simple_archive_base(rules()).as_deref(), Some("a/b/"));
}

#[test]
fn base_is_empty_when_already_valid() {
    let t = tree(&["meshes/a.nif", "MyMod.esp"]);
    assert_eq!(t.simple_archive_base(rules()).as_deref(), Some(""));
}

#[test]
fn base_is_none_when_not_a_mod() {
    let t = tree(&["MyMod/readme.txt", "MyMod/screenshot.png"]);
    assert_eq!(t.simple_archive_base(rules()), None);
}

#[test]
fn case_insensitive_folder_match() {
    assert_eq!(tree(&["MESHES/a.nif"]).data_looks_valid(rules()), CheckReturn::Valid);
    assert_eq!(tree(&["x/SKSE/Plugins/y.dll"]).simple_archive_base(rules()).as_deref(), Some("x/"));
}

#[test]
fn guess_mod_name_strips_nexus_suffix() {
    assert_eq!(
        guess_mod_name("/dl/Expressive Facial Animation - Female Edition-19181-1-7-1575746557.7z"),
        "Expressive Facial Animation - Female Edition"
    );
    assert_eq!(guess_mod_name("TrueHUD-62775-1-1-9-1703382929.7z"), "TrueHUD");
    assert_eq!(guess_mod_name("SkyUI_5_1.7z"), "SkyUI_5_1");
    assert_eq!(
        guess_mod_name_and_id("Unofficial Skyrim Special Edition Patch-266-4-2-9b-1700000000.7z"),
        ("Unofficial Skyrim Special Edition Patch".to_string(), Some(266))
    );
    assert_eq!(guess_mod_name_and_id("SkyUI_5_2_SE-12604-5-2SE.7z"), ("SkyUI_5_2_SE".to_string(), Some(12604)));
    assert_eq!(guess_mod_name_and_id("SkyUI_5_1.7z"), ("SkyUI_5_1".to_string(), None));
}

#[test]
fn data_text_archive_is_simple() {
    let t = tree(&["Data/meshes/a.nif", "Data/MyMod.esp", "readme.txt", "preview.png"]);
    assert_eq!(t.simple_archive_base(rules()).as_deref(), Some("Data/"));
    let u = tree(&["Data/MyMod.esp", "loose.dll"]);
    assert_eq!(u.simple_archive_base(rules()), None);
}

#[test]
fn bain_detects_numbered_subpackages() {
    let t = tree(&[
        "00 Core/meshes/a.nif",
        "00 Core/MyMod.esp",
        "01 Optional Textures/textures/b.dds",
        "10 Alternate/MyMod.esp",
    ]);
    let (subs, invalid) = t.bain_subpackages(rules());
    assert_eq!(subs, vec!["00 Core", "01 Optional Textures", "10 Alternate"]);
    assert_eq!(invalid, 0);
    assert!(subs.len() >= BAIN_MIN_SUBPACKAGES);
    assert_eq!(t.simple_archive_base(rules()), None);
}

#[test]
fn bain_skips_ignored_and_disabled_folders() {
    let t = tree(&[
        "00 Core/meshes/a.nif",
        "01 Extras/MyMod.esp",
        "--02 Disabled/textures/x.dds",
        "Docs/readme.txt",
        "Images/preview.png",
        "Screenshots/shot.png",
        "OMOD Conversion Data/script.txt",
        "fomod/info.xml",
        "package.txt",
    ]);
    let (subs, invalid) = t.bain_subpackages(rules());
    assert_eq!(subs, vec!["00 Core", "01 Extras"]);
    assert_eq!(invalid, 0, "skipped folders must not count as invalid either");
}

#[test]
fn bain_counts_invalid_candidates_without_deciding() {
    let t = tree(&["00 Core/MyMod.esp", "01 Optional/textures/b.dds", "Utilities/BuildScript/thing.exe"]);
    let (subs, invalid) = t.bain_subpackages(rules());
    assert_eq!(subs, vec!["00 Core", "01 Optional"]);
    assert_eq!(invalid, 1);
}

#[test]
fn bain_is_structural_not_a_numeric_prefix_guess() {
    let t = tree(&["00 Screens/a.png", "01 More Screens/b.png"]);
    let (subs, invalid) = t.bain_subpackages(rules());
    assert!(subs.is_empty());
    assert_eq!(invalid, 2);
    let u = tree(&["Core/MyMod.esp", "Optional/meshes/a.nif"]);
    assert_eq!(u.bain_subpackages(rules()).0, vec!["Core", "Optional"]);
}

#[test]
fn bain_does_not_claim_a_fomod() {
    let t = tree(&["fomod/ModuleConfig.xml", "fomod/info.xml", "textures/x.dds", "meshes/y.nif", "MyMod.esp"]);
    let (subs, _) = t.bain_subpackages(rules());
    assert!(subs.is_empty(), "a FOMOD must not be offered as BAIN");
}

#[test]
fn bain_does_not_claim_a_simple_archive() {
    let t = tree(&["meshes/a.nif", "textures/b.dds", "MyMod.esp"]);
    assert_eq!(t.simple_archive_base(rules()).as_deref(), Some(""));
    let (subs, _) = t.bain_subpackages(rules());
    assert!(subs.len() < BAIN_MIN_SUBPACKAGES);
    let u = tree(&["MyMod-1234/meshes/a.nif"]);
    assert_eq!(u.bain_subpackages(rules()).0.len(), 1);
}

#[test]
fn bain_default_selection_ticks_00_and_previous() {
    let subs = vec!["00 Core".to_string(), "01 Extras".to_string(), "02 Alt".to_string()];
    assert_eq!(bain_default_selection(&subs, &[]), vec![true, false, false]);
    assert_eq!(bain_default_selection(&subs, &["02 alt".to_string()]), vec![true, false, true]);
}

#[test]
fn subtree_and_root_validity_drive_the_manual_picker() {
    let t = tree(&["Utilities/thing.exe", "Package/Data/meshes/a.nif", "Package/Data/MyMod.esp"]);
    assert!(!t.root_looks_valid("", rules()));
    assert!(!t.root_looks_valid("Utilities", rules()));
    assert!(t.root_looks_valid("Package/Data", rules()));
    assert!(t.root_looks_valid("package/data", rules()));
    assert!(t.subtree("Utilities/thing.exe").is_none());
    assert!(t.subtree("nope").is_none());
    assert!(!t.root_looks_valid("nope", rules()));
}

#[test]
fn flatten_yields_depth_paths_for_a_tree_view() {
    let rows = tree(&["Data/meshes/a.nif", "readme.txt"]).flatten();
    let got: Vec<(usize, &str, &str, bool)> =
        rows.iter().map(|r| (r.depth, r.name.as_str(), r.path.as_str(), r.is_dir)).collect();
    assert_eq!(
        got,
        vec![
            (0, "Data", "Data", true),
            (1, "meshes", "Data/meshes", true),
            (2, "a.nif", "Data/meshes/a.nif", false),
            (0, "readme.txt", "readme.txt", false),
        ]
    );
    for r in rows.iter().filter(|r| r.is_dir) {
        assert!(tree(&["Data/meshes/a.nif", "readme.txt"]).subtree(&r.path).is_some());
    }
}

#[test]
fn flatten_is_bounded_on_a_pathological_nesting() {
    let deep = (0..MAX_TREE_DEPTH + 20).map(|i| format!("d{i}")).collect::<Vec<_>>().join("/");
    let t = tree(&[&format!("{deep}/file.txt")]);
    assert_eq!(t.flatten().len(), MAX_TREE_DEPTH);
}

#[test]
fn fix_directory_name_strips_illegal_chars() {
    assert_eq!(fix_directory_name("Beyond Skyrim: Bruma").as_deref(), Some("Beyond Skyrim Bruma"));
    assert_eq!(fix_directory_name("  A  B  ").as_deref(), Some("A B"));
    assert_eq!(fix_directory_name("trailing... ").as_deref(), Some("trailing"));
    assert_eq!(fix_directory_name(r"a/b\c<d>e").as_deref(), Some("abcde"));
    assert_eq!(fix_directory_name("   "), None);
    assert_eq!(fix_directory_name(":::"), None);
}

// ---- further cases

#[test]
fn the_default_rules_have_no_game_directory() {
    assert_eq!(LayoutRules::default().game_dir(), "");
    let r = LayoutRules { folders: vec![], suffixes: vec!["pak".to_string()], data_dir: "SB/Content/Paks".to_string() };
    assert_eq!(r.game_dir(), "SB");
    assert!(r.suffix_matches("PAK"));
    assert!(!r.folder_matches("textures"));
}

#[test]
fn a_tree_of_nothing_is_empty_and_not_a_mod_root() {
    let t = tree(&[]);
    assert!(t.is_empty());
    assert_eq!(t.len(), 0);
    assert_eq!(t.data_looks_valid(rules()), CheckReturn::Invalid);
    assert!(!t.has_fomod());
    assert!(tree(&["fomod/ModuleConfig.xml"]).has_fomod());
}

#[test]
fn a_plain_file_named_fomod_is_no_installer() {
    assert!(!tree(&["docs/fomod"]).has_fomod());
    assert!(!tree(&["fomod"]).has_fomod());
    assert!(tree(&["docs/Fomod/ModuleConfig.xml"]).has_fomod());
}

#[test]
fn a_cleaned_folder_name_cleans_to_itself() {
    for raw in ["Beyond Skyrim: Bruma", "  a \t\t b  .. ", "x<>y|z?.", "...", "Fine"] {
        match fix_directory_name(raw) {
            Some(r) => {
                assert!(!r.is_empty());
                assert!(!r.contains("  ") && !r.starts_with(' ') && !r.ends_with(' ') && !r.ends_with('.'));
                assert_eq!(fix_directory_name(&r), Some(r.clone()));
            },
            None => assert_eq!(raw, "..."),
        }
    }
    assert_eq!(fix_directory_name("Beyond Skyrim: Bruma"), Some("Beyond Skyrim Bruma".to_string()));
}
