use eidos::inis::{decode_text_lossy, encode_text};
use eidos::manifest::{InstanceKind, Manifest};
use eidos::meta::ModMeta;
use eidos::modlist::{pick_dir, Instance, ModEntry};
use eidos::paths::{file_name_of, join};
use eidos::registry::registry_path;
use eidos::settings::{nexus_key_path, settings_path};

fn e(n: &str, enabled: bool) -> ModEntry {
    ModEntry { name: n.into(), enabled, path: format!("/i/mods/{n}"), unmanaged: false }
}

fn strings(v: &[&str]) -> Vec<String> {
    v.iter().map(|s| s.to_string()).collect()
}

#[test]
fn the_instance_layout_is_rooted_at_its_folder() {
    let g = Instance::global("/home/u/.local/share", "skyrimse");
    assert_eq!(g.root, "/home/u/.local/share/eidos/skyrimse");
    assert_eq!(g.mods_dir(), "/home/u/.local/share/eidos/skyrimse/mods");
    assert_eq!(g.meta_path("SkyUI"), "/home/u/.local/share/eidos/skyrimse/mods/SkyUI/meta.ini");
    assert_eq!(g.root_overwrite_dir(), "/home/u/.local/share/eidos/skyrimse/overwrite/Root");
    assert_eq!(g.profile("Ultra").dir(), "/home/u/.local/share/eidos/skyrimse/profiles/Ultra");
    assert_eq!(join("/a/", "b"), "/a/b");
    assert_eq!(join("/a", "/b"), "/b");
}

#[test]
fn profiles_are_sorted_and_never_none() {
    let i = Instance::portable("/i".into());
    assert_eq!(i.profiles(&strings(&["Zed", "Alpha", "Mid"])), strings(&["Alpha", "Mid", "Zed"]));
    assert_eq!(i.profiles(&Vec::new()), strings(&["Default"]));
}

#[test]
fn a_vanished_selected_profile_falls_back_to_the_first_existing_one() {
    let i = Instance::portable("/i".into());
    let found = strings(&["Survival", "Hardcore"]);
    assert_eq!(i.active_profile(Some("Survival"), &found), "Survival");
    assert_eq!(i.active_profile(Some("Gone"), &found), "Hardcore");
    assert_eq!(i.active_profile(None, &found), "Hardcore");
    assert_eq!(i.active_profile(None, &strings(&["Default"])), "Default");
    assert_eq!(i.active_profile(Some("Gone"), &Vec::new()), "Default");
}

#[test]
fn the_game_id_comes_from_the_manifest_or_the_folder_name() {
    let i = Instance::portable("/home/u/.local/share/eidos/skyrimse/".into());
    assert_eq!(i.game_id(None).as_deref(), Some("skyrimse"));
    let m = Manifest::new("fallout4", InstanceKind::Portable);
    assert_eq!(i.game_id(Some(&m)).as_deref(), Some("fallout4"));
    assert_eq!(file_name_of("/"), None);
    assert_eq!(file_name_of("a/.."), None);
    assert_eq!(file_name_of("a/./"), Some("a".to_string()));
    assert_eq!(file_name_of("."), None);
}

#[test]
fn opening_a_folder_needs_a_manifest_naming_its_game() {
    assert_eq!(Instance::open_at("/x", false, None, false).unwrap_err(), "'/x' is not a directory.");
    assert_eq!(Instance::open_at("/x", true, None, false).unwrap_err(), "'/x' is not an Eidos instance folder.");
    assert!(Instance::open_at("/x", true, None, true).unwrap_err().contains("looks like an instance"));
    let (i, m) = Instance::open_at("/x", true, Some(Manifest::new("skyrimse", InstanceKind::Portable)), true).unwrap();
    assert_eq!(i.root, "/x");
    assert_eq!(m.game_id, "skyrimse");
}

#[test]
fn root_layers_are_the_enabled_mods_root_dirs_highest_first() {
    let i = Instance::portable("/i".into());
    let mods = vec![e("Low", true), e("Off", false), e("Sep_separator", true), e("High", true), e("NoRoot", true)];
    let roots = vec![
        Some("/i/mods/Low/Root".to_string()),
        Some("/i/mods/Off/root".to_string()),
        Some("/i/mods/Sep_separator/Root".to_string()),
        Some("/i/mods/High/ROOT".to_string()),
        None,
    ];
    assert_eq!(i.root_layers(&mods, &roots), strings(&["/i/mods/High/ROOT", "/i/mods/Low/Root"]));
    assert_eq!(pick_dir(&strings(&["root", "Root"]), &[false, true], "ROOT"), Some(1));
    assert_eq!(pick_dir(&strings(&["INI Tweaks"]), &[true], "ini tweaks"), Some(0));
    assert_eq!(pick_dir(&strings(&["x"]), &[true], "root"), None);
}

#[test]
fn enabled_tweaks_come_in_list_order() {
    let i = Instance::portable("/i".into());
    let mods = vec![e("A", true), e("B", false), e("C", true)];
    let metas = vec![
        ModMeta::from_text("[General]\n[INI Tweaks]\nsize=2\n1\\name=one.ini\n2\\name=two.ini\n"),
        ModMeta::from_text("[General]\n[INI Tweaks]\nsize=1\n1\\name=off.ini\n"),
        ModMeta::from_text("[General]\n[INI Tweaks]\nsize=1\n1\\name=three.ini\n"),
    ];
    let dirs = strings(&["/i/mods/A/INI Tweaks", "/i/mods/B/INI Tweaks", "/i/mods/C/ini tweaks"]);
    assert_eq!(
        i.enabled_ini_tweaks(&mods, &metas, &dirs),
        strings(&["/i/mods/A/INI Tweaks/one.ini", "/i/mods/A/INI Tweaks/two.ini", "/i/mods/C/ini tweaks/three.ini"])
    );
}

#[test]
fn config_files_live_under_the_config_home() {
    assert_eq!(registry_path("/home/u/.config/Colony/Eidos"), "/home/u/.config/Colony/Eidos/instances.ini");
    assert_eq!(nexus_key_path("/c"), "/c/nexus.ini");
    assert_eq!(settings_path("/c"), "/c/settings.ini");
}

#[test]
fn ansi_ini_text_is_read_and_written_in_its_own_encoding() {
    let (t, ansi) = decode_text_lossy(&[0x43, 0x61, 0x66, 0xE9, 0x0A]);
    assert_eq!(t, "Caf\u{e9}\n");
    assert!(ansi);
    assert_eq!(encode_text(&t, true), vec![0x43, 0x61, 0x66, 0xE9, 0x0A]);
    let (u, ansi) = decode_text_lossy("Caf\u{e9}".as_bytes());
    assert_eq!(u, "Caf\u{e9}");
    assert!(!ansi);
    assert_eq!(encode_text(&u, false), "Caf\u{e9}".as_bytes().to_vec());
    assert_eq!(decode_text_lossy(&[0x80]).0, "\u{20ac}");
}
