use eidos::registry::{InstanceRef, Registry};

#[test]
fn round_trips_portables_and_last() {
    let mut reg = Registry::default();
    reg.remember_portable("/mnt/games/EidosSkyrim");
    reg.remember_portable("/home/u/Eidos/fallout4");
    reg.set_last(InstanceRef::Global("skyrimse".into()));
    let back = Registry::parse(&reg.to_ini());
    assert_eq!(back, reg);
    reg.set_last(InstanceRef::Portable("/mnt/games/EidosSkyrim".into()));
    let back = Registry::parse(&reg.to_ini());
    assert_eq!(back, reg);
}

#[test]
fn remember_is_mru_and_dedups() {
    let mut reg = Registry::default();
    reg.remember_portable("/a");
    reg.remember_portable("/b");
    reg.remember_portable("/a");
    assert_eq!(reg.portables, vec!["/a".to_string(), "/b".to_string()]);
}

#[test]
fn forget_also_clears_a_last_that_pointed_there() {
    let mut reg = Registry::default();
    reg.set_last(InstanceRef::Portable("/a".into()));
    assert_eq!(reg.portables, vec!["/a".to_string()], "set_last must remember too");
    reg.forget_portable("/a");
    assert!(reg.portables.is_empty());
    assert_eq!(reg.last, None, "a forgotten root must not linger as the default");
}

#[test]
fn a_path_containing_colons_survives_the_last_token() {
    let mut reg = Registry::default();
    reg.set_last(InstanceRef::Portable("/mnt/we:ird/Eidos".into()));
    let back = Registry::parse(&reg.to_ini());
    assert_eq!(back.last, Some(InstanceRef::Portable("/mnt/we:ird/Eidos".into())));
}

#[test]
fn unknown_keys_and_junk_are_ignored() {
    let reg = Registry::parse("[instances]\n# comment\nfuture_key=whatever\nlast=badtag:/x\nportable=\nportable=/ok\n");
    assert_eq!(reg.portables, vec!["/ok".to_string()]);
    assert_eq!(reg.last, None, "an unknown tag is not a reference");
}

// ---- further cases

#[test]
fn the_registry_text_is_last_then_the_roots() {
    let mut reg = Registry::default();
    reg.remember_portable("/b");
    reg.set_last(InstanceRef::Global("fallout4".into()));
    assert_eq!(reg.to_ini(), "[instances]\nlast=global:fallout4\nportable=/b\n");
    assert_eq!(InstanceRef::Portable("/x".into()).to_token(), "portable:/x");
    assert_eq!(InstanceRef::parse(" global : skyrimse "), Some(InstanceRef::Global("skyrimse".into())));
    assert_eq!(InstanceRef::parse("global:"), None);
}

#[test]
fn a_global_reference_opens_the_central_instance() {
    let i = InstanceRef::Global("skyrimse".into()).instance("/home/u/.local/share");
    assert_eq!(i.root, "/home/u/.local/share/eidos/skyrimse");
    let p = InstanceRef::Portable("/mnt/x".into()).instance("/home/u/.local/share");
    assert_eq!(p.root, "/mnt/x");
}
