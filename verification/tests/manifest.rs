use eidos::manifest::{InstanceKind, Manifest, SCHEMA_VERSION};

#[test]
fn round_trips_global() {
    let m = Manifest::parse(&Manifest::new("skyrimse", InstanceKind::Global).to_text()).unwrap();
    assert_eq!(m.schema_version, SCHEMA_VERSION);
    assert_eq!(m.game_id, "skyrimse");
    assert_eq!(m.kind, InstanceKind::Global);
    assert_eq!(m.selected_profile, None);
}

#[test]
fn round_trips_portable_with_profile() {
    let mut man = Manifest::new("fallout4", InstanceKind::Portable);
    man.selected_profile = Some("Ultra".to_string());
    let m = Manifest::parse(&man.to_text()).unwrap();
    assert_eq!(m.game_id, "fallout4");
    assert_eq!(m.kind, InstanceKind::Portable);
    assert_eq!(m.selected_profile.as_deref(), Some("Ultra"));
}

#[test]
fn missing_is_none() {
    assert!(Manifest::parse("").is_none());
    assert!(Manifest::parse("[eidos]\nkind=portable\n").is_none());
}
