use eidos::meta::{same_version, variant_qcolor_decode, variant_qcolor_encode, ModMeta};

#[test]
fn decodes_a_canonical_mo2_separator_color() {
    let raw = "@Variant(\\0\\0\\0\\x43\\x1\\xff\\xff\\x33\\x33\\x66\\x66\\x99\\x99\\0\\0)";
    assert_eq!(variant_qcolor_decode(raw), Some([0x33, 0x66, 0x99]));
    assert_eq!(variant_qcolor_decode("@Variant(\\0\\0)"), None);
    assert_eq!(variant_qcolor_decode("not a variant"), None);
}

#[test]
fn version_compare_ignores_cosmetic_differences() {
    assert!(same_version("1.5", "1.5.0"));
    assert!(same_version("v1.2", "1.2"));
    assert!(same_version("1.5.0.0", "1.5"));
    assert!(same_version("2-1", "2.1"));
    assert!(!same_version("1.5", "1.5.1"));
    assert!(!same_version("1.4", "1.5"));
    assert!(same_version("1.5SE", "1.5se"));
    assert!(!same_version("1.5SE", "1.5AE"));
}

#[test]
fn missing_file_is_empty_and_clean() {
    let m = ModMeta::from_text("");
    assert_eq!(m.mod_id(), None);
    assert_eq!(m.version(), None);
    assert!(!m.is_dirty());
    assert!(m.ini_tweaks().is_empty());
}

// ---- further cases

#[test]
fn color_encode_decode_round_trips() {
    for rgb in [[0u8, 0, 0], [0xFF, 0xFF, 0xFF], [0x33, 0x66, 0x99], [0x12, 0xAB, 0x7E]] {
        assert_eq!(variant_qcolor_decode(&variant_qcolor_encode(rgb)), Some(rgb));
    }
    let mut m = ModMeta::from_text("[General]\nmodid=1\n");
    m.set_color(Some([0x33, 0x66, 0x99]));
    assert!(m.is_dirty());
    assert_eq!(ModMeta::from_text(&m.to_text()).color(), Some([0x33, 0x66, 0x99]));
}

#[test]
fn notes_round_trip_through_quoting() {
    let mut m = ModMeta::from_text("[General]\nversion=1\n");
    assert_eq!(m.notes(), None);
    m.set_notes("merge with USSEP, keep my patch on top");
    assert!(m.is_dirty());
    assert_eq!(m.notes().as_deref(), Some("merge with USSEP, keep my patch on top"));
    assert_eq!(
        ModMeta::from_text(&m.to_text()).notes().as_deref(),
        Some("merge with USSEP, keep my patch on top")
    );
}

#[test]
fn setters_read_back_and_an_unchanged_value_is_not_dirty() {
    let mut m = ModMeta::from_text("[General]\nendorsed=1\n");
    m.set_endorsed(true);
    assert!(!m.is_dirty(), "setting the same value is no change");
    m.set_tracked(true);
    m.set_ignore_update(true);
    m.set_installed(true);
    m.set_last_nexus_update(1_700_000_000);
    assert!(m.is_dirty());
    assert!(m.endorsed() && m.is_tracked() && m.ignore_update() && m.installed());
    assert_eq!(m.last_nexus_update(), Some(1_700_000_000));
    let back = ModMeta::from_text(&m.to_text());
    assert!(back.endorsed() && back.is_tracked() && back.ignore_update() && back.installed());
}

#[test]
fn author_and_uploader_read_the_update_checks_keys() {
    let m = ModMeta::from_text(
        "[General]\nmodID=1234\nversion=1.0\nauthor=\"Arthmoor\"\nuploader=\"Arthmoor\"\nuploaderUrl=\"https://www.nexusmods.com/users/1234\"\n",
    );
    assert_eq!(m.author().as_deref(), Some("Arthmoor"));
    assert_eq!(m.uploader().as_deref(), Some("Arthmoor"));
    assert_eq!(m.uploader_url().as_deref(), Some("https://www.nexusmods.com/users/1234"));
    assert_eq!(m.mod_id(), Some(1234));
}
