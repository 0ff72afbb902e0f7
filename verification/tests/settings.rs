use eidos::settings::{parse_nexus_creds, render_nexus_creds, clear_nexus_tokens, NexusCreds, Theme, ADULT_PREF_TTL};

#[test]
fn an_old_api_key_line_is_neither_read_nor_destroyed() {
    let existing = "[Nexus]\napi_key=old\naccess_token=at\nrefresh_token=rt\nexpires_at=999\n";
    let creds = parse_nexus_creds(existing);
    let out = render_nexus_creds(existing, &creds);
    assert!(out.contains("api_key=old"), "the line was destroyed: {out}");
    let back = parse_nexus_creds(&out);
    assert_eq!(back.access_token.as_deref(), Some("at"));
    assert_eq!(back.refresh_token.as_deref(), Some("rt"));
    assert_eq!(back.expires_at, 999);
}

#[test]
fn the_adult_preference_survives_a_write_and_a_read() {
    let mut creds = parse_nexus_creds("[Nexus]\naccess_token=at\n");
    creds.adult_ok = Some(true);
    creds.adult_checked_at = 1_000;
    let back = parse_nexus_creds(&render_nexus_creds("", &creds));
    assert_eq!(back.adult_ok, Some(true));
    assert_eq!(back.adult_checked_at, 1_000);
    assert_eq!(back.adult_pref(1_000), Some(true));
}

#[test]
fn a_cached_adult_preference_decays_to_unknown_once_it_is_stale() {
    let creds = NexusCreds { adult_ok: Some(true), adult_checked_at: 1_000, ..Default::default() };
    assert_eq!(creds.adult_pref(1_000 + ADULT_PREF_TTL - 1), Some(true));
    assert_eq!(creds.adult_pref(1_000 + ADULT_PREF_TTL), None, "stale must read as unknown");
}

#[test]
fn a_corrupted_adult_line_reads_as_unknown_rather_than_as_permission() {
    for line in ["adult_ok=yes", "adult_ok=", "adult_ok=maybe", "adult_ok=2"] {
        let creds = parse_nexus_creds(&format!("[Nexus]\n{line}\nadult_checked_at=1000\n"));
        assert_eq!(creds.adult_ok, None, "{line}");
        assert_eq!(creds.adult_pref(1_000), None, "{line}");
    }
}

#[test]
fn signing_out_forgets_the_adult_preference_with_the_session() {
    let existing = "[Nexus]\naccess_token=at\nadult_ok=1\nadult_checked_at=1000\n";
    let mut creds = parse_nexus_creds(existing);
    assert_eq!(creds.adult_ok, Some(true));
    creds.access_token = None;
    creds.adult_ok = None;
    creds.adult_checked_at = 0;
    let back = parse_nexus_creds(&render_nexus_creds(existing, &creds));
    assert_eq!(back.adult_ok, None);
    assert_eq!(back.adult_pref(1_000), None);
}

#[test]
fn signing_out_clears_the_session_and_nothing_else() {
    let existing = "[Nexus]\naccess_token=at\nrefresh_token=rt\nexpires_at=5\nkeep=me\n";
    let mut creds = parse_nexus_creds(existing);
    creds.access_token = None;
    creds.refresh_token = None;
    creds.expires_at = 0;
    let out = render_nexus_creds(existing, &creds);
    let back = parse_nexus_creds(&out);
    assert!(!back.has_oauth());
    assert_eq!(back.expires_at, 0);
    assert!(out.contains("keep=me"), "an unrelated line was dropped: {out}");
}

#[test]
fn unknown_keys_survive_a_rewrite() {
    let existing = "[Nexus]\naccess_token=at\nsomething_new=keep-me\n";
    let out = render_nexus_creds(existing, &parse_nexus_creds(existing));
    assert!(out.contains("something_new=keep-me"), "{out}");
    assert_eq!(out.matches("[Nexus]").count(), 1, "the header was duplicated: {out}");
}

#[test]
fn an_empty_file_reads_as_nothing_stored() {
    let c = parse_nexus_creds("");
    assert_eq!(c, NexusCreds::default());
    assert!(!c.has_oauth());
}

#[test]
fn theme_round_trips_each_variant() {
    for theme in [Theme::System, Theme::Light, Theme::Dark] {
        assert_eq!(Theme::parse(theme.as_str()), theme);
    }
}

#[test]
fn theme_parse_is_case_insensitive_and_falls_back() {
    assert_eq!(Theme::parse("DARK"), Theme::Dark);
    assert_eq!(Theme::parse("Light"), Theme::Light);
    assert_eq!(Theme::parse("nonsense"), Theme::System);
    assert_eq!(Theme::parse(""), Theme::System);
}

// ---- further cases

#[test]
fn the_session_survives_a_round_trip() {
    let c = parse_nexus_creds("[Nexus]\naccess_token=persisted\nexpires_at=42\n");
    assert_eq!(c.access_token.as_deref(), Some("persisted"));
    assert_eq!(c.expires_at, 42);
    let back = parse_nexus_creds(&render_nexus_creds("", &c));
    assert_eq!(back, c);
}

#[test]
fn clearing_the_tokens_keeps_nothing_of_the_session() {
    let mut c = parse_nexus_creds("[Nexus]\naccess_token=at\nrefresh_token=rt\nexpires_at=5\nadult_ok=0\nadult_checked_at=7\n");
    assert_eq!(c.adult_ok, Some(false));
    clear_nexus_tokens(&mut c);
    assert_eq!(c, NexusCreds::default());
    assert_eq!(Theme::default(), Theme::System);
}

// ---- the preferences file, without its one floating-point field

use eidos::settings::{parse_settings, render_settings, SettingsFields};

fn parse(text: &str) -> SettingsFields {
    parse_settings(text).0
}

#[test]
fn a_settings_file_from_before_the_marks_switch_still_loads() {
    let s = parse("[eidos]\ntheme=dark\nlock_gui=false\nconflict_marks=false\nremember_window=false\n");
    assert_eq!(s.theme, Theme::Dark);
    assert!(!s.lock_gui);
    assert!(!s.remember_window);
    assert!(!render_settings(&s, "1").contains("conflict_marks"));
}

#[test]
fn defaults_are_empty() {
    let s = SettingsFields::new();
    assert_eq!(s.theme, Theme::System);
    assert_eq!(s.default_game, None);
    assert_eq!(s.window_size, None);
    assert!(s.lock_gui, "locking the GUI during a run is on by default (MO2 parity)");
}

#[test]
fn settings_round_trip_full() {
    let s = SettingsFields {
        offline: false,
        preferred_servers: Vec::new(),
        theme: Theme::Dark,
        default_game: Some("skyrimse".to_string()),
        window_size: Some((1280, 720)),
        lock_gui: false,
        remember_window: false,
    };
    let (parsed, speeds) = parse_settings(&render_settings(&s, "1"));
    assert_eq!(parsed, s);
    assert_eq!(speeds, vec!["1".to_string()]);
}

#[test]
fn settings_round_trip_minimal() {
    let s = SettingsFields { theme: Theme::Light, ..SettingsFields::new() };
    assert_eq!(parse(&render_settings(&s, "1")), s);
}

#[test]
fn lock_gui_defaults_on_and_parses_off() {
    assert!(parse("[eidos]\ntheme=dark\n").lock_gui);
    for off in ["false", "0", "no", "off", "OFF"] {
        assert!(!parse(&format!("lock_gui={off}\n")).lock_gui, "{off} should disable");
    }
    assert!(parse("lock_gui=true\n").lock_gui);
}

#[test]
fn parse_ignores_unknown_and_malformed() {
    let s = parse("[eidos]\ntheme=dark\nbogus_key=whatever\nno-equals-sign\ndefault_game=fallout4\n");
    assert_eq!(s.theme, Theme::Dark);
    assert_eq!(s.default_game.as_deref(), Some("fallout4"));
}

#[test]
fn parse_rejects_partial_or_zero_window_size() {
    assert_eq!(parse("[eidos]\nwindow_width=1024\n").window_size, None);
    assert_eq!(parse("window_width=0\nwindow_height=600\n").window_size, None);
    assert_eq!(parse("window_width=wide\nwindow_height=600\n").window_size, None);
}

#[test]
fn empty_default_game_is_none() {
    assert_eq!(parse("[eidos]\ndefault_game=\n").default_game, None);
}

#[test]
fn servers_and_offline_round_trip_and_the_speed_values_come_back_in_order() {
    let s = SettingsFields {
        offline: true,
        preferred_servers: vec!["Amsterdam".into(), "Chicago".into()],
        ..SettingsFields::new()
    };
    let text = render_settings(&s, "1.75");
    assert!(text.contains("preferred_servers=Amsterdam,Chicago\n"), "{text}");
    assert_eq!(parse(&text), s);
    let (_, speeds) = parse_settings("drag_scroll_speed=2.5\ndrag_scroll_speed=fast\n");
    assert_eq!(speeds, vec!["2.5".to_string(), "fast".to_string()]);
    assert!(parse("offline=YES\n").offline);
    assert!(!parse("offline=maybe\n").offline);
}
