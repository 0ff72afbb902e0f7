use eidos::inis::{capture_action, decode_text_lossy, fragment_writes, note_tweak, CaptureAction, TweakedKey};
use eidos::plugins::{
    active_loss, count_actives, is_adopted_side_file, looks_like_crash_artifact, read_locked_order,
    write_locked_order, ActiveLoss, LoadOrderMechanism,
};

const STAR: LoadOrderMechanism = LoadOrderMechanism::Asterisk;

/// Whether the move from `before` to `after` (both `plugins.txt` texts) is
/// flagged by the loss guard.
fn flagged(before: &str, after: &str) -> bool {
    active_loss(count_actives(before, STAR), count_actives(after, STAR)).is_some()
}

#[test]
fn a_crash_mangled_session_is_flagged_and_restorable() {
    let full: String = (0..200).map(|i| format!("*Mod{i}.esp\n")).collect();
    let mangled: String = (0..200)
        .map(|i| if i < 5 { format!("*Mod{i}.esp\n") } else { format!("Mod{i}.esp\n") })
        .collect();
    assert!(flagged(&full, &mangled), "a crash artefact must be flagged");
    // Restored: the snapshot itself is healthy.
    assert!(!flagged(&full, &full), "restored = healthy");
    let edited: String = (0..200)
        .map(|i| if i < 195 { format!("*Mod{i}.esp\n") } else { format!("Mod{i}.esp\n") })
        .collect();
    assert!(!flagged(&full, &edited));
}

#[test]
fn small_load_order_losses_follow_the_majority_rule() {
    let snap = "*a\n*b\n*c\n*d\n*e\n*f\n";
    assert!(!flagged(snap, "*a\n*b\n*c\n*d\ne\nf\n"));
    assert!(flagged(snap, "*a\n*b\nc\nd\ne\nf\n"));
}

#[test]
fn an_accented_plugin_name_does_not_disarm_the_wipe_guard() {
    let mut good = b"*\xC9p\xE9es de Bordeciel.esp\r\n".to_vec();
    good.extend_from_slice(b"*a.esp\r\n*b.esp\r\n*c.esp\r\n*d.esp\r\n*e.esp\r\n*f.esp\r\n");
    assert!(std::str::from_utf8(&good).is_err(), "the fixture must be real CP1252");
    let (text, cp1252) = decode_text_lossy(&good);
    assert!(cp1252);
    assert!(text.starts_with("*\u{c9}p\u{e9}es de Bordeciel.esp"));
    assert_eq!(count_actives(&text, STAR), 7);
    let (ruined, _) = decode_text_lossy(b"# ruined\r\n");
    assert!(flagged(&text, &ruined), "the wipe must be flagged even when the list has accented names");
}

#[test]
fn a_small_load_order_cleared_to_nothing_is_still_refused() {
    let good = "*a.esp\n*b.esp\n*c.esp\n*d.esp\n*e.esp\n*f.esp\n*g.esp\n";
    let header = "# This file is used by Skyrim to keep track of your downloaded content.\n";
    assert!(flagged(good, header));
    let all_off = "a.esp\nb.esp\nc.esp\nd.esp\ne.esp\nf.esp\ng.esp\n";
    assert!(flagged(good, all_off), "clearing every active plugin is flagged at any size");
}

#[test]
fn the_backstop_sees_a_plainlist_wipe() {
    let before = "Alpha.esp\nBeta.esp\nGamma.esp\n";
    let after = "# header only\n";
    let b = count_actives(before, LoadOrderMechanism::PlainList);
    let a = count_actives(after, LoadOrderMechanism::PlainList);
    assert_eq!((b, a), (3, 0));
    assert_eq!(active_loss(b, a), Some(ActiveLoss::ClearsAll { before: 3 }));
}

#[test]
fn counting_skips_blanks_and_comments_and_trims() {
    let text = "# comment\r\n\r\n  *Skyrim.esm  \r\nUpdate.esm\r\n*\r\n";
    assert_eq!(count_actives(text, STAR), 2);
    assert_eq!(count_actives(text, LoadOrderMechanism::PlainList), 3);
    assert_eq!(count_actives("", STAR), 0);
}

#[test]
fn the_loss_guard_thresholds_are_exact() {
    // Growth and no change are never a loss.
    assert_eq!(active_loss(5, 9), None);
    assert_eq!(active_loss(0, 0), None);
    assert_eq!(active_loss(7, 7), None);
    // Wipes at any size.
    assert_eq!(active_loss(1, 0), Some(ActiveLoss::ClearsAll { before: 1 }));
    // Two dropped is never the majority rule's business.
    assert_eq!(active_loss(3, 1), None);
    // Three of five dropped: over half.
    assert_eq!(active_loss(5, 2), Some(ActiveLoss::Drops { dropped: 3, before: 5 }));
    // Three of six dropped: exactly half is not over half.
    assert_eq!(active_loss(6, 3), None);
    // Eleven of thirty-six dropped: over 30% and over ten.
    assert_eq!(active_loss(36, 25), Some(ActiveLoss::Drops { dropped: 11, before: 36 }));
    // Eleven of forty dropped: under 30%.
    assert_eq!(active_loss(40, 29), None);
    // Thirty of a hundred: exactly 30% is not over it.
    assert_eq!(active_loss(100, 70), None);
    assert_eq!(active_loss(100, 69), Some(ActiveLoss::Drops { dropped: 31, before: 100 }));
}

#[test]
fn a_crash_artifact_lists_plugins_with_none_active() {
    assert!(looks_like_crash_artifact("a.esp\nb.esp\nc.esp\n"));
    assert!(!looks_like_crash_artifact("a.esp\nb.esp\n"));
    assert!(!looks_like_crash_artifact("*a.esp\nb.esp\nc.esp\n"));
    assert!(!looks_like_crash_artifact("# only\n"));
}

#[test]
fn locked_order_reads_sorted_and_last_mention_wins() {
    let body = "# pins\nSkyUI.esp|3\n  Alpha.esm | 1 \nbad line\n|4\nskyui.esp|7\nX.esp|notanumber\n";
    let pins = read_locked_order(body);
    assert_eq!(pins, vec![("alpha.esm".to_string(), 1), ("skyui.esp".to_string(), 7)]);
    assert_eq!(write_locked_order(&pins), "alpha.esm|1\nskyui.esp|7\n");
    assert_eq!(read_locked_order(&write_locked_order(&pins)), pins);
    assert_eq!(read_locked_order(""), vec![]);
    assert_eq!(write_locked_order(&[]), "");
}

#[test]
fn the_side_files_a_profile_adopts() {
    assert!(!is_adopted_side_file("plugins.txt"));
    assert!(!is_adopted_side_file("LoadOrder.TXT"));
    assert!(!is_adopted_side_file("plugins.txt.TMP"));
    assert!(is_adopted_side_file("Skyrim.ccc"));
}

#[test]
fn a_truncated_ini_is_not_captured_over_the_profile() {
    let good = "[Display]\n".to_string() + &"iKey=1\n".repeat(50);
    let good_len = good.len() as u64;
    // Empty: never captured.
    assert_eq!(capture_action(0, good_len, None), CaptureAction::Refuse { record: false });
    // Under half the profile's size: a wreck, not an edit.
    let short = "[Display]\niKey=1\n".len() as u64;
    assert_eq!(capture_action(short, good_len, None), CaptureAction::Refuse { record: true });
    // A real edit of the same size captures.
    assert_eq!(capture_action(good_len, good_len, None), CaptureAction::Capture { stash: false });
    // The engine's compact rewrite: refused once, then accepted as a stable repeat.
    let compact = "[Display]\niKey=3\n".len() as u64;
    assert_eq!(capture_action(compact, good_len, None), CaptureAction::Refuse { record: true });
    let marker = compact.to_string();
    assert_eq!(capture_action(compact, good_len, Some(&marker)), CaptureAction::Capture { stash: true });
}

#[test]
fn capture_skips_two_empty_placeholders_and_needs_a_near_repeat() {
    assert_eq!(capture_action(0, 0, None), CaptureAction::Skip);
    // A new INI with no profile copy is captured.
    assert_eq!(capture_action(40, 0, None), CaptureAction::Capture { stash: false });
    // A repeat far from the refused size is no repeat.
    assert_eq!(capture_action(100, 1000, Some(" 200 \n")), CaptureAction::Refuse { record: true });
    // Within 16 bytes of a small refused size is.
    assert_eq!(capture_action(100, 1000, Some("110")), CaptureAction::Capture { stash: true });
    // A marker that is not a number counts for nothing.
    assert_eq!(capture_action(100, 1000, Some("abc")), CaptureAction::Refuse { record: true });
    // An empty copy is never a repeat, whatever the marker says.
    assert_eq!(capture_action(0, 1000, Some("0")), CaptureAction::Refuse { record: false });
}

#[test]
fn a_fragment_writes_only_keys_inside_a_section() {
    let w = fragment_writes("top=1\n; note\n# other\n[Display]\n fShadow = 8000 \nbad line\n=5\nsURL=a=b\n[ General ]\nx=\n");
    let w: Vec<(&str, &str, &str)> = w.iter().map(|(s, k, v)| (s.as_str(), k.as_str(), v.as_str())).collect();
    assert_eq!(w, vec![("Display", "fShadow", "8000"), ("Display", "sURL", "a=b"), ("General", "x", "")]);
}

#[test]
fn only_the_first_tweak_of_a_key_records_its_original_value() {
    let mut rec: Vec<TweakedKey> = Vec::new();
    note_tweak(&mut rec, "Display", "fShadow", Some("4000".into()), "8000");
    note_tweak(&mut rec, "display", "FSHADOW", Some("8000".into()), "9000");
    note_tweak(&mut rec, "Display", "iSize", None, "2");
    assert_eq!(
        rec,
        vec![
            TweakedKey { section: "Display".into(), key: "fShadow".into(), before: Some("4000".into()), after: "9000".into() },
            TweakedKey { section: "Display".into(), key: "iSize".into(), before: None, after: "2".into() },
        ]
    );
}
