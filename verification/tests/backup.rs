use eidos::backup::{backup_slots, format_stamp, free_stamp, newest_complete, stamp_of, stamped_name, stamps_to_prune, Backup, BackupKind, KEEP_BACKUPS};
use eidos::modlist::Profile;

#[test]
fn the_stamp_reads_as_a_date() {
    assert_eq!(format_stamp(1_787_572_800), "2026-08-24 12:00");
    assert_eq!(format_stamp(0), "1970-01-01 00:00");
}

// ---- further cases

#[test]
fn stamps_before_the_epoch_and_leap_days_read_right() {
    assert_eq!(format_stamp(951_782_400), "2000-02-29 00:00");
    assert_eq!(format_stamp(u64::MAX), "1969-12-31 23:59");
    let b = Backup { stamp: 86_399, files: vec![] };
    assert_eq!(b.when(), "1970-01-01 23:59");
}

#[test]
fn stamped_copies_are_named_and_recognised() {
    assert_eq!(stamped_name("modlist.txt", 1_787_580_000), "modlist.txt.1787580000");
    assert_eq!(stamp_of("modlist.txt.1787580000", "modlist.txt"), Some(1_787_580_000));
    assert_eq!(stamp_of("modlist.txt.bak", "modlist.txt"), None);
    assert_eq!(stamp_of("modlist.txt.before-cosmos", "modlist.txt"), None);
    assert_eq!(stamp_of("plugins.txt.5", "modlist.txt"), None);
    assert_eq!(backup_slots(BackupKind::LoadOrder), vec!["plugins.txt", "loadorder.txt"]);
    assert_eq!(BackupKind::ModList.label(), "mod list");
}

#[test]
fn only_complete_points_are_listed_newest_first_and_ten_are_kept() {
    let newest = newest_complete(&[5, 9, 7, 8], &[true, true, false, true]);
    assert_eq!(newest, vec![9, 8, 5]);
    let p = Profile { instance_root: "/i".into(), name: "Default".into() };
    let points = p.backups(BackupKind::LoadOrder, &[5, 9], &[true, true]);
    assert_eq!(points[0].stamp, 9);
    assert_eq!(points[0].files, vec!["/i/profiles/Default/backups/plugins.txt.9", "/i/profiles/Default/backups/loadorder.txt.9"]);
    let all: Vec<u64> = (1..=12).collect();
    let sorted: Vec<u64> = (1..=12).rev().collect();
    assert_eq!(stamps_to_prune(&sorted, &all), vec![1, 2]);
    assert_eq!(KEEP_BACKUPS, 10);
    assert_eq!(free_stamp(&[100, 101, 103], 100), 102);
    assert_eq!(free_stamp(&[], 7), 7);
}
