use eidos::categories::CategoryFactory;
use eidos::export::{csv_quote, mod_list_csv, mtime_text, Column, ExportScope};
use eidos::meta::ModMeta;
use eidos::modlist::ModEntry;

fn row(name: &str, enabled: bool) -> ModEntry {
    ModEntry { name: name.to_string(), enabled, path: format!("/i/mods/{name}"), unmanaged: false }
}

fn csv(rows: &[ModEntry], scope: ExportScope, columns: &[Column], domain: &str) -> (String, usize) {
    let metas: Vec<ModMeta> = rows.iter().map(|_| ModMeta::new()).collect();
    let dates: Vec<String> = rows.iter().map(|_| String::new()).collect();
    mod_list_csv(rows, &metas, &dates, &CategoryFactory::defaults(), scope, columns, domain)
}

#[test]
fn a_quote_in_a_name_is_doubled_not_dropped() {
    assert_eq!(csv_quote(r#"a "b" c"#), r#""a ""b"" c""#);
    assert_eq!(csv_quote(""), "\"\"");
}

#[test]
fn every_column_has_a_header_and_only_the_nexus_id_is_bare() {
    for c in Column::all() {
        assert!(c.header().starts_with('#'), "{:?}", c);
        assert!(!c.label().is_empty());
        assert_eq!(c.quoted(), c != Column::NexusId, "{:?}", c);
        assert!(!c.is_untracked());
    }
    assert_eq!(Column::all().len(), 13, "MO2 exports thirteen columns");
}

#[test]
fn the_full_export_is_mo2s_own_shape() {
    let rows = vec![row("Alpha", true), row("Bravo", false)];
    let (csv, n) = csv(&rows, ExportScope::All, &Column::all(), "skyrimspecialedition");
    assert_eq!(n, 2);
    assert!(csv.starts_with("#Mod_Priority,#Mod_Status,#Mod_Name,"), "{csv}");
    assert!(csv.contains("\r\n"));
    let first = csv.lines().nth(1).unwrap();
    assert!(first.starts_with("\"0000\",\"+\",\"Alpha\","), "{first}");
    assert!(first.contains(",0,"), "the id is not quoted: {first}");
}

#[test]
fn the_priority_column_is_a_position_not_a_running_count() {
    let rows = vec![row("Off1", false), row("On1", true), row("On2", true)];
    let (csv, n) = csv(&rows, ExportScope::Active, &Column::all(), "");
    assert_eq!(n, 2);
    let nums: Vec<&str> = csv.lines().skip(1).map(|l| &l[1..5]).collect();
    assert_eq!(nums, vec!["0001", "0002"], "{csv}");
}

#[test]
fn a_column_subset_keeps_the_order_and_drops_the_rest() {
    let rows = vec![row("Alpha", true)];
    let picked = [Column::Name, Column::Priority];
    let (csv, _) = csv(&rows, ExportScope::All, &picked, "");
    assert_eq!(csv.lines().next().unwrap(), "#Mod_Name,#Mod_Priority");
    assert_eq!(csv.lines().nth(1).unwrap(), "\"Alpha\",\"0000\"");
}

#[test]
fn separators_are_not_mods_and_are_never_exported() {
    let rows = vec![row("Gear_separator", true), row("Alpha", true)];
    let (csv, n) = csv(&rows, ExportScope::All, &Column::all(), "");
    assert_eq!(n, 1);
    assert!(!csv.contains("Gear"), "{csv}");
}

#[test]
fn metadata_fills_the_nexus_note_and_category_cells() {
    let rows = vec![row("Alpha", true)];
    let metas = vec![ModMeta::from_text("[General]\nmodid=266\nversion=4.2\ncategory=\"9,\"\nnotes=\"a, b\"\n")];
    let dates = vec![mtime_text(1_787_572_800)];
    let cols = [Column::NexusId, Column::NexusUrl, Column::PrimaryCategory, Column::Note, Column::Version, Column::InstallDate];
    let (csv, _) = mod_list_csv(&rows, &metas, &dates, &CategoryFactory::defaults(), ExportScope::All, &cols, "skyrimspecialedition");
    assert_eq!(
        csv.lines().nth(1).unwrap(),
        "266,\"https://www.nexusmods.com/skyrimspecialedition/mods/266\",\"Gameplay\",\"a b\",\"4.2\",\"2026/08/24 12:00:00\""
    );
}
