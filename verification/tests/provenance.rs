use eidos::provenance::{
    generated_input_drift, group_outputs, moved, outputs_of, pending_by_id, record_run, same_receipt, store_valid, tool_preset,
    FileStamp, GeneratedInput, GeneratedReceipt, StoredOutput, ToolExecutable,
};
use eidos::tools::Tool;

fn input(name: &str, version: Option<&str>) -> GeneratedInput {
    GeneratedInput { name: name.into(), version: version.map(|v| v.to_string()), installed_files: vec![(1, 2)] }
}

fn receipt() -> GeneratedReceipt {
    GeneratedReceipt {
        id: "1-2".into(),
        tool: "xEdit".into(),
        command: vec!["/t/xedit.exe".into()],
        executable: Some(ToolExecutable { path: "/t/xedit.exe".into(), size: 10, modified_secs: 100, modified_nanos: 5 }),
        tool_preset: Some(("/t/xedit.exe".into(), vec!["-quickautoclean".into()])),
        profile: "Default".into(),
        started_at: 100,
        inputs: vec![input("A", Some("1.0")), input("B", None)],
        plugins: vec![("A.esp".into(), true), ("B.esp".into(), false)],
    }
}

fn preset() -> Option<(String, Vec<String>)> {
    Some(("/t/xedit.exe".into(), vec!["-quickautoclean".into()]))
}

fn plugins() -> Vec<(String, bool)> {
    vec![("A.esp".into(), true), ("B.esp".into(), false)]
}

const EXE: Option<(u64, u64, u32)> = Some((10, 100, 5));

#[test]
fn an_unchanged_world_is_no_drift() {
    let r = receipt();
    let ins = vec![input("A", Some("1.0")), input("B", None)];
    assert!(!generated_input_drift(&r, "Default", &preset(), &ins, &plugins(), &[], EXE));
}

#[test]
fn each_recorded_input_can_drift() {
    let r = receipt();
    let ins = vec![input("A", Some("1.0")), input("B", None)];
    assert!(generated_input_drift(&r, "Other", &preset(), &ins, &plugins(), &[], EXE), "profile");
    assert!(generated_input_drift(&r, "Default", &None, &ins, &plugins(), &[], EXE), "preset");
    let bumped = vec![input("A", Some("1.1")), input("B", None)];
    assert!(generated_input_drift(&r, "Default", &preset(), &bumped, &plugins(), &[], EXE), "version");
    let reordered = vec![input("B", None), input("A", Some("1.0"))];
    assert!(generated_input_drift(&r, "Default", &preset(), &reordered, &plugins(), &[], EXE), "order");
    let toggled = vec![("A.esp".to_string(), false), ("B.esp".to_string(), false)];
    assert!(generated_input_drift(&r, "Default", &preset(), &ins, &toggled, &[], EXE), "plugin state");
    assert!(generated_input_drift(&r, "Default", &preset(), &ins, &plugins(), &[], Some((11, 100, 5))), "exe size");
    assert!(generated_input_drift(&r, "Default", &preset(), &ins, &plugins(), &[], None), "exe gone");
}

#[test]
fn the_runs_own_output_is_not_an_input_change() {
    let r = receipt();
    // The output was captured into a new mod "Output", and the run made "Out.esp".
    let produced = vec![(Some("output".to_string()), "Out.esp".to_string())];
    let ins = vec![input("A", Some("1.0")), input("B", None), input("Output", None)];
    let mut ps = plugins();
    ps.push(("OUT.ESP".into(), true));
    assert!(!generated_input_drift(&r, "Default", &preset(), &ins, &ps, &produced, EXE));
    // Without that output, the same additions are drift.
    assert!(generated_input_drift(&r, "Default", &preset(), &ins, &ps, &[], EXE));
    // A plugin nested below a directory is no plugin of the run's own.
    let nested = vec![(Some("output".to_string()), "sub/Out.esp".to_string())];
    assert!(generated_input_drift(&r, "Default", &preset(), &ins, &ps, &nested, EXE));
}

#[test]
fn the_preset_is_the_first_tool_of_that_title() {
    let t = |title: &str, exe: &str| Tool {
        title: title.into(),
        exe: exe.into(),
        args: vec!["-x".into()],
        workdir: None,
        prereqs: vec![],
        output_mod: None,
    };
    let tools = vec![t("LOOT", "/l"), t("xedit", "/a"), t("XEDIT", "/b")];
    assert_eq!(tool_preset(&tools, "xEdit"), Some(("/a".to_string(), vec!["-x".to_string()])));
    assert_eq!(tool_preset(&tools, "Nemesis"), None);
}

fn stamp(n: u64) -> FileStamp {
    FileStamp { len: n, mtime_secs: n, mtime_nanos: 0, ino: n, ctime: 0, ctime_ns: 0 }
}

fn snap(v: &[(&str, u64)]) -> Vec<(String, FileStamp)> {
    v.iter().map(|(p, n)| (p.to_string(), stamp(*n))).collect()
}

fn bare(id: &str, tool: &str) -> GeneratedReceipt {
    GeneratedReceipt {
        id: id.into(),
        tool: tool.into(),
        command: vec![],
        executable: None,
        tool_preset: None,
        profile: "Default".into(),
        started_at: 0,
        inputs: vec![],
        plugins: vec![],
    }
}

#[test]
fn receipts_follow_only_changed_files_across_runs_restarts_and_moves() {
    let before_a = snap(&[("unrelated.txt", 1)]);
    let after_a = snap(&[("unrelated.txt", 1), ("a.esp", 2)]);
    let (files, n) = record_run(vec![], &before_a, &after_a, "1-a");
    assert_eq!(n, 1);
    let after_b = snap(&[("unrelated.txt", 1), ("a.esp", 2), ("b.esp", 3)]);
    let (files, n) = record_run(files, &after_a, &after_b, "2-b");
    assert_eq!(n, 1);
    let keep = vec![true; files.len()];
    let groups = group_outputs(&files, &keep);
    let mine = outputs_of(&groups, None).unwrap();
    assert_eq!(mine.len(), 2);
    assert!(mine.iter().all(|(_, paths)| !paths.contains(&"unrelated.txt".to_string())));
    assert_eq!(mine[0], ("1-a".to_string(), vec!["a.esp".to_string()]));
    assert_eq!(mine[1], ("2-b".to_string(), vec!["b.esp".to_string()]));
}

#[test]
fn inputs_include_exact_sources_order_profile_and_plugin_activation() {
    let a = GeneratedInput { name: "A".into(), version: Some("1.0".into()), installed_files: vec![(42, 100), (42, 101)] };
    let b = GeneratedInput { name: "B".into(), version: None, installed_files: vec![] };
    let plugins = vec![("A.esp".to_string(), true), ("B.esp".to_string(), false)];
    let mut r = bare("1-x", "Generator");
    r.command = vec!["generator.exe".into(), "--patch".into()];
    r.inputs = vec![a.clone(), b.clone()];
    r.plugins = plugins.clone();
    let d = |ins: &[GeneratedInput], ps: &[(String, bool)], profile: &str| {
        generated_input_drift(&r, profile, &None, ins, ps, &[], None)
    };
    assert!(!d(&[a.clone(), b.clone()], &plugins, "Default"));
    assert!(d(&[b.clone(), a.clone()], &plugins, "Default"));
    let mut a2 = a.clone();
    a2.version = Some("2.0".into());
    assert!(d(&[a2, b.clone()], &plugins, "Default"));
    let mut a3 = a.clone();
    a3.installed_files = vec![(42, 102)];
    assert!(d(&[a3, b.clone()], &plugins, "Default"));
    let mut changed = plugins.clone();
    changed[1].1 = true;
    assert!(d(&[a.clone(), b.clone()], &changed, "Default"));
    let mut reversed = plugins.clone();
    reversed.reverse();
    assert!(d(&[a.clone(), b.clone()], &reversed, "Default"));
    assert!(d(&[a, b], &plugins, "Other"));
}

#[test]
fn a_pending_run_survives_restart_without_claiming_output() {
    // A later run that starts after the unverified file appeared does not
    // claim it; the interrupted receipt stays pending.
    let before = snap(&[("unverified.esp", 7)]);
    let (files, n) = record_run(vec![], &before, &before, "2-later");
    assert_eq!(n, 0);
    assert!(files.is_empty());
    let pending = pending_by_id(vec![bare("9-first", "Generator")]);
    assert_eq!(pending.len(), 1);
}

#[test]
fn newly_captured_output_is_not_itself_input_drift() {
    let input = GeneratedInput { name: "Input".into(), version: None, installed_files: vec![] };
    let mut r = bare("1-x", "Generator");
    r.inputs = vec![input.clone()];
    r.plugins = vec![("Input.esp".to_string(), true)];
    let generated = GeneratedInput { name: "Generated".into(), version: None, installed_files: vec![] };
    let produced = vec![(Some("Generated".to_string()), "Generated.esp".to_string())];
    let plugins = vec![("Input.esp".to_string(), true), ("Generated.esp".to_string(), true)];
    assert!(!generated_input_drift(&r, "Default", &None, &[input, generated], &plugins, &produced, None));
}

#[test]
fn changed_tool_preset_is_reported_as_drift() {
    let mut tool = Tool {
        title: "Generator".into(),
        exe: "generator.exe".into(),
        args: vec!["--old".into()],
        workdir: None,
        prereqs: vec![],
        output_mod: None,
    };
    let mut r = bare("1-x", "Generator");
    r.tool_preset = tool_preset(&[tool.clone()], "Generator");
    assert!(!generated_input_drift(&r, "Default", &tool_preset(&[tool.clone()], &r.tool), &[], &[], &[], None));
    tool.args = vec!["--new".into()];
    assert!(generated_input_drift(&r, "Default", &tool_preset(&[tool], &r.tool), &[], &[], &[], None));
}

#[test]
fn a_rerun_replaces_the_overwrite_attribution_of_a_path() {
    let owned = StoredOutput { mod_name: Some("Mod".into()), path: "x.esp".into(), stamp: stamp(1), receipt: "0-m".into() };
    let old = StoredOutput { mod_name: None, path: "x.esp".into(), stamp: stamp(1), receipt: "1-a".into() };
    let (files, n) = record_run(vec![owned, old], &snap(&[("x.esp", 1)]), &snap(&[("x.esp", 5)]), "2-b");
    assert_eq!(n, 1);
    let v: Vec<(Option<String>, String, String)> =
        files.iter().map(|f| (f.mod_name.clone(), f.path.clone(), f.receipt.clone())).collect();
    assert_eq!(
        v,
        vec![(Some("Mod".into()), "x.esp".into(), "0-m".into()), (None, "x.esp".into(), "2-b".into())]
    );
}

#[test]
fn outputs_group_by_owner_then_run_with_paths_in_path_order() {
    let o = |m: Option<&str>, p: &str, id: &str| StoredOutput {
        mod_name: m.map(|s| s.to_string()),
        path: p.into(),
        stamp: stamp(1),
        receipt: id.into(),
    };
    let files = vec![o(Some("B"), "z.esp", "1"), o(None, "a-b", "2"), o(None, "a/b", "2"), o(Some("A"), "y", "1"), o(None, "q", "1")];
    let g = group_outputs(&files, &[true, true, true, true, false]);
    assert_eq!(
        g,
        vec![
            (None, "2".to_string(), vec!["a/b".to_string(), "a-b".to_string()]),
            (Some("A".to_string()), "1".to_string(), vec!["y".to_string()]),
            (Some("B".to_string()), "1".to_string(), vec!["z.esp".to_string()]),
        ]
    );
    assert_eq!(outputs_of(&g, Some("A")), Some(vec![("1".to_string(), vec!["y".to_string()])]));
    assert_eq!(outputs_of(&g, Some("../x")), None);
    assert_eq!(outputs_of(&g, Some("C")), Some(vec![]));
}

#[test]
fn a_store_with_unsafe_paths_or_dangling_receipts_is_refused() {
    let o = |m: Option<&str>, p: &str, id: &str| StoredOutput {
        mod_name: m.map(|s| s.to_string()),
        path: p.into(),
        stamp: stamp(1),
        receipt: id.into(),
    };
    let ids = vec!["1".to_string()];
    assert!(store_valid(1, &[o(None, "a/./b.esp", "1"), o(Some("M"), "a/./b.esp", "1")], &ids));
    assert!(!store_valid(2, &[], &ids));
    assert!(!store_valid(1, &[o(None, "../x", "1")], &ids));
    assert!(!store_valid(1, &[o(None, "./x", "1")], &ids));
    assert!(!store_valid(1, &[o(None, "/abs", "1")], &ids));
    assert!(!store_valid(1, &[o(None, "", "1")], &ids));
    assert!(!store_valid(1, &[o(None, "x", "2")], &ids));
    assert!(!store_valid(1, &[o(Some(".."), "x", "1")], &ids));
    assert!(!store_valid(1, &[o(None, "x", "1"), o(None, "x", "1")], &ids));
}

#[test]
fn pending_runs_come_in_id_order_and_compare_exactly() {
    let p = pending_by_id(vec![bare("3", "c"), bare("1", "a"), bare("2", "b")]);
    assert_eq!(p.iter().map(|r| r.id.as_str()).collect::<Vec<_>>(), vec!["1", "2", "3"]);
    assert!(same_receipt(&receipt(), &receipt()));
    let mut other = receipt();
    other.started_at = 1;
    assert!(!same_receipt(&receipt(), &other));
}

#[test]
fn unknown_overwrite_cannot_inherit_a_destinations_old_receipt() {
    let (files, n) = record_run(vec![], &snap(&[]), &snap(&[("patch.esp", 1)]), "1-g");
    assert_eq!(n, 1);
    // The Overwrite goes into the mod "Output": the receipt follows.
    let files = moved(files, &snap(&[("patch.esp", 1)]), &[("Output".into(), "patch.esp".into())], &[stamp(2)]);
    let keep = vec![true; files.len()];
    let g = group_outputs(&files, &keep);
    assert_eq!(outputs_of(&g, Some("Output")), Some(vec![("1-g".to_string(), vec!["patch.esp".to_string()])]));
    assert_eq!(outputs_of(&g, None), Some(vec![]));
    // An untracked replacement synced over it takes no receipt along.
    let files = moved(files, &snap(&[("patch.esp", 3)]), &[("Output".into(), "patch.esp".into())], &[stamp(4)]);
    let keep = vec![true; files.len()];
    assert_eq!(outputs_of(&group_outputs(&files, &keep), Some("Output")), Some(vec![]));
}
