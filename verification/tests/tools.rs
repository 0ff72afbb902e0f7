use eidos::tools::{default_prereqs, default_tools, default_tools_in, is_mod_folder_name, merge_tools, read_tools, write_tools, GameExecutables, Tool};

fn tool(title: &str, exe: &str) -> Tool {
    Tool { title: title.into(), exe: exe.into(), args: Vec::new(), workdir: None, prereqs: Vec::new(), output_mod: None }
}

#[test]
fn default_prereqs_maps_known_tools() {
    assert_eq!(default_prereqs("Synthesis"), vec!["dotnet8", "vcrun2022"]);
    assert_eq!(default_prereqs("BodySlide x64"), vec!["d3dx9_43", "d3dcompiler_47"]);
    assert_eq!(default_prereqs("FNIS"), vec!["dotnet48"]);
    assert!(default_prereqs("SSEEdit").is_empty());
    assert!(default_prereqs("skse64_loader").is_empty());
}

#[test]
fn merge_user_wins_title_collisions() {
    let mut user = tool("SKSE", "/custom/skse64_loader.exe");
    user.args = vec!["-forcesteamloader".into()];
    let defaults = vec![tool("skse", "skse64_loader.exe"), tool("Launcher", "SkyrimSELauncher.exe")];
    let merged = merge_tools(vec![user], defaults);
    assert_eq!(merged.len(), 2);
    assert_eq!(merged[0].exe, "/custom/skse64_loader.exe");
    assert_eq!(merged[1].title, "Launcher");
}

#[test]
fn missing_file_is_empty() {
    assert!(read_tools("").is_empty());
}

#[test]
fn round_trips_tools() {
    let tools = vec![
        Tool {
            title: "SSEEdit".into(),
            exe: "/mnt/Tools/SSEEdit/SSEEdit.exe".into(),
            args: vec!["-D:D:\\My Mods\\Data".into(), "-IKnowWhatImDoing".into()],
            workdir: None,
            prereqs: Vec::new(),
            output_mod: None,
        },
        Tool {
            title: "BodySlide".into(),
            exe: "Data/CalienteTools/BodySlide/BodySlide x64.exe".into(),
            args: Vec::new(),
            workdir: Some("/mnt/Tools".into()),
            prereqs: vec!["d3dx9_43".into(), "d3dcompiler_47".into()],
            output_mod: Some("BodySlide Output".into()),
        },
    ];
    assert_eq!(read_tools(&write_tools(&tools)), tools);
}

#[test]
fn legacy_space_joined_args_still_read() {
    let t = read_tools("[Tool/Old]\nexe=/x/old.exe\nargs=-a -b -c\n");
    assert_eq!(t.len(), 1);
    assert_eq!(t[0].args, vec!["-a", "-b", "-c"]);
}

#[test]
fn control_char_title_is_skipped_on_write() {
    let tools = vec![tool("Bad\nTitle", "/x/a.exe"), tool("Good", "/x/b.exe")];
    let back = read_tools(&write_tools(&tools));
    assert_eq!(back.len(), 1);
    assert_eq!(back[0].title, "Good");
}

#[test]
fn an_output_mod_that_is_not_a_folder_name_never_reaches_disk() {
    for bad in ["", " ", ".", "..", "a/b", "a\\b", "x\ny"] {
        assert!(!is_mod_folder_name(bad), "{bad:?} must not pass");
    }
    assert!(is_mod_folder_name("FNIS Output"));
    let mut t = tool("T", "/x/t.exe");
    t.output_mod = Some("../escape".into());
    assert!(!write_tools(&[t]).contains("output_mod"), "not written");
    assert_eq!(read_tools("[Tool/T]\nexe=/x/t.exe\noutput_mod=../escape\n")[0].output_mod, None);
}

#[test]
fn default_tools_detects_present_executables_and_picks_up_new_ones() {
    let execs = GameExecutables {
        game_name: "Skyrim Special Edition",
        launcher: Some("SkyrimSELauncher.exe"),
        binary: Some("SkyrimSE.exe"),
        script_extender: Some("skse64_loader.exe"),
    };
    let found = vec!["SkyrimSELauncher.exe".to_string(), "SkyrimSE.exe".to_string()];
    let titles: Vec<String> = default_tools(execs, &found).into_iter().map(|t| t.title).collect();
    assert!(titles.contains(&"Skyrim Special Edition Launcher".to_string()));
    assert!(titles.contains(&"Skyrim Special Edition".to_string()));
    assert!(!titles.iter().any(|t| t.contains("skse")), "absent SKSE is not listed");
    let mut found2 = found.clone();
    found2.push("skse64_loader.exe".to_string());
    let titles2: Vec<String> = default_tools(execs, &found2).into_iter().map(|t| t.title).collect();
    assert!(titles2.contains(&"skse64_loader".to_string()));
    assert_eq!(titles2.first().map(String::as_str), Some("skse64_loader"));
    assert!(default_tools(execs, &Vec::new()).is_empty());
}

// ---- further cases

#[test]
fn a_script_extender_installed_as_a_mod_is_found_in_the_root_layers() {
    let execs = GameExecutables { game_name: "", launcher: None, binary: Some("Game.exe.exe"), script_extender: Some("skse64_loader.exe") };
    let install = vec!["Game.exe.exe".to_string()];
    let layers = vec![vec![], vec!["skse64_loader.exe".to_string()]];
    let tools = default_tools_in(execs, &install, &layers);
    let titles: Vec<&str> = tools.iter().map(|t| t.title.as_str()).collect();
    assert_eq!(titles, vec!["skse64_loader", "Game"]);
    assert_eq!(tools[0].exe, "skse64_loader.exe");
    assert!(tools[0].prereqs.is_empty());
    assert_eq!(default_prereqs("DynDOLOD 3"), vec!["d3dcompiler_47", "d3dx9_43", "d3dx11_43", "dotnet10"]);
    assert_eq!(default_prereqs("LOOT"), vec!["vcrun2022"]);
}

#[test]
fn the_tools_file_has_one_key_per_argument() {
    let mut t = tool("X", "/x.exe");
    t.args = vec!["a b".into(), "c".into()];
    t.prereqs = vec!["p".into(), "q".into()];
    assert_eq!(write_tools(&[t]), "[Tool/X]\nexe=/x.exe\narg0=a b\narg1=c\nprereqs=p,q\n\n");
}

#[test]
fn what_is_written_reads_back_less_the_unwritable() {
    let t = |title: &str, out: Option<&str>| Tool {
        title: title.into(),
        exe: "/bin/tool".into(),
        args: vec!["-a".into()],
        workdir: None,
        prereqs: vec![],
        output_mod: out.map(|s| s.to_string()),
    };
    let tools = vec![t("  LOOT ", None), t("   ", None), t("bad\u{7}title", None), t("xEdit", Some("../escape")), t("BodySlide", Some("Out"))];
    let back = read_tools(&write_tools(&tools));
    let expect = vec![t("LOOT", None), t("xEdit", None), t("BodySlide", Some("Out"))];
    assert_eq!(back.len(), expect.len());
    for (a, b) in back.iter().zip(expect.iter()) {
        assert_eq!((&a.title, &a.exe, &a.args, &a.workdir, &a.prereqs, &a.output_mod), (&b.title, &b.exe, &b.args, &b.workdir, &b.prereqs, &b.output_mod));
    }
}
