use hadron::command::ProtonCommand;
use hadron::steam::discover;
use hadron::steam::find_owning_library;
use hadron::steam::get_launch_options;
use hadron::steam::read_install_dir;
use hadron::steam::resolve_name;
use hadron::steam::resolve_path;
use hadron::steam::FileEntry;
use hadron::steam::ResolveError;
use hadron::steam::Snapshot;
use hadron::steam::Steam;
use hadron::steam::ToolSelection;
use hadron::vdf::parse;
use hadron::vdf::serialize;
use hadron::vdf::ErrKind;
use hadron::vdf::Value;

fn file(path: &str, content: &str, mtime: u64) -> FileEntry {
    FileEntry { path: path.to_string(), content: content.to_string(), mtime }
}

fn snap(dirs: &[&str], files: Vec<FileEntry>) -> Snapshot {
    Snapshot { dirs: dirs.iter().map(|d| d.to_string()).collect(), files }
}

fn entries(v: &Value) -> &Vec<(String, Value)> {
    match v {
        Value::Node(es) => es,
        Value::Leaf(_) => panic!("expected a node"),
    }
}

#[test]
fn parse_simple_pairs() {
    let v = parse("\"a\" \"1\"\n\"b\" \"2\"\n").unwrap();
    let es = entries(&v);
    assert_eq!(es.len(), 2);
    assert_eq!(es[0].0, "a");
    assert_eq!(es[1].0, "b");
    match &es[0].1 {
        Value::Leaf(s) => assert_eq!(s, "1"),
        _ => panic!(),
    }
}

#[test]
fn parse_empty_document_is_empty_node() {
    let v = parse("").unwrap();
    assert_eq!(entries(&v).len(), 0);
    let v2 = parse("   \n\t // only a comment\n").unwrap();
    assert_eq!(entries(&v2).len(), 0);
}

#[test]
fn parse_nested_and_unquoted() {
    let v = parse("outer\n{\n  inner value\n  \"q\" unquoted\n}\n").unwrap();
    let es = entries(&v);
    assert_eq!(es.len(), 1);
    assert_eq!(es[0].0, "outer");
    let sub = entries(&es[0].1);
    assert_eq!(sub.len(), 2);
    assert_eq!(sub[0].0, "inner");
    match &sub[1].1 {
        Value::Leaf(s) => assert_eq!(s, "unquoted"),
        _ => panic!(),
    }
}

#[test]
fn parse_escapes() {
    let v = parse("\"k\" \"a\\\"b\\\\c\\td\\ne\"").unwrap();
    let es = entries(&v);
    match &es[0].1 {
        Value::Leaf(s) => assert_eq!(s, "a\"b\\c\td\ne"),
        _ => panic!(),
    }
}

#[test]
fn parse_comments_do_not_hide_tokens() {
    let v = parse("// header\n\"k\" \"v\" // trailing\n\"m\" \"w\"\n").unwrap();
    assert_eq!(entries(&v).len(), 2);
}

#[test]
fn duplicate_keys_are_preserved() {
    let v = parse("\"0\" \"x\"\n\"0\" \"y\"\n").unwrap();
    let es = entries(&v);
    assert_eq!(es.len(), 2);
    assert_eq!(es[0].0, "0");
    assert_eq!(es[1].0, "0");
    match (&es[0].1, &es[1].1) {
        (Value::Leaf(a), Value::Leaf(b)) => {
            assert_eq!(a, "x");
            assert_eq!(b, "y");
        },
        _ => panic!(),
    }
}

#[test]
fn round_trip_preserves_tree() {
    let text = "\"a\" \"1\"\n\"a\" \"2\"\nnode\n{\n\"x\" \"has \\\"quotes\\\" and \\\\slashes\"\nempty\n{\n}\n}\n\"tail\" \"z\"\n";
    let v1 = parse(text).unwrap();
    let s1 = serialize(&v1);
    let v2 = parse(&s1).unwrap();
    let s2 = serialize(&v2);
    assert_eq!(s1, s2);
    assert_eq!(entries(&v1).len(), entries(&v2).len());
}

#[test]
fn unmatched_close_is_reported_with_line() {
    let e = parse("\"a\" \"1\"\n}\n").unwrap_err();
    assert_eq!(e.kind, ErrKind::UnmatchedClose);
    assert_eq!(e.line, 2);
}

#[test]
fn unterminated_string_is_reported() {
    let e = parse("\"a\" \"unfinished").unwrap_err();
    assert_eq!(e.kind, ErrKind::UnterminatedString);
}

#[test]
fn unclosed_node_is_reported() {
    let e = parse("\"a\"\n{\n\"k\" \"v\"\n").unwrap_err();
    assert_eq!(e.kind, ErrKind::UnclosedNode);
}

#[test]
fn missing_value_is_reported() {
    let e = parse("\"a\"").unwrap_err();
    assert_eq!(e.kind, ErrKind::MissingValue);
}

#[test]
fn depth_limit_fails_explicitly() {
    let mut t = String::new();
    for _ in 0..65 {
        t.push_str("\"k\"\n{\n");
    }
    let e = parse(&t).unwrap_err();
    assert_eq!(e.kind, ErrKind::DepthExceeded);
    let mut ok = String::new();
    for _ in 0..64 {
        ok.push_str("\"k\"\n{\n");
    }
    for _ in 0..64 {
        ok.push_str("}\n");
    }
    assert!(parse(&ok).is_ok());
}

#[test]
fn discover_orders_roots_and_skips_stale() {
    let listing = "\"libraryfolders\"\n{\n\"0\"\n{\n\"path\" \"/S\"\n}\n\"1\"\n{\n\"path\" \"/mnt/games\"\n}\n\"2\"\n{\n\"path\" \"/gone\"\n}\n}\n";
    let fs = snap(
        &["/S/steamapps", "/S", "/mnt/games"],
        vec![file("/S/steamapps/libraryfolders.vdf", listing, 1)],
    );
    let roots = discover(&fs, "/S").unwrap();
    assert_eq!(roots, vec!["/S".to_string(), "/S".to_string(), "/mnt/games".to_string()]);
}

#[test]
fn discover_without_listing_keeps_primary_root() {
    let fs = snap(&["/S/steamapps"], vec![]);
    let roots = discover(&fs, "/S").unwrap();
    assert_eq!(roots, vec!["/S".to_string()]);
}

#[test]
fn discover_rejects_non_client_root() {
    let fs = snap(&["/elsewhere"], vec![]);
    assert!(matches!(discover(&fs, "/S"), Err(ResolveError::NotAClientRoot)));
}

#[test]
fn first_owning_root_wins() {
    let fs = snap(
        &[],
        vec![
            file("/primary/steamapps/appmanifest_10.acf", "\"AppState\" { }", 1),
            file("/secondary/steamapps/appmanifest_10.acf", "\"AppState\" { }", 9),
        ],
    );
    let roots = vec!["/primary".to_string(), "/secondary".to_string()];
    let lib = find_owning_library(&fs, &roots, "10").unwrap();
    assert_eq!(lib, "/primary");
}

#[test]
fn missing_manifest_everywhere_is_not_found() {
    let fs = snap(&[], vec![]);
    let roots = vec!["/primary".to_string()];
    assert!(matches!(find_owning_library(&fs, &roots, "10"), Err(ResolveError::NotFound)));
}

#[test]
fn install_dir_is_extracted() {
    let manifest = "\"AppState\"\n{\n\"appid\" \"440\"\n\"installdir\" \"Team Fortress 2\"\n}\n";
    let fs = snap(&[], vec![file("/S/steamapps/appmanifest_440.acf", manifest, 1)]);
    let d = read_install_dir(&fs, "/S", "440").unwrap();
    assert_eq!(d, "Team Fortress 2");
}

#[test]
fn install_dir_with_separator_is_malformed() {
    let manifest = "\"AppState\"\n{\n\"installdir\" \"a/b\"\n}\n";
    let fs = snap(&[], vec![file("/S/steamapps/appmanifest_7.acf", manifest, 1)]);
    assert!(matches!(read_install_dir(&fs, "/S", "7"), Err(ResolveError::Malformed)));
}

fn cfg_with_mapping() -> Value {
    let text = "\"InstallConfigStore\"\n{\n\"Software\"\n{\n\"Valve\"\n{\n\"Steam\"\n{\n\"CompatToolMapping\"\n{\n\"100\"\n{\n\"name\" \"\"\n\"config\" \"\"\n}\n\"300\"\n{\n\"name\" \"proton_9\"\n}\n}\n}\n}\n}\n}\n";
    parse(text).unwrap()
}

#[test]
fn empty_override_is_autodetect_not_fallback() {
    let cfg = cfg_with_mapping();
    assert!(matches!(resolve_name(&cfg, "100", "fallbackA"), ToolSelection::Autodetect));
}

#[test]
fn absent_override_uses_fallback() {
    let cfg = cfg_with_mapping();
    match resolve_name(&cfg, "200", "fallbackA") {
        ToolSelection::Named(n) => assert_eq!(n, "fallbackA"),
        _ => panic!(),
    }
}

#[test]
fn present_override_is_verbatim() {
    let cfg = cfg_with_mapping();
    match resolve_name(&cfg, "300", "fallbackA") {
        ToolSelection::Named(n) => assert_eq!(n, "proton_9"),
        _ => panic!(),
    }
}

#[test]
fn tool_path_prefers_library_tools_then_bundle() {
    let fs = snap(
        &["/L2/steamapps/compatibilitytools.d/GE", "/S/steamapps/common/GE"],
        vec![],
    );
    let roots = vec!["/L1".to_string(), "/L2".to_string()];
    let p = resolve_path(&fs, &roots, "/S", "GE").unwrap();
    assert_eq!(p, "/L2/steamapps/compatibilitytools.d/GE");
    let fs2 = snap(&["/S/steamapps/common/GE"], vec![]);
    let p2 = resolve_path(&fs2, &roots, "/S", "GE").unwrap();
    assert_eq!(p2, "/S/steamapps/common/GE");
    let fs3 = snap(&[], vec![]);
    match resolve_path(&fs3, &roots, "/S", "GE") {
        Err(ResolveError::CompatToolNotFound(n)) => assert_eq!(n, "GE"),
        _ => panic!(),
    }
}

fn user_cfg(app: &str, opts: &str) -> String {
    format!(
        "\"UserLocalConfigStore\"\n{{\n\"apps\"\n{{\n\"{}\"\n{{\n\"LaunchOptions\" \"{}\"\n}}\n}}\n}}\n",
        app, opts
    )
}

#[test]
fn launch_options_for_given_user() {
    let fs = snap(
        &["/S/userdata/111"],
        vec![file("/S/userdata/111/config/localconfig.vdf", &user_cfg("440", "-novid"), 1)],
    );
    let o = get_launch_options(&fs, "/S", Some("111"), "440").unwrap();
    assert_eq!(o, Some("-novid".to_string()));
    let none = get_launch_options(&fs, "/S", Some("111"), "999").unwrap();
    assert_eq!(none, None);
}

#[test]
fn unknown_user_is_reported() {
    let fs = snap(&[], vec![]);
    match get_launch_options(&fs, "/S", Some("111"), "440") {
        Err(ResolveError::UnknownUser(u)) => assert_eq!(u, "111"),
        _ => panic!(),
    }
}

#[test]
fn latest_modified_user_tree_wins() {
    let fs = snap(
        &["/S/userdata/999", "/S/userdata/111"],
        vec![
            file("/S/userdata/999/config/localconfig.vdf", &user_cfg("440", "old"), 5),
            file("/S/userdata/111/config/localconfig.vdf", &user_cfg("440", "new"), 10),
        ],
    );
    let o = get_launch_options(&fs, "/S", None, "440").unwrap();
    assert_eq!(o, Some("new".to_string()));
}

#[test]
fn mtime_tie_breaks_by_numerically_larger_user() {
    let fs = snap(
        &["/S/userdata/9", "/S/userdata/10"],
        vec![
            file("/S/userdata/9/config/localconfig.vdf", &user_cfg("1", "nine"), 7),
            file("/S/userdata/10/config/localconfig.vdf", &user_cfg("1", "ten"), 7),
        ],
    );
    let o = get_launch_options(&fs, "/S", None, "1").unwrap();
    assert_eq!(o, Some("ten".to_string()));
}

#[test]
fn facade_end_to_end() {
    let listing = "\"libraryfolders\"\n{\n\"0\"\n{\n\"path\" \"/S\"\n}\n}\n";
    let manifest = "\"AppState\"\n{\n\"appid\" \"440\"\n\"installdir\" \"Team Fortress 2\"\n}\n";
    let fs = snap(
        &["/S/steamapps", "/S"],
        vec![
            file("/S/steamapps/libraryfolders.vdf", listing, 1),
            file("/S/steamapps/appmanifest_440.acf", manifest, 2),
        ],
    );
    let st = Steam::new(fs, "/S".to_string()).unwrap();
    assert_eq!(st.root_path(), "/S");
    let lib = st.find_library_for_app("440").unwrap();
    assert_eq!(lib, "/S");
    let dir = st.get_install_dir(&lib, "440").unwrap();
    assert_eq!(dir, "/S/steamapps/common/Team Fortress 2");
    let data = st.get_compat_data_path(&lib, "440");
    assert_eq!(data, "/S/steamapps/compatdata/440");
    match st.get_compat_tool("440", "proton_experimental").unwrap() {
        ToolSelection::Named(n) => assert_eq!(n, "proton_experimental"),
        _ => panic!(),
    }
}

#[test]
fn build_command_without_options() {
    let c = ProtonCommand {
        proton_path: "/p/proton".to_string(),
        exe_path: "/g/x.exe".to_string(),
        compat_data_path: "/S/steamapps/compatdata/1".to_string(),
        steam_client_path: "/S".to_string(),
        app_id: "1".to_string(),
        launch_options: None,
    };
    assert_eq!(c.build_command(), "/p/proton waitforexitandrun /g/x.exe");
}

#[test]
fn build_command_with_plain_options_prefixes() {
    let c = ProtonCommand {
        proton_path: "/p/proton".to_string(),
        exe_path: "/g/x.exe".to_string(),
        compat_data_path: "/d".to_string(),
        steam_client_path: "/S".to_string(),
        app_id: "1".to_string(),
        launch_options: Some("PROTON_LOG=1".to_string()),
    };
    assert_eq!(c.build_command(), "PROTON_LOG=1 /p/proton waitforexitandrun /g/x.exe");
}

#[test]
fn build_command_replaces_placeholder() {
    let c = ProtonCommand {
        proton_path: "/p/proton".to_string(),
        exe_path: "/g/x.exe".to_string(),
        compat_data_path: "/d".to_string(),
        steam_client_path: "/S".to_string(),
        app_id: "1".to_string(),
        launch_options: Some("gamemoderun %command% -fullscreen".to_string()),
    };
    assert_eq!(
        c.build_command(),
        "gamemoderun /p/proton waitforexitandrun /g/x.exe -fullscreen"
    );
}

#[test]
fn build_env_sets_the_three_variables() {
    let c = ProtonCommand {
        proton_path: "/p".to_string(),
        exe_path: "/x".to_string(),
        compat_data_path: "/data".to_string(),
        steam_client_path: "/S".to_string(),
        app_id: "440".to_string(),
        launch_options: None,
    };
    let env = c.build_env();
    assert_eq!(env.len(), 3);
    assert_eq!(env[0], ("STEAM_COMPAT_DATA_PATH", "/data"));
    assert_eq!(env[1], ("SteamAppId", "440"));
    assert_eq!(env[2], ("SteamGameId", "440"));
}

#[test]
fn discover_propagates_listing_syntax_error() {
    let fs = snap(
        &["/S/steamapps"],
        vec![file("/S/steamapps/libraryfolders.vdf", "\"a\"\n{\n\"open", 1)],
    );
    match discover(&fs, "/S") {
        Err(ResolveError::Syntax(e)) => {
            assert_eq!(e.kind, ErrKind::UnterminatedString);
            assert_eq!(e.line, 3);
        },
        _ => panic!(),
    }
}

#[test]
fn syntax_error_reason_is_worded() {
    let e = parse("\"a\" \"unfinished").unwrap_err();
    assert_eq!(e.reason(), "unterminated quoted string");
    let e2 = parse("}").unwrap_err();
    assert_eq!(e2.reason(), "unmatched closing brace");
}

#[test]
fn comments_count_toward_line_numbers() {
    let e = parse("// one\n// two\n\"k\"\n").unwrap_err();
    assert_eq!(e.kind, ErrKind::MissingValue);
    assert_eq!(e.line, 4);
}
