use codex_switch::dashboard::{sort_sessions_by_activity, system_time_millis};
use codex_switch::doc::Doc;
use codex_switch::sessions::{
    collect_thread_titles, compact_text, fallback_title, configured_sqlite_home, extract_text,
    is_placeholder_title, json_is_subagent_source, looks_like_uuid, normalize_session_tags,
    parse_lines, parse_session_file, sqlite_home_in, stored_session_from_row, ScannedSession,
    StoredSession,
};
use codex_switch::strmap::StrMap;

fn doc(text: &str) -> Doc {
    let mut docs = parse_lines(&vec![text.to_string()]);
    assert_eq!(docs.len(), 1, "not JSON: {text}");
    docs.remove(0)
}

fn session(id: &str, last: u64) -> ScannedSession {
    ScannedSession {
        id: id.to_string(),
        title: String::new(),
        project_dir: String::new(),
        created_at: 0,
        last_active_at: last,
        size_bytes: 0,
    }
}

#[test]
fn subagent_sources_are_filtered() {
    assert!(json_is_subagent_source(&doc(r#"{"subagent": {"thread_spawn": {}}}"#)));
    assert!(json_is_subagent_source(&doc(r#""subagent""#)));
    assert!(!json_is_subagent_source(&doc(r#""cli""#)));
}

#[test]
fn subagent_sources_ignore_case_and_other_values() {
    assert!(json_is_subagent_source(&doc(r#""Exec-SubAgent""#)));
    assert!(!json_is_subagent_source(&doc(r#"{"cli": 1}"#)));
    assert!(!json_is_subagent_source(&doc("3")));
}

#[test]
fn session_tags_are_normalized_for_storage() {
    assert_eq!(
        normalize_session_tags(vec![
            "  her  ".to_string(),
            "HER".to_string(),
            "待   复盘".to_string(),
            String::new(),
        ])
        .unwrap(),
        vec!["her".to_string(), "待 复盘".to_string()]
    );
}

#[test]
fn session_tags_reject_too_many_and_too_long() {
    let many: Vec<String> = (0..21).map(|i| format!("t{i}")).collect();
    assert_eq!(
        normalize_session_tags(many),
        Err("每个 Session 最多设置 20 个标签".to_string())
    );
    assert_eq!(
        normalize_session_tags(vec!["x".repeat(41)]),
        Err("单个标签不能超过 40 个字符".to_string())
    );
    assert_eq!(
        normalize_session_tags(vec!["界".repeat(40)]).unwrap(),
        vec!["界".repeat(40)]
    );
}

#[test]
fn normalized_tags_normalize_to_themselves() {
    let once = normalize_session_tags(vec![" a  b ".to_string(), "A B".to_string(), "c".to_string()])
        .unwrap();
    assert_eq!(once, vec!["a b".to_string(), "c".to_string()]);
    assert_eq!(normalize_session_tags(once.clone()).unwrap(), once);
}

#[test]
fn compact_text_collapses_and_cuts() {
    assert_eq!(compact_text("  a \n\t b  ", 100), "a b");
    assert_eq!(compact_text("abcdef", 4), "abc…");
    assert_eq!(compact_text("abcd", 4), "abcd");
    assert_eq!(compact_text("abc", 0), "…");
}

#[test]
fn uuids_and_placeholder_titles() {
    assert!(looks_like_uuid("0196a7c4-1b2c-7d3e-8f90-a1b2c3d4e5f6"));
    assert!(looks_like_uuid("0196A7C4-1B2C-7D3E-8F90-A1B2C3D4E5F6-extra"));
    assert!(!looks_like_uuid("0196a7c4-1b2c-7d3e-8f90"));
    assert!(!looks_like_uuid("0196a7c4-1b2c-7d3e-8f90-a1b2c3d4e5fg"));
    assert!(is_placeholder_title("# AGENTS.md instructions for /repo"));
    assert!(is_placeholder_title("<INSTRUCTIONS> x"));
    assert!(is_placeholder_title("You are Codex, a coding agent"));
    assert!(is_placeholder_title("0196a7c4-1b2c-7d3e-8f90-a1b2c3d4e5f6 hello"));
    assert!(!is_placeholder_title("Fix the login bug"));
}

#[test]
fn extract_text_joins_nested_texts() {
    let content = doc(r#"[{"type":"input_text","text":"hello"},{"value":"world"},{"text":""},7]"#);
    assert_eq!(extract_text(&content), "hello world");
    assert_eq!(extract_text(&doc(r#""plain""#)), "plain");
    assert_eq!(extract_text(&doc("null")), "");
}

#[test]
fn parse_lines_skips_lines_that_are_not_json() {
    let docs = parse_lines(&vec!["{".to_string(), "{}".to_string(), "x".to_string(), "1".to_string()]);
    assert_eq!(docs.len(), 2);
}

#[test]
fn thread_titles_come_from_the_index() {
    let lines = parse_lines(&vec![
        r#"{"id":" a ","thread_name":"  First   title "}"#.to_string(),
        r#"{"id":"b","thread_name":""}"#.to_string(),
        r#"{"id":"a","thread_name":"Second"}"#.to_string(),
    ]);
    let titles = collect_thread_titles(&lines);
    assert_eq!(titles.get("a").map(|s| s.as_str()), Some("Second"));
    assert_eq!(titles.get("b"), None);
}

#[test]
fn stored_rows_clamp_times_and_detect_subagents() {
    let s = stored_session_from_row("  My   title ", Some(-5), None, "/w".to_string(), "Exec-SubAgent");
    assert_eq!(s.title, "My title");
    assert_eq!(s.created_at, 0);
    assert_eq!(s.last_active_at, 0);
    assert_eq!(s.project_dir, "/w");
    assert!(s.is_subagent);
    let t = stored_session_from_row("t", Some(12), Some(34), String::new(), "cli");
    assert_eq!((t.created_at, t.last_active_at, t.is_subagent), (12, 34, false));
}

#[test]
fn session_files_take_meta_and_first_user_message() {
    let lines = parse_lines(&vec![
        r#"{"type":"session_meta","payload":{"id":"abc","cwd":"/home/u/proj"}}"#.to_string(),
        r#"{"type":"response_item","payload":{"role":"user","content":[{"text":"Fix   it"}]}}"#.to_string(),
        r#"{"type":"response_item","payload":{"role":"user","content":"later"}}"#.to_string(),
    ]);
    let titles: StrMap<String> = StrMap::new();
    let stored: StrMap<StoredSession> = StrMap::new();
    let s = parse_session_file("file-stem".to_string(), 1, 2, 3, &lines, &titles, &stored).unwrap();
    assert_eq!(s.id, "abc");
    assert_eq!(s.title, "Fix it");
    assert_eq!(s.project_dir, "/home/u/proj");
    assert_eq!((s.created_at, s.last_active_at, s.size_bytes), (1, 2, 3));
}

#[test]
fn session_files_prefer_stored_threads_and_drop_subagents() {
    let lines = parse_lines(&vec![
        r#"{"type":"session_meta","payload":{"id":"abc","cwd":"/p"}}"#.to_string(),
    ]);
    let titles: StrMap<String> = StrMap::new();
    let mut stored: StrMap<StoredSession> = StrMap::new();
    stored.insert(
        "abc".to_string(),
        stored_session_from_row("Stored", Some(10), Some(20), String::new(), "cli"),
    );
    let s = parse_session_file("stem".to_string(), 1, 2, 3, &lines, &titles, &stored).unwrap();
    assert_eq!(s.title, "Stored");
    assert_eq!((s.created_at, s.last_active_at), (10, 20));
    assert_eq!(s.project_dir, "/p");

    let sub = parse_lines(&vec![
        r#"{"type":"session_meta","payload":{"id":"x","source":{"subagent":{}}}}"#.to_string(),
    ]);
    let empty: StrMap<StoredSession> = StrMap::new();
    assert!(parse_session_file("x".to_string(), 0, 0, 0, &sub, &titles, &empty).is_none());
}

#[test]
fn placeholder_titles_become_the_folder_name() {
    let lines = parse_lines(&vec![
        r#"{"type":"session_meta","payload":{"id":"abc","cwd":"/home/u/proj"}}"#.to_string(),
    ]);
    let titles: StrMap<String> = StrMap::new();
    let stored: StrMap<StoredSession> = StrMap::new();
    let s = parse_session_file("abc".to_string(), 0, 0, 0, &lines, &titles, &stored).unwrap();
    assert_eq!(s.title, "未命名 Session");

    let uuid_title = parse_lines(&vec![
        r#"{"type":"session_meta","payload":{"id":"abc","cwd":"/home/u/proj"}}"#.to_string(),
        r#"{"type":"response_item","payload":{"role":"user","content":"0196a7c4-1b2c-7d3e-8f90-a1b2c3d4e5f6"}}"#.to_string(),
    ]);
    let s = parse_session_file("abc".to_string(), 0, 0, 0, &uuid_title, &titles, &stored).unwrap();
    assert_eq!(s.title, "Codex Session · proj");
}

#[test]
fn sessions_sort_newest_first_keeping_ties_in_order() {
    let sorted = sort_sessions_by_activity(vec![
        session("a", 5),
        session("b", 9),
        session("c", 5),
        session("d", 1),
        session("e", 9),
    ]);
    let ids: Vec<&str> = sorted.iter().map(|s| s.id.as_str()).collect();
    assert_eq!(ids, vec!["b", "e", "a", "c", "d"]);
}

#[test]
fn system_times_are_cut_to_64_bits() {
    assert_eq!(system_time_millis(Some(1_700_000_000_123)), Some(1_700_000_000_123));
    assert_eq!(system_time_millis(Some((1u128 << 64) + 5)), Some(5));
    assert_eq!(system_time_millis(None), None);
}

#[test]
fn sqlite_home_is_read_from_codex_config() {
    assert_eq!(
        configured_sqlite_home("sqlite_home = \"~/data\"\n").as_deref(),
        Some("~/data")
    );
    assert_eq!(configured_sqlite_home("sqlite_home = 3\n"), None);
    assert_eq!(configured_sqlite_home("not toml ["), None);
}

#[test]
fn sqlite_home_is_read_from_a_parsed_config() {
    let parsed = parse_lines(&vec![r#"{"sqlite_home":"/data"}"#.to_string()]).remove(0);
    assert_eq!(sqlite_home_in(Ok(parsed)).as_deref(), Some("/data"));
    assert_eq!(sqlite_home_in(Err("bad".to_string())), None);
}

#[test]
fn fallback_titles_name_the_folder() {
    assert_eq!(fallback_title(Some("proj".to_string())), "Codex Session · proj");
    assert_eq!(fallback_title(Some(String::new())), "Codex Session · 当前项目");
    assert_eq!(fallback_title(None), "Codex Session · 当前项目");
}
