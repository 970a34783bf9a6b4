use codex_switch::config::{Binding, BindingMode, Config, Profile};
use codex_switch::dashboard::{build_dashboard, tray_labels};
use codex_switch::desktop::{
    default_config, delete_profile, import_profiles, parse_profile_base_url,
    profile_id_from_stem, read_auth_headers, save_profile, set_default_profile,
    set_session_binding, set_session_tags,
};
use codex_switch::sessions::ScannedSession;
use codex_switch::strmap::StrMap;

fn profile(base_url: &str) -> Profile {
    Profile { base_url: base_url.to_string(), headers: StrMap::new() }
}

fn two_profiles() -> Config {
    let mut c = default_config();
    c.profiles.insert("aihezu".to_string(), profile("https://aihezu.example/v1"));
    c
}

fn header(p: &Profile, name: &str) -> Option<String> {
    p.headers.get(name).cloned()
}

#[test]
fn default_configuration_is_valid() {
    let c = default_config();
    assert_eq!(c.listen, "127.0.0.1:8787");
    assert_eq!(c.default_profile, "sakura");
    assert_eq!(c.profiles.get("sakura").unwrap().base_url, "https://api.openai.com/v1");
    assert_eq!(c.validate(), Ok(()));
}

#[test]
fn saving_a_profile_trims_and_sets_the_api_key() {
    let mut c = default_config();
    assert_eq!(save_profile(&mut c, "  her ", " https://her.example/v1// ", Some("  key1 ")), Ok(()));
    let p = c.profiles.get("her").unwrap();
    assert_eq!(p.base_url, "https://her.example/v1");
    assert_eq!(header(p, "authorization").as_deref(), Some("Bearer key1"));

    assert_eq!(save_profile(&mut c, "her", "https://her2.example", Some("   ")), Ok(()));
    let p = c.profiles.get("her").unwrap();
    assert_eq!(p.base_url, "https://her2.example");
    assert_eq!(header(p, "authorization").as_deref(), Some("Bearer key1"));
}

#[test]
fn saving_a_profile_needs_an_id_and_a_url() {
    let mut c = default_config();
    assert_eq!(save_profile(&mut c, " ", "https://x", None), Err("配置档名称不能为空".to_string()));
    assert_eq!(save_profile(&mut c, "x", " // ", None), Err("上游地址不能为空".to_string()));
    assert!(c.profiles.get("x").is_none());
    assert_eq!(
        save_profile(&mut c, "x", "ftp://x", None),
        Err("profile \"x\" base_url must use http or https".to_string())
    );
}

#[test]
fn deleting_profiles() {
    let mut c = default_config();
    assert_eq!(
        delete_profile(&mut c, "sakura"),
        Err("至少保留一个配置档，不能删除最后一个配置档".to_string())
    );
    let mut c = two_profiles();
    assert_eq!(delete_profile(&mut c, "nope"), Err("配置档 \"nope\" 不存在".to_string()));
    c.bindings.insert(
        "s1".to_string(),
        Binding { mode: BindingMode::Fixed, profile: Some("sakura".to_string()) },
    );
    c.bindings.insert(
        "s2".to_string(),
        Binding { mode: BindingMode::Fixed, profile: Some("aihezu".to_string()) },
    );
    c.bindings.insert("s3".to_string(), Binding { mode: BindingMode::Global, profile: None });
    assert_eq!(delete_profile(&mut c, "sakura"), Ok(()));
    assert!(c.profiles.get("sakura").is_none());
    assert_eq!(c.default_profile, "aihezu");
    assert!(c.bindings.get("s1").is_none());
    assert!(c.bindings.get("s2").is_some());
    assert!(c.bindings.get("s3").is_some());
}

#[test]
fn default_profile_must_exist() {
    let mut c = two_profiles();
    assert_eq!(set_default_profile(&mut c, "aihezu"), Ok(()));
    assert_eq!(c.default_profile, "aihezu");
    assert_eq!(set_default_profile(&mut c, "zz"), Err("配置档 \"zz\" 不存在".to_string()));
    assert_eq!(c.default_profile, "aihezu");
}

#[test]
fn session_bindings() {
    let mut c = two_profiles();
    assert_eq!(
        set_session_binding(&mut c, "s", "sometimes", None),
        Err("未知的 Session 绑定模式".to_string())
    );
    assert_eq!(
        set_session_binding(&mut c, "s", "fixed", None),
        Err("固定模式需要配置档".to_string())
    );
    assert_eq!(
        set_session_binding(&mut c, "s", "fixed", Some("zz")),
        Err("配置档 \"zz\" 不存在".to_string())
    );
    assert_eq!(set_session_binding(&mut c, "s", "fixed", Some("aihezu")), Ok(()));
    let b = c.bindings.get("s").unwrap();
    assert_eq!(b.mode, BindingMode::Fixed);
    assert_eq!(b.profile.as_deref(), Some("aihezu"));
    assert_eq!(set_session_binding(&mut c, "s", "global", Some("aihezu")), Ok(()));
    let b = c.bindings.get("s").unwrap();
    assert_eq!(b.mode, BindingMode::Global);
    assert_eq!(b.profile, None);
}

#[test]
fn session_tags_are_stored_normalized_and_cleared_when_empty() {
    let mut c = default_config();
    assert_eq!(
        set_session_tags(&mut c, "  ", vec!["a".to_string()]),
        Err("Session ID 不能为空".to_string())
    );
    assert_eq!(
        set_session_tags(&mut c, " s ", vec![" x  y ".to_string(), "X Y".to_string()]),
        Ok(())
    );
    assert_eq!(c.session_tags.get("s").cloned(), Some(vec!["x y".to_string()]));
    assert_eq!(set_session_tags(&mut c, "s", vec!["  ".to_string()]), Ok(()));
    assert!(c.session_tags.get("s").is_none());
}

#[test]
fn profile_files_give_ids_and_base_urls() {
    assert_eq!(profile_id_from_stem(Some(" her "), "/p/her.toml"), Ok("her".to_string()));
    assert_eq!(
        profile_id_from_stem(Some("  "), "/p/ .toml"),
        Err("无法识别配置档文件 /p/ .toml".to_string())
    );
    assert_eq!(
        parse_profile_base_url("a.toml", "[model_providers.Other]\nbase_url = \" https://o.example/v1/ \"\n"),
        Ok("https://o.example/v1".to_string())
    );
    assert_eq!(
        parse_profile_base_url(
            "a.toml",
            "[model_providers.Aaa]\nbase_url = \"https://a\"\n[model_providers.OpenAI]\nbase_url = \"https://openai\"\n"
        ),
        Ok("https://openai".to_string())
    );
    assert_eq!(
        parse_profile_base_url("a.toml", "model = \"x\"\n"),
        Err("配置档 a.toml 缺少 model_providers".to_string())
    );
    assert_eq!(
        parse_profile_base_url("a.toml", "[model_providers]\n"),
        Err("配置档 a.toml 没有 provider".to_string())
    );
    assert_eq!(
        parse_profile_base_url("a.toml", "[model_providers.OpenAI]\nbase_url = \"  \"\n"),
        Err("配置档 a.toml 缺少 base_url".to_string())
    );
    let bad = parse_profile_base_url("a.toml", "[[[").unwrap_err();
    assert!(bad.starts_with("解析配置档 a.toml: "));
}

#[test]
fn auth_files_give_headers() {
    let h = read_auth_headers("a.json", Some(r#"{"OPENAI_API_KEY":" sk-1 ","tokens":{"account_id":"acc"}}"#))
        .unwrap();
    assert_eq!(h.get("authorization").cloned().as_deref(), Some("Bearer sk-1"));
    assert!(h.get("chatgpt-account-id").is_none());

    let h = read_auth_headers(
        "a.json",
        Some(r#"{"OPENAI_API_KEY":null,"tokens":{"access_token":"tok","account_id":" acc "}}"#),
    )
    .unwrap();
    assert_eq!(h.get("authorization").cloned().as_deref(), Some("Bearer tok"));
    assert_eq!(h.get("chatgpt-account-id").cloned().as_deref(), Some("acc"));

    assert_eq!(read_auth_headers("a.json", None).unwrap().len(), 0);
    assert_eq!(read_auth_headers("a.json", Some("{}")).unwrap().len(), 0);
    assert!(read_auth_headers("a.json", Some("{")).err().unwrap().starts_with("解析认证文件 a.json: "));
}

#[test]
fn importing_profiles() {
    let mut c = default_config();
    assert_eq!(
        import_profiles(&mut c, Vec::new(), "/home/u/.codex/config.profiles"),
        Err("未找到可导入的配置档：/home/u/.codex/config.profiles".to_string())
    );
    c.default_profile = "gone".to_string();
    let found = vec![
        ("b".to_string(), profile("https://b.example")),
        ("a".to_string(), profile("https://a.example")),
    ];
    assert_eq!(import_profiles(&mut c, found, "dir"), Ok(2));
    assert_eq!(c.default_profile, "sakura");
    assert_eq!(c.profiles.len(), 3);

    let mut c = default_config();
    c.profiles.remove("sakura");
    c.default_profile = "gone".to_string();
    let found = vec![("z".to_string(), profile("https://z.example")), ("m".to_string(), profile("https://m.example"))];
    assert_eq!(import_profiles(&mut c, found, "dir"), Ok(2));
    assert_eq!(c.default_profile, "m");
}

#[test]
fn dashboard_lists_profiles_and_sessions() {
    let mut c = two_profiles();
    let mut p = profile("https://key.example");
    p.headers.insert("X-API-Key".to_string(), "k".to_string());
    c.profiles.insert("keyed".to_string(), p);
    c.bindings.insert(
        "s1".to_string(),
        Binding { mode: BindingMode::Fixed, profile: Some("aihezu".to_string()) },
    );
    c.bindings.insert("s2".to_string(), Binding { mode: BindingMode::Global, profile: None });
    c.session_tags.insert("s1".to_string(), vec!["her".to_string()]);
    let sessions: Vec<ScannedSession> = ["s1", "s2", "s3"]
        .iter()
        .map(|id| ScannedSession {
            id: id.to_string(),
            title: format!("title {id}"),
            project_dir: "/p".to_string(),
            created_at: 1,
            last_active_at: 2,
            size_bytes: 3,
        })
        .collect();
    let d = build_dashboard(&c, sessions, true, Some("127.0.0.1:8787".to_string()), false);
    assert!(d.proxy_running);
    assert_eq!(d.listen.as_deref(), Some("127.0.0.1:8787"));
    assert_eq!(d.default_profile, "sakura");
    let ids: Vec<&str> = d.profiles.iter().map(|p| p.id.as_str()).collect();
    assert_eq!(ids, vec!["aihezu", "keyed", "sakura"]);
    assert!(d.profiles[2].is_default && !d.profiles[0].is_default);
    assert!(d.profiles[1].auth_configured && !d.profiles[0].auth_configured);
    assert_eq!(d.sessions[0].binding_mode, "fixed");
    assert_eq!(d.sessions[0].profile_id.as_deref(), Some("aihezu"));
    assert_eq!(d.sessions[0].tags, vec!["her".to_string()]);
    assert_eq!(d.sessions[1].binding_mode, "global");
    assert_eq!(d.sessions[2].binding_mode, "unbound");
    assert!(d.sessions[2].tags.is_empty());
}

#[test]
fn tray_labels_follow_the_state() {
    let l = tray_labels(false, false);
    assert_eq!(l.status, "状态：Proxy 已停止 · Codex 未接管");
    assert_eq!(l.proxy, "启动 Proxy");
    assert_eq!(l.takeover, "接管 Codex");
    assert!(!l.takeover_enabled);
    let l = tray_labels(true, true);
    assert_eq!(l.status, "状态：Proxy 运行中 · Codex 已接管");
    assert_eq!(l.proxy, "停止 Proxy");
    assert_eq!(l.takeover, "取消接管");
    assert!(l.takeover_enabled);
}
