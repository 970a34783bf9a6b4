//! What the desktop window and the tray menu show: the profiles, the sessions
//! (newest activity first) with their bindings and tags, and the labels of the
//! tray's items.
use vstd::prelude::*;

use crate::config::{opt_str, BindingMode, Config};
use crate::sessions::{strings_view, ScannedSession};
use crate::strmap::lookup;
use crate::text::{eq_ignore_ascii_case, eq_ignore_case};

verus! {

/// One profile as the window lists it.
pub struct ProfileSummary {
    pub id: String,
    pub base_url: String,
    pub is_default: bool,
    pub auth_configured: bool,
}

/// One session as the window lists it.
pub struct SessionSummary {
    pub id: String,
    pub title: String,
    pub project_dir: String,
    pub created_at: u64,
    pub last_active_at: u64,
    pub size_bytes: u64,
    pub binding_mode: String,
    pub profile_id: Option<String>,
    pub tags: Vec<String>,
}

/// Everything the window shows.
pub struct Dashboard {
    pub proxy_running: bool,
    pub listen: Option<String>,
    pub codex_proxy_enabled: bool,
    pub default_profile: String,
    pub profiles: Vec<ProfileSummary>,
    pub sessions: Vec<SessionSummary>,
}

// ---------------------------------------------------------------------------
// Ordering the sessions
// ---------------------------------------------------------------------------

/// Sessions whose last activity is at `t`.
pub open spec fn active_at(t: u64) -> spec_fn(ScannedSession) -> bool {
    |s: ScannedSession| s.last_active_at == t
}

/// Newest activity first.
pub open spec fn newest_first(s: Seq<ScannedSession>) -> bool {
    forall|i: int, j: int|
        0 <= i < j < s.len() ==> #[trigger] s[i].last_active_at >= #[trigger] s[j].last_active_at
}

proof fn lemma_filter_none(s: Seq<ScannedSession>, p: spec_fn(ScannedSession) -> bool)
    requires
        forall|i: int| 0 <= i < s.len() ==> !p(#[trigger] s[i]),
    ensures
        s.filter(p) =~= Seq::<ScannedSession>::empty(),
    decreases s.len(),
{
    reveal(Seq::filter);
    if s.len() > 0 {
        lemma_filter_none(s.drop_last(), p);
        assert(!p(s[s.len() - 1]));
    }
}

proof fn lemma_filter_one(x: ScannedSession, p: spec_fn(ScannedSession) -> bool)
    ensures
        seq![x].filter(p) =~= if p(x) {
            seq![x]
        } else {
            Seq::<ScannedSession>::empty()
        },
{
    reveal_with_fuel(Seq::filter, 2);
    assert(seq![x].drop_last() =~= Seq::<ScannedSession>::empty());
}

/// Inserting `x` after every session at least as new and before every older
/// one adds `x` at the end of its own time's sessions and leaves every other
/// time's sessions alone.
proof fn lemma_filter_insert(r: Seq<ScannedSession>, p: int, x: ScannedSession, t: u64)
    requires
        0 <= p <= r.len(),
        forall|q: int| 0 <= q < p ==> #[trigger] r[q].last_active_at >= x.last_active_at,
        forall|q: int| p <= q < r.len() ==> #[trigger] r[q].last_active_at < x.last_active_at,
    ensures
        r.insert(p, x).filter(active_at(t)) == if t == x.last_active_at {
            r.filter(active_at(t)).push(x)
        } else {
            r.filter(active_at(t))
        },
{
    let f = active_at(t);
    let a = r.take(p);
    let b = r.skip(p);
    assert(r.insert(p, x) =~= a + seq![x] + b);
    assert(r =~= a + b);
    Seq::filter_distributes_over_add(a + seq![x], b, f);
    Seq::filter_distributes_over_add(a, seq![x], f);
    Seq::filter_distributes_over_add(a, b, f);
    lemma_filter_one(x, f);
    if t == x.last_active_at {
        assert forall|i: int| 0 <= i < b.len() implies !f(#[trigger] b[i]) by {
            assert(b[i] == r[p + i]);
        }
        lemma_filter_none(b, f);
        assert(a.filter(f) + seq![x] =~= a.filter(f).push(x));
    }
}

/// The sessions ordered by last activity, newest first; sessions of the same
/// time keep their order.
pub fn sort_sessions_by_activity(sessions: Vec<ScannedSession>) -> (res: Vec<ScannedSession>)
    ensures
        newest_first(res@),
        forall|t: u64| #[trigger] res@.filter(active_at(t)) == sessions@.filter(active_at(t)),
{
    let ghost all = sessions@;
    let mut rest = sessions;
    let mut out: Vec<ScannedSession> = Vec::new();
    let ghost mut i: int = 0;
    assert(all.skip(0) =~= all);
    proof {
        reveal(Seq::filter);
        assert forall|t: u64| #[trigger] out@.filter(active_at(t)) == all.take(0).filter(
            active_at(t),
        ) by {
            assert(all.take(0) =~= Seq::<ScannedSession>::empty());
            assert(out@ =~= Seq::<ScannedSession>::empty());
        }
    }
    while rest.len() > 0
        invariant
            0 <= i <= all.len(),
            rest@ == all.skip(i),
            newest_first(out@),
            forall|t: u64| #[trigger] out@.filter(active_at(t)) == all.take(i).filter(active_at(t)),
        decreases rest@.len(),
    {
        let x = rest.remove(0);
        assert(all.skip(i)[0] == all[i]);
        assert(all.skip(i).drop_first() =~= all.skip(i + 1));
        let mut p: usize = 0;
        while p < out.len() && out[p].last_active_at >= x.last_active_at
            invariant
                p <= out@.len(),
                newest_first(out@),
                forall|q: int| 0 <= q < p ==> #[trigger] out@[q].last_active_at >= x.last_active_at,
            decreases out@.len() - p,
        {
            p = p + 1;
        }
        let ghost before = out@;
        proof {
            assert forall|q: int| p <= q < before.len() implies #[trigger] before[q].last_active_at
                < x.last_active_at by {
                if q > p {
                    assert(before[p as int].last_active_at >= before[q].last_active_at);
                }
            }
            assert forall|t: u64| #[trigger] before.insert(p as int, x).filter(active_at(t))
                == all.take(i + 1).filter(active_at(t)) by {
                lemma_filter_insert(before, p as int, x, t);
                assert(all.take(i + 1) =~= all.take(i) + seq![x]);
                Seq::filter_distributes_over_add(all.take(i), seq![x], active_at(t));
                lemma_filter_one(x, active_at(t));
                assert(all.take(i).filter(active_at(t)) + seq![x] =~= all.take(i).filter(
                    active_at(t),
                ).push(x));
                assert(all.take(i).filter(active_at(t)) + Seq::<ScannedSession>::empty()
                    =~= all.take(i).filter(active_at(t)));
            }
        }
        out.insert(p, x);
        proof {
            assert(out@ == before.insert(p as int, x));
            assert forall|a: int, b: int| 0 <= a < b < out@.len() implies #[trigger] out@[a].last_active_at
                >= #[trigger] out@[b].last_active_at by {
                if b < p {
                    assert(out@[a] == before[a] && out@[b] == before[b]);
                } else if b == p {
                    assert(out@[a] == before[a]);
                } else if a < p {
                    assert(out@[a] == before[a] && out@[b] == before[b - 1]);
                } else if a == p {
                    assert(out@[b] == before[b - 1]);
                } else {
                    assert(out@[a] == before[a - 1] && out@[b] == before[b - 1]);
                }
            }
            i = i + 1;
        }
    }
    assert(all.take(i) =~= all);
    out
}

// ---------------------------------------------------------------------------
// The dashboard
// ---------------------------------------------------------------------------

/// A header that carries credentials: `authorization`, `x-api-key` or
/// `chatgpt-account-id`, in any ASCII case.
pub open spec fn credential_header(name: Seq<char>) -> bool {
    ||| eq_ignore_case(name, "authorization"@)
    ||| eq_ignore_case(name, "x-api-key"@)
    ||| eq_ignore_case(name, "chatgpt-account-id"@)
}

/// Some header of `hs` carries credentials.
pub open spec fn has_credentials(hs: Seq<(Seq<char>, String)>) -> bool {
    exists|i: int| 0 <= i < hs.len() && credential_header(#[trigger] hs[i].0)
}

fn has_credentials_of(hs: &crate::strmap::StrMap<String>) -> (res: bool)
    ensures
        res == has_credentials(hs@),
{
    let mut i: usize = 0;
    while i < hs.len()
        invariant
            i <= hs@.len(),
            forall|k: int| 0 <= k < i ==> !credential_header(#[trigger] hs@[k].0),
        decreases hs@.len() - i,
    {
        let (name, _) = hs.entry(i);
        if eq_ignore_ascii_case(name.as_str(), "authorization") || eq_ignore_ascii_case(
            name.as_str(),
            "x-api-key",
        ) || eq_ignore_ascii_case(name.as_str(), "chatgpt-account-id") {
            return true;
        }
        i = i + 1;
    }
    false
}

/// A profile is shown as auth-configured exactly when one of its headers is
/// `authorization`, `x-api-key` or `chatgpt-account-id`, in any ASCII case.
pub proof fn lemma_auth_configured(c: Config, i: int, p: ProfileSummary)
    requires
        0 <= i < c.profiles@.len(),
        profile_shown(c, i, p),
    ensures
        p.auth_configured <==> exists|j: int|
            0 <= j < c.profiles@[i].1.headers@.len() && {
                let n = #[trigger] c.profiles@[i].1.headers@[j].0;
                eq_ignore_case(n, "authorization"@) || eq_ignore_case(n, "x-api-key"@)
                    || eq_ignore_case(n, "chatgpt-account-id"@)
            },
{
}

/// How session `id` is bound in `c`: `fixed` with its profile, `global`, or
/// `unbound` when it has no binding.
pub open spec fn binding_shown(c: Config, id: Seq<char>) -> (Seq<char>, Option<Seq<char>>) {
    match lookup(c.bindings@, id) {
        Some(b) => if b.mode == BindingMode::Fixed {
            ("fixed"@, opt_str(b.profile))
        } else {
            ("global"@, None)
        },
        None => ("unbound"@, None),
    }
}

/// The tags shown for session `id`: its stored tags, none when it has none.
pub open spec fn tags_shown(c: Config, id: Seq<char>) -> Seq<Seq<char>> {
    match lookup(c.session_tags@, id) {
        Some(v) => strings_view(v@),
        None => Seq::empty(),
    }
}

/// `p` summarizes entry `i` of the profiles of `c`.
pub open spec fn profile_shown(c: Config, i: int, p: ProfileSummary) -> bool {
    &&& p.id@ == c.profiles@[i].0
    &&& p.base_url@ == c.profiles@[i].1.base_url@
    &&& p.is_default == (c.profiles@[i].0 == c.default_profile@)
    &&& p.auth_configured == has_credentials(c.profiles@[i].1.headers@)
}

/// `v` summarizes session `s` under the configuration `c`.
pub open spec fn session_shown(c: Config, s: ScannedSession, v: SessionSummary) -> bool {
    &&& v.id@ == s.id@ && v.title@ == s.title@ && v.project_dir@ == s.project_dir@
    &&& v.created_at == s.created_at && v.last_active_at == s.last_active_at
    &&& v.size_bytes == s.size_bytes
    &&& (v.binding_mode@, opt_str(v.profile_id)) == binding_shown(c, s.id@)
    &&& strings_view(v.tags@) == tags_shown(c, s.id@)
}

fn profile_summaries(config: &Config) -> (res: Vec<ProfileSummary>)
    ensures
        res@.len() == config.profiles@.len(),
        forall|i: int| 0 <= i < res@.len() ==> profile_shown(*config, i, #[trigger] res@[i]),
{
    let mut out: Vec<ProfileSummary> = Vec::new();
    let mut i: usize = 0;
    while i < config.profiles.len()
        invariant
            i <= config.profiles@.len(),
            out@.len() == i,
            forall|k: int| 0 <= k < i ==> profile_shown(*config, k, #[trigger] out@[k]),
        decreases config.profiles@.len() - i,
    {
        let (id, profile) = config.profiles.entry(i);
        let is_default = crate::text::str_eq(id.as_str(), config.default_profile.as_str());
        let auth_configured = has_credentials_of(&profile.headers);
        out.push(
            ProfileSummary {
                id: id.clone(),
                base_url: profile.base_url.clone(),
                is_default,
                auth_configured,
            },
        );
        i = i + 1;
    }
    out
}

fn session_summary(config: &Config, s: ScannedSession) -> (res: SessionSummary)
    ensures
        session_shown(*config, s, res),
{
    let (binding_mode, profile_id) = match config.bindings.get(s.id.as_str()) {
        Some(b) => {
            if b.mode == BindingMode::Fixed {
                let p = match &b.profile {
                    Some(p) => Some(p.clone()),
                    None => None,
                };
                (String::from_str("fixed"), p)
            } else {
                (String::from_str("global"), None)
            }
        },
        None => (String::from_str("unbound"), None),
    };
    let tags: Vec<String> = match config.session_tags.get(s.id.as_str()) {
        Some(v) => {
            let c = v.clone();
            assert(strings_view(c@) =~= strings_view(v@)) by {
                assert forall|k: int| 0 <= k < c@.len() implies #[trigger] c@[k] == v@[k] by {
                    assert(cloned::<String>(v@[k], c@[k]));
                }
            }
            c
        },
        None => {
            let e: Vec<String> = Vec::new();
            assert(strings_view(e@) =~= Seq::<Seq<char>>::empty());
            e
        },
    };
    SessionSummary {
        id: s.id,
        title: s.title,
        project_dir: s.project_dir,
        created_at: s.created_at,
        last_active_at: s.last_active_at,
        size_bytes: s.size_bytes,
        binding_mode,
        profile_id,
        tags,
    }
}

/// The dashboard for `config` and the scanned `sessions` (already in the
/// order to show), with the proxy's state and whether Codex is taken over.
pub fn build_dashboard(
    config: &Config,
    sessions: Vec<ScannedSession>,
    proxy_running: bool,
    listen: Option<String>,
    codex_proxy_enabled: bool,
) -> (res: Dashboard)
    ensures
        res.proxy_running == proxy_running,
        res.listen == listen,
        res.codex_proxy_enabled == codex_proxy_enabled,
        res.default_profile@ == config.default_profile@,
        res.profiles@.len() == config.profiles@.len(),
        forall|i: int| 0 <= i < res.profiles@.len() ==> profile_shown(*config, i, #[trigger] res.profiles@[i]),
        res.sessions@.len() == sessions@.len(),
        forall|i: int|
            0 <= i < res.sessions@.len() ==> session_shown(*config, sessions@[i], #[trigger] res.sessions@[i]),
{
    let profiles = profile_summaries(config);
    let ghost all = sessions@;
    let mut rest = sessions;
    let mut shown: Vec<SessionSummary> = Vec::new();
    let ghost mut i: int = 0;
    assert(all.skip(0) =~= all);
    while rest.len() > 0
        invariant
            0 <= i <= all.len(),
            rest@ == all.skip(i),
            shown@.len() == i,
            forall|k: int| 0 <= k < i ==> session_shown(*config, all[k], #[trigger] shown@[k]),
        decreases rest@.len(),
    {
        let s = rest.remove(0);
        assert(all.skip(i)[0] == all[i]);
        assert(all.skip(i).drop_first() =~= all.skip(i + 1));
        let v = session_summary(config, s);
        shown.push(v);
        proof {
            i = i + 1;
        }
    }
    Dashboard {
        proxy_running,
        listen,
        codex_proxy_enabled,
        default_profile: config.default_profile.clone(),
        profiles,
        sessions: shown,
    }
}

// ---------------------------------------------------------------------------
// The tray menu
// ---------------------------------------------------------------------------

/// The texts of the tray menu's items.
pub struct TrayLabels {
    pub status: String,
    pub proxy: String,
    pub takeover: String,
    /// Whether the takeover item can be chosen.
    pub takeover_enabled: bool,
}

/// The tray labels for a proxy that runs or not and a Codex that is taken
/// over or not.
pub fn tray_labels(proxy_running: bool, taken_over: bool) -> (res: TrayLabels)
    ensures
        res.status@ == "状态：Proxy "@ + (if proxy_running {
            "运行中"@
        } else {
            "已停止"@
        }) + " · Codex "@ + (if taken_over {
            "已接管"@
        } else {
            "未接管"@
        }),
        res.proxy@ == if proxy_running {
            "停止 Proxy"@
        } else {
            "启动 Proxy"@
        },
        res.takeover@ == if taken_over {
            "取消接管"@
        } else {
            "接管 Codex"@
        },
        res.takeover_enabled == (proxy_running || taken_over),
{
    let running = if proxy_running {
        "运行中"
    } else {
        "已停止"
    };
    let taken = if taken_over {
        "已接管"
    } else {
        "未接管"
    };
    let status = String::from_str("状态：Proxy ").concat(running).concat(" · Codex ").concat(taken);
    let proxy = if proxy_running {
        String::from_str("停止 Proxy")
    } else {
        String::from_str("启动 Proxy")
    };
    let takeover = if taken_over {
        String::from_str("取消接管")
    } else {
        String::from_str("接管 Codex")
    };
    TrayLabels { status, proxy, takeover, takeover_enabled: proxy_running || taken_over }
}

/// Milliseconds since the Unix epoch as the dashboard stores them: the
/// duration's milliseconds cut to 64 bits; nothing for a time before the epoch.
pub fn system_time_millis(since_epoch_millis: Option<u128>) -> (res: Option<u64>)
    ensures
        res == match since_epoch_millis {
            Some(m) => Some(m as u64),
            None => None::<u64>,
        },
{
    match since_epoch_millis {
        Some(m) => Some(m as u64),
        None => None,
    }
}

} // verus!
