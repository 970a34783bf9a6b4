//! The desktop app's changes to the configuration: saving and deleting
//! profiles, the default profile, session bindings and session tags, and
//! importing Codex's own profiles. Each change edits the configuration in
//! place and then validates the result; the caller keeps it only on `Ok`.
use vstd::prelude::*;

use crate::config::{config_error, dq, opt_seq, opt_str, Binding, BindingMode, Config, Profile};
use crate::outside::{debug_quote, json_parse, parse_json, parse_toml, toml_parse};
use crate::sessions::{normalize_session_tags, normalize_tags_spec, strings_view};
use crate::strmap::{
    has_key, key_index, keys_ascending, lemma_key_index_unique, lemma_upsert, lemma_without,
    lookup, upsert, without, StrMap,
};
use crate::doc::{doc_get, doc_str, opt_doc, table_get, Doc};
use crate::text::{str_eq, trim, trim_end_by, trim_end_pat, trim_str, Pat};

verus! {

/// The value of key `k` as text.
pub open spec fn str_lookup(s: Seq<(Seq<char>, String)>, k: Seq<char>) -> Option<Seq<char>> {
    opt_str(lookup(s, k))
}

/// `res` is the outcome of validating `c`.
pub open spec fn validated(c: Config, res: Result<(), String>) -> bool {
    match res {
        Ok(()) => config_error(c) is None,
        Err(e) => config_error(c) == Some(e@),
    }
}

/// `res` is the error `msg` and the configuration was left as it was.
pub open spec fn refused(o: Config, n: Config, res: Result<(), String>, msg: Seq<char>) -> bool {
    &&& n == o
    &&& res matches Err(e) && e@ == msg
}

/// The message for an unknown profile id.
pub open spec fn not_found_error(id: Seq<char>) -> Seq<char> {
    "配置档 "@ + dq(id) + " 不存在"@
}

fn not_found(profile_id: &str) -> (res: String)
    ensures
        res@ == not_found_error(profile_id@),
{
    let q = debug_quote(profile_id);
    String::from_str("配置档 ").concat(q.as_str()).concat(" 不存在")
}

// ---------------------------------------------------------------------------
// Saving a profile
// ---------------------------------------------------------------------------

/// The id and base URL of a profile form: trimmed, the URL without trailing
/// slashes, both required.
pub open spec fn profile_input_spec(id: Seq<char>, base_url: Seq<char>) -> Result<
    (Seq<char>, Seq<char>),
    Seq<char>,
> {
    let i = trim(id);
    let u = trim_end_by(trim(base_url), Pat::Exactly('/'));
    if i.len() == 0 {
        Err("配置档名称不能为空"@)
    } else if u.len() == 0 {
        Err("上游地址不能为空"@)
    } else {
        Ok((i, u))
    }
}

/// Checks a profile form's id and base URL.
pub fn profile_input(id: &str, base_url: &str) -> (res: Result<(String, String), String>)
    ensures
        match res {
            Ok((i, u)) => profile_input_spec(id@, base_url@) == Ok::<
                (Seq<char>, Seq<char>),
                Seq<char>,
            >((i@, u@)),
            Err(e) => profile_input_spec(id@, base_url@) == Err::<
                (Seq<char>, Seq<char>),
                Seq<char>,
            >(e@),
        },
{
    let i = trim_str(id);
    let t = trim_str(base_url);
    let u = trim_end_pat(t.as_str(), Pat::Exactly('/'));
    if i.as_str().is_empty() {
        return Err(String::from_str("配置档名称不能为空"));
    }
    if u.as_str().is_empty() {
        return Err(String::from_str("上游地址不能为空"));
    }
    Ok((i, u))
}

/// The headers that profile `i` of `c` has, none when there is no such profile.
pub open spec fn headers_of(c: Config, i: Seq<char>) -> Seq<(Seq<char>, String)> {
    match lookup(c.profiles@, i) {
        Some(p) => p.headers@,
        None => Seq::empty(),
    }
}

/// The headers a saved profile gets: the ones it had, with `authorization`
/// set to `Bearer <key>` when an API key is given (trimmed, not blank).
pub open spec fn saved_header(
    old_headers: Seq<(Seq<char>, String)>,
    api_key: Option<Seq<char>>,
    k: Seq<char>,
) -> Option<Seq<char>> {
    if api_key is Some && trim(api_key->0).len() > 0 && k == "authorization"@ {
        Some("Bearer "@ + trim(api_key->0))
    } else {
        str_lookup(old_headers, k)
    }
}

/// `n` is `o` with profile `i` saved with base URL `u` and the API key `key`.
pub open spec fn profile_saved(
    o: Config,
    n: Config,
    i: Seq<char>,
    u: Seq<char>,
    key: Option<Seq<char>>,
) -> bool {
    &&& lookup(n.profiles@, i) matches Some(p) && p.base_url@ == u && forall|k: Seq<char>|
        #[trigger] str_lookup(p.headers@, k) == saved_header(headers_of(o, i), key, k)
    &&& forall|k: Seq<char>| k != i ==> #[trigger] lookup(n.profiles@, k) == lookup(o.profiles@, k)
    &&& n.listen == o.listen && n.outbound_proxy == o.outbound_proxy
    &&& n.default_profile == o.default_profile && n.bindings == o.bindings
    &&& n.session_tags == o.session_tags
}

/// Saves a profile from the form (`id`, `base_url`, optional `api_key`),
/// keeping the other headers a profile of that id had, then validates.
pub fn save_profile(config: &mut Config, id: &str, base_url: &str, api_key: Option<&str>) -> (res:
    Result<(), String>)
    ensures
        match profile_input_spec(id@, base_url@) {
            Err(e) => refused(*old(config), *final(config), res, e),
            Ok((i, u)) => profile_saved(*old(config), *final(config), i, u, opt_seq(api_key))
                && validated(*final(config), res),
        },
{
    let (i, u) = match profile_input(id, base_url) {
        Ok(x) => x,
        Err(e) => return Err(e),
    };
    let ghost o = *config;
    let ghost iv = i@;
    let mut headers: StrMap<String> = match config.profiles.get(i.as_str()) {
        Some(p) => p.headers.clone(),
        None => StrMap::new(),
    };
    let ghost base = headers@;
    assert(base == headers_of(o, iv));
    match api_key {
        Some(k) => {
            let key = trim_str(k);
            if !key.as_str().is_empty() {
                let value = String::from_str("Bearer ").concat(key.as_str());
                headers.assert_ascending();
                proof {
                    lemma_upsert(base, "authorization"@, value);
                }
                headers.insert(String::from_str("authorization"), value);
            }
        },
        None => {},
    }
    config.profiles.assert_ascending();
    let ghost old_profiles = config.profiles@;
    let profile = Profile { base_url: u, headers };
    proof {
        lemma_upsert(old_profiles, iv, profile);
    }
    config.profiles.insert(i, profile);
    config.validate()
}

// ---------------------------------------------------------------------------
// Deleting a profile
// ---------------------------------------------------------------------------

/// A binding that is fixed to profile `id`.
pub open spec fn fixed_to(b: Binding, id: Seq<char>) -> bool {
    b.mode == BindingMode::Fixed && opt_str(b.profile) == Some(id)
}

/// The bindings `o` with those fixed to `id` dropped, as seen through `lookup`.
pub open spec fn kept_binding(o: Seq<(Seq<char>, Binding)>, id: Seq<char>, k: Seq<char>) -> Option<
    Binding,
> {
    match lookup(o, k) {
        Some(b) => if fixed_to(b, id) {
            None
        } else {
            Some(b)
        },
        None => None,
    }
}

/// `n` is `o` without profile `id`: the default moves to the first remaining
/// profile when it was `id`, and bindings fixed to `id` are dropped.
pub open spec fn profile_deleted(o: Config, n: Config, id: Seq<char>) -> bool {
    &&& n.profiles@ == without(o.profiles@, id)
    &&& n.default_profile@ == if o.default_profile@ == id {
        n.profiles@[0].0
    } else {
        o.default_profile@
    }
    &&& forall|k: Seq<char>| #[trigger] lookup(n.bindings@, k) == kept_binding(o.bindings@, id, k)
    &&& n.listen == o.listen && n.outbound_proxy == o.outbound_proxy
    &&& n.session_tags == o.session_tags
}

pub open spec fn last_profile_error() -> Seq<char> {
    "至少保留一个配置档，不能删除最后一个配置档"@
}

/// Some string of `v` is `k`.
pub open spec fn names_key(v: Seq<String>, k: Seq<char>) -> bool {
    exists|j: int| 0 <= j < v.len() && #[trigger] v[j]@ == k
}

/// Removes the bindings whose keys are listed in `doomed`.
fn remove_keys(bindings: &mut StrMap<Binding>, doomed: &Vec<String>)
    ensures
        forall|k: Seq<char>| #[trigger]
            lookup(final(bindings)@, k) == if names_key(doomed@, k) {
                None
            } else {
                lookup(old(bindings)@, k)
            },
{
    let ghost o = bindings@;
    let mut r: usize = 0;
    assert(doomed@.take(0) =~= Seq::<String>::empty());
    while r < doomed.len()
        invariant
            r <= doomed@.len(),
            forall|k: Seq<char>| #[trigger]
                lookup(bindings@, k) == if names_key(doomed@.take(r as int), k) {
                    None
                } else {
                    lookup(o, k)
                },
        decreases doomed@.len() - r,
    {
        let ghost before = bindings@;
        bindings.assert_ascending();
        proof {
            lemma_without(before, doomed@[r as int]@);
        }
        bindings.remove(doomed[r].as_str());
        let ghost t0 = doomed@.take(r as int);
        let ghost t1 = doomed@.take(r + 1);
        assert forall|k: Seq<char>| #[trigger]
            lookup(bindings@, k) == if names_key(t1, k) {
                None
            } else {
                lookup(o, k)
            } by {
            assert(lookup(before, k) == if names_key(t0, k) {
                None
            } else {
                lookup(o, k)
            });
            if k == doomed@[r as int]@ {
                assert(t1[r as int] == doomed@[r as int]);
            } else if names_key(t1, k) {
                let j = choose|j: int| 0 <= j < t1.len() && #[trigger] t1[j]@ == k;
                assert(t0[j] == t1[j]);
            } else if names_key(t0, k) {
                let j = choose|j: int| 0 <= j < t0.len() && #[trigger] t0[j]@ == k;
                assert(t0[j] == t1[j]);
            }
        }
        r = r + 1;
    }
    assert(doomed@.take(r as int) =~= doomed@);
}

/// The keys of the bindings fixed to profile `id`.
fn bindings_fixed_to(bindings: &StrMap<Binding>, id: &str) -> (res: Vec<String>)
    ensures
        forall|k: Seq<char>|
            #[trigger] names_key(res@, k) <==> (lookup(bindings@, k) matches Some(b) && fixed_to(
                b,
                id@,
            )),
{
    bindings.assert_ascending();
    let mut doomed: Vec<String> = Vec::new();
    let ghost mut src: Seq<int> = Seq::empty();
    let mut i: usize = 0;
    while i < bindings.len()
        invariant
            i <= bindings@.len(),
            keys_ascending(bindings@),
            src.len() == doomed@.len(),
            forall|j: int|
                0 <= j < doomed@.len() ==> 0 <= #[trigger] src[j] < i && bindings@[src[j]].0
                    == doomed@[j]@ && fixed_to(bindings@[src[j]].1, id@),
            forall|x: int|
                0 <= x < i && fixed_to(#[trigger] bindings@[x].1, id@) ==> names_key(
                    doomed@,
                    bindings@[x].0,
                ),
        decreases bindings@.len() - i,
    {
        let (sid, b) = bindings.entry(i);
        let hit = match &b.profile {
            Some(p) => b.mode == BindingMode::Fixed && str_eq(p.as_str(), id),
            None => false,
        };
        let ghost d0 = doomed@;
        if hit {
            doomed.push(sid.clone());
            proof {
                src = src.push(i as int);
            }
        }
        proof {
            assert forall|x: int|
                0 <= x < i + 1 && fixed_to(#[trigger] bindings@[x].1, id@) implies names_key(
                doomed@,
                bindings@[x].0,
            ) by {
                if x < i {
                    let j = choose|j: int| 0 <= j < d0.len() && #[trigger] d0[j]@ == bindings@[x].0;
                    assert(doomed@[j] == d0[j]);
                } else {
                    assert(doomed@[doomed@.len() - 1]@ == bindings@[x].0);
                }
            }
        }
        i = i + 1;
    }
    assert forall|k: Seq<char>|
        #[trigger] names_key(doomed@, k) <==> (lookup(bindings@, k) matches Some(b) && fixed_to(
            b,
            id@,
        )) by {
        if names_key(doomed@, k) {
            let j = choose|j: int| 0 <= j < doomed@.len() && #[trigger] doomed@[j]@ == k;
            lemma_key_index_unique(bindings@, src[j]);
        }
        if lookup(bindings@, k) matches Some(b) && fixed_to(b, id@) {
            let x = key_index(bindings@, k);
            assert(fixed_to(bindings@[x].1, id@));
        }
    }
    doomed
}

/// Deletes profile `profile_id`, then validates. The last profile cannot be
/// deleted; the default moves to the first remaining profile when it was the
/// deleted one; bindings fixed to it are dropped.
pub fn delete_profile(config: &mut Config, profile_id: &str) -> (res: Result<(), String>)
    ensures
        old(config).profiles@.len() <= 1 ==> refused(
            *old(config),
            *final(config),
            res,
            last_profile_error(),
        ),
        old(config).profiles@.len() > 1 && !has_key(old(config).profiles@, profile_id@)
            ==> refused(*old(config), *final(config), res, not_found_error(profile_id@)),
        old(config).profiles@.len() > 1 && has_key(old(config).profiles@, profile_id@)
            ==> profile_deleted(*old(config), *final(config), profile_id@) && validated(
            *final(config),
            res,
        ),
{
    if config.profiles.len() <= 1 {
        return Err(String::from_str("至少保留一个配置档，不能删除最后一个配置档"));
    }
    if !config.profiles.contains_key(profile_id) {
        return Err(not_found(profile_id));
    }
    let ghost o = *config;
    config.profiles.assert_ascending();
    proof {
        lemma_without(o.profiles@, profile_id@);
    }
    config.profiles.remove(profile_id);
    if str_eq(profile_id, config.default_profile.as_str()) {
        let (first, _) = config.profiles.entry(0);
        config.default_profile = first.clone();
    }
    let doomed = bindings_fixed_to(&config.bindings, profile_id);
    remove_keys(&mut config.bindings, &doomed);
    config.validate()
}

// ---------------------------------------------------------------------------
// Default profile, bindings and tags
// ---------------------------------------------------------------------------

/// Makes `profile_id` the global default, then validates.
pub fn set_default_profile(config: &mut Config, profile_id: &str) -> (res: Result<(), String>)
    ensures
        !has_key(old(config).profiles@, profile_id@) ==> refused(
            *old(config),
            *final(config),
            res,
            not_found_error(profile_id@),
        ),
        has_key(old(config).profiles@, profile_id@) ==> {
            &&& final(config).default_profile@ == profile_id@
            &&& final(config).listen == old(config).listen
            &&& final(config).outbound_proxy == old(config).outbound_proxy
            &&& final(config).profiles == old(config).profiles
            &&& final(config).bindings == old(config).bindings
            &&& final(config).session_tags == old(config).session_tags
            &&& validated(*final(config), res)
        },
{
    if !config.profiles.contains_key(profile_id) {
        return Err(not_found(profile_id));
    }
    config.default_profile = String::from_str(profile_id);
    config.validate()
}

pub open spec fn unknown_mode_error() -> Seq<char> {
    "未知的 Session 绑定模式"@
}

pub open spec fn fixed_needs_profile_error() -> Seq<char> {
    "固定模式需要配置档"@
}

/// The binding that the form (`mode`, `profile_id`) asks for against the
/// profiles `ps`, or why it cannot be made.
pub open spec fn binding_request(
    ps: Seq<(Seq<char>, Profile)>,
    mode: Seq<char>,
    profile_id: Option<Seq<char>>,
) -> Result<(BindingMode, Option<Seq<char>>), Seq<char>> {
    if mode == "global"@ {
        Ok((BindingMode::Global, None))
    } else if mode == "fixed"@ {
        match profile_id {
            None => Err(fixed_needs_profile_error()),
            Some(p) => if has_key(ps, p) {
                Ok((BindingMode::Fixed, Some(p)))
            } else {
                Err(not_found_error(p))
            },
        }
    } else {
        Err(unknown_mode_error())
    }
}

/// Binds session `session_id` globally or to a fixed profile, then validates.
pub fn set_session_binding(
    config: &mut Config,
    session_id: &str,
    mode: &str,
    profile_id: Option<&str>,
) -> (res: Result<(), String>)
    ensures
        match binding_request(old(config).profiles@, mode@, opt_seq(profile_id)) {
            Err(e) => refused(*old(config), *final(config), res, e),
            Ok((m, p)) => {
                &&& lookup(final(config).bindings@, session_id@) matches Some(b) && b.mode == m
                    && opt_str(b.profile) == p
                &&& forall|k: Seq<char>|
                    k != session_id@ ==> #[trigger] lookup(final(config).bindings@, k) == lookup(
                        old(config).bindings@,
                        k,
                    )
                &&& final(config).listen == old(config).listen
                &&& final(config).outbound_proxy == old(config).outbound_proxy
                &&& final(config).default_profile == old(config).default_profile
                &&& final(config).profiles == old(config).profiles
                &&& final(config).session_tags == old(config).session_tags
                &&& validated(*final(config), res)
            },
        },
{
    let binding = if str_eq(mode, "global") {
        Binding { mode: BindingMode::Global, profile: None }
    } else if str_eq(mode, "fixed") {
        match profile_id {
            None => return Err(String::from_str("固定模式需要配置档")),
            Some(p) => {
                if !config.profiles.contains_key(p) {
                    return Err(not_found(p));
                }
                Binding { mode: BindingMode::Fixed, profile: Some(String::from_str(p)) }
            },
        }
    } else {
        return Err(String::from_str("未知的 Session 绑定模式"));
    };
    config.bindings.assert_ascending();
    proof {
        lemma_upsert(config.bindings@, session_id@, binding);
    }
    config.bindings.insert(String::from_str(session_id), binding);
    config.validate()
}

pub open spec fn empty_session_id_error() -> Seq<char> {
    "Session ID 不能为空"@
}

/// The tags stored for a session after a change: the normalized tags, or
/// nothing when none are left.
pub open spec fn tags_after(normalized: Seq<Seq<char>>) -> Option<Seq<Seq<char>>> {
    if normalized.len() == 0 {
        None
    } else {
        Some(normalized)
    }
}

/// Sets the tags of session `session_id` (trimmed): normalized, and removed
/// when none are left; then validates.
pub fn set_session_tags(config: &mut Config, session_id: &str, tags: Vec<String>) -> (res: Result<
    (),
    String,
>)
    ensures
        trim(session_id@).len() == 0 ==> refused(
            *old(config),
            *final(config),
            res,
            empty_session_id_error(),
        ),
        trim(session_id@).len() > 0 ==> match normalize_tags_spec(strings_view(tags@)) {
            Err(e) => refused(*old(config), *final(config), res, e),
            Ok(t) => {
                &&& match lookup(final(config).session_tags@, trim(session_id@)) {
                    Some(v) => tags_after(t) == Some(strings_view(v@)),
                    None => tags_after(t) is None,
                }
                &&& forall|k: Seq<char>|
                    k != trim(session_id@) ==> #[trigger] lookup(final(config).session_tags@, k)
                        == lookup(old(config).session_tags@, k)
                &&& final(config).listen == old(config).listen
                &&& final(config).outbound_proxy == old(config).outbound_proxy
                &&& final(config).default_profile == old(config).default_profile
                &&& final(config).profiles == old(config).profiles
                &&& final(config).bindings == old(config).bindings
                &&& validated(*final(config), res)
            },
        },
{
    let sid = trim_str(session_id);
    if sid.as_str().is_empty() {
        return Err(String::from_str("Session ID 不能为空"));
    }
    let tags = match normalize_session_tags(tags) {
        Ok(t) => t,
        Err(e) => return Err(e),
    };
    config.session_tags.assert_ascending();
    if tags.len() == 0 {
        proof {
            lemma_without(config.session_tags@, sid@);
        }
        config.session_tags.remove(sid.as_str());
    } else {
        proof {
            lemma_upsert(config.session_tags@, sid@, tags);
        }
        config.session_tags.insert(sid, tags);
    }
    config.validate()
}

/// Deleting a profile from a valid configuration leaves no trace of it: the
/// profile is gone, the default names a profile that exists, and no binding
/// is fixed to the deleted profile.
pub proof fn lemma_deleted_profile_leaves_no_reference(o: Config, n: Config, id: Seq<char>)
    requires
        keys_ascending(o.profiles@),
        config_error(o) is None,
        o.profiles@.len() > 1,
        has_key(o.profiles@, id),
        profile_deleted(o, n, id),
    ensures
        !has_key(n.profiles@, id),
        has_key(n.profiles@, n.default_profile@),
        forall|k: Seq<char>| #[trigger] lookup(n.bindings@, k) matches Some(b) ==> !fixed_to(b, id),
{
    lemma_without(o.profiles@, id);
    let ps = n.profiles@;
    assert(lookup(ps, id) is None);
    if o.default_profile@ == id {
        assert(ps.len() > 0);
        assert(has_key(ps, ps[0].0));
        if ps[0].0 == id {
            assert(lookup(ps, ps[0].0) is Some) by {
                assert(ps[0].0 == ps[0].0);
            }
        }
    } else {
        assert(lookup(ps, o.default_profile@) == lookup(o.profiles@, o.default_profile@));
    }
}

/// When the deleted profile was the default, the new default is the first
/// remaining profile in key order: every other remaining id sorts after it.
pub proof fn lemma_deleted_default_moves_to_first(o: Config, n: Config, id: Seq<char>)
    requires
        keys_ascending(o.profiles@),
        o.profiles@.len() > 1,
        has_key(o.profiles@, id),
        o.default_profile@ == id,
        profile_deleted(o, n, id),
    ensures
        has_key(n.profiles@, n.default_profile@),
        forall|i: int|
            0 <= i < n.profiles@.len() ==> #[trigger] n.profiles@[i].0 == n.default_profile@
                || crate::strmap::key_lt(n.default_profile@, n.profiles@[i].0),
{
    lemma_without(o.profiles@, id);
    let ps = n.profiles@;
    assert(ps.len() > 0);
    assert(has_key(ps, ps[0].0));
    assert forall|i: int| 0 <= i < ps.len() implies #[trigger] ps[i].0 == n.default_profile@
        || crate::strmap::key_lt(n.default_profile@, ps[i].0) by {
        if i > 0 {
            assert(crate::strmap::key_lt(ps[0].0, ps[i].0));
        }
    }
}

// ---------------------------------------------------------------------------
// Importing Codex's profiles
// ---------------------------------------------------------------------------

/// The id that a profile file's name (without extension) gives: trimmed, not blank.
pub open spec fn profile_id_spec(stem: Option<Seq<char>>) -> Option<Seq<char>> {
    match stem {
        Some(s) => if trim(s).len() > 0 {
            Some(trim(s))
        } else {
            None
        },
        None => None,
    }
}

/// The id of the profile file at `path`, from its name without extension.
pub fn profile_id_from_stem(stem: Option<&str>, path: &str) -> (res: Result<String, String>)
    ensures
        match res {
            Ok(i) => profile_id_spec(opt_seq(stem)) == Some(i@),
            Err(e) => profile_id_spec(opt_seq(stem)) is None && e@ == "无法识别配置档文件 "@ + path@,
        },
{
    match stem {
        Some(s) => {
            let t = trim_str(s);
            if !t.as_str().is_empty() {
                return Ok(t);
            }
        },
        None => {},
    }
    Err(String::from_str("无法识别配置档文件 ").concat(path))
}

/// The provider a profile file describes: `OpenAI` when there is one, else the
/// first provider of the table.
pub open spec fn chosen_provider(es: Seq<(String, Doc)>) -> Option<Doc> {
    match table_get(es, "OpenAI"@) {
        Some(p) => Some(p),
        None => if es.len() > 0 {
            Some(es[0].1)
        } else {
            None
        },
    }
}

/// The base URL that a profile file's document `doc` gives, trimmed and
/// without trailing slashes, or the error naming the file `path`.
pub open spec fn profile_base_url_spec(doc: Doc, path: Seq<char>) -> Result<Seq<char>, Seq<char>> {
    match doc_get(doc, "model_providers"@) {
        Some(Doc::Table(es)) => match chosen_provider(es@) {
            Some(p) => match doc_str(doc_get(p, "base_url"@)) {
                Some(u) => if trim(u).len() > 0 {
                    Ok(trim_end_by(trim(u), Pat::Exactly('/')))
                } else {
                    Err("配置档 "@ + path + " 缺少 base_url"@)
                },
                None => Err("配置档 "@ + path + " 缺少 base_url"@),
            },
            None => Err("配置档 "@ + path + " 没有 provider"@),
        },
        _ => Err("配置档 "@ + path + " 缺少 model_providers"@),
    }
}

/// The base URL of the profile file `path`, whose parsed text is `doc`.
pub fn profile_base_url_from_doc(doc: &Doc, path: &str) -> (res: Result<String, String>)
    ensures
        match res {
            Ok(u) => profile_base_url_spec(*doc, path@) == Ok::<Seq<char>, Seq<char>>(u@),
            Err(e) => profile_base_url_spec(*doc, path@) == Err::<Seq<char>, Seq<char>>(e@),
        },
{
    let es = match doc.get("model_providers") {
        Some(Doc::Table(es)) => es,
        _ => {
            return Err(
                String::from_str("配置档 ").concat(path).concat(" 缺少 model_providers"),
            )
        },
    };
    let provider: &Doc = match table_lookup(es, "OpenAI") {
        Some(p) => p,
        None => {
            if es.len() == 0 {
                return Err(String::from_str("配置档 ").concat(path).concat(" 没有 provider"));
            }
            &es[0].1
        },
    };
    let url = match provider.get("base_url") {
        Some(v) => match v.as_str() {
            Some(u) => trim_str(u.as_str()),
            None => return Err(String::from_str("配置档 ").concat(path).concat(" 缺少 base_url")),
        },
        None => return Err(String::from_str("配置档 ").concat(path).concat(" 缺少 base_url")),
    };
    if url.as_str().is_empty() {
        return Err(String::from_str("配置档 ").concat(path).concat(" 缺少 base_url"));
    }
    Ok(trim_end_pat(url.as_str(), Pat::Exactly('/')))
}

/// The base URL of the profile file `path` with text `text`: the error of
/// the TOML parser, or what the parsed document gives.
pub fn parse_profile_base_url(path: &str, text: &str) -> (res: Result<String, String>)
    ensures
        match toml_parse(text@) {
            Err(m) => res matches Err(e) && e@ == "解析配置档 "@ + path@ + ": "@ + m,
            Ok(d) => match res {
                Ok(u) => profile_base_url_spec(d, path@) == Ok::<Seq<char>, Seq<char>>(u@),
                Err(e) => profile_base_url_spec(d, path@) == Err::<Seq<char>, Seq<char>>(e@),
            },
        },
{
    match parse_toml(text) {
        Ok(d) => profile_base_url_from_doc(&d, path),
        Err(m) => Err(String::from_str("解析配置档 ").concat(path).concat(": ").concat(m.as_str())),
    }
}

/// The first entry of the table `es` with key `key`.
fn table_lookup<'a>(es: &'a Vec<(String, Doc)>, key: &str) -> (res: Option<&'a Doc>)
    ensures
        match res {
            Some(v) => table_get(es@, key@) == Some(*v),
            None => table_get(es@, key@) is None,
        },
{
    let mut i: usize = 0;
    assert(es@.skip(0) =~= es@);
    while i < es.len()
        invariant
            i <= es@.len(),
            table_get(es@, key@) == table_get(es@.skip(i as int), key@),
        decreases es@.len() - i,
    {
        assert(es@.skip(i as int)[0] == es@[i as int]);
        if str_eq(es[i].0.as_str(), key) {
            return Some(&es[i].1);
        }
        assert(es@.skip(i as int).drop_first() =~= es@.skip(i + 1));
        i = i + 1;
    }
    None
}

/// The trimmed, non-blank text of member `k` of `d`.
pub open spec fn filled_member(d: Doc, k: Seq<char>) -> Option<Seq<char>> {
    match doc_str(doc_get(d, k)) {
        Some(s) => if trim(s).len() > 0 {
            Some(trim(s))
        } else {
            None
        },
        None => None,
    }
}

fn filled_member_of(d: &Doc, k: &str) -> (res: Option<String>)
    ensures
        opt_str(res) == filled_member(*d, k@),
{
    match d.get(k) {
        Some(v) => match v.as_str() {
            Some(s) => {
                let t = trim_str(s.as_str());
                if t.as_str().is_empty() {
                    None
                } else {
                    Some(t)
                }
            },
            None => None,
        },
        None => None,
    }
}

/// The header `k` that a Codex auth file's document gives a profile: an API
/// key becomes `authorization: Bearer <key>`; without one, the login tokens
/// give `authorization` from the access token and `chatgpt-account-id` from
/// the account id.
pub open spec fn auth_header_spec(auth: Option<Doc>, k: Seq<char>) -> Option<Seq<char>> {
    match auth {
        None => None,
        Some(d) => match filled_member(d, "OPENAI_API_KEY"@) {
            Some(key) => if k == "authorization"@ {
                Some("Bearer "@ + key)
            } else {
                None
            },
            None => match doc_get(d, "tokens"@) {
                Some(t) => if k == "authorization"@ {
                    match filled_member(t, "access_token"@) {
                        Some(a) => Some("Bearer "@ + a),
                        None => None,
                    }
                } else if k == "chatgpt-account-id"@ {
                    filled_member(t, "account_id"@)
                } else {
                    None
                },
                None => None,
            },
        },
    }
}

/// The headers that the auth file of a profile gives it; `auth` is the parsed
/// file, `None` where there is no such file.
pub fn auth_headers_from_doc(auth: Option<&Doc>) -> (res: StrMap<String>)
    ensures
        forall|k: Seq<char>| #[trigger] str_lookup(res@, k) == auth_header_spec(opt_doc(auth), k),
{
    let mut headers: StrMap<String> = StrMap::new();
    proof {
        reveal_strlit("authorization");
        reveal_strlit("chatgpt-account-id");
    }
    let d = match auth {
        Some(d) => d,
        None => return headers,
    };
    match filled_member_of(d, "OPENAI_API_KEY") {
        Some(key) => {
            let value = String::from_str("Bearer ").concat(key.as_str());
            proof {
                lemma_upsert(headers@, "authorization"@, value);
            }
            headers.insert(String::from_str("authorization"), value);
            return headers;
        },
        None => {},
    }
    let tokens = match d.get("tokens") {
        Some(t) => t,
        None => return headers,
    };
    match filled_member_of(tokens, "access_token") {
        Some(a) => {
            let value = String::from_str("Bearer ").concat(a.as_str());
            headers.assert_ascending();
            proof {
                lemma_upsert(headers@, "authorization"@, value);
            }
            headers.insert(String::from_str("authorization"), value);
        },
        None => {},
    }
    match filled_member_of(tokens, "account_id") {
        Some(a) => {
            headers.assert_ascending();
            proof {
                lemma_upsert(headers@, "chatgpt-account-id"@, a);
            }
            headers.insert(String::from_str("chatgpt-account-id"), a);
        },
        None => {},
    }
    headers
}

/// The headers that the auth file `path` gives a profile; `text` is the
/// file's text, `None` where there is no such file.
pub fn read_auth_headers(path: &str, text: Option<&str>) -> (res: Result<StrMap<String>, String>)
    ensures
        match text {
            None => res matches Ok(h) && h@.len() == 0,
            Some(t) => match json_parse(t@) {
                Err(m) => res matches Err(e) && e@ == "解析认证文件 "@ + path@ + ": "@ + m,
                Ok(d) => res matches Ok(h) && forall|k: Seq<char>| #[trigger] str_lookup(h@, k)
                    == auth_header_spec(Some(d), k),
            },
        },
{
    match text {
        None => {
            let h: StrMap<String> = StrMap::new();
            Ok(h)
        },
        Some(t) => match parse_json(t) {
            Ok(d) => Ok(auth_headers_from_doc(Some(&d))),
            Err(m) => Err(
                String::from_str("解析认证文件 ").concat(path).concat(": ").concat(m.as_str()),
            ),
        },
    }
}

/// The profiles `ps` after importing `fs` in order, later files replacing
/// earlier profiles of the same id.
pub open spec fn imported(ps: Seq<(Seq<char>, Profile)>, fs: Seq<(String, Profile)>) -> Seq<
    (Seq<char>, Profile),
>
    decreases fs.len(),
{
    if fs.len() == 0 {
        ps
    } else {
        upsert(imported(ps, fs.drop_last()), fs.last().0@, fs.last().1)
    }
}

/// The default profile after an import: the old one where it still exists,
/// else `sakura` where it exists, else the first profile.
pub open spec fn default_after_import(ps: Seq<(Seq<char>, Profile)>, old_default: Seq<char>) -> Seq<
    char,
> {
    if has_key(ps, old_default) {
        old_default
    } else if has_key(ps, "sakura"@) {
        "sakura"@
    } else {
        ps[0].0
    }
}

/// The profile that the last of the files `fs` with id `k` describes.
pub open spec fn last_found(fs: Seq<(String, Profile)>, k: Seq<char>) -> Option<Profile>
    decreases fs.len(),
{
    if fs.len() == 0 {
        None
    } else if fs.last().0@ == k {
        Some(fs.last().1)
    } else {
        last_found(fs.drop_last(), k)
    }
}

/// After an import, every imported id holds the profile of the last file with
/// that id, whether or not a profile of that id existed before; every other
/// profile is kept as it was.
pub proof fn lemma_import_replaces(ps: Seq<(Seq<char>, Profile)>, fs: Seq<(String, Profile)>)
    requires
        keys_ascending(ps),
    ensures
        forall|k: Seq<char>| #[trigger] lookup(imported(ps, fs), k) == match last_found(fs, k) {
            Some(p) => Some(p),
            None => lookup(ps, k),
        },
        fs.len() > 0 ==> lookup(imported(ps, fs), fs.last().0@) == Some(fs.last().1),
    decreases fs.len(),
{
    if fs.len() > 0 {
        lemma_import_replaces(ps, fs.drop_last());
        lemma_imported_ascending(ps, fs.drop_last());
        lemma_upsert(imported(ps, fs.drop_last()), fs.last().0@, fs.last().1);
        assert forall|k: Seq<char>| #[trigger] lookup(imported(ps, fs), k) == match last_found(
            fs,
            k,
        ) {
            Some(p) => Some(p),
            None => lookup(ps, k),
        } by {
            if k != fs.last().0@ {
                assert(lookup(imported(ps, fs), k) == lookup(imported(ps, fs.drop_last()), k));
                assert(last_found(fs, k) == last_found(fs.drop_last(), k));
            }
        }
    }
}

/// After an import, the default profile is the old one where it still
/// exists, else `sakura` where it exists, else the first profile in key
/// order; in every case it names an existing profile.
pub proof fn lemma_import_default(ps: Seq<(Seq<char>, Profile)>, fs: Seq<(String, Profile)>, old_default: Seq<char>)
    requires
        keys_ascending(ps),
        fs.len() > 0,
    ensures
        has_key(imported(ps, fs), default_after_import(imported(ps, fs), old_default)),
        has_key(imported(ps, fs), old_default) ==> default_after_import(imported(ps, fs), old_default)
            == old_default,
        !has_key(imported(ps, fs), old_default) && has_key(imported(ps, fs), "sakura"@)
            ==> default_after_import(imported(ps, fs), old_default) == "sakura"@,
        !has_key(imported(ps, fs), old_default) && !has_key(imported(ps, fs), "sakura"@)
            ==> forall|i: int|
            0 <= i < imported(ps, fs).len() ==> #[trigger] imported(ps, fs)[i].0
                == default_after_import(imported(ps, fs), old_default)
                || crate::strmap::key_lt(
                default_after_import(imported(ps, fs), old_default),
                imported(ps, fs)[i].0,
            ),
{
    lemma_imported_ascending(ps, fs);
    let qs = imported(ps, fs);
    assert(has_key(qs, qs[0].0));
    assert forall|i: int| 0 < i < qs.len() implies crate::strmap::key_lt(qs[0].0, #[trigger] qs[i].0) by {}
}

proof fn lemma_imported_ascending(ps: Seq<(Seq<char>, Profile)>, fs: Seq<(String, Profile)>)
    requires
        keys_ascending(ps),
    ensures
        keys_ascending(imported(ps, fs)),
        fs.len() > 0 ==> imported(ps, fs).len() > 0,
    decreases fs.len(),
{
    if fs.len() > 0 {
        lemma_imported_ascending(ps, fs.drop_last());
        lemma_upsert(imported(ps, fs.drop_last()), fs.last().0@, fs.last().1);
    }
}

/// Imports the profiles `found` (id and profile, in file order) into
/// `config`; `dir` names the directory they came from. Fixes the default
/// profile where it no longer exists, then validates. Gives the number of
/// profiles imported.
pub fn import_profiles(config: &mut Config, found: Vec<(String, Profile)>, dir: &str) -> (res:
    Result<usize, String>)
    ensures
        found@.len() == 0 ==> *final(config) == *old(config),
        found@.len() == 0 ==> (res matches Err(e) && e@ == "未找到可导入的配置档："@ + dir@),
        found@.len() > 0 ==> {
            &&& final(config).profiles@ == imported(old(config).profiles@, found@)
            &&& final(config).default_profile@ == default_after_import(
                final(config).profiles@,
                old(config).default_profile@,
            )
            &&& final(config).listen == old(config).listen
            &&& final(config).outbound_proxy == old(config).outbound_proxy
            &&& final(config).bindings == old(config).bindings
            &&& final(config).session_tags == old(config).session_tags
            &&& match res {
                Ok(n) => n == found@.len() && config_error(*final(config)) is None,
                Err(e) => config_error(*final(config)) == Some(e@),
            }
        },
{
    if found.len() == 0 {
        return Err(String::from_str("未找到可导入的配置档：").concat(dir));
    }
    config.profiles.assert_ascending();
    let ghost o = *config;
    let ghost all = found@;
    let count = found.len();
    let mut rest = found;
    let mut i: usize = 0;
    assert(all.take(0) =~= Seq::<(String, Profile)>::empty());
    assert(all.skip(0) =~= all);
    while rest.len() > 0
        invariant
            i <= all.len(),
            all.len() == count,
            rest@ == all.skip(i as int),
            config.profiles@ == imported(o.profiles@, all.take(i as int)),
            config.listen == o.listen,
            config.outbound_proxy == o.outbound_proxy,
            config.default_profile == o.default_profile,
            config.bindings == o.bindings,
            config.session_tags == o.session_tags,
        decreases rest@.len(),
    {
        let (id, profile) = rest.remove(0);
        assert(all.take(i + 1).drop_last() =~= all.take(i as int));
        assert(all.take(i + 1).last() == all[i as int]);
        assert(all.skip(i as int)[0] == all[i as int]);
        assert(all.skip(i as int).drop_first() =~= all.skip(i + 1));
        config.profiles.insert(id, profile);
        i = i + 1;
    }
    assert(all.take(i as int) =~= all);
    proof {
        lemma_imported_ascending(o.profiles@, all);
    }
    if !config.profiles.contains_key(config.default_profile.as_str()) {
        if config.profiles.contains_key("sakura") {
            config.default_profile = String::from_str("sakura");
        } else {
            let (first, _) = config.profiles.entry(0);
            config.default_profile = first.clone();
        }
    }
    match config.validate() {
        Ok(()) => Ok(count),
        Err(e) => Err(e),
    }
}

/// The configuration written when there is none yet: listen on
/// `127.0.0.1:8787`, one profile `sakura` for the OpenAI API, no bindings and
/// no tags.
pub fn default_config() -> (res: Config)
    ensures
        res.listen@ == "127.0.0.1:8787"@,
        res.outbound_proxy is None,
        res.default_profile@ == "sakura"@,
        res.profiles@.len() == 1,
        res.profiles@[0].0 == "sakura"@,
        res.profiles@[0].1.base_url@ == "https://api.openai.com/v1"@,
        res.profiles@[0].1.headers@.len() == 0,
        res.bindings@.len() == 0,
        res.session_tags@.len() == 0,
{
    let mut profiles: StrMap<Profile> = StrMap::new();
    let profile = Profile {
        base_url: String::from_str("https://api.openai.com/v1"),
        headers: StrMap::new(),
    };
    proof {
        lemma_upsert(profiles@, "sakura"@, profile);
    }
    profiles.insert(String::from_str("sakura"), profile);
    assert(!has_key(Seq::<(Seq<char>, Profile)>::empty(), "sakura"@));
    assert(profiles@ =~= seq![("sakura"@, profile)]);
    Config {
        listen: String::from_str("127.0.0.1:8787"),
        outbound_proxy: None,
        default_profile: String::from_str("sakura"),
        profiles,
        bindings: StrMap::new(),
        session_tags: StrMap::new(),
    }
}

} // verus!
