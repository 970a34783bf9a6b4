//! The proxy's configuration: upstream profiles, session bindings and session
//! tags; its validation, and the routing of a session to a profile.
use vstd::prelude::*;

use crate::outside::{
    debug_quote, debug_quoted, header_name_from_str, header_name_ok, header_value_from_str,
    header_value_ok, parse_url_scheme, proxy_error, proxy_url_accepted, socket_addr_error,
    socket_addr_parse_error, url_parse_scheme,
};
use crate::strmap::{has_key, key_index, lookup, StrMap};
use crate::text::{
    contains, eq_ignore_ascii_case, eq_ignore_case, has_infix, str_eq, trim, trim_end_by,
    trim_end_pat, trim_str, Pat,
};

verus! {

/// Whether a session follows the global default profile or is fixed to one.
#[derive(Clone, Copy, Debug, PartialEq, Eq, Structural)]
pub enum BindingMode {
    Global,
    Fixed,
}

/// Where a request's session id was found.
#[derive(Clone, Copy, Debug, PartialEq, Eq, Structural)]
pub enum SessionIdSource {
    Header,
    TurnMetadataThreadId,
    Body,
    NotFound,
}

/// An upstream: its base URL and the headers sent to it.
pub struct Profile {
    pub base_url: String,
    pub headers: StrMap<String>,
}

/// How one session is routed.
pub struct Binding {
    pub mode: BindingMode,
    pub profile: Option<String>,
}

/// The whole configuration, as the config file holds it.
pub struct Config {
    pub listen: String,
    pub outbound_proxy: Option<String>,
    pub default_profile: String,
    pub profiles: StrMap<Profile>,
    pub bindings: StrMap<Binding>,
    pub session_tags: StrMap<Vec<String>>,
}

impl Clone for Profile {
    fn clone(&self) -> (res: Self)
        ensures
            res.base_url@ == self.base_url@,
            res.headers@ == self.headers@,
    {
        let headers = self.headers.clone();
        assert(headers@ =~= self.headers@);
        Profile { base_url: self.base_url.clone(), headers }
    }
}

impl Clone for Binding {
    fn clone(&self) -> (res: Self)
        ensures
            res.mode == self.mode,
            opt_str(res.profile) == opt_str(self.profile),
    {
        let profile = match &self.profile {
            Some(p) => Some(p.clone()),
            None => None,
        };
        Binding { mode: self.mode, profile }
    }
}

/// The characters of an optional string.
pub open spec fn opt_str(s: Option<String>) -> Option<Seq<char>> {
    match s {
        Some(x) => Some(x@),
        None => None,
    }
}

// ---------------------------------------------------------------------------
// Messages
// ---------------------------------------------------------------------------

pub open spec fn dq(s: Seq<char>) -> Seq<char> {
    debug_quoted(s)
}

fn quote(s: &str) -> (res: String)
    ensures
        res@ == dq(s@),
{
    debug_quote(s)
}

fn cat2(a: &str, b: &str) -> (res: String)
    ensures
        res@ == a@ + b@,
{
    String::from_str(a).concat(b)
}

fn cat3(a: &str, b: &str, c: &str) -> (res: String)
    ensures
        res@ == a@ + b@ + c@,
{
    String::from_str(a).concat(b).concat(c)
}

fn cat5(a: &str, b: &str, c: &str, d: &str, e: &str) -> (res: String)
    ensures
        res@ == a@ + b@ + c@ + d@ + e@,
{
    String::from_str(a).concat(b).concat(c).concat(d).concat(e)
}

// ---------------------------------------------------------------------------
// Validation
// ---------------------------------------------------------------------------

/// The trimmed outbound proxy address, where it is set and not blank.
pub open spec fn outbound_proxy_spec(c: Config) -> Option<Seq<char>> {
    match c.outbound_proxy {
        Some(p) => if trim(p@).len() > 0 {
            Some(trim(p@))
        } else {
            None
        },
        None => None,
    }
}

/// Name of the first header (in order) whose name `http` refuses.
pub open spec fn first_bad_header_name(hs: Seq<(Seq<char>, String)>) -> Option<Seq<char>>
    decreases hs.len(),
{
    if hs.len() == 0 {
        None
    } else if !header_name_ok(hs[0].0) {
        Some(hs[0].0)
    } else {
        first_bad_header_name(hs.drop_first())
    }
}

/// Name of the first header (in order) whose value `http` refuses.
pub open spec fn first_bad_header_value(hs: Seq<(Seq<char>, String)>) -> Option<Seq<char>>
    decreases hs.len(),
{
    if hs.len() == 0 {
        None
    } else if !header_value_ok(hs[0].1@) {
        Some(hs[0].0)
    } else {
        first_bad_header_value(hs.drop_first())
    }
}

/// The base URL without its trailing slashes, as the proxy uses it.
pub open spec fn upstream_base(p: Profile) -> Seq<char> {
    trim_end_by(p.base_url@, Pat::Exactly('/'))
}

/// The characters of a `Result` of strings.
pub open spec fn result_str(r: Result<String, String>) -> Result<Seq<char>, Seq<char>> {
    match r {
        Ok(s) => Ok(s@),
        Err(e) => Err(e@),
    }
}

/// Why profile `id` is invalid, if it is, where parsing its base URL gave
/// `scheme`: the URL's scheme or the parser's error.
pub open spec fn profile_error_with(
    id: Seq<char>,
    p: Profile,
    scheme: Result<Seq<char>, Seq<char>>,
) -> Option<Seq<char>> {
    match scheme {
        Err(e) => Some("profile "@ + dq(id) + " has invalid base_url: "@ + e),
        Ok(scheme) => if scheme != "http"@ && scheme != "https"@ {
            Some("profile "@ + dq(id) + " base_url must use http or https"@)
        } else {
            match first_bad_header_name(p.headers@) {
                Some(n) => Some(
                    "profile "@ + dq(id) + " has invalid header "@ + dq(n)
                        + ": "@ + "invalid HTTP header name"@,
                ),
                None => match first_bad_header_value(p.headers@) {
                    Some(n) => Some(
                        "profile "@ + dq(id) + " has invalid value for header "@ + dq(n)
                            + ": "@ + "failed to parse header value"@,
                    ),
                    None => None,
                },
            }
        },
    }
}

/// Why profile `id` is invalid, if it is.
pub open spec fn profile_error(id: Seq<char>, p: Profile) -> Option<Seq<char>> {
    profile_error_with(id, p, url_parse_scheme(upstream_base(p)))
}

/// The error of the first invalid profile, in key order.
pub open spec fn first_profile_error(ps: Seq<(Seq<char>, Profile)>) -> Option<Seq<char>>
    decreases ps.len(),
{
    if ps.len() == 0 {
        None
    } else if profile_error(ps[0].0, ps[0].1) is Some {
        profile_error(ps[0].0, ps[0].1)
    } else {
        first_profile_error(ps.drop_first())
    }
}

/// Why the binding of session `sid` is invalid against the profiles `ps`, if it is.
pub open spec fn binding_error(
    sid: Seq<char>,
    b: Binding,
    ps: Seq<(Seq<char>, Profile)>,
) -> Option<Seq<char>> {
    if b.mode == BindingMode::Fixed {
        match b.profile {
            None => Some("fixed binding for session "@ + dq(sid) + " requires a profile"@),
            Some(p) => if !has_key(ps, p@) {
                Some(
                    "binding for session "@ + dq(sid) + " references unknown profile "@ + dq(p@),
                )
            } else {
                None
            },
        }
    } else {
        None
    }
}

/// The error of the first invalid binding, in key order.
pub open spec fn first_binding_error(
    bs: Seq<(Seq<char>, Binding)>,
    ps: Seq<(Seq<char>, Profile)>,
) -> Option<Seq<char>>
    decreases bs.len(),
{
    if bs.len() == 0 {
        None
    } else if binding_error(bs[0].0, bs[0].1, ps) is Some {
        binding_error(bs[0].0, bs[0].1, ps)
    } else {
        first_binding_error(bs.drop_first(), ps)
    }
}

/// The first thing wrong with `c`, in the order the checks are made; `None`
/// when the configuration is valid.
pub open spec fn config_error(c: Config) -> Option<Seq<char>> {
    if trim(c.listen@).len() == 0 {
        Some("listen must not be empty"@)
    } else if outbound_proxy_spec(c) is Some && !proxy_url_accepted(outbound_proxy_spec(c)->0) {
        Some("outbound_proxy is invalid: "@ + "builder error"@)
    } else if !has_key(c.profiles@, c.default_profile@) {
        Some("default profile "@ + dq(c.default_profile@) + " is not configured"@)
    } else if first_profile_error(c.profiles@) is Some {
        first_profile_error(c.profiles@)
    } else if first_binding_error(c.bindings@, c.profiles@) is Some {
        first_binding_error(c.bindings@, c.profiles@)
    } else if socket_addr_error(c.listen@) is Some {
        Some("listen must be a socket address: "@ + socket_addr_error(c.listen@)->0)
    } else {
        None
    }
}

/// The outbound proxy that requests go through: the configured address,
/// trimmed, unless it is blank.
pub fn outbound_proxy_url(config: &Config) -> (res: Option<String>)
    ensures
        opt_str(res) == outbound_proxy_spec(*config),
{
    match &config.outbound_proxy {
        Some(p) => {
            let t = trim_str(p.as_str());
            if t.as_str().is_empty() {
                None
            } else {
                Some(t)
            }
        },
        None => None,
    }
}

fn header_names_check(id: &str, headers: &StrMap<String>) -> (res: Option<String>)
    ensures
        match res {
            Some(e) => first_bad_header_name(headers@) matches Some(n) && e@ == "profile "@
                + dq(id@) + " has invalid header "@ + dq(n) + ": "@ + "invalid HTTP header name"@,
            None => first_bad_header_name(headers@) is None,
        },
{
    let mut i: usize = 0;
    assert(headers@.skip(0) =~= headers@);
    while i < headers.len()
        invariant
            i <= headers@.len(),
            first_bad_header_name(headers@) == first_bad_header_name(headers@.skip(i as int)),
        decreases headers@.len() - i,
    {
        let (name, _value) = headers.entry(i);
        assert(headers@.skip(i as int)[0] == headers@[i as int]);
        match header_name_from_str(name.as_str()) {
            Err(error) => {
                let q = quote(id);
                let n = quote(name.as_str());
                let head = cat3("profile ", q.as_str(), " has invalid header ");
                let r = cat3(head.as_str(), n.as_str(), cat2(": ", error.as_str()).as_str());
                assert(r@ =~= "profile "@ + dq(id@) + " has invalid header "@ + dq(name@)
                    + ": "@ + "invalid HTTP header name"@);
                return Some(r);
            },
            Ok(_) => {},
        }
        assert(headers@.skip(i as int).drop_first() =~= headers@.skip(i + 1));
        i = i + 1;
    }
    None
}

fn header_values_check(id: &str, headers: &StrMap<String>) -> (res: Option<String>)
    ensures
        match res {
            Some(e) => first_bad_header_value(headers@) matches Some(n) && e@ == "profile "@
                + dq(id@) + " has invalid value for header "@ + dq(n)
                + ": "@ + "failed to parse header value"@,
            None => first_bad_header_value(headers@) is None,
        },
{
    let mut i: usize = 0;
    assert(headers@.skip(0) =~= headers@);
    while i < headers.len()
        invariant
            i <= headers@.len(),
            first_bad_header_value(headers@) == first_bad_header_value(headers@.skip(i as int)),
        decreases headers@.len() - i,
    {
        let (name, value) = headers.entry(i);
        assert(headers@.skip(i as int)[0] == headers@[i as int]);
        match header_value_from_str(value.as_str()) {
            Err(error) => {
                let q = quote(id);
                let n = quote(name.as_str());
                let head = cat3("profile ", q.as_str(), " has invalid value for header ");
                let r = cat3(head.as_str(), n.as_str(), cat2(": ", error.as_str()).as_str());
                assert(r@ =~= "profile "@ + dq(id@) + " has invalid value for header "@ + dq(name@)
                    + ": "@ + "failed to parse header value"@);
                return Some(r);
            },
            Ok(_) => {},
        }
        assert(headers@.skip(i as int).drop_first() =~= headers@.skip(i + 1));
        i = i + 1;
    }
    None
}

/// The checks of one profile, where parsing its base URL (without trailing
/// slashes) gave `scheme`.
pub fn profile_error_for(id: &str, profile: &Profile, scheme: Result<String, String>) -> (res:
    Option<String>)
    ensures
        opt_str(res) == profile_error_with(id@, *profile, result_str(scheme)),
{
    match scheme {
        Err(error) => {
            let q = quote(id);
            return Some(cat3(cat2("profile ", q.as_str()).as_str(), " has invalid base_url: ", error.as_str()));
        },
        Ok(scheme) => {
            if !str_eq(scheme.as_str(), "http") && !str_eq(scheme.as_str(), "https") {
                let q = quote(id);
                return Some(cat3("profile ", q.as_str(), " base_url must use http or https"));
            }
        },
    }
    match header_names_check(id, &profile.headers) {
        Some(e) => return Some(e),
        None => {},
    }
    header_values_check(id, &profile.headers)
}

/// The checks of one profile.
pub fn check_profile(id: &str, profile: &Profile) -> (res: Option<String>)
    ensures
        opt_str(res) == profile_error(id@, *profile),
{
    let url = trim_end_pat(profile.base_url.as_str(), Pat::Exactly('/'));
    profile_error_for(id, profile, parse_url_scheme(url.as_str()))
}

fn check_binding(sid: &str, binding: &Binding, profiles: &StrMap<Profile>) -> (res: Option<String>)
    ensures
        opt_str(res) == binding_error(sid@, *binding, profiles@),
{
    if binding.mode == BindingMode::Fixed {
        match &binding.profile {
            None => {
                let q = quote(sid);
                Some(cat3("fixed binding for session ", q.as_str(), " requires a profile"))
            },
            Some(p) => {
                if !profiles.contains_key(p.as_str()) {
                    let q = quote(sid);
                    let qp = quote(p.as_str());
                    Some(
                        cat3(
                            cat2("binding for session ", q.as_str()).as_str(),
                            " references unknown profile ",
                            qp.as_str(),
                        ),
                    )
                } else {
                    None
                }
            },
        }
    } else {
        None
    }
}

impl Config {
    /// Checks the configuration; the error names the first thing wrong.
    pub fn validate(&self) -> (res: Result<(), String>)
        ensures
            match res {
                Ok(()) => config_error(*self) is None,
                Err(e) => config_error(*self) == Some(e@),
            },
    {
        let listen = trim_str(self.listen.as_str());
        if listen.as_str().is_empty() {
            return Err(String::from_str("listen must not be empty"));
        }
        match outbound_proxy_url(self) {
            Some(url) => match proxy_error(url.as_str()) {
                Some(error) => {
                    return Err(cat2("outbound_proxy is invalid: ", error.as_str()));
                },
                None => {},
            },
            None => {},
        }
        if !self.profiles.contains_key(self.default_profile.as_str()) {
            let q = quote(self.default_profile.as_str());
            return Err(cat3("default profile ", q.as_str(), " is not configured"));
        }
        let mut i: usize = 0;
        assert(self.profiles@.skip(0) =~= self.profiles@);
        while i < self.profiles.len()
            invariant
                i <= self.profiles@.len(),
                trim(self.listen@).len() > 0,
                !(outbound_proxy_spec(*self) is Some && !proxy_url_accepted(
                    outbound_proxy_spec(*self)->0,
                )),
                has_key(self.profiles@, self.default_profile@),
                first_profile_error(self.profiles@) == first_profile_error(
                    self.profiles@.skip(i as int),
                ),
            decreases self.profiles@.len() - i,
        {
            let (id, profile) = self.profiles.entry(i);
            assert(self.profiles@.skip(i as int)[0] == self.profiles@[i as int]);
            match check_profile(id.as_str(), profile) {
                Some(e) => return Err(e),
                None => {},
            }
            assert(self.profiles@.skip(i as int).drop_first() =~= self.profiles@.skip(i + 1));
            i = i + 1;
        }
        let mut j: usize = 0;
        assert(self.bindings@.skip(0) =~= self.bindings@);
        while j < self.bindings.len()
            invariant
                j <= self.bindings@.len(),
                trim(self.listen@).len() > 0,
                !(outbound_proxy_spec(*self) is Some && !proxy_url_accepted(
                    outbound_proxy_spec(*self)->0,
                )),
                has_key(self.profiles@, self.default_profile@),
                first_profile_error(self.profiles@) is None,
                first_binding_error(self.bindings@, self.profiles@) == first_binding_error(
                    self.bindings@.skip(j as int),
                    self.profiles@,
                ),
            decreases self.bindings@.len() - j,
        {
            let (sid, binding) = self.bindings.entry(j);
            assert(self.bindings@.skip(j as int)[0] == self.bindings@[j as int]);
            match check_binding(sid.as_str(), binding, &self.profiles) {
                Some(e) => return Err(e),
                None => {},
            }
            assert(self.bindings@.skip(j as int).drop_first() =~= self.bindings@.skip(j + 1));
            j = j + 1;
        }
        match socket_addr_parse_error(self.listen.as_str()) {
            Some(error) => Err(cat2("listen must be a socket address: ", error.as_str())),
            None => Ok(()),
        }
    }
}

// ---------------------------------------------------------------------------
// Routing
// ---------------------------------------------------------------------------

/// A profile that talks to the ChatGPT backend with the client's own
/// credentials: its URL is the Codex backend, or it sets `chatgpt-account-id`.
pub open spec fn uses_client_auth(p: Profile) -> bool {
    ||| has_infix(p.base_url@, "chatgpt.com/backend-api/codex"@)
    ||| exists|i: int|
        0 <= i < p.headers@.len() && eq_ignore_case(#[trigger] p.headers@[i].0, "chatgpt-account-id"@)
}

/// Whether requests routed to `profile` keep the client's own auth headers.
pub fn profile_uses_client_auth(profile: &Profile) -> (res: bool)
    ensures
        res == uses_client_auth(*profile),
{
    if contains(profile.base_url.as_str(), "chatgpt.com/backend-api/codex") {
        return true;
    }
    let mut i: usize = 0;
    while i < profile.headers.len()
        invariant
            i <= profile.headers@.len(),
            forall|k: int| 0 <= k < i ==> !eq_ignore_case(#[trigger] profile.headers@[k].0, "chatgpt-account-id"@),
        decreases profile.headers@.len() - i,
    {
        let (name, _value) = profile.headers.entry(i);
        if eq_ignore_ascii_case(name.as_str(), "chatgpt-account-id") {
            return true;
        }
        i = i + 1;
    }
    false
}

/// The id of the profile that a request of session `session` goes to: the
/// profile of a fixed binding, else the global default; an error for a fixed
/// binding without a profile.
pub open spec fn routed_profile_id(c: Config, session: Option<Seq<char>>) -> Result<
    Seq<char>,
    Seq<char>,
> {
    match session {
        Some(s) => match lookup(c.bindings@, s) {
            Some(b) => if b.mode == BindingMode::Fixed {
                match b.profile {
                    Some(p) => Ok(p@),
                    None => Err("fixed binding for "@ + dq(s) + " has no profile"@),
                }
            } else {
                Ok(c.default_profile@)
            },
            None => Ok(c.default_profile@),
        },
        None => Ok(c.default_profile@),
    }
}

/// The outcome of routing: the id of an existing profile, or the error.
pub open spec fn route_outcome(c: Config, session: Option<Seq<char>>) -> Result<
    Seq<char>,
    Seq<char>,
> {
    match routed_profile_id(c, session) {
        Ok(id) => if has_key(c.profiles@, id) {
            Ok(id)
        } else {
            Err("profile "@ + dq(id) + " is not configured"@)
        },
        Err(e) => Err(e),
    }
}

impl Config {
    /// The upstream base URL (without trailing slashes) and the profile that a
    /// request of session `session` is sent to.
    pub fn route(&self, session: Option<&str>) -> (res: Result<(String, Profile), String>)
        ensures
            match res {
                Ok((upstream, profile)) => route_outcome(*self, opt_seq(session)) matches Ok(id)
                    && lookup(self.profiles@, id) matches Some(p) && upstream@ == upstream_base(p)
                    && profile.base_url@ == p.base_url@ && profile.headers@ == p.headers@,
                Err(e) => route_outcome(*self, opt_seq(session)) == Err::<Seq<char>, Seq<char>>(
                    e@,
                ),
            },
    {
        let profile_id: String = match session {
            Some(s) => match self.bindings.get(s) {
                Some(binding) => {
                    if binding.mode == BindingMode::Fixed {
                        match &binding.profile {
                            Some(p) => p.clone(),
                            None => {
                                let q = quote(s);
                                return Err(cat3("fixed binding for ", q.as_str(), " has no profile"));
                            },
                        }
                    } else {
                        self.default_profile.clone()
                    }
                },
                None => self.default_profile.clone(),
            },
            None => self.default_profile.clone(),
        };
        match self.profiles.get(profile_id.as_str()) {
            Some(profile) => {
                let upstream = trim_end_pat(profile.base_url.as_str(), Pat::Exactly('/'));
                Ok((upstream, profile.clone()))
            },
            None => {
                let q = quote(profile_id.as_str());
                Err(cat3("profile ", q.as_str(), " is not configured"))
            },
        }
    }
}

/// The characters of an optional string slice.
pub open spec fn opt_seq(s: Option<&str>) -> Option<Seq<char>> {
    match s {
        Some(x) => Some(x@),
        None => None,
    }
}

proof fn lemma_no_binding_error(bs: Seq<(Seq<char>, Binding)>, ps: Seq<(Seq<char>, Profile)>, i: int)
    requires
        first_binding_error(bs, ps) is None,
        0 <= i < bs.len(),
    ensures
        binding_error(bs[i].0, bs[i].1, ps) is None,
    decreases bs.len(),
{
    if i > 0 {
        lemma_no_binding_error(bs.drop_first(), ps, i - 1);
        assert(bs.drop_first()[i - 1] == bs[i]);
    }
}

/// A configuration that passes validation routes every request, with or
/// without a session id, to a configured profile.
pub proof fn lemma_valid_config_routes_every_session(c: Config, session: Option<Seq<char>>)
    requires
        config_error(c) is None,
    ensures
        route_outcome(c, session) is Ok,
{
    if let Some(s) = session {
        if let Some(b) = lookup(c.bindings@, s) {
            let i = key_index(c.bindings@, s);
            lemma_no_binding_error(c.bindings@, c.profiles@, i);
        }
    }
}

/// A session fixed to a profile is sent to that profile, or refused when the
/// profile is not configured; it is never sent to another profile. A session
/// without a binding, or bound globally, goes where a request without a
/// session id goes: to the default profile.
pub proof fn lemma_routing_follows_bindings(c: Config, s: Seq<char>)
    ensures
        match lookup(c.bindings@, s) {
            Some(b) => b.mode == BindingMode::Fixed ==> match b.profile {
                Some(p) => if has_key(c.profiles@, p@) {
                    route_outcome(c, Some(s)) == Ok::<Seq<char>, Seq<char>>(p@)
                } else {
                    route_outcome(c, Some(s)) is Err
                },
                None => route_outcome(c, Some(s)) is Err,
            },
            None => true,
        },
        (lookup(c.bindings@, s) is None || lookup(c.bindings@, s)->0.mode == BindingMode::Global)
            ==> route_outcome(c, Some(s)) == route_outcome(c, None),
        route_outcome(c, None) is Ok <==> has_key(c.profiles@, c.default_profile@),
{
}

/// A request without a session id, or whose session has no binding or a
/// global one, goes to the configured default profile, whenever that profile
/// exists; its upstream is that profile's base URL.
pub proof fn lemma_unbound_requests_use_the_default(c: Config, s: Option<Seq<char>>)
    requires
        has_key(c.profiles@, c.default_profile@),
        match s {
            Some(id) => lookup(c.bindings@, id) is None || lookup(c.bindings@, id)->0.mode
                == BindingMode::Global,
            None => true,
        },
    ensures
        route_outcome(c, s) == Ok::<Seq<char>, Seq<char>>(c.default_profile@),
        lookup(c.profiles@, c.default_profile@) is Some,
{
}

proof fn lemma_first_profile_error_none(ps: Seq<(Seq<char>, Profile)>)
    ensures
        first_profile_error(ps) is None <==> forall|i: int|
            0 <= i < ps.len() ==> (#[trigger] profile_error(ps[i].0, ps[i].1)) is None,
    decreases ps.len(),
{
    if ps.len() > 0 {
        lemma_first_profile_error_none(ps.drop_first());
        assert forall|i: int| 1 <= i < ps.len() implies #[trigger] profile_error(ps[i].0, ps[i].1)
            == profile_error(ps.drop_first()[i - 1].0, ps.drop_first()[i - 1].1) by {
            assert(ps.drop_first()[i - 1] == ps[i]);
        }
        if first_profile_error(ps) is None {
            assert forall|i: int| 0 <= i < ps.len() implies (#[trigger] profile_error(
                ps[i].0,
                ps[i].1,
            )) is None by {
                if i > 0 {
                    assert(profile_error(ps.drop_first()[i - 1].0, ps.drop_first()[i - 1].1) is None);
                }
            }
        } else if profile_error(ps[0].0, ps[0].1) is None {
            let k = choose|k: int|
                0 <= k < ps.drop_first().len() && (#[trigger] profile_error(
                    ps.drop_first()[k].0,
                    ps.drop_first()[k].1,
                )) is Some;
            assert(profile_error(ps[k + 1].0, ps[k + 1].1) is Some);
        }
    }
}

proof fn lemma_first_binding_error_none(bs: Seq<(Seq<char>, Binding)>, ps: Seq<(Seq<char>, Profile)>)
    ensures
        first_binding_error(bs, ps) is None <==> forall|i: int|
            0 <= i < bs.len() ==> (#[trigger] binding_error(bs[i].0, bs[i].1, ps)) is None,
    decreases bs.len(),
{
    if bs.len() > 0 {
        lemma_first_binding_error_none(bs.drop_first(), ps);
        assert forall|i: int| 1 <= i < bs.len() implies #[trigger] binding_error(bs[i].0, bs[i].1, ps)
            == binding_error(bs.drop_first()[i - 1].0, bs.drop_first()[i - 1].1, ps) by {
            assert(bs.drop_first()[i - 1] == bs[i]);
        }
        if first_binding_error(bs, ps) is None {
            assert forall|i: int| 0 <= i < bs.len() implies (#[trigger] binding_error(
                bs[i].0,
                bs[i].1,
                ps,
            )) is None by {
                if i > 0 {
                    assert(binding_error(bs.drop_first()[i - 1].0, bs.drop_first()[i - 1].1, ps) is None);
                }
            }
        } else if binding_error(bs[0].0, bs[0].1, ps) is None {
            let k = choose|k: int|
                0 <= k < bs.drop_first().len() && (#[trigger] binding_error(
                    bs.drop_first()[k].0,
                    bs.drop_first()[k].1,
                    ps,
                )) is Some;
            assert(binding_error(bs[k + 1].0, bs[k + 1].1, ps) is Some);
        }
    }
}

/// A configuration is valid exactly when its listen address is not blank and
/// parses as a socket address, its outbound proxy (where set and not blank)
/// is accepted, its default profile exists, every profile passes its checks,
/// and every fixed binding names an existing profile.
pub proof fn lemma_config_valid_iff(c: Config)
    ensures
        config_error(c) is None <==> {
            &&& trim(c.listen@).len() > 0
            &&& socket_addr_error(c.listen@) is None
            &&& (outbound_proxy_spec(c) is Some ==> proxy_url_accepted(outbound_proxy_spec(c)->0))
            &&& has_key(c.profiles@, c.default_profile@)
            &&& forall|i: int|
                0 <= i < c.profiles@.len() ==> (#[trigger] profile_error(
                    c.profiles@[i].0,
                    c.profiles@[i].1,
                )) is None
            &&& forall|i: int|
                0 <= i < c.bindings@.len() ==> (#[trigger] binding_error(
                    c.bindings@[i].0,
                    c.bindings@[i].1,
                    c.profiles@,
                )) is None
        },
{
    lemma_first_profile_error_none(c.profiles@);
    lemma_first_binding_error_none(c.bindings@, c.profiles@);
}

} // verus!
