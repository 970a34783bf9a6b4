//! Request and response headers as the proxy handles them: finding a
//! request's session id, and choosing the headers sent upstream and back.
use vstd::prelude::*;
use vstd::string::StringSliceAdditionalSpecFns;

use crate::config::{
    dq, opt_str, profile_uses_client_auth, uses_client_auth, Profile, SessionIdSource,
};
use crate::doc::{doc_get, opt_doc, Doc};
use crate::outside::{
    debug_quote, header_name_from_str, header_name_ok, header_value_from_str, header_value_ok,
    json_parse, parse_json,
};
use crate::text::{
    eq_ignore_ascii_case, eq_ignore_case, lower_seq, lowercase, str_eq, string_of, trim, trim_str,
};

verus! {

/// Headers in order: each a lower-case name and the value's bytes, a name
/// possibly more than once (as in `http::HeaderMap`).
pub struct HeaderList {
    pub entries: Vec<(String, Vec<u8>)>,
}

impl View for HeaderList {
    type V = Seq<(Seq<char>, Seq<u8>)>;

    open spec fn view(&self) -> Seq<(Seq<char>, Seq<u8>)> {
        self.entries@.map_values(|e: (String, Vec<u8>)| (e.0@, e.1@))
    }
}

/// The first value stored under name `n` (`HeaderMap::get`).
pub open spec fn first_value(h: Seq<(Seq<char>, Seq<u8>)>, n: Seq<char>) -> Option<Seq<u8>>
    decreases h.len(),
{
    if h.len() == 0 {
        None
    } else if h[0].0 == n {
        Some(h[0].1)
    } else {
        first_value(h.drop_first(), n)
    }
}

/// `h` without any value under name `n` (`HeaderMap::remove`).
pub open spec fn without_name(h: Seq<(Seq<char>, Seq<u8>)>, n: Seq<char>) -> Seq<
    (Seq<char>, Seq<u8>),
>
    decreases h.len(),
{
    if h.len() == 0 {
        h
    } else if h[0].0 == n {
        without_name(h.drop_first(), n)
    } else {
        seq![h[0]] + without_name(h.drop_first(), n)
    }
}

/// `h` with `v` as the only value of `n` (`HeaderMap::insert`): the first
/// entry of `n` takes the value and the later ones go; a new name goes last.
pub open spec fn with_header(h: Seq<(Seq<char>, Seq<u8>)>, n: Seq<char>, v: Seq<u8>) -> Seq<
    (Seq<char>, Seq<u8>),
>
    decreases h.len(),
{
    if h.len() == 0 {
        seq![(n, v)]
    } else if h[0].0 == n {
        seq![(n, v)] + without_name(h.drop_first(), n)
    } else {
        seq![h[0]] + with_header(h.drop_first(), n, v)
    }
}

/// Bytes that `HeaderValue::to_str` accepts: visible ASCII or tab.
pub open spec fn visible_ascii(b: Seq<u8>) -> bool {
    forall|i: int| 0 <= i < b.len() ==> (#[trigger] b[i] == 9 || (32 <= b[i] && b[i] < 127))
}

/// `HeaderValue::to_str`.
pub open spec fn value_text(b: Seq<u8>) -> Option<Seq<char>> {
    if visible_ascii(b) {
        Some(b.map_values(|x: u8| x as char))
    } else {
        None
    }
}

impl HeaderList {
    pub fn new() -> (res: Self)
        ensures
            res@ == Seq::<(Seq<char>, Seq<u8>)>::empty(),
    {
        let res = HeaderList { entries: Vec::new() };
        assert(res@ =~= Seq::<(Seq<char>, Seq<u8>)>::empty());
        res
    }

    /// Adds a value under `name`, lower-cased as `http` stores header names,
    /// after all others (`HeaderMap::append`).
    pub fn append(&mut self, name: String, value: Vec<u8>)
        ensures
            final(self)@ == old(self)@.push((lower_seq(name@), value@)),
    {
        let lower = lowercase(name.as_str());
        self.push_raw(lower, value);
    }

    /// Makes `value` the only value of `name`, lower-cased as `http` stores
    /// header names (`HeaderMap::insert`).
    pub fn insert(&mut self, name: String, value: Vec<u8>)
        ensures
            final(self)@ == with_header(old(self)@, lower_seq(name@), value@),
    {
        let lower = lowercase(name.as_str());
        self.set_raw(lower, value);
    }

    /// Adds a value under `name` as given, after all others.
    fn push_raw(&mut self, name: String, value: Vec<u8>)
        ensures
            final(self)@ == old(self)@.push((name@, value@)),
    {
        self.entries.push((name, value));
        assert(self@ =~= old(self)@.push((name@, value@)));
    }

    /// The first value under `name`.
    pub fn get(&self, name: &str) -> (res: Option<&Vec<u8>>)
        ensures
            match res {
                Some(v) => first_value(self@, name@) == Some(v@),
                None => first_value(self@, name@) is None,
            },
    {
        let mut i: usize = 0;
        assert(self@.skip(0) =~= self@);
        while i < self.entries.len()
            invariant
                i <= self@.len(),
                self@.len() == self.entries@.len(),
                first_value(self@, name@) == first_value(self@.skip(i as int), name@),
            decreases self@.len() - i,
        {
            assert(self@.skip(i as int)[0] == self@[i as int]);
            if str_eq(self.entries[i].0.as_str(), name) {
                return Some(&self.entries[i].1);
            }
            assert(self@.skip(i as int).drop_first() =~= self@.skip(i + 1));
            i = i + 1;
        }
        None
    }

    /// Removes every value under `name`.
    pub fn remove(&mut self, name: &str)
        ensures
            final(self)@ == without_name(old(self)@, name@),
    {
        let mut kept: Vec<(String, Vec<u8>)> = Vec::new();
        let ghost h = self@;
        let n = self.entries.len();
        let mut i: usize = 0;
        assert(h.skip(0) =~= h);
        while i < n
            invariant
                h == self@,
                n == self.entries@.len(),
                i <= n,
                without_name(h, name@) == kept@.map_values(|e: (String, Vec<u8>)| (e.0@, e.1@))
                    + without_name(h.skip(i as int), name@),
            decreases n - i,
        {
            let ghost before = kept@.map_values(|e: (String, Vec<u8>)| (e.0@, e.1@));
            assert(h.skip(i as int)[0] == h[i as int]);
            assert(h.skip(i as int).drop_first() =~= h.skip(i + 1));
            if !str_eq(self.entries[i].0.as_str(), name) {
                let e = &self.entries[i];
                let value_copy = e.1.clone();
                assert(value_copy@ =~= e.1@);
                kept.push((e.0.clone(), value_copy));
                assert(kept@.map_values(|e: (String, Vec<u8>)| (e.0@, e.1@)) =~= before + seq![
                    h[i as int],
                ]);
            }
            i = i + 1;
        }
        assert(h.skip(n as int) =~= Seq::<(Seq<char>, Seq<u8>)>::empty());
        self.entries = kept;
        assert(self@ =~= without_name(h, name@));
    }

    /// Position of the first value under `name`.
    fn position(&self, name: &str) -> (res: Option<usize>)
        ensures
            match res {
                Some(i) => i < self@.len() && self@[i as int].0 == name@ && forall|k: int|
                    0 <= k < i ==> #[trigger] self@[k].0 != name@,
                None => forall|k: int| 0 <= k < self@.len() ==> #[trigger] self@[k].0 != name@,
            },
    {
        let n = self.entries.len();
        let mut i: usize = 0;
        while i < n
            invariant
                n == self@.len(),
                i <= n,
                forall|k: int| 0 <= k < i ==> #[trigger] self@[k].0 != name@,
            decreases n - i,
        {
            if str_eq(self.entries[i].0.as_str(), name) {
                return Some(i);
            }
            i = i + 1;
        }
        None
    }

    /// Makes `value` the only value of `name` as given.
    fn set_raw(&mut self, name: String, value: Vec<u8>)
        ensures
            final(self)@ == with_header(old(self)@, name@, value@),
    {
        let ghost h = self@;
        match self.position(name.as_str()) {
            None => {
                proof {
                    lemma_with_header_new(h, name@, value@);
                }
                self.push_raw(name, value);
            },
            Some(i) => {
                let len = self.entries.len();
                assert(i < len);
                let tail = self.entries.split_off(i + 1);
                let mut rest = HeaderList { entries: tail };
                assert(rest@ =~= h.skip(i + 1));
                rest.remove(name.as_str());
                self.entries.pop();
                let ghost nv = (name@, value@);
                self.entries.push((name, value));
                let ghost prefix = self@;
                assert(prefix =~= h.take(i as int).push(nv));
                let mut k: usize = 0;
                while k < rest.entries.len()
                    invariant
                        k <= rest@.len(),
                        rest@.len() == rest.entries@.len(),
                        self@ == prefix + rest@.take(k as int),
                    decreases rest@.len() - k,
                {
                    let e = &rest.entries[k];
                    let name_copy = e.0.clone();
                    let value_copy = e.1.clone();
                    assert(value_copy@ =~= e.1@);
                    let ghost before = self@;
                    self.entries.push((name_copy, value_copy));
                    assert(self@ =~= before.push((e.0@, e.1@)));
                    assert(rest@[k as int] == (e.0@, e.1@));
                    assert(self@ =~= prefix + rest@.take(k + 1));
                    k = k + 1;
                }
                proof {
                    assert(rest@.take(k as int) =~= rest@);
                    lemma_with_header_at(h, nv.0, nv.1, i as int);
                }
            },
        }
    }
}

proof fn lemma_with_header_new(h: Seq<(Seq<char>, Seq<u8>)>, n: Seq<char>, v: Seq<u8>)
    requires
        forall|k: int| 0 <= k < h.len() ==> #[trigger] h[k].0 != n,
    ensures
        with_header(h, n, v) == h.push((n, v)),
    decreases h.len(),
{
    if h.len() > 0 {
        assert(forall|k: int| 0 <= k < h.drop_first().len() ==> #[trigger] h.drop_first()[k] == h[k + 1]);
        lemma_with_header_new(h.drop_first(), n, v);
        assert(h =~= seq![h[0]] + h.drop_first());
        assert(seq![h[0]] + h.drop_first().push((n, v)) =~= h.push((n, v)));
    }
}

proof fn lemma_with_header_at(h: Seq<(Seq<char>, Seq<u8>)>, n: Seq<char>, v: Seq<u8>, i: int)
    requires
        0 <= i < h.len(),
        h[i].0 == n,
        forall|k: int| 0 <= k < i ==> #[trigger] h[k].0 != n,
    ensures
        with_header(h, n, v) == h.take(i).push((n, v)) + without_name(h.skip(i + 1), n),
    decreases i,
{
    if i == 0 {
        assert(h.drop_first() =~= h.skip(1));
        assert(h.take(0).push((n, v)) =~= seq![(n, v)]);
    } else {
        let t = h.drop_first();
        assert(forall|k: int| 0 <= k < t.len() ==> #[trigger] t[k] == h[k + 1]);
        lemma_with_header_at(t, n, v, i - 1);
        assert(t.skip(i) =~= h.skip(i + 1));
        assert(seq![h[0]] + t.take(i - 1).push((n, v)) =~= h.take(i).push((n, v)));
    }
}

/// `HeaderValue::to_str`: the value as text when it is all visible ASCII.
pub fn value_to_str(b: &Vec<u8>) -> (res: Option<String>)
    ensures
        opt_str(res) == value_text(b@),
{
    let mut chars: Vec<char> = Vec::new();
    let mut i: usize = 0;
    while i < b.len()
        invariant
            i <= b@.len(),
            forall|k: int| 0 <= k < i ==> (#[trigger] b@[k] == 9 || (32 <= b@[k] && b@[k] < 127)),
            chars@ == b@.take(i as int).map_values(|x: u8| x as char),
        decreases b@.len() - i,
    {
        let x = b[i];
        if !(x == 9 || (32 <= x && x < 127)) {
            return None;
        }
        chars.push(x as char);
        assert(chars@ =~= b@.take(i + 1).map_values(|x: u8| x as char));
        i = i + 1;
    }
    assert(b@.take(i as int) =~= b@);
    Some(string_of(&chars))
}

// ---------------------------------------------------------------------------
// The session of a request
// ---------------------------------------------------------------------------

/// The session id carried by header `name`: its value as text, trimmed, if not blank.
pub open spec fn header_session(h: Seq<(Seq<char>, Seq<u8>)>, name: Seq<char>) -> Option<
    Seq<char>,
> {
    match first_value(h, name) {
        Some(b) => match value_text(b) {
            Some(s) => if trim(s).len() > 0 {
                Some(trim(s))
            } else {
                None
            },
            None => None,
        },
        None => None,
    }
}

/// The thread id of a parsed `x-codex-turn-metadata` document: `threadId`,
/// else `thread_id`, as trimmed non-blank text.
pub open spec fn metadata_thread_id(meta: Option<Doc>) -> Option<Seq<char>> {
    match meta {
        Some(d) => {
            let f = match doc_get(d, "threadId"@) {
                Some(x) => Some(x),
                None => doc_get(d, "thread_id"@),
            };
            match f {
                Some(Doc::Str(s)) => if trim(s@).len() > 0 {
                    Some(trim(s@))
                } else {
                    None
                },
                _ => None,
            }
        },
        None => None,
    }
}

/// The session id of a request and where it came from, by priority: the
/// `session_id` header, the `x-session-id` header, then the thread id of the
/// turn metadata.
pub open spec fn session_id_spec(h: Seq<(Seq<char>, Seq<u8>)>, meta: Option<Doc>) -> (
    Option<Seq<char>>,
    SessionIdSource,
) {
    if header_session(h, "session_id"@) is Some {
        (header_session(h, "session_id"@), SessionIdSource::Header)
    } else if header_session(h, "x-session-id"@) is Some {
        (header_session(h, "x-session-id"@), SessionIdSource::Header)
    } else if metadata_thread_id(meta) is Some {
        (metadata_thread_id(meta), SessionIdSource::TurnMetadataThreadId)
    } else {
        (None, SessionIdSource::NotFound)
    }
}

/// The text of the `x-codex-turn-metadata` header, where it is valid text.
pub open spec fn metadata_text(h: Seq<(Seq<char>, Seq<u8>)>) -> Option<Seq<char>> {
    match first_value(h, "x-codex-turn-metadata"@) {
        Some(b) => value_text(b),
        None => None,
    }
}

/// The document of the `x-codex-turn-metadata` header: its text parsed as
/// JSON, nothing where it is missing, not text, or not JSON.
pub open spec fn metadata_doc(h: Seq<(Seq<char>, Seq<u8>)>) -> Option<Doc> {
    match metadata_text(h) {
        Some(t) => match json_parse(t) {
            Ok(d) => Some(d),
            Err(_) => None,
        },
        None => None,
    }
}

/// The text of the `x-codex-turn-metadata` header, a JSON document.
pub fn turn_metadata_text(headers: &HeaderList) -> (res: Option<String>)
    ensures
        opt_str(res) == match first_value(headers@, "x-codex-turn-metadata"@) {
            Some(b) => value_text(b),
            None => None,
        },
{
    match headers.get("x-codex-turn-metadata") {
        Some(b) => value_to_str(b),
        None => None,
    }
}

fn session_from_header(headers: &HeaderList, name: &str) -> (res: Option<String>)
    ensures
        opt_str(res) == header_session(headers@, name@),
{
    match headers.get(name) {
        Some(b) => match value_to_str(b) {
            Some(s) => {
                let t = trim_str(s.as_str());
                if t.as_str().is_empty() {
                    None
                } else {
                    Some(t)
                }
            },
            None => None,
        },
        None => None,
    }
}

/// The parsed `x-codex-turn-metadata` header of a request.
pub fn turn_metadata(headers: &HeaderList) -> (res: Option<Doc>)
    ensures
        res == metadata_doc(headers@),
{
    match turn_metadata_text(headers) {
        Some(t) => match parse_json(t.as_str()) {
            Ok(d) => Some(d),
            Err(_) => None,
        },
        None => None,
    }
}

/// The session id that a request's headers carry and where it came from:
/// the `session_id` header, the `x-session-id` header, then the thread id of
/// the JSON document in the `x-codex-turn-metadata` header.
/// `request_session_id` goes on to the body.
pub fn extract_session_id(headers: &HeaderList) -> (res: (Option<String>, SessionIdSource))
    ensures
        (opt_str(res.0), res.1) == session_id_spec(headers@, metadata_doc(headers@)),
{
    match session_from_header(headers, "session_id") {
        Some(s) => return (Some(s), SessionIdSource::Header),
        None => {},
    }
    match session_from_header(headers, "x-session-id") {
        Some(s) => return (Some(s), SessionIdSource::Header),
        None => {},
    }
    let meta = turn_metadata(headers);
    session_id_from(headers, meta.as_ref())
}

/// The session id of a request: from its headers, else from `turn_metadata`,
/// the parsed text of its `x-codex-turn-metadata` header.
pub fn session_id_from(headers: &HeaderList, turn_metadata: Option<&Doc>) -> (res: (
    Option<String>,
    SessionIdSource,
))
    ensures
        (opt_str(res.0), res.1) == session_id_spec(headers@, opt_doc(turn_metadata)),
{
    match session_from_header(headers, "session_id") {
        Some(s) => return (Some(s), SessionIdSource::Header),
        None => {},
    }
    match session_from_header(headers, "x-session-id") {
        Some(s) => return (Some(s), SessionIdSource::Header),
        None => {},
    }
    match turn_metadata {
        Some(d) => {
            let f = match d.get("threadId") {
                Some(x) => Some(x),
                None => d.get("thread_id"),
            };
            match f {
                Some(Doc::Str(s)) => {
                    let t = trim_str(s.as_str());
                    if !t.as_str().is_empty() {
                        return (Some(t), SessionIdSource::TurnMetadataThreadId);
                    }
                },
                _ => {},
            }
        },
        None => {},
    }
    (None, SessionIdSource::NotFound)
}

/// The trimmed, non-blank text of member `k` of `d`.
pub open spec fn filled_text(d: Option<Doc>, k: Seq<char>) -> Option<Seq<char>> {
    match d {
        Some(x) => match doc_get(x, k) {
            Some(Doc::Str(s)) => if trim(s@).len() > 0 {
                Some(trim(s@))
            } else {
                None
            },
            _ => None,
        },
        None => None,
    }
}

/// The session id in a parsed request body: `metadata.session_id`, else the
/// top-level `session_id`, each as trimmed non-blank text.
pub open spec fn body_session_id(body: Option<Doc>) -> Option<Seq<char>> {
    let meta = match body {
        Some(d) => doc_get(d, "metadata"@),
        None => None,
    };
    match filled_text(meta, "session_id"@) {
        Some(s) => Some(s),
        None => filled_text(body, "session_id"@),
    }
}

/// The session id of a request and where it came from, by priority: the
/// `session_id` header, the `x-session-id` header, the thread id of the turn
/// metadata header, then the body's `metadata.session_id` and its top-level
/// `session_id`. Every header comes before the body, so that a request that
/// its headers identify is forwarded without reading its body.
pub open spec fn request_session_spec(
    h: Seq<(Seq<char>, Seq<u8>)>,
    meta: Option<Doc>,
    body: Option<Doc>,
) -> (Option<Seq<char>>, SessionIdSource) {
    if session_id_spec(h, meta).1 != SessionIdSource::NotFound {
        session_id_spec(h, meta)
    } else if body_session_id(body) is Some {
        (body_session_id(body), SessionIdSource::Body)
    } else {
        (None, SessionIdSource::NotFound)
    }
}

/// A non-blank `session_id` header decides a request's session, whatever its
/// other headers, turn metadata or body hold; without one, a non-blank
/// `x-session-id` header decides it. Turn metadata is read only when neither
/// header gives an id, and the body only when no header does.
pub proof fn lemma_session_headers_come_first(
    h: Seq<(Seq<char>, Seq<u8>)>,
    meta: Option<Doc>,
    body: Option<Doc>,
)
    ensures
        header_session(h, "session_id"@) is Some ==> session_id_spec(h, meta) == (
            header_session(h, "session_id"@),
            SessionIdSource::Header,
        ) && request_session_spec(h, meta, body) == (
            header_session(h, "session_id"@),
            SessionIdSource::Header,
        ),
        header_session(h, "session_id"@) is None && header_session(h, "x-session-id"@) is Some
            ==> session_id_spec(h, meta) == (
            header_session(h, "x-session-id"@),
            SessionIdSource::Header,
        ) && request_session_spec(h, meta, body) == (
            header_session(h, "x-session-id"@),
            SessionIdSource::Header,
        ),
        header_session(h, "session_id"@) is None && header_session(h, "x-session-id"@) is None
            && metadata_thread_id(meta) is Some ==> request_session_spec(h, meta, body) == (
            metadata_thread_id(meta),
            SessionIdSource::TurnMetadataThreadId,
        ),
        header_session(h, "session_id"@) is None && header_session(h, "x-session-id"@) is None
            && metadata_thread_id(meta) is None ==> request_session_spec(h, meta, body) == (
            body_session_id(body),
            if body_session_id(body) is Some {
                SessionIdSource::Body
            } else {
                SessionIdSource::NotFound
            },
        ),
{
}

/// In a body, a non-blank `metadata.session_id` decides the session whatever
/// the top-level `session_id` holds; the top-level one decides only without it.
pub proof fn lemma_body_metadata_first(d: Doc)
    ensures
        (doc_get(d, "metadata"@) matches Some(m) && doc_get(m, "session_id"@) matches Some(
            Doc::Str(x),
        ) && trim(x@).len() > 0) ==> body_session_id(Some(d)) == Some(trim(
            doc_get(doc_get(d, "metadata"@)->0, "session_id"@)->0->Str_0@,
        )),
        filled_text(doc_get(d, "metadata"@), "session_id"@) is None ==> body_session_id(Some(d))
            == match doc_get(d, "session_id"@) {
            Some(Doc::Str(x)) => if trim(x@).len() > 0 {
                Some(trim(x@))
            } else {
                None
            },
            _ => None,
        },
{
}

/// The document of a request body's text, where it is JSON.
pub open spec fn body_doc(body: Option<Seq<char>>) -> Option<Doc> {
    match body {
        Some(t) => match json_parse(t) {
            Ok(d) => Some(d),
            Err(_) => None,
        },
        None => None,
    }
}

fn filled_text_of(d: Option<&Doc>, k: &str) -> (res: Option<String>)
    ensures
        opt_str(res) == filled_text(opt_doc(d), k@),
{
    match d {
        Some(x) => match x.get(k) {
            Some(Doc::Str(s)) => {
                let t = trim_str(s.as_str());
                if t.as_str().is_empty() {
                    None
                } else {
                    Some(t)
                }
            },
            _ => None,
        },
        None => None,
    }
}

/// The session id in a parsed request body.
pub fn body_session(body: Option<&Doc>) -> (res: Option<String>)
    ensures
        opt_str(res) == body_session_id(opt_doc(body)),
{
    let meta = match body {
        Some(d) => d.get("metadata"),
        None => None,
    };
    match filled_text_of(meta, "session_id") {
        Some(s) => Some(s),
        None => filled_text_of(body, "session_id"),
    }
}

/// The session id of a request, from its headers and, where they carry none,
/// from `body`, the text of its body (`None` where the body was not read).
pub fn request_session_id(headers: &HeaderList, body: Option<&str>) -> (res: (
    Option<String>,
    SessionIdSource,
))
    ensures
        (opt_str(res.0), res.1) == request_session_spec(
            headers@,
            metadata_doc(headers@),
            body_doc(crate::config::opt_seq(body)),
        ),
{
    let (s, source) = extract_session_id(headers);
    match source {
        SessionIdSource::NotFound => {},
        _ => return (s, source),
    }
    let parsed = match body {
        Some(t) => match parse_json(t) {
            Ok(d) => Some(d),
            Err(_) => None,
        },
        None => None,
    };
    match body_session(parsed.as_ref()) {
        Some(b) => (Some(b), SessionIdSource::Body),
        None => (None, SessionIdSource::NotFound),
    }
}

// ---------------------------------------------------------------------------
// Headers sent upstream and back
// ---------------------------------------------------------------------------

/// Headers that belong to one connection and are never forwarded.
pub open spec fn hop_by_hop() -> Seq<Seq<char>> {
    seq![
        "connection"@,
        "content-length"@,
        "host"@,
        "keep-alive"@,
        "proxy-authenticate"@,
        "transfer-encoding"@,
    ]
}

/// Headers that carry a client's or a profile's credentials.
pub open spec fn auth_headers() -> Seq<Seq<char>> {
    seq!["authorization"@, "x-api-key"@, "chatgpt-account-id"@, "openai-organization"@]
}

/// `h` without any value under the names `ns`.
pub open spec fn without_names(h: Seq<(Seq<char>, Seq<u8>)>, ns: Seq<Seq<char>>) -> Seq<
    (Seq<char>, Seq<u8>),
>
    decreases ns.len(),
{
    if ns.len() == 0 {
        h
    } else {
        without_names(without_name(h, ns[0]), ns.drop_first())
    }
}

/// A name equal, ignoring ASCII case, to one of `ns`.
pub open spec fn named_in(n: Seq<char>, ns: Seq<Seq<char>>) -> bool {
    exists|i: int| 0 <= i < ns.len() && eq_ignore_case(n, #[trigger] ns[i])
}

/// The configured headers `ps` applied in order to `h`; with `client_auth`
/// the profile's own auth headers are left out.
pub open spec fn apply_profile_headers(
    h: Seq<(Seq<char>, Seq<u8>)>,
    ps: Seq<(Seq<char>, String)>,
    client_auth: bool,
) -> Result<Seq<(Seq<char>, Seq<u8>)>, Seq<char>>
    decreases ps.len(),
{
    if ps.len() == 0 {
        Ok(h)
    } else {
        let n = ps[0].0;
        let v = ps[0].1@;
        if !header_name_ok(n) {
            Err("invalid configured header "@ + dq(n) + ": "@ + "invalid HTTP header name"@)
        } else if client_auth && named_in(lower_seq(n), auth_headers()) {
            apply_profile_headers(h, ps.drop_first(), client_auth)
        } else if !header_value_ok(v) {
            Err("invalid configured header value "@ + dq(n) + ": "@
                + "failed to parse header value"@)
        } else {
            apply_profile_headers(
                with_header(h, lower_seq(n), vstd::utf8::encode_utf8(v)),
                ps.drop_first(),
                client_auth,
            )
        }
    }
}

/// The headers of a request sent to profile `p`: the client's headers without
/// hop-by-hop ones, without the client's auth headers unless the profile uses
/// the client's auth, then the profile's configured headers.
pub open spec fn upstream_headers_spec(h: Seq<(Seq<char>, Seq<u8>)>, p: Profile) -> Result<
    Seq<(Seq<char>, Seq<u8>)>,
    Seq<char>,
> {
    let base = without_names(h, hop_by_hop());
    let ca = uses_client_auth(p);
    let cleaned = if ca {
        base
    } else {
        without_names(base, auth_headers())
    };
    apply_profile_headers(cleaned, p.headers@, ca)
}

/// The headers of an upstream response passed back to the client: all but
/// the hop-by-hop ones, in order.
pub open spec fn response_headers_spec(h: Seq<(Seq<char>, Seq<u8>)>) -> Seq<(Seq<char>, Seq<u8>)>
    decreases h.len(),
{
    if h.len() == 0 {
        h
    } else if named_in(h[0].0, hop_by_hop()) {
        response_headers_spec(h.drop_first())
    } else {
        seq![h[0]] + response_headers_spec(h.drop_first())
    }
}

fn hop_by_hop_names() -> (res: Vec<&'static str>)
    ensures
        res@.map_values(|s: &str| s@) == hop_by_hop(),
{
    let res = vec!["connection", "content-length", "host", "keep-alive", "proxy-authenticate", "transfer-encoding"];
    assert(res@.map_values(|s: &str| s@) =~= hop_by_hop());
    res
}

fn auth_names() -> (res: Vec<&'static str>)
    ensures
        res@.map_values(|s: &str| s@) == auth_headers(),
{
    let res = vec!["authorization", "x-api-key", "chatgpt-account-id", "openai-organization"];
    assert(res@.map_values(|s: &str| s@) =~= auth_headers());
    res
}

fn remove_all(h: &mut HeaderList, names: &Vec<&str>)
    ensures
        final(h)@ == without_names(old(h)@, names@.map_values(|s: &str| s@)),
{
    let ghost ns = names@.map_values(|s: &str| s@);
    let mut i: usize = 0;
    assert(ns.skip(0) =~= ns);
    while i < names.len()
        invariant
            i <= names@.len(),
            ns == names@.map_values(|s: &str| s@),
            without_names(old(h)@, ns) == without_names(h@, ns.skip(i as int)),
        decreases names@.len() - i,
    {
        assert(ns.skip(i as int)[0] == names@[i as int]@);
        assert(ns.skip(i as int).drop_first() =~= ns.skip(i + 1));
        h.remove(names[i]);
        i = i + 1;
    }
    assert(ns.skip(i as int) =~= Seq::<Seq<char>>::empty());
}

fn is_named_in(n: &str, names: &Vec<&str>) -> (res: bool)
    ensures
        res == named_in(n@, names@.map_values(|s: &str| s@)),
{
    let ghost ns = names@.map_values(|s: &str| s@);
    let mut i: usize = 0;
    while i < names.len()
        invariant
            i <= names@.len(),
            ns == names@.map_values(|s: &str| s@),
            forall|k: int| 0 <= k < i ==> !eq_ignore_case(n@, #[trigger] ns[k]),
        decreases names@.len() - i,
    {
        if eq_ignore_ascii_case(n, names[i]) {
            assert(ns[i as int] == names@[i as int]@);
            return true;
        }
        i = i + 1;
    }
    false
}

/// The headers to send upstream for a request with headers `headers` routed to
/// `profile`; an error names a configured header that `http` refuses.
pub fn upstream_headers(headers: HeaderList, profile: &Profile) -> (res: Result<HeaderList, String>)
    ensures
        match res {
            Ok(h) => upstream_headers_spec(headers@, *profile) == Ok::<
                Seq<(Seq<char>, Seq<u8>)>,
                Seq<char>,
            >(h@),
            Err(e) => upstream_headers_spec(headers@, *profile) == Err::<
                Seq<(Seq<char>, Seq<u8>)>,
                Seq<char>,
            >(e@),
        },
{
    let mut h = headers;
    let hop = hop_by_hop_names();
    let auth = auth_names();
    remove_all(&mut h, &hop);
    let client_auth = profile_uses_client_auth(profile);
    if !client_auth {
        remove_all(&mut h, &auth);
    }
    let ghost ps = profile.headers@;
    let mut i: usize = 0;
    assert(ps.skip(0) =~= ps);
    while i < profile.headers.len()
        invariant
            i <= ps.len(),
            ps == profile.headers@,
            client_auth == uses_client_auth(*profile),
            auth@.map_values(|s: &str| s@) == auth_headers(),
            upstream_headers_spec(headers@, *profile) == apply_profile_headers(
                h@,
                ps.skip(i as int),
                client_auth,
            ),
        decreases ps.len() - i,
    {
        let (name, value) = profile.headers.entry(i);
        assert(ps.skip(i as int)[0] == ps[i as int]);
        assert(ps.skip(i as int).drop_first() =~= ps.skip(i + 1));
        let lower_name = match header_name_from_str(name.as_str()) {
            Ok(n) => n,
            Err(error) => {
                let q = debug_quote(name.as_str());
                let r = String::from_str("invalid configured header ").concat(q.as_str()).concat(
                    ": ",
                ).concat(error.as_str());
                return Err(r);
            },
        };
        if client_auth && is_named_in(lower_name.as_str(), &auth) {
            i = i + 1;
            continue;
        }
        let bytes = match header_value_from_str(value.as_str()) {
            Ok(b) => b,
            Err(error) => {
                let q = debug_quote(name.as_str());
                let r = String::from_str("invalid configured header value ").concat(
                    q.as_str(),
                ).concat(": ").concat(error.as_str());
                return Err(r);
            },
        };
        h.set_raw(lower_name, bytes);
        i = i + 1;
    }
    assert(ps.skip(i as int) =~= Seq::<(Seq<char>, String)>::empty());
    Ok(h)
}

/// The headers of an upstream response to pass back to the client.
pub fn response_headers(headers: &HeaderList) -> (res: HeaderList)
    ensures
        res@ == response_headers_spec(headers@),
{
    let hop = hop_by_hop_names();
    let mut out = HeaderList::new();
    let ghost h = headers@;
    let mut i: usize = 0;
    assert(h.skip(0) =~= h);
    while i < headers.entries.len()
        invariant
            i <= h.len(),
            h == headers@,
            h.len() == headers.entries@.len(),
            hop@.map_values(|s: &str| s@) == hop_by_hop(),
            response_headers_spec(h) == out@ + response_headers_spec(h.skip(i as int)),
        decreases h.len() - i,
    {
        assert(h.skip(i as int)[0] == h[i as int]);
        assert(h.skip(i as int).drop_first() =~= h.skip(i + 1));
        let e = &headers.entries[i];
        if !is_named_in(e.0.as_str(), &hop) {
            let ghost before = out@;
            let value_copy = e.1.clone();
            assert(value_copy@ =~= e.1@);
            out.push_raw(e.0.clone(), value_copy);
            assert(out@ + response_headers_spec(h.skip(i + 1)) =~= before + (seq![h[i as int]]
                + response_headers_spec(h.skip(i + 1))));
        }
        i = i + 1;
    }
    assert(h.skip(i as int) =~= Seq::<(Seq<char>, Seq<u8>)>::empty());
    assert(out@ + Seq::<(Seq<char>, Seq<u8>)>::empty() =~= out@);
    out
}

} // verus!
