//! What the proxy decides for one request: which upstream it goes to, with
//! which headers, or which error answers it.
use vstd::prelude::*;

use crate::config::{opt_seq, opt_str, route_outcome, upstream_base, uses_client_auth, Config, Profile};
use crate::doc::Doc;
use crate::headers::{
    auth_headers, body_doc, request_session_id, request_session_spec, first_value, metadata_doc, hop_by_hop, named_in,
    session_id_spec, upstream_headers, upstream_headers_spec, with_header, without_name,
    without_names, apply_profile_headers, response_headers_spec, HeaderList,
};
use crate::strmap::lookup;
use crate::text::{eq_ignore_case, lower_seq};

verus! {

/// A request to forward: the upstream URL and the headers to send.
pub struct UpstreamRequest {
    pub url: String,
    pub headers: HeaderList,
}

/// A request the proxy answers itself: the HTTP status and the error message.
pub struct Rejection {
    pub status: u16,
    pub message: String,
}

/// The proxy's decision for a request with headers `h`, whose turn metadata
/// parses to `meta`, whose body parses to `body`, and path-and-query `path`: 400 when routing fails, 500 when the
/// profile's configured headers are refused, else the upstream URL (the
/// profile's base URL followed by the path) and the headers to send.
pub open spec fn proxy_plan_spec(
    c: Config,
    h: Seq<(Seq<char>, Seq<u8>)>,
    meta: Option<Doc>,
    body: Option<Doc>,
    path: Seq<char>,
) -> Result<(Seq<char>, Seq<(Seq<char>, Seq<u8>)>), (u16, Seq<char>)> {
    match route_outcome(c, request_session_spec(h, meta, body).0) {
        Err(e) => Err((400u16, e)),
        Ok(id) => {
            let p = lookup(c.profiles@, id)->0;
            match upstream_headers_spec(h, p) {
                Err(e) => Err((500u16, e)),
                Ok(hs) => Ok((upstream_base(p) + path, hs)),
            }
        },
    }
}

/// Decides where a request goes and with which headers; `body` is the text
/// of the request's body, `None` where it was not read.
pub fn plan_proxy(
    config: &Config,
    headers: HeaderList,
    path_and_query: &str,
    body: Option<&str>,
) -> (res: Result<UpstreamRequest, Rejection>)
    ensures
        match res {
            Ok(r) => proxy_plan_spec(
                *config,
                headers@,
                metadata_doc(headers@),
                body_doc(opt_seq(body)),
                path_and_query@,
            )
                == Ok::<(Seq<char>, Seq<(Seq<char>, Seq<u8>)>), (u16, Seq<char>)>(
                (r.url@, r.headers@),
            ),
            Err(r) => proxy_plan_spec(
                *config,
                headers@,
                metadata_doc(headers@),
                body_doc(opt_seq(body)),
                path_and_query@,
            )
                == Err::<(Seq<char>, Seq<(Seq<char>, Seq<u8>)>), (u16, Seq<char>)>(
                (r.status, r.message@),
            ),
        },
{
    let (session, _source) = request_session_id(&headers, body);
    let routed = match &session {
        Some(s) => config.route(Some(s.as_str())),
        None => config.route(None),
    };
    proof {
        match session {
            Some(s) => {},
            None => {},
        }
    }
    match routed {
        Err(message) => Err(Rejection { status: 400, message }),
        Ok((upstream, profile)) => {
            let ghost p = lookup(config.profiles@, route_outcome(*config, opt_str(session))->Ok_0)->0;
            assert(upstream_headers_spec(headers@, profile) == upstream_headers_spec(headers@, p));
            match upstream_headers(headers, &profile) {
                Err(message) => Err(Rejection { status: 500, message }),
                Ok(h) => {
                    let url = upstream.concat(path_and_query);
                    Ok(UpstreamRequest { url, headers: h })
                },
            }
        },
    }
}

// ---------------------------------------------------------------------------
// Credentials
// ---------------------------------------------------------------------------

proof fn lemma_first_value_without(h: Seq<(Seq<char>, Seq<u8>)>, n: Seq<char>, a: Seq<char>)
    ensures
        first_value(without_name(h, n), a) == if a == n {
            None
        } else {
            first_value(h, a)
        },
    decreases h.len(),
{
    if h.len() > 0 {
        lemma_first_value_without(h.drop_first(), n, a);
        if h[0].0 != n {
            let r = seq![h[0]] + without_name(h.drop_first(), n);
            assert(r[0] == h[0]);
            assert(r.drop_first() =~= without_name(h.drop_first(), n));
        }
    }
}

proof fn lemma_first_value_without_names(h: Seq<(Seq<char>, Seq<u8>)>, ns: Seq<Seq<char>>, a: Seq<char>)
    ensures
        first_value(without_names(h, ns), a) == if ns.contains(a) {
            None
        } else {
            first_value(h, a)
        },
    decreases ns.len(),
{
    if ns.len() > 0 {
        lemma_first_value_without(h, ns[0], a);
        lemma_first_value_without_names(without_name(h, ns[0]), ns.drop_first(), a);
        if ns.contains(a) && a != ns[0] {
            let i = choose|i: int| 0 <= i < ns.len() && ns[i] == a;
            assert(ns.drop_first()[i - 1] == a);
        }
        if ns.drop_first().contains(a) {
            let i = choose|i: int| 0 <= i < ns.drop_first().len() && ns.drop_first()[i] == a;
            assert(ns[i + 1] == a);
        }
        if a == ns[0] {
            assert(ns.contains(a));
        }
    }
}

proof fn lemma_first_value_with(h: Seq<(Seq<char>, Seq<u8>)>, n: Seq<char>, v: Seq<u8>, a: Seq<char>)
    ensures
        first_value(with_header(h, n, v), a) == if a == n {
            Some(v)
        } else {
            first_value(h, a)
        },
    decreases h.len(),
{
    if h.len() == 0 {
        let r = seq![(n, v)];
        assert(r[0] == (n, v));
        assert(r.drop_first() =~= Seq::<(Seq<char>, Seq<u8>)>::empty());
        assert(with_header(h, n, v) == r);
        if a != n {
            assert(first_value(r, a) == first_value(r.drop_first(), a));
        }
    } else if h[0].0 == n {
        let r = seq![(n, v)] + without_name(h.drop_first(), n);
        assert(r[0] == (n, v));
        assert(r.drop_first() =~= without_name(h.drop_first(), n));
        lemma_first_value_without(h.drop_first(), n, a);
    } else {
        lemma_first_value_with(h.drop_first(), n, v, a);
        let r = seq![h[0]] + with_header(h.drop_first(), n, v);
        assert(r[0] == h[0]);
        assert(r.drop_first() =~= with_header(h.drop_first(), n, v));
    }
}

proof fn lemma_auth_not_hop(a: Seq<char>)
    requires
        auth_headers().contains(a),
    ensures
        !hop_by_hop().contains(a),
{
    reveal_strlit("connection");
    reveal_strlit("content-length");
    reveal_strlit("host");
    reveal_strlit("keep-alive");
    reveal_strlit("proxy-authenticate");
    reveal_strlit("transfer-encoding");
    reveal_strlit("authorization");
    reveal_strlit("x-api-key");
    reveal_strlit("chatgpt-account-id");
    reveal_strlit("openai-organization");
    let i = choose|i: int| 0 <= i < auth_headers().len() && auth_headers()[i] == a;
    if hop_by_hop().contains(a) {
        let j = choose|j: int| 0 <= j < hop_by_hop().len() && hop_by_hop()[j] == a;
        assert(auth_headers()[i][0] != hop_by_hop()[j][0] || auth_headers()[i].len()
            != hop_by_hop()[j].len());
    }
}

proof fn lemma_apply_keeps_unnamed(
    h: Seq<(Seq<char>, Seq<u8>)>,
    ps: Seq<(Seq<char>, String)>,
    out: Seq<(Seq<char>, Seq<u8>)>,
    a: Seq<char>,
)
    requires
        apply_profile_headers(h, ps, true) == Ok::<Seq<(Seq<char>, Seq<u8>)>, Seq<char>>(out),
        auth_headers().contains(a),
    ensures
        first_value(out, a) == first_value(h, a),
    decreases ps.len(),
{
    if ps.len() > 0 {
        let n = ps[0].0;
        let v = ps[0].1@;
        if named_in(lower_seq(n), auth_headers()) {
            lemma_apply_keeps_unnamed(h, ps.drop_first(), out, a);
        } else {
            let h2 = with_header(h, lower_seq(n), vstd::utf8::encode_utf8(v));
            lemma_apply_keeps_unnamed(h2, ps.drop_first(), out, a);
            lemma_first_value_with(h, lower_seq(n), vstd::utf8::encode_utf8(v), a);
            if a == lower_seq(n) {
                let i = choose|i: int| 0 <= i < auth_headers().len() && auth_headers()[i] == a;
                assert(eq_ignore_case(lower_seq(n), auth_headers()[i])) by {
                    assert(lower_seq(a) =~= lower_seq(auth_headers()[i]));
                }
            }
        }
    }
}

proof fn lemma_apply_sources(
    h: Seq<(Seq<char>, Seq<u8>)>,
    ps: Seq<(Seq<char>, String)>,
    client_auth: bool,
    out: Seq<(Seq<char>, Seq<u8>)>,
    a: Seq<char>,
)
    requires
        apply_profile_headers(h, ps, client_auth) == Ok::<Seq<(Seq<char>, Seq<u8>)>, Seq<char>>(
            out,
        ),
    ensures
        first_value(out, a) is Some ==> first_value(out, a) == first_value(h, a) || exists|j: int|
            0 <= j < ps.len() && lower_seq(#[trigger] ps[j].0) == a && first_value(out, a)
                == Some(vstd::utf8::encode_utf8(ps[j].1@)),
    decreases ps.len(),
{
    if ps.len() > 0 {
        let n = ps[0].0;
        let v = ps[0].1@;
        let rest = ps.drop_first();
        if client_auth && named_in(lower_seq(n), auth_headers()) {
            lemma_apply_sources(h, rest, client_auth, out, a);
            if first_value(out, a) is Some && first_value(out, a) != first_value(h, a) {
                let j = choose|j: int|
                    0 <= j < rest.len() && lower_seq(#[trigger] rest[j].0) == a && first_value(out, a)
                        == Some(vstd::utf8::encode_utf8(rest[j].1@));
                assert(ps[j + 1] == rest[j]);
            }
        } else {
            let e = vstd::utf8::encode_utf8(v);
            let h2 = with_header(h, lower_seq(n), e);
            lemma_apply_sources(h2, rest, client_auth, out, a);
            lemma_first_value_with(h, lower_seq(n), e, a);
            if first_value(out, a) is Some && first_value(out, a) != first_value(h, a) {
                if first_value(out, a) == first_value(h2, a) {
                    assert(a == lower_seq(n));
                    assert(lower_seq(ps[0].0) == a);
                } else {
                    let j = choose|j: int|
                        0 <= j < rest.len() && lower_seq(#[trigger] rest[j].0) == a && first_value(
                            out,
                            a,
                        ) == Some(vstd::utf8::encode_utf8(rest[j].1@));
                    assert(ps[j + 1] == rest[j]);
                }
            }
        }
    }
}

/// A profile that uses the client's auth (ChatGPT sign-in) passes the
/// client's own credentials upstream untouched: every auth header has the
/// value that the client sent.
pub proof fn lemma_client_auth_profile_keeps_client_credentials(
    h: Seq<(Seq<char>, Seq<u8>)>,
    p: Profile,
    out: Seq<(Seq<char>, Seq<u8>)>,
    a: Seq<char>,
)
    requires
        uses_client_auth(p),
        upstream_headers_spec(h, p) == Ok::<Seq<(Seq<char>, Seq<u8>)>, Seq<char>>(out),
        auth_headers().contains(a),
    ensures
        first_value(out, a) == first_value(h, a),
{
    lemma_apply_keeps_unnamed(without_names(h, hop_by_hop()), p.headers@, out, a);
    lemma_auth_not_hop(a);
    lemma_first_value_without_names(h, hop_by_hop(), a);
}

/// A profile with its own credentials (API key) never passes the client's
/// credentials upstream: every auth header sent is one that the profile
/// configures, with the profile's value.
pub proof fn lemma_api_key_profile_replaces_client_credentials(
    h: Seq<(Seq<char>, Seq<u8>)>,
    p: Profile,
    out: Seq<(Seq<char>, Seq<u8>)>,
    a: Seq<char>,
)
    requires
        !uses_client_auth(p),
        upstream_headers_spec(h, p) == Ok::<Seq<(Seq<char>, Seq<u8>)>, Seq<char>>(out),
        auth_headers().contains(a),
    ensures
        first_value(out, a) is Some ==> exists|j: int|
            0 <= j < p.headers@.len() && lower_seq(#[trigger] p.headers@[j].0) == a && first_value(
                out,
                a,
            ) == Some(vstd::utf8::encode_utf8(p.headers@[j].1@)),
{
    let base = without_names(h, hop_by_hop());
    let cleaned = without_names(base, auth_headers());
    lemma_first_value_without_names(base, auth_headers(), a);
    lemma_apply_sources(cleaned, p.headers@, false, out, a);
}

/// No hop-by-hop header of an upstream response is passed back to the client,
/// in any ASCII case, and every header passed back came from the response.
pub proof fn lemma_response_drops_hop_by_hop(h: Seq<(Seq<char>, Seq<u8>)>)
    ensures
        forall|i: int|
            0 <= i < response_headers_spec(h).len() ==> !named_in(
                #[trigger] response_headers_spec(h)[i].0,
                hop_by_hop(),
            ) && h.contains(response_headers_spec(h)[i]),
    decreases h.len(),
{
    if h.len() > 0 {
        lemma_response_drops_hop_by_hop(h.drop_first());
        let r = response_headers_spec(h);
        let t = response_headers_spec(h.drop_first());
        assert forall|i: int| 0 <= i < r.len() implies !named_in(#[trigger] r[i].0, hop_by_hop())
            && h.contains(r[i]) by {
            if named_in(h[0].0, hop_by_hop()) {
                assert(r[i] == t[i]);
                assert(t[i] == h.drop_first()[h.drop_first().index_of(t[i])]);
                assert(h[h.drop_first().index_of(t[i]) + 1] == t[i]);
            } else if i == 0 {
                assert(r[0] == h[0]);
            } else {
                assert(r[i] == t[i - 1]);
                assert(t[i - 1] == h.drop_first()[h.drop_first().index_of(t[i - 1])]);
                assert(h[h.drop_first().index_of(t[i - 1]) + 1] == t[i - 1]);
            }
        }
    }
}

} // verus!
