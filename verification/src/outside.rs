//! The calls that the library makes into `reqwest` (with the `http` and `url`
//! types that it re-exports), `serde_json`, `toml` and `core`'s address parser,
//! each with the contract that the library relies on.
use vstd::prelude::*;
use vstd::string::StringSliceAdditionalSpecFns;

use crate::doc::Doc;

verus! {

/// `n` is a non-empty piece of path `p`.
pub open spec fn folder_name_in(p: Seq<char>, n: Seq<char>) -> bool {
    &&& n.len() > 0
    &&& crate::text::has_infix(p, n)
}

/// Whether `reqwest::Proxy::all` accepts `url` as a proxy address.
pub uninterp spec fn proxy_url_accepted(url: Seq<char>) -> bool;

/// What `url::Url::parse` (as `reqwest::Url::parse`) gives for `text`: the
/// scheme of the parsed URL, or the text of the parse error.
pub uninterp spec fn url_parse_scheme(text: Seq<char>) -> Result<Seq<char>, Seq<char>>;

/// What `str::parse::<core::net::SocketAddr>` gives for `text`: nothing when it
/// parses, else the text of its error.
pub uninterp spec fn socket_addr_error(text: Seq<char>) -> Option<Seq<char>>;

/// What `format!("{:?}", s)` gives for a string: `s` quoted and escaped.
pub uninterp spec fn debug_quoted(s: Seq<char>) -> Seq<char>;

/// A character that `http::HeaderName::from_bytes` accepts in a header name:
/// an ASCII letter or digit, or one of ``!#$%&'*+-.^_`|~``.
pub open spec fn is_token_char(c: char) -> bool {
    ||| 'a' <= c <= 'z'
    ||| 'A' <= c <= 'Z'
    ||| '0' <= c <= '9'
    ||| c == '!' || c == '#' || c == '$' || c == '%' || c == '&' || c == '\''
    ||| c == '*' || c == '+' || c == '-' || c == '.' || c == '^' || c == '_'
    ||| c == '`' || c == '|' || c == '~'
}

/// The names that `http::HeaderName::from_bytes` accepts: 1 to 65535 token characters.
pub open spec fn header_name_ok(name: Seq<char>) -> bool {
    &&& 1 <= name.len() <= 65535
    &&& forall|i: int| 0 <= i < name.len() ==> is_token_char(#[trigger] name[i])
}

/// A character whose UTF-8 bytes `http::HeaderValue::from_str` accepts: a tab, or
/// any character from the space on except DEL.
pub open spec fn header_value_char_ok(c: char) -> bool {
    c == '\t' || (' ' <= c && c != '\x7f')
}

pub open spec fn header_value_ok(value: Seq<char>) -> bool {
    forall|i: int| 0 <= i < value.len() ==> header_value_char_ok(#[trigger] value[i])
}

/// `reqwest::Proxy::all(url)`: on failure its error displays as "builder error"
/// (an error of the builder kind without a URL); whether it fails is named.
#[verifier::external_body]
pub(crate) fn proxy_error(url: &str) -> (res: Option<String>)
    ensures
        res is None <==> proxy_url_accepted(url@),
        res matches Some(e) ==> e@ == "builder error"@,
{
    match reqwest::Proxy::all(url) {
        Ok(_) => None,
        Err(error) => Some(error.to_string()),
    }
}

/// `reqwest::Url::parse(text)`, handing back the URL's scheme or the error's text.
#[verifier::external_body]
pub(crate) fn parse_url_scheme(text: &str) -> (res: Result<String, String>)
    ensures
        match res {
            Ok(scheme) => url_parse_scheme(text@) == Ok::<Seq<char>, Seq<char>>(scheme@),
            Err(e) => url_parse_scheme(text@) == Err::<Seq<char>, Seq<char>>(e@),
        },
{
    match reqwest::Url::parse(text) {
        Ok(url) => Ok(url.scheme().to_string()),
        Err(error) => Err(error.to_string()),
    }
}

/// `http::HeaderName::from_bytes(name.as_bytes())`: the lower-cased name, or the
/// text of `InvalidHeaderName`, "invalid HTTP header name".
#[verifier::external_body]
pub(crate) fn header_name_from_str(name: &str) -> (res: Result<String, String>)
    ensures
        res is Ok <==> header_name_ok(name@),
        res matches Ok(n) ==> n@ == crate::text::lower_seq(name@),
        res matches Err(e) ==> e@ == "invalid HTTP header name"@,
{
    match reqwest::header::HeaderName::from_bytes(name.as_bytes()) {
        Ok(header_name) => Ok(header_name.as_str().to_string()),
        Err(error) => Err(error.to_string()),
    }
}

/// `http::HeaderValue::from_str(value)`: the value's bytes, or the text of
/// `InvalidHeaderValue`, "failed to parse header value".
#[verifier::external_body]
pub(crate) fn header_value_from_str(value: &str) -> (res: Result<Vec<u8>, String>)
    ensures
        res is Ok <==> header_value_ok(value@),
        res matches Ok(b) ==> b@ == value.spec_bytes(),
        res matches Err(e) ==> e@ == "failed to parse header value"@,
{
    match reqwest::header::HeaderValue::from_str(value) {
        Ok(header_value) => Ok(header_value.as_bytes().to_vec()),
        Err(error) => Err(error.to_string()),
    }
}

/// `text.parse::<core::net::SocketAddr>()`, handing back the error's text.
#[verifier::external_body]
pub(crate) fn socket_addr_parse_error(text: &str) -> (res: Option<String>)
    ensures
        match res {
            Some(e) => socket_addr_error(text@) == Some(e@),
            None => socket_addr_error(text@) is None,
        },
{
    match text.parse::<core::net::SocketAddr>() {
        Ok(_) => None,
        Err(error) => Some(error.to_string()),
    }
}

/// `format!("{:?}", s)`.
#[verifier::external_body]
pub(crate) fn debug_quote(s: &str) -> (res: String)
    ensures
        res@ == debug_quoted(s@),
{
    format!("{:?}", s)
}

/// `std::path::Path::new(p).file_name()` as text: the last normal component
/// of the path. Which characters separate components, and which prefixes a
/// path may have, depend on the platform, so the result is not named; the
/// contract says only what holds on every platform: a name is a non-empty
/// piece of `p`.
#[verifier::external_body]
pub(crate) fn path_file_name_of(p: &str) -> (res: Option<String>)
    ensures
        res matches Some(n) ==> folder_name_in(p@, n@),
{
    match std::path::Path::new(p).file_name() {
        Some(name) => match name.to_str() {
            Some(n) => Some(n.to_string()),
            None => None,
        },
        None => None,
    }
}

#[verifier::external_type_specification]
#[verifier::external_body]
pub struct ExJsonValue(serde_json::Value);

#[verifier::external_type_specification]
#[verifier::external_body]
pub struct ExTomlValue(toml::Value);

/// What `serde_json::from_str::<serde_json::Value>` gives for `text`, as a
/// `Doc`: the document, or the text of the error.
pub uninterp spec fn json_parse(text: Seq<char>) -> Result<Doc, Seq<char>>;

/// What `str::parse::<toml::Value>` gives for `text`, as a `Doc`: the
/// document, or the text of the error.
pub uninterp spec fn toml_parse(text: Seq<char>) -> Result<Doc, Seq<char>>;

/// `serde_json::from_str::<serde_json::Value>(text)`, the value taken as a `Doc`.
#[verifier::external_body]
pub(crate) fn parse_json(text: &str) -> (res: Result<Doc, String>)
    ensures
        match res {
            Ok(d) => json_parse(text@) == Ok::<Doc, Seq<char>>(d),
            Err(e) => json_parse(text@) == Err::<Doc, Seq<char>>(e@),
        },
{
    match serde_json::from_str::<serde_json::Value>(text) {
        Ok(value) => Ok(json_doc(&value)),
        Err(error) => Err(error.to_string()),
    }
}

/// A `serde_json::Value` as a `Doc`, variant by variant; an object's members
/// in the order its map walks them.
#[verifier::external_body]
fn json_doc(value: &serde_json::Value) -> Doc {
    match value {
        serde_json::Value::Null => Doc::Null,
        serde_json::Value::Bool(b) => Doc::Bool(*b),
        serde_json::Value::Number(n) => Doc::Number(n.to_string()),
        serde_json::Value::String(s) => Doc::Str(s.clone()),
        serde_json::Value::Array(items) => Doc::List(items.iter().map(json_doc).collect()),
        serde_json::Value::Object(map) => Doc::Table(
            map.iter().map(|(k, v)| (k.clone(), json_doc(v))).collect(),
        ),
    }
}

/// `text.parse::<toml::Value>()`, the value taken as a `Doc`.
#[verifier::external_body]
pub(crate) fn parse_toml(text: &str) -> (res: Result<Doc, String>)
    ensures
        match res {
            Ok(d) => toml_parse(text@) == Ok::<Doc, Seq<char>>(d),
            Err(e) => toml_parse(text@) == Err::<Doc, Seq<char>>(e@),
        },
{
    match text.parse::<toml::Value>() {
        Ok(value) => Ok(toml_doc(&value)),
        Err(error) => Err(error.to_string()),
    }
}

/// A `toml::Value` as a `Doc`, variant by variant; integers keep their text,
/// other numbers and dates become `Other`; a table's entries in the order its
/// map walks them.
#[verifier::external_body]
fn toml_doc(value: &toml::Value) -> Doc {
    match value {
        toml::Value::String(s) => Doc::Str(s.clone()),
        toml::Value::Integer(i) => Doc::Number(i.to_string()),
        toml::Value::Boolean(b) => Doc::Bool(*b),
        toml::Value::Array(items) => Doc::List(items.iter().map(toml_doc).collect()),
        toml::Value::Table(map) => Doc::Table(
            map.iter().map(|(k, v)| (k.clone(), toml_doc(v))).collect(),
        ),
        _ => Doc::Other,
    }
}

} // verus!
