//! Reading and rewriting the `base_url` of one `[model_providers.<name>]`
//! section of Codex's `config.toml`, line by line, leaving every other line as
//! it was.
use vstd::prelude::*;

use crate::text::{
    chars_of, has_prefix, is_ws, pat_has, seq_eq, string_of, trim, trim_bounds, trim_by,
    trim_end_by, trim_start_by, Pat,
};

verus! {

// ---------------------------------------------------------------------------
// Lines
// ---------------------------------------------------------------------------

/// Position of the first `c` in `s`, or -1.
pub open spec fn idx_of(s: Seq<char>, c: char) -> int
    decreases s.len(),
{
    if s.len() == 0 {
        -1
    } else if s[0] == c {
        0
    } else {
        let r = idx_of(s.drop_first(), c);
        if r < 0 {
            -1
        } else {
            r + 1
        }
    }
}

pub proof fn lemma_idx_of_bounds(s: Seq<char>, c: char)
    ensures
        -1 <= idx_of(s, c) < s.len(),
        idx_of(s, c) >= 0 ==> s[idx_of(s, c)] == c,
        forall|j: int| 0 <= j < s.len() && (idx_of(s, c) < 0 || j < idx_of(s, c)) ==> s[j] != c,
    decreases s.len(),
{
    if s.len() > 0 && s[0] != c {
        lemma_idx_of_bounds(s.drop_first(), c);
        assert forall|j: int|
            0 <= j < s.len() && (idx_of(s, c) < 0 || j < idx_of(s, c)) implies s[j] != c by {
            if j > 0 {
                assert(s[j] == s.drop_first()[j - 1]);
            }
        }
    }
}

proof fn lemma_idx_of_at(s: Seq<char>, c: char, m: int)
    requires
        0 <= m < s.len(),
        s[m] == c,
        forall|j: int| 0 <= j < m ==> s[j] != c,
    ensures
        idx_of(s, c) == m,
    decreases s.len(),
{
    if m > 0 {
        assert forall|j: int| 0 <= j < m - 1 implies s.drop_first()[j] != c by {
            assert(s.drop_first()[j] == s[j + 1]);
        }
        lemma_idx_of_at(s.drop_first(), c, m - 1);
    }
}

pub proof fn lemma_idx_of_at_pub(s: Seq<char>, c: char, m: int)
    requires
        0 <= m < s.len(),
        s[m] == c,
        forall|j: int| 0 <= j < m ==> s[j] != c,
    ensures
        idx_of(s, c) == m,
{
    lemma_idx_of_at(s, c, m);
}

pub proof fn lemma_idx_of_none_pub(s: Seq<char>, c: char)
    requires
        forall|j: int| 0 <= j < s.len() ==> s[j] != c,
    ensures
        idx_of(s, c) == -1,
{
    lemma_idx_of_none(s, c);
}

proof fn lemma_idx_of_none(s: Seq<char>, c: char)
    requires
        forall|j: int| 0 <= j < s.len() ==> s[j] != c,
    ensures
        idx_of(s, c) == -1,
    decreases s.len(),
{
    if s.len() > 0 {
        assert forall|j: int| 0 <= j < s.len() - 1 implies s.drop_first()[j] != c by {
            assert(s.drop_first()[j] == s[j + 1]);
        }
        lemma_idx_of_none(s.drop_first(), c);
    }
}

/// A line without the `\r` of a `\r\n` ending.
pub open spec fn strip_cr(l: Seq<char>) -> Seq<char> {
    if l.len() > 0 && l.last() == '\r' {
        l.drop_last()
    } else {
        l
    }
}

/// `str::lines`: split at `\n`, each line without a `\r` before its `\n`; a
/// final line ending adds no empty line.
pub open spec fn lines(s: Seq<char>) -> Seq<Seq<char>>
    decreases s.len(),
{
    if s.len() == 0 {
        seq![]
    } else {
        let k = idx_of(s, '\n');
        if 0 <= k < s.len() {
            seq![strip_cr(s.take(k))] + lines(s.skip(k + 1))
        } else {
            seq![s]
        }
    }
}

/// The first `c` in `v` at or after `from`.
fn find_from(v: &Vec<char>, from: usize, c: char) -> (res: Option<usize>)
    requires
        from <= v@.len(),
    ensures
        match res {
            Some(k) => from <= k < v@.len() && idx_of(v@.skip(from as int), c) == k - from,
            None => idx_of(v@.skip(from as int), c) == -1,
        },
{
    let mut k = from;
    while k < v.len()
        invariant
            from <= k <= v@.len(),
            forall|j: int| from <= j < k ==> v@[j] != c,
        decreases v@.len() - k,
    {
        if v[k] == c {
            proof {
                let u = v@.skip(from as int);
                assert forall|j: int| 0 <= j < k - from implies u[j] != c by {
                    assert(u[j] == v@[from + j]);
                }
                lemma_idx_of_at(u, c, k - from);
            }
            return Some(k);
        }
        k = k + 1;
    }
    proof {
        let u = v@.skip(from as int);
        assert forall|j: int| 0 <= j < u.len() implies u[j] != c by {
            assert(u[j] == v@[from + j]);
        }
        lemma_idx_of_none(u, c);
    }
    None
}

/// Bounds of the next line of `v` from `pos`, and where the line after it starts.
fn next_line(v: &Vec<char>, pos: usize) -> (res: (usize, usize, usize))
    requires
        pos < v@.len(),
    ensures
        pos <= res.0 <= res.1 <= v@.len(),
        res.0 == pos,
        pos < res.2 <= v@.len(),
        lines(v@.skip(pos as int)) == seq![v@.subrange(res.0 as int, res.1 as int)] + lines(
            v@.skip(res.2 as int),
        ),
{
    let ghost u = v@.skip(pos as int);
    match find_from(v, pos, '\n') {
        Some(k) => {
            let end = if k > pos && v[k - 1] == '\r' {
                k - 1
            } else {
                k
            };
            proof {
                assert(u.take(k - pos) =~= v@.subrange(pos as int, k as int));
                assert(u.skip(k - pos + 1) =~= v@.skip(k + 1));
                if k > pos && v@[k - 1] == '\r' {
                    assert(strip_cr(u.take(k - pos)) =~= v@.subrange(pos as int, end as int));
                } else {
                    assert(strip_cr(u.take(k - pos)) =~= v@.subrange(pos as int, end as int));
                }
            }
            let n = v.len();
            assert(k < n);
            (pos, end, k + 1)
        },
        None => {
            proof {
                assert(u =~= v@.subrange(pos as int, v@.len() as int));
                assert(v@.skip(v@.len() as int) =~= Seq::<char>::empty());
                assert(lines(v@.skip(v@.len() as int)) =~= Seq::<Seq<char>>::empty());
                assert(seq![u] + Seq::<Seq<char>>::empty() =~= seq![u]);
            }
            (pos, v.len(), v.len())
        },
    }
}

// ---------------------------------------------------------------------------
// The provider section and its base_url
// ---------------------------------------------------------------------------

/// The header line of provider `provider`'s section.
pub open spec fn section_header(provider: Seq<char>) -> Seq<char> {
    "[model_providers."@ + provider + "]"@
}

/// Whether the scan is inside the provider's section after trimmed line `t`:
/// a line that opens a section decides it, any other line keeps it.
pub open spec fn in_section_after(t: Seq<char>, section: Seq<char>, inside: bool) -> bool {
    if has_prefix(t, "["@) {
        t == section
    } else {
        inside
    }
}

/// `str::split_once('=')`.
pub open spec fn split_eq(t: Seq<char>) -> Option<(Seq<char>, Seq<char>)> {
    let k = idx_of(t, '=');
    if 0 <= k < t.len() {
        Some((t.take(k), t.skip(k + 1)))
    } else {
        None
    }
}

/// A trimmed line that assigns `base_url`.
pub open spec fn assigns_base_url(t: Seq<char>) -> bool {
    split_eq(t) matches Some(kv) && trim(kv.0) == "base_url"@
}

/// A value without surrounding whitespace and quotes, as the scan reads it.
pub open spec fn clean_value(v: Seq<char>) -> Seq<char> {
    trim(trim_by(trim_by(trim(v), Pat::Exactly('"')), Pat::Exactly('\'')))
}

/// The base URL that trimmed line `t` sets, if it sets a non-empty one.
pub open spec fn line_base_url(t: Seq<char>) -> Option<Seq<char>> {
    match split_eq(t) {
        Some(kv) => if trim(kv.0) == "base_url"@ && clean_value(kv.1).len() > 0 {
            Some(clean_value(kv.1))
        } else {
            None
        },
        None => None,
    }
}

/// The first non-empty `base_url` set inside the section, scanning `ls`.
pub open spec fn scan_base_url(ls: Seq<Seq<char>>, section: Seq<char>, inside: bool) -> Option<
    Seq<char>,
>
    decreases ls.len(),
{
    if ls.len() == 0 {
        None
    } else {
        let t = trim(ls[0]);
        let now = in_section_after(t, section, inside);
        if now && line_base_url(t) is Some {
            line_base_url(t)
        } else {
            scan_base_url(ls.drop_first(), section, now)
        }
    }
}

/// The base URL of provider `provider` in config text `text`.
pub open spec fn provider_base_url_spec(text: Seq<char>, provider: Seq<char>) -> Option<Seq<char>> {
    scan_base_url(lines(text), section_header(provider), false)
}

fn header_of(provider: &str) -> (res: Vec<char>)
    ensures
        res@ == section_header(provider@),
{
    let s = String::from_str("[model_providers.").concat(provider).concat("]");
    chars_of(s.as_str())
}

/// A copy of `v[lo..hi]`.
fn slice_of(v: &Vec<char>, lo: usize, hi: usize) -> (res: Vec<char>)
    requires
        lo <= hi <= v@.len(),
    ensures
        res@ == v@.subrange(lo as int, hi as int),
{
    let mut out: Vec<char> = Vec::new();
    let mut k = lo;
    while k < hi
        invariant
            lo <= k <= hi <= v@.len(),
            out@ == v@.subrange(lo as int, k as int),
        decreases hi - k,
    {
        out.push(v[k]);
        assert(out@ =~= v@.subrange(lo as int, k + 1));
        k = k + 1;
    }
    out
}

fn trimmed(v: &Vec<char>, p: Pat) -> (res: Vec<char>)
    ensures
        res@ == trim_by(v@, p),
{
    let (i, j) = trim_bounds(v, p);
    slice_of(v, i, j)
}

fn starts_with_bracket(t: &Vec<char>) -> (res: bool)
    ensures
        res == has_prefix(t@, "["@),
{
    proof {
        reveal_strlit("[");
    }
    let r = t.len() > 0 && t[0] == '[';
    proof {
        assert("["@ =~= seq!['[']);
        if t@.len() > 0 {
            assert(t@.take(1) =~= seq![t@[0]]);
            if t@[0] != '[' {
                assert(t@.take(1)[0] != "["@[0]);
            }
        }
    }
    r
}

/// `split_once('=')` on `t`: the parts before and after the first `=`.
fn split_at_eq(t: &Vec<char>) -> (res: Option<(Vec<char>, Vec<char>)>)
    ensures
        match res {
            Some((k, v)) => split_eq(t@) == Some((k@, v@)),
            None => split_eq(t@) is None,
        },
{
    assert(t@.skip(0) =~= t@);
    match find_from(t, 0, '=') {
        Some(k) => {
            let key = slice_of(t, 0, k);
            let n = t.len();
            assert(k < n);
            let value = slice_of(t, k + 1, n);
            assert(key@ =~= t@.take(k as int));
            assert(value@ =~= t@.skip(k + 1));
            Some((key, value))
        },
        None => None,
    }
}

fn is_base_url_key(key: &Vec<char>) -> (res: bool)
    ensures
        res == (trim(key@) == "base_url"@),
{
    let k = trimmed(key, Pat::Whitespace);
    let target = chars_of("base_url");
    seq_eq(&k, &target)
}

/// The base URL that trimmed line `t` sets.
fn base_url_in_line(t: &Vec<char>) -> (res: Option<Vec<char>>)
    ensures
        match res {
            Some(u) => line_base_url(t@) == Some(u@),
            None => line_base_url(t@) is None,
        },
{
    match split_at_eq(t) {
        Some((key, value)) => {
            if !is_base_url_key(&key) {
                return None;
            }
            let a = trimmed(&value, Pat::Whitespace);
            let b = trimmed(&a, Pat::Exactly('"'));
            let c = trimmed(&b, Pat::Exactly('\''));
            let d = trimmed(&c, Pat::Whitespace);
            if d.len() > 0 {
                Some(d)
            } else {
                None
            }
        },
        None => None,
    }
}

/// The `base_url` of provider `provider`'s section in config text `text`: the
/// first assignment in that section with a non-empty value, without quotes.
pub fn provider_base_url(text: &str, provider: &str) -> (res: Option<String>)
    ensures
        match res {
            Some(u) => provider_base_url_spec(text@, provider@) == Some(u@),
            None => provider_base_url_spec(text@, provider@) is None,
        },
{
    let v = chars_of(text);
    let section = header_of(provider);
    let mut inside = false;
    let mut pos: usize = 0;
    assert(v@.skip(0) =~= v@);
    while pos < v.len()
        invariant
            v@ == text@,
            section@ == section_header(provider@),
            pos <= v@.len(),
            provider_base_url_spec(text@, provider@) == scan_base_url(
                lines(v@.skip(pos as int)),
                section@,
                inside,
            ),
        decreases v@.len() - pos,
    {
        let (lo, hi, next) = next_line(&v, pos);
        let line = slice_of(&v, lo, hi);
        let t = trimmed(&line, Pat::Whitespace);
        if starts_with_bracket(&t) {
            inside = seq_eq(&t, &section);
        }
        if inside {
            match base_url_in_line(&t) {
                Some(u) => {
                    return Some(string_of(&u));
                },
                None => {},
            }
        }
        assert((seq![line@] + lines(v@.skip(next as int))).drop_first() =~= lines(
            v@.skip(next as int),
        ));
        pos = next;
    }
    assert(v@.skip(pos as int) =~= Seq::<char>::empty());
    None
}

// ---------------------------------------------------------------------------
// Rewriting the base_url
// ---------------------------------------------------------------------------

/// The leading whitespace of `line`.
pub open spec fn indent(line: Seq<char>) -> Seq<char> {
    line.take(line.len() - trim_start_by(line, Pat::Whitespace).len())
}

/// The line that replaces a `base_url` assignment: same indent, the new URL in double quotes.
pub open spec fn base_url_line(line: Seq<char>, url: Seq<char>) -> Seq<char> {
    indent(line) + "base_url = \""@ + url + "\""@
}

/// The lines `ls` with every `base_url` assignment inside the section replaced,
/// and whether any was.
pub open spec fn replace_lines(
    ls: Seq<Seq<char>>,
    section: Seq<char>,
    inside: bool,
    url: Seq<char>,
) -> (Seq<Seq<char>>, bool)
    decreases ls.len(),
{
    if ls.len() == 0 {
        (seq![], false)
    } else {
        let t = trim(ls[0]);
        let now = in_section_after(t, section, inside);
        let rest = replace_lines(ls.drop_first(), section, now, url);
        if now && assigns_base_url(t) {
            (seq![base_url_line(ls[0], url)] + rest.0, true)
        } else {
            (seq![ls[0]] + rest.0, rest.1)
        }
    }
}

/// Each line followed by `\n`.
pub open spec fn join_lines(ls: Seq<Seq<char>>) -> Seq<char>
    decreases ls.len(),
{
    if ls.len() == 0 {
        seq![]
    } else {
        ls[0] + seq!['\n'] + join_lines(ls.drop_first())
    }
}

/// The error when the section has no `base_url` assignment.
pub open spec fn missing_base_url_error(provider: Seq<char>) -> Seq<char> {
    "Codex 配置中未找到 [model_providers."@ + provider + "] 的 base_url"@
}

/// `text` with the base URL of provider `provider` set to `url`: every line
/// that assigns `base_url` inside the section rewritten, every other line kept,
/// lines ending in `\n` and the final one only where `text` ends in one.
pub open spec fn replace_spec(text: Seq<char>, provider: Seq<char>, url: Seq<char>) -> Result<
    Seq<char>,
    Seq<char>,
> {
    let r = replace_lines(lines(text), section_header(provider), false, url);
    if !r.1 {
        Err(missing_base_url_error(provider))
    } else if text.len() > 0 && text.last() == '\n' {
        Ok(join_lines(r.0))
    } else {
        Ok(join_lines(r.0).drop_last())
    }
}

fn push_all(out: &mut Vec<char>, v: &Vec<char>)
    ensures
        final(out)@ == old(out)@ + v@,
{
    let mut k: usize = 0;
    while k < v.len()
        invariant
            k <= v@.len(),
            out@ == old(out)@ + v@.take(k as int),
        decreases v@.len() - k,
    {
        out.push(v[k]);
        assert(v@.take(k + 1) =~= v@.take(k as int).push(v@[k as int]));
        k = k + 1;
    }
    assert(v@.take(k as int) =~= v@);
}

fn assigns_base_url_exec(t: &Vec<char>) -> (res: bool)
    ensures
        res == assigns_base_url(t@),
{
    match split_at_eq(t) {
        Some((key, _value)) => is_base_url_key(&key),
        None => false,
    }
}

/// Sets the `base_url` of provider `provider`'s section in config text `text`
/// to `base_url`; an error where the section assigns no `base_url`.
pub fn replace_provider_base_url(text: &str, provider: &str, base_url: &str) -> (res: Result<
    String,
    String,
>)
    ensures
        match res {
            Ok(t) => replace_spec(text@, provider@, base_url@) == Ok::<Seq<char>, Seq<char>>(t@),
            Err(e) => replace_spec(text@, provider@, base_url@) == Err::<Seq<char>, Seq<char>>(e@),
        },
{
    let v = chars_of(text);
    let url = chars_of(base_url);
    let section = header_of(provider);
    let mut inside = false;
    let mut replaced = false;
    let mut out: Vec<char> = Vec::new();
    let mut pos: usize = 0;
    let ghost whole = replace_lines(lines(text@), section_header(provider@), false, base_url@);
    assert(v@.skip(0) =~= v@);
    assert(out@ + join_lines(whole.0) =~= join_lines(whole.0));
    while pos < v.len()
        invariant
            v@ == text@,
            url@ == base_url@,
            section@ == section_header(provider@),
            pos <= v@.len(),
            whole == replace_lines(lines(text@), section_header(provider@), false, base_url@),
            join_lines(whole.0) == out@ + join_lines(
                replace_lines(lines(v@.skip(pos as int)), section@, inside, url@).0,
            ),
            whole.1 == (replaced || replace_lines(
                lines(v@.skip(pos as int)),
                section@,
                inside,
                url@,
            ).1),
        decreases v@.len() - pos,
    {
        let (lo, hi, next) = next_line(&v, pos);
        let line = slice_of(&v, lo, hi);
        let ghost ls = lines(v@.skip(pos as int));
        let ghost rest_lines = lines(v@.skip(next as int));
        let ghost before = inside;
        assert(ls[0] == line@);
        assert(ls.drop_first() =~= rest_lines);
        let t = trimmed(&line, Pat::Whitespace);
        if starts_with_bracket(&t) {
            inside = seq_eq(&t, &section);
        }
        let ghost rest = replace_lines(rest_lines, section@, inside, url@);
        let ghost old_out = out@;
        if inside && assigns_base_url_exec(&t) {
            let (i, _j) = trim_bounds(&line, Pat::Whitespace);
            let ind = slice_of(&line, 0, i);
            assert(ind@ =~= indent(line@));
            let head = chars_of("base_url = \"");
            let tail = chars_of("\"");
            push_all(&mut out, &ind);
            push_all(&mut out, &head);
            push_all(&mut out, &url);
            push_all(&mut out, &tail);
            out.push('\n');
            replaced = true;
            let ghost produced = base_url_line(line@, url@);
            assert(out@ =~= old_out + produced + seq!['\n']);
            assert((seq![produced] + rest.0).drop_first() =~= rest.0);
            assert(join_lines(seq![produced] + rest.0) =~= produced + seq!['\n'] + join_lines(
                rest.0,
            ));
        } else {
            push_all(&mut out, &line);
            out.push('\n');
            assert(out@ =~= old_out + line@ + seq!['\n']);
            assert((seq![line@] + rest.0).drop_first() =~= rest.0);
            assert(join_lines(seq![line@] + rest.0) =~= line@ + seq!['\n'] + join_lines(rest.0));
        }
        assert(join_lines(whole.0) =~= out@ + join_lines(rest.0));
        pos = next;
    }
    proof {
        assert(v@.skip(pos as int) =~= Seq::<char>::empty());
        assert(out@ =~= join_lines(whole.0));
    }
    if !replaced {
        let e = String::from_str("Codex 配置中未找到 [model_providers.").concat(provider).concat(
            "] 的 base_url",
        );
        return Err(e);
    }
    let ends_with_newline = v.len() > 0 && v[v.len() - 1] == '\n';
    if !ends_with_newline {
        out.pop();
    }
    Ok(string_of(&out))
}

// ---------------------------------------------------------------------------
// Reading back what was written
// ---------------------------------------------------------------------------

proof fn lemma_trim_start_shape(s: Seq<char>, p: Pat) -> (m: int)
    ensures
        0 <= m <= s.len(),
        trim_start_by(s, p) == s.skip(m),
        forall|k: int| 0 <= k < m ==> pat_has(p, #[trigger] s[k]),
        m < s.len() ==> !pat_has(p, s[m]),
    decreases s.len(),
{
    if s.len() > 0 && pat_has(p, s[0]) {
        let m1 = lemma_trim_start_shape(s.drop_first(), p);
        assert(s.drop_first().skip(m1) =~= s.skip(m1 + 1));
        assert forall|k: int| 0 <= k < m1 + 1 implies pat_has(p, #[trigger] s[k]) by {
            if k > 0 {
                assert(s[k] == s.drop_first()[k - 1]);
            }
        }
        if m1 + 1 < s.len() {
            assert(s[m1 + 1] == s.drop_first()[m1]);
        }
        m1 + 1
    } else {
        assert(s.skip(0) =~= s);
        0
    }
}

proof fn lemma_trim_end_shape(s: Seq<char>, p: Pat) -> (m: int)
    ensures
        0 <= m <= s.len(),
        trim_end_by(s, p) == s.take(m),
        forall|k: int| m <= k < s.len() ==> pat_has(p, #[trigger] s[k]),
        m > 0 ==> !pat_has(p, s[m - 1]),
    decreases s.len(),
{
    if s.len() > 0 && pat_has(p, s.last()) {
        let m1 = lemma_trim_end_shape(s.drop_last(), p);
        assert(s.drop_last().take(m1) =~= s.take(m1));
        assert forall|k: int| m1 <= k < s.len() implies pat_has(p, #[trigger] s[k]) by {
            if k < s.len() - 1 {
                assert(s[k] == s.drop_last()[k]);
            }
        }
        m1
    } else {
        assert(s.take(s.len() as int) =~= s);
        s.len() as int
    }
}

/// Trimming `c + x` drops the pattern character `c` when `x` does not start with the pattern.
proof fn lemma_trim_start_one(c: char, x: Seq<char>, p: Pat)
    requires
        pat_has(p, c),
        x.len() > 0 ==> !pat_has(p, x[0]),
    ensures
        trim_start_by(seq![c] + x, p) == x,
{
    assert((seq![c] + x)[0] == c);
    assert((seq![c] + x).drop_first() =~= x);
    lemma_trim_start_none(x, p);
}

proof fn lemma_trim_end_one(x: Seq<char>, c: char, p: Pat)
    requires
        pat_has(p, c),
        x.len() > 0 ==> !pat_has(p, x.last()),
    ensures
        trim_end_by(x + seq![c], p) == x,
{
    assert((x + seq![c]).last() == c);
    assert((x + seq![c]).drop_last() =~= x);
    lemma_trim_end_none(x, p);
}

proof fn lemma_trim_start_none(x: Seq<char>, p: Pat)
    requires
        x.len() > 0 ==> !pat_has(p, x[0]),
    ensures
        trim_start_by(x, p) == x,
{
}

proof fn lemma_trim_end_none(x: Seq<char>, p: Pat)
    requires
        x.len() > 0 ==> !pat_has(p, x.last()),
    ensures
        trim_end_by(x, p) == x,
{
}

/// Trimming the whitespace off `w + x`, `w` all whitespace, starts where `x` starts.
proof fn lemma_trim_start_prefix(w: Seq<char>, x: Seq<char>, p: Pat)
    requires
        forall|k: int| 0 <= k < w.len() ==> pat_has(p, #[trigger] w[k]),
    ensures
        trim_start_by(w + x, p) == trim_start_by(x, p),
    decreases w.len(),
{
    if w.len() > 0 {
        assert((w + x).drop_first() =~= w.drop_first() + x);
        assert(forall|k: int| 0 <= k < w.drop_first().len() ==> w.drop_first()[k] == w[k + 1]);
        lemma_trim_start_prefix(w.drop_first(), x, p);
    } else {
        assert(w + x =~= x);
    }
}

/// A URL that reads back unchanged from `base_url = "<url>"`: non-empty, one
/// line, and neither starting nor ending with whitespace or a quote.
pub open spec fn plain_url(u: Seq<char>) -> bool {
    &&& u.len() > 0
    &&& forall|i: int| 0 <= i < u.len() ==> #[trigger] u[i] != '\n'
    &&& !is_ws(u[0]) && u[0] != '"' && u[0] != '\''
    &&& !is_ws(u.last()) && u.last() != '"' && u.last() != '\''
}

/// The trimmed text of a rewritten `base_url` line.
pub open spec fn assignment(url: Seq<char>) -> Seq<char> {
    "base_url = \""@ + url + "\""@
}

proof fn lemma_assignment_reads_back(line: Seq<char>, url: Seq<char>)
    requires
        plain_url(url),
    ensures
        trim(base_url_line(line, url)) == assignment(url),
        !has_prefix(assignment(url), "["@),
        assigns_base_url(assignment(url)),
        line_base_url(assignment(url)) == Some(url),
{
    reveal_strlit("base_url = \"");
    reveal_strlit("\"");
    reveal_strlit("[");
    reveal_strlit("base_url");
    let a = assignment(url);
    let head = "base_url = \""@;
    assert(head =~= seq!['b', 'a', 's', 'e', '_', 'u', 'r', 'l', ' ', '=', ' ', '"']);
    assert("\""@ =~= seq!['"']);
    assert(a[0] == 'b');
    assert(a.last() == '"');
    // trimming the line
    let m = lemma_trim_start_shape(line, Pat::Whitespace);
    let w = indent(line);
    assert(w =~= line.take(m));
    assert(base_url_line(line, url) =~= w + a);
    lemma_trim_start_prefix(w, a, Pat::Whitespace);
    lemma_trim_start_none(a, Pat::Whitespace);
    lemma_trim_end_none(a, Pat::Whitespace);
    // the section test
    assert(a.take(1)[0] != "["@[0]);
    // splitting at the first '='
    assert forall|j: int| 0 <= j < 9 implies a[j] != '=' by {}
    lemma_idx_of_at(a, '=', 9);
    let key = a.take(9);
    let value = a.skip(10);
    assert(key =~= "base_url"@ + seq![' ']);
    lemma_trim_start_none(key, Pat::Whitespace);
    lemma_trim_end_one("base_url"@, ' ', Pat::Whitespace);
    assert(trim(key) =~= "base_url"@);
    // cleaning the value
    let quoted = seq!['"'] + url + seq!['"'];
    assert(value =~= seq![' '] + quoted);
    lemma_trim_start_one(' ', quoted, Pat::Whitespace);
    lemma_trim_end_none(quoted, Pat::Whitespace);
    assert(trim(value) =~= quoted);
    lemma_trim_start_one('"', url + seq!['"'], Pat::Exactly('"'));
    assert(quoted =~= seq!['"'] + (url + seq!['"']));
    lemma_trim_end_one(url, '"', Pat::Exactly('"'));
    assert(trim_by(quoted, Pat::Exactly('"')) =~= url);
    lemma_trim_start_none(url, Pat::Exactly('\''));
    lemma_trim_end_none(url, Pat::Exactly('\''));
    lemma_trim_start_none(url, Pat::Whitespace);
    lemma_trim_end_none(url, Pat::Whitespace);
    assert(clean_value(value) =~= url);
}

/// No line of `ls` holds a `\n`.
pub open spec fn one_line_each(ls: Seq<Seq<char>>) -> bool {
    forall|i: int, j: int| 0 <= i < ls.len() && 0 <= j < ls[i].len() ==> #[trigger] ls[i][j] != '\n'
}

proof fn lemma_lines_one_line_each(s: Seq<char>)
    ensures
        one_line_each(lines(s)),
    decreases s.len(),
{
    if s.len() > 0 {
        let k = idx_of(s, '\n');
        lemma_idx_of_bounds(s, '\n');
        if 0 <= k < s.len() {
            lemma_lines_one_line_each(s.skip(k + 1));
            let l = strip_cr(s.take(k));
            let ls = lines(s);
            assert(ls =~= seq![l] + lines(s.skip(k + 1)));
            assert forall|i: int, j: int| 0 <= i < ls.len() && 0 <= j < ls[i].len() implies #[trigger] ls[i][j]
                != '\n' by {
                if i == 0 {
                    assert(l[j] == s[j]);
                } else {
                    assert(ls[i] == lines(s.skip(k + 1))[i - 1]);
                }
            }
        }
    }
}

proof fn lemma_lines_last_nonempty(s: Seq<char>)
    requires
        s.len() > 0,
        s.last() != '\n',
    ensures
        lines(s).len() > 0,
        lines(s).last().len() > 0,
    decreases s.len(),
{
    let k = idx_of(s, '\n');
    lemma_idx_of_bounds(s, '\n');
    if 0 <= k < s.len() {
        let r = s.skip(k + 1);
        assert(k < s.len() - 1);
        assert(r.last() == s.last());
        lemma_lines_last_nonempty(r);
        assert(lines(s) =~= seq![strip_cr(s.take(k))] + lines(r));
    }
}

proof fn lemma_join_unfold(ls: Seq<Seq<char>>)
    requires
        ls.len() > 0,
    ensures
        join_lines(ls) == ls[0] + seq!['\n'] + join_lines(ls.drop_first()),
{
}

proof fn lemma_join_nonempty(ls: Seq<Seq<char>>)
    requires
        ls.len() > 0,
    ensures
        join_lines(ls).len() > 0,
        join_lines(ls).last() == '\n',
    decreases ls.len(),
{
    let j = join_lines(ls);
    let head = ls[0] + seq!['\n'];
    let jr = join_lines(ls.drop_first());
    assert(j == head + jr);
    if ls.len() > 1 {
        lemma_join_nonempty(ls.drop_first());
        assert(j.last() == jr.last());
    } else {
        assert(ls.drop_first().len() == 0);
        assert(jr.len() == 0);
        assert(j =~= head);
    }
}

/// The lines of `join_lines(ls)` are those of `ls`, each without a `\r` before its `\n`.
proof fn lemma_lines_of_join(ls: Seq<Seq<char>>)
    requires
        one_line_each(ls),
    ensures
        lines(join_lines(ls)).len() == ls.len(),
        forall|i: int| 0 <= i < ls.len() ==> #[trigger] lines(join_lines(ls))[i] == strip_cr(ls[i]),
    decreases ls.len(),
{
    if ls.len() > 0 {
        let rest = ls.drop_first();
        assert(one_line_each(rest)) by {
            assert forall|i: int, j: int| 0 <= i < rest.len() && 0 <= j < rest[i].len() implies #[trigger] rest[i][j]
                != '\n' by {
                assert(rest[i] == ls[i + 1]);
            }
        }
        lemma_lines_of_join(rest);
        let j = join_lines(ls);
        let l = ls[0];
        lemma_join_unfold(ls);
        let k = l.len() as int;
        assert(j[k] == '\n');
        assert forall|m: int| 0 <= m < k implies j[m] != '\n' by {
            assert(j[m] == l[m]);
            assert(ls[0][m] != '\n');
        }
        lemma_idx_of_at(j, '\n', k);
        assert(j.take(k) =~= l);
        assert(j.skip(k + 1) =~= join_lines(rest));
        assert(lines(j) =~= seq![strip_cr(l)] + lines(join_lines(rest)));
        assert forall|i: int| 0 <= i < ls.len() implies #[trigger] lines(join_lines(ls))[i] == strip_cr(
            ls[i],
        ) by {
            if i > 0 {
                assert(lines(join_lines(rest))[i - 1] == strip_cr(rest[i - 1]));
            }
        }
    }
}

/// Without its final `\n`, the lines of `join_lines(ls)` keep the last line whole.
proof fn lemma_lines_of_join_drop_last(ls: Seq<Seq<char>>)
    requires
        one_line_each(ls),
        ls.len() > 0,
        ls.last().len() > 0,
    ensures
        lines(join_lines(ls).drop_last()).len() == ls.len(),
        forall|i: int|
            0 <= i < ls.len() - 1 ==> #[trigger] lines(join_lines(ls).drop_last())[i] == strip_cr(
                ls[i],
            ),
        lines(join_lines(ls).drop_last())[ls.len() - 1] == ls.last(),
    decreases ls.len(),
{
    let rest = ls.drop_first();
    let j = join_lines(ls);
    let l = ls[0];
    lemma_join_unfold(ls);
    let d = j.drop_last();
    if ls.len() == 1 {
        assert(rest.len() == 0);
        assert(d =~= l);
        assert forall|m: int| 0 <= m < d.len() implies d[m] != '\n' by {
            assert(ls[0][m] != '\n');
        }
        lemma_idx_of_none(d, '\n');
        assert(lines(d) =~= seq![l]);
    } else {
        assert(one_line_each(rest)) by {
            assert forall|i: int, jj: int| 0 <= i < rest.len() && 0 <= jj < rest[i].len() implies #[trigger] rest[i][jj]
                != '\n' by {
                assert(rest[i] == ls[i + 1]);
            }
        }
        assert(rest.last() == ls.last());
        lemma_lines_of_join_drop_last(rest);
        lemma_join_nonempty(rest);
        let jr = join_lines(rest);
        assert(d =~= l + seq!['\n'] + jr.drop_last());
        let k = l.len() as int;
        assert(d[k] == '\n');
        assert forall|m: int| 0 <= m < k implies d[m] != '\n' by {
            assert(d[m] == l[m]);
            assert(ls[0][m] != '\n');
        }
        lemma_idx_of_at(d, '\n', k);
        assert(d.take(k) =~= l);
        assert(d.skip(k + 1) =~= jr.drop_last());
        assert(lines(d) =~= seq![strip_cr(l)] + lines(jr.drop_last()));
        assert forall|i: int| 0 <= i < ls.len() - 1 implies #[trigger] lines(d)[i] == strip_cr(ls[i]) by {
            if i > 0 {
                assert(lines(jr.drop_last())[i - 1] == strip_cr(rest[i - 1]));
            }
        }
        assert(lines(d)[ls.len() - 1] == lines(jr.drop_last())[rest.len() - 1]);
    }
}

/// Trimming ignores a `\r` left at the end of a line.
proof fn lemma_trim_strip_cr(x: Seq<char>)
    ensures
        trim(strip_cr(x)) == trim(x),
{
    if x.len() > 0 && x.last() == '\r' {
        let y = x.drop_last();
        assert(x =~= y + seq!['\r']);
        let m = lemma_trim_start_shape(x, Pat::Whitespace);
        let m2 = lemma_trim_start_shape(y, Pat::Whitespace);
        if m == x.len() {
            assert forall|k: int| 0 <= k < y.len() implies pat_has(Pat::Whitespace, #[trigger] y[k]) by {
                assert(y[k] == x[k]);
            }
            if m2 < y.len() {
                assert(pat_has(Pat::Whitespace, y[m2]));
            }
            assert(x.skip(m) =~= Seq::<char>::empty());
            assert(y.skip(m2) =~= Seq::<char>::empty());
        } else {
            assert(m < x.len() - 1) by {
                if m == x.len() - 1 {
                    assert(is_ws(x[m]));
                }
            }
            assert(m2 == m) by {
                if m2 < m {
                    assert(y[m2] == x[m2]);
                } else if m2 > m {
                    assert(y[m] == x[m]);
                }
            }
            assert(x.skip(m) =~= y.skip(m) + seq!['\r']);
            let ys = y.skip(m);
            lemma_trim_end_cr(ys);
        }
    }
}

proof fn lemma_trim_end_cr(ys: Seq<char>)
    ensures
        trim_end_by(ys + seq!['\r'], Pat::Whitespace) == trim_end_by(ys, Pat::Whitespace),
{
    assert((ys + seq!['\r']).last() == '\r');
    assert((ys + seq!['\r']).drop_last() =~= ys);
}

/// Two line sequences with the same trimmed lines scan the same.
proof fn lemma_scan_trims(a: Seq<Seq<char>>, b: Seq<Seq<char>>, section: Seq<char>, inside: bool)
    requires
        a.len() == b.len(),
        forall|i: int| 0 <= i < a.len() ==> trim(#[trigger] a[i]) == trim(b[i]),
    ensures
        scan_base_url(a, section, inside) == scan_base_url(b, section, inside),
    decreases a.len(),
{
    if a.len() > 0 {
        assert(trim(a[0]) == trim(b[0]));
        let now = in_section_after(trim(a[0]), section, inside);
        assert forall|i: int| 0 <= i < a.drop_first().len() implies trim(
            #[trigger] a.drop_first()[i],
        ) == trim(b.drop_first()[i]) by {
            assert(trim(a[i + 1]) == trim(b[i + 1]));
        }
        lemma_scan_trims(a.drop_first(), b.drop_first(), section, now);
    }
}

/// A trimmed line that assigns `base_url` does not open a section.
proof fn lemma_assignment_not_section(line: Seq<char>)
    requires
        assigns_base_url(trim(line)),
    ensures
        !has_prefix(trim(line), "["@),
{
    reveal_strlit("base_url");
    reveal_strlit("[");
    let t = trim(line);
    let m = lemma_trim_start_shape(line, Pat::Whitespace);
    let y = trim_start_by(line, Pat::Whitespace);
    let me = lemma_trim_end_shape(y, Pat::Whitespace);
    let k = idx_of(t, '=');
    let key = t.take(k);
    let mk = lemma_trim_start_shape(key, Pat::Whitespace);
    let ks = trim_start_by(key, Pat::Whitespace);
    let mke = lemma_trim_end_shape(ks, Pat::Whitespace);
    assert(trim(key) == "base_url"@);
    assert("base_url"@.len() == 8);
    assert(t.len() > 0);
    assert(y[0] == line[m]);
    assert(t[0] == y[0]);
    assert(mk == 0) by {
        if mk > 0 {
            assert(key[0] == t[0]);
        }
    }
    assert(ks =~= key);
    assert(trim(key)[0] == key[0]);
    assert(t[0] == 'b');
    assert(t.take(1)[0] != "["@[0]);
}

/// Scanning the rewritten lines finds the new URL: the first line that the
/// scan could take a URL from is one that was rewritten.
proof fn lemma_scan_rewritten(ls: Seq<Seq<char>>, section: Seq<char>, inside: bool, url: Seq<char>)
    requires
        plain_url(url),
        replace_lines(ls, section, inside, url).1,
    ensures
        scan_base_url(replace_lines(ls, section, inside, url).0, section, inside) == Some(url),
    decreases ls.len(),
{
    let t = trim(ls[0]);
    let now = in_section_after(t, section, inside);
    let rest = replace_lines(ls.drop_first(), section, now, url);
    let p = replace_lines(ls, section, inside, url).0;
    if now && assigns_base_url(t) {
        lemma_assignment_not_section(ls[0]);
        lemma_assignment_reads_back(ls[0], url);
        assert(p[0] == base_url_line(ls[0], url));
    } else {
        assert(p[0] == ls[0]);
        assert(p.drop_first() =~= rest.0);
        lemma_scan_rewritten(ls.drop_first(), section, now, url);
    }
}

proof fn lemma_replace_lines_shape(ls: Seq<Seq<char>>, section: Seq<char>, inside: bool, url: Seq<char>)
    ensures
        replace_lines(ls, section, inside, url).0.len() == ls.len(),
        forall|i: int|
            0 <= i < ls.len() ==> #[trigger] replace_lines(ls, section, inside, url).0[i] == ls[i]
                || replace_lines(ls, section, inside, url).0[i] == base_url_line(ls[i], url),
    decreases ls.len(),
{
    if ls.len() > 0 {
        let t = trim(ls[0]);
        let now = in_section_after(t, section, inside);
        lemma_replace_lines_shape(ls.drop_first(), section, now, url);
        let p = replace_lines(ls, section, inside, url).0;
        let rest = replace_lines(ls.drop_first(), section, now, url).0;
        assert forall|i: int| 0 <= i < ls.len() implies #[trigger] p[i] == ls[i] || p[i]
            == base_url_line(ls[i], url) by {
            if i > 0 {
                assert(p[i] == rest[i - 1]);
                assert(ls.drop_first()[i - 1] == ls[i]);
            }
        }
    }
}

/// Setting a provider's base URL and reading it back gives the URL that was
/// set: after a successful `replace_provider_base_url(text, provider, url)`,
/// `provider_base_url` of the result is `url`, for any URL that a quoted TOML
/// value can hold unchanged.
pub proof fn lemma_replace_then_read(text: Seq<char>, provider: Seq<char>, url: Seq<char>)
    requires
        plain_url(url),
        replace_spec(text, provider, url) is Ok,
    ensures
        provider_base_url_spec(replace_spec(text, provider, url)->Ok_0, provider) == Some(url),
{
    let section = section_header(provider);
    let ls = lines(text);
    let r = replace_lines(ls, section, false, url);
    let p = r.0;
    let out = replace_spec(text, provider, url)->Ok_0;
    lemma_scan_rewritten(ls, section, false, url);
    lemma_replace_lines_shape(ls, section, false, url);
    lemma_lines_one_line_each(text);
    assert(one_line_each(p)) by {
        assert forall|i: int, j: int| 0 <= i < p.len() && 0 <= j < p[i].len() implies #[trigger] p[i][j]
            != '\n' by {
            if p[i] != ls[i] {
                reveal_strlit("base_url = \"");
                reveal_strlit("\"");
                let m = lemma_trim_start_shape(ls[i], Pat::Whitespace);
                let w = indent(ls[i]);
                let mid = "base_url = \""@;
                assert(p[i] == w + mid + url + "\""@);
                if j < w.len() {
                    assert(p[i][j] == ls[i][j]);
                } else if j < w.len() + mid.len() {
                    assert(p[i][j] == mid[j - w.len()]);
                } else if j < w.len() + mid.len() + url.len() {
                    assert(p[i][j] == url[j - w.len() - mid.len()]);
                } else {
                    assert(p[i][j] == '"');
                }
            }
        }
    }
    let outl = lines(out);
    if text.len() > 0 && text.last() == '\n' {
        lemma_lines_of_join(p);
        assert forall|i: int| 0 <= i < outl.len() implies trim(#[trigger] outl[i]) == trim(p[i]) by {
            lemma_trim_strip_cr(p[i]);
        }
    } else {
        assert(text.len() > 0) by {
            if text.len() == 0 {
                assert(ls.len() == 0);
            }
        }
        lemma_lines_last_nonempty(text);
        assert(p.last().len() > 0) by {
            reveal_strlit("base_url = \"");
            let n = p.len() - 1;
            if p[n] != ls[n] {
                assert(p[n] == indent(ls[n]) + "base_url = \""@ + url + "\""@);
            }
        }
        lemma_lines_of_join_drop_last(p);
        assert forall|i: int| 0 <= i < outl.len() implies trim(#[trigger] outl[i]) == trim(p[i]) by {
            lemma_trim_strip_cr(p[i]);
        }
    }
    lemma_scan_trims(outl, p, section, false);
}

// ---------------------------------------------------------------------------
// Rewriting twice
// ---------------------------------------------------------------------------

/// A rewritten `base_url` line, whatever the URL, trims to the assignment,
/// opens no section, assigns `base_url`, and keeps the line's indent.
proof fn lemma_assignment_shape(line: Seq<char>, url: Seq<char>)
    ensures
        trim(base_url_line(line, url)) == assignment(url),
        !has_prefix(assignment(url), "["@),
        assigns_base_url(assignment(url)),
        indent(base_url_line(line, url)) == indent(line),
{
    reveal_strlit("base_url = \"");
    reveal_strlit("\"");
    reveal_strlit("[");
    reveal_strlit("base_url");
    let a = assignment(url);
    let head = "base_url = \""@;
    assert(head =~= seq!['b', 'a', 's', 'e', '_', 'u', 'r', 'l', ' ', '=', ' ', '"']);
    assert("\""@ =~= seq!['"']);
    assert(a[0] == 'b');
    assert(a.last() == '"');
    let m = lemma_trim_start_shape(line, Pat::Whitespace);
    let w = indent(line);
    assert(w =~= line.take(m));
    let b = base_url_line(line, url);
    assert(b =~= w + a);
    lemma_trim_start_prefix(w, a, Pat::Whitespace);
    lemma_trim_start_none(a, Pat::Whitespace);
    lemma_trim_end_none(a, Pat::Whitespace);
    assert(b.take(b.len() - a.len()) =~= w);
    assert(a.take(1)[0] != "["@[0]);
    assert forall|j: int| 0 <= j < 9 implies a[j] != '=' by {}
    lemma_idx_of_at(a, '=', 9);
    let key = a.take(9);
    assert(key =~= "base_url"@ + seq![' ']);
    lemma_trim_start_none(key, Pat::Whitespace);
    lemma_trim_end_one("base_url"@, ' ', Pat::Whitespace);
    assert(trim(key) =~= "base_url"@);
}

/// Rewriting lines that were already rewritten changes nothing: the same lines
/// assign `base_url` inside the section, and each is rewritten to itself.
proof fn lemma_replace_lines_stable(ls: Seq<Seq<char>>, section: Seq<char>, inside: bool, url: Seq<char>)
    ensures
        replace_lines(replace_lines(ls, section, inside, url).0, section, inside, url)
            == replace_lines(ls, section, inside, url),
    decreases ls.len(),
{
    if ls.len() > 0 {
        let t = trim(ls[0]);
        let now = in_section_after(t, section, inside);
        let r = replace_lines(ls, section, inside, url);
        let rest = replace_lines(ls.drop_first(), section, now, url);
        lemma_replace_lines_stable(ls.drop_first(), section, now, url);
        let p = r.0;
        assert(p.drop_first() =~= rest.0);
        let q = replace_lines(p, section, inside, url);
        if now && assigns_base_url(t) {
            lemma_assignment_not_section(ls[0]);
            lemma_assignment_shape(ls[0], url);
            assert(p[0] == base_url_line(ls[0], url));
            assert(base_url_line(p[0], url) == p[0]);
            assert(q.0 =~= r.0);
        } else {
            assert(p[0] == ls[0]);
            assert(q.0 =~= r.0);
        }
    }
}

/// Each line of `ls`, rewritten with a URL of one line, stays one line.
proof fn lemma_rewritten_one_line_each(ls: Seq<Seq<char>>, section: Seq<char>, inside: bool, url: Seq<char>)
    requires
        one_line_each(ls),
        forall|i: int| 0 <= i < url.len() ==> #[trigger] url[i] != '\n',
    ensures
        one_line_each(replace_lines(ls, section, inside, url).0),
{
    let p = replace_lines(ls, section, inside, url).0;
    lemma_replace_lines_shape(ls, section, inside, url);
    assert forall|i: int, j: int| 0 <= i < p.len() && 0 <= j < p[i].len() implies #[trigger] p[i][j]
        != '\n' by {
        if p[i] != ls[i] {
            reveal_strlit("base_url = \"");
            reveal_strlit("\"");
            let m = lemma_trim_start_shape(ls[i], Pat::Whitespace);
            let w = indent(ls[i]);
            let mid = "base_url = \""@;
            assert(p[i] == w + mid + url + "\""@);
            if j < w.len() {
                assert(p[i][j] == ls[i][j]);
            } else if j < w.len() + mid.len() {
                assert(p[i][j] == mid[j - w.len()]);
            } else if j < w.len() + mid.len() + url.len() {
                assert(p[i][j] == url[j - w.len() - mid.len()]);
            } else {
                assert(p[i][j] == '"');
            }
        }
    }
}

/// The last line of `join_lines(ls)` comes just before its final `\n`.
proof fn lemma_join_last(ls: Seq<Seq<char>>)
    requires
        ls.len() > 0,
    ensures
        join_lines(ls) == join_lines(ls.drop_last()) + ls.last() + seq!['\n'],
    decreases ls.len(),
{
    lemma_join_unfold(ls);
    if ls.len() == 1 {
        assert(ls.drop_last().len() == 0);
        assert(ls.drop_first().len() == 0);
        assert(join_lines(ls) =~= join_lines(ls.drop_last()) + ls.last() + seq!['\n']);
    } else {
        let rest = ls.drop_first();
        lemma_join_last(rest);
        assert(rest.drop_last() =~= ls.drop_last().drop_first());
        assert(rest.last() == ls.last());
        lemma_join_unfold(ls.drop_last());
        assert(ls.drop_last()[0] == ls[0]);
        assert(join_lines(ls) =~= join_lines(ls.drop_last()) + ls.last() + seq!['\n']);
    }
}

/// No line of the rewritten text that ends in a line break keeps a `\r` of its
/// own before it (one that `str::lines` would read as part of the line ending
/// the next time).
pub open spec fn no_carried_cr(text: Seq<char>, provider: Seq<char>, url: Seq<char>) -> bool {
    let p = replace_lines(lines(text), section_header(provider), false, url).0;
    forall|i: int|
        0 <= i < p.len() && (i < p.len() - 1 || (text.len() > 0 && text.last() == '\n'))
            ==> strip_cr(#[trigger] p[i]) == p[i]
}

/// Setting a provider's base URL a second time, to the same URL, changes
/// nothing, for a URL of one line. Left out: text where a line that is kept
/// ends in a `\r` of its own before its `\r\n` or `\n`, which the first
/// rewrite turns into a line ending and the second then drops.
pub proof fn lemma_replace_twice(text: Seq<char>, provider: Seq<char>, url: Seq<char>)
    requires
        forall|i: int| 0 <= i < url.len() ==> #[trigger] url[i] != '\n',
        replace_spec(text, provider, url) is Ok,
        no_carried_cr(text, provider, url),
    ensures
        replace_spec(replace_spec(text, provider, url)->Ok_0, provider, url) == replace_spec(
            text,
            provider,
            url,
        ),
{
    let section = section_header(provider);
    let ls = lines(text);
    let r = replace_lines(ls, section, false, url);
    let p = r.0;
    let out = replace_spec(text, provider, url)->Ok_0;
    lemma_replace_lines_shape(ls, section, false, url);
    lemma_lines_one_line_each(text);
    lemma_rewritten_one_line_each(ls, section, false, url);
    lemma_replace_lines_stable(ls, section, false, url);
    assert(ls.len() > 0) by {
        if ls.len() == 0 {
            assert(!r.1);
        }
    }
    if text.len() > 0 && text.last() == '\n' {
        lemma_lines_of_join(p);
        lemma_join_nonempty(p);
        assert(lines(out) =~= p) by {
            assert forall|i: int| 0 <= i < p.len() implies #[trigger] lines(out)[i] == p[i] by {
                assert(strip_cr(p[i]) == p[i]);
            }
        }
    } else {
        assert(text.len() > 0);
        lemma_lines_last_nonempty(text);
        assert(p.last().len() > 0) by {
            reveal_strlit("base_url = \"");
            let n = p.len() - 1;
            if p[n] != ls[n] {
                assert(p[n] == indent(ls[n]) + "base_url = \""@ + url + "\""@);
            }
        }
        lemma_lines_of_join_drop_last(p);
        lemma_join_last(p);
        let j = join_lines(p);
        assert(out =~= join_lines(p.drop_last()) + p.last());
        assert(out.last() == p.last().last());
        assert(p.last().last() != '\n') by {
            assert(p.last() == p[p.len() - 1]);
            assert(p[p.len() - 1][p.last().len() - 1] != '\n');
        }
        assert(lines(out) =~= p) by {
            assert forall|i: int| 0 <= i < p.len() implies #[trigger] lines(out)[i] == p[i] by {
                if i < p.len() - 1 {
                    assert(strip_cr(p[i]) == p[i]);
                }
            }
        }
    }
}

// ---------------------------------------------------------------------------
// Reading the base URL back
// ---------------------------------------------------------------------------

/// Whether the scan of `ls`, starting `inside` or not, is inside the section
/// after reading line `i`.
pub open spec fn inside_after(ls: Seq<Seq<char>>, section: Seq<char>, inside: bool, i: int) -> bool
    decreases i,
{
    let now = in_section_after(trim(ls[0]), section, inside);
    if i <= 0 {
        now
    } else {
        inside_after(ls.drop_first(), section, now, i - 1)
    }
}

/// Line `i` of `ls` lies inside the section and sets a non-empty `base_url`.
pub open spec fn sets_base_url_at(ls: Seq<Seq<char>>, section: Seq<char>, inside: bool, i: int) -> bool {
    inside_after(ls, section, inside, i) && line_base_url(trim(ls[i])) is Some
}

proof fn lemma_scan_first(ls: Seq<Seq<char>>, section: Seq<char>, inside: bool)
    ensures
        scan_base_url(ls, section, inside) matches Some(v) ==> exists|i: int|
            0 <= i < ls.len() && #[trigger] sets_base_url_at(ls, section, inside, i)
                && line_base_url(trim(ls[i])) == Some(v) && forall|j: int|
                0 <= j < i ==> !sets_base_url_at(ls, section, inside, j),
        scan_base_url(ls, section, inside) is None ==> forall|i: int|
            0 <= i < ls.len() ==> !#[trigger] sets_base_url_at(ls, section, inside, i),
    decreases ls.len(),
{
    if ls.len() > 0 {
        let t = trim(ls[0]);
        let now = in_section_after(t, section, inside);
        let tail = ls.drop_first();
        lemma_scan_first(tail, section, now);
        assert forall|i: int| 1 <= i < ls.len() implies sets_base_url_at(ls, section, inside, i)
            == sets_base_url_at(tail, section, now, i - 1) by {
            assert(tail[i - 1] == ls[i]);
        }
        if now && line_base_url(t) is Some {
            assert(sets_base_url_at(ls, section, inside, 0));
        } else {
            assert(!sets_base_url_at(ls, section, inside, 0));
            if let Some(v) = scan_base_url(tail, section, now) {
                let k = choose|k: int|
                    0 <= k < tail.len() && #[trigger] sets_base_url_at(tail, section, now, k)
                        && line_base_url(trim(tail[k])) == Some(v) && forall|j: int|
                        0 <= j < k ==> !sets_base_url_at(tail, section, now, j);
                assert(sets_base_url_at(ls, section, inside, k + 1));
                assert(ls[k + 1] == tail[k]);
                assert forall|j: int| 0 <= j < k + 1 implies !sets_base_url_at(ls, section, inside, j) by {
                    if j > 0 {
                        assert(!sets_base_url_at(tail, section, now, j - 1));
                    }
                }
            } else {
                assert forall|i: int| 0 <= i < ls.len() implies !#[trigger] sets_base_url_at(
                    ls,
                    section,
                    inside,
                    i,
                ) by {
                    if i > 0 {
                        assert(!sets_base_url_at(tail, section, now, i - 1));
                    }
                }
            }
        }
    }
}

proof fn lemma_scan_without_section(ls: Seq<Seq<char>>, section: Seq<char>)
    requires
        forall|i: int| 0 <= i < ls.len() ==> trim(#[trigger] ls[i]) != section,
    ensures
        scan_base_url(ls, section, false) is None,
    decreases ls.len(),
{
    if ls.len() > 0 {
        assert(trim(ls[0]) != section);
        assert(!in_section_after(trim(ls[0]), section, false));
        assert forall|i: int| 0 <= i < ls.drop_first().len() implies trim(
            #[trigger] ls.drop_first()[i],
        ) != section by {
            assert(ls.drop_first()[i] == ls[i + 1]);
        }
        lemma_scan_without_section(ls.drop_first(), section);
    }
}

/// Trimming twice trims no more.
proof fn lemma_trim_twice(x: Seq<char>)
    ensures
        trim(trim(x)) == trim(x),
{
    let m = lemma_trim_start_shape(x, Pat::Whitespace);
    let s = trim_start_by(x, Pat::Whitespace);
    let me = lemma_trim_end_shape(s, Pat::Whitespace);
    let y = trim(x);
    assert(y == s.take(me));
    if y.len() > 0 {
        assert(y[0] == s[0]);
        assert(s[0] == x[m]);
        assert(y.last() == s[me - 1]);
    }
    lemma_trim_start_none(y, Pat::Whitespace);
    lemma_trim_end_none(y, Pat::Whitespace);
}

/// What `provider_base_url` reads: a non-empty value with no surrounding
/// whitespace, set by the first line inside the provider's section that sets
/// a non-empty `base_url`; and nothing when no line (trimmed) is the
/// section's header.
pub proof fn lemma_read_base_url(text: Seq<char>, provider: Seq<char>)
    ensures
        provider_base_url_spec(text, provider) matches Some(v) ==> v.len() > 0 && trim(v) == v
            && exists|i: int|
            0 <= i < lines(text).len() && #[trigger] sets_base_url_at(
                lines(text),
                section_header(provider),
                false,
                i,
            ) && line_base_url(trim(lines(text)[i])) == Some(v) && forall|j: int|
                0 <= j < i ==> !sets_base_url_at(lines(text), section_header(provider), false, j),
        (forall|i: int| 0 <= i < lines(text).len() ==> trim(#[trigger] lines(text)[i]) != section_header(provider))
            ==> provider_base_url_spec(text, provider) is None,
{
    let ls = lines(text);
    let section = section_header(provider);
    lemma_scan_first(ls, section, false);
    if forall|i: int| 0 <= i < ls.len() ==> trim(#[trigger] ls[i]) != section {
        lemma_scan_without_section(ls, section);
    }
    if let Some(v) = provider_base_url_spec(text, provider) {
        let i = choose|i: int|
            0 <= i < ls.len() && #[trigger] sets_base_url_at(ls, section, false, i)
                && line_base_url(trim(ls[i])) == Some(v) && forall|j: int|
                0 <= j < i ==> !sets_base_url_at(ls, section, false, j);
        let t = trim(ls[i]);
        let kv = split_eq(t)->0;
        lemma_trim_twice(trim_by(trim_by(trim(kv.1), Pat::Exactly('"')), Pat::Exactly('\'')));
    }
}

/// Line `i` of `ls` lies inside the section and assigns `base_url`.
pub open spec fn assigns_base_url_at(ls: Seq<Seq<char>>, section: Seq<char>, inside: bool, i: int) -> bool {
    inside_after(ls, section, inside, i) && assigns_base_url(trim(ls[i]))
}

proof fn lemma_replace_lines_found(ls: Seq<Seq<char>>, section: Seq<char>, inside: bool, url: Seq<char>)
    ensures
        replace_lines(ls, section, inside, url).1 <==> exists|i: int|
            0 <= i < ls.len() && #[trigger] assigns_base_url_at(ls, section, inside, i),
    decreases ls.len(),
{
    if ls.len() > 0 {
        let t = trim(ls[0]);
        let now = in_section_after(t, section, inside);
        let tail = ls.drop_first();
        lemma_replace_lines_found(tail, section, now, url);
        assert forall|i: int| 1 <= i < ls.len() implies assigns_base_url_at(ls, section, inside, i)
            == assigns_base_url_at(tail, section, now, i - 1) by {
            assert(tail[i - 1] == ls[i]);
        }
        if now && assigns_base_url(t) {
            assert(assigns_base_url_at(ls, section, inside, 0));
        } else {
            assert(!assigns_base_url_at(ls, section, inside, 0));
            if replace_lines(tail, section, now, url).1 {
                let k = choose|k: int|
                    0 <= k < tail.len() && #[trigger] assigns_base_url_at(tail, section, now, k);
                assert(assigns_base_url_at(ls, section, inside, k + 1));
            } else if exists|i: int|
                0 <= i < ls.len() && #[trigger] assigns_base_url_at(ls, section, inside, i) {
                let i = choose|i: int|
                    0 <= i < ls.len() && #[trigger] assigns_base_url_at(ls, section, inside, i);
                assert(assigns_base_url_at(tail, section, now, i - 1));
            }
        }
    }
}

/// Setting a provider's base URL fails exactly when no line inside the
/// provider's section assigns `base_url` (its key, the text before the first
/// `=`, trimmed, is `base_url`), and then with the message naming the provider.
pub proof fn lemma_replace_fails_iff(text: Seq<char>, provider: Seq<char>, url: Seq<char>)
    ensures
        replace_spec(text, provider, url) is Err <==> forall|i: int|
            0 <= i < lines(text).len() ==> !#[trigger] assigns_base_url_at(
                lines(text),
                section_header(provider),
                false,
                i,
            ),
        replace_spec(text, provider, url) is Err ==> replace_spec(text, provider, url)
            == Err::<Seq<char>, Seq<char>>(missing_base_url_error(provider)),
{
    lemma_replace_lines_found(lines(text), section_header(provider), false, url);
}

} // verus!
