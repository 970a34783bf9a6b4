use vstd::prelude::*;

verus! {

// ---------------------------------------------------------------------------
// Character classes
// ---------------------------------------------------------------------------

/// The Unicode `White_Space` property, the class that `char::is_whitespace`,
/// `str::trim` and `str::split_whitespace` use.
pub open spec fn is_ws(c: char) -> bool {
    let u = c as u32;
    ||| 0x09 <= u <= 0x0d
    ||| u == 0x20
    ||| u == 0x85
    ||| u == 0xa0
    ||| u == 0x1680
    ||| 0x2000 <= u <= 0x200a
    ||| u == 0x2028
    ||| u == 0x2029
    ||| u == 0x202f
    ||| u == 0x205f
    ||| u == 0x3000
}

pub fn is_whitespace(c: char) -> (res: bool)
    ensures
        res == is_ws(c),
{
    let u = c as u32;
    (0x09 <= u && u <= 0x0d) || u == 0x20 || u == 0x85 || u == 0xa0 || u == 0x1680 || (0x2000
        <= u && u <= 0x200a) || u == 0x2028 || u == 0x2029 || u == 0x202f || u == 0x205f || u
        == 0x3000
}

/// ASCII lower-casing of one character; every other character is kept.
pub open spec fn ascii_lower(c: char) -> char {
    if 'A' <= c <= 'Z' {
        ((c as u32) + 32) as char
    } else {
        c
    }
}

pub fn to_ascii_lower(c: char) -> (res: char)
    ensures
        res == ascii_lower(c),
{
    if 'A' <= c && c <= 'Z' {
        let u = (c as u32) + 32;
        assert(u < 0xd800);
        let b: u8 = u as u8;
        b as char
    } else {
        c
    }
}

pub open spec fn lower_seq(s: Seq<char>) -> Seq<char> {
    Seq::new(s.len(), |i: int| ascii_lower(s[i]))
}

/// `str::eq_ignore_ascii_case` on the characters of two strings.
pub open spec fn eq_ignore_case(a: Seq<char>, b: Seq<char>) -> bool {
    lower_seq(a) == lower_seq(b)
}

/// A pattern for the `trim_matches` family: the whitespace class, or one character.
#[derive(Clone, Copy, PartialEq, Eq)]
pub enum Pat {
    Whitespace,
    Exactly(char),
}

pub open spec fn pat_has(p: Pat, c: char) -> bool {
    match p {
        Pat::Whitespace => is_ws(c),
        Pat::Exactly(x) => c == x,
    }
}

pub fn pat_matches(p: Pat, c: char) -> (res: bool)
    ensures
        res == pat_has(p, c),
{
    match p {
        Pat::Whitespace => is_whitespace(c),
        Pat::Exactly(x) => c == x,
    }
}

// ---------------------------------------------------------------------------
// Trimming
// ---------------------------------------------------------------------------

/// `s` without the characters of class `p` at its start.
pub open spec fn trim_start_by(s: Seq<char>, p: Pat) -> Seq<char>
    decreases s.len(),
{
    if s.len() > 0 && pat_has(p, s[0]) {
        trim_start_by(s.drop_first(), p)
    } else {
        s
    }
}

/// `s` without the characters of class `p` at its end.
pub open spec fn trim_end_by(s: Seq<char>, p: Pat) -> Seq<char>
    decreases s.len(),
{
    if s.len() > 0 && pat_has(p, s.last()) {
        trim_end_by(s.drop_last(), p)
    } else {
        s
    }
}

/// `str::trim_matches` with the class `p`.
pub open spec fn trim_by(s: Seq<char>, p: Pat) -> Seq<char> {
    trim_end_by(trim_start_by(s, p), p)
}

/// `str::trim`.
pub open spec fn trim(s: Seq<char>) -> Seq<char> {
    trim_by(s, Pat::Whitespace)
}

/// Index of the first character of `s` outside class `p`, at or after `from`.
fn skip_start(s: &Vec<char>, p: Pat) -> (i: usize)
    ensures
        i <= s@.len(),
        trim_start_by(s@, p) == s@.skip(i as int),
        forall|k: int| 0 <= k < i ==> pat_has(p, #[trigger] s@[k]),
{
    let mut i: usize = 0;
    assert(s@.skip(0) =~= s@);
    while i < s.len()
        invariant
            i <= s@.len(),
            trim_start_by(s@, p) == trim_start_by(s@.skip(i as int), p),
            forall|k: int| 0 <= k < i ==> pat_has(p, #[trigger] s@[k]),
        decreases s@.len() - i,
    {
        if !pat_matches(p, s[i]) {
            return i;
        }
        assert(s@.skip(i as int).drop_first() =~= s@.skip(i + 1));
        i = i + 1;
    }
    assert(s@.skip(i as int) =~= Seq::<char>::empty());
    i
}

/// End index, at or after `lo`, of `s[lo..]` without the characters of class `p` at its end.
fn skip_end(s: &Vec<char>, lo: usize, p: Pat) -> (j: usize)
    requires
        lo <= s@.len(),
    ensures
        lo <= j <= s@.len(),
        trim_end_by(s@.subrange(lo as int, s@.len() as int), p) == s@.subrange(lo as int, j as int),
        forall|k: int| j <= k < s@.len() ==> pat_has(p, #[trigger] s@[k]),
{
    let mut j: usize = s.len();
    while j > lo
        invariant
            lo <= j <= s@.len(),
            trim_end_by(s@.subrange(lo as int, s@.len() as int), p) == trim_end_by(
                s@.subrange(lo as int, j as int),
                p,
            ),
            forall|k: int| j <= k < s@.len() ==> pat_has(p, #[trigger] s@[k]),
        decreases j,
    {
        if !pat_matches(p, s[j - 1]) {
            return j;
        }
        assert(s@.subrange(lo as int, j as int).drop_last() =~= s@.subrange(lo as int, j - 1));
        j = j - 1;
    }
    j
}

/// The characters of `s` from `lo` to `hi`, as a `String`.
pub fn string_of_range(s: &Vec<char>, lo: usize, hi: usize) -> (res: String)
    requires
        lo <= hi <= s@.len(),
    ensures
        res@ == s@.subrange(lo as int, hi as int),
{
    let mut v: Vec<char> = Vec::new();
    let mut k = lo;
    while k < hi
        invariant
            lo <= k <= hi <= s@.len(),
            v@ == s@.subrange(lo as int, k as int),
        decreases hi - k,
    {
        v.push(s[k]);
        assert(v@ =~= s@.subrange(lo as int, k + 1));
        k = k + 1;
    }
    string_of(&v)
}

/// A `String` holding exactly the characters of `chars`.
#[verifier::external_body]
pub(crate) fn string_of(chars: &Vec<char>) -> (res: String)
    ensures
        res@ == chars@,
{
    chars.iter().collect()
}

/// Bounds of `trim_by(s, p)` inside `s`.
pub fn trim_bounds(s: &Vec<char>, p: Pat) -> (res: (usize, usize))
    ensures
        res.0 <= res.1 <= s@.len(),
        trim_by(s@, p) == s@.subrange(res.0 as int, res.1 as int),
        trim_start_by(s@, p) == s@.skip(res.0 as int),
        forall|k: int| 0 <= k < res.0 ==> pat_has(p, #[trigger] s@[k]),
        forall|k: int| res.1 <= k < s@.len() ==> pat_has(p, #[trigger] s@[k]),
{
    let i = skip_start(s, p);
    let j = skip_end(s, i, p);
    assert(s@.skip(i as int) =~= s@.subrange(i as int, s@.len() as int));
    (i, j)
}

/// `str::trim_matches` with the class `p`.
pub fn trim_pat(s: &str, p: Pat) -> (res: String)
    ensures
        res@ == trim_by(s@, p),
{
    let v = chars_of(s);
    let (i, j) = trim_bounds(&v, p);
    string_of_range(&v, i, j)
}

/// `str::trim`.
pub fn trim_str(s: &str) -> (res: String)
    ensures
        res@ == trim(s@),
{
    trim_pat(s, Pat::Whitespace)
}

/// `str::trim_end_matches` with the class `p`.
pub fn trim_end_pat(s: &str, p: Pat) -> (res: String)
    ensures
        res@ == trim_end_by(s@, p),
{
    let v = chars_of(s);
    let j = skip_end(&v, 0, p);
    assert(v@.subrange(0, v@.len() as int) =~= v@);
    string_of_range(&v, 0, j)
}

// ---------------------------------------------------------------------------
// Comparisons and searches
// ---------------------------------------------------------------------------

/// The characters of `s`, in order.
pub fn chars_of(s: &str) -> (res: Vec<char>)
    ensures
        res@ == s@,
{
    let mut res: Vec<char> = Vec::new();
    for c in it: s.chars()
        invariant
            res@ == it.seq().take(it.index() as int),
            it.seq() == s@,
    {
        res.push(c);
    }
    res
}

pub fn seq_eq(a: &Vec<char>, b: &Vec<char>) -> (res: bool)
    ensures
        res == (a@ == b@),
{
    if a.len() != b.len() {
        return false;
    }
    let mut i: usize = 0;
    while i < a.len()
        invariant
            a@.len() == b@.len(),
            i <= a@.len(),
            forall|k: int| 0 <= k < i ==> a@[k] == b@[k],
        decreases a@.len() - i,
    {
        if a[i] != b[i] {
            return false;
        }
        i = i + 1;
    }
    assert(a@ =~= b@);
    true
}

/// Equality of two strings by their characters.
pub fn str_eq(a: &str, b: &str) -> (res: bool)
    ensures
        res == (a@ == b@),
{
    seq_eq(&chars_of(a), &chars_of(b))
}

/// `s` begins with `p`.
pub open spec fn has_prefix(s: Seq<char>, p: Seq<char>) -> bool {
    p.len() <= s.len() && s.take(p.len() as int) == p
}

/// `s` holds `p` somewhere.
pub open spec fn has_infix(s: Seq<char>, p: Seq<char>) -> bool {
    exists|i: int| 0 <= i && i + p.len() <= s.len() && #[trigger] s.subrange(i, i + p.len()) == p
}

fn matches_at(s: &Vec<char>, p: &Vec<char>, at: usize) -> (res: bool)
    requires
        at + p@.len() <= s@.len(),
    ensures
        res == (s@.subrange(at as int, at + p@.len()) == p@),
{
    let mut k: usize = 0;
    while k < p.len()
        invariant
            at + p@.len() <= s@.len(),
            k <= p@.len(),
            forall|m: int| 0 <= m < k ==> s@[at + m] == p@[m],
        decreases p@.len() - k,
    {
        let n = s.len();
        assert(at + k < n);
        if s[at + k] != p[k] {
            assert(s@.subrange(at as int, at + p@.len())[k as int] != p@[k as int]);
            return false;
        }
        k = k + 1;
    }
    assert(s@.subrange(at as int, at + p@.len()) =~= p@);
    true
}

pub fn starts_with(s: &str, p: &str) -> (res: bool)
    ensures
        res == has_prefix(s@, p@),
{
    let sv = chars_of(s);
    let pv = chars_of(p);
    if pv.len() > sv.len() {
        return false;
    }
    let r = matches_at(&sv, &pv, 0);
    assert(sv@.subrange(0, pv@.len() as int) =~= sv@.take(pv@.len() as int));
    r
}

pub fn seq_contains(sv: &Vec<char>, pv: &Vec<char>) -> (res: bool)
    ensures
        res == has_infix(sv@, pv@),
{
    if pv.len() > sv.len() {
        return false;
    }
    let last = sv.len() - pv.len();
    let mut i: usize = 0;
    while i <= last
        invariant
            last + pv@.len() == sv@.len(),
            i <= last + 1,
            forall|k: int| 0 <= k < i ==> #[trigger] sv@.subrange(k, k + pv@.len()) != pv@,
        decreases last + 1 - i,
    {
        if matches_at(sv, pv, i) {
            return true;
        }
        if i == last {
            return false;
        }
        i = i + 1;
    }
    false
}

/// `str::contains` with a string pattern.
pub fn contains(s: &str, p: &str) -> (res: bool)
    ensures
        res == has_infix(s@, p@),
{
    seq_contains(&chars_of(s), &chars_of(p))
}

/// `str::to_ascii_lowercase`.
pub fn lowercase(s: &str) -> (res: String)
    ensures
        res@ == lower_seq(s@),
{
    let v = chars_of(s);
    let mut out: Vec<char> = Vec::new();
    let mut i: usize = 0;
    while i < v.len()
        invariant
            v@ == s@,
            i <= v@.len(),
            out@ == lower_seq(v@.take(i as int)),
        decreases v@.len() - i,
    {
        out.push(to_ascii_lower(v[i]));
        i = i + 1;
        assert(out@ =~= lower_seq(v@.take(i as int)));
    }
    assert(v@.take(i as int) =~= v@);
    string_of(&out)
}

/// `str::eq_ignore_ascii_case`.
pub fn eq_ignore_ascii_case(a: &str, b: &str) -> (res: bool)
    ensures
        res == eq_ignore_case(a@, b@),
{
    let av = chars_of(a);
    let bv = chars_of(b);
    if av.len() != bv.len() {
        assert(lower_seq(a@).len() != lower_seq(b@).len());
        return false;
    }
    let mut i: usize = 0;
    while i < av.len()
        invariant
            av@ == a@,
            bv@ == b@,
            av@.len() == bv@.len(),
            i <= av@.len(),
            forall|k: int| 0 <= k < i ==> ascii_lower(av@[k]) == ascii_lower(bv@[k]),
        decreases av@.len() - i,
    {
        if to_ascii_lower(av[i]) != to_ascii_lower(bv[i]) {
            assert(lower_seq(a@)[i as int] != lower_seq(b@)[i as int]);
            return false;
        }
        i = i + 1;
    }
    assert(lower_seq(a@) =~= lower_seq(b@));
    true
}

} // verus!
