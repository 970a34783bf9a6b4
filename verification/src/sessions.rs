//! How Codex sessions are listed: tags, titles and the fields read from
//! Codex's session files and state database.
use vstd::prelude::*;

use crate::doc::{doc_get, doc_str, table_get, Doc};
use crate::outside::{folder_name_in, json_parse, parse_json, parse_toml, path_file_name_of, toml_parse};
use crate::strmap::{lookup, StrMap};
use crate::config::opt_str;
use crate::text::{
    chars_of, contains, eq_ignore_ascii_case, eq_ignore_case, has_infix, is_whitespace, is_ws,
    lower_seq, lowercase, str_eq, string_of, trim, trim_bounds, trim_start_by, trim_str, Pat,
};

verus! {

// ---------------------------------------------------------------------------
// Whitespace collapsing
// ---------------------------------------------------------------------------

/// `split_whitespace().join(" ")` read left to right: the text so far, and
/// whether whitespace has been seen since its last word.
pub open spec fn collapse_state(s: Seq<char>) -> (Seq<char>, bool)
    decreases s.len(),
{
    if s.len() == 0 {
        (seq![], false)
    } else {
        let prev = collapse_state(s.drop_last());
        let c = s.last();
        if is_ws(c) {
            (prev.0, prev.0.len() > 0)
        } else if prev.1 {
            (prev.0 + seq![' ', c], false)
        } else {
            (prev.0.push(c), false)
        }
    }
}

/// The words of `s` joined by single spaces.
pub open spec fn collapse_ws(s: Seq<char>) -> Seq<char> {
    collapse_state(s).0
}

/// `s.split_whitespace().collect::<Vec<_>>().join(" ")`.
pub fn collapse_whitespace(s: &str) -> (res: String)
    ensures
        res@ == collapse_ws(s@),
{
    let v = chars_of(s);
    let mut out: Vec<char> = Vec::new();
    let mut gap = false;
    let mut i: usize = 0;
    assert(v@.take(0) =~= Seq::<char>::empty());
    while i < v.len()
        invariant
            v@ == s@,
            i <= v@.len(),
            (out@, gap) == collapse_state(v@.take(i as int)),
        decreases v@.len() - i,
    {
        let c = v[i];
        assert(v@.take(i + 1).drop_last() =~= v@.take(i as int));
        assert(v@.take(i + 1).last() == c);
        if is_whitespace(c) {
            gap = out.len() > 0;
        } else if gap {
            out.push(' ');
            out.push(c);
            gap = false;
        } else {
            out.push(c);
        }
        i = i + 1;
        assert(out@ =~= collapse_state(v@.take(i as int)).0);
    }
    assert(v@.take(i as int) =~= v@);
    string_of(&out)
}

// ---------------------------------------------------------------------------
// Session tags
// ---------------------------------------------------------------------------

pub const MAX_SESSION_TAGS: usize = 20;

pub const MAX_SESSION_TAG_LENGTH: usize = 40;

pub open spec fn too_many_tags_error() -> Seq<char> {
    "每个 Session 最多设置 20 个标签"@
}

pub open spec fn tag_too_long_error() -> Seq<char> {
    "单个标签不能超过 40 个字符"@
}

/// `tag` is already in `acc`, ignoring ASCII case.
pub open spec fn has_tag(acc: Seq<Seq<char>>, tag: Seq<char>) -> bool {
    exists|i: int| 0 <= i < acc.len() && eq_ignore_case(#[trigger] acc[i], tag)
}

/// Tags `tags` normalized onto the already kept tags `acc`: each collapsed;
/// blank ones and repeats (ignoring ASCII case) dropped; an error for one longer
/// than the limit.
pub open spec fn normalize_onto(tags: Seq<Seq<char>>, acc: Seq<Seq<char>>) -> Result<
    Seq<Seq<char>>,
    Seq<char>,
>
    decreases tags.len(),
{
    if tags.len() == 0 {
        Ok(acc)
    } else {
        let t = collapse_ws(tags[0]);
        if t.len() == 0 {
            normalize_onto(tags.drop_first(), acc)
        } else if t.len() > MAX_SESSION_TAG_LENGTH {
            Err(tag_too_long_error())
        } else if has_tag(acc, t) {
            normalize_onto(tags.drop_first(), acc)
        } else {
            normalize_onto(tags.drop_first(), acc.push(t))
        }
    }
}

/// The tags stored for a session: at most the limit of them, normalized.
pub open spec fn normalize_tags_spec(tags: Seq<Seq<char>>) -> Result<Seq<Seq<char>>, Seq<char>> {
    if tags.len() > MAX_SESSION_TAGS {
        Err(too_many_tags_error())
    } else {
        normalize_onto(tags, seq![])
    }
}

pub open spec fn strings_view(v: Seq<String>) -> Seq<Seq<char>> {
    v.map_values(|s: String| s@)
}

/// Normalizes a session's tags for storage.
pub fn normalize_session_tags(tags: Vec<String>) -> (res: Result<Vec<String>, String>)
    ensures
        match res {
            Ok(v) => normalize_tags_spec(strings_view(tags@)) == Ok::<Seq<Seq<char>>, Seq<char>>(
                strings_view(v@),
            ),
            Err(e) => normalize_tags_spec(strings_view(tags@)) == Err::<Seq<Seq<char>>, Seq<char>>(
                e@,
            ),
        },
{
    if tags.len() > MAX_SESSION_TAGS {
        return Err(String::from_str("每个 Session 最多设置 20 个标签"));
    }
    let ghost all = strings_view(tags@);
    let mut normalized: Vec<String> = Vec::new();
    let mut i: usize = 0;
    assert(all.skip(0) =~= all);
    assert(strings_view(normalized@) =~= Seq::<Seq<char>>::empty());
    while i < tags.len()
        invariant
            i <= tags@.len(),
            tags@.len() <= MAX_SESSION_TAGS,
            all == strings_view(tags@),
            normalize_onto(all, seq![]) == normalize_onto(all.skip(i as int), strings_view(
                normalized@,
            )),
        decreases tags@.len() - i,
    {
        let ghost acc = strings_view(normalized@);
        assert(all.skip(i as int)[0] == tags@[i as int]@);
        assert(all.skip(i as int).drop_first() =~= all.skip(i + 1));
        let tag = collapse_whitespace(tags[i].as_str());
        let n = chars_of(tag.as_str()).len();
        if n == 0 {
            i = i + 1;
            continue;
        }
        if n > MAX_SESSION_TAG_LENGTH {
            return Err(String::from_str("单个标签不能超过 40 个字符"));
        }
        let mut dup = false;
        let mut k: usize = 0;
        while k < normalized.len()
            invariant
                k <= normalized@.len(),
                acc == strings_view(normalized@),
                dup == (exists|j: int| 0 <= j < k && eq_ignore_case(#[trigger] acc[j], tag@)),
            decreases normalized@.len() - k,
        {
            assert(acc[k as int] == normalized@[k as int]@);
            if eq_ignore_ascii_case(normalized[k].as_str(), tag.as_str()) {
                dup = true;
            }
            k = k + 1;
        }
        if !dup {
            normalized.push(tag);
            assert(strings_view(normalized@) =~= acc.push(tag@));
        }
        i = i + 1;
    }
    assert(all.skip(i as int) =~= Seq::<Seq<char>>::empty());
    Ok(normalized)
}

// ---------------------------------------------------------------------------
// Laws of the tags
// ---------------------------------------------------------------------------

/// Text already in collapsed form: whitespace only as single spaces between
/// non-whitespace characters.
pub open spec fn is_collapsed(c: Seq<char>) -> bool {
    forall|i: int|
        0 <= i < c.len() && is_ws(#[trigger] c[i]) ==> c[i] == ' ' && 0 < i < c.len() - 1 && !is_ws(
            c[i - 1],
        ) && !is_ws(c[i + 1])
}

proof fn lemma_collapse_state_shape(s: Seq<char>)
    ensures
        is_collapsed(collapse_state(s).0),
        collapse_state(s).0.len() > 0 ==> !is_ws(collapse_state(s).0.last()),
        collapse_state(s).1 ==> collapse_state(s).0.len() > 0,
    decreases s.len(),
{
    if s.len() > 0 {
        lemma_collapse_state_shape(s.drop_last());
        let prev = collapse_state(s.drop_last());
        let c = s.last();
        let o = prev.0;
        if !is_ws(c) {
            if prev.1 {
                let r = o + seq![' ', c];
                assert(is_ws(' '));
                assert forall|i: int| 0 <= i < r.len() && is_ws(#[trigger] r[i]) implies r[i] == ' '
                    && 0 < i < r.len() - 1 && !is_ws(r[i - 1]) && !is_ws(r[i + 1]) by {
                    if i < o.len() {
                        assert(r[i] == o[i]);
                        if i + 1 < o.len() {
                            assert(r[i + 1] == o[i + 1]);
                        }
                        assert(r[i - 1] == o[i - 1]);
                    }
                }
            } else {
                let r = o.push(c);
                assert forall|i: int| 0 <= i < r.len() && is_ws(#[trigger] r[i]) implies r[i] == ' '
                    && 0 < i < r.len() - 1 && !is_ws(r[i - 1]) && !is_ws(r[i + 1]) by {
                    assert(r[i] == o[i]);
                    assert(r[i - 1] == o[i - 1]);
                    if i + 1 < o.len() {
                        assert(r[i + 1] == o[i + 1]);
                    }
                }
            }
        }
    }
}

proof fn lemma_collapse_fixed_prefix(c: Seq<char>, i: int)
    requires
        is_collapsed(c),
        0 <= i <= c.len(),
    ensures
        collapse_state(c.take(i)) == if i > 0 && c[i - 1] == ' ' {
            (c.take(i - 1), true)
        } else {
            (c.take(i), false)
        },
    decreases i,
{
    if i > 0 {
        lemma_collapse_fixed_prefix(c, i - 1);
        assert(c.take(i).drop_last() =~= c.take(i - 1));
        assert(c.take(i).last() == c[i - 1]);
        let x = c[i - 1];
        if is_ws(x) {
            assert(x == ' ');
            assert(!is_ws(c[i - 2]));
            assert(c[i - 2] != ' ');
        } else {
            if i > 1 && c[i - 2] == ' ' {
                assert(c.take(i - 2) + seq![' ', x] =~= c.take(i));
            } else {
                assert(c.take(i - 1).push(x) =~= c.take(i));
            }
        }
        assert(x == ' ' ==> is_ws(x));
    } else {
        assert(c.take(0) =~= Seq::<char>::empty());
    }
}

/// Collapsing whitespace twice is collapsing it once.
pub proof fn lemma_collapse_idempotent(s: Seq<char>)
    ensures
        collapse_ws(collapse_ws(s)) == collapse_ws(s),
        is_collapsed(collapse_ws(s)),
{
    lemma_collapse_state_shape(s);
    let c = collapse_ws(s);
    lemma_collapse_fixed_prefix(c, c.len() as int);
    assert(c.take(c.len() as int) =~= c);
    if c.len() > 0 {
        assert(c[c.len() - 1] != ' ') by {
            assert(is_ws(' '));
        }
    }
}

/// Tags as they are stored: non-blank, within the length limit, collapsed, and
/// no two equal ignoring ASCII case.
pub open spec fn stored_tags(s: Seq<Seq<char>>) -> bool {
    &&& forall|i: int|
        0 <= i < s.len() ==> (#[trigger] s[i]).len() > 0 && s[i].len() <= MAX_SESSION_TAG_LENGTH
            && collapse_ws(s[i]) == s[i]
    &&& forall|i: int, j: int|
        0 <= i < j < s.len() ==> !eq_ignore_case(#[trigger] s[i], #[trigger] s[j])
}

proof fn lemma_normalize_onto_stored(tags: Seq<Seq<char>>, acc: Seq<Seq<char>>, out: Seq<Seq<char>>)
    requires
        stored_tags(acc),
        normalize_onto(tags, acc) == Ok::<Seq<Seq<char>>, Seq<char>>(out),
    ensures
        stored_tags(out),
        out.len() <= acc.len() + tags.len(),
    decreases tags.len(),
{
    if tags.len() > 0 {
        let t = collapse_ws(tags[0]);
        if t.len() == 0 || has_tag(acc, t) {
            lemma_normalize_onto_stored(tags.drop_first(), acc, out);
        } else {
            lemma_collapse_idempotent(tags[0]);
            let acc2 = acc.push(t);
            assert forall|i: int, j: int| 0 <= i < j < acc2.len() implies !eq_ignore_case(
                #[trigger] acc2[i],
                #[trigger] acc2[j],
            ) by {
                if j == acc.len() {
                    assert(acc2[i] == acc[i]);
                    assert(!eq_ignore_case(acc[i], t));
                } else {
                    assert(acc2[i] == acc[i] && acc2[j] == acc[j]);
                }
            }
            assert forall|i: int| 0 <= i < acc2.len() implies (#[trigger] acc2[i]).len() > 0
                && acc2[i].len() <= MAX_SESSION_TAG_LENGTH && collapse_ws(acc2[i]) == acc2[i] by {
                if i < acc.len() {
                    assert(acc2[i] == acc[i]);
                }
            }
            lemma_normalize_onto_stored(tags.drop_first(), acc2, out);
        }
    }
}

proof fn lemma_normalize_stored_again(out: Seq<Seq<char>>, i: int)
    requires
        stored_tags(out),
        0 <= i <= out.len(),
    ensures
        normalize_onto(out.skip(i), out.take(i)) == Ok::<Seq<Seq<char>>, Seq<char>>(out),
    decreases out.len() - i,
{
    if i == out.len() {
        assert(out.skip(i).len() == 0);
        assert(out.take(i) =~= out);
    } else {
        lemma_normalize_stored_again(out, i + 1);
        let rest = out.skip(i);
        assert(rest[0] == out[i]);
        assert(rest.drop_first() =~= out.skip(i + 1));
        assert(out.take(i).push(out[i]) =~= out.take(i + 1));
        assert(!has_tag(out.take(i), out[i])) by {
            if has_tag(out.take(i), out[i]) {
                let j = choose|j: int| 0 <= j < out.take(i).len() && eq_ignore_case(
                    #[trigger] out.take(i)[j],
                    out[i],
                );
                assert(out.take(i)[j] == out[j]);
            }
        }
    }
}

/// Normalized tags are stored tags: non-blank, within the limits, collapsed
/// and without repeats; normalizing them again gives them back unchanged.
pub proof fn lemma_normalized_tags_are_stable(tags: Seq<Seq<char>>, out: Seq<Seq<char>>)
    requires
        normalize_tags_spec(tags) == Ok::<Seq<Seq<char>>, Seq<char>>(out),
    ensures
        stored_tags(out),
        out.len() <= tags.len() <= MAX_SESSION_TAGS,
        normalize_tags_spec(out) == Ok::<Seq<Seq<char>>, Seq<char>>(out),
{
    lemma_normalize_onto_stored(tags, seq![], out);
    lemma_normalize_stored_again(out, 0);
    assert(out.skip(0) =~= out);
    assert(out.take(0) =~= Seq::<Seq<char>>::empty());
}

proof fn lemma_normalize_onto_fails(tags: Seq<Seq<char>>, acc: Seq<Seq<char>>)
    ensures
        normalize_onto(tags, acc) is Err <==> exists|i: int|
            0 <= i < tags.len() && (#[trigger] collapse_ws(tags[i])).len() > MAX_SESSION_TAG_LENGTH,
        normalize_onto(tags, acc) is Err ==> normalize_onto(tags, acc) == Err::<
            Seq<Seq<char>>,
            Seq<char>,
        >(tag_too_long_error()),
    decreases tags.len(),
{
    if tags.len() > 0 {
        let t = collapse_ws(tags[0]);
        let tail = tags.drop_first();
        lemma_normalize_onto_fails(tail, acc);
        lemma_normalize_onto_fails(tail, acc.push(t));
        assert forall|i: int| 1 <= i < tags.len() implies #[trigger] collapse_ws(tags[i])
            == collapse_ws(tail[i - 1]) by {
            assert(tail[i - 1] == tags[i]);
        }
        if exists|i: int|
            0 <= i < tags.len() && (#[trigger] collapse_ws(tags[i])).len() > MAX_SESSION_TAG_LENGTH {
            let i = choose|i: int|
                0 <= i < tags.len() && (#[trigger] collapse_ws(tags[i])).len()
                    > MAX_SESSION_TAG_LENGTH;
            if i > 0 {
                assert((collapse_ws(tail[i - 1])).len() > MAX_SESSION_TAG_LENGTH);
            }
        }
        if exists|i: int|
            0 <= i < tail.len() && (#[trigger] collapse_ws(tail[i])).len() > MAX_SESSION_TAG_LENGTH {
            let i = choose|i: int|
                0 <= i < tail.len() && (#[trigger] collapse_ws(tail[i])).len()
                    > MAX_SESSION_TAG_LENGTH;
            assert(collapse_ws(tags[i + 1]).len() > MAX_SESSION_TAG_LENGTH);
        }
    }
}

/// Normalizing tags fails exactly when there are more than the limit of them,
/// with that error, or otherwise when some tag, its whitespace collapsed, is
/// longer than the length limit, with that error.
pub proof fn lemma_tag_errors(tags: Seq<Seq<char>>)
    ensures
        tags.len() > MAX_SESSION_TAGS ==> normalize_tags_spec(tags) == Err::<
            Seq<Seq<char>>,
            Seq<char>,
        >(too_many_tags_error()),
        tags.len() <= MAX_SESSION_TAGS ==> (normalize_tags_spec(tags) is Err <==> exists|i: int|
            0 <= i < tags.len() && (#[trigger] collapse_ws(tags[i])).len()
                > MAX_SESSION_TAG_LENGTH),
        tags.len() <= MAX_SESSION_TAGS && normalize_tags_spec(tags) is Err ==> normalize_tags_spec(
            tags,
        ) == Err::<Seq<Seq<char>>, Seq<char>>(tag_too_long_error()),
{
    lemma_normalize_onto_fails(tags, seq![]);
}

// ---------------------------------------------------------------------------
// Titles
// ---------------------------------------------------------------------------

/// `text` collapsed, and cut to `max_chars` characters with a final `…` when longer.
pub open spec fn compact_spec(text: Seq<char>, max_chars: nat) -> Seq<char> {
    let t = collapse_ws(text);
    if t.len() <= max_chars {
        t
    } else {
        t.take(if max_chars > 0 {
            max_chars - 1
        } else {
            0
        }) + seq!['…']
    }
}

/// A compacted text never exceeds the limit (when the limit is not 0); text
/// that fits is only collapsed; text that does not keeps its beginning and
/// ends in `…`.
pub proof fn lemma_compact_fits(text: Seq<char>, max_chars: nat)
    ensures
        max_chars > 0 ==> compact_spec(text, max_chars).len() <= max_chars,
        collapse_ws(text).len() <= max_chars ==> compact_spec(text, max_chars) == collapse_ws(text),
        collapse_ws(text).len() > max_chars ==> compact_spec(text, max_chars).last() == '…'
            && forall|i: int|
            0 <= i < compact_spec(text, max_chars).len() - 1 ==> #[trigger] compact_spec(
                text,
                max_chars,
            )[i] == collapse_ws(text)[i],
{
}

/// Collapses the whitespace of `text` and cuts it to `max_chars` characters.
pub fn compact_text(text: &str, max_chars: usize) -> (res: String)
    ensures
        res@ == compact_spec(text@, max_chars as nat),
{
    let t = collapse_whitespace(text);
    let v = chars_of(t.as_str());
    if v.len() <= max_chars {
        return t;
    }
    let keep = if max_chars > 0 {
        max_chars - 1
    } else {
        0
    };
    let mut out: Vec<char> = Vec::new();
    let mut i: usize = 0;
    while i < keep
        invariant
            keep < v@.len(),
            i <= keep,
            out@ == v@.take(i as int),
        decreases keep - i,
    {
        out.push(v[i]);
        assert(out@ =~= v@.take(i + 1));
        i = i + 1;
    }
    out.push('…');
    string_of(&out)
}

/// `str::split(c)`: the pieces between the occurrences of `c`.
pub open spec fn split_on(s: Seq<char>, c: char) -> Seq<Seq<char>>
    decreases s.len(),
{
    let k = crate::codex_toml::idx_of(s, c);
    if 0 <= k < s.len() {
        seq![s.take(k)] + split_on(s.skip(k + 1), c)
    } else {
        seq![s]
    }
}

pub open spec fn is_hex_digit(c: char) -> bool {
    ('0' <= c <= '9') || ('a' <= c <= 'f') || ('A' <= c <= 'F')
}

/// A group of `len` hex digits.
pub open spec fn hex_group(g: Seq<char>, len: nat) -> bool {
    g.len() == len && forall|i: int| 0 <= i < g.len() ==> is_hex_digit(#[trigger] g[i])
}

/// Starts like a UUID: its first five `-`-separated groups hold 8, 4, 4, 4 and
/// 12 hex digits.
pub open spec fn uuid_like(v: Seq<char>) -> bool {
    let g = split_on(v, '-');
    &&& g.len() >= 5
    &&& hex_group(g[0], 8)
    &&& hex_group(g[1], 4)
    &&& hex_group(g[2], 4)
    &&& hex_group(g[3], 4)
    &&& hex_group(g[4], 12)
}

fn is_hex(c: char) -> (res: bool)
    ensures
        res == is_hex_digit(c),
{
    ('0' <= c && c <= '9') || ('a' <= c && c <= 'f') || ('A' <= c && c <= 'F')
}

/// Whether `v[lo..hi]` is a group of `len` hex digits.
fn hex_group_at(v: &Vec<char>, lo: usize, hi: usize, len: usize) -> (res: bool)
    requires
        lo <= hi <= v@.len(),
    ensures
        res == hex_group(v@.subrange(lo as int, hi as int), len as nat),
{
    if hi - lo != len {
        return false;
    }
    let mut k = lo;
    while k < hi
        invariant
            lo <= k <= hi <= v@.len(),
            forall|m: int| lo <= m < k ==> is_hex_digit(#[trigger] v@[m]),
        decreases hi - k,
    {
        if !is_hex(v[k]) {
            assert(v@.subrange(lo as int, hi as int)[k - lo] == v@[k as int]);
            return false;
        }
        k = k + 1;
    }
    assert forall|m: int| 0 <= m < hi - lo implies is_hex_digit(
        #[trigger] v@.subrange(lo as int, hi as int)[m],
    ) by {
        assert(v@.subrange(lo as int, hi as int)[m] == v@[lo + m]);
    }
    true
}

proof fn lemma_split_step(v: Seq<char>, pos: int, k: int)
    requires
        0 <= pos <= k < v.len(),
        v[k] == '-',
        forall|m: int| pos <= m < k ==> v[m] != '-',
    ensures
        split_on(v.skip(pos), '-') == seq![v.subrange(pos, k)] + split_on(v.skip(k + 1), '-'),
{
    let u = v.skip(pos);
    assert forall|j: int| 0 <= j < k - pos implies u[j] != '-' by {
        assert(u[j] == v[pos + j]);
    }
    crate::codex_toml::lemma_idx_of_at_pub(u, '-', k - pos);
    assert(u.take(k - pos) =~= v.subrange(pos, k));
    assert(u.skip(k - pos + 1) =~= v.skip(k + 1));
}

proof fn lemma_split_last(v: Seq<char>, pos: int)
    requires
        0 <= pos <= v.len(),
        forall|m: int| pos <= m < v.len() ==> v[m] != '-',
    ensures
        split_on(v.skip(pos), '-') == seq![v.subrange(pos, v.len() as int)],
{
    let u = v.skip(pos);
    assert forall|j: int| 0 <= j < u.len() implies u[j] != '-' by {
        assert(u[j] == v[pos + j]);
    }
    crate::codex_toml::lemma_idx_of_none_pub(u, '-');
    assert(u =~= v.subrange(pos, v.len() as int));
}

/// Whether `value` starts like a UUID.
pub fn looks_like_uuid(value: &str) -> (res: bool)
    ensures
        res == uuid_like(value@),
{
    let v = chars_of(value);
    let lens: [usize; 5] = [8, 4, 4, 4, 12];
    let ghost g = split_on(v@, '-');
    let mut pos: usize = 0;
    let mut idx: usize = 0;
    assert(v@.skip(0) =~= v@);
    while idx < 5
        invariant
            v@ == value@,
            g == split_on(v@, '-'),
            idx <= 5,
            pos <= v@.len(),
            lens@ == seq![8usize, 4, 4, 4, 12],
            g.len() >= idx,
            g.skip(idx as int) == split_on(v@.skip(pos as int), '-'),
            forall|m: int| 0 <= m < idx ==> hex_group(#[trigger] g[m], lens@[m] as nat),
        decreases 5 - idx,
    {
        let mut k = pos;
        while k < v.len() && v[k] != '-'
            invariant
                pos <= k <= v@.len(),
                forall|m: int| pos <= m < k ==> v@[m] != '-',
            decreases v@.len() - k,
        {
            k = k + 1;
        }
        let ok = hex_group_at(&v, pos, k, lens[idx]);
        if k < v.len() {
            proof {
                lemma_split_step(v@, pos as int, k as int);
                assert(g.skip(idx as int).len() >= 1);
                assert(g.skip(idx as int)[0] == g[idx as int]);
                assert(g.skip(idx as int).drop_first() =~= g.skip(idx + 1));
            }
            if !ok {
                return false;
            }
            pos = k + 1;
            idx = idx + 1;
        } else {
            proof {
                lemma_split_last(v@, pos as int);
                assert(g.skip(idx as int).len() == 1);
                assert(g.skip(idx as int)[0] == g[idx as int]);
                assert(g.len() == idx + 1);
            }
            if idx < 4 {
                return false;
            }
            return ok;
        }
    }
    true
}

/// The text up to the first whitespace.
pub open spec fn take_word(s: Seq<char>) -> Seq<char>
    decreases s.len(),
{
    if s.len() == 0 || is_ws(s[0]) {
        seq![]
    } else {
        seq![s[0]] + take_word(s.drop_first())
    }
}

/// `split_whitespace().next().unwrap_or_default()`: the first word, or nothing.
pub open spec fn first_word(s: Seq<char>) -> Seq<char> {
    take_word(trim_start_by(s, Pat::Whitespace))
}

fn first_word_of(s: &str) -> (res: String)
    ensures
        res@ == first_word(s@),
{
    let v = chars_of(s);
    let (i, _j) = trim_bounds(&v, Pat::Whitespace);
    let mut k = i;
    let ghost u = v@.skip(i as int);
    assert(u.skip(0) =~= u);
    let mut out: Vec<char> = Vec::new();
    while k < v.len() && !is_whitespace(v[k])
        invariant
            i <= k <= v@.len(),
            u == v@.skip(i as int),
            out@ == v@.subrange(i as int, k as int),
            take_word(u) == out@ + take_word(v@.skip(k as int)),
        decreases v@.len() - k,
    {
        let ghost w = v@.skip(k as int);
        assert(w[0] == v@[k as int]);
        assert(w.drop_first() =~= v@.skip(k + 1));
        out.push(v[k]);
        assert(out@ =~= v@.subrange(i as int, k + 1));
        k = k + 1;
        assert(take_word(u) =~= out@ + take_word(v@.skip(k as int)));
    }
    proof {
        let w = v@.skip(k as int);
        if k < v@.len() {
            assert(w[0] == v@[k as int]);
        }
        assert(take_word(w) =~= Seq::<char>::empty());
        assert(out@ + Seq::<char>::empty() =~= out@);
    }
    string_of(&out)
}

/// A title that Codex generated rather than the user: instructions echoed
/// back, or one starting with a UUID.
pub open spec fn placeholder_title(title: Seq<char>) -> bool {
    let t = lower_seq(title);
    ||| has_infix(t, "agents.md instructions"@)
    ||| has_infix(t, "<instructions>"@)
    ||| has_infix(t, "you are codex"@)
    ||| uuid_like(first_word(t))
}

/// Whether `title` is a generated placeholder rather than a real title.
pub fn is_placeholder_title(title: &str) -> (res: bool)
    ensures
        res == placeholder_title(title@),
{
    let t = lowercase(title);
    contains(t.as_str(), "agents.md instructions") || contains(t.as_str(), "<instructions>")
        || contains(t.as_str(), "you are codex") || looks_like_uuid(first_word_of(t.as_str()).as_str())
}

// ---------------------------------------------------------------------------
// JSON read from session files
// ---------------------------------------------------------------------------

/// A session source that marks a subagent: a string mentioning `subagent`
/// (any case), or an object with a `subagent` member.
pub open spec fn subagent_source(d: Doc) -> bool {
    match d {
        Doc::Str(s) => has_infix(lower_seq(s@), "subagent"@),
        Doc::Table(es) => table_get(es@, "subagent"@) is Some,
        _ => false,
    }
}

/// Whether a session's `source` marks it as a subagent's.
pub fn json_is_subagent_source(value: &Doc) -> (res: bool)
    ensures
        res == subagent_source(*value),
{
    match value {
        Doc::Str(s) => contains(lowercase(s.as_str()).as_str(), "subagent"),
        Doc::Table(_) => value.get("subagent").is_some(),
        _ => false,
    }
}

/// Texts joined by single spaces.
pub open spec fn join_space(ts: Seq<Seq<char>>) -> Seq<char>
    decreases ts.len(),
{
    if ts.len() == 0 {
        seq![]
    } else if ts.len() == 1 {
        ts[0]
    } else {
        join_space(ts.drop_last()) + seq![' '] + ts.last()
    }
}

/// Position of the first entry with key `k`, or -1.
pub open spec fn table_idx(es: Seq<(String, Doc)>, k: Seq<char>) -> int
    decreases es.len(),
{
    if es.len() == 0 {
        -1
    } else if es[0].0@ == k {
        0
    } else {
        let r = table_idx(es.drop_first(), k);
        if r < 0 {
            -1
        } else {
            r + 1
        }
    }
}

/// The text of a message's content: a string itself; the non-empty texts of a
/// list joined by spaces; the text of an object's `text` member, else of its
/// `value` member.
pub open spec fn doc_text(d: Doc) -> Seq<char>
    decreases d, 0nat,
{
    match d {
        Doc::Str(s) => s@,
        Doc::List(vs) => join_space(list_texts(vs@, vs@.len() as int)),
        Doc::Table(es) => {
            let i = table_idx(es@, "text"@);
            if 0 <= i < es@.len() {
                doc_text(es@[i].1)
            } else {
                let j = table_idx(es@, "value"@);
                if 0 <= j < es@.len() {
                    doc_text(es@[j].1)
                } else {
                    seq![]
                }
            }
        },
        _ => seq![],
    }
}

/// The non-empty texts of the first `n` values of `vs`.
pub open spec fn list_texts(vs: Seq<Doc>, n: int) -> Seq<Seq<char>>
    decreases vs, n,
{
    if n <= 0 || n > vs.len() {
        seq![]
    } else {
        let t = doc_text(vs[n - 1]);
        let prev = list_texts(vs, n - 1);
        if t.len() > 0 {
            prev.push(t)
        } else {
            prev
        }
    }
}

proof fn lemma_table_idx(es: Seq<(String, Doc)>, k: Seq<char>)
    ensures
        -1 <= table_idx(es, k) < es.len(),
        table_idx(es, k) >= 0 ==> es[table_idx(es, k)].0@ == k,
        forall|j: int| 0 <= j < es.len() && (table_idx(es, k) < 0 || j < table_idx(es, k)) ==> es[j].0@ != k,
    decreases es.len(),
{
    if es.len() > 0 && es[0].0@ != k {
        lemma_table_idx(es.drop_first(), k);
        assert forall|j: int|
            0 <= j < es.len() && (table_idx(es, k) < 0 || j < table_idx(es, k)) implies es[j].0@ != k by {
            if j > 0 {
                assert(es[j] == es.drop_first()[j - 1]);
            }
        }
    }
}

fn find_key(es: &Vec<(String, Doc)>, key: &str) -> (res: Option<usize>)
    ensures
        match res {
            Some(i) => i as int == table_idx(es@, key@) && i < es@.len(),
            None => table_idx(es@, key@) < 0,
        },
{
    proof {
        lemma_table_idx(es@, key@);
    }
    let mut i: usize = 0;
    while i < es.len()
        invariant
            i <= es@.len(),
            -1 <= table_idx(es@, key@) < es@.len(),
            table_idx(es@, key@) >= 0 ==> es@[table_idx(es@, key@)].0@ == key@,
            forall|j: int| 0 <= j < es@.len() && (table_idx(es@, key@) < 0 || j < table_idx(es@, key@)) ==> es@[j].0@ != key@,
            table_idx(es@, key@) < 0 || i <= table_idx(es@, key@),
        decreases es@.len() - i,
    {
        if str_eq(es[i].0.as_str(), key) {
            return Some(i);
        }
        i = i + 1;
    }
    None
}

/// The text of a message's `content`.
pub fn extract_text(value: &Doc) -> (res: String)
    ensures
        res@ == doc_text(*value),
    decreases value,
{
    match value {
        Doc::Str(s) => s.clone(),
        Doc::List(vs) => {
            let mut out: Vec<char> = Vec::new();
            let mut count: usize = 0;
            let mut i: usize = 0;
            while i < vs.len()
                invariant
                    i <= vs@.len(),
                    *value == Doc::List(*vs),
                    out@ == join_space(list_texts(vs@, i as int)),
                    count == list_texts(vs@, i as int).len(),
                    count <= i,
                decreases vs@.len() - i,
            {
                proof {
                    let ghost vv = *vs;
                    assert(decreases_to!(*value => (*value)->List_0));
                    assert((*value)->List_0 == vv);
                    assert(decreases_to!(vv => vv@));
                    assert(decreases_to!(vv@ => vv@[i as int]));
                    assert(decreases_to!(*value => vs@[i as int]));
                }
                let t = extract_text(&vs[i]);
                let tv = chars_of(t.as_str());
                let ghost prev = list_texts(vs@, i as int);
                if tv.len() > 0 {
                    if count > 0 {
                        out.push(' ');
                    }
                    let mut k: usize = 0;
                    let ghost base = out@;
                    while k < tv.len()
                        invariant
                            k <= tv@.len(),
                            out@ == base + tv@.take(k as int),
                        decreases tv@.len() - k,
                    {
                        out.push(tv[k]);
                        assert(out@ =~= base + tv@.take(k + 1));
                        k = k + 1;
                    }
                    assert(tv@.take(k as int) =~= tv@);
                    proof {
                        let now = prev.push(t@);
                        assert(now.drop_last() =~= prev);
                        if count == 0 {
                            assert(prev.len() == 0);
                            assert(out@ =~= t@);
                        } else {
                            assert(out@ =~= join_space(prev) + seq![' '] + t@);
                        }
                    }
                    count = count + 1;
                }
                i = i + 1;
            }
            string_of(&out)
        },
        Doc::Table(es) => {
            match find_key(es, "text") {
                Some(i) => {
                    proof {
                        assert(decreases_to!(*value => es@[i as int].1));
                    }
                    extract_text(&es[i].1)
                },
                None => match find_key(es, "value") {
                    Some(j) => {
                        proof {
                            assert(decreases_to!(*value => es@[j as int].1));
                        }
                        extract_text(&es[j].1)
                    },
                    None => String::new(),
                },
            }
        },
        _ => String::new(),
    }
}

// ---------------------------------------------------------------------------
// The session index and the state database
// ---------------------------------------------------------------------------

/// The documents of the lines `texts` that parse as JSON, in order; the
/// others are skipped.
pub open spec fn parsed_lines(texts: Seq<String>) -> Seq<Doc>
    decreases texts.len(),
{
    if texts.len() == 0 {
        Seq::empty()
    } else {
        let rest = parsed_lines(texts.drop_last());
        match json_parse(texts.last()@) {
            Ok(d) => rest.push(d),
            Err(_) => rest,
        }
    }
}

/// Parses each line of a JSON-lines file, skipping the lines that are not JSON.
pub fn parse_lines(texts: &Vec<String>) -> (res: Vec<Doc>)
    ensures
        res@ == parsed_lines(texts@),
{
    let mut out: Vec<Doc> = Vec::new();
    let mut i: usize = 0;
    assert(texts@.take(0) =~= Seq::<String>::empty());
    while i < texts.len()
        invariant
            i <= texts@.len(),
            out@ == parsed_lines(texts@.take(i as int)),
        decreases texts@.len() - i,
    {
        assert(texts@.take(i + 1).drop_last() =~= texts@.take(i as int));
        assert(texts@.take(i + 1).last() == texts@[i as int]);
        match parse_json(texts[i].as_str()) {
            Ok(d) => out.push(d),
            Err(_) => {},
        }
        i = i + 1;
    }
    assert(texts@.take(i as int) =~= texts@);
    out
}

/// The `sqlite_home` that a parsed Codex `config.toml` sets, as a string.
pub open spec fn sqlite_home_of(parsed: Result<Doc, Seq<char>>) -> Option<Seq<char>> {
    match parsed {
        Ok(d) => doc_str(doc_get(d, "sqlite_home"@)),
        Err(_) => None,
    }
}

/// The `sqlite_home` that Codex's `config.toml` text sets, where it parses
/// and sets one as a string.
pub open spec fn sqlite_home_spec(config_text: Seq<char>) -> Option<Seq<char>> {
    sqlite_home_of(toml_parse(config_text))
}

/// The `sqlite_home` of a parsed Codex `config.toml`, nothing where it did not
/// parse.
pub fn sqlite_home_in(parsed: Result<Doc, String>) -> (res: Option<String>)
    ensures
        opt_str(res) == sqlite_home_of(
            match parsed {
                Ok(d) => Ok::<Doc, Seq<char>>(d),
                Err(e) => Err::<Doc, Seq<char>>(e@),
            },
        ),
{
    match parsed {
        Ok(d) => match d.get("sqlite_home") {
            Some(v) => match v.as_str() {
                Some(s) => Some(s.clone()),
                None => None,
            },
            None => None,
        },
        Err(_) => None,
    }
}

/// Where Codex's `config.toml` text puts its state database's directory.
pub fn configured_sqlite_home(config_text: &str) -> (res: Option<String>)
    ensures
        opt_str(res) == sqlite_home_spec(config_text@),
{
    sqlite_home_in(parse_toml(config_text))
}

/// The trimmed text of member `k` of `d`, when it is a string.
pub open spec fn member_text(d: Doc, k: Seq<char>) -> Option<Seq<char>> {
    match doc_str(doc_get(d, k)) {
        Some(s) => Some(trim(s)),
        None => None,
    }
}

fn member_text_of(d: &Doc, k: &str) -> (res: Option<String>)
    ensures
        opt_str(res) == member_text(*d, k@),
{
    match d.get(k) {
        Some(v) => match v.as_str() {
            Some(s) => Some(trim_str(s.as_str())),
            None => None,
        },
        None => None,
    }
}

/// The title an entry of `session_index.jsonl` gives a thread: its trimmed
/// `id` and its `thread_name` compacted to 100 characters, both non-blank.
pub open spec fn thread_title_spec(d: Doc) -> Option<(Seq<char>, Seq<char>)> {
    match (member_text(d, "id"@), member_text(d, "thread_name"@)) {
        (Some(id), Some(title)) => if id.len() > 0 && title.len() > 0 {
            Some((id, compact_spec(title, 100)))
        } else {
            None
        },
        _ => None,
    }
}

pub fn thread_title_entry(d: &Doc) -> (res: Option<(String, String)>)
    ensures
        match res {
            Some((id, title)) => thread_title_spec(*d) == Some((id@, title@)),
            None => thread_title_spec(*d) is None,
        },
{
    let id = match member_text_of(d, "id") {
        Some(x) => x,
        None => return None,
    };
    let title = match member_text_of(d, "thread_name") {
        Some(x) => x,
        None => return None,
    };
    if id.as_str().is_empty() || title.as_str().is_empty() {
        return None;
    }
    Some((id, compact_text(title.as_str(), 100)))
}

/// The title that the index's entries `ds` give thread `k`: that of its last entry.
pub open spec fn last_title(ds: Seq<Doc>, k: Seq<char>) -> Option<Seq<char>>
    decreases ds.len(),
{
    if ds.len() == 0 {
        None
    } else {
        match thread_title_spec(ds.last()) {
            Some((id, title)) => if id == k {
                Some(title)
            } else {
                last_title(ds.drop_last(), k)
            },
            None => last_title(ds.drop_last(), k),
        }
    }
}

/// The thread titles of the entries of `session_index.jsonl`, by thread id.
pub fn collect_thread_titles(ds: &Vec<Doc>) -> (res: StrMap<String>)
    ensures
        forall|k: Seq<char>| #[trigger] opt_str(lookup(res@, k)) == last_title(ds@, k),
{
    let mut m: StrMap<String> = StrMap::new();
    let mut i: usize = 0;
    while i < ds.len()
        invariant
            i <= ds@.len(),
            forall|k: Seq<char>| #[trigger] opt_str(lookup(m@, k)) == last_title(ds@.take(i as int), k),
        decreases ds@.len() - i,
    {
        let ghost before = m@;
        assert(ds@.take(i + 1).drop_last() =~= ds@.take(i as int));
        assert(ds@.take(i + 1).last() == ds@[i as int]);
        m.assert_ascending();
        match thread_title_entry(&ds[i]) {
            Some((id, title)) => {
                let ghost kid = id@;
                let ghost tv = title;
                proof {
                    crate::strmap::lemma_upsert(before, kid, tv);
                }
                m.insert(id, title);
                assert forall|k: Seq<char>| #[trigger] opt_str(lookup(m@, k)) == last_title(
                    ds@.take(i + 1),
                    k,
                ) by {
                    if k != kid {
                        assert(lookup(m@, k) == lookup(before, k));
                    }
                }
            },
            None => {},
        }
        i = i + 1;
    }
    assert(ds@.take(i as int) =~= ds@);
    m
}

/// A thread as Codex's state database records it.
pub struct StoredSession {
    pub title: String,
    pub project_dir: String,
    pub created_at: u64,
    pub last_active_at: u64,
    pub is_subagent: bool,
}

/// A millisecond time from the database: missing and negative ones count as 0.
pub open spec fn db_millis(v: Option<i64>) -> u64 {
    match v {
        Some(x) => if x > 0 {
            x as u64
        } else {
            0
        },
        None => 0,
    }
}

fn db_millis_of(v: Option<i64>) -> (res: u64)
    ensures
        res == db_millis(v),
{
    match v {
        Some(x) => if x > 0 {
            x as u64
        } else {
            0
        },
        None => 0,
    }
}

/// A row of the `threads` table: its title compacted to 100 characters, its
/// times, its working directory, and whether its source names a subagent.
pub fn stored_session_from_row(
    title: &str,
    created_at_ms: Option<i64>,
    updated_at_ms: Option<i64>,
    cwd: String,
    source: &str,
) -> (res: StoredSession)
    ensures
        res.title@ == compact_spec(title@, 100),
        res.project_dir@ == cwd@,
        res.created_at == db_millis(created_at_ms),
        res.last_active_at == db_millis(updated_at_ms),
        res.is_subagent == has_infix(lower_seq(source@), "subagent"@),
{
    StoredSession {
        title: compact_text(title, 100),
        project_dir: cwd,
        created_at: db_millis_of(created_at_ms),
        last_active_at: db_millis_of(updated_at_ms),
        is_subagent: contains(lowercase(source).as_str(), "subagent"),
    }
}

// ---------------------------------------------------------------------------
// One session file
// ---------------------------------------------------------------------------

/// A session as the dashboard lists it.
pub struct ScannedSession {
    pub id: String,
    pub title: String,
    pub project_dir: String,
    pub created_at: u64,
    pub last_active_at: u64,
    pub size_bytes: u64,
}

/// Member `b` of member `a` of `d`.
pub open spec fn get2(d: Doc, a: Seq<char>, b: Seq<char>) -> Option<Doc> {
    match doc_get(d, a) {
        Some(x) => doc_get(x, b),
        None => None,
    }
}

/// What a line of a session file sets: `session_meta` lines set the id and
/// the working directory (or mark a subagent), the first user message sets
/// the title. State: (id, title, project_dir); `None` for a subagent's session.
pub open spec fn scan_session(ls: Seq<Doc>, st: (Seq<char>, Seq<char>, Seq<char>)) -> Option<
    (Seq<char>, Seq<char>, Seq<char>),
>
    decreases ls.len(),
{
    if ls.len() == 0 {
        Some(st)
    } else {
        let v = ls[0];
        let ty = doc_str(doc_get(v, "type"@));
        if ty == Some("session_meta"@) && get2(v, "payload"@, "source"@) is Some && subagent_source(
            get2(v, "payload"@, "source"@)->0,
        ) {
            None
        } else {
            let id = if ty == Some("session_meta"@) && doc_str(get2(v, "payload"@, "id"@)) is Some {
                doc_str(get2(v, "payload"@, "id"@))->0
            } else {
                st.0
            };
            let dir = if ty == Some("session_meta"@) && doc_str(get2(v, "payload"@, "cwd"@)) is Some {
                doc_str(get2(v, "payload"@, "cwd"@))->0
            } else {
                st.2
            };
            let title = if st.1.len() == 0 && ty == Some("response_item"@) && doc_str(
                get2(v, "payload"@, "role"@),
            ) == Some("user"@) {
                compact_spec(
                    match get2(v, "payload"@, "content"@) {
                        Some(c) => doc_text(c),
                        None => seq![],
                    },
                    100,
                )
            } else {
                st.1
            };
            scan_session(ls.drop_first(), (id, title, dir))
        }
    }
}

fn text_at(d: &Doc, a: &str, b: &str) -> (res: Option<String>)
    ensures
        opt_str(res) == doc_str(get2(*d, a@, b@)),
{
    match d.get(a) {
        Some(x) => match x.get(b) {
            Some(y) => match y.as_str() {
                Some(s) => Some(s.clone()),
                None => None,
            },
            None => None,
        },
        None => None,
    }
}

fn is_type(d: &Doc, ty: &str) -> (res: bool)
    ensures
        res == (doc_str(doc_get(*d, "type"@)) == Some(ty@)),
{
    match d.get("type") {
        Some(x) => match x.as_str() {
            Some(s) => str_eq(s.as_str(), ty),
            None => false,
        },
        None => false,
    }
}

/// Reads the lines of a session file into (id, title, project_dir).
fn scan_lines(lines: &Vec<Doc>, id: &String, project_dir: &String) -> (res: Option<
    (String, String, String),
>)
    ensures
        match res {
            Some((i, t, d)) => scan_session(lines@, (id@, seq![], project_dir@)) == Some(
                (i@, t@, d@),
            ),
            None => scan_session(lines@, (id@, seq![], project_dir@)) is None,
        },
{
    let ghost start = (id@, Seq::<char>::empty(), project_dir@);
    let mut cur_id = id.clone();
    let mut title = String::new();
    let mut dir = project_dir.clone();
    let mut n: usize = 0;
    assert(lines@.skip(0) =~= lines@);
    while n < lines.len()
        invariant
            n <= lines@.len(),
            start == (id@, Seq::<char>::empty(), project_dir@),
            scan_session(lines@, start) == scan_session(
                lines@.skip(n as int),
                (cur_id@, title@, dir@),
            ),
        decreases lines@.len() - n,
    {
        let v = &lines[n];
        assert(lines@.skip(n as int)[0] == *v);
        assert(lines@.skip(n as int).drop_first() =~= lines@.skip(n + 1));
        let meta = is_type(v, "session_meta");
        if meta {
            let source = match v.get("payload") {
                Some(p) => p.get("source"),
                None => None,
            };
            match source {
                Some(src) => {
                    if json_is_subagent_source(src) {
                        assert(get2(*v, "payload"@, "source"@) == Some(*src));
                        assert(scan_session(lines@.skip(n as int), (cur_id@, title@, dir@)) is None);
                        return None;
                    }
                },
                None => {},
            }
            match text_at(v, "payload", "id") {
                Some(x) => {
                    cur_id = x;
                },
                None => {},
            }
            match text_at(v, "payload", "cwd") {
                Some(x) => {
                    dir = x;
                },
                None => {},
            }
        }
        if title.as_str().is_empty() && is_type(v, "response_item") {
            let is_user = match text_at(v, "payload", "role") {
                Some(r) => str_eq(r.as_str(), "user"),
                None => false,
            };
            if is_user {
                let content_text = match v.get("payload") {
                    Some(p) => match p.get("content") {
                        Some(c) => extract_text(c),
                        None => String::new(),
                    },
                    None => String::new(),
                };
                title = compact_text(content_text.as_str(), 100);
            }
        }
        n = n + 1;
    }
    assert(lines@.skip(n as int) =~= Seq::<Doc>::empty());
    Some((cur_id, title, dir))
}

/// The session that a file describes, before its title is settled: its id,
/// title (a placeholder when it has none), project directory, creation and
/// last-activity times, and whether its title is to be made from the
/// project's folder name; `None` for a subagent's session.
pub open spec fn session_spec(
    fallback_id: Seq<char>,
    created_at: u64,
    last_active_at: u64,
    lines: Seq<Doc>,
    titles: Seq<(Seq<char>, String)>,
    stored: Seq<(Seq<char>, StoredSession)>,
) -> Option<(Seq<char>, Seq<char>, Seq<char>, u64, u64, bool)> {
    if lookup(stored, fallback_id) is Some && lookup(stored, fallback_id)->0.is_subagent {
        None
    } else {
        match scan_session(lines, (fallback_id, seq![], seq![])) {
            None => None,
            Some((id, t, dir)) => {
                let title = if t.len() == 0 {
                    "未命名 Session"@
                } else {
                    t
                };
                match lookup(stored, id) {
                    Some(s) => if s.is_subagent {
                        None
                    } else {
                        Some(
                            (
                                id,
                                if s.title@.len() > 0 {
                                    s.title@
                                } else {
                                    title
                                },
                                if s.project_dir@.len() > 0 {
                                    s.project_dir@
                                } else {
                                    dir
                                },
                                if s.created_at > 0 {
                                    s.created_at
                                } else {
                                    created_at
                                },
                                if s.last_active_at > 0 {
                                    s.last_active_at
                                } else {
                                    last_active_at
                                },
                                false,
                            ),
                        )
                    },
                    None => match lookup(titles, id) {
                        Some(x) => Some((id, x@, dir, created_at, last_active_at, false)),
                        None => Some(
                            (id, title, dir, created_at, last_active_at, placeholder_title(title)),
                        ),
                    },
                }
            },
        }
    }
}

/// The session index titles a session by the id its file declares: when the
/// state database has no thread of that id and the index has a title for it,
/// that title is the session's, and no folder title replaces it.
pub proof fn lemma_index_titles_by_session_id(
    fallback_id: Seq<char>,
    created_at: u64,
    last_active_at: u64,
    lines: Seq<Doc>,
    titles: Seq<(Seq<char>, String)>,
    stored: Seq<(Seq<char>, StoredSession)>,
)
    ensures
        session_spec(fallback_id, created_at, last_active_at, lines, titles, stored) matches Some(r)
            ==> (lookup(stored, r.0) is None && lookup(titles, r.0) is Some ==> r.1 == lookup(
            titles,
            r.0,
        )->0@ && !r.5),
        session_spec(fallback_id, created_at, last_active_at, lines, titles, stored) matches Some(r)
            ==> scan_session(lines, (fallback_id, seq![], seq![])) matches Some(sc) && r.0 == sc.0,
{
}

/// The title made from a project folder's name `folder`: `Codex Session · `
/// followed by the name, or by `当前项目` where there is no name or it is empty.
pub open spec fn fallback_title_spec(folder: Option<Seq<char>>) -> Seq<char> {
    "Codex Session · "@ + match folder {
        Some(f) => if f.len() > 0 {
            f
        } else {
            "当前项目"@
        },
        None => "当前项目"@,
    }
}

/// The title for a session whose own title is a placeholder, from the name
/// of its project's folder.
pub fn fallback_title(folder: Option<String>) -> (res: String)
    ensures
        res@ == fallback_title_spec(opt_str(folder)),
{
    let name = match folder {
        Some(f) => if f.as_str().is_empty() {
            String::from_str("当前项目")
        } else {
            f
        },
        None => String::from_str("当前项目"),
    };
    String::from_str("Codex Session · ").concat(name.as_str())
}

/// A title made from the project's folder: the fallback title of what
/// `Path::file_name` gives for the project directory `dir`, which is nothing
/// or a non-empty piece of `dir`.
pub open spec fn folder_title(title: Seq<char>, dir: Seq<char>) -> bool {
    exists|n: Option<Seq<char>>|
        (n matches Some(x) ==> folder_name_in(dir, x)) && title == #[trigger] fallback_title_spec(n)
}

/// The session described by the first lines of a session file (`lines`, the
/// ones that parse), with the file's stem, times and size; the session index's
/// titles and the state database's threads take precedence. `None` for a
/// subagent's session. A placeholder title becomes `Codex Session · ` and the
/// project's folder name (`当前项目` when it has none).
pub fn parse_session_file(
    fallback_id: String,
    created_at: u64,
    last_active_at: u64,
    size_bytes: u64,
    lines: &Vec<Doc>,
    thread_titles: &StrMap<String>,
    stored_sessions: &StrMap<StoredSession>,
) -> (res: Option<ScannedSession>)
    ensures
        match session_spec(
            fallback_id@,
            created_at,
            last_active_at,
            lines@,
            thread_titles@,
            stored_sessions@,
        ) {
            None => res is None,
            Some((id, title, dir, created, last, from_folder)) => res matches Some(s) && s.id@
                == id && s.project_dir@ == dir && s.created_at == created && s.last_active_at
                == last && s.size_bytes == size_bytes && (if from_folder {
                folder_title(s.title@, dir)
            } else {
                s.title@ == title
            }),
        },
{
    match stored_sessions.get(fallback_id.as_str()) {
        Some(s) => {
            if s.is_subagent {
                return None;
            }
        },
        None => {},
    }
    let (id, mut title, mut project_dir) = match scan_lines(lines, &fallback_id, &String::new()) {
        Some(x) => x,
        None => return None,
    };
    let mut created = created_at;
    let mut last = last_active_at;
    if title.as_str().is_empty() {
        title = String::from_str("未命名 Session");
    }
    match stored_sessions.get(id.as_str()) {
        Some(stored) => {
            if stored.is_subagent {
                return None;
            }
            if stored.created_at > 0 {
                created = stored.created_at;
            }
            if stored.last_active_at > 0 {
                last = stored.last_active_at;
            }
            if !stored.project_dir.as_str().is_empty() {
                project_dir = stored.project_dir.clone();
            }
            if !stored.title.as_str().is_empty() {
                title = stored.title.clone();
            }
        },
        None => match thread_titles.get(id.as_str()) {
            Some(t) => {
                title = t.clone();
            },
            None => {
                if is_placeholder_title(title.as_str()) {
                    let folder = path_file_name_of(project_dir.as_str());
                    let ghost n = opt_str(folder);
                    title = fallback_title(folder);
                    assert(folder_title(title@, project_dir@)) by {
                        assert(title@ == fallback_title_spec(n));
                    }
                }
            },
        },
    }
    Some(
        ScannedSession {
            id,
            title,
            project_dir,
            created_at: created,
            last_active_at: last,
            size_bytes,
        },
    )
}

} // verus!
