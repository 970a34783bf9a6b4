//! Pointing Codex at the local proxy and back: the backup files of Codex's
//! `config.toml`, the takeover and the restore decisions, and the marker that
//! records which process took Codex over.
use vstd::prelude::*;

use crate::codex_toml::{
    lemma_replace_then_read, plain_url, provider_base_url, provider_base_url_spec,
    replace_provider_base_url, replace_spec,
};
use crate::strmap::{key_lt, lemma_key_lt_total, str_less};
use crate::text::{has_prefix, starts_with, str_eq, trim, trim_str};

verus! {

// ---------------------------------------------------------------------------
// Decimal numbers
// ---------------------------------------------------------------------------

/// The character of decimal digit `d`.
pub open spec fn digit_char(d: int) -> char {
    (48 + d) as char
}

/// The value of a decimal digit character.
pub open spec fn digit_value(c: char) -> int {
    (c as int) - 48
}

pub open spec fn is_digit(c: char) -> bool {
    '0' <= c <= '9'
}

/// `n` written in decimal, without leading zeros.
pub open spec fn decimal_spec(n: nat) -> Seq<char>
    decreases n,
{
    if n < 10 {
        seq![digit_char(n as int)]
    } else {
        decimal_spec(n / 10).push(digit_char((n % 10) as int))
    }
}

/// The value of the decimal digits `s`.
pub open spec fn digits_value(s: Seq<char>) -> int
    decreases s.len(),
{
    if s.len() == 0 {
        0
    } else {
        digits_value(s.drop_last()) * 10 + digit_value(s.last())
    }
}

proof fn lemma_digit(d: int)
    requires
        0 <= d < 10,
    ensures
        digit_value(digit_char(d)) == d,
        is_digit(digit_char(d)),
{
}

proof fn lemma_decimal_value(n: nat)
    ensures
        digits_value(decimal_spec(n)) == n,
        decimal_spec(n).len() > 0,
    decreases n,
{
    lemma_digit((n % 10) as int);
    let s = decimal_spec(n);
    if n >= 10 {
        lemma_decimal_value(n / 10);
        assert(s.drop_last() =~= decimal_spec(n / 10));
        assert(s.last() == digit_char((n % 10) as int));
        assert(digits_value(s) == digits_value(s.drop_last()) * 10 + digit_value(s.last()));
        assert(digits_value(s) == (n / 10) * 10 + n % 10);
    } else {
        assert(s.drop_last() =~= Seq::<char>::empty());
        assert(s.last() == digit_char(n as int));
        assert(digits_value(s.drop_last()) == 0);
        assert(digits_value(s) == digits_value(s.drop_last()) * 10 + digit_value(s.last()));
    }
}

/// Decimal writing is one to one.
proof fn lemma_decimal_injective(a: nat, b: nat)
    requires
        decimal_spec(a) == decimal_spec(b),
    ensures
        a == b,
{
    lemma_decimal_value(a);
    lemma_decimal_value(b);
}

fn push_decimal(n: u128, out: &mut Vec<char>)
    ensures
        final(out)@ == old(out)@ + decimal_spec(n as nat),
    decreases n,
{
    if n >= 10 {
        push_decimal(n / 10, out);
    }
    let d: u128 = n % 10;
    let b: u8 = (48 + d) as u8;
    let c: char = b as char;
    assert(c == digit_char(d as int));
    out.push(c);
    proof {
        if n >= 10 {
            assert(decimal_spec(n as nat) == decimal_spec((n / 10) as nat).push(digit_char(d as int)));
        } else {
            assert(d == n);
        }
    }
    assert(out@ =~= old(out)@ + decimal_spec(n as nat));
}

/// `n` written in decimal.
pub fn decimal(n: u128) -> (res: String)
    ensures
        res@ == decimal_spec(n as nat),
{
    let mut v: Vec<char> = Vec::new();
    push_decimal(n, &mut v);
    assert(v@ =~= decimal_spec(n as nat));
    crate::text::string_of(&v)
}

// ---------------------------------------------------------------------------
// Backup files
// ---------------------------------------------------------------------------

/// The name that backups of Codex's `config.toml` start with.
pub open spec fn backup_prefix() -> Seq<char> {
    "config.toml.codex-switch-backup"@
}

/// Some name of `names` is `k`.
pub open spec fn listed(names: Seq<String>, k: Seq<char>) -> bool {
    exists|j: int| 0 <= j < names.len() && #[trigger] names[j]@ == k
}

/// The `k`-th candidate name of a backup made at `timestamp`: the plain name
/// first, then the name with `-2`, `-3`, … appended.
pub open spec fn backup_candidate(timestamp: Seq<char>, k: nat) -> Seq<char> {
    let base = backup_prefix() + "-"@ + timestamp;
    if k <= 1 {
        base
    } else {
        base + "-"@ + decimal_spec(k)
    }
}

fn is_listed(names: &Vec<String>, name: &str) -> (res: bool)
    ensures
        res == listed(names@, name@),
{
    let mut j: usize = 0;
    while j < names.len()
        invariant
            j <= names@.len(),
            forall|m: int| 0 <= m < j ==> #[trigger] names@[m]@ != name@,
        decreases names@.len() - j,
    {
        if str_eq(names[j].as_str(), name) {
            return true;
        }
        j = j + 1;
    }
    false
}

proof fn lemma_candidates_distinct(t: Seq<char>, a: nat, b: nat)
    requires
        1 <= a,
        1 <= b,
        a != b,
    ensures
        backup_candidate(t, a) != backup_candidate(t, b),
{
    let base = backup_prefix() + "-"@ + t;
    reveal_strlit("-");
    lemma_decimal_value(a);
    lemma_decimal_value(b);
    if a > 1 && b > 1 {
        let ca = backup_candidate(t, a);
        let cb = backup_candidate(t, b);
        if ca == cb {
            let n: int = base.len() as int + 1;
            assert(ca.skip(n) =~= decimal_spec(a));
            assert(cb.skip(n) =~= decimal_spec(b));
            lemma_decimal_injective(a, b);
        }
    } else if a > 1 {
        assert(backup_candidate(t, a).len() > backup_candidate(t, b).len());
    } else {
        assert(backup_candidate(t, b).len() > backup_candidate(t, a).len());
    }
}

/// When the first `k` candidates are all taken, there are at least `k` names.
proof fn lemma_taken_candidates_fit(names: Seq<String>, t: Seq<char>, k: nat)
    requires
        forall|m: nat| 1 <= m <= k ==> #[trigger] listed(names, backup_candidate(t, m)),
    ensures
        k <= names.len(),
{
    let views = names.map_values(|s: String| s@);
    let range = vstd::set_lib::set_int_range(1, k as int + 1);
    let f = |m: int| backup_candidate(t, m as nat);
    vstd::set_lib::lemma_int_range(1, k as int + 1);
    assert(vstd::relations::injective_on(f, range)) by {
        assert forall|x: int, y: int|
            range.contains(x) && range.contains(y) && #[trigger] f(x) == #[trigger] f(y) implies x
            == y by {
            if x != y {
                lemma_candidates_distinct(t, x as nat, y as nat);
            }
        }
    }
    let image = range.map(f);
    vstd::set_lib::lemma_map_size(range, image, f);
    assert(image.subset_of(views.to_set())) by {
        assert forall|s: Seq<char>| image.contains(s) implies views.to_set().contains(s) by {
            let m = choose|m: int| range.contains(m) && f(m) == s;
            assert(listed(names, backup_candidate(t, m as nat)));
            let j = choose|j: int| 0 <= j < names.len() && #[trigger] names[j]@ == backup_candidate(
                t,
                m as nat,
            );
            assert(views[j] == s);
        }
    }
    views.lemma_cardinality_of_set();
    vstd::set_lib::lemma_len_subset(image, views.to_set());
}

/// The name of a new backup made at `timestamp` in a directory that holds the
/// files `existing`: the first candidate that is not taken.
pub fn next_codex_backup_path_for_timestamp(existing: &Vec<String>, timestamp: &str) -> (res:
    String)
    ensures
        exists|k: nat|
            1 <= k && res@ == backup_candidate(timestamp@, k) && forall|m: nat|
                1 <= m < k ==> #[trigger] listed(existing@, backup_candidate(timestamp@, m)),
        !listed(existing@, res@),
{
    let base = String::from_str("config.toml.codex-switch-backup-").concat(timestamp);
    proof {
        reveal_strlit("config.toml.codex-switch-backup-");
        reveal_strlit("config.toml.codex-switch-backup");
        reveal_strlit("-");
    }
    assert(base@ =~= backup_candidate(timestamp@, 1));
    let total = existing.len();
    if !is_listed(existing, base.as_str()) {
        return base;
    }
    let mut index: u128 = 2;
    loop
        invariant
            2 <= index <= existing@.len() + 1,
            total == existing@.len(),
            base@ == backup_prefix() + "-"@ + timestamp@,
            forall|m: nat| 1 <= m < index ==> #[trigger] listed(existing@, backup_candidate(timestamp@, m)),
        decreases existing@.len() + 2 - index,
    {
        let digits = decimal(index);
        let candidate = base.clone().concat("-").concat(digits.as_str());
        assert(candidate@ =~= backup_candidate(timestamp@, index as nat));
        if !is_listed(existing, candidate.as_str()) {
            return candidate;
        }
        proof {
            lemma_taken_candidates_fit(existing@, timestamp@, index as nat);
        }
        index = index + 1;
    }
}

/// A backup name: the plain prefix, or the prefix followed by `-`.
pub open spec fn is_backup_name(name: Seq<char>) -> bool {
    name == backup_prefix() || has_prefix(name, backup_prefix() + "-"@)
}

/// The newest backup among the names `names`: the greatest backup name.
pub fn latest_codex_backup_path(names: &Vec<String>) -> (res: Option<String>)
    ensures
        match res {
            Some(n) => is_backup_name(n@) && listed(names@, n@) && forall|j: int|
                0 <= j < names@.len() && is_backup_name(#[trigger] names@[j]@) ==> names@[j]@ == n@
                    || key_lt(names@[j]@, n@),
            None => forall|j: int| 0 <= j < names@.len() ==> !is_backup_name(#[trigger] names@[j]@),
        },
{
    let mut best: Option<String> = None;
    let mut j: usize = 0;
    while j < names.len()
        invariant
            j <= names@.len(),
            match best {
                Some(n) => is_backup_name(n@) && listed(names@, n@) && forall|i: int|
                    0 <= i < j && is_backup_name(#[trigger] names@[i]@) ==> names@[i]@ == n@
                        || key_lt(names@[i]@, n@),
                None => forall|i: int| 0 <= i < j ==> !is_backup_name(#[trigger] names@[i]@),
            },
        decreases names@.len() - j,
    {
        let name = &names[j];
        let hit = str_eq(name.as_str(), "config.toml.codex-switch-backup") || starts_with(
            name.as_str(),
            "config.toml.codex-switch-backup-",
        );
        proof {
            reveal_strlit("config.toml.codex-switch-backup-");
            reveal_strlit("config.toml.codex-switch-backup");
            reveal_strlit("-");
            assert("config.toml.codex-switch-backup-"@ =~= backup_prefix() + "-"@);
        }
        if hit {
            let replace = match &best {
                Some(b) => str_less(b.as_str(), name.as_str()),
                None => true,
            };
            if replace {
                proof {
                    if let Some(b) = best {
                        assert forall|i: int|
                            0 <= i < j + 1 && is_backup_name(#[trigger] names@[i]@) implies names@[i]@
                            == name@ || key_lt(names@[i]@, name@) by {
                            if i < j && names@[i]@ != b@ {
                                crate::strmap::lemma_key_lt_transitive(names@[i]@, b@, name@);
                            }
                        }
                    }
                }
                best = Some(name.clone());
            } else {
                proof {
                    let b = best->0;
                    lemma_key_lt_total(b@, name@);
                }
            }
        }
        j = j + 1;
    }
    best
}

// ---------------------------------------------------------------------------
// Takeover and restore
// ---------------------------------------------------------------------------

/// Codex's configuration sends the `OpenAI` provider to a proxy on this machine.
pub open spec fn points_at_local_proxy_spec(text: Seq<char>) -> bool {
    provider_base_url_spec(text, "OpenAI"@) matches Some(u) && has_prefix(u, "http://127.0.0.1:"@)
}

/// Whether Codex's configuration text `text` is taken over by a local proxy.
pub fn points_at_local_proxy(text: &str) -> (res: bool)
    ensures
        res == points_at_local_proxy_spec(text@),
{
    match provider_base_url(text, "OpenAI") {
        Some(u) => starts_with(u.as_str(), "http://127.0.0.1:"),
        None => false,
    }
}

/// What taking Codex over needs to do to its configuration.
pub enum TakeoverStep {
    /// The configuration already points at the proxy: nothing to rewrite.
    AlreadyTakenOver,
    /// Back the configuration up, then write this text in its place.
    Rewrite(String),
}

/// The proxy URL for the listen address `listen`.
pub open spec fn proxy_url_spec(listen: Seq<char>) -> Seq<char> {
    "http://"@ + listen
}

/// The takeover of configuration text `text` for a proxy listening on `listen`.
pub open spec fn takeover_spec(listen: Seq<char>, text: Seq<char>) -> Result<Option<Seq<char>>, Seq<char>> {
    let url = proxy_url_spec(listen);
    if provider_base_url_spec(text, "OpenAI"@) == Some(url) {
        Ok(None)
    } else {
        match replace_spec(text, "OpenAI"@, url) {
            Ok(t) => Ok(Some(t)),
            Err(e) => Err(e),
        }
    }
}

/// Decides how to point Codex's configuration `text` at the proxy on `listen`.
pub fn takeover_step(listen: &str, text: &str) -> (res: Result<TakeoverStep, String>)
    ensures
        match res {
            Ok(TakeoverStep::AlreadyTakenOver) => takeover_spec(listen@, text@) == Ok::<
                Option<Seq<char>>,
                Seq<char>,
            >(None),
            Ok(TakeoverStep::Rewrite(t)) => takeover_spec(listen@, text@) == Ok::<
                Option<Seq<char>>,
                Seq<char>,
            >(Some(t@)),
            Err(e) => takeover_spec(listen@, text@) == Err::<Option<Seq<char>>, Seq<char>>(e@),
        },
{
    let url = String::from_str("http://").concat(listen);
    let already = match provider_base_url(text, "OpenAI") {
        Some(u) => str_eq(u.as_str(), url.as_str()),
        None => false,
    };
    if already {
        return Ok(TakeoverStep::AlreadyTakenOver);
    }
    match replace_provider_base_url(text, "OpenAI", url.as_str()) {
        Ok(t) => Ok(TakeoverStep::Rewrite(t)),
        Err(e) => Err(e),
    }
}

/// After a takeover, Codex's configuration sends the `OpenAI` provider to the
/// proxy, whether it was rewritten or already pointed there.
pub proof fn lemma_takeover_points_at_proxy(listen: Seq<char>, text: Seq<char>)
    requires
        plain_url(proxy_url_spec(listen)),
        takeover_spec(listen, text) is Ok,
    ensures
        match takeover_spec(listen, text) {
            Ok(Some(t)) => provider_base_url_spec(t, "OpenAI"@) == Some(proxy_url_spec(listen)),
            _ => provider_base_url_spec(text, "OpenAI"@) == Some(proxy_url_spec(listen)),
        },
{
    if provider_base_url_spec(text, "OpenAI"@) != Some(proxy_url_spec(listen)) {
        lemma_replace_then_read(text, "OpenAI"@, proxy_url_spec(listen));
    }
}

/// What restoring Codex's configuration does.
#[derive(Clone, Copy, Debug, PartialEq, Eq, Structural)]
pub enum RestoreStep {
    /// The configuration does not point at the local proxy: leave it.
    Keep,
    /// Write the newest backup over the configuration.
    WriteBackup,
}

pub open spec fn no_backup_error() -> Seq<char> {
    "没有可用备份，无法取消接管"@
}

/// The restore decision for configuration text `current`, where `has_backup`
/// tells whether a backup exists.
pub open spec fn restore_spec(has_backup: bool, current: Seq<char>) -> Result<RestoreStep, Seq<char>> {
    if !points_at_local_proxy_spec(current) {
        Ok(RestoreStep::Keep)
    } else if has_backup {
        Ok(RestoreStep::WriteBackup)
    } else {
        Err(no_backup_error())
    }
}

/// Decides how to hand Codex its own configuration back: keep a
/// configuration that does not point at the local proxy; else write the
/// newest backup over it, and refuse when there is none.
pub fn restore_codex_files_from_home(has_backup: bool, current: &str) -> (res: Result<
    RestoreStep,
    String,
>)
    ensures
        match res {
            Ok(s) => restore_spec(has_backup, current@) == Ok::<RestoreStep, Seq<char>>(s),
            Err(e) => restore_spec(has_backup, current@) == Err::<RestoreStep, Seq<char>>(e@),
        },
{
    if !points_at_local_proxy(current) {
        Ok(RestoreStep::Keep)
    } else if has_backup {
        Ok(RestoreStep::WriteBackup)
    } else {
        Err(String::from_str("没有可用备份，无法取消接管"))
    }
}

/// A takeover for a proxy listening on this machine is undone by a restore:
/// the rewritten configuration leads the restore to write the backup back.
pub proof fn lemma_restore_undoes_takeover(listen: Seq<char>, text: Seq<char>)
    requires
        plain_url(proxy_url_spec(listen)),
        has_prefix(listen, "127.0.0.1:"@),
        takeover_spec(listen, text) is Ok,
    ensures
        match takeover_spec(listen, text) {
            Ok(Some(t)) => restore_spec(true, t) == Ok::<RestoreStep, Seq<char>>(
                RestoreStep::WriteBackup,
            ),
            _ => restore_spec(true, text) == Ok::<RestoreStep, Seq<char>>(RestoreStep::WriteBackup),
        },
{
    lemma_takeover_points_at_proxy(listen, text);
    reveal_strlit("http://");
    reveal_strlit("127.0.0.1:");
    reveal_strlit("http://127.0.0.1:");
    let url = proxy_url_spec(listen);
    assert("http://127.0.0.1:"@ =~= "http://"@ + "127.0.0.1:"@);
    assert(url.take(17) =~= "http://"@ + listen.take(10));
    assert(has_prefix(url, "http://127.0.0.1:"@));
}

/// A restore writes a backup only over a configuration that points at the
/// local proxy, and only when a backup exists.
pub proof fn lemma_restore_writes_only_over_takeover(has_backup: bool, current: Seq<char>)
    ensures
        restore_spec(has_backup, current) == Ok::<RestoreStep, Seq<char>>(RestoreStep::WriteBackup)
            ==> has_backup && points_at_local_proxy_spec(current),
        !points_at_local_proxy_spec(current) ==> restore_spec(has_backup, current) == Ok::<
            RestoreStep,
            Seq<char>,
        >(RestoreStep::Keep),
{
}

// ---------------------------------------------------------------------------
// The takeover marker and the process that wrote it
// ---------------------------------------------------------------------------

/// `str::parse::<u32>`: an optional `+`, then one or more decimal digits whose
/// value fits in a `u32`.
pub open spec fn parse_u32_spec(s: Seq<char>) -> Option<u32> {
    let d = unsigned_digits(s);
    if d.len() == 0 || !all_digits(d) {
        None
    } else if digits_value(d) > u32::MAX {
        None
    } else {
        Some(digits_value(d) as u32)
    }
}

/// `s` without a leading `+`.
pub open spec fn unsigned_digits(s: Seq<char>) -> Seq<char> {
    if s.len() > 0 && s[0] == '+' {
        s.drop_first()
    } else {
        s
    }
}

pub open spec fn all_digits(d: Seq<char>) -> bool {
    forall|i: int| 0 <= i < d.len() ==> is_digit(#[trigger] d[i])
}

proof fn lemma_digits_value_nonneg(s: Seq<char>)
    requires
        forall|k: int| 0 <= k < s.len() ==> is_digit(#[trigger] s[k]),
    ensures
        digits_value(s) >= 0,
    decreases s.len(),
{
    if s.len() > 0 {
        lemma_digits_value_nonneg(s.drop_last());
        assert(is_digit(s[s.len() - 1]));
    }
}

proof fn lemma_digits_value_grows(s: Seq<char>, i: int)
    requires
        0 <= i <= s.len(),
        forall|k: int| 0 <= k < s.len() ==> is_digit(#[trigger] s[k]),
    ensures
        digits_value(s) >= digits_value(s.take(i)),
    decreases s.len(),
{
    if i < s.len() {
        let t = s.drop_last();
        lemma_digits_value_nonneg(t);
        assert(is_digit(s[s.len() - 1]));
        lemma_digits_value_grows(t, i);
        assert(t.take(i) =~= s.take(i));
    } else {
        assert(s.take(i) =~= s);
    }
}

/// `str::parse::<u32>`.
pub fn parse_u32(s: &str) -> (res: Option<u32>)
    ensures
        res == parse_u32_spec(s@),
{
    let v = crate::text::chars_of(s);
    let start: usize = if v.len() > 0 && v[0] == '+' {
        1
    } else {
        0
    };
    let ghost d = v@.skip(start as int);
    assert(d =~= unsigned_digits(s@));
    if start == v.len() {
        return None;
    }
    let mut acc: u64 = 0;
    let mut k: usize = start;
    while k < v.len()
        invariant
            start <= k <= v@.len(),
            start < v@.len(),
            v@ == s@,
            d == v@.skip(start as int),
            d == unsigned_digits(s@),
            forall|m: int| 0 <= m < k - start ==> is_digit(#[trigger] d[m]),
            acc == digits_value(d.take(k - start)),
            acc <= u32::MAX,
        decreases v@.len() - k,
    {
        let c = v[k];
        assert(d[k - start] == c);
        if !('0' <= c && c <= '9') {
            assert(!is_digit(d[k - start]));
            assert(!all_digits(d));
            return None;
        }
        let digit: u64 = (c as u32 - 48) as u64;
        assert(d.take(k - start + 1).drop_last() =~= d.take(k - start));
        assert(d.take(k - start + 1).last() == c);
        acc = acc * 10 + digit;
        if acc > 4294967295 {
            proof {
                if all_digits(d) {
                    lemma_digits_value_grows(d, k - start + 1);
                }
            }
            return None;
        }
        k = k + 1;
    }
    assert(d.take(k - start) =~= d);
    Some(acc as u32)
}

/// The process id recorded in a takeover marker: its trimmed text, as a `u32`.
pub fn marker_pid(text: &str) -> (res: Option<u32>)
    ensures
        res == parse_u32_spec(trim(text@)),
{
    let t = trim_str(text);
    parse_u32(t.as_str())
}

/// What a probe of process `pid` with signal 0 answered.
#[derive(Clone, Copy, Debug, PartialEq, Eq, Structural)]
pub enum ProbeOutcome {
    /// The signal could be delivered.
    Delivered,
    /// The process exists but belongs to someone else.
    PermissionDenied,
    /// Any other failure: no such process.
    Failed,
}

/// Whether the process `pid` is still running: it is this process
/// (`own_pid`), or the probe found it.
pub fn process_is_alive(pid: u32, own_pid: u32, probe: ProbeOutcome) -> (res: bool)
    ensures
        res == (pid == own_pid || probe == ProbeOutcome::Delivered || probe
            == ProbeOutcome::PermissionDenied),
{
    if pid == own_pid {
        return true;
    }
    match probe {
        ProbeOutcome::Delivered => true,
        ProbeOutcome::PermissionDenied => true,
        ProbeOutcome::Failed => false,
    }
}

/// What to do at start-up about a takeover left behind: nothing when Codex is
/// not taken over (the marker is removed) or when the recorded process still
/// runs; otherwise restore Codex's configuration.
pub open spec fn stale_takeover_spec(taken_over: bool, alive: Option<bool>) -> bool {
    taken_over && !(alive == Some(true))
}

/// Whether a takeover left behind by a process that is gone must be undone;
/// `alive` is whether the process of the marker runs, `None` without a
/// readable marker.
pub fn stale_takeover(taken_over: bool, alive: Option<bool>) -> (res: bool)
    ensures
        res == stale_takeover_spec(taken_over, alive),
{
    if !taken_over {
        return false;
    }
    match alive {
        Some(true) => false,
        _ => true,
    }
}

} // verus!
