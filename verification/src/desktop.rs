//! Decisions of the desktop app: release version comparison, the OAuth
//! callback page, refresh-error messages and the usage refresh period.
use vstd::prelude::*;

use crate::provider_sync::{json_parse_error, json_pointer_string, json_string_at, json_syntax_error, opt_text};
use crate::skill_market::{lines_of, split_lines};
use crate::text::{
    ascii_lower, ascii_lowercase, chars_of, contains_seq, contains_str, decimal, decimal_string,
    is_ws, split_words, str_eq, string_from, trim, trim_chars, words, squeeze_whitespace,
};

verus! {

/// Seconds between two background usage refreshes.
pub const PERIODIC_USAGE_REFRESH_INTERVAL_SECS: u64 = 60;

/// `s` without its leading `v`/`V` characters.
pub open spec fn strip_leading_v(s: Seq<char>) -> Seq<char>
    decreases s.len(),
{
    if s.len() > 0 && (s[0] == 'v' || s[0] == 'V') {
        strip_leading_v(s.drop_first())
    } else {
        s
    }
}

/// The part of `s` before its first `-` or `+` (pre-release or build suffix).
pub open spec fn version_core(s: Seq<char>) -> Seq<char>
    decreases s.len(),
{
    if s.len() == 0 {
        s
    } else if s[0] == '-' || s[0] == '+' {
        seq![]
    } else {
        seq![s[0]] + version_core(s.drop_first())
    }
}

/// `s` split at every `sep` (what `str::split` with a char yields).
pub open spec fn split_at_char(s: Seq<char>, sep: char) -> Seq<Seq<char>>
    decreases s.len(),
{
    if s.len() == 0 {
        seq![seq![]]
    } else {
        let r = split_at_char(s.drop_last(), sep);
        if s.last() == sep {
            r.push(seq![])
        } else {
            r.update(r.len() - 1, r.last().push(s.last()))
        }
    }
}

pub open spec fn is_digit(c: char) -> bool {
    '0' <= c && c <= '9'
}

pub open spec fn digit_value(c: char) -> int {
    (c as u32) - ('0' as u32)
}

/// Decimal value of a string of digits.
pub open spec fn digits_value(s: Seq<char>) -> int
    decreases s.len(),
{
    if s.len() == 0 {
        0
    } else {
        digits_value(s.drop_last()) * 10 + digit_value(s.last())
    }
}

/// `s` is what `u64::from_str` accepts without a sign: one or more digits
/// whose value fits in a `u64`.
pub open spec fn parses_as_u64(s: Seq<char>) -> bool {
    &&& s.len() > 0
    &&& forall|i: int| 0 <= i < s.len() ==> is_digit(#[trigger] s[i])
    &&& digits_value(s) <= u64::MAX
}

/// The numeric components of a release tag such as `v1.2.3-beta`: `None` when
/// a component is not a number.
pub open spec fn all_numeric(parts: Seq<Seq<char>>) -> bool {
    forall|i: int| 0 <= i < parts.len() ==> parses_as_u64(#[trigger] parts[i])
}

pub open spec fn version_parts(input: Seq<char>) -> Option<Seq<u64>> {
    let parts = split_at_char(version_core(strip_leading_v(trim(input))), '.');
    if all_numeric(parts) {
        Some(parts.map_values(|p: Seq<char>| digits_value(p) as u64))
    } else {
        None
    }
}

/// Component `i` of a version, `0` past its end.
pub open spec fn part_or_zero(v: Seq<u64>, i: int) -> u64 {
    if 0 <= i < v.len() {
        v[i]
    } else {
        0
    }
}

/// `candidate` is a strictly later version than `current`, comparing
/// components numerically and padding the shorter one with zeros.
pub open spec fn parts_newer(candidate: Seq<u64>, current: Seq<u64>) -> bool {
    exists|i: int|
        #![trigger part_or_zero(candidate, i)]
        0 <= i && (forall|j: int|
            0 <= j < i ==> part_or_zero(candidate, j) == part_or_zero(current, j)) && part_or_zero(
            candidate,
            i,
        ) > part_or_zero(current, i)
}

pub open spec fn version_newer(candidate: Seq<char>, current: Seq<char>) -> bool {
    match (version_parts(candidate), version_parts(current)) {
        (Some(a), Some(b)) => parts_newer(a, b),
        _ => false,
    }
}

proof fn lemma_split_nonempty(s: Seq<char>, sep: char)
    ensures
        split_at_char(s, sep).len() >= 1,
    decreases s.len(),
{
    if s.len() > 0 {
        lemma_split_nonempty(s.drop_last(), sep);
    }
}

/// Characters of `s` before its first `-` or `+`.
fn version_core_exec(s: &[char]) -> (r: Vec<char>)
    ensures
        r@ == version_core(s@),
{
    let mut i: usize = 0;
    assert(s@.subrange(0, 0) + version_core(s@.subrange(0, s@.len() as int)) =~= version_core(s@)) by {
        assert(s@.subrange(0, s@.len() as int) =~= s@);
    }
    while i < s.len() && s[i] != '-' && s[i] != '+'
        invariant
            i <= s@.len(),
            forall|j: int| 0 <= j < i ==> s@[j] != '-' && s@[j] != '+',
            version_core(s@) == s@.subrange(0, i as int) + version_core(s@.subrange(i as int, s@.len() as int)),
        decreases s@.len() - i,
    {
        let ghost rest = s@.subrange(i as int, s@.len() as int);
        assert(rest.drop_first() =~= s@.subrange(i + 1, s@.len() as int));
        assert(s@.subrange(0, i as int) + seq![s@[i as int]] =~= s@.subrange(0, i + 1));
        i = i + 1;
    }
    let ghost rest = s@.subrange(i as int, s@.len() as int);
    assert(version_core(rest) =~= seq![]);
    assert(s@.subrange(0, i as int) + seq![] =~= s@.subrange(0, i as int));
    crate::text::slice_to_vec(s, 0, i)
}

/// Parses one component; `None` unless it is all digits and fits in a `u64`.
fn parse_u64_digits(s: &[char]) -> (r: Option<u64>)
    ensures
        parses_as_u64(s@) <==> r is Some,
        r matches Some(v) ==> v == digits_value(s@),
{
    if s.len() == 0 {
        return None;
    }
    let mut value: u64 = 0;
    let mut i: usize = 0;
    while i < s.len()
        invariant
            i <= s@.len(),
            s@.len() > 0,
            forall|j: int| 0 <= j < i ==> is_digit(#[trigger] s@[j]),
            value == digits_value(s@.subrange(0, i as int)),
        decreases s@.len() - i,
    {
        assert(s@.subrange(0, i + 1).drop_last() =~= s@.subrange(0, i as int));
        let c = s[i];
        if !('0' <= c && c <= '9') {
            return None;
        }
        let d = (c as u32 - '0' as u32) as u64;
        if value > (u64::MAX - d) / 10 {
            proof {
                lemma_digits_value_prefix_monotone(s@, i + 1);
            }
            return None;
        }
        value = value * 10 + d;
        i = i + 1;
    }
    assert(s@.subrange(0, i as int) =~= s@);
    Some(value)
}

proof fn lemma_digits_value_prefix_monotone(s: Seq<char>, k: int)
    requires
        0 <= k <= s.len(),
        forall|i: int| 0 <= i < k ==> is_digit(#[trigger] s[i]),
    ensures
        parses_as_u64(s) ==> digits_value(s.subrange(0, k)) <= digits_value(s),
    decreases s.len() - k,
{
    if k < s.len() {
        if parses_as_u64(s) {
            lemma_digits_value_prefix_monotone(s, k + 1);
            assert(s.subrange(0, k + 1).drop_last() =~= s.subrange(0, k));
            lemma_digits_value_nonneg(s.subrange(0, k));
        }
    } else {
        assert(s.subrange(0, k) =~= s);
    }
}

proof fn lemma_digits_value_nonneg(s: Seq<char>)
    requires
        forall|i: int| 0 <= i < s.len() ==> is_digit(#[trigger] s[i]),
    ensures
        digits_value(s) >= 0,
    decreases s.len(),
{
    if s.len() > 0 {
        lemma_digits_value_nonneg(s.drop_last());
    }
}


/// Strips surrounding whitespace and leading `v`/`V` characters.
fn strip_version_prefix(input: &str) -> (r: Vec<char>)
    ensures
        r@ == strip_leading_v(trim(input@)),
{
    let t = trim_chars(input);
    let mut i: usize = 0;
    assert(t@.subrange(0, t@.len() as int) =~= t@);
    while i < t.len() && (t[i] == 'v' || t[i] == 'V')
        invariant
            i <= t@.len(),
            strip_leading_v(t@) == strip_leading_v(t@.subrange(i as int, t@.len() as int)),
        decreases t@.len() - i,
    {
        assert(t@.subrange(i as int, t@.len() as int).drop_first() =~= t@.subrange(i + 1, t@.len() as int));
        i = i + 1;
    }
    proof {
        if i == 0 {
            assert(t@.subrange(0, t@.len() as int) =~= t@);
        }
    }
    crate::text::slice_to_vec(t.as_slice(), i, t.len())
}

/// Splits `s` at every `sep`.
fn split_chars(s: &[char], sep: char) -> (r: Vec<Vec<char>>)
    ensures
        r@.len() == split_at_char(s@, sep).len(),
        forall|i: int| 0 <= i < r@.len() ==> #[trigger] r@[i]@ == split_at_char(s@, sep)[i],
{
    let mut parts: Vec<Vec<char>> = Vec::new();
    let mut current: Vec<char> = Vec::new();
    let mut i: usize = 0;
    while i < s.len()
        invariant
            i <= s@.len(),
            parts@.len() + 1 == split_at_char(s@.subrange(0, i as int), sep).len(),
            forall|k: int| 0 <= k < parts@.len() ==> #[trigger] parts@[k]@ == split_at_char(s@.subrange(0, i as int), sep)[k],
            current@ == split_at_char(s@.subrange(0, i as int), sep).last(),
        decreases s@.len() - i,
    {
        proof {
            lemma_split_nonempty(s@.subrange(0, i as int), sep);
        }
        assert(s@.subrange(0, i + 1).drop_last() =~= s@.subrange(0, i as int));
        if s[i] == sep {
            parts.push(current);
            current = Vec::new();
        } else {
            current.push(s[i]);
        }
        i = i + 1;
    }
    assert(s@.subrange(0, i as int) =~= s@);
    proof {
        lemma_split_nonempty(s@, sep);
    }
    parts.push(current);
    parts
}

/// The numeric components of a release tag, `None` when one is not a number.
pub fn normalized_version_parts(input: &str) -> (r: Option<Vec<u64>>)
    ensures
        match version_parts(input@) {
            None => r is None,
            Some(v) => r matches Some(x) && x@ == v,
        },
{
    let stripped = strip_version_prefix(input);
    let core = version_core_exec(stripped.as_slice());
    let pieces = split_chars(core.as_slice(), '.');
    let ghost sp = split_at_char(core@, '.');
    assert(sp == split_at_char(version_core(strip_leading_v(trim(input@))), '.'));
    let mut parts: Vec<u64> = Vec::new();
    let mut i: usize = 0;
    while i < pieces.len()
        invariant
            i <= pieces@.len(),
            sp == split_at_char(version_core(strip_leading_v(trim(input@))), '.'),
            pieces@.len() == sp.len(),
            forall|k: int| 0 <= k < pieces@.len() ==> #[trigger] pieces@[k]@ == sp[k],
            parts@.len() == i,
            forall|k: int| 0 <= k < i ==> parses_as_u64(#[trigger] sp[k]) && parts@[k] as int == digits_value(sp[k]),
        decreases pieces@.len() - i,
    {
        match parse_u64_digits(pieces[i].as_slice()) {
            None => {
                assert(!parses_as_u64(sp[i as int]));
                assert(!all_numeric(sp));
                return None;
            },
            Some(v) => {
                parts.push(v);
            },
        }
        i = i + 1;
    }
    assert(parts@ =~= sp.map_values(|p: Seq<char>| digits_value(p) as u64));
    Some(parts)
}

/// Whether release `candidate` is later than the installed `current` one.
pub fn version_is_newer(candidate: &str, current: &str) -> (r: bool)
    ensures
        r == version_newer(candidate@, current@),
{
    let next_parts = match normalized_version_parts(candidate) {
        Some(v) => v,
        None => {
            return false;
        },
    };
    let current_parts = match normalized_version_parts(current) {
        Some(v) => v,
        None => {
            return false;
        },
    };
    let count = if next_parts.len() >= current_parts.len() {
        next_parts.len()
    } else {
        current_parts.len()
    };
    let mut index: usize = 0;
    while index < count
        invariant
            count >= next_parts@.len(),
            count >= current_parts@.len(),
            index <= count,
            version_newer(candidate@, current@) == parts_newer(next_parts@, current_parts@),
            forall|j: int| 0 <= j < index ==> part_or_zero(next_parts@, j) == part_or_zero(current_parts@, j),
        decreases count - index,
    {
        let next = if index < next_parts.len() {
            next_parts[index]
        } else {
            0
        };
        let installed = if index < current_parts.len() {
            current_parts[index]
        } else {
            0
        };
        assert(next == part_or_zero(next_parts@, index as int));
        assert(installed == part_or_zero(current_parts@, index as int));
        if next != installed {
            proof {
                if !(next > installed) && parts_newer(next_parts@, current_parts@) {
                    let i = choose|i: int|
                        #![trigger part_or_zero(next_parts@, i)]
                        0 <= i && (forall|j: int|
                            0 <= j < i ==> part_or_zero(next_parts@, j) == part_or_zero(current_parts@, j))
                            && part_or_zero(next_parts@, i) > part_or_zero(current_parts@, i);
                    if i < index {
                    } else if i > index {
                        assert(part_or_zero(next_parts@, index as int) == part_or_zero(current_parts@, index as int));
                    }
                }
                if next > installed {
                    assert(parts_newer(next_parts@, current_parts@));
                } else {
                    assert(!parts_newer(next_parts@, current_parts@));
                }
            }
            return next > installed;
        }
        index = index + 1;
    }
    proof {
        if parts_newer(next_parts@, current_parts@) {
            let i = choose|i: int|
                #![trigger part_or_zero(next_parts@, i)]
                0 <= i && (forall|j: int|
                    0 <= j < i ==> part_or_zero(next_parts@, j) == part_or_zero(current_parts@, j))
                    && part_or_zero(next_parts@, i) > part_or_zero(current_parts@, i);
            if i >= count {
                assert(part_or_zero(next_parts@, i) == 0);
            }
        }
    }
    false
}

/// HTML text with `&`, `<`, `>`, `"` and `'` written as entities.
pub open spec fn html_escaped_char(c: char) -> Seq<char> {
    if c == '&' {
        "&amp;"@
    } else if c == '<' {
        "&lt;"@
    } else if c == '>' {
        "&gt;"@
    } else if c == '"' {
        "&quot;"@
    } else if c == '\'' {
        "&#39;"@
    } else {
        seq![c]
    }
}

pub open spec fn html_escaped(s: Seq<char>) -> Seq<char>
    decreases s.len(),
{
    if s.len() == 0 {
        seq![]
    } else {
        html_escaped(s.drop_last()) + html_escaped_char(s.last())
    }
}

/// Escapes text for the OAuth callback page.
pub fn escape_html(input: &str) -> (r: String)
    ensures
        r@ == html_escaped(input@),
{
    let v = chars_of(input);
    let mut out = String::new();
    let mut i: usize = 0;
    while i < v.len()
        invariant
            i <= v@.len(),
            out@ == html_escaped(v@.subrange(0, i as int)),
        decreases v@.len() - i,
    {
        assert(v@.subrange(0, i + 1).drop_last() =~= v@.subrange(0, i as int));
        let c = v[i];
        if c == '&' {
            out.append("&amp;");
        } else if c == '<' {
            out.append("&lt;");
        } else if c == '>' {
            out.append("&gt;");
        } else if c == '"' {
            out.append("&quot;");
        } else if c == '\'' {
            out.append("&#39;");
        } else {
            out.push(c);
            assert(out@ == html_escaped(v@.subrange(0, i as int)) + seq![c]);
        }
        i = i + 1;
    }
    assert(v@.subrange(0, i as int) =~= v@);
    out
}

pub open spec fn invalid_refresh_grant(lower: Seq<char>) -> bool {
    contains_seq(lower, "invalid_grant"@) && (contains_seq(lower, "refresh"@) || contains_seq(
        lower,
        "expired"@,
    ) || contains_seq(lower, "revoked"@) || contains_seq(lower, "invalid"@))
}

/// Whether an already lower-cased error reports a rejected refresh grant.
pub fn is_invalid_refresh_grant(normalized_error: &str) -> (r: bool)
    ensures
        r == invalid_refresh_grant(normalized_error@),
{
    let v = chars_of(normalized_error);
    let s = v.as_slice();
    contains_str(s, "invalid_grant") && (contains_str(s, "refresh") || contains_str(s, "expired")
        || contains_str(s, "revoked") || contains_str(s, "invalid"))
}

/// The message shown when refreshing tokens before a switch fails.
pub open spec fn switch_refresh_error_message(raw: Seq<char>) -> Seq<char> {
    let n = ascii_lower(raw);
    if contains_seq(n, "refresh_token_reused"@) || invalid_refresh_grant(n) || contains_seq(
        n,
        "your refresh token has already been used to generate a new access token"@,
    ) || contains_seq(n, "refresh token expired"@) || contains_seq(n, "refresh_token expired"@)
        || contains_seq(n, "expired refresh token"@) || contains_seq(n, "refresh token is expired"@)
        || contains_seq(n, "refresh token revoked"@) || contains_seq(n, "refresh_token_revoked"@)
        || contains_seq(n, "refresh token invalid"@) || contains_seq(n, "invalid refresh token"@) {
        "当前账号的 refresh_token 已失效或已被轮换，请重新登录授权。"@
    } else if contains_seq(n, "please try signing in again"@) || contains_seq(
        n,
        "provided authentication token is expired"@,
    ) || contains_seq(n, "token is expired"@) {
        "当前账号授权已过期，请重新登录授权。"@
    } else {
        raw
    }
}

/// Turns a token-refresh error met while switching accounts into the message shown.
pub fn normalize_switch_refresh_error(raw_error: &str) -> (r: String)
    ensures
        r@ == switch_refresh_error_message(raw_error@),
{
    let raw = chars_of(raw_error);
    let n = ascii_lowercase(raw.as_slice());
    let lowered = string_from(n.as_slice());
    let s = n.as_slice();
    if contains_str(s, "refresh_token_reused") || is_invalid_refresh_grant(lowered.as_str())
        || contains_str(s, "your refresh token has already been used to generate a new access token")
        || contains_str(s, "refresh token expired") || contains_str(s, "refresh_token expired")
        || contains_str(s, "expired refresh token") || contains_str(s, "refresh token is expired")
        || contains_str(s, "refresh token revoked") || contains_str(s, "refresh_token_revoked")
        || contains_str(s, "refresh token invalid") || contains_str(s, "invalid refresh token") {
        return "当前账号的 refresh_token 已失效或已被轮换，请重新登录授权。".to_string();
    }
    if contains_str(s, "please try signing in again") || contains_str(
        s,
        "provided authentication token is expired",
    ) || contains_str(s, "token is expired") {
        return "当前账号授权已过期，请重新登录授权。".to_string();
    }
    raw_error.to_string()
}

pub open spec fn opt_str(v: Option<&str>) -> Option<Seq<char>> {
    match v {
        Some(x) => Some(x@),
        None => None,
    }
}

/// Switching to the account is a no-op when it is the last selected one and
/// the current Codex login is that very account: its plan variant matches,
/// or, with the variant unknown, its account group does.
pub open spec fn noop_switch(
    active_account_id: Option<Seq<char>>,
    account_id: Seq<char>,
    account_key: Seq<char>,
    variant_key: Seq<char>,
    current_account_key: Option<Seq<char>>,
    current_variant_key: Option<Seq<char>>,
) -> bool {
    &&& active_account_id == Some(account_id)
    &&& (current_variant_key == Some(variant_key) || (current_variant_key is None
        && current_account_key == Some(account_key)))
}

/// Whether switching to an account can be skipped. `account_id` is the
/// account's row id, `account_key` and `variant_key` its group and plan
/// variant keys.
pub fn should_noop_switch_account(
    active_account_id: Option<&str>,
    account_id: &str,
    account_key: &str,
    variant_key: &str,
    current_account_key: Option<&str>,
    current_variant_key: Option<&str>,
) -> (r: bool)
    ensures
        r == noop_switch(
            opt_str(active_account_id),
            account_id@,
            account_key@,
            variant_key@,
            opt_str(current_account_key),
            opt_str(current_variant_key),
        ),
{
    let active = match active_account_id {
        Some(a) => str_eq(a, account_id),
        None => false,
    };
    if !active {
        return false;
    }
    match current_variant_key {
        Some(v) => str_eq(v, variant_key),
        None => match current_account_key {
            Some(k) => str_eq(k, account_key),
            None => false,
        },
    }
}

/// The parent of the (process, parent) entry `e` is in `s`.
pub open spec fn parent_in(e: (u32, Option<u32>), s: Set<u32>) -> bool {
    match e.1 {
        Some(p) => s.contains(p),
        None => false,
    }
}

/// No process of `parents` whose parent is in `s` is missing from `s`.
pub open spec fn closed_under_children(s: Set<u32>, parents: Seq<(u32, Option<u32>)>) -> bool {
    forall|i: int| 0 <= i < parents.len() && parent_in(#[trigger] parents[i], s) ==> s.contains(parents[i].0)
}

/// `s` holds the targets and every descendant it has to hold.
pub open spec fn descendant_closed(s: Set<u32>, targets: Set<u32>, parents: Seq<(u32, Option<u32>)>) -> bool {
    targets.subset_of(s) && closed_under_children(s, parents)
}

/// Number of entries of `parents` whose process is not in `s`.
pub open spec fn outside_count(s: Set<u32>, parents: Seq<(u32, Option<u32>)>, n: int) -> nat
    decreases n,
{
    if n <= 0 {
        0
    } else {
        outside_count(s, parents, n - 1) + (if s.contains(parents[n - 1].0) {
            0nat
        } else {
            1nat
        })
    }
}

proof fn lemma_outside_count_shrinks(a: Set<u32>, b: Set<u32>, parents: Seq<(u32, Option<u32>)>, n: int, k: int)
    requires
        a.subset_of(b),
        0 <= k < n <= parents.len(),
        !a.contains(parents[k].0),
        b.contains(parents[k].0),
    ensures
        outside_count(b, parents, n) < outside_count(a, parents, n),
    decreases n,
{
    lemma_outside_count_monotone(a, b, parents, n - 1);
    if k < n - 1 {
        lemma_outside_count_shrinks(a, b, parents, n - 1, k);
    }
}

proof fn lemma_outside_count_monotone(a: Set<u32>, b: Set<u32>, parents: Seq<(u32, Option<u32>)>, n: int)
    requires
        a.subset_of(b),
        n <= parents.len(),
    ensures
        outside_count(b, parents, n) <= outside_count(a, parents, n),
    decreases n,
{
    if n > 0 {
        lemma_outside_count_monotone(a, b, parents, n - 1);
    }
}

/// Whether `v` holds `x`.
fn holds_pid(v: &Vec<u32>, x: u32) -> (r: bool)
    ensures
        r == v@.contains(x),
{
    let mut i: usize = 0;
    while i < v.len()
        invariant
            i <= v@.len(),
            forall|k: int| 0 <= k < i ==> v@[k] != x,
        decreases v@.len() - i,
    {
        if v[i] == x {
            return true;
        }
        i = i + 1;
    }
    false
}

/// The targets and all their descendants: the least set of processes that
/// holds the targets and, with a process, every process whose parent it is.
pub fn collect_descendant_process_ids(targets: Vec<u32>, process_parents: &Vec<(u32, Option<u32>)>) -> (r: Vec<u32>)
    ensures
        descendant_closed(r@.to_set(), targets@.to_set(), process_parents@),
        forall|s: Set<u32>| #[trigger] descendant_closed(s, targets@.to_set(), process_parents@) ==> r@.to_set().subset_of(s),
        r@.no_duplicates(),
{
    let ghost init = targets@.to_set();
    let ghost parents = process_parents@;
    let mut found: Vec<u32> = Vec::new();
    let mut i: usize = 0;
    while i < targets.len()
        invariant
            i <= targets@.len(),
            init == targets@.to_set(),
            found@.no_duplicates(),
            found@.to_set() == targets@.take(i as int).to_set(),
        decreases targets@.len() - i,
    {
        let t = targets[i];
        proof {
            targets@.take(i as int).lemma_push_to_set_commute(t);
            assert(targets@.take(i as int).push(t) =~= targets@.take(i + 1));
        }
        if !holds_pid(&found, t) {
            proof {
                found@.lemma_push_to_set_commute(t);
            }
            found.push(t);
        } else {
            assert(found@.to_set().insert(t) =~= found@.to_set());
        }
        i = i + 1;
    }
    assert(targets@.take(i as int) =~= targets@);
    loop
        invariant
            parents == process_parents@,
            init == targets@.to_set(),
            found@.no_duplicates(),
            init.subset_of(found@.to_set()),
            forall|s: Set<u32>| #[trigger] descendant_closed(s, init, parents) ==> found@.to_set().subset_of(s),
        decreases outside_count(found@.to_set(), parents, parents.len() as int),
    {
        let ghost before = found@.to_set();
        let mut changed = false;
        let mut k: usize = 0;
        while k < process_parents.len()
            invariant
                k <= process_parents@.len(),
                parents == process_parents@,
                found@.no_duplicates(),
                before.subset_of(found@.to_set()),
                init.subset_of(found@.to_set()),
                forall|s: Set<u32>| #[trigger] descendant_closed(s, init, parents) ==> found@.to_set().subset_of(s),
                changed ==> outside_count(found@.to_set(), parents, parents.len() as int) < outside_count(before, parents, parents.len() as int),
                !changed ==> found@.to_set() == before,
                !changed ==> forall|j: int| 0 <= j < k && parent_in(#[trigger] parents[j], before) ==> before.contains(parents[j].0),
            decreases process_parents@.len() - k,
        {
            let (pid, parent) = process_parents[k];
            let adopt = match parent {
                Some(p) => holds_pid(&found, p),
                None => false,
            };
            if adopt && !holds_pid(&found, pid) {
                let ghost prior = found@.to_set();
                proof {
                    found@.lemma_push_to_set_commute(pid);
                }
                found.push(pid);
                proof {
                    assert forall|s: Set<u32>| #[trigger] descendant_closed(s, init, parents) implies found@.to_set().subset_of(s) by {
                        assert(prior.subset_of(s));
                        assert(parent_in(parents[k as int], s));
                    }
                    lemma_outside_count_monotone(before, prior, parents, parents.len() as int);
                    lemma_outside_count_shrinks(prior, found@.to_set(), parents, parents.len() as int, k as int);
                }
                changed = true;
            }
            k = k + 1;
        }
        if !changed {
            proof {
                assert(closed_under_children(found@.to_set(), parents));
            }
            return found;
        }
    }
}

/// The path an OAuth callback request asks for: the second word of its
/// first line, which must start with `GET`.
pub open spec fn oauth_request_target(request: Seq<char>) -> Result<Seq<char>, Seq<char>> {
    let ls = lines_of(request);
    if ls.len() == 0 {
        Err("OAuth 回调请求为空"@)
    } else {
        let ws = words(ls[0]);
        let method = if ws.len() > 0 {
            ws[0]
        } else {
            seq![]
        };
        if method != "GET"@ {
            Err("不支持的 OAuth 回调请求方法: "@ + method)
        } else if ws.len() < 2 {
            Err("OAuth 回调请求缺少路径"@)
        } else {
            Ok(ws[1])
        }
    }
}

/// Reads the requested path from the text of an OAuth callback request.
pub fn oauth_request_path(request: &str) -> (r: Result<String, String>)
    ensures
        match (r, oauth_request_target(request@)) {
            (Ok(a), Ok(b)) => a@ == b,
            (Err(a), Err(b)) => a@ == b,
            _ => false,
        },
{
    let v = chars_of(request);
    let ls = split_lines(v.as_slice());
    if ls.len() == 0 {
        return Err("OAuth 回调请求为空".to_string());
    }
    let ws = split_words(ls[0].as_slice());
    let method: Vec<char> = if ws.len() > 0 {
        crate::text::slice_to_vec(ws[0].as_slice(), 0, ws[0].len())
    } else {
        Vec::new()
    };
    assert(ws.len() > 0 ==> method@ =~= ws@[0]@);
    if !crate::text::chars_eq(method.as_slice(), chars_of("GET").as_slice()) {
        let mut m = "不支持的 OAuth 回调请求方法: ".to_string();
        m.append(string_from(method.as_slice()).as_str());
        return Err(m);
    }
    if ws.len() < 2 {
        return Err("OAuth 回调请求缺少路径".to_string());
    }
    Ok(string_from(ws[1].as_slice()))
}

/// What `reqwest::Url::parse` makes of `text`: the length in bytes of the
/// URL as it prints, or the text (`Display`) of the error.
pub uninterp spec fn url_parse_outcome(text: Seq<char>) -> Result<nat, Seq<char>>;

/// The URL `base` with the path, query and fragment of the URL `request`
/// (`Url::set_path`, `set_query`, `set_fragment`), as it prints.
pub uninterp spec fn url_with_request_parts(base: Seq<char>, request: Seq<char>) -> Seq<char>;

/// Parses `text` with `reqwest::Url::parse` and gives the length of the URL
/// as it prints (`Url::as_str`), or the error's text.
#[verifier::external_body]
fn url_parse_check(text: &str) -> (r: Result<usize, String>)
    ensures
        match r {
            Ok(n) => url_parse_outcome(text@) == Ok::<nat, Seq<char>>(n as nat),
            Err(e) => url_parse_outcome(text@) == Err::<nat, Seq<char>>(e@),
        },
{
    match reqwest::Url::parse(text) {
        Ok(url) => Ok(url.as_str().len()),
        Err(error) => Err(error.to_string()),
    }
}

/// Both URLs parse, and their printed lengths leave room for the merge:
/// `set_path`, `set_query` and `set_fragment` unwrap positions in the
/// rebuilt URL as `u32`, and every such position lies within the base's
/// printed text before its path plus the request's path, query and
/// fragment as printed (a cannot-be-a-base path may gain two bytes).
pub open spec fn urls_merge_fits(base: Seq<char>, request: Seq<char>) -> bool {
    match (url_parse_outcome(base), url_parse_outcome(request)) {
        (Ok(a), Ok(b)) => a + b + 2 <= u32::MAX,
        _ => false,
    }
}

/// Parses both URLs and moves the request's path, query and fragment onto
/// the base. Both must parse, and short enough that the positions the
/// setters unwrap fit in a `u32`.
#[verifier::external_body]
fn url_merge_request(base: &str, request: &str) -> (r: String)
    requires
        urls_merge_fits(base@, request@),
    ensures
        r@ == url_with_request_parts(base@, request@),
{
    let mut url = reqwest::Url::parse(base).expect("checked by the caller");
    let request = reqwest::Url::parse(request).expect("checked by the caller");
    url.set_path(request.path());
    url.set_query(request.query());
    url.set_fragment(request.fragment());
    url.to_string()
}

/// The error text of a parse outcome, if it failed.
pub open spec fn parse_error_of(o: Result<nat, Seq<char>>) -> Option<Seq<char>> {
    match o {
        Ok(_) => None,
        Err(e) => Some(e),
    }
}

pub open spec fn opt_error_text(o: Result<usize, String>) -> Option<String> {
    match o {
        Ok(_) => None,
        Err(e) => Some(e),
    }
}

/// The request URL a callback path is read against.
pub open spec fn callback_request_url(path: Seq<char>) -> Seq<char> {
    "http://localhost"@ + path
}

/// Building the callback URL for `path` does not overflow the URL library's
/// positions: when both URLs parse, their merge fits.
pub open spec fn oauth_urls_fit(redirect_uri: Seq<char>, path: Seq<char>) -> bool {
    match (url_parse_outcome(redirect_uri), url_parse_outcome(callback_request_url(path))) {
        (Ok(_), Ok(_)) => urls_merge_fits(redirect_uri, callback_request_url(path)),
        _ => true,
    }
}

/// Why an OAuth callback URL cannot be built, given the parse errors of the
/// redirect URI and of the request URL: the redirect URI's first.
pub open spec fn oauth_url_error(redirect_error: Option<Seq<char>>, request_error: Option<Seq<char>>) -> Option<Seq<char>> {
    match redirect_error {
        Some(e) => Some("OAuth redirect_uri 无效: "@ + e),
        None => match request_error {
            Some(e) => Some("OAuth 回调路径无效: "@ + e),
            None => None,
        },
    }
}

/// The URL an OAuth callback is completed with: the registered redirect URI
/// with the path, query and fragment of the request (read against
/// `http://localhost`).
pub open spec fn oauth_callback_url(redirect_uri: Seq<char>, path: Seq<char>) -> Result<Seq<char>, Seq<char>> {
    match oauth_url_error(
        parse_error_of(url_parse_outcome(redirect_uri)),
        parse_error_of(url_parse_outcome(callback_request_url(path))),
    ) {
        Some(e) => Err(e),
        None => Ok(url_with_request_parts(redirect_uri, callback_request_url(path))),
    }
}

/// The message for the parse errors of the redirect URI and the request
/// URL, `None` when both parsed.
pub fn oauth_callback_url_error(redirect_error: Option<String>, request_error: Option<String>) -> (r: Option<String>)
    ensures
        opt_text(r) == oauth_url_error(opt_text(redirect_error), opt_text(request_error)),
{
    if let Some(e) = redirect_error {
        let mut m = "OAuth redirect_uri 无效: ".to_string();
        m.append(e.as_str());
        return Some(m);
    }
    if let Some(e) = request_error {
        let mut m = "OAuth 回调路径无效: ".to_string();
        m.append(e.as_str());
        return Some(m);
    }
    None
}

/// Builds the callback URL for a request path. The URL library panics when
/// the merged URL outgrows its `u32` positions, so that is left out.
pub fn build_oauth_callback_url(redirect_uri: &str, path: &str) -> (r: Result<String, String>)
    requires
        oauth_urls_fit(redirect_uri@, path@),
    ensures
        match (r, oauth_callback_url(redirect_uri@, path@)) {
            (Ok(a), Ok(b)) => a@ == b,
            (Err(a), Err(b)) => a@ == b,
            _ => false,
        },
{
    let mut request = "http://localhost".to_string();
    request.append(path);
    let redirect_parsed = url_parse_check(redirect_uri);
    let request_parsed = url_parse_check(request.as_str());
    let redirect_error = match redirect_parsed {
        Ok(_) => None,
        Err(e) => Some(e),
    };
    let request_error = match request_parsed {
        Ok(_) => None,
        Err(e) => Some(e),
    };
    match oauth_callback_url_error(redirect_error, request_error) {
        Some(m) => Err(m),
        None => Ok(url_merge_request(redirect_uri, request.as_str())),
    }
}

/// Whether building the callback URL for `path` stays within the URL
/// library's `u32` positions (see `oauth_urls_fit`).
pub fn oauth_urls_fit_check(redirect_uri: &str, path: &str) -> (r: bool)
    ensures
        r == oauth_urls_fit(redirect_uri@, path@),
{
    let mut request = "http://localhost".to_string();
    request.append(path);
    match (url_parse_check(redirect_uri), url_parse_check(request.as_str())) {
        (Ok(a), Ok(b)) => a <= 4294967293 && b <= 4294967293 - a,
        _ => true,
    }
}

/// What a check for updates does with the HTTP status of the latest release:
/// a missing release (404) means no update, another failure is an error.
pub open spec fn release_status(status_code: u16, success: bool) -> Result<bool, Seq<char>> {
    if status_code == 404 {
        Ok(false)
    } else if !success {
        Err("GitHub Releases 返回 HTTP "@ + decimal(status_code as nat))
    } else {
        Ok(true)
    }
}

/// Whether the release response should be read (`Ok(true)`), means no
/// update (`Ok(false)`), or is an error.
pub fn release_http_outcome(status_code: u16, success: bool) -> (r: Result<bool, String>)
    ensures
        match (r, release_status(status_code, success)) {
            (Ok(a), Ok(b)) => a == b,
            (Err(a), Err(b)) => a@ == b,
            _ => false,
        },
{
    if status_code == 404 {
        return Ok(false);
    }
    if !success {
        let mut m = "GitHub Releases 返回 HTTP ".to_string();
        m.append(decimal_string(status_code as u64).as_str());
        return Err(m);
    }
    Ok(true)
}

/// The latest release as GitHub reports it.
#[derive(Debug)]
pub struct GithubLatestRelease {
    pub tag_name: String,
    pub name: Option<String>,
    pub body: Option<String>,
    pub published_at: Option<String>,
    pub html_url: String,
    pub draft: bool,
    pub prerelease: bool,
}

/// An update offered to the user.
#[derive(Debug)]
pub struct GithubReleaseUpdate {
    pub current_version: String,
    pub version: String,
    pub body: Option<String>,
    pub date: Option<String>,
    pub release_url: String,
}

/// A published, final release newer than the running version is offered,
/// with its version number (tag without `v`), notes (body, else name), date
/// and page.
pub fn github_release_update(release: GithubLatestRelease, current_version: String) -> (r: Option<
    GithubReleaseUpdate,
>)
    ensures
        (release.draft || release.prerelease || !version_newer(release.tag_name@, current_version@)) <==> r is None,
        r matches Some(u) ==> {
            &&& u.current_version@ == current_version@
            &&& u.version@ == strip_leading_v(trim(release.tag_name@))
            &&& opt_text(u.body) == (if release.body is Some {
                opt_text(release.body)
            } else {
                opt_text(release.name)
            })
            &&& opt_text(u.date) == opt_text(release.published_at)
            &&& u.release_url@ == release.html_url@
        },
{
    if release.draft || release.prerelease || !version_is_newer(release.tag_name.as_str(), current_version.as_str()) {
        return None;
    }
    let version = strip_version_prefix(release.tag_name.as_str());
    let body = match release.body {
        Some(b) => Some(b),
        None => release.name,
    };
    Some(
        GithubReleaseUpdate {
            current_version,
            version: string_from(version.as_slice()),
            body,
            date: release.published_at,
            release_url: release.html_url,
        },
    )
}

/// The id of the first session metadata line among `ls[i..]` (lines that
/// are not JSON or not session metadata with a string id are skipped).
pub open spec fn first_session_meta_id(ls: Seq<Seq<char>>, i: int) -> Option<Seq<char>>
    decreases ls.len() - i,
{
    if i < 0 || i >= ls.len() {
        None
    } else if json_string_at(ls[i], "/type"@) == Some("session_meta"@) && json_string_at(
        ls[i],
        "/payload/id"@,
    ) is Some {
        json_string_at(ls[i], "/payload/id"@)
    } else {
        first_session_meta_id(ls, i + 1)
    }
}

/// A session file belongs to `session_id` when its first session metadata
/// says so; without any, when its file stem is that id.
pub open spec fn session_file_is(raw: Seq<char>, file_stem: Option<Seq<char>>, session_id: Seq<char>) -> bool {
    match first_session_meta_id(lines_of(raw), 0) {
        Some(id) => id == session_id,
        None => file_stem == Some(session_id),
    }
}

/// Whether the contents `raw` of a session file (named `file_stem`) are
/// those of the session `session_id`.
pub fn codex_session_file_matches_id(raw: &str, file_stem: Option<&str>, session_id: &str) -> (r: bool)
    ensures
        r == session_file_is(raw@, opt_str(file_stem), session_id@),
{
    let v = chars_of(raw);
    let ls = split_lines(v.as_slice());
    let ghost lsv = lines_of(raw@);
    let mut i: usize = 0;
    while i < ls.len()
        invariant
            i <= ls@.len(),
            ls@.len() == lsv.len(),
            lsv == lines_of(raw@),
            forall|k: int| 0 <= k < ls@.len() ==> #[trigger] ls@[k]@ == lsv[k],
            first_session_meta_id(lsv, 0) == first_session_meta_id(lsv, i as int),
        decreases ls@.len() - i,
    {
        let line = string_from(ls[i].as_slice());
        let kind = json_pointer_string(line.as_str(), "/type");
        let is_meta = match &kind {
            Some(k) => str_eq(k.as_str(), "session_meta"),
            None => false,
        };
        if is_meta {
            match json_pointer_string(line.as_str(), "/payload/id") {
                Some(id) => {
                    return str_eq(id.as_str(), session_id);
                },
                None => {},
            }
        }
        i = i + 1;
    }
    match file_stem {
        Some(stem) => str_eq(stem, session_id),
        None => false,
    }
}

/// Checks a request to delete a session file: the id must not be blank and
/// the file must be a `.jsonl` one. Gives the trimmed id.
pub fn session_delete_request(session_id: &str, extension: Option<&str>) -> (r: Result<String, String>)
    ensures
        trim(session_id@).len() == 0 ==> (r matches Err(e) && e@ == "会话 ID 为空"@),
        trim(session_id@).len() > 0 && opt_str(extension) != Some("jsonl"@) ==> (r matches Err(e) && e@
            == "只允许删除 Codex JSONL 会话文件"@),
        trim(session_id@).len() > 0 && opt_str(extension) == Some("jsonl"@) ==> (r matches Ok(id) && id@
            == trim(session_id@)),
{
    let t = trim_chars(session_id);
    if t.len() == 0 {
        return Err("会话 ID 为空".to_string());
    }
    let is_jsonl = match extension {
        Some(e) => str_eq(e, "jsonl"),
        None => false,
    };
    if !is_jsonl {
        return Err("只允许删除 Codex JSONL 会话文件".to_string());
    }
    Ok(string_from(t.as_slice()))
}

/// No version is newer than itself.
pub proof fn law_version_not_newer_than_itself(v: Seq<char>)
    ensures
        !version_newer(v, v),
{
}

/// Version comparison is transitive, and so (with the law above) a strict
/// order: `a` newer than `b` and `b` newer than `c` make `a` newer than `c`,
/// and `a` newer than `b` rules out `b` newer than `a`.
pub proof fn law_version_order_is_strict(a: Seq<char>, b: Seq<char>, c: Seq<char>)
    ensures
        version_newer(a, b) && version_newer(b, c) ==> version_newer(a, c),
        version_newer(a, b) ==> !version_newer(b, a),
{
    if version_newer(a, b) && version_newer(b, c) {
        let (pa, pb, pc) = (version_parts(a).unwrap(), version_parts(b).unwrap(), version_parts(c).unwrap());
        let i = choose|i: int|
            #![trigger part_or_zero(pa, i)]
            0 <= i && (forall|j: int| 0 <= j < i ==> part_or_zero(pa, j) == part_or_zero(pb, j))
                && part_or_zero(pa, i) > part_or_zero(pb, i);
        let k = choose|k: int|
            #![trigger part_or_zero(pb, k)]
            0 <= k && (forall|j: int| 0 <= j < k ==> part_or_zero(pb, j) == part_or_zero(pc, j))
                && part_or_zero(pb, k) > part_or_zero(pc, k);
        let m = if i < k { i } else { k };
        assert(part_or_zero(pa, m) > part_or_zero(pc, m));
        assert(forall|j: int| 0 <= j < m ==> part_or_zero(pa, j) == part_or_zero(pc, j));
        assert(parts_newer(pa, pc));
    }
    if version_newer(a, b) && version_newer(b, a) {
        let (pa, pb) = (version_parts(a).unwrap(), version_parts(b).unwrap());
        let i = choose|i: int|
            #![trigger part_or_zero(pa, i)]
            0 <= i && (forall|j: int| 0 <= j < i ==> part_or_zero(pa, j) == part_or_zero(pb, j))
                && part_or_zero(pa, i) > part_or_zero(pb, i);
        let k = choose|k: int|
            #![trigger part_or_zero(pb, k)]
            0 <= k && (forall|j: int| 0 <= j < k ==> part_or_zero(pb, j) == part_or_zero(pa, j))
                && part_or_zero(pb, k) > part_or_zero(pa, k);
        if i < k {
            assert(part_or_zero(pb, i) == part_or_zero(pa, i));
        } else if k < i {
            assert(part_or_zero(pa, k) == part_or_zero(pb, k));
        }
    }
}

/// Escaped HTML holds none of the characters that would start markup or
/// end an attribute: `<`, `>`, `"` and `'`.
pub proof fn law_escaped_html_has_no_markup(s: Seq<char>)
    ensures
        forall|i: int|
            0 <= i < html_escaped(s).len() ==> {
                let c = #[trigger] html_escaped(s)[i];
                c != '<' && c != '>' && c != '"' && c != '\''
            },
    decreases s.len(),
{
    reveal_strlit("&amp;");
    reveal_strlit("&lt;");
    reveal_strlit("&gt;");
    reveal_strlit("&quot;");
    reveal_strlit("&#39;");
    if s.len() > 0 {
        law_escaped_html_has_no_markup(s.drop_last());
        let front = html_escaped(s.drop_last());
        let tail = html_escaped_char(s.last());
        assert forall|i: int| 0 <= i < tail.len() implies {
            let c = #[trigger] tail[i];
            c != '<' && c != '>' && c != '"' && c != '\''
        } by {}
        assert forall|i: int| 0 <= i < html_escaped(s).len() implies {
            let c = #[trigger] html_escaped(s)[i];
            c != '<' && c != '>' && c != '"' && c != '\''
        } by {
            if i < front.len() {
                assert(html_escaped(s)[i] == front[i]);
            } else {
                assert(html_escaped(s)[i] == tail[i - front.len()]);
            }
        }
    }
}

/// What the OAuth callback listener does with one request.
pub enum OauthRoute {
    /// Answer with an error page and stop listening.
    Failed(String),
    /// The user cancelled: confirm it and stop listening.
    Cancelled,
    /// Not a callback address: answer "not found" and keep listening.
    Unknown,
    /// A callback: complete the login with this URL.
    Callback(String),
}

/// The path is a callback address: not `/cancel`, and under `/auth/callback`.
pub open spec fn is_callback_path(p: Seq<char>) -> bool {
    p != "/cancel"@ && crate::text::has_prefix(p, "/auth/callback"@)
}

/// How a request is routed, by the path read from it (or the error met
/// reading it): `/cancel` cancels, a path outside `/auth/callback` is
/// unknown, and a callback path becomes the callback URL built from the
/// redirect URI.
pub open spec fn oauth_routed(request_path: Result<String, String>, redirect_uri: Seq<char>, r: OauthRoute) -> bool {
    match request_path {
        Err(e) => r matches OauthRoute::Failed(m) && m@ == e@,
        Ok(p) => if p@ == "/cancel"@ {
            r is Cancelled
        } else if !crate::text::has_prefix(p@, "/auth/callback"@) {
            r is Unknown
        } else {
            match oauth_callback_url(redirect_uri, p@) {
                Ok(u) => r matches OauthRoute::Callback(c) && c@ == u,
                Err(e) => r matches OauthRoute::Failed(m) && m@ == e,
            }
        },
    }
}

/// Routes a request (see `oauth_routed`); a callback must leave the URL
/// library room to build its URL.
pub fn route_oauth_request(request_path: Result<String, String>, redirect_uri: &str) -> (r: OauthRoute)
    requires
        request_path matches Ok(p) ==> (is_callback_path(p@) ==> oauth_urls_fit(redirect_uri@, p@)),
    ensures
        oauth_routed(request_path, redirect_uri@, r),
{
    let path = match request_path {
        Err(e) => {
            return OauthRoute::Failed(e);
        },
        Ok(p) => p,
    };
    if str_eq(path.as_str(), "/cancel") {
        return OauthRoute::Cancelled;
    }
    let v = chars_of(path.as_str());
    if !crate::text::starts_with_str(v.as_slice(), "/auth/callback") {
        return OauthRoute::Unknown;
    }
    match build_oauth_callback_url(redirect_uri, path.as_str()) {
        Ok(u) => OauthRoute::Callback(u),
        Err(e) => OauthRoute::Failed(e),
    }
}

/// Routes a request when its callback URL can be built; `None` exactly for a
/// callback whose URLs would outgrow the URL library's `u32` positions.
pub fn try_route_oauth_request(request_path: Result<String, String>, redirect_uri: &str) -> (r: Option<OauthRoute>)
    ensures
        r is None <==> (request_path matches Ok(p) && is_callback_path(p@) && !oauth_urls_fit(redirect_uri@, p@)),
        r matches Some(route) ==> oauth_routed(request_path, redirect_uri@, route),
{
    let fits = match &request_path {
        Ok(p) => {
            let v = chars_of(p.as_str());
            if !str_eq(p.as_str(), "/cancel") && crate::text::starts_with_str(v.as_slice(), "/auth/callback") {
                oauth_urls_fit_check(redirect_uri, p.as_str())
            } else {
                true
            }
        },
        Err(_) => true,
    };
    if !fits {
        return None;
    }
    Some(route_oauth_request(request_path, redirect_uri))
}

/// An HTML page the listener answers with.
pub struct OauthPage {
    pub status: String,
    pub title: String,
    pub message: String,
}

pub open spec fn page_is(p: OauthPage, status: Seq<char>, title: Seq<char>, message: Seq<char>) -> bool {
    p.status@ == status && p.title@ == title && p.message@ == message
}

fn oauth_page(status: &str, title: &str, message: &str) -> (r: OauthPage)
    ensures
        page_is(r, status@, title@, message@),
{
    OauthPage { status: status.to_string(), title: title.to_string(), message: message.to_string() }
}

/// The page for a route that needs no login, and whether the listener stops
/// after it; `None` for a callback, whose page depends on the login.
pub fn oauth_route_page(route: &OauthRoute) -> (r: Option<(OauthPage, bool)>)
    ensures
        match route {
            OauthRoute::Failed(e) => r matches Some((p, stop)) && stop && page_is(
                p,
                "400 Bad Request"@,
                "授权失败"@,
                e@,
            ),
            OauthRoute::Cancelled => r matches Some((p, stop)) && stop && page_is(
                p,
                "200 OK"@,
                "授权已取消"@,
                "当前授权监听已取消，可以关闭这个页面。"@,
            ),
            OauthRoute::Unknown => r matches Some((p, stop)) && !stop && page_is(
                p,
                "404 Not Found"@,
                "未识别的回调地址"@,
                "当前地址不是 CodexTool 的 OAuth 回调地址，可以关闭这个页面。"@,
            ),
            OauthRoute::Callback(_) => r is None,
        },
{
    match route {
        OauthRoute::Failed(e) => Some((oauth_page("400 Bad Request", "授权失败", e.as_str()), true)),
        OauthRoute::Cancelled => Some(
            (oauth_page("200 OK", "授权已取消", "当前授权监听已取消，可以关闭这个页面。"), true),
        ),
        OauthRoute::Unknown => Some(
            (
                oauth_page(
                    "404 Not Found",
                    "未识别的回调地址",
                    "当前地址不是 CodexTool 的 OAuth 回调地址，可以关闭这个页面。",
                ),
                false,
            ),
        ),
        OauthRoute::Callback(_) => None,
    }
}

/// The page after completing a login (`None` when it succeeded, else its
/// error), and whether the app is told: always on success; on failure
/// unless the login session had already expired.
pub fn oauth_completion_page(error: Option<&str>) -> (r: (OauthPage, bool))
    ensures
        match error {
            None => r.1 && page_is(r.0, "200 OK"@, "授权完成"@, "账号已经写入 CodexTool，可以回到应用继续操作。"@),
            Some(e) => page_is(r.0, "400 Bad Request"@, "授权失败"@, e@) && r.1 == !crate::text::contains_seq(
                e@,
                "会话已失效"@,
            ),
        },
{
    match error {
        None => (oauth_page("200 OK", "授权完成", "账号已经写入 CodexTool，可以回到应用继续操作。"), true),
        Some(e) => {
            let v = chars_of(e);
            let stale = crate::text::contains_str(v.as_slice(), "会话已失效");
            (oauth_page("400 Bad Request", "授权失败", e), !stale)
        },
    }
}

/// A pending OAuth login has run out of time.
pub fn oauth_login_expired(now: i64, expires_at: i64) -> (r: bool)
    ensures
        r == (now >= expires_at),
{
    now >= expires_at
}

/// The saved login of an account cannot be refreshed any more: the
/// normalised refresh error is one of the two that say so.
pub open spec fn blocks_refresh(normalized_error: Seq<char>) -> bool {
    normalized_error == "当前账号的 refresh_token 已失效或已被轮换，请重新登录授权。"@
        || normalized_error == "当前账号授权已过期，请重新登录授权。"@
}

/// Whether a failed refresh before a switch marks the account as blocked.
pub fn refresh_failure_blocks_account(normalized_error: &str) -> (r: bool)
    ensures
        r == blocks_refresh(normalized_error@),
{
    str_eq(normalized_error, "当前账号的 refresh_token 已失效或已被轮换，请重新登录授权。") || str_eq(
        normalized_error,
        "当前账号授权已过期，请重新登录授权。",
    )
}

/// Every refresh error the normalisation recognises blocks the account.
pub proof fn law_recognised_refresh_errors_block(raw: Seq<char>)
    ensures
        switch_refresh_error_message(raw) != raw ==> blocks_refresh(switch_refresh_error_message(raw)),
{
}

/// The settings an account switch follows.
pub struct SwitchSettings {
    pub sync_opencode_openai_auth: bool,
    pub restart_opencode_desktop_on_switch: bool,
    pub restart_editors_on_switch: bool,
}

/// What a switch does after writing the account's login.
#[derive(Clone, Copy)]
pub struct SwitchPlan {
    pub launch_codex: bool,
    pub sync_opencode: bool,
    pub restart_opencode_desktop: bool,
    pub restart_editors: bool,
}

/// The steps of a switch: Codex is launched unless asked not to be;
/// opencode is synced as the settings say, and its desktop app restarted
/// only when it is synced; editors are restarted as asked, else as the
/// settings say.
pub fn switch_plan(settings: &SwitchSettings, launch_codex: Option<bool>, restart_editors_on_switch: Option<bool>) -> (r: SwitchPlan)
    ensures
        r.launch_codex == match launch_codex {
            Some(b) => b,
            None => true,
        },
        r.sync_opencode == settings.sync_opencode_openai_auth,
        r.restart_opencode_desktop == (settings.sync_opencode_openai_auth
            && settings.restart_opencode_desktop_on_switch),
        r.restart_editors == match restart_editors_on_switch {
            Some(b) => b,
            None => settings.restart_editors_on_switch,
        },
{
    SwitchPlan {
        launch_codex: match launch_codex {
            Some(b) => b,
            None => true,
        },
        sync_opencode: settings.sync_opencode_openai_auth,
        restart_opencode_desktop: settings.sync_opencode_openai_auth
            && settings.restart_opencode_desktop_on_switch,
        restart_editors: match restart_editors_on_switch {
            Some(b) => b,
            None => settings.restart_editors_on_switch,
        },
    }
}

/// Where an account switch stands: which outside step it waits for.
#[derive(Clone, Copy, PartialEq, Eq, Structural)]
pub enum SwitchStage {
    AwaitLatestAuth,
    AwaitRefresh,
    AwaitRecovery,
    AwaitBlockPersisted,
    AwaitProfile,
    AwaitCodexStop,
    AwaitProviderSync,
    AwaitOpencodeSync,
    AwaitOpencodeNote,
    AwaitOpencodeRestart,
    AwaitEditorRestart,
    Finished,
}

/// The state of an account switch.
pub struct SwitchState {
    pub stage: SwitchStage,
    pub plan: SwitchPlan,
    /// The account logs in with ChatGPT (not an API relay).
    pub chatgpt: bool,
    /// The stored account is blocked from refreshing its tokens, and why.
    pub refresh_blocked: bool,
    pub refresh_blocked_error: Option<String>,
    /// The account's auth snapshot changed (newer local copy or refresh).
    pub auth_changed: bool,
    /// The error of the last failed token refresh.
    pub refresh_error: Option<String>,
}

/// What an outside step reports back.
pub enum SwitchEvent {
    /// The latest local auth snapshot was loaded: whether it differs from
    /// the stored one, and whether its tokens need a refresh.
    LatestAuth { changed: bool, needs_refresh: bool },
    /// The token refresh finished, or failed with this error.
    Refreshed(Result<(), String>),
    /// Whether a newer local snapshot could stand in for the failed refresh.
    Recovered(bool),
    BlockPersisted,
    ProfileApplied,
    CodexStopped,
    ProviderSynced,
    /// Whether syncing opencode's login succeeded.
    OpencodeSynced(bool),
    OpencodeNoted,
    OpencodeRestarted,
    EditorsRestarted,
}

/// The outside step a switch asks for next.
pub enum SwitchAction {
    /// Nothing to switch: sync the provider metadata and report a no-op.
    FinishNoop,
    LoadLatestAuth,
    RefreshTokens,
    RecoverFromLatestSnapshot,
    /// Store that the account is blocked from refreshing, with this message.
    PersistRefreshBlocked(String),
    /// The switch fails with this message.
    Fail(String),
    /// Write the account's profile and make it active (with its refreshed
    /// auth when `auth_changed`).
    ApplyProfile { auth_changed: bool },
    StopCodex,
    SyncProvider,
    SyncOpencode,
    /// opencode cannot take this account's login: record this error.
    NoteOpencodeError(String),
    RestartOpencode,
    RestartEditors,
    LaunchCodex,
    Finish,
}

/// The event an outside step answers in each stage.
pub open spec fn event_fits(stage: SwitchStage, e: SwitchEvent) -> bool {
    match stage {
        SwitchStage::AwaitLatestAuth => e is LatestAuth,
        SwitchStage::AwaitRefresh => e is Refreshed,
        SwitchStage::AwaitRecovery => e is Recovered,
        SwitchStage::AwaitBlockPersisted => e is BlockPersisted,
        SwitchStage::AwaitProfile => e is ProfileApplied,
        SwitchStage::AwaitCodexStop => e is CodexStopped,
        SwitchStage::AwaitProviderSync => e is ProviderSynced,
        SwitchStage::AwaitOpencodeSync => e is OpencodeSynced,
        SwitchStage::AwaitOpencodeNote => e is OpencodeNoted,
        SwitchStage::AwaitOpencodeRestart => e is OpencodeRestarted,
        SwitchStage::AwaitEditorRestart => e is EditorsRestarted,
        SwitchStage::Finished => false,
    }
}

/// The failure message when the tokens could not be refreshed before a switch.
pub open spec fn refresh_failure_message(detail: Seq<char>) -> Seq<char> {
    "切换账号前刷新登录令牌失败: "@ + detail
}

/// The message stored on an account whose saved login no longer refreshes.
pub open spec fn stale_snapshot_message() -> Seq<char> {
    "工具保存的授权快照已失效，请重新登录授权。"@
}

pub open spec fn opencode_relay_message() -> Seq<char> {
    "当前条目为 API 中转站配置，无法同步为 opencode 的 OAuth 登录态。"@
}

/// An action as a value of the specification (messages as text).
pub enum SwitchActionSpec {
    FinishNoop,
    LoadLatestAuth,
    RefreshTokens,
    RecoverFromLatestSnapshot,
    PersistRefreshBlocked(Seq<char>),
    Fail(Seq<char>),
    ApplyProfile(bool),
    StopCodex,
    SyncProvider,
    SyncOpencode,
    NoteOpencodeError(Seq<char>),
    RestartOpencode,
    RestartEditors,
    LaunchCodex,
    Finish,
}

pub open spec fn action_spec(a: SwitchAction) -> SwitchActionSpec {
    match a {
        SwitchAction::FinishNoop => SwitchActionSpec::FinishNoop,
        SwitchAction::LoadLatestAuth => SwitchActionSpec::LoadLatestAuth,
        SwitchAction::RefreshTokens => SwitchActionSpec::RefreshTokens,
        SwitchAction::RecoverFromLatestSnapshot => SwitchActionSpec::RecoverFromLatestSnapshot,
        SwitchAction::PersistRefreshBlocked(m) => SwitchActionSpec::PersistRefreshBlocked(m@),
        SwitchAction::Fail(m) => SwitchActionSpec::Fail(m@),
        SwitchAction::ApplyProfile { auth_changed } => SwitchActionSpec::ApplyProfile(auth_changed),
        SwitchAction::StopCodex => SwitchActionSpec::StopCodex,
        SwitchAction::SyncProvider => SwitchActionSpec::SyncProvider,
        SwitchAction::SyncOpencode => SwitchActionSpec::SyncOpencode,
        SwitchAction::NoteOpencodeError(m) => SwitchActionSpec::NoteOpencodeError(m@),
        SwitchAction::RestartOpencode => SwitchActionSpec::RestartOpencode,
        SwitchAction::RestartEditors => SwitchActionSpec::RestartEditors,
        SwitchAction::LaunchCodex => SwitchActionSpec::LaunchCodex,
        SwitchAction::Finish => SwitchActionSpec::Finish,
    }
}

/// What follows once opencode is dealt with: restart editors when planned,
/// else launch Codex when planned, else finish.
pub open spec fn after_opencode(plan: SwitchPlan) -> (SwitchStage, SwitchActionSpec) {
    if plan.restart_editors {
        (SwitchStage::AwaitEditorRestart, SwitchActionSpec::RestartEditors)
    } else if plan.launch_codex {
        (SwitchStage::Finished, SwitchActionSpec::LaunchCodex)
    } else {
        (SwitchStage::Finished, SwitchActionSpec::Finish)
    }
}

/// What follows the provider sync: sync opencode when planned (or note why
/// a relay account cannot be synced), else as `after_opencode`.
pub open spec fn after_provider_sync(plan: SwitchPlan, chatgpt: bool) -> (SwitchStage, SwitchActionSpec) {
    if plan.sync_opencode {
        if chatgpt {
            (SwitchStage::AwaitOpencodeSync, SwitchActionSpec::SyncOpencode)
        } else {
            (SwitchStage::AwaitOpencodeNote, SwitchActionSpec::NoteOpencodeError(opencode_relay_message()))
        }
    } else {
        after_opencode(plan)
    }
}

/// The stage and action after the profile is written: stop Codex when it
/// is to be launched, else sync the provider metadata.
pub open spec fn after_profile(plan: SwitchPlan) -> (SwitchStage, SwitchActionSpec) {
    if plan.launch_codex {
        (SwitchStage::AwaitCodexStop, SwitchActionSpec::StopCodex)
    } else {
        (SwitchStage::AwaitProviderSync, SwitchActionSpec::SyncProvider)
    }
}

/// One step of an account switch: the next stage, whether the auth
/// snapshot changed, and the action asked for.
pub open spec fn switch_transition(s: SwitchState, e: SwitchEvent) -> (SwitchStage, bool, SwitchActionSpec) {
    match e {
        SwitchEvent::LatestAuth { changed, needs_refresh } => if !needs_refresh {
            (SwitchStage::AwaitProfile, changed, SwitchActionSpec::ApplyProfile(changed))
        } else if s.refresh_blocked {
            (SwitchStage::Finished, changed, SwitchActionSpec::Fail(refresh_failure_message(
                match s.refresh_blocked_error {
                    Some(m) => m@,
                    None => stale_snapshot_message(),
                },
            )))
        } else {
            (SwitchStage::AwaitRefresh, changed, SwitchActionSpec::RefreshTokens)
        },
        SwitchEvent::Refreshed(Ok(())) => (SwitchStage::AwaitProfile, true, SwitchActionSpec::ApplyProfile(true)),
        SwitchEvent::Refreshed(Err(_)) => (SwitchStage::AwaitRecovery, s.auth_changed, SwitchActionSpec::RecoverFromLatestSnapshot),
        SwitchEvent::Recovered(true) => (SwitchStage::AwaitProfile, true, SwitchActionSpec::ApplyProfile(true)),
        SwitchEvent::Recovered(false) => {
            let detail = switch_refresh_error_message(match s.refresh_error {
                Some(m) => m@,
                None => seq![],
            });
            if blocks_refresh(detail) {
                (SwitchStage::AwaitBlockPersisted, s.auth_changed, SwitchActionSpec::PersistRefreshBlocked(stale_snapshot_message()))
            } else {
                (SwitchStage::Finished, s.auth_changed, SwitchActionSpec::Fail(refresh_failure_message(detail)))
            }
        },
        SwitchEvent::BlockPersisted => (SwitchStage::Finished, s.auth_changed, SwitchActionSpec::Fail(refresh_failure_message(
            switch_refresh_error_message(match s.refresh_error {
                Some(m) => m@,
                None => seq![],
            }),
        ))),
        SwitchEvent::ProfileApplied => {
            let (st, a) = after_profile(s.plan);
            (st, s.auth_changed, a)
        },
        SwitchEvent::CodexStopped => (SwitchStage::AwaitProviderSync, s.auth_changed, SwitchActionSpec::SyncProvider),
        SwitchEvent::ProviderSynced => {
            let (st, a) = after_provider_sync(s.plan, s.chatgpt);
            (st, s.auth_changed, a)
        },
        SwitchEvent::OpencodeSynced(ok) => if ok && s.plan.restart_opencode_desktop {
            (SwitchStage::AwaitOpencodeRestart, s.auth_changed, SwitchActionSpec::RestartOpencode)
        } else {
            let (st, a) = after_opencode(s.plan);
            (st, s.auth_changed, a)
        },
        SwitchEvent::OpencodeNoted | SwitchEvent::OpencodeRestarted => {
            let (st, a) = after_opencode(s.plan);
            (st, s.auth_changed, a)
        },
        SwitchEvent::EditorsRestarted => if s.plan.launch_codex {
            (SwitchStage::Finished, s.auth_changed, SwitchActionSpec::LaunchCodex)
        } else {
            (SwitchStage::Finished, s.auth_changed, SwitchActionSpec::Finish)
        },
    }
}

/// Starts a switch to an account: a switch to the account already in use
/// is a no-op; a ChatGPT account first loads its latest auth snapshot; a
/// relay account goes straight to writing its profile.
pub fn switch_begin(plan: SwitchPlan, chatgpt: bool, no_op: bool, refresh_blocked: bool, refresh_blocked_error: Option<String>) -> (r: (SwitchState, SwitchAction))
    ensures
        r.0.plan == plan,
        r.0.chatgpt == chatgpt,
        r.0.refresh_blocked == refresh_blocked,
        r.0.refresh_blocked_error == refresh_blocked_error,
        !r.0.auth_changed,
        r.0.refresh_error is None,
        no_op ==> r.0.stage == SwitchStage::Finished && r.1 is FinishNoop,
        !no_op && chatgpt ==> r.0.stage == SwitchStage::AwaitLatestAuth && r.1 is LoadLatestAuth,
        !no_op && !chatgpt ==> r.0.stage == SwitchStage::AwaitProfile && action_spec(r.1) == SwitchActionSpec::ApplyProfile(false),
{
    let (stage, action) = if no_op {
        (SwitchStage::Finished, SwitchAction::FinishNoop)
    } else if chatgpt {
        (SwitchStage::AwaitLatestAuth, SwitchAction::LoadLatestAuth)
    } else {
        (SwitchStage::AwaitProfile, SwitchAction::ApplyProfile { auth_changed: false })
    };
    (SwitchState { stage, plan, chatgpt, refresh_blocked, refresh_blocked_error, auth_changed: false, refresh_error: None }, action)
}

fn prefixed(prefix: &str, detail: &str) -> (r: String)
    ensures
        r@ == prefix@ + detail@,
{
    let mut m = prefix.to_string();
    m.append(detail);
    m
}

/// One step of an account switch: takes what the last outside step
/// reported and gives the next action (see `switch_transition`). The plan,
/// account kind and refresh block stay; a failed refresh keeps its error.
pub fn switch_step(state: &mut SwitchState, event: SwitchEvent) -> (r: SwitchAction)
    requires
        event_fits(old(state).stage, event),
    ensures
        (final(state).stage, final(state).auth_changed, action_spec(r)) == switch_transition(*old(state), event),
        final(state).plan == old(state).plan,
        final(state).chatgpt == old(state).chatgpt,
        final(state).refresh_blocked == old(state).refresh_blocked,
        final(state).refresh_blocked_error == old(state).refresh_blocked_error,
        final(state).refresh_error == match event {
            SwitchEvent::Refreshed(Err(m)) => Some(m),
            _ => old(state).refresh_error,
        },
{
    proof {
        reveal_strlit("工具保存的授权快照已失效，请重新登录授权。");
    }
    let plan_launch = state.plan.launch_codex;
    let plan_sync = state.plan.sync_opencode;
    let plan_restart_opencode = state.plan.restart_opencode_desktop;
    let plan_editors = state.plan.restart_editors;
    let (stage, action) = match event {
        SwitchEvent::LatestAuth { changed, needs_refresh } => {
            state.auth_changed = changed;
            if !needs_refresh {
                (SwitchStage::AwaitProfile, SwitchAction::ApplyProfile { auth_changed: changed })
            } else if state.refresh_blocked {
                let detail = match &state.refresh_blocked_error {
                    Some(m) => m.clone(),
                    None => "工具保存的授权快照已失效，请重新登录授权。".to_string(),
                };
                (SwitchStage::Finished, SwitchAction::Fail(prefixed("切换账号前刷新登录令牌失败: ", detail.as_str())))
            } else {
                (SwitchStage::AwaitRefresh, SwitchAction::RefreshTokens)
            }
        },
        SwitchEvent::Refreshed(Ok(())) => {
            state.auth_changed = true;
            (SwitchStage::AwaitProfile, SwitchAction::ApplyProfile { auth_changed: true })
        },
        SwitchEvent::Refreshed(Err(m)) => {
            state.refresh_error = Some(m);
            (SwitchStage::AwaitRecovery, SwitchAction::RecoverFromLatestSnapshot)
        },
        SwitchEvent::Recovered(true) => {
            state.auth_changed = true;
            (SwitchStage::AwaitProfile, SwitchAction::ApplyProfile { auth_changed: true })
        },
        SwitchEvent::Recovered(false) => {
            let raw = match &state.refresh_error {
                Some(m) => m.clone(),
                None => String::new(),
            };
            let detail = normalize_switch_refresh_error(raw.as_str());
            if refresh_failure_blocks_account(detail.as_str()) {
                (SwitchStage::AwaitBlockPersisted, SwitchAction::PersistRefreshBlocked(
                    "工具保存的授权快照已失效，请重新登录授权。".to_string(),
                ))
            } else {
                (SwitchStage::Finished, SwitchAction::Fail(prefixed("切换账号前刷新登录令牌失败: ", detail.as_str())))
            }
        },
        SwitchEvent::BlockPersisted => {
            let raw = match &state.refresh_error {
                Some(m) => m.clone(),
                None => String::new(),
            };
            let detail = normalize_switch_refresh_error(raw.as_str());
            (SwitchStage::Finished, SwitchAction::Fail(prefixed("切换账号前刷新登录令牌失败: ", detail.as_str())))
        },
        SwitchEvent::ProfileApplied => {
            if plan_launch {
                (SwitchStage::AwaitCodexStop, SwitchAction::StopCodex)
            } else {
                (SwitchStage::AwaitProviderSync, SwitchAction::SyncProvider)
            }
        },
        SwitchEvent::CodexStopped => (SwitchStage::AwaitProviderSync, SwitchAction::SyncProvider),
        SwitchEvent::ProviderSynced => {
            if plan_sync {
                if state.chatgpt {
                    (SwitchStage::AwaitOpencodeSync, SwitchAction::SyncOpencode)
                } else {
                    (SwitchStage::AwaitOpencodeNote, SwitchAction::NoteOpencodeError(
                        "当前条目为 API 中转站配置，无法同步为 opencode 的 OAuth 登录态。".to_string(),
                    ))
                }
            } else {
                next_after_opencode(plan_editors, plan_launch)
            }
        },
        SwitchEvent::OpencodeSynced(ok) => {
            if ok && plan_restart_opencode {
                (SwitchStage::AwaitOpencodeRestart, SwitchAction::RestartOpencode)
            } else {
                next_after_opencode(plan_editors, plan_launch)
            }
        },
        SwitchEvent::OpencodeNoted => next_after_opencode(plan_editors, plan_launch),
        SwitchEvent::OpencodeRestarted => next_after_opencode(plan_editors, plan_launch),
        SwitchEvent::EditorsRestarted => {
            if plan_launch {
                (SwitchStage::Finished, SwitchAction::LaunchCodex)
            } else {
                (SwitchStage::Finished, SwitchAction::Finish)
            }
        },
    };
    state.stage = stage;
    action
}

fn next_after_opencode(restart_editors: bool, launch_codex: bool) -> (r: (SwitchStage, SwitchAction))
    ensures
        (r.0, action_spec(r.1)) == after_opencode(SwitchPlan {
            launch_codex,
            sync_opencode: false,
            restart_opencode_desktop: false,
            restart_editors,
        }),
{
    if restart_editors {
        (SwitchStage::AwaitEditorRestart, SwitchAction::RestartEditors)
    } else if launch_codex {
        (SwitchStage::Finished, SwitchAction::LaunchCodex)
    } else {
        (SwitchStage::Finished, SwitchAction::Finish)
    }
}

/// The error of a switch when even the `codex app` command could not start
/// Codex, after the desktop app failed with `app_launch_error` (or was not
/// found).
pub fn codex_cli_launch_failure(app_launch_error: Option<&str>, error: &str) -> (r: String)
    ensures
        r@ == match app_launch_error {
            Some(a) => "通过 Codex 应用路径启动失败: "@ + a@ + "；且通过 codex app 启动失败: "@ + error@,
            None => "未检测到本地 Codex 应用，且通过 codex app 启动失败: "@ + error@,
        },
{
    match app_launch_error {
        Some(a) => {
            let mut m = prefixed("通过 Codex 应用路径启动失败: ", a);
            m.append("；且通过 codex app 启动失败: ");
            m.append(error);
            m
        },
        None => prefixed("未检测到本地 Codex 应用，且通过 codex app 启动失败: ", error),
    }
}

/// The note kept when syncing the provider metadata after a switch failed.
pub fn provider_sync_failure_note(error: &str) -> (r: String)
    ensures
        r@ == "同步 Codex 历史 provider 元数据失败: "@ + error@,
{
    prefixed("同步 Codex 历史 provider 元数据失败: ", error)
}

/// The page the OAuth listener answers with: `title` as its title and
/// heading and `detail` as its text, both escaped.
pub open spec fn oauth_html_body(title: Seq<char>, detail: Seq<char>) -> Seq<char> {
    "<!doctype html><html lang=\"zh-CN\"><head><meta charset=\"utf-8\"><meta name=\"viewport\" content=\"width=device-width, initial-scale=1\"><title>"@ + html_escaped(title) + "</title><style>body{margin:0;padding:32px;font-family:-apple-system,BlinkMacSystemFont,'Segoe UI',sans-serif;background:#f4f7fb;color:#152033}main{max-width:560px;margin:0 auto;padding:24px;border-radius:20px;background:#fff;box-shadow:0 14px 34px rgba(21,32,51,.08)}h1{margin:0 0 10px;font-size:24px;line-height:1.2}p{margin:0;color:#52627b;line-height:1.6;word-break:break-word}</style></head><body><main><h1>"@ + html_escaped(title) + "</h1><p>"@ + html_escaped(detail)
        + "</p></main></body></html>"@
}

/// The HTTP response carrying `body`, with its length in bytes.
pub open spec fn oauth_http_response(status_line: Seq<char>, body: Seq<char>) -> Seq<char> {
    "HTTP/1.1 "@ + status_line
        + "\r\nContent-Type: text/html; charset=utf-8\r\nCache-Control: no-store\r\nContent-Length: "@
        + crate::text::decimal(vstd::utf8::encode_utf8(body).len()) + "\r\nConnection: close\r\n\r\n"@
        + body
}

/// The full HTTP response of an OAuth listener page.
pub fn oauth_html_response(status_line: &str, title: &str, detail: &str) -> (r: String)
    ensures
        r@ == oauth_http_response(status_line@, oauth_html_body(title@, detail@)),
{
    let escaped_title = escape_html(title);
    let escaped_detail = escape_html(detail);
    let mut body = "<!doctype html><html lang=\"zh-CN\"><head><meta charset=\"utf-8\"><meta name=\"viewport\" content=\"width=device-width, initial-scale=1\"><title>".to_string();
    body.append(escaped_title.as_str());
    body.append("</title><style>body{margin:0;padding:32px;font-family:-apple-system,BlinkMacSystemFont,'Segoe UI',sans-serif;background:#f4f7fb;color:#152033}main{max-width:560px;margin:0 auto;padding:24px;border-radius:20px;background:#fff;box-shadow:0 14px 34px rgba(21,32,51,.08)}h1{margin:0 0 10px;font-size:24px;line-height:1.2}p{margin:0;color:#52627b;line-height:1.6;word-break:break-word}</style></head><body><main><h1>");
    body.append(escaped_title.as_str());
    body.append("</h1><p>");
    body.append(escaped_detail.as_str());
    body.append("</p></main></body></html>");
    let length = body.as_str().as_bytes().len();
    let mut response = "HTTP/1.1 ".to_string();
    response.append(status_line);
    response.append("\r\nContent-Type: text/html; charset=utf-8\r\nCache-Control: no-store\r\nContent-Length: ");
    response.append(crate::text::decimal_string(length as u64).as_str());
    response.append("\r\nConnection: close\r\n\r\n");
    response.append(body.as_str());
    response
}

/// `a` and `b` are equal when ASCII case is ignored.
pub open spec fn same_ignoring_ascii_case(a: Seq<char>, b: Seq<char>) -> bool {
    ascii_lower(a) == ascii_lower(b)
}

/// An executable is the main executable of a Codex app bundle: it lies in
/// `<bundle>/Contents/MacOS/` (directory names compared ignoring ASCII
/// case), the bundle is a Codex app, and its file name is the bundle's name
/// without extension (ASCII case ignored). Each name is `None` where the
/// path has no such component.
pub open spec fn is_main_bundle_executable(
    executable_name: Option<Seq<char>>,
    macos_dir_name: Option<Seq<char>>,
    contents_dir_name: Option<Seq<char>>,
    bundle_is_codex_app: bool,
    bundle_stem: Option<Seq<char>>,
) -> bool {
    &&& macos_dir_name matches Some(m) && same_ignoring_ascii_case(m, "MacOS"@)
    &&& contents_dir_name matches Some(c) && same_ignoring_ascii_case(c, "Contents"@)
    &&& bundle_is_codex_app
    &&& bundle_stem matches Some(b) && executable_name matches Some(e) && same_ignoring_ascii_case(e, b)
}

fn same_ignoring_ascii_case_exec(a: &str, b: &str) -> (r: bool)
    ensures
        r == same_ignoring_ascii_case(a@, b@),
{
    let la = ascii_lowercase(chars_of(a).as_slice());
    let lb = ascii_lowercase(chars_of(b).as_slice());
    crate::text::chars_eq(la.as_slice(), lb.as_slice())
}

/// Whether an executable, given the names of its path's components, is the
/// main executable of a Codex app bundle (see `is_main_bundle_executable`).
pub fn macos_codex_main_app_bundle_for_executable(
    executable_name: Option<&str>,
    macos_dir_name: Option<&str>,
    contents_dir_name: Option<&str>,
    bundle_is_codex_app: bool,
    bundle_stem: Option<&str>,
) -> (r: bool)
    ensures
        r == is_main_bundle_executable(
            crate::models::opt_view(executable_name),
            crate::models::opt_view(macos_dir_name),
            crate::models::opt_view(contents_dir_name),
            bundle_is_codex_app,
            crate::models::opt_view(bundle_stem),
        ),
{
    let macos_ok = match macos_dir_name {
        Some(m) => same_ignoring_ascii_case_exec(m, "MacOS"),
        None => false,
    };
    let contents_ok = match contents_dir_name {
        Some(c) => same_ignoring_ascii_case_exec(c, "Contents"),
        None => false,
    };
    let name_ok = match (bundle_stem, executable_name) {
        (Some(b), Some(e)) => same_ignoring_ascii_case_exec(e, b),
        _ => false,
    };
    macos_ok && contents_ok && bundle_is_codex_app && name_ok
}

/// Message while another account authorisation is under way.
pub open spec fn pending_auth_message() -> Seq<char> {
    "已有账号授权流程正在进行，请先完成或取消后再操作。"@
}

/// The first of the first `n` account ids equal to `id`.
pub open spec fn first_id_index(ids: Seq<String>, id: Seq<char>, n: int) -> Option<int>
    decreases n,
{
    if n <= 0 {
        None
    } else {
        match first_id_index(ids, id, n - 1) {
            Some(i) => Some(i),
            None => if ids[n - 1]@ == id {
                Some(n - 1)
            } else {
                None
            },
        }
    }
}

/// What a switch checks before anything else: no authorisation may be
/// pending, and the account must exist (the first with that id is taken).
pub open spec fn switch_preflight(pending_login: bool, ids: Seq<String>, id: Seq<char>) -> Result<int, Seq<char>> {
    if pending_login {
        Err(pending_auth_message())
    } else {
        match first_id_index(ids, id, ids.len() as int) {
            Some(i) => Ok(i),
            None => Err("找不到要切换的账号"@),
        }
    }
}

/// Checks that a switch to account `id` may start and finds that account
/// among `account_ids` (see `switch_preflight`).
pub fn check_switch_preflight(pending_login: bool, account_ids: &Vec<String>, id: &str) -> (r: Result<usize, String>)
    ensures
        match (r, switch_preflight(pending_login, account_ids@, id@)) {
            (Ok(a), Ok(b)) => a as int == b,
            (Err(a), Err(b)) => a@ == b,
            _ => false,
        },
{
    if pending_login {
        return Err("已有账号授权流程正在进行，请先完成或取消后再操作。".to_string());
    }
    let mut i: usize = 0;
    while i < account_ids.len()
        invariant
            i <= account_ids@.len(),
            !pending_login,
            first_id_index(account_ids@, id@, i as int) is None,
        decreases account_ids@.len() - i,
    {
        if str_eq(account_ids[i].as_str(), id) {
            proof {
                assert(account_ids@[i as int]@ == id@);
                assert(first_id_index(account_ids@, id@, i + 1) == Some(i as int));
                lemma_first_id_index_stays(account_ids@, id@, i + 1, account_ids@.len() as int);
            }
            return Ok(i);
        }
        i = i + 1;
    }
    Err("找不到要切换的账号".to_string())
}

proof fn lemma_first_id_index_stays(ids: Seq<String>, id: Seq<char>, a: int, b: int)
    requires
        0 < a <= b,
        first_id_index(ids, id, a) is Some,
    ensures
        first_id_index(ids, id, b) == first_id_index(ids, id, a),
    decreases b - a,
{
    if a < b {
        lemma_first_id_index_stays(ids, id, a, b - 1);
    }
}

/// Whether the pending login (its OAuth state, `None` when there is none)
/// is the one with state `expected_state`: only that one is cleared or
/// completed.
pub fn pending_login_matches(current_state: Option<&str>, expected_state: &str) -> (r: bool)
    ensures
        r == (crate::models::opt_view(current_state) == Some(expected_state@)),
{
    match current_state {
        Some(s) => str_eq(s, expected_state),
        None => false,
    }
}

/// Message for a callback whose login is no longer the pending one.
pub open spec fn stale_oauth_session_message() -> Seq<char> {
    "当前授权会话已失效，请回到应用重新打开授权页面。"@
}

/// A callback may complete its login only while that login is still the
/// pending one.
pub fn oauth_callback_session_check(current_state: Option<&str>, pending_state: &str) -> (r: Result<(), String>)
    ensures
        r is Ok <==> crate::models::opt_view(current_state) == Some(pending_state@),
        r matches Err(e) ==> e@ == stale_oauth_session_message(),
{
    if pending_login_matches(current_state, pending_state) {
        Ok(())
    } else {
        Err("当前授权会话已失效，请回到应用重新打开授权页面。".to_string())
    }
}

/// A switch is skipped only for the last selected account, and only when the
/// current Codex login is that account: when the login's plan variant is
/// known, it must be the account's variant (a different variant of the same
/// account group must really be switched to); only when the variant is
/// unknown does a matching account group suffice.
pub proof fn law_noop_switch_needs_the_same_login(
    active_account_id: Option<Seq<char>>,
    account_id: Seq<char>,
    account_key: Seq<char>,
    variant_key: Seq<char>,
    current_account_key: Option<Seq<char>>,
    current_variant_key: Option<Seq<char>>,
)
    ensures
        active_account_id != Some(account_id) ==> !noop_switch(
            active_account_id,
            account_id,
            account_key,
            variant_key,
            current_account_key,
            current_variant_key,
        ),
        current_variant_key matches Some(v) && v != variant_key ==> !noop_switch(
            active_account_id,
            account_id,
            account_key,
            variant_key,
            current_account_key,
            current_variant_key,
        ),
        active_account_id == Some(account_id) && current_variant_key == Some(variant_key) ==> noop_switch(
            active_account_id,
            account_id,
            account_key,
            variant_key,
            current_account_key,
            current_variant_key,
        ),
        active_account_id == Some(account_id) && current_variant_key is None ==> (noop_switch(
            active_account_id,
            account_id,
            account_key,
            variant_key,
            current_account_key,
            current_variant_key,
        ) <==> current_account_key == Some(account_key)),
{
}

} // verus!
