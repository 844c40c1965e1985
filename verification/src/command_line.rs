//! Recognising a command-line invocation, and the formatting (account
//! tables, provider status and sync reports) and error-normalising rules of
//! the CLI.
use vstd::prelude::*;

use crate::desktop::{digits_value, is_digit};
use crate::provider_sync::{opt_text, ProviderStatus, ProviderSyncResult};
use crate::order::{insert_ascending_unique, lemma_ascending_unique, strictly_ascending, texts};
use crate::text_map::TextMap;
use crate::text::{
    ascii_lower, ascii_lowercase, chars_of, contains_chars, contains_seq, contains_str, decimal,
    bool_string, bool_text, decimal_string, has_prefix, join_strings, join_with, str_eq,
    string_from, trim, trim_chars,
};

verus! {

/// The subcommands the CLI knows.
pub open spec fn is_cli_command_word(w: Seq<char>) -> bool {
    ||| w == "list"@ || w == "switch"@ || w == "login"@ || w == "import"@ || w == "export"@
    ||| w == "usage"@ || w == "provider"@ || w == "doctor"@ || w == "report"@ || w == "tui"@
}

/// The first argument after the program name selects the CLI: `cli`, a help or
/// version flag, or a subcommand.
pub open spec fn is_cli_first_arg(w: Seq<char>) -> bool {
    ||| w == "cli"@ || w == "--help"@ || w == "-h"@ || w == "--version"@ || w == "-V"@
    ||| is_cli_command_word(w)
}

pub open spec fn is_cli_args(args: Seq<String>) -> bool {
    args.len() > 1 && is_cli_first_arg(args[1]@)
}

/// The arguments handed to the CLI parser: a leading `cli` word is dropped.
pub open spec fn normalized_cli_args(args: Seq<String>) -> Seq<String> {
    if args.len() > 1 && args[1]@ == "cli"@ {
        args.remove(1)
    } else {
        args
    }
}

fn is_cli_first_arg_exec(first: &str) -> (r: bool)
    ensures
        r == is_cli_first_arg(first@),
{
    str_eq(first, "cli") || str_eq(first, "--help") || str_eq(first, "-h") || str_eq(
        first,
        "--version",
    ) || str_eq(first, "-V") || str_eq(first, "list") || str_eq(first, "switch") || str_eq(
        first,
        "login",
    ) || str_eq(first, "import") || str_eq(first, "export") || str_eq(first, "usage") || str_eq(
        first,
        "provider",
    ) || str_eq(first, "doctor") || str_eq(first, "report") || str_eq(first, "tui")
}

/// Whether the process was started as the CLI rather than the desktop app.
pub fn is_cli_invocation(args: &[String]) -> (r: bool)
    ensures
        r == is_cli_args(args@),
{
    if args.len() < 2 {
        return false;
    }
    is_cli_first_arg_exec(args[1].as_str())
}

/// Drops a leading `cli` word so that `codextool cli list` parses like `codextool list`.
pub fn normalize_cli_args(args: Vec<String>) -> (r: Vec<String>)
    ensures
        r@ == normalized_cli_args(args@),
{
    let mut args = args;
    if args.len() > 1 && str_eq(args[1].as_str(), "cli") {
        args.remove(1);
    }
    args
}

/// Decides what the process does with its arguments: `None` when it is not a
/// CLI invocation (the desktop app starts), otherwise the arguments to run the
/// CLI with.
pub fn try_run_cli_from_env(args: Vec<String>) -> (r: Option<Vec<String>>)
    ensures
        is_cli_args(args@) <==> r is Some,
        r matches Some(v) ==> v@ == normalized_cli_args(args@),
{
    if !is_cli_invocation(args.as_slice()) {
        return None;
    }
    Some(normalize_cli_args(args))
}

/// The arguments to run the CLI with when the CLI is requested unconditionally.
pub fn run_cli_from_env(args: Vec<String>) -> (r: Vec<String>)
    ensures
        r@ == normalized_cli_args(args@),
{
    normalize_cli_args(args)
}

/// A table cell: the value when it has at most `max_chars` characters,
/// otherwise its first `max_chars - 1` characters and an ellipsis.
pub open spec fn truncated_cell(value: Seq<char>, max_chars: nat) -> Seq<char> {
    if value.len() <= max_chars {
        value
    } else {
        value.subrange(0, if max_chars >= 1 { max_chars - 1 } else { 0 }).push('…')
    }
}

/// Cuts a table cell to `max_chars` characters.
pub fn truncate_cell(value: &str, max_chars: usize) -> (r: String)
    ensures
        r@ == truncated_cell(value@, max_chars as nat),
{
    let v = chars_of(value);
    if v.len() <= max_chars {
        return string_from(v.as_slice());
    }
    let keep = max_chars.saturating_sub(1);
    let mut out = crate::text::slice_to_vec(v.as_slice(), 0, keep);
    out.push('…');
    string_from(out.as_slice())
}

pub open spec fn cli_auth_expired(lower: Seq<char>) -> bool {
    ||| (contains_seq(lower, "invalid_grant"@) && (contains_seq(lower, "refresh"@)
        || contains_seq(lower, "expired"@) || contains_seq(lower, "revoked"@) || contains_seq(
        lower,
        "invalid"@,
    )))
    ||| contains_seq(lower, "refresh_token_reused"@)
    ||| contains_seq(lower, "provided authentication token is expired"@)
    ||| contains_seq(
        lower,
        "your refresh token has already been used to generate a new access token"@,
    )
    ||| contains_seq(lower, "refresh token expired"@)
    ||| contains_seq(lower, "refresh_token expired"@)
    ||| contains_seq(lower, "expired refresh token"@)
    ||| contains_seq(lower, "refresh token is expired"@)
    ||| contains_seq(lower, "refresh token revoked"@)
    ||| contains_seq(lower, "refresh_token_revoked"@)
    ||| contains_seq(lower, "invalid refresh token"@)
    ||| contains_seq(lower, "please try signing in again"@)
    ||| contains_seq(lower, "token is expired"@)
    ||| contains_seq(lower, "auth.json 缺少 refresh_token"@)
}

/// Whether a usage or refresh error means the saved authorisation can no
/// longer be refreshed (matched case-insensitively in ASCII).
pub fn is_cli_auth_expired_error(raw_error: &str) -> (r: bool)
    ensures
        r == cli_auth_expired(ascii_lower(raw_error@)),
{
    let raw = chars_of(raw_error);
    let n = ascii_lowercase(raw.as_slice());
    let s = n.as_slice();
    (contains_str(s, "invalid_grant") && (contains_str(s, "refresh") || contains_str(s, "expired")
        || contains_str(s, "revoked") || contains_str(s, "invalid"))) || contains_str(
        s,
        "refresh_token_reused",
    ) || contains_str(s, "provided authentication token is expired") || contains_str(
        s,
        "your refresh token has already been used to generate a new access token",
    ) || contains_str(s, "refresh token expired") || contains_str(s, "refresh_token expired")
        || contains_str(s, "expired refresh token") || contains_str(s, "refresh token is expired")
        || contains_str(s, "refresh token revoked") || contains_str(s, "refresh_token_revoked")
        || contains_str(s, "invalid refresh token") || contains_str(
        s,
        "please try signing in again",
    ) || contains_str(s, "token is expired") || contains_str(s, "auth.json 缺少 refresh_token")
}

/// The message shown for a usage error: deactivated workspaces and accounts
/// and expired authorisations get a fixed explanation, anything else is kept.
pub open spec fn cli_usage_error_message(raw: Seq<char>) -> Seq<char> {
    let lower = ascii_lower(raw);
    if contains_seq(lower, "deactivated_workspace"@) {
        "该账号已被踢出 team 组织，请重新授权后再刷新。"@
    } else if contains_seq(lower, "your openai account has been deactivated"@) || contains_seq(
        lower,
        "account has been deactivated"@,
    ) || contains_seq(lower, "account deactivated"@) || contains_seq(lower, "deactivated_user"@) {
        "账号被封禁，请检查邮箱"@
    } else if cli_auth_expired(lower) {
        "工具保存的授权快照已失效，请重新登录授权。"@
    } else {
        raw
    }
}

/// Turns a raw usage or refresh error into the message the CLI prints.
pub fn normalize_cli_usage_error(raw_error: &str) -> (r: String)
    ensures
        r@ == cli_usage_error_message(raw_error@),
{
    let raw = chars_of(raw_error);
    let n = ascii_lowercase(raw.as_slice());
    let s = n.as_slice();
    if contains_str(s, "deactivated_workspace") {
        return "该账号已被踢出 team 组织，请重新授权后再刷新。".to_string();
    }
    if contains_str(s, "your openai account has been deactivated") || contains_str(
        s,
        "account has been deactivated",
    ) || contains_str(s, "account deactivated") || contains_str(s, "deactivated_user") {
        return "账号被封禁，请检查邮箱".to_string();
    }
    if is_cli_auth_expired_error(raw_error) {
        return "工具保存的授权快照已失效，请重新登录授权。".to_string();
    }
    raw_error.to_string()
}

/// What the account selection reads of a stored account.
#[derive(Debug)]
pub struct AccountRef {
    pub id: String,
    pub account_id: String,
    pub account_key: String,
    pub label: String,
    pub email: Option<String>,
}

/// What is listed of an ambiguous match: the account's id and label.
#[derive(Debug)]
pub struct CandidateSummary {
    pub id: String,
    pub label: String,
}

/// `a` and `b` are equal when ASCII case is ignored.
pub open spec fn eq_ignore_case(a: Seq<char>, b: Seq<char>) -> bool {
    ascii_lower(a) == ascii_lower(b)
}

/// The reference names the account exactly: its id, account id or group
/// key, or (ASCII case ignored) its label or e-mail.
pub open spec fn exact_match(a: AccountRef, r: Seq<char>) -> bool {
    ||| a.id@ == r
    ||| a.account_id@ == r
    ||| a.account_key@ == r
    ||| eq_ignore_case(a.label@, r)
    ||| (a.email matches Some(e) && eq_ignore_case(e@, r))
}

/// The reference starts the account's id, account id or group key, or
/// occurs in its label or e-mail (ASCII case ignored throughout).
pub open spec fn partial_match(a: AccountRef, r: Seq<char>) -> bool {
    let q = ascii_lower(r);
    ||| has_prefix(ascii_lower(a.id@), q)
    ||| has_prefix(ascii_lower(a.account_id@), q)
    ||| has_prefix(ascii_lower(a.account_key@), q)
    ||| contains_seq(ascii_lower(a.label@), q)
    ||| (a.email matches Some(e) && contains_seq(ascii_lower(e@), q))
}

/// The reference matches the account, exactly or partly.
pub open spec fn ref_matches(a: AccountRef, r: Seq<char>, exact: bool) -> bool {
    if exact {
        exact_match(a, r)
    } else {
        partial_match(a, r)
    }
}

/// Indices below `n` of the accounts the reference matches.
pub open spec fn matching_indices(accounts: Seq<AccountRef>, r: Seq<char>, exact: bool, n: int) -> Seq<usize>
    decreases n,
{
    if n <= 0 {
        seq![]
    } else {
        let before = matching_indices(accounts, r, exact, n - 1);
        if ref_matches(accounts[n - 1], r, exact) {
            before.push((n - 1) as usize)
        } else {
            before
        }
    }
}

/// The number `usize::from_str` reads from `t`: digits with an optional
/// leading `+`.
pub open spec fn display_number(t: Seq<char>) -> Option<int> {
    digits_number(
        if t.len() > 0 && t[0] == '+' {
            t.drop_first()
        } else {
            t
        },
    )
}

/// The value of a non-empty run of decimal digits that fits in a `usize`.
pub open spec fn digits_number(digits: Seq<char>) -> Option<int> {
    if digits.len() > 0 && (forall|i: int| 0 <= i < digits.len() ==> is_digit(#[trigger] digits[i]))
        && 0 <= digits_value(digits) <= usize::MAX {
        Some(digits_value(digits))
    } else {
        None
    }
}

/// How an ambiguous match is listed: `number:id:label` for each candidate
/// that has a summary, joined with `, `.
pub open spec fn candidate_list(summaries: Seq<CandidateSummary>, indices: Seq<usize>) -> Seq<char>
    decreases indices.len(),
{
    if indices.len() == 0 {
        seq![]
    } else {
        let before = candidate_list(summaries, indices.drop_last());
        let i = indices.last() as int;
        if i < summaries.len() {
            let item = decimal((i + 1) as nat) + ":"@ + summaries[i].id@ + ":"@ + summaries[i].label@;
            if before.len() == 0 && !has_candidate(summaries, indices.drop_last()) {
                item
            } else {
                before + ", "@ + item
            }
        } else {
            before
        }
    }
}

/// One of `indices` has a summary.
pub open spec fn has_candidate(summaries: Seq<CandidateSummary>, indices: Seq<usize>) -> bool {
    exists|k: int| 0 <= k < indices.len() && (#[trigger] indices[k]) < summaries.len()
}

/// The accounts an optional reference selects: all of them without one
/// (which an empty store refuses unless `allow_all`); the account with that
/// 1-based number; the only exact match; else the only partial match.
pub open spec fn selected_accounts(
    accounts: Seq<AccountRef>,
    summaries: Seq<CandidateSummary>,
    account_ref: Option<Seq<char>>,
    allow_all: bool,
) -> Result<Seq<usize>, Seq<char>> {
    let n = accounts.len() as int;
    let t = match account_ref {
        Some(r) => trim(r),
        None => seq![],
    };
    if t.len() == 0 {
        if allow_all || n > 0 {
            Ok(Seq::new(n as nat, |i: int| i as usize))
        } else {
            Err("账号列表为空"@)
        }
    } else if display_number(t) is Some && 1 <= display_number(t).unwrap() <= n {
        Ok(seq![(display_number(t).unwrap() - 1) as usize])
    } else {
        let exact = matching_indices(accounts, t, true, n);
        if exact.len() == 1 {
            Ok(exact)
        } else if exact.len() > 1 {
            Err("账号匹配不唯一: "@ + candidate_list(summaries, exact))
        } else {
            let partial = matching_indices(accounts, t, false, n);
            if partial.len() == 1 {
                Ok(partial)
            } else if partial.len() == 0 {
                Err("找不到账号: "@ + t)
            } else {
                Err("账号匹配不唯一: "@ + candidate_list(summaries, partial))
            }
        }
    }
}

fn eq_ignore_case_exec(a: &str, b: &str) -> (r: bool)
    ensures
        r == eq_ignore_case(a@, b@),
{
    let la = ascii_lowercase(chars_of(a).as_slice());
    let lb = ascii_lowercase(chars_of(b).as_slice());
    crate::text::chars_eq(la.as_slice(), lb.as_slice())
}

/// Whether `raw_ref` names the account exactly.
pub fn account_exact_match(account: &AccountRef, raw_ref: &str) -> (r: bool)
    ensures
        r == exact_match(*account, raw_ref@),
{
    str_eq(account.id.as_str(), raw_ref) || str_eq(account.account_id.as_str(), raw_ref) || str_eq(
        account.account_key.as_str(),
        raw_ref,
    ) || eq_ignore_case_exec(account.label.as_str(), raw_ref) || match &account.email {
        Some(e) => eq_ignore_case_exec(e.as_str(), raw_ref),
        None => false,
    }
}

/// Whether `raw_ref` partly matches the account.
pub fn account_partial_match(account: &AccountRef, raw_ref: &str) -> (r: bool)
    ensures
        r == partial_match(*account, raw_ref@),
{
    let q = ascii_lowercase(chars_of(raw_ref).as_slice());
    let id = ascii_lowercase(chars_of(account.id.as_str()).as_slice());
    let account_id = ascii_lowercase(chars_of(account.account_id.as_str()).as_slice());
    let key = ascii_lowercase(chars_of(account.account_key.as_str()).as_slice());
    let label = ascii_lowercase(chars_of(account.label.as_str()).as_slice());
    crate::text::occurs_at_exec(id.as_slice(), q.as_slice(), 0) || crate::text::occurs_at_exec(
        account_id.as_slice(),
        q.as_slice(),
        0,
    ) || crate::text::occurs_at_exec(key.as_slice(), q.as_slice(), 0) || contains_chars(
        label.as_slice(),
        q.as_slice(),
    ) || match &account.email {
        Some(e) => {
            let le = ascii_lowercase(chars_of(e.as_str()).as_slice());
            contains_chars(le.as_slice(), q.as_slice())
        },
        None => false,
    }
}

fn matching_indices_exec(accounts: &Vec<AccountRef>, r: &str, exact: bool) -> (m: Vec<usize>)
    ensures
        m@ == matching_indices(accounts@, r@, exact, accounts@.len() as int),
{
    let mut out: Vec<usize> = Vec::new();
    let mut i: usize = 0;
    while i < accounts.len()
        invariant
            i <= accounts@.len(),
            out@ == matching_indices(accounts@, r@, exact, i as int),
        decreases accounts@.len() - i,
    {
        let hit = if exact {
            account_exact_match(&accounts[i], r)
        } else {
            account_partial_match(&accounts[i], r)
        };
        if hit {
            out.push(i);
        }
        i = i + 1;
    }
    out
}

/// Reads a 1-based account number the way `usize::from_str` does.
fn parse_display_number(t: &[char]) -> (r: Option<usize>)
    ensures
        match display_number(t@) {
            Some(d) => r == Some(d as usize),
            None => r is None,
        },
{
    let start: usize = if t.len() > 0 && t[0] == '+' {
        1
    } else {
        0
    };
    let digits = crate::text::slice_to_vec(t, start, t.len());
    assert(digits@ =~= (if t@.len() > 0 && t@[0] == '+' {
        t@.drop_first()
    } else {
        t@
    }));
    assert(display_number(t@) == digits_number(digits@));
    if digits.len() == 0 {
        return None;
    }
    let mut value: usize = 0;
    let mut i: usize = 0;
    while i < digits.len()
        invariant
            i <= digits@.len(),
            digits@.len() > 0,
            display_number(t@) == digits_number(digits@),
            forall|j: int| 0 <= j < i ==> is_digit(#[trigger] digits@[j]),
            value == digits_value(digits@.subrange(0, i as int)),
        decreases digits@.len() - i,
    {
        assert(digits@.subrange(0, i + 1).drop_last() =~= digits@.subrange(0, i as int));
        let c = digits[i];
        if !('0' <= c && c <= '9') {
            assert(!is_digit(digits@[i as int]));
            return None;
        }
        let d = (c as u32 - '0' as u32) as usize;
        if value > (usize::MAX - d) / 10 {
            proof {
                lemma_digits_prefix_bound(digits@, i + 1);
                assert(digits_value(digits@.subrange(0, i + 1)) > usize::MAX);
            }
            return None;
        }
        value = value * 10 + d;
        i = i + 1;
    }
    assert(digits@.subrange(0, i as int) =~= digits@);
    proof {
        lemma_digits_nonneg(digits@);
    }
    Some(value)
}

proof fn lemma_digits_prefix_bound(s: Seq<char>, k: int)
    requires
        0 <= k <= s.len(),
        forall|i: int| 0 <= i < k ==> is_digit(#[trigger] s[i]),
    ensures
        (forall|i: int| 0 <= i < s.len() ==> is_digit(#[trigger] s[i])) ==> digits_value(s.subrange(0, k)) <= digits_value(s),
    decreases s.len() - k,
{
    if k < s.len() {
        if forall|i: int| 0 <= i < s.len() ==> is_digit(#[trigger] s[i]) {
            lemma_digits_prefix_bound(s, k + 1);
            assert(s.subrange(0, k + 1).drop_last() =~= s.subrange(0, k));
            lemma_digits_nonneg(s.subrange(0, k));
        }
    } else {
        assert(s.subrange(0, k) =~= s);
    }
}

proof fn lemma_digits_nonneg(s: Seq<char>)
    requires
        forall|i: int| 0 <= i < s.len() ==> is_digit(#[trigger] s[i]),
    ensures
        digits_value(s) >= 0,
    decreases s.len(),
{
    if s.len() > 0 {
        lemma_digits_nonneg(s.drop_last());
    }
}

/// Lists ambiguous candidates for an error message.
pub fn format_candidate_summaries(summaries: &Vec<CandidateSummary>, indices: &Vec<usize>) -> (r: String)
    ensures
        r@ == candidate_list(summaries@, indices@),
{
    let mut out = String::new();
    let mut any = false;
    let mut k: usize = 0;
    while k < indices.len()
        invariant
            k <= indices@.len(),
            out@ == candidate_list(summaries@, indices@.take(k as int)),
            any == has_candidate(summaries@, indices@.take(k as int)),
            !any ==> out@.len() == 0,
        decreases indices@.len() - k,
    {
        let ghost prefix = indices@.take(k as int);
        let ghost next = indices@.take(k + 1);
        assert(next.drop_last() =~= prefix);
        let i = indices[k];
        if i < summaries.len() {
            if any {
                out.append(", ");
            }
            assert(i < usize::MAX);
            let number = decimal_string((i + 1) as u64);
            out.append(number.as_str());
            out.append(":");
            out.append(summaries[i].id.as_str());
            out.append(":");
            out.append(summaries[i].label.as_str());
            any = true;
            proof {
                assert(next[k as int] == i);
                assert(has_candidate(summaries@, next));
            }
        } else {
            proof {
                if has_candidate(summaries@, next) {
                    let q = choose|q: int| 0 <= q < next.len() && (#[trigger] next[q]) < summaries@.len();
                    assert(prefix[q] == next[q]);
                }
            }
        }
        k = k + 1;
    }
    assert(indices@.take(k as int) =~= indices@);
    out
}

pub open spec fn opt_seq(v: Option<&str>) -> Option<Seq<char>> {
    match v {
        Some(x) => Some(x@),
        None => None,
    }
}

/// Resolves an optional account reference to account positions.
pub fn resolve_account_indices(
    accounts: &Vec<AccountRef>,
    summaries: &Vec<CandidateSummary>,
    account_ref: Option<&str>,
    allow_all: bool,
) -> (r: Result<Vec<usize>, String>)
    ensures
        match (r, selected_accounts(accounts@, summaries@, opt_seq(account_ref), allow_all)) {
            (Ok(a), Ok(b)) => a@ == b,
            (Err(a), Err(b)) => a@ == b,
            _ => false,
        },
{
    let t: Vec<char> = match account_ref {
        Some(r) => trim_chars(r),
        None => Vec::new(),
    };
    let n = accounts.len();
    if t.len() == 0 {
        if allow_all || n > 0 {
            let mut all: Vec<usize> = Vec::new();
            let mut i: usize = 0;
            while i < n
                invariant
                    i <= n,
                    all@ == Seq::new(i as nat, |k: int| k as usize),
                decreases n - i,
            {
                all.push(i);
                i = i + 1;
                assert(all@ =~= Seq::new(i as nat, |k: int| k as usize));
            }
            return Ok(all);
        }
        return Err("账号列表为空".to_string());
    }
    match parse_display_number(t.as_slice()) {
        Some(d) => {
            if d > 0 && d <= n {
                let mut one: Vec<usize> = Vec::new();
                one.push(d - 1);
                assert(one@ =~= seq![(display_number(t@).unwrap() - 1) as usize]);
                return Ok(one);
            }
        },
        None => {},
    }
    let text = string_from(t.as_slice());
    let exact = matching_indices_exec(accounts, text.as_str(), true);
    if exact.len() == 1 {
        return Ok(exact);
    }
    if exact.len() > 1 {
        let mut m = "账号匹配不唯一: ".to_string();
        m.append(format_candidate_summaries(summaries, &exact).as_str());
        return Err(m);
    }
    let partial = matching_indices_exec(accounts, text.as_str(), false);
    if partial.len() == 1 {
        return Ok(partial);
    }
    if partial.len() == 0 {
        let mut m = "找不到账号: ".to_string();
        m.append(text.as_str());
        return Err(m);
    }
    let mut m = "账号匹配不唯一: ".to_string();
    m.append(format_candidate_summaries(summaries, &partial).as_str());
    Err(m)
}

/// What ranks an account for `--best`: a blocked refresh, a usage error,
/// then the one-week and five-hour usage in thousandths of a percent
/// (`i64::MAX` when unknown), then the most recent update.
#[derive(Debug, Clone, Copy)]
pub struct AccountRank {
    pub blocked: bool,
    pub has_error: bool,
    pub one_week_millis: i64,
    pub five_hour_millis: i64,
    pub updated_at: i64,
}

/// `a` ranks before `b`: compared as the tuple (blocked, has error,
/// one-week usage, five-hour usage, minus the update time).
pub open spec fn rank_lt(a: AccountRank, b: AccountRank) -> bool {
    let ab: int = if a.blocked { 1 } else { 0 };
    let bb: int = if b.blocked { 1 } else { 0 };
    let ae: int = if a.has_error { 1 } else { 0 };
    let be: int = if b.has_error { 1 } else { 0 };
    ||| ab < bb
    ||| (ab == bb && ae < be)
    ||| (ab == bb && ae == be && a.one_week_millis < b.one_week_millis)
    ||| (ab == bb && ae == be && a.one_week_millis == b.one_week_millis && a.five_hour_millis < b.five_hour_millis)
    ||| (ab == bb && ae == be && a.one_week_millis == b.one_week_millis && a.five_hour_millis == b.five_hour_millis
        && -a.updated_at < -b.updated_at)
}

/// The first account of least rank among the first `n`.
pub open spec fn best_rank_index(ranks: Seq<AccountRank>, n: int) -> Option<int>
    decreases n,
{
    if n <= 0 {
        None
    } else {
        match best_rank_index(ranks, n - 1) {
            None => Some(n - 1),
            Some(b) => if rank_lt(ranks[n - 1], ranks[b]) {
                Some(n - 1)
            } else {
                Some(b)
            },
        }
    }
}

proof fn lemma_best_rank_bounds(ranks: Seq<AccountRank>, n: int)
    requires
        0 <= n <= ranks.len(),
    ensures
        n > 0 <==> best_rank_index(ranks, n) is Some,
        best_rank_index(ranks, n) matches Some(b) ==> 0 <= b < n,
    decreases n,
{
    if n > 0 {
        lemma_best_rank_bounds(ranks, n - 1);
    }
}

fn rank_lt_exec(a: &AccountRank, b: &AccountRank) -> (r: bool)
    requires
        a.updated_at > i64::MIN,
        b.updated_at > i64::MIN,
    ensures
        r == rank_lt(*a, *b),
{
    let ab: u8 = if a.blocked { 1 } else { 0 };
    let bb: u8 = if b.blocked { 1 } else { 0 };
    let ae: u8 = if a.has_error { 1 } else { 0 };
    let be: u8 = if b.has_error { 1 } else { 0 };
    if ab != bb {
        return ab < bb;
    }
    if ae != be {
        return ae < be;
    }
    if a.one_week_millis != b.one_week_millis {
        return a.one_week_millis < b.one_week_millis;
    }
    if a.five_hour_millis != b.five_hour_millis {
        return a.five_hour_millis < b.five_hour_millis;
    }
    -a.updated_at < -b.updated_at
}

/// The account `--best` picks: the first of least rank.
pub fn pick_best_account_index(ranks: &Vec<AccountRank>) -> (r: Result<usize, String>)
    requires
        forall|i: int| 0 <= i < ranks@.len() ==> (#[trigger] ranks@[i]).updated_at > i64::MIN,
    ensures
        match best_rank_index(ranks@, ranks@.len() as int) {
            Some(b) => r matches Ok(x) && x as int == b,
            None => r matches Err(e) && e@ == "账号列表为空"@,
        },
{
    if ranks.len() == 0 {
        return Err("账号列表为空".to_string());
    }
    let mut best: usize = 0;
    let mut i: usize = 1;
    assert(best_rank_index(ranks@, 0) is None);
    while i < ranks.len()
        invariant
            1 <= i <= ranks@.len(),
            best < i,
            forall|k: int| 0 <= k < ranks@.len() ==> (#[trigger] ranks@[k]).updated_at > i64::MIN,
            best_rank_index(ranks@, i as int) == Some(best as int),
        decreases ranks@.len() - i,
    {
        if rank_lt_exec(&ranks[i], &ranks[best]) {
            best = i;
        }
        i = i + 1;
    }
    Ok(best)
}

/// The one account a command acts on.
pub open spec fn single_account(
    accounts: Seq<AccountRef>,
    ranks: Seq<AccountRank>,
    summaries: Seq<CandidateSummary>,
    account_ref: Option<Seq<char>>,
    best: bool,
) -> Result<int, Seq<char>> {
    if best {
        if account_ref is Some {
            Err("不能同时使用账号参数和 --best"@)
        } else {
            match best_rank_index(ranks, ranks.len() as int) {
                Some(b) => Ok(b),
                None => Err("账号列表为空"@),
            }
        }
    } else {
        match selected_accounts(accounts, summaries, account_ref, false) {
            Err(e) => Err(e),
            Ok(v) => if v.len() == 1 {
                Ok(v[0] as int)
            } else if v.len() == 0 {
                Err("没有可切换的账号"@)
            } else {
                Err("账号选择结果不唯一"@)
            },
        }
    }
}

/// Resolves the one account a command acts on, by reference or `--best`.
pub fn resolve_single_account_index(
    accounts: &Vec<AccountRef>,
    ranks: &Vec<AccountRank>,
    summaries: &Vec<CandidateSummary>,
    account_ref: Option<&str>,
    best: bool,
) -> (r: Result<usize, String>)
    requires
        forall|i: int| 0 <= i < ranks@.len() ==> (#[trigger] ranks@[i]).updated_at > i64::MIN,
    ensures
        match (r, single_account(accounts@, ranks@, summaries@, opt_seq(account_ref), best)) {
            (Ok(a), Ok(b)) => a as int == b,
            (Err(a), Err(b)) => a@ == b,
            _ => false,
        },
{
    if best {
        if account_ref.is_some() {
            return Err("不能同时使用账号参数和 --best".to_string());
        }
        return pick_best_account_index(ranks);
    }
    let indices = resolve_account_indices(accounts, summaries, account_ref, false)?;
    if indices.len() == 1 {
        Ok(indices[0])
    } else if indices.len() == 0 {
        Err("没有可切换的账号".to_string())
    } else {
        Err("账号选择结果不唯一".to_string())
    }
}

/// `provider:count` for each key of `keys`, joined with `,`.
pub open spec fn counts_text(m: Map<Seq<char>, u64>, keys: Seq<Seq<char>>) -> Seq<char>
    decreases keys.len(),
{
    if keys.len() == 0 {
        seq![]
    } else {
        let item = keys.last() + ":"@ + decimal(m[keys.last()] as nat);
        if keys.len() == 1 {
            item
        } else {
            counts_text(m, keys.drop_last()) + ","@ + item
        }
    }
}

/// The texts of `keys` in ascending order.
pub open spec fn ascending_keys(keys: Set<Seq<char>>) -> Seq<Seq<char>> {
    choose|s: Seq<Seq<char>>| strictly_ascending(s) && s.to_set() == keys
}

/// Per-provider counts as one cell: `-` when there are none, else
/// `provider:count` in ascending provider order, joined with `,`.
pub open spec fn provider_counts_cell(m: Map<Seq<char>, u64>) -> Seq<char> {
    if m.dom().len() == 0 {
        "-"@
    } else {
        counts_text(m, ascending_keys(m.dom()))
    }
}

/// Per-provider counts as one cell: `-` when empty, else `provider:count`
/// in provider order, joined with `,`.
pub fn format_provider_counts(counts: &TextMap<u64>) -> (r: String)
    requires
        counts.wf(),
    ensures
        r@ == provider_counts_cell(counts.as_map()),
        counts.as_map().dom().len() == 0 ==> r@ == "-"@,
        counts.as_map().dom().len() > 0 ==> exists|keys: Seq<Seq<char>>|
            strictly_ascending(keys) && keys.to_set() == counts.as_map().dom() && r@ == counts_text(
                counts.as_map(),
                keys,
            ),
{
    proof {
        counts.lemma_keys();
    }
    let n = counts.len();
    if n == 0 {
        return "-".to_string();
    }
    let mut sorted: Vec<String> = Vec::new();
    assert(texts(sorted@) =~= Seq::<Seq<char>>::empty());
    let mut i: usize = 0;
    while i < n
        invariant
            i <= n,
            n == counts.key_order().len(),
            counts.wf(),
            strictly_ascending(texts(sorted@)),
            texts(sorted@).to_set() == counts.key_order().take(i as int).to_set(),
        decreases n - i,
    {
        let key = counts.key_at(i).clone();
        proof {
            counts.key_order().take(i as int).lemma_push_to_set_commute(counts.key_order()[i as int]);
            assert(counts.key_order().take(i as int).push(counts.key_order()[i as int]) =~= counts.key_order().take(i + 1));
        }
        insert_ascending_unique(&mut sorted, key);
        i = i + 1;
    }
    assert(counts.key_order().take(n as int) =~= counts.key_order());
    let ghost keys = texts(sorted@);
    let mut out = String::new();
    let mut k: usize = 0;
    while k < sorted.len()
        invariant
            k <= sorted@.len(),
            keys == texts(sorted@),
            counts.wf(),
            keys.to_set() == counts.as_map().dom(),
            out@ == counts_text(counts.as_map(), keys.take(k as int)),
        decreases sorted@.len() - k,
    {
        assert(keys.take(k + 1).drop_last() =~= keys.take(k as int));
        assert(keys.take(k + 1).last() == keys[k as int]);
        assert(keys.to_set().contains(keys[k as int]));
        let pos = counts.position(sorted[k].as_str());
        let value: u64 = match pos {
            Some(p) => *counts.value_at(p),
            None => 0,
        };
        if k > 0 {
            out.append(",");
        }
        out.append(sorted[k].as_str());
        out.append(":");
        out.append(decimal_string(value).as_str());
        k = k + 1;
    }
    assert(keys.take(k as int) =~= keys);
    proof {
        let chosen = ascending_keys(counts.as_map().dom());
        assert(strictly_ascending(keys) && keys.to_set() == counts.as_map().dom());
        lemma_ascending_unique(keys, chosen);
    }
    out
}

/// A truncated cell fits its width (when the width leaves room for the
/// ellipsis) and starts with the value's own first characters.
pub proof fn law_truncated_cell_fits(value: Seq<char>, max_chars: nat)
    requires
        max_chars >= 1,
    ensures
        truncated_cell(value, max_chars).len() <= max_chars,
        truncated_cell(value, max_chars).len() == value.len() ==> truncated_cell(value, max_chars) == value,
        forall|i: int|
            0 <= i < truncated_cell(value, max_chars).len() - 1 ==> #[trigger] truncated_cell(
                value,
                max_chars,
            )[i] == value[i],
{
}

/// `value`, or `-` when there is none.
pub open spec fn or_dash(value: Option<Seq<char>>) -> Seq<char> {
    match value {
        Some(v) => v,
        None => "-"@,
    }
}

/// The lines `provider status` prints: the Codex home, the current
/// provider and where it is set, the OpenAI base URL when configured, the
/// configured providers, the rollout and encrypted-content counts per
/// scope, the history index's thread counts (or that it is missing), the
/// number of unreadable rollout files when there are any, and the backups.
pub open spec fn provider_status_text(st: ProviderStatus) -> Seq<Seq<char>> {
    let head = seq![
        "codex_home="@ + st.codex_home@,
        "current_provider="@ + st.current_provider.id@ + " source="@ + st.current_provider.source@,
    ];
    let with_url = match st.current_provider.base_url {
        Some(u) => head.push("openai_base_url="@ + u@),
        None => head,
    };
    let counts = with_url + seq![
        "configured_providers="@ + join_with(texts(st.configured_providers@), ","@),
        "rollouts.sessions="@ + provider_counts_cell(st.rollout_counts.sessions.as_map()),
        "rollouts.archived_sessions="@ + provider_counts_cell(st.rollout_counts.archived_sessions.as_map()),
        "encrypted_content.sessions="@ + provider_counts_cell(st.encrypted_content_counts.sessions.as_map()),
        "encrypted_content.archived_sessions="@ + provider_counts_cell(
            st.encrypted_content_counts.archived_sessions.as_map(),
        ),
        match st.sqlite_counts {
            Some(c) => "sqlite.threads="@ + provider_counts_cell(c.threads.as_map()) + " total="@ + decimal(
                c.total_threads as nat,
            ),
            None => "sqlite.threads=<missing>"@,
        },
    ];
    let with_unreadable = if st.unreadable_rollout_files@.len() > 0 {
        counts.push("unreadable_rollout_files="@ + decimal(st.unreadable_rollout_files@.len()))
    } else {
        counts
    };
    with_unreadable.push(
        "backups.available="@ + bool_text(st.backup_summary.available) + " count="@ + decimal(
            st.backup_summary.backup_count as nat,
        ) + " latest="@ + or_dash(opt_text(st.backup_summary.latest_backup_id)),
    )
}

/// `prefix` followed by `value`.
fn line(prefix: &str, value: &str) -> (r: String)
    ensures
        r@ == prefix@ + value@,
{
    let mut out = prefix.to_string();
    out.append(value);
    out
}

/// The lines `provider status` prints (see `provider_status_text`).
pub fn provider_status_lines(st: &ProviderStatus) -> (r: Vec<String>)
    requires
        st.rollout_counts.wf(),
        st.encrypted_content_counts.wf(),
        st.sqlite_counts matches Some(c) ==> c.threads.wf(),
    ensures
        texts(r@) == provider_status_text(*st),
{
    let mut lines: Vec<String> = Vec::new();
    lines.push(line("codex_home=", st.codex_home.as_str()));
    let mut current = line("current_provider=", st.current_provider.id.as_str());
    current.append(" source=");
    current.append(st.current_provider.source.as_str());
    lines.push(current);
    if let Some(u) = &st.current_provider.base_url {
        lines.push(line("openai_base_url=", u.as_str()));
    }
    lines.push(line("configured_providers=", join_strings(&st.configured_providers, ",").as_str()));
    lines.push(line("rollouts.sessions=", format_provider_counts(&st.rollout_counts.sessions).as_str()));
    lines.push(
        line("rollouts.archived_sessions=", format_provider_counts(&st.rollout_counts.archived_sessions).as_str()),
    );
    lines.push(
        line("encrypted_content.sessions=", format_provider_counts(&st.encrypted_content_counts.sessions).as_str()),
    );
    lines.push(
        line(
            "encrypted_content.archived_sessions=",
            format_provider_counts(&st.encrypted_content_counts.archived_sessions).as_str(),
        ),
    );
    match &st.sqlite_counts {
        Some(c) => {
            let mut l = line("sqlite.threads=", format_provider_counts(&c.threads).as_str());
            l.append(" total=");
            l.append(decimal_string(c.total_threads).as_str());
            lines.push(l);
        },
        None => {
            lines.push("sqlite.threads=<missing>".to_string());
        },
    }
    if st.unreadable_rollout_files.len() > 0 {
        lines.push(
            line("unreadable_rollout_files=", decimal_string(st.unreadable_rollout_files.len() as u64).as_str()),
        );
    }
    let mut backups = line("backups.available=", bool_string(st.backup_summary.available).as_str());
    backups.append(" count=");
    backups.append(decimal_string(st.backup_summary.backup_count as u64).as_str());
    backups.append(" latest=");
    match &st.backup_summary.latest_backup_id {
        Some(id) => backups.append(id.as_str()),
        None => backups.append("-"),
    }
    lines.push(backups);
    assert(texts(lines@) =~= provider_status_text(*st));
    lines
}

/// The lines printed after a provider sync: the provider, the rollout files
/// scanned and changed, the history index and its changed threads, the
/// backup when one was made, the encrypted-content counts per scope, and the
/// number of unreadable rollout files when there are any.
pub open spec fn provider_sync_text(r: ProviderSyncResult) -> Seq<Seq<char>> {
    let head = seq![
        "provider="@ + r.provider@,
        "rollout_files scanned="@ + decimal(r.rollout_files_scanned as nat) + " changed="@ + decimal(
            r.rollout_files_changed as nat,
        ),
        "sqlite present="@ + bool_text(r.sqlite_present) + " changed_threads="@ + decimal(
            r.sqlite_threads_changed as nat,
        ),
    ];
    let with_backup = match r.backup_path {
        Some(p) => head.push("backup id="@ + or_dash(opt_text(r.backup_id)) + " path="@ + p@),
        None => head,
    };
    let counts = with_backup + seq![
        "encrypted_content.sessions="@ + provider_counts_cell(r.encrypted_content_counts.sessions.as_map()),
        "encrypted_content.archived_sessions="@ + provider_counts_cell(
            r.encrypted_content_counts.archived_sessions.as_map(),
        ),
    ];
    if r.unreadable_rollout_files@.len() > 0 {
        counts.push("unreadable_rollout_files="@ + decimal(r.unreadable_rollout_files@.len()))
    } else {
        counts
    }
}

/// The lines printed after a provider sync (see `provider_sync_text`).
pub fn provider_sync_result_lines(r: &ProviderSyncResult) -> (out: Vec<String>)
    requires
        r.encrypted_content_counts.wf(),
    ensures
        texts(out@) == provider_sync_text(*r),
{
    let mut lines: Vec<String> = Vec::new();
    lines.push(line("provider=", r.provider.as_str()));
    let mut scanned = line("rollout_files scanned=", decimal_string(r.rollout_files_scanned as u64).as_str());
    scanned.append(" changed=");
    scanned.append(decimal_string(r.rollout_files_changed as u64).as_str());
    lines.push(scanned);
    let mut sqlite = line("sqlite present=", bool_string(r.sqlite_present).as_str());
    sqlite.append(" changed_threads=");
    sqlite.append(decimal_string(r.sqlite_threads_changed).as_str());
    lines.push(sqlite);
    if let Some(p) = &r.backup_path {
        let mut backup = "backup id=".to_string();
        match &r.backup_id {
            Some(id) => backup.append(id.as_str()),
            None => backup.append("-"),
        }
        backup.append(" path=");
        backup.append(p.as_str());
        lines.push(backup);
    }
    lines.push(
        line("encrypted_content.sessions=", format_provider_counts(&r.encrypted_content_counts.sessions).as_str()),
    );
    lines.push(
        line(
            "encrypted_content.archived_sessions=",
            format_provider_counts(&r.encrypted_content_counts.archived_sessions).as_str(),
        ),
    );
    if r.unreadable_rollout_files.len() > 0 {
        lines.push(
            line("unreadable_rollout_files=", decimal_string(r.unreadable_rollout_files.len() as u64).as_str()),
        );
    }
    assert(texts(lines@) =~= provider_sync_text(*r));
    lines
}


proof fn lemma_matching_indices(accounts: Seq<AccountRef>, r: Seq<char>, exact: bool, n: int)
    requires
        0 <= n <= accounts.len() <= usize::MAX,
    ensures
        matching_indices(accounts, r, exact, n).len() <= n,
        forall|k: int|
            0 <= k < matching_indices(accounts, r, exact, n).len() ==> {
                let i = #[trigger] matching_indices(accounts, r, exact, n)[k];
                &&& (i as int) < n
                &&& ref_matches(accounts[i as int], r, exact)
            },
    decreases n,
{
    if n > 0 {
        lemma_matching_indices(accounts, r, exact, n - 1);
    }
}

proof fn lemma_matching_indices_grow(accounts: Seq<AccountRef>, r: Seq<char>, exact: bool, a: int, b: int)
    requires
        0 <= a <= b,
    ensures
        matching_indices(accounts, r, exact, a).len() <= matching_indices(accounts, r, exact, b).len(),
    decreases b - a,
{
    if a < b {
        lemma_matching_indices_grow(accounts, r, exact, a, b - 1);
    }
}

/// With `i` the only match below `n`, the matches are `[i]`; with two
/// matches below `n`, there are at least two.
proof fn lemma_matching_count(accounts: Seq<AccountRef>, r: Seq<char>, exact: bool, i: int, n: int)
    requires
        0 <= i < n <= accounts.len() <= usize::MAX,
        ref_matches(accounts[i], r, exact),
    ensures
        (forall|j: int| 0 <= j < n && j != i ==> !ref_matches(#[trigger] accounts[j], r, exact))
            ==> matching_indices(accounts, r, exact, n) == seq![i as usize],
        forall|j: int| 0 <= j < n && j != i && ref_matches(#[trigger] accounts[j], r, exact)
            ==> matching_indices(accounts, r, exact, n).len() >= 2,
    decreases n,
{
    if n - 1 > i {
        lemma_matching_count(accounts, r, exact, i, n - 1);
    } else {
        assert(n - 1 == i);
        if forall|j: int| 0 <= j < n && j != i ==> !ref_matches(#[trigger] accounts[j], r, exact) {
            lemma_nothing_matches(accounts, r, exact, i);
            assert(matching_indices(accounts, r, exact, n) =~= seq![i as usize]);
        }
    }
    assert forall|j: int| 0 <= j < n && j != i && ref_matches(#[trigger] accounts[j], r, exact)
        implies matching_indices(accounts, r, exact, n).len() >= 2 by {
        let (lo, hi) = if j < i { (j, i) } else { (i, j) };
        lemma_matching_indices_grow(accounts, r, exact, 0, lo);
        lemma_matching_indices_grow(accounts, r, exact, lo + 1, hi);
        lemma_matching_indices_grow(accounts, r, exact, hi + 1, n);
    }
}

proof fn lemma_nothing_matches(accounts: Seq<AccountRef>, r: Seq<char>, exact: bool, n: int)
    requires
        0 <= n <= accounts.len(),
        forall|j: int| 0 <= j < n ==> !ref_matches(#[trigger] accounts[j], r, exact),
    ensures
        matching_indices(accounts, r, exact, n) == Seq::<usize>::empty(),
    decreases n,
{
    if n > 0 {
        lemma_nothing_matches(accounts, r, exact, n - 1);
    }
}

/// `i` is the only account the reference names exactly.
pub open spec fn only_exact_match(accounts: Seq<AccountRef>, t: Seq<char>, i: int) -> bool {
    &&& 0 <= i < accounts.len()
    &&& exact_match(accounts[i], t)
    &&& forall|j: int| 0 <= j < accounts.len() && j != i ==> !exact_match(#[trigger] accounts[j], t)
}

/// What an account reference selects, whatever the accounts: every index
/// lies below the number of accounts; a missing or blank reference selects
/// all accounts exactly when that is allowed or there are any; a number
/// `d` from 1 to the number of accounts selects position `d - 1`; any other
/// reference selects one account at most, the only exact match when there is
/// one, and is refused when two accounts match exactly.
pub proof fn law_selected_accounts_are_in_range(
    accounts: Seq<AccountRef>,
    summaries: Seq<CandidateSummary>,
    account_ref: Option<Seq<char>>,
    allow_all: bool,
)
    requires
        accounts.len() <= usize::MAX,
    ensures
        ({
            let n = accounts.len() as int;
            let t = match account_ref {
                Some(r) => trim(r),
                None => seq![],
            };
            let result = selected_accounts(accounts, summaries, account_ref, allow_all);
            let numbered = display_number(t) is Some && 1 <= display_number(t).unwrap() <= n;
            &&& result matches Ok(v) ==> forall|k: int| 0 <= k < v.len() ==> (#[trigger] v[k] as int) < n
            &&& t.len() == 0 ==> (result is Ok <==> (allow_all || n > 0))
            &&& t.len() == 0 && (allow_all || n > 0) ==> result == Ok::<Seq<usize>, Seq<char>>(
                Seq::new(n as nat, |i: int| i as usize),
            )
            &&& numbered ==> result == Ok::<Seq<usize>, Seq<char>>(
                seq![(display_number(t).unwrap() - 1) as usize],
            )
            &&& t.len() > 0 ==> (result matches Ok(v) ==> v.len() == 1)
            &&& forall|i: int|
                t.len() > 0 && !numbered && #[trigger] only_exact_match(accounts, t, i) ==> result
                    == Ok::<Seq<usize>, Seq<char>>(seq![i as usize])
            &&& forall|i: int, j: int|
                t.len() > 0 && !numbered && 0 <= i < n && 0 <= j < n && i != j && #[trigger] exact_match(
                    accounts[i],
                    t,
                ) && #[trigger] exact_match(accounts[j], t) ==> result is Err
        }),
{
    let n = accounts.len() as int;
    let t = match account_ref {
        Some(r) => trim(r),
        None => seq![],
    };
    lemma_matching_indices(accounts, t, true, n);
    lemma_matching_indices(accounts, t, false, n);
    assert forall|i: int| t.len() > 0 && #[trigger] only_exact_match(accounts, t, i)
        implies matching_indices(accounts, t, true, n) == seq![i as usize] by {
        assert(ref_matches(accounts[i], t, true));
        assert forall|j: int| 0 <= j < n && j != i implies !ref_matches(#[trigger] accounts[j], t, true) by {
        }
        lemma_matching_count(accounts, t, true, i, n);
    }
    assert forall|i: int, j: int|
        0 <= i < n && 0 <= j < n && i != j && #[trigger] exact_match(accounts[i], t) && #[trigger] exact_match(
            accounts[j],
            t,
        ) implies matching_indices(accounts, t, true, n).len() >= 2 by {
        assert(ref_matches(accounts[j], t, true));
        lemma_matching_count(accounts, t, true, i, n);
    }
}

/// The account `--best` picks is the first of least rank: there is one
/// exactly when there are accounts, no account ranks before it, and every
/// account before it ranks after it.
pub proof fn law_best_account_is_first_of_least_rank(ranks: Seq<AccountRank>)
    ensures
        best_rank_index(ranks, ranks.len() as int) is None <==> ranks.len() == 0,
        best_rank_index(ranks, ranks.len() as int) matches Some(b) ==> {
            &&& 0 <= b < ranks.len()
            &&& forall|j: int| 0 <= j < ranks.len() ==> !rank_lt(#[trigger] ranks[j], ranks[b])
            &&& forall|j: int| 0 <= j < b ==> rank_lt(ranks[b], #[trigger] ranks[j])
        },
{
    lemma_best_rank_least(ranks, ranks.len() as int);
}

proof fn lemma_best_rank_least(ranks: Seq<AccountRank>, n: int)
    requires
        0 <= n <= ranks.len(),
    ensures
        best_rank_index(ranks, n) is None <==> n == 0,
        best_rank_index(ranks, n) matches Some(b) ==> {
            &&& 0 <= b < n
            &&& forall|j: int| 0 <= j < n ==> !rank_lt(#[trigger] ranks[j], ranks[b])
            &&& forall|j: int| 0 <= j < b ==> rank_lt(ranks[b], #[trigger] ranks[j])
        },
    decreases n,
{
    if n > 0 {
        lemma_best_rank_least(ranks, n - 1);
        match best_rank_index(ranks, n - 1) {
            None => {},
            Some(b) => {
                if rank_lt(ranks[n - 1], ranks[b]) {
                    assert forall|j: int| 0 <= j < n implies !rank_lt(#[trigger] ranks[j], ranks[n - 1]) by {
                        if j < n - 1 {
                            assert(!rank_lt(ranks[j], ranks[b]));
                        }
                    }
                    assert forall|j: int| 0 <= j < n - 1 implies rank_lt(ranks[n - 1], #[trigger] ranks[j]) by {
                        assert(!rank_lt(ranks[j], ranks[b]));
                    }
                }
            },
        }
    }
}

/// `q` occurs at position `i` of `s`.
pub open spec fn occurs_in_at(s: Seq<char>, q: Seq<char>, i: int) -> bool {
    0 <= i && i + q.len() <= s.len() && s.subrange(i, i + q.len()) == q
}

/// A reference partly matches an account when, ASCII case ignored, it
/// occurs anywhere in the account's label or e-mail, or starts its id,
/// account id or group key; and only then.
pub proof fn law_partial_match_finds_the_reference_anywhere_in_label_or_email(a: AccountRef, r: Seq<char>, i: int)
    ensures
        occurs_in_at(ascii_lower(a.label@), ascii_lower(r), i) ==> partial_match(a, r),
        (a.email matches Some(e) && occurs_in_at(ascii_lower(e@), ascii_lower(r), i)) ==> partial_match(a, r),
        occurs_in_at(ascii_lower(a.id@), ascii_lower(r), 0) ==> partial_match(a, r),
        occurs_in_at(ascii_lower(a.account_id@), ascii_lower(r), 0) ==> partial_match(a, r),
        occurs_in_at(ascii_lower(a.account_key@), ascii_lower(r), 0) ==> partial_match(a, r),
        partial_match(a, r) ==> {
            ||| occurs_in_at(ascii_lower(a.id@), ascii_lower(r), 0)
            ||| occurs_in_at(ascii_lower(a.account_id@), ascii_lower(r), 0)
            ||| occurs_in_at(ascii_lower(a.account_key@), ascii_lower(r), 0)
            ||| exists|j: int| occurs_in_at(ascii_lower(a.label@), ascii_lower(r), j)
            ||| (a.email matches Some(e) && exists|j: int| occurs_in_at(ascii_lower(e@), ascii_lower(r), j))
        },
{
    let q = ascii_lower(r);
    if occurs_in_at(ascii_lower(a.label@), q, i) {
        assert(crate::text::occurs_at(ascii_lower(a.label@), q, i));
    }
    if let Some(e) = a.email {
        if occurs_in_at(ascii_lower(e@), q, i) {
            assert(crate::text::occurs_at(ascii_lower(e@), q, i));
        }
    }
    if partial_match(a, r) {
        if contains_seq(ascii_lower(a.label@), q) {
            let j = choose|j: int| crate::text::occurs_at(ascii_lower(a.label@), q, j);
            assert(occurs_in_at(ascii_lower(a.label@), q, j));
        }
        if let Some(e) = a.email {
            if contains_seq(ascii_lower(e@), q) {
                let j = choose|j: int| crate::text::occurs_at(ascii_lower(e@), q, j);
                assert(occurs_in_at(ascii_lower(e@), q, j));
            }
        }
    }
}

/// `i` is the only account the reference partly matches.
pub open spec fn only_partial_match(accounts: Seq<AccountRef>, t: Seq<char>, i: int) -> bool {
    &&& 0 <= i < accounts.len()
    &&& partial_match(accounts[i], t)
    &&& forall|j: int| 0 <= j < accounts.len() && j != i ==> !partial_match(#[trigger] accounts[j], t)
}

/// A (trimmed, non-blank) reference that is no account number and names
/// no account exactly selects the one account it partly matches, and is
/// refused when it partly matches none or several.
pub proof fn law_single_partial_match_is_selected(
    accounts: Seq<AccountRef>,
    summaries: Seq<CandidateSummary>,
    r: Seq<char>,
    allow_all: bool,
)
    requires
        accounts.len() <= usize::MAX,
        trim(r).len() > 0,
        !(display_number(trim(r)) is Some && 1 <= display_number(trim(r)).unwrap() <= accounts.len()),
        forall|j: int| 0 <= j < accounts.len() ==> !exact_match(#[trigger] accounts[j], trim(r)),
    ensures
        forall|i: int| #[trigger] only_partial_match(accounts, trim(r), i) ==> selected_accounts(
            accounts,
            summaries,
            Some(r),
            allow_all,
        ) == Ok::<Seq<usize>, Seq<char>>(seq![i as usize]),
        (forall|j: int| 0 <= j < accounts.len() ==> !partial_match(#[trigger] accounts[j], trim(r)))
            ==> selected_accounts(accounts, summaries, Some(r), allow_all) is Err,
        forall|i: int, j: int|
            0 <= i < accounts.len() && 0 <= j < accounts.len() && i != j && #[trigger] partial_match(
                accounts[i],
                trim(r),
            ) && #[trigger] partial_match(accounts[j], trim(r)) ==> selected_accounts(
                accounts,
                summaries,
                Some(r),
                allow_all,
            ) is Err,
{
    let t = trim(r);
    let n = accounts.len() as int;
    assert forall|j: int| 0 <= j < n implies !ref_matches(#[trigger] accounts[j], t, true) by {}
    lemma_nothing_matches(accounts, t, true, n);
    lemma_matching_indices(accounts, t, false, n);
    assert forall|i: int| #[trigger] only_partial_match(accounts, t, i) implies selected_accounts(
        accounts,
        summaries,
        Some(r),
        allow_all,
    ) == Ok::<Seq<usize>, Seq<char>>(seq![i as usize]) by {
        assert(ref_matches(accounts[i], t, false));
        assert forall|j: int| 0 <= j < n && j != i implies !ref_matches(#[trigger] accounts[j], t, false) by {}
        lemma_matching_count(accounts, t, false, i, n);
    }
    if forall|j: int| 0 <= j < n ==> !partial_match(#[trigger] accounts[j], t) {
        assert forall|j: int| 0 <= j < n implies !ref_matches(#[trigger] accounts[j], t, false) by {}
        lemma_nothing_matches(accounts, t, false, n);
    }
    assert forall|i: int, j: int|
        0 <= i < n && 0 <= j < n && i != j && #[trigger] partial_match(accounts[i], t) && #[trigger] partial_match(
            accounts[j],
            t,
        ) implies selected_accounts(accounts, summaries, Some(r), allow_all) is Err by {
        assert(ref_matches(accounts[i], t, false));
        assert(ref_matches(accounts[j], t, false));
        lemma_matching_count(accounts, t, false, i, n);
    }
}

} // verus!
