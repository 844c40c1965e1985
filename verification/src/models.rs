//! Settings enums, account identity keys, the choice of the account summary
//! that stands for the active Codex identity, and the merging of stored
//! records of one account variant.
use vstd::prelude::*;

use crate::text::{
    ascii_lower, ascii_lowercase, chars_of, contains_seq, contains_str, str_eq, string_from, trim,
    trim_chars,
};

verus! {

/// Version written into a new accounts store.
pub fn default_store_version() -> (r: u8)
    ensures
        r == 2,
{
    2
}

/// The quota icon is shown unless the user hides it.
pub fn default_tray_quota_icon_visible() -> (r: bool)
    ensures
        r,
{
    true
}

/// The logo ring shows its percentage unless the user turns it off.
pub fn default_macos_tray_logo_ring_show_percentage() -> (r: bool)
    ensures
        r,
{
    true
}

/// Settings written before the quota onboarding existed count as onboarded.
pub fn default_quota_onboarding_completed() -> (r: bool)
    ensures
        r,
{
    true
}

/// Where an account's credentials come from.
#[derive(Debug, Clone, Copy, PartialEq, Eq, Structural)]
pub enum AccountSourceKind {
    Chatgpt,
    Relay,
}

impl Default for AccountSourceKind {
    fn default() -> (r: Self)
        ensures
            r == AccountSourceKind::Chatgpt,
    {
        AccountSourceKind::Chatgpt
    }
}

/// What the tray title shows of the current account's usage.
#[derive(Debug, Clone, Copy, PartialEq, Eq, Structural)]
pub enum TrayUsageDisplayMode {
    Used,
    Hidden,
    FiveHourRemaining,
    OneWeekRemaining,
    Remaining,
}

impl Default for TrayUsageDisplayMode {
    fn default() -> (r: Self)
        ensures
            r == TrayUsageDisplayMode::OneWeekRemaining,
    {
        TrayUsageDisplayMode::OneWeekRemaining
    }
}

/// Which text item the macOS status bar shows.
#[derive(Debug, Clone, Copy, PartialEq, Eq, Structural)]
pub enum MacosTrayTextIconStyle {
    CodexTool,
    ProgressRing,
}

impl Default for MacosTrayTextIconStyle {
    fn default() -> (r: Self)
        ensures
            r == MacosTrayTextIconStyle::CodexTool,
    {
        MacosTrayTextIconStyle::CodexTool
    }
}

/// How the quota icon is drawn.
#[derive(Debug, Clone, Copy, PartialEq, Eq, Structural)]
pub enum WindowsTrayIconStyle {
    GradientNumberPlate,
    GradientNumberCard,
    GradientNumber,
    NumberProgressBar,
    LogoProgressRing,
}

impl Default for WindowsTrayIconStyle {
    fn default() -> (r: Self)
        ensures
            r == WindowsTrayIconStyle::LogoProgressRing,
    {
        WindowsTrayIconStyle::LogoProgressRing
    }
}

/// Where the Windows taskbar usage widget sits.
#[derive(Debug, Clone, Copy, PartialEq, Eq, Structural)]
pub enum WindowsTaskbarWidgetPlacement {
    Embedded,
    Left,
    Hidden,
}

impl Default for WindowsTaskbarWidgetPlacement {
    fn default() -> (r: Self)
        ensures
            r == WindowsTaskbarWidgetPlacement::Left,
    {
        WindowsTaskbarWidgetPlacement::Left
    }
}

/// The interface language.
#[derive(Debug, Clone, Copy, PartialEq, Eq, Structural)]
pub enum AppLocale {
    ZhCn,
    EnUs,
    JaJp,
    KoKr,
    RuRu,
}

impl Default for AppLocale {
    fn default() -> (r: Self)
        ensures
            r == AppLocale::ZhCn,
    {
        AppLocale::ZhCn
    }
}

/// A trimmed, non-empty value.
pub open spec fn present(value: Option<Seq<char>>) -> Option<Seq<char>> {
    match value {
        Some(v) => if trim(v).len() > 0 {
            Some(trim(v))
        } else {
            None
        },
        None => None,
    }
}

/// The key an e-mail address is compared by: trimmed and ASCII-lower-cased,
/// `None` when absent or blank.
pub open spec fn email_key(email: Option<Seq<char>>) -> Option<Seq<char>> {
    match present(email) {
        Some(t) => Some(ascii_lower(t)),
        None => None,
    }
}

/// The key an identity is compared by: trimmed; lower-cased when it is an
/// e-mail address (holds `@`); `None` when absent or blank.
pub open spec fn identity_key(value: Option<Seq<char>>) -> Option<Seq<char>> {
    match present(value) {
        Some(t) => if contains_seq(t, "@"@) {
            Some(ascii_lower(t))
        } else {
            Some(t)
        },
        None => None,
    }
}

fn present_chars(value: Option<&str>) -> (r: Option<Vec<char>>)
    ensures
        match value {
            Some(v) => match present(Some(v@)) {
                Some(t) => r matches Some(x) && x@ == t,
                None => r is None,
            },
            None => r is None,
        },
{
    match value {
        Some(v) => {
            let t = trim_chars(v);
            if t.len() == 0 {
                None
            } else {
                Some(t)
            }
        },
        None => None,
    }
}

/// The comparison key of an optional e-mail address.
pub fn normalized_email_key(email: Option<&str>) -> (r: Option<String>)
    ensures
        match email {
            Some(e) => match email_key(Some(e@)) {
                Some(k) => r matches Some(x) && x@ == k,
                None => r is None,
            },
            None => r is None,
        },
{
    match present_chars(email) {
        Some(t) => {
            let lower = ascii_lowercase(t.as_slice());
            Some(string_from(lower.as_slice()))
        },
        None => None,
    }
}

/// The comparison key of an optional principal identity.
pub fn normalized_identity_key(value: Option<&str>) -> (r: Option<String>)
    ensures
        match value {
            Some(v) => match identity_key(Some(v@)) {
                Some(k) => r matches Some(x) && x@ == k,
                None => r is None,
            },
            None => r is None,
        },
{
    match present_chars(value) {
        Some(t) => {
            if contains_str(t.as_slice(), "@") {
                let lower = ascii_lowercase(t.as_slice());
                Some(string_from(lower.as_slice()))
            } else {
                Some(string_from(t.as_slice()))
            }
        },
        None => None,
    }
}

/// What marking the current account needs of an account summary: its id,
/// its account-group key and whether it is already marked current.
#[derive(Debug)]
pub struct SummaryIdentity {
    pub id: String,
    pub account_key: String,
    pub is_current: bool,
}

/// Summary `i` is of account group `group` (when given) and has id `id`
/// (when given).
pub open spec fn summary_matches(
    s: Seq<SummaryIdentity>,
    group: Option<Seq<char>>,
    id: Option<Seq<char>>,
    i: int,
) -> bool {
    &&& (group matches Some(k) ==> s[i].account_key@ == k)
    &&& (id matches Some(a) ==> s[i].id@ == a)
}

/// The first summary below `n` that matches.
pub open spec fn first_match(
    s: Seq<SummaryIdentity>,
    group: Option<Seq<char>>,
    id: Option<Seq<char>>,
    n: int,
) -> Option<int>
    decreases n,
{
    if n <= 0 {
        None
    } else {
        match first_match(s, group, id, n - 1) {
            Some(i) => Some(i),
            None => if summary_matches(s, group, id, n - 1) {
                Some(n - 1)
            } else {
                None
            },
        }
    }
}

/// Number of summaries below `n` of account group `k`.
pub open spec fn group_size(s: Seq<SummaryIdentity>, k: Seq<char>, n: int) -> nat
    decreases n,
{
    if n <= 0 {
        0
    } else {
        group_size(s, k, n - 1) + (if s[n - 1].account_key@ == k {
            1nat
        } else {
            0nat
        })
    }
}

pub open spec fn any_current(s: Seq<SummaryIdentity>) -> bool {
    exists|i: int| 0 <= i < s.len() && #[trigger] s[i].is_current
}

/// The last selected account, wherever it is.
pub open spec fn active_fallback(s: Seq<SummaryIdentity>, active: Option<Seq<char>>) -> Option<int> {
    match active {
        Some(a) => first_match(s, None, Some(a), s.len() as int),
        None => None,
    }
}

/// Which summary becomes current. None when one already is. Otherwise the
/// unique summary of the current account group; among several summaries of
/// that group, the one of the last selected account; and when no summary is
/// of that group, the last selected account wherever it is.
pub open spec fn current_index(
    s: Seq<SummaryIdentity>,
    key: Option<Seq<char>>,
    active: Option<Seq<char>>,
) -> Option<int> {
    let n = s.len() as int;
    if any_current(s) {
        None
    } else {
        match key {
            Some(k) => {
                let g = group_size(s, k, n);
                if g == 1 {
                    first_match(s, Some(k), None, n)
                } else if g >= 2 {
                    match active {
                        Some(a) => first_match(s, Some(k), Some(a), n),
                        None => None,
                    }
                } else {
                    active_fallback(s, active)
                }
            },
            None => active_fallback(s, active),
        }
    }
}

pub open spec fn opt_view(v: Option<&str>) -> Option<Seq<char>> {
    match v {
        Some(x) => Some(x@),
        None => None,
    }
}

proof fn lemma_first_match_bounds(
    s: Seq<SummaryIdentity>,
    group: Option<Seq<char>>,
    id: Option<Seq<char>>,
    n: int,
)
    ensures
        first_match(s, group, id, n) matches Some(i) ==> 0 <= i < n && summary_matches(s, group, id, i),
    decreases n,
{
    if n > 0 {
        lemma_first_match_bounds(s, group, id, n - 1);
    }
}

proof fn lemma_first_match_stable(
    s: Seq<SummaryIdentity>,
    group: Option<Seq<char>>,
    id: Option<Seq<char>>,
    n: int,
    m: int,
)
    requires
        n <= m,
        first_match(s, group, id, n) is Some,
    ensures
        first_match(s, group, id, m) == first_match(s, group, id, n),
    decreases m - n,
{
    if n < m {
        lemma_first_match_stable(s, group, id, n, m - 1);
    }
}

/// Whether summary `i` matches the optional group and id.
fn summary_matches_exec(s: &Vec<SummaryIdentity>, group: Option<&str>, id: Option<&str>, i: usize) -> (r: bool)
    requires
        i < s@.len(),
    ensures
        r == summary_matches(s@, opt_view(group), opt_view(id), i as int),
{
    let in_group = match group {
        Some(k) => str_eq(s[i].account_key.as_str(), k),
        None => true,
    };
    let has_id = match id {
        Some(a) => str_eq(s[i].id.as_str(), a),
        None => true,
    };
    in_group && has_id
}

/// The first summary that matches the optional group and id.
fn first_matching_summary(s: &Vec<SummaryIdentity>, group: Option<&str>, id: Option<&str>) -> (r: Option<usize>)
    ensures
        match first_match(s@, opt_view(group), opt_view(id), s@.len() as int) {
            Some(i) => r == Some(i as usize),
            None => r is None,
        },
{
    let mut i: usize = 0;
    while i < s.len()
        invariant
            i <= s@.len(),
            first_match(s@, opt_view(group), opt_view(id), i as int) is None,
        decreases s@.len() - i,
    {
        if summary_matches_exec(s, group, id, i) {
            proof {
                lemma_first_match_stable(s@, opt_view(group), opt_view(id), i + 1, s@.len() as int);
            }
            return Some(i);
        }
        i = i + 1;
    }
    None
}

/// `after` is `before` with the summary that `current_index` picks marked
/// current (its id and account key kept), and every other summary unchanged.
pub open spec fn marked_current(
    before: Seq<SummaryIdentity>,
    after: Seq<SummaryIdentity>,
    key: Option<Seq<char>>,
    active: Option<Seq<char>>,
) -> bool {
    &&& after.len() == before.len()
    &&& match current_index(before, key, active) {
        Some(m) => {
            &&& 0 <= m < before.len()
            &&& after[m].is_current
            &&& after[m].id@ == before[m].id@
            &&& after[m].account_key@ == before[m].account_key@
            &&& forall|j: int| 0 <= j < before.len() && j != m ==> #[trigger] after[j] == before[j]
        },
        None => after == before,
    }
}

/// Marks the summary that stands for the active Codex identity: see
/// `current_index`. Nothing else changes.
pub fn mark_current_account_summary(
    summaries: &mut Vec<SummaryIdentity>,
    current_account_key: Option<&str>,
    active_account_id: Option<&str>,
)
    ensures
        marked_current(old(summaries)@, final(summaries)@, opt_view(current_account_key), opt_view(active_account_id)),
{
    let mut i: usize = 0;
    while i < summaries.len()
        invariant
            i <= summaries@.len(),
            forall|j: int| 0 <= j < i ==> !(#[trigger] summaries@[j].is_current),
        decreases summaries@.len() - i,
    {
        if summaries[i].is_current {
            return;
        }
        i = i + 1;
    }
    let ghost s = summaries@;
    let chosen: Option<usize> = match current_account_key {
        Some(k) => {
            let mut count: usize = 0;
            let mut j: usize = 0;
            while j < summaries.len()
                invariant
                    j <= summaries@.len(),
                    count == group_size(summaries@, k@, j as int),
                    count <= j,
                decreases summaries@.len() - j,
            {
                if str_eq(summaries[j].account_key.as_str(), k) {
                    count = count + 1;
                }
                j = j + 1;
            }
            if count == 1 {
                first_matching_summary(summaries, Some(k), None)
            } else if count >= 2 {
                match active_account_id {
                    Some(a) => first_matching_summary(summaries, Some(k), Some(a)),
                    None => None,
                }
            } else {
                match active_account_id {
                    Some(a) => first_matching_summary(summaries, None, Some(a)),
                    None => None,
                }
            }
        },
        None => match active_account_id {
            Some(a) => first_matching_summary(summaries, None, Some(a)),
            None => None,
        },
    };
    proof {
        assert(!any_current(s));
    }
    match chosen {
        Some(m) => {
            proof {
                lemma_first_match_bounds(s, opt_view(current_account_key), opt_view(active_account_id), s.len() as int);
                lemma_first_match_bounds(s, opt_view(current_account_key), None, s.len() as int);
                lemma_first_match_bounds(s, None, opt_view(active_account_id), s.len() as int);
            }
            summaries[m].is_current = true;
        },
        None => {},
    }
}

/// Marking never makes a second summary current: when none was current,
/// at most one is afterwards, and marking again changes nothing.
pub proof fn law_marking_current_is_idempotent(
    s0: Seq<SummaryIdentity>,
    s1: Seq<SummaryIdentity>,
    s2: Seq<SummaryIdentity>,
    key: Option<Seq<char>>,
    active: Option<Seq<char>>,
)
    requires
        marked_current(s0, s1, key, active),
        marked_current(s1, s2, key, active),
    ensures
        s2 == s1,
        !any_current(s0) ==> forall|i: int, j: int|
            0 <= i < s1.len() && 0 <= j < s1.len() && #[trigger] s1[i].is_current && #[trigger] s1[j].is_current ==> i == j,
{
    if let Some(m) = current_index(s0, key, active) {
        assert(s1[m].is_current);
        assert(any_current(s1));
        if !any_current(s0) {
            assert forall|i: int, j: int|
                0 <= i < s1.len() && 0 <= j < s1.len() && #[trigger] s1[i].is_current && #[trigger] s1[j].is_current implies i == j by {
                if i != m {
                    assert(s1[i] == s0[i]);
                }
                if j != m {
                    assert(s1[j] == s0[j]);
                }
            }
        }
    } else {
        if !any_current(s0) {
            assert forall|i: int, j: int|
                0 <= i < s1.len() && 0 <= j < s1.len() && #[trigger] s1[i].is_current && #[trigger] s1[j].is_current implies i == j by {
                assert(s1[i] == s0[i]);
            }
        }
        if any_current(s1) {
        }
    }
}

/// What deciding between two stored records of one account variant looks at.
pub struct MergeFacts {
    pub auth_refresh_blocked: bool,
    pub has_usage: bool,
    pub has_usage_error: bool,
    pub has_plan_type: bool,
    pub email: Option<String>,
    pub updated_at: i64,
    pub added_at: i64,
}

/// How good a record is to keep: not blocked from refreshing, then with
/// usage and no usage error, then with a plan type, then with a non-blank
/// e-mail, then the later update, then the later addition.
pub open spec fn merge_score(f: MergeFacts) -> (u8, u8, u8, u8, i64, i64) {
    (
        (if f.auth_refresh_blocked { 0u8 } else { 1u8 }),
        (if f.has_usage && !f.has_usage_error { 1u8 } else { 0u8 }),
        (if f.has_plan_type { 1u8 } else { 0u8 }),
        (if has_nonblank(opt_text_view(f.email)) { 1u8 } else { 0u8 }),
        f.updated_at,
        f.added_at,
    )
}

/// A value is given and is not blank.
pub open spec fn has_nonblank(v: Option<Seq<char>>) -> bool {
    match v {
        Some(e) => trim(e).len() > 0,
        None => false,
    }
}

pub open spec fn opt_text_view(v: Option<String>) -> Option<Seq<char>> {
    match v {
        Some(s) => Some(s@),
        None => None,
    }
}

/// The merge score of a stored account record.
pub fn duplicate_account_merge_score(facts: &MergeFacts) -> (r: (u8, u8, u8, u8, i64, i64))
    ensures
        r == merge_score(*facts),
{
    let has_email = match &facts.email {
        Some(e) => crate::text::trim_chars(e.as_str()).len() > 0,
        None => false,
    };
    (
        if facts.auth_refresh_blocked { 0 } else { 1 },
        if facts.has_usage && !facts.has_usage_error { 1 } else { 0 },
        if facts.has_plan_type { 1 } else { 0 },
        if has_email { 1 } else { 0 },
        facts.updated_at,
        facts.added_at,
    )
}

/// `a` comes after `b` in the lexicographic order of tuples.
pub open spec fn score_greater(a: (u8, u8, u8, u8, i64, i64), b: (u8, u8, u8, u8, i64, i64)) -> bool {
    ||| a.0 > b.0
    ||| (a.0 == b.0 && a.1 > b.1)
    ||| (a.0 == b.0 && a.1 == b.1 && a.2 > b.2)
    ||| (a.0 == b.0 && a.1 == b.1 && a.2 == b.2 && a.3 > b.3)
    ||| (a.0 == b.0 && a.1 == b.1 && a.2 == b.2 && a.3 == b.3 && a.4 > b.4)
    ||| (a.0 == b.0 && a.1 == b.1 && a.2 == b.2 && a.3 == b.3 && a.4 == b.4 && a.5 > b.5)
}

/// Whether the merge of two records keeps the later one (`right`): only
/// when its score is strictly greater; on a tie the earlier record stays.
pub fn merge_prefers_right(left: &MergeFacts, right: &MergeFacts) -> (r: bool)
    ensures
        r == score_greater(merge_score(*right), merge_score(*left)),
{
    let a = duplicate_account_merge_score(right);
    let b = duplicate_account_merge_score(left);
    a.0 > b.0 || (a.0 == b.0 && (a.1 > b.1 || (a.1 == b.1 && (a.2 > b.2 || (a.2 == b.2 && (a.3 > b.3
        || (a.3 == b.3 && (a.4 > b.4 || (a.4 == b.4 && a.5 > b.5)))))))))
}

/// A usage snapshot carried with the plan type it reports.
pub struct AccountUsage<U> {
    pub plan_type: Option<String>,
    pub snapshot: U,
}

/// An auth document carried with the plan type its token names.
pub struct AccountAuth<A> {
    pub plan_type: Option<String>,
    pub document: A,
}

/// A stored account record as deduplication sees it. The usage snapshot
/// (`U`) and the auth document (`A`) are carried through unread but for the
/// plan types beside them; `auth` is `None` where the document is null, and
/// `variant_key` is the key of the account variant the record stands for.
pub struct StoredAccount<U, A> {
    pub id: String,
    pub label: String,
    pub source_kind: AccountSourceKind,
    pub principal_id: Option<String>,
    pub email: Option<String>,
    pub account_id: String,
    pub plan_type: Option<String>,
    pub auth: Option<AccountAuth<A>>,
    pub api_base_url: Option<String>,
    pub api_key: Option<String>,
    pub model_name: Option<String>,
    pub balance_text: Option<String>,
    pub profile_auth_path: Option<String>,
    pub profile_config_path: Option<String>,
    pub profile_auth_ready: bool,
    pub profile_config_ready: bool,
    pub profile_integrity_error: Option<String>,
    pub profile_last_validated_at: Option<i64>,
    pub profile_last_validation_error: Option<String>,
    pub added_at: i64,
    pub updated_at: i64,
    pub usage: Option<AccountUsage<U>>,
    pub usage_error: Option<String>,
    pub auth_refresh_blocked: bool,
    pub auth_refresh_error: Option<String>,
    pub variant_key: String,
}

/// `v`, or `w` when `v` is `None`.
pub open spec fn or_else<T>(v: Option<T>, w: Option<T>) -> Option<T> {
    match v {
        Some(x) => Some(x),
        None => w,
    }
}

/// The plan type an account is on: a relay's stored one; otherwise the one
/// its usage reports, else the stored one, else the one its token names.
pub open spec fn resolved_plan<U, A>(a: StoredAccount<U, A>) -> Option<Seq<char>> {
    if a.source_kind == AccountSourceKind::Relay {
        opt_text_view(a.plan_type)
    } else {
        let from_usage = match a.usage {
            Some(u) => opt_text_view(u.plan_type),
            None => None,
        };
        let from_auth = match a.auth {
            Some(t) => opt_text_view(t.plan_type),
            None => None,
        };
        or_else(from_usage, or_else(opt_text_view(a.plan_type), from_auth))
    }
}

/// What the merge score looks at in a record.
pub open spec fn merge_facts_of<U, A>(a: StoredAccount<U, A>) -> MergeFacts {
    MergeFacts {
        auth_refresh_blocked: a.auth_refresh_blocked,
        has_usage: a.usage is Some,
        has_usage_error: a.usage_error is Some,
        has_plan_type: resolved_plan(a) is Some,
        email: a.email,
        updated_at: a.updated_at,
        added_at: a.added_at,
    }
}

/// `preferred` completed from `alternate`: the earlier addition and the
/// later update, each missing detail taken from `alternate`, the profile
/// flags joined, and a refresh error kept only while refreshing is blocked.
pub open spec fn merged_account<U, A>(p: StoredAccount<U, A>, a: StoredAccount<U, A>) -> StoredAccount<U, A> {
    StoredAccount {
        added_at: if a.added_at < p.added_at { a.added_at } else { p.added_at },
        updated_at: if a.updated_at > p.updated_at { a.updated_at } else { p.updated_at },
        email: or_else(p.email, a.email),
        plan_type: or_else(p.plan_type, a.plan_type),
        usage: or_else(p.usage, a.usage),
        usage_error: or_else(p.usage_error, a.usage_error),
        auth_refresh_error: if p.auth_refresh_blocked {
            or_else(p.auth_refresh_error, a.auth_refresh_error)
        } else {
            None
        },
        auth: or_else(p.auth, a.auth),
        api_base_url: or_else(p.api_base_url, a.api_base_url),
        api_key: or_else(p.api_key, a.api_key),
        model_name: or_else(p.model_name, a.model_name),
        balance_text: or_else(p.balance_text, a.balance_text),
        profile_auth_path: or_else(p.profile_auth_path, a.profile_auth_path),
        profile_config_path: or_else(p.profile_config_path, a.profile_config_path),
        profile_auth_ready: p.profile_auth_ready || a.profile_auth_ready,
        profile_config_ready: p.profile_config_ready || a.profile_config_ready,
        profile_integrity_error: or_else(p.profile_integrity_error, a.profile_integrity_error),
        profile_last_validated_at: or_else(p.profile_last_validated_at, a.profile_last_validated_at),
        profile_last_validation_error: or_else(p.profile_last_validation_error, a.profile_last_validation_error),
        ..p
    }
}

/// Two records of one variant merged: the one with the better merge score
/// (`left` on a tie) completed from the other.
pub open spec fn merge_duplicate<U, A>(left: StoredAccount<U, A>, right: StoredAccount<U, A>) -> StoredAccount<U, A> {
    if score_greater(merge_score(merge_facts_of(right)), merge_score(merge_facts_of(left))) {
        merged_account(right, left)
    } else {
        merged_account(left, right)
    }
}

fn clone_opt_text(v: &Option<String>) -> (r: Option<String>)
    ensures
        opt_text_view(r) == opt_text_view(*v),
{
    match v {
        Some(x) => Some(x.clone()),
        None => None,
    }
}

impl<U, A> StoredAccount<U, A> {
    /// The plan type the account is on (see `resolved_plan`).
    pub fn resolved_plan_type(&self) -> (r: Option<String>)
        ensures
            opt_text_view(r) == resolved_plan(*self),
    {
        if self.source_kind == AccountSourceKind::Relay {
            return clone_opt_text(&self.plan_type);
        }
        if let Some(u) = &self.usage {
            if let Some(p) = &u.plan_type {
                return Some(p.clone());
            }
        }
        if let Some(p) = &self.plan_type {
            return Some(p.clone());
        }
        match &self.auth {
            Some(t) => clone_opt_text(&t.plan_type),
            None => None,
        }
    }

    /// What the merge score looks at in this record.
    pub fn merge_facts(&self) -> (r: MergeFacts)
        ensures
            merge_score(r) == merge_score(merge_facts_of(*self)),
    {
        let plan = self.resolved_plan_type();
        MergeFacts {
            auth_refresh_blocked: self.auth_refresh_blocked,
            has_usage: self.usage.is_some(),
            has_usage_error: self.usage_error.is_some(),
            has_plan_type: plan.is_some(),
            email: clone_opt_text(&self.email),
            updated_at: self.updated_at,
            added_at: self.added_at,
        }
    }
}

/// `v`, or `w` when `v` is `None`.
fn take_or<T>(v: Option<T>, w: Option<T>) -> (r: Option<T>)
    ensures
        r == or_else(v, w),
{
    match v {
        Some(x) => Some(x),
        None => w,
    }
}

/// Completes `p` from `a` (see `merged_account`).
fn merge_into<U, A>(p: StoredAccount<U, A>, a: StoredAccount<U, A>) -> (r: StoredAccount<U, A>)
    ensures
        r == merged_account(p, a),
{
    let refresh_error = if p.auth_refresh_blocked {
        take_or(p.auth_refresh_error, a.auth_refresh_error)
    } else {
        None
    };
    StoredAccount {
        id: p.id,
        label: p.label,
        source_kind: p.source_kind,
        principal_id: p.principal_id,
        email: take_or(p.email, a.email),
        account_id: p.account_id,
        plan_type: take_or(p.plan_type, a.plan_type),
        auth: take_or(p.auth, a.auth),
        api_base_url: take_or(p.api_base_url, a.api_base_url),
        api_key: take_or(p.api_key, a.api_key),
        model_name: take_or(p.model_name, a.model_name),
        balance_text: take_or(p.balance_text, a.balance_text),
        profile_auth_path: take_or(p.profile_auth_path, a.profile_auth_path),
        profile_config_path: take_or(p.profile_config_path, a.profile_config_path),
        profile_auth_ready: p.profile_auth_ready || a.profile_auth_ready,
        profile_config_ready: p.profile_config_ready || a.profile_config_ready,
        profile_integrity_error: take_or(p.profile_integrity_error, a.profile_integrity_error),
        profile_last_validated_at: take_or(p.profile_last_validated_at, a.profile_last_validated_at),
        profile_last_validation_error: take_or(p.profile_last_validation_error, a.profile_last_validation_error),
        added_at: if a.added_at < p.added_at { a.added_at } else { p.added_at },
        updated_at: if a.updated_at > p.updated_at { a.updated_at } else { p.updated_at },
        usage: take_or(p.usage, a.usage),
        usage_error: take_or(p.usage_error, a.usage_error),
        auth_refresh_blocked: p.auth_refresh_blocked,
        auth_refresh_error: refresh_error,
        variant_key: p.variant_key,
    }
}

/// Merges two stored records of one account variant into one: the record
/// with the better merge score (the first on a tie), completed from the
/// other (see `merge_duplicate`).
pub fn merge_duplicate_account_variant<U, A>(left: StoredAccount<U, A>, right: StoredAccount<U, A>) -> (r: StoredAccount<U, A>)
    ensures
        r == merge_duplicate(left, right),
{
    let left_facts = left.merge_facts();
    let right_facts = right.merge_facts();
    if merge_prefers_right(&left_facts, &right_facts) {
        merge_into(right, left)
    } else {
        merge_into(left, right)
    }
}

/// The first of the first `n` records whose variant key is `key`.
pub open spec fn variant_index<U, A>(s: Seq<StoredAccount<U, A>>, key: Seq<char>, n: int) -> Option<int>
    decreases n,
{
    if n <= 0 {
        None
    } else {
        match variant_index(s, key, n - 1) {
            Some(j) => Some(j),
            None => if s[n - 1].variant_key@ == key {
                Some(n - 1)
            } else {
                None
            },
        }
    }
}

/// The records after one more: merged into the record of its variant, or
/// added at the end when its variant is new.
pub open spec fn dedupe_step<U, A>(s: Seq<StoredAccount<U, A>>, acc: StoredAccount<U, A>) -> Seq<StoredAccount<U, A>> {
    match variant_index(s, acc.variant_key@, s.len() as int) {
        Some(j) => s.update(j, merge_duplicate(s[j], acc)),
        None => s.push(acc),
    }
}

/// The first `k` records with the records of each variant merged, in the
/// order in which the variants first occur.
pub open spec fn deduped<U, A>(accs: Seq<StoredAccount<U, A>>, k: int) -> Seq<StoredAccount<U, A>>
    decreases k,
{
    if k <= 0 {
        seq![]
    } else {
        dedupe_step(deduped(accs, k - 1), accs[k - 1])
    }
}

proof fn lemma_variant_index<U, A>(s: Seq<StoredAccount<U, A>>, key: Seq<char>, n: int)
    requires
        0 <= n <= s.len(),
    ensures
        match variant_index(s, key, n) {
            Some(j) => 0 <= j < n && s[j].variant_key@ == key && forall|i: int| 0 <= i < j ==> (#[trigger] s[i]).variant_key@ != key,
            None => forall|i: int| 0 <= i < n ==> (#[trigger] s[i]).variant_key@ != key,
        },
    decreases n,
{
    if n > 0 {
        lemma_variant_index(s, key, n - 1);
    }
}

/// The index of the first record of variant `key`.
fn find_variant<U, A>(s: &Vec<StoredAccount<U, A>>, key: &str) -> (r: Option<usize>)
    ensures
        match r {
            Some(j) => variant_index(s@, key@, s@.len() as int) == Some(j as int),
            None => variant_index(s@, key@, s@.len() as int) is None,
        },
{
    let mut i: usize = 0;
    while i < s.len()
        invariant
            i <= s@.len(),
            variant_index(s@, key@, i as int) is None,
        decreases s@.len() - i,
    {
        if str_eq(s[i].variant_key.as_str(), key) {
            proof {
                lemma_variant_index_stays(s@, key@, i + 1, s@.len() as int);
            }
            return Some(i);
        }
        i = i + 1;
    }
    None
}

proof fn lemma_variant_index_stays<U, A>(s: Seq<StoredAccount<U, A>>, key: Seq<char>, i: int, m: int)
    requires
        0 < i <= m,
        variant_index(s, key, i) is Some,
    ensures
        variant_index(s, key, m) == variant_index(s, key, i),
    decreases m - i,
{
    if m > i {
        lemma_variant_index_stays(s, key, i, m - 1);
    }
}

/// Merges the stored records of each account variant into one, kept where
/// the variant first occurs (see `deduped`); tells whether any two were
/// merged.
pub fn dedupe_account_variants<U, A>(accounts: &mut Vec<StoredAccount<U, A>>) -> (changed: bool)
    ensures
        final(accounts)@ == deduped(old(accounts)@, old(accounts)@.len() as int),
        changed <==> final(accounts)@.len() < old(accounts)@.len(),
{
    let mut input: Vec<StoredAccount<U, A>> = Vec::new();
    std::mem::swap(&mut input, accounts);
    let ghost orig = input@;
    let total: usize = input.len();
    let mut out: Vec<StoredAccount<U, A>> = Vec::new();
    let mut changed = false;
    let mut k: usize = 0;
    while input.len() > 0
        invariant
            k <= orig.len(),
            orig.len() == total,
            input@ == orig.subrange(k as int, orig.len() as int),
            out@ == deduped(orig, k as int),
            out@.len() <= k,
            changed <==> out@.len() < k,
        decreases input@.len(),
    {
        let acc = input.remove(0);
        assert(acc == orig[k as int]);
        proof {
            lemma_variant_index(out@, acc.variant_key@, out@.len() as int);
        }
        match find_variant(&out, acc.variant_key.as_str()) {
            Some(j) => {
                let left = out.remove(j);
                let merged = merge_duplicate_account_variant(left, acc);
                let ghost before = out@;
                out.insert(j, merged);
                changed = true;
            },
            None => {
                out.push(acc);
            },
        }
        assert(input@ =~= orig.subrange(k + 1, orig.len() as int));
        k = k + 1;
    }
    *accounts = out;
    changed
}

/// No two records of `s` share a variant key.
pub open spec fn variant_keys_distinct<U, A>(s: Seq<StoredAccount<U, A>>) -> bool {
    forall|i: int, j: int| 0 <= i < j < s.len() ==> (#[trigger] s[i]).variant_key@ != (#[trigger] s[j]).variant_key@
}

proof fn lemma_deduped_keys<U, A>(accs: Seq<StoredAccount<U, A>>, k: int)
    requires
        0 <= k <= accs.len(),
    ensures
        variant_keys_distinct(deduped(accs, k)),
        forall|i: int| 0 <= i < k ==> exists|j: int| 0 <= j < deduped(accs, k).len() && (#[trigger] deduped(accs, k)[j]).variant_key@ == (#[trigger] accs[i]).variant_key@,
    decreases k,
{
    if k > 0 {
        lemma_deduped_keys(accs, k - 1);
        let s = deduped(accs, k - 1);
        let acc = accs[k - 1];
        let key = acc.variant_key@;
        lemma_variant_index(s, key, s.len() as int);
        let t = deduped(accs, k);
        match variant_index(s, key, s.len() as int) {
            Some(j) => {
                assert(t[j].variant_key@ == s[j].variant_key@);
                assert forall|a: int| 0 <= a < t.len() implies (#[trigger] t[a]).variant_key@ == s[a].variant_key@ by {
                }
                assert forall|i: int| 0 <= i < k implies exists|q: int| 0 <= q < t.len() && (#[trigger] t[q]).variant_key@ == (#[trigger] accs[i]).variant_key@ by {
                    if i < k - 1 {
                        let q = choose|q: int| 0 <= q < s.len() && (#[trigger] s[q]).variant_key@ == accs[i].variant_key@;
                        assert(t[q].variant_key@ == s[q].variant_key@);
                    } else {
                        assert(t[j].variant_key@ == accs[i].variant_key@);
                    }
                }
            },
            None => {
                assert forall|i: int| 0 <= i < k implies exists|q: int| 0 <= q < t.len() && (#[trigger] t[q]).variant_key@ == (#[trigger] accs[i]).variant_key@ by {
                    if i < k - 1 {
                        let q = choose|q: int| 0 <= q < s.len() && (#[trigger] s[q]).variant_key@ == accs[i].variant_key@;
                        assert(t[q] == s[q]);
                    } else {
                        assert(t[s.len() as int] == acc);
                    }
                }
            },
        }
    }
}

/// Deduplication leaves one record per account variant: no two records
/// share a variant key, and every variant of the input keeps a record.
pub proof fn law_dedupe_keeps_one_record_per_variant<U, A>(accs: Seq<StoredAccount<U, A>>)
    ensures
        variant_keys_distinct(deduped(accs, accs.len() as int)),
        forall|i: int| 0 <= i < accs.len() ==> exists|j: int| 0 <= j < deduped(accs, accs.len() as int).len()
            && (#[trigger] deduped(accs, accs.len() as int)[j]).variant_key@ == (#[trigger] accs[i]).variant_key@,
{
    lemma_deduped_keys(accs, accs.len() as int);
}

/// Merging two records of a variant keeps the earlier addition time and the
/// later update time of the two, and leaves a refresh error only on a record
/// that is blocked from refreshing.
pub proof fn law_merge_spans_both_records<U, A>(left: StoredAccount<U, A>, right: StoredAccount<U, A>)
    ensures
        merge_duplicate(left, right).added_at == if left.added_at < right.added_at {
            left.added_at
        } else {
            right.added_at
        },
        merge_duplicate(left, right).updated_at == if left.updated_at > right.updated_at {
            left.updated_at
        } else {
            right.updated_at
        },
        merge_duplicate(left, right).auth_refresh_error is Some ==> merge_duplicate(left, right).auth_refresh_blocked,
{
}


proof fn lemma_deduped_keys_from_input<U, A>(accs: Seq<StoredAccount<U, A>>, k: int)
    requires
        0 <= k <= accs.len(),
    ensures
        deduped(accs, k).len() <= k,
        deduped(accs, k).len() == k ==> deduped(accs, k) == accs.take(k),
        forall|j: int| 0 <= j < deduped(accs, k).len() ==> exists|i: int| 0 <= i < k
            && (#[trigger] accs[i]).variant_key@ == (#[trigger] deduped(accs, k)[j]).variant_key@,
    decreases k,
{
    if k > 0 {
        lemma_deduped_keys_from_input(accs, k - 1);
        let s = deduped(accs, k - 1);
        let acc = accs[k - 1];
        let t = deduped(accs, k);
        lemma_variant_index(s, acc.variant_key@, s.len() as int);
        match variant_index(s, acc.variant_key@, s.len() as int) {
            Some(j) => {
                assert forall|q: int| 0 <= q < t.len() implies exists|i: int| 0 <= i < k
                    && (#[trigger] accs[i]).variant_key@ == (#[trigger] t[q]).variant_key@ by {
                    if q == j {
                        assert(accs[k - 1].variant_key@ == t[q].variant_key@);
                    } else {
                        assert(t[q] == s[q]);
                        let i = choose|i: int| 0 <= i < k - 1 && (#[trigger] accs[i]).variant_key@
                            == s[q].variant_key@;
                        assert(accs[i].variant_key@ == t[q].variant_key@);
                    }
                }
            },
            None => {
                if t.len() == k {
                    assert(t =~= accs.take(k));
                }
                assert forall|q: int| 0 <= q < t.len() implies exists|i: int| 0 <= i < k
                    && (#[trigger] accs[i]).variant_key@ == (#[trigger] t[q]).variant_key@ by {
                    if q == s.len() {
                        assert(accs[k - 1].variant_key@ == t[q].variant_key@);
                    } else {
                        assert(t[q] == s[q]);
                        let i = choose|i: int| 0 <= i < k - 1 && (#[trigger] accs[i]).variant_key@
                            == s[q].variant_key@;
                        assert(accs[i].variant_key@ == t[q].variant_key@);
                    }
                }
            },
        }
    }
}

/// The variant keys of a list of records, in order.
pub open spec fn variant_keys<U, A>(s: Seq<StoredAccount<U, A>>) -> Seq<Seq<char>> {
    s.map_values(|a: StoredAccount<U, A>| a.variant_key@)
}

/// Deduplication keeps exactly one record per distinct variant key of the
/// input, and a list in which no two records share a variant comes back
/// unchanged (nothing merged means nothing changed).
pub proof fn law_dedupe_counts_distinct_variants<U, A>(accs: Seq<StoredAccount<U, A>>)
    ensures
        deduped(accs, accs.len() as int).len() == variant_keys(accs).to_set().len(),
        variant_keys(deduped(accs, accs.len() as int)).to_set() == variant_keys(accs).to_set(),
        deduped(accs, accs.len() as int).len() == accs.len() ==> deduped(accs, accs.len() as int) == accs,
{
    let n = accs.len() as int;
    let out = deduped(accs, n);
    assert(variant_keys(out).to_set() == variant_keys(accs).to_set()) by {
        lemma_deduped_keys(accs, n);
        lemma_deduped_keys_from_input(accs, n);
        lemma_same_key_sets(accs, out);
    }
    assert(variant_keys(out).no_duplicates()) by {
        lemma_deduped_keys(accs, n);
        lemma_distinct_keys_no_duplicates(out);
    }
    variant_keys(out).unique_seq_to_set();
    assert(variant_keys(out).len() == out.len());
    if out.len() == n {
        assert(out == accs) by {
            lemma_deduped_keys_from_input(accs, n);
            assert(accs.take(n) =~= accs);
        }
    }
}

proof fn lemma_distinct_keys_no_duplicates<U, A>(out: Seq<StoredAccount<U, A>>)
    requires
        variant_keys_distinct(out),
    ensures
        variant_keys(out).no_duplicates(),
{
    let ko = variant_keys(out);
    assert forall|i: int, j: int| 0 <= i < ko.len() && 0 <= j < ko.len() && i != j implies ko[i] != ko[j] by {
        if i < j {
            assert(out[i].variant_key@ != out[j].variant_key@);
        } else {
            assert(out[j].variant_key@ != out[i].variant_key@);
        }
    }
}

proof fn lemma_same_key_sets<U, A>(accs: Seq<StoredAccount<U, A>>, out: Seq<StoredAccount<U, A>>)
    requires
        forall|i: int| 0 <= i < accs.len() ==> exists|j: int| 0 <= j < out.len()
            && (#[trigger] out[j]).variant_key@ == (#[trigger] accs[i]).variant_key@,
        forall|j: int| 0 <= j < out.len() ==> exists|i: int| 0 <= i < accs.len()
            && (#[trigger] accs[i]).variant_key@ == (#[trigger] out[j]).variant_key@,
    ensures
        variant_keys(out).to_set() == variant_keys(accs).to_set(),
{
    let ko = variant_keys(out);
    let ki = variant_keys(accs);
    assert forall|x: Seq<char>| ko.to_set().contains(x) implies ki.to_set().contains(x) by {
        let j = choose|j: int| 0 <= j < ko.len() && ko[j] == x;
        assert(out[j].variant_key@ == x);
        let i = choose|i: int| 0 <= i < accs.len() && (#[trigger] accs[i]).variant_key@ == out[j].variant_key@;
        assert(ki[i] == x);
    }
    assert forall|x: Seq<char>| ki.to_set().contains(x) implies ko.to_set().contains(x) by {
        let i = choose|i: int| 0 <= i < ki.len() && ki[i] == x;
        assert(accs[i].variant_key@ == x);
        let j = choose|j: int| 0 <= j < out.len() && (#[trigger] out[j]).variant_key@ == accs[i].variant_key@;
        assert(ko[j] == x);
    }
    assert(ko.to_set() =~= ki.to_set());
}

/// Summary `m` alone was marked current: its id and group kept, every other
/// summary unchanged.
pub open spec fn only_marked(before: Seq<SummaryIdentity>, after: Seq<SummaryIdentity>, m: int) -> bool {
    &&& after.len() == before.len()
    &&& 0 <= m < before.len()
    &&& after[m].is_current
    &&& after[m].id@ == before[m].id@
    &&& after[m].account_key@ == before[m].account_key@
    &&& forall|j: int| 0 <= j < before.len() && j != m ==> #[trigger] after[j] == before[j]
}

/// Summary `m` is the first to match the optional group and id.
pub open spec fn first_matching(s: Seq<SummaryIdentity>, group: Option<Seq<char>>, id: Option<Seq<char>>, m: int) -> bool {
    &&& 0 <= m < s.len()
    &&& summary_matches(s, group, id, m)
    &&& forall|j: int| 0 <= j < m ==> !summary_matches(s, group, id, j)
}

proof fn lemma_first_match_is_first(s: Seq<SummaryIdentity>, group: Option<Seq<char>>, id: Option<Seq<char>>, n: int)
    requires
        0 <= n <= s.len(),
    ensures
        match first_match(s, group, id, n) {
            Some(i) => first_matching(s, group, id, i) && i < n,
            None => forall|j: int| 0 <= j < n ==> !summary_matches(s, group, id, j),
        },
        forall|m: int| 0 <= m < n && #[trigger] first_matching(s, group, id, m) ==> first_match(s, group, id, n) == Some(m),
    decreases n,
{
    if n > 0 {
        lemma_first_match_is_first(s, group, id, n - 1);
    }
}

proof fn lemma_group_size_grows(s: Seq<SummaryIdentity>, k: Seq<char>, a: int, b: int)
    requires
        0 <= a <= b,
    ensures
        group_size(s, k, a) <= group_size(s, k, b),
    decreases b - a,
{
    if a < b {
        lemma_group_size_grows(s, k, a, b - 1);
    }
}

proof fn lemma_group_size_two(s: Seq<SummaryIdentity>, k: Seq<char>, i: int, j: int, n: int)
    requires
        0 <= i < j < n,
        s[i].account_key@ == k,
        s[j].account_key@ == k,
    ensures
        group_size(s, k, n) >= 2,
{
    lemma_group_size_grows(s, k, 0, i);
    lemma_group_size_grows(s, k, i + 1, j);
    lemma_group_size_grows(s, k, j + 1, n);
}

/// Which summary marking makes current, stated by the rule: nothing changes
/// when a summary already is current. Otherwise, with `g` the number of
/// summaries of the current account group: when `g` is one, that summary;
/// when `g` is two or more, the first of the group with the active account
/// id, and none when there is no such summary or no active id; when `g` is
/// zero or the group is unknown, the first summary with the active account
/// id, and none when there is none.
pub proof fn law_current_summary_follows_the_rule(
    before: Seq<SummaryIdentity>,
    after: Seq<SummaryIdentity>,
    key: Option<Seq<char>>,
    active: Option<Seq<char>>,
)
    requires
        marked_current(before, after, key, active),
    ensures
        any_current(before) ==> after == before,
        forall|m: int|
            key matches Some(k) && !any_current(before) && group_size(before, k, before.len() as int) == 1
                && 0 <= m < before.len() && (#[trigger] before[m]).account_key@ == k ==> only_marked(before, after, m),
        forall|m: int|
            key matches Some(k) && !any_current(before) && group_size(before, k, before.len() as int) >= 2
                && #[trigger] first_matching(before, key, active, m) && active is Some ==> only_marked(before, after, m),
        key matches Some(k) && !any_current(before) && group_size(before, k, before.len() as int) >= 2 && (
        active is None || forall|j: int| 0 <= j < before.len() ==> !#[trigger] summary_matches(before, key, active, j))
            ==> after == before,
        forall|m: int|
            !any_current(before) && (key is None || group_size(before, key.unwrap(), before.len() as int) == 0)
                && active is Some && #[trigger] first_matching(before, None, active, m) ==> only_marked(before, after, m),
        !any_current(before) && (key is None || group_size(before, key.unwrap(), before.len() as int) == 0) && (
        active is None || forall|j: int| 0 <= j < before.len() ==> !#[trigger] summary_matches(before, None, active, j))
            ==> after == before,
{
    let n = before.len() as int;
    lemma_first_match_is_first(before, key, active, n);
    lemma_first_match_is_first(before, None, active, n);
    lemma_first_match_is_first(before, key, None, n);
    if let Some(k) = key {
        if group_size(before, k, n) == 1 && !any_current(before) {
            assert forall|m: int| 0 <= m < n && (#[trigger] before[m]).account_key@ == k implies only_marked(
                before,
                after,
                m,
            ) by {
                match first_match(before, key, None, n) {
                    Some(i) => {
                        if i < m {
                            lemma_group_size_two(before, k, i, m, n);
                        } else if m < i {
                            lemma_group_size_two(before, k, m, i, n);
                        }
                    },
                    None => {
                        assert(summary_matches(before, key, None, m));
                    },
                }
            }
        }
    }
}

/// The earliest addition time among the first `k` records of variant `key`.
pub open spec fn group_added_min<U, A>(accs: Seq<StoredAccount<U, A>>, key: Seq<char>, k: int) -> Option<i64>
    decreases k,
{
    if k <= 0 {
        None
    } else {
        let prev = group_added_min(accs, key, k - 1);
        if accs[k - 1].variant_key@ == key {
            match prev {
                None => Some(accs[k - 1].added_at),
                Some(m) => Some(if accs[k - 1].added_at < m { accs[k - 1].added_at } else { m }),
            }
        } else {
            prev
        }
    }
}

/// The latest update time among the first `k` records of variant `key`.
pub open spec fn group_updated_max<U, A>(accs: Seq<StoredAccount<U, A>>, key: Seq<char>, k: int) -> Option<i64>
    decreases k,
{
    if k <= 0 {
        None
    } else {
        let prev = group_updated_max(accs, key, k - 1);
        if accs[k - 1].variant_key@ == key {
            match prev {
                None => Some(accs[k - 1].updated_at),
                Some(m) => Some(if accs[k - 1].updated_at > m { accs[k - 1].updated_at } else { m }),
            }
        } else {
            prev
        }
    }
}

proof fn lemma_group_empty<U, A>(accs: Seq<StoredAccount<U, A>>, key: Seq<char>, k: int)
    requires
        0 <= k <= accs.len(),
        forall|i: int| 0 <= i < k ==> (#[trigger] accs[i]).variant_key@ != key,
    ensures
        group_added_min(accs, key, k) is None,
        group_updated_max(accs, key, k) is None,
    decreases k,
{
    if k > 0 {
        lemma_group_empty(accs, key, k - 1);
    }
}

proof fn lemma_deduped_group_times<U, A>(accs: Seq<StoredAccount<U, A>>, k: int)
    requires
        0 <= k <= accs.len(),
    ensures
        forall|j: int| 0 <= j < deduped(accs, k).len() ==> {
            let o = #[trigger] deduped(accs, k)[j];
            &&& group_added_min(accs, o.variant_key@, k) == Some(o.added_at)
            &&& group_updated_max(accs, o.variant_key@, k) == Some(o.updated_at)
        },
    decreases k,
{
    if k > 0 {
        lemma_deduped_group_times(accs, k - 1);
        lemma_deduped_keys(accs, k - 1);
        let s = deduped(accs, k - 1);
        let acc = accs[k - 1];
        let key = acc.variant_key@;
        let t = deduped(accs, k);
        lemma_variant_index(s, key, s.len() as int);
        match variant_index(s, key, s.len() as int) {
            Some(j0) => {
                law_merge_spans_both_records(s[j0], acc);
                assert forall|j: int| 0 <= j < t.len() implies {
                    let o = #[trigger] t[j];
                    &&& group_added_min(accs, o.variant_key@, k) == Some(o.added_at)
                    &&& group_updated_max(accs, o.variant_key@, k) == Some(o.updated_at)
                } by {
                    if j != j0 {
                        assert(t[j] == s[j]);
                        if j < j0 {
                            assert(s[j].variant_key@ != s[j0].variant_key@);
                        } else {
                            assert(s[j0].variant_key@ != s[j].variant_key@);
                        }
                    } else {
                        assert(t[j].variant_key@ == key);
                    }
                }
            },
            None => {
                assert forall|i: int| 0 <= i < k - 1 implies (#[trigger] accs[i]).variant_key@ != key by {
                    if accs[i].variant_key@ == key {
                        let q = choose|q: int| 0 <= q < s.len() && (#[trigger] s[q]).variant_key@ == accs[i].variant_key@;
                        assert(s[q].variant_key@ == key);
                    }
                }
                lemma_group_empty(accs, key, k - 1);
                assert forall|j: int| 0 <= j < t.len() implies {
                    let o = #[trigger] t[j];
                    &&& group_added_min(accs, o.variant_key@, k) == Some(o.added_at)
                    &&& group_updated_max(accs, o.variant_key@, k) == Some(o.updated_at)
                } by {
                    if j < s.len() {
                        assert(t[j] == s[j]);
                        assert(s[j].variant_key@ != key);
                    } else {
                        assert(t[j] == acc);
                    }
                }
            },
        }
    }
}

/// Each record deduplication keeps stands for all the input records of its
/// variant: it was added when the first of them was (the earliest addition
/// time) and last updated when the latest of them was.
pub proof fn law_dedupe_spans_each_variant_group<U, A>(accs: Seq<StoredAccount<U, A>>)
    ensures
        forall|j: int| 0 <= j < deduped(accs, accs.len() as int).len() ==> {
            let o = #[trigger] deduped(accs, accs.len() as int)[j];
            &&& group_added_min(accs, o.variant_key@, accs.len() as int) == Some(o.added_at)
            &&& group_updated_max(accs, o.variant_key@, accs.len() as int) == Some(o.updated_at)
        },
{
    lemma_deduped_group_times(accs, accs.len() as int);
}

/// Where variant `key` first occurs among the first `n` records (`-1` when
/// it does not).
pub open spec fn first_occurrence<U, A>(accs: Seq<StoredAccount<U, A>>, key: Seq<char>, n: int) -> int {
    match variant_index(accs, key, n) {
        Some(i) => i,
        None => -1,
    }
}

proof fn lemma_deduped_order<U, A>(accs: Seq<StoredAccount<U, A>>, k: int)
    requires
        0 <= k <= accs.len(),
    ensures
        forall|j: int| 0 <= j < deduped(accs, k).len() ==> 0 <= #[trigger] first_occurrence(
            accs,
            deduped(accs, k)[j].variant_key@,
            k,
        ) < k,
        forall|a: int, b: int|
            0 <= a < b < deduped(accs, k).len() ==> #[trigger] first_occurrence(accs, deduped(accs, k)[a].variant_key@, k)
                < #[trigger] first_occurrence(accs, deduped(accs, k)[b].variant_key@, k),
    decreases k,
{
    if k > 0 {
        lemma_deduped_order(accs, k - 1);
        lemma_deduped_keys(accs, k - 1);
        let s = deduped(accs, k - 1);
        let acc = accs[k - 1];
        let key = acc.variant_key@;
        let t = deduped(accs, k);
        lemma_variant_index(s, key, s.len() as int);
        assert forall|j: int| 0 <= j < s.len() implies first_occurrence(accs, #[trigger] s[j].variant_key@, k)
            == first_occurrence(accs, s[j].variant_key@, k - 1) by {
            assert(0 <= first_occurrence(accs, s[j].variant_key@, k - 1) < k - 1);
            lemma_variant_index_stays(accs, s[j].variant_key@, k - 1, k);
        }
        match variant_index(s, key, s.len() as int) {
            Some(j0) => {
                assert forall|j: int| 0 <= j < t.len() implies #[trigger] t[j].variant_key@ == s[j].variant_key@ by {}
                assert forall|j: int| 0 <= j < t.len() implies 0 <= #[trigger] first_occurrence(
                    accs,
                    t[j].variant_key@,
                    k,
                ) < k by {
                    assert(t[j].variant_key@ == s[j].variant_key@);
                    assert(first_occurrence(accs, s[j].variant_key@, k) == first_occurrence(accs, s[j].variant_key@, k - 1));
                }
                assert forall|a: int, b: int| 0 <= a < b < t.len() implies #[trigger] first_occurrence(
                    accs,
                    t[a].variant_key@,
                    k,
                ) < #[trigger] first_occurrence(accs, t[b].variant_key@, k) by {
                    assert(t[a].variant_key@ == s[a].variant_key@);
                    assert(t[b].variant_key@ == s[b].variant_key@);
                    assert(first_occurrence(accs, s[a].variant_key@, k) == first_occurrence(accs, s[a].variant_key@, k - 1));
                    assert(first_occurrence(accs, s[b].variant_key@, k) == first_occurrence(accs, s[b].variant_key@, k - 1));
                }
            },
            None => {
                assert forall|i: int| 0 <= i < k - 1 implies (#[trigger] accs[i]).variant_key@ != key by {
                    if accs[i].variant_key@ == key {
                        let q = choose|q: int| 0 <= q < s.len() && (#[trigger] s[q]).variant_key@ == accs[i].variant_key@;
                        assert(s[q].variant_key@ == key);
                    }
                }
                lemma_variant_index(accs, key, k - 1);
                assert(variant_index(accs, key, k - 1) is None) by {
                    if let Some(f) = variant_index(accs, key, k - 1) {
                        assert(accs[f].variant_key@ == key);
                    }
                }
                assert(first_occurrence(accs, key, k) == k - 1);
                assert forall|j: int| 0 <= j < t.len() implies 0 <= #[trigger] first_occurrence(
                    accs,
                    t[j].variant_key@,
                    k,
                ) < k by {
                    if j < s.len() {
                        assert(t[j] == s[j]);
                        assert(first_occurrence(accs, s[j].variant_key@, k) == first_occurrence(accs, s[j].variant_key@, k - 1));
                    } else {
                        assert(t[j] == acc);
                    }
                }
                assert forall|a: int, b: int| 0 <= a < b < t.len() implies #[trigger] first_occurrence(
                    accs,
                    t[a].variant_key@,
                    k,
                ) < #[trigger] first_occurrence(accs, t[b].variant_key@, k) by {
                    assert(t[a] == s[a]);
                    assert(first_occurrence(accs, s[a].variant_key@, k) == first_occurrence(accs, s[a].variant_key@, k - 1));
                    if b < s.len() {
                        assert(t[b] == s[b]);
                        assert(first_occurrence(accs, s[b].variant_key@, k) == first_occurrence(accs, s[b].variant_key@, k - 1));
                    } else {
                        assert(t[b] == acc);
                    }
                }
            },
        }
    }
}

/// Deduplication keeps the variants in the order in which they first occur
/// in the input.
pub proof fn law_dedupe_keeps_first_occurrence_order<U, A>(accs: Seq<StoredAccount<U, A>>)
    ensures
        forall|a: int, b: int|
            0 <= a < b < deduped(accs, accs.len() as int).len() ==> #[trigger] first_occurrence(
                accs,
                deduped(accs, accs.len() as int)[a].variant_key@,
                accs.len() as int,
            ) < #[trigger] first_occurrence(accs, deduped(accs, accs.len() as int)[b].variant_key@, accs.len() as int),
{
    lemma_deduped_order(accs, accs.len() as int);
}

/// A detail of the merged record: the kept record's own when it has one,
/// else the other record's.
pub open spec fn detail_of<T>(kept: Option<T>, other: Option<T>) -> Option<T> {
    if kept is Some {
        kept
    } else {
        other
    }
}

/// Merging two records of one variant keeps the record with the greater
/// merge score (the left one on a tie): the result is that record, with its
/// identity, and each of its details (usage, usage error, plan, e-mail,
/// login, relay settings, profile state) taken from it whenever it has one;
/// only a detail it lacks comes from the other record.
pub proof fn law_merge_keeps_the_better_records_details<U, A>(left: StoredAccount<U, A>, right: StoredAccount<U, A>)
    ensures
        ({
            let r = merge_duplicate(left, right);
            let right_better = score_greater(merge_score(merge_facts_of(right)), merge_score(merge_facts_of(left)));
            let kept = if right_better { right } else { left };
            let other = if right_better { left } else { right };
            &&& r.id == kept.id
            &&& r.label == kept.label
            &&& r.account_id == kept.account_id
            &&& r.variant_key == kept.variant_key
            &&& r.source_kind == kept.source_kind
            &&& r.principal_id == kept.principal_id
            &&& r.auth_refresh_blocked == kept.auth_refresh_blocked
            &&& r.usage == detail_of(kept.usage, other.usage)
            &&& r.usage_error == detail_of(kept.usage_error, other.usage_error)
            &&& r.plan_type == detail_of(kept.plan_type, other.plan_type)
            &&& r.email == detail_of(kept.email, other.email)
            &&& r.auth == detail_of(kept.auth, other.auth)
            &&& r.api_base_url == detail_of(kept.api_base_url, other.api_base_url)
            &&& r.api_key == detail_of(kept.api_key, other.api_key)
            &&& r.model_name == detail_of(kept.model_name, other.model_name)
            &&& r.balance_text == detail_of(kept.balance_text, other.balance_text)
            &&& r.profile_auth_path == detail_of(kept.profile_auth_path, other.profile_auth_path)
            &&& r.profile_config_path == detail_of(kept.profile_config_path, other.profile_config_path)
            &&& r.profile_integrity_error == detail_of(kept.profile_integrity_error, other.profile_integrity_error)
            &&& r.profile_last_validated_at == detail_of(kept.profile_last_validated_at, other.profile_last_validated_at)
            &&& r.profile_last_validation_error == detail_of(
                kept.profile_last_validation_error,
                other.profile_last_validation_error,
            )
            &&& r.profile_auth_ready == (kept.profile_auth_ready || other.profile_auth_ready)
            &&& r.profile_config_ready == (kept.profile_config_ready || other.profile_config_ready)
            &&& r.auth_refresh_error == if kept.auth_refresh_blocked {
                detail_of(kept.auth_refresh_error, other.auth_refresh_error)
            } else {
                None
            }
        }),
{
}

} // verus!
