//! Token accounting over Codex rollout logs: per-event deltas of cumulative
//! counters, fork lineage (which records a forked session copied from its
//! parent), and the rolling-window snapshot.
use vstd::prelude::*;
use vstd::set_lib::{lemma_int_range, lemma_len_subset, set_int_range};

verus! {

pub const DAY_SECONDS: i64 = 86400;

pub const FORK_MATCH_RESYNC_WINDOW: usize = 32;

pub const FORK_MATCH_ANCHOR_RECORDS: usize = 4;

/// Token counters of one usage report.
#[derive(Clone, Copy, Debug, PartialEq, Eq, Structural)]
pub struct CodexTokenTotals {
    pub input_tokens: u64,
    pub cached_input_tokens: u64,
    pub output_tokens: u64,
    pub reasoning_output_tokens: u64,
    pub total_tokens: u64,
}

pub open spec fn zero_totals() -> CodexTokenTotals {
    CodexTokenTotals {
        input_tokens: 0,
        cached_input_tokens: 0,
        output_tokens: 0,
        reasoning_output_tokens: 0,
        total_tokens: 0,
    }
}

pub open spec fn sat_add(a: u64, b: u64) -> u64 {
    if a + b > u64::MAX {
        u64::MAX
    } else {
        (a + b) as u64
    }
}

/// Field-wise saturating sum.
pub open spec fn add_totals(a: CodexTokenTotals, b: CodexTokenTotals) -> CodexTokenTotals {
    CodexTokenTotals {
        input_tokens: sat_add(a.input_tokens, b.input_tokens),
        cached_input_tokens: sat_add(a.cached_input_tokens, b.cached_input_tokens),
        output_tokens: sat_add(a.output_tokens, b.output_tokens),
        reasoning_output_tokens: sat_add(a.reasoning_output_tokens, b.reasoning_output_tokens),
        total_tokens: sat_add(a.total_tokens, b.total_tokens),
    }
}

/// Every counter of `cur` is at least the matching counter of `prev`.
pub open spec fn totals_dominate(cur: CodexTokenTotals, prev: CodexTokenTotals) -> bool {
    &&& cur.input_tokens >= prev.input_tokens
    &&& cur.cached_input_tokens >= prev.cached_input_tokens
    &&& cur.output_tokens >= prev.output_tokens
    &&& cur.reasoning_output_tokens >= prev.reasoning_output_tokens
    &&& cur.total_tokens >= prev.total_tokens
}

/// Field-wise difference; `None` when any counter went down.
pub open spec fn delta_totals(cur: CodexTokenTotals, prev: CodexTokenTotals) -> Option<
    CodexTokenTotals,
> {
    if totals_dominate(cur, prev) {
        Some(
            CodexTokenTotals {
                input_tokens: (cur.input_tokens - prev.input_tokens) as u64,
                cached_input_tokens: (cur.cached_input_tokens - prev.cached_input_tokens) as u64,
                output_tokens: (cur.output_tokens - prev.output_tokens) as u64,
                reasoning_output_tokens: (cur.reasoning_output_tokens
                    - prev.reasoning_output_tokens) as u64,
                total_tokens: (cur.total_tokens - prev.total_tokens) as u64,
            },
        )
    } else {
        None
    }
}

pub open spec fn totals_empty(t: CodexTokenTotals) -> bool {
    t == zero_totals()
}

impl CodexTokenTotals {
    pub fn zero() -> (r: Self)
        ensures
            r == zero_totals(),
    {
        CodexTokenTotals {
            input_tokens: 0,
            cached_input_tokens: 0,
            output_tokens: 0,
            reasoning_output_tokens: 0,
            total_tokens: 0,
        }
    }

    /// Adds `other` counter by counter, saturating at `u64::MAX`.
    pub fn add(&mut self, other: &CodexTokenTotals)
        ensures
            *final(self) == add_totals(*old(self), *other),
    {
        self.input_tokens = self.input_tokens.saturating_add(other.input_tokens);
        self.cached_input_tokens = self.cached_input_tokens.saturating_add(
            other.cached_input_tokens,
        );
        self.output_tokens = self.output_tokens.saturating_add(other.output_tokens);
        self.reasoning_output_tokens = self.reasoning_output_tokens.saturating_add(
            other.reasoning_output_tokens,
        );
        self.total_tokens = self.total_tokens.saturating_add(other.total_tokens);
    }

    /// Whether every counter is zero.
    pub fn is_empty(&self) -> (r: bool)
        ensures
            r == totals_empty(*self),
    {
        self.total_tokens == 0 && self.input_tokens == 0 && self.output_tokens == 0
            && self.cached_input_tokens == 0 && self.reasoning_output_tokens == 0
    }
}

/// Difference between two cumulative snapshots, or `None` when a counter
/// decreased (the log restarted its counters).
pub fn token_totals_delta(current: &CodexTokenTotals, previous: &CodexTokenTotals) -> (r: Option<
    CodexTokenTotals,
>)
    ensures
        r == delta_totals(*current, *previous),
{
    let input_tokens = current.input_tokens.checked_sub(previous.input_tokens)?;
    let cached_input_tokens = current.cached_input_tokens.checked_sub(
        previous.cached_input_tokens,
    )?;
    let output_tokens = current.output_tokens.checked_sub(previous.output_tokens)?;
    let reasoning_output_tokens = current.reasoning_output_tokens.checked_sub(
        previous.reasoning_output_tokens,
    )?;
    let total_tokens = current.total_tokens.checked_sub(previous.total_tokens)?;
    Some(
        CodexTokenTotals {
            input_tokens,
            cached_input_tokens,
            output_tokens,
            reasoning_output_tokens,
            total_tokens,
        },
    )
}


/// One `token_count` record of a rollout log: the record's position in the
/// file, its time, and the per-turn (`last`) and cumulative (`total`) usage.
#[derive(Clone, Copy, Debug, PartialEq, Eq, Structural)]
pub struct ParsedTokenEvent {
    pub record_index: usize,
    pub timestamp: i64,
    pub last: Option<CodexTokenTotals>,
    pub total: Option<CodexTokenTotals>,
}

/// Usage a session spent itself at one moment.
#[derive(Clone, Copy, Debug, PartialEq, Eq, Structural)]
pub struct ConfirmedTokenDelta {
    pub timestamp: i64,
    pub total: CodexTokenTotals,
}

#[derive(Clone, Debug)]
pub struct ConfirmedTokenDeltaResult {
    pub events: Vec<ConfirmedTokenDelta>,
    pub unresolved_event_count: usize,
}

/// Last cumulative snapshot among the records copied from the parent
/// (those before `end`).
pub open spec fn inherited_baseline(evs: Seq<ParsedTokenEvent>, end: usize) -> Option<
    CodexTokenTotals,
>
    decreases evs.len(),
{
    if evs.len() == 0 {
        None
    } else {
        let e = evs.last();
        if e.record_index < end && e.total is Some {
            e.total
        } else {
            inherited_baseline(evs.drop_last(), end)
        }
    }
}

/// Number of events copied from the parent (record before `end`).
pub open spec fn inherited_count(evs: Seq<ParsedTokenEvent>, end: usize) -> nat
    decreases evs.len(),
{
    if evs.len() == 0 {
        0
    } else {
        inherited_count(evs.drop_last(), end) + if evs.last().record_index < end {
            1nat
        } else {
            0nat
        }
    }
}

/// Number of events the session recorded itself (record at or after `end`).
pub open spec fn owned_count(evs: Seq<ParsedTokenEvent>, end: usize) -> nat
    decreases evs.len(),
{
    if evs.len() == 0 {
        0
    } else {
        owned_count(evs.drop_last(), end) + if evs.last().record_index >= end {
            1nat
        } else {
            0nat
        }
    }
}

/// State while walking a session's own events: the cumulative snapshot last
/// seen, the deltas confirmed so far, and how many events could not be used.
pub struct DeltaState {
    pub prev: CodexTokenTotals,
    pub out: Seq<ConfirmedTokenDelta>,
    pub unresolved: nat,
}

pub open spec fn delta_step(st: DeltaState, e: ParsedTokenEvent, end: usize) -> DeltaState {
    if e.record_index < end {
        st
    } else {
        match e.total {
            None => DeltaState { unresolved: st.unresolved + 1, ..st },
            Some(cur) => match delta_totals(cur, st.prev) {
                None => DeltaState { prev: cur, unresolved: st.unresolved + 1, ..st },
                Some(d) => if totals_empty(d) {
                    DeltaState { prev: cur, ..st }
                } else {
                    DeltaState {
                        prev: cur,
                        out: st.out.push(ConfirmedTokenDelta { timestamp: e.timestamp, total: d }),
                        ..st
                    }
                },
            },
        }
    }
}

pub open spec fn delta_fold(evs: Seq<ParsedTokenEvent>, end: usize, init: CodexTokenTotals) -> DeltaState
    decreases evs.len(),
{
    if evs.len() == 0 {
        DeltaState { prev: init, out: seq![], unresolved: 0 }
    } else {
        delta_step(delta_fold(evs.drop_last(), end, init), evs.last(), end)
    }
}

/// The deltas a session confirmed itself and the number of its events that
/// could not be attributed. When copied history carries token events but no
/// cumulative snapshot, nothing the session recorded can be trusted.
pub open spec fn confirmed_deltas(evs: Seq<ParsedTokenEvent>, end: usize) -> (
    Seq<ConfirmedTokenDelta>,
    nat,
) {
    if end > 0 && inherited_count(evs, end) > 0 && inherited_baseline(evs, end) is None {
        (seq![], owned_count(evs, end))
    } else {
        let init = match inherited_baseline(evs, end) {
            Some(t) => t,
            None => zero_totals(),
        };
        let st = delta_fold(evs, end, init);
        (st.out, st.unresolved)
    }
}

proof fn lemma_counts_bounded(evs: Seq<ParsedTokenEvent>, end: usize)
    ensures
        inherited_count(evs, end) <= evs.len(),
        owned_count(evs, end) <= evs.len(),
    decreases evs.len(),
{
    if evs.len() > 0 {
        lemma_counts_bounded(evs.drop_last(), end);
    }
}

proof fn lemma_fold_unresolved_bounded(evs: Seq<ParsedTokenEvent>, end: usize, init: CodexTokenTotals)
    ensures
        delta_fold(evs, end, init).unresolved <= evs.len(),
    decreases evs.len(),
{
    if evs.len() > 0 {
        lemma_fold_unresolved_bounded(evs.drop_last(), end, init);
    }
}

/// Converts a session's cumulative counters into per-event deltas, starting
/// from the last snapshot inherited from the parent (records before
/// `inherited_record_end`). A decrease of any counter starts a new epoch and
/// counts as unresolved.
pub fn derive_confirmed_token_deltas(
    events: &[ParsedTokenEvent],
    inherited_record_end: usize,
) -> (r: ConfirmedTokenDeltaResult)
    ensures
        (r.events@, r.unresolved_event_count as nat) == confirmed_deltas(
            events@,
            inherited_record_end,
        ),
{
    let n = events.len();
    let mut baseline: Option<CodexTokenTotals> = None;
    let mut inherited: usize = 0;
    let mut owned: usize = 0;
    let mut i: usize = 0;
    while i < n
        invariant
            n == events@.len(),
            i <= n,
            baseline == inherited_baseline(events@.subrange(0, i as int), inherited_record_end),
            inherited == inherited_count(events@.subrange(0, i as int), inherited_record_end),
            owned == owned_count(events@.subrange(0, i as int), inherited_record_end),
        decreases n - i,
    {
        proof {
            lemma_counts_bounded(events@.subrange(0, i as int), inherited_record_end);
        }
        assert(events@.subrange(0, i + 1).drop_last() =~= events@.subrange(0, i as int));
        let e = events[i];
        if e.record_index < inherited_record_end {
            inherited = inherited + 1;
            if e.total.is_some() {
                baseline = e.total;
            }
        } else {
            owned = owned + 1;
        }
        i = i + 1;
    }
    assert(events@.subrange(0, n as int) =~= events@);
    if inherited_record_end > 0 && inherited > 0 && baseline.is_none() {
        return ConfirmedTokenDeltaResult { events: Vec::new(), unresolved_event_count: owned };
    }
    let mut previous_total = match baseline {
        Some(t) => t,
        None => CodexTokenTotals::zero(),
    };
    let ghost init = previous_total;
    let mut out: Vec<ConfirmedTokenDelta> = Vec::new();
    let mut unresolved: usize = 0;
    let mut j: usize = 0;
    while j < n
        invariant
            n == events@.len(),
            j <= n,
            ({
                let st = delta_fold(events@.subrange(0, j as int), inherited_record_end, init);
                &&& st.prev == previous_total
                &&& st.out == out@
                &&& st.unresolved == unresolved as nat
            }),
        decreases n - j,
    {
        proof {
            lemma_fold_unresolved_bounded(events@.subrange(0, j as int), inherited_record_end, init);
        }
        assert(events@.subrange(0, j + 1).drop_last() =~= events@.subrange(0, j as int));
        let e = events[j];
        if e.record_index >= inherited_record_end {
            match e.total {
                None => {
                    unresolved = unresolved + 1;
                },
                Some(current_total) => {
                    match token_totals_delta(&current_total, &previous_total) {
                        None => {
                            unresolved = unresolved + 1;
                            previous_total = current_total;
                        },
                        Some(delta) => {
                            previous_total = current_total;
                            if !delta.is_empty() {
                                out.push(ConfirmedTokenDelta { timestamp: e.timestamp, total: delta });
                            }
                        },
                    }
                },
            }
        }
        j = j + 1;
    }
    assert(events@.subrange(0, n as int) =~= events@);
    ConfirmedTokenDeltaResult { events: out, unresolved_event_count: unresolved }
}


/// Usage of one session: when it started, when it last reported, and what it spent.
#[derive(Clone, Copy, Debug, PartialEq, Eq, Structural)]
pub struct CodexTokenSessionUsage {
    pub started_at: Option<i64>,
    pub updated_at: i64,
    pub total: CodexTokenTotals,
}

/// Saturating sum of the deltas' totals.
pub open spec fn sum_deltas(ds: Seq<ConfirmedTokenDelta>) -> CodexTokenTotals
    decreases ds.len(),
{
    if ds.len() == 0 {
        zero_totals()
    } else {
        add_totals(sum_deltas(ds.drop_last()), ds.last().total)
    }
}

/// The session that a list of confirmed deltas describes; `None` when empty.
pub open spec fn session_of_deltas(ds: Seq<ConfirmedTokenDelta>) -> Option<CodexTokenSessionUsage> {
    if ds.len() == 0 {
        None
    } else {
        Some(
            CodexTokenSessionUsage {
                started_at: Some(ds[0].timestamp),
                updated_at: ds.last().timestamp,
                total: sum_deltas(ds),
            },
        )
    }
}

/// Sums a session's confirmed deltas and dates it by its first and last one.
pub fn latest_confirmed_token_session(events: &[ConfirmedTokenDelta]) -> (r: Option<
    CodexTokenSessionUsage,
>)
    ensures
        r == session_of_deltas(events@),
{
    let mut total = CodexTokenTotals::zero();
    let mut i: usize = 0;
    while i < events.len()
        invariant
            i <= events@.len(),
            total == sum_deltas(events@.subrange(0, i as int)),
        decreases events@.len() - i,
    {
        assert(events@.subrange(0, i + 1).drop_last() =~= events@.subrange(0, i as int));
        total.add(&events[i].total);
        i = i + 1;
    }
    assert(events@.subrange(0, i as int) =~= events@);
    if events.len() == 0 {
        return None;
    }
    Some(
        CodexTokenSessionUsage {
            started_at: Some(events[0].timestamp),
            updated_at: events[events.len() - 1].timestamp,
            total,
        },
    )
}

/// Running summary of a session's token events.
#[derive(Clone, Copy, Debug, PartialEq, Eq, Structural)]
pub struct ParsedSession {
    pub started_at: Option<i64>,
    pub updated_at: Option<i64>,
    pub summed_last_usage: CodexTokenTotals,
    pub latest_cumulative_total: CodexTokenTotals,
}

pub open spec fn empty_parsed_session() -> ParsedSession {
    ParsedSession {
        started_at: None,
        updated_at: None,
        summed_last_usage: zero_totals(),
        latest_cumulative_total: zero_totals(),
    }
}

pub open spec fn observe_spec(st: ParsedSession, e: ParsedTokenEvent) -> ParsedSession {
    ParsedSession {
        started_at: Some(
            match st.started_at {
                Some(c) => if c <= e.timestamp {
                    c
                } else {
                    e.timestamp
                },
                None => e.timestamp,
            },
        ),
        updated_at: Some(
            match st.updated_at {
                Some(c) => if c >= e.timestamp {
                    c
                } else {
                    e.timestamp
                },
                None => e.timestamp,
            },
        ),
        summed_last_usage: match e.last {
            Some(l) => add_totals(st.summed_last_usage, l),
            None => st.summed_last_usage,
        },
        latest_cumulative_total: match e.total {
            Some(t) => t,
            None => st.latest_cumulative_total,
        },
    }
}

/// The session usage a summary stands for: per-turn usage summed when any was
/// reported, the last cumulative snapshot otherwise.
pub open spec fn latest_session_spec(st: ParsedSession) -> Option<CodexTokenSessionUsage> {
    match st.updated_at {
        None => None,
        Some(u) => Some(
            CodexTokenSessionUsage {
                started_at: st.started_at,
                updated_at: u,
                total: if totals_empty(st.summed_last_usage) {
                    st.latest_cumulative_total
                } else {
                    st.summed_last_usage
                },
            },
        ),
    }
}

pub open spec fn observe_all(evs: Seq<ParsedTokenEvent>) -> ParsedSession
    decreases evs.len(),
{
    if evs.len() == 0 {
        empty_parsed_session()
    } else {
        observe_spec(observe_all(evs.drop_last()), evs.last())
    }
}

impl ParsedSession {
    pub fn new() -> (r: Self)
        ensures
            r == empty_parsed_session(),
    {
        ParsedSession {
            started_at: None,
            updated_at: None,
            summed_last_usage: CodexTokenTotals::zero(),
            latest_cumulative_total: CodexTokenTotals::zero(),
        }
    }

    /// Folds one token event into the summary.
    pub fn observe(&mut self, event: &ParsedTokenEvent)
        ensures
            *final(self) == observe_spec(*old(self), *event),
    {
        self.started_at = Some(
            match self.started_at {
                Some(current) => if current <= event.timestamp {
                    current
                } else {
                    event.timestamp
                },
                None => event.timestamp,
            },
        );
        self.updated_at = Some(
            match self.updated_at {
                Some(current) => if current >= event.timestamp {
                    current
                } else {
                    event.timestamp
                },
                None => event.timestamp,
            },
        );
        if let Some(last) = &event.last {
            self.summed_last_usage.add(last);
        }
        if let Some(total) = &event.total {
            self.latest_cumulative_total = *total;
        }
    }

    pub fn into_latest_session(self) -> (r: Option<CodexTokenSessionUsage>)
        ensures
            r == latest_session_spec(self),
    {
        let updated_at = self.updated_at?;
        let total = if self.summed_last_usage.is_empty() {
            self.latest_cumulative_total
        } else {
            self.summed_last_usage
        };
        Some(CodexTokenSessionUsage { started_at: self.started_at, updated_at, total })
    }
}

/// Usage of a session judged from all of its token events.
pub fn latest_token_session_usage(events: &[ParsedTokenEvent]) -> (r: Option<CodexTokenSessionUsage>)
    ensures
        r == latest_session_spec(observe_all(events@)),
{
    let mut session = ParsedSession::new();
    let mut i: usize = 0;
    while i < events.len()
        invariant
            i <= events@.len(),
            session == observe_all(events@.subrange(0, i as int)),
        decreases events@.len() - i,
    {
        assert(events@.subrange(0, i + 1).drop_last() =~= events@.subrange(0, i as int));
        session.observe(&events[i]);
        i = i + 1;
    }
    assert(events@.subrange(0, i as int) =~= events@);
    session.into_latest_session()
}


pub open spec fn min_int(a: int, b: int) -> int {
    if a <= b {
        a
    } else {
        b
    }
}

/// Last index at which a re-synchronising anchor may start, when searching
/// from `idx` within `window` records of a sequence of length `len`.
pub open spec fn search_end(len: int, idx: int, window: int) -> int {
    min_int(if len > FORK_MATCH_ANCHOR_RECORDS { len - FORK_MATCH_ANCHOR_RECORDS } else { 0 }, idx + window)
}

/// `(nc, np)` is one of the positions the re-synchronisation search looks at
/// from the mismatch at `(ci, pi)`.
pub open spec fn is_resync_candidate(
    child: Seq<u64>,
    parent: Seq<u64>,
    window: int,
    ci: int,
    pi: int,
    nc: int,
    np: int,
) -> bool {
    &&& ci <= nc <= search_end(child.len() as int, ci, window)
    &&& pi <= np <= search_end(parent.len() as int, pi, window)
    &&& !(nc == ci && np == pi)
}

/// Every position the search looks at has a full anchor on both sides (the
/// search compares anchors by slicing, so otherwise it would panic).
pub open spec fn resync_search_in_bounds(
    child: Seq<u64>,
    parent: Seq<u64>,
    window: int,
    ci: int,
    pi: int,
) -> bool {
    forall|nc: int, np: int|
        #![trigger is_resync_candidate(child, parent, window, ci, pi, nc, np)]
        is_resync_candidate(child, parent, window, ci, pi, nc, np) ==> nc
            + FORK_MATCH_ANCHOR_RECORDS <= child.len() && np + FORK_MATCH_ANCHOR_RECORDS
            <= parent.len()
}

/// A candidate whose next `FORK_MATCH_ANCHOR_RECORDS` records agree on both sides.
pub open spec fn is_resync_alignment(
    child: Seq<u64>,
    parent: Seq<u64>,
    window: int,
    ci: int,
    pi: int,
    nc: int,
    np: int,
) -> bool {
    &&& is_resync_candidate(child, parent, window, ci, pi, nc, np)
    &&& nc + FORK_MATCH_ANCHOR_RECORDS <= child.len()
    &&& np + FORK_MATCH_ANCHOR_RECORDS <= parent.len()
    &&& child.subrange(nc, nc + FORK_MATCH_ANCHOR_RECORDS) == parent.subrange(
        np,
        np + FORK_MATCH_ANCHOR_RECORDS,
    )
}

/// Records skipped on both sides (saturating, as the search counts them).
pub open spec fn skip_cost(ci: int, pi: int, nc: int, np: int) -> int {
    min_int((nc - ci) + (np - pi), usize::MAX as int)
}

/// Alignment `(nc, np)` is preferred to `(mc, mp)`: fewer skipped records,
/// then the earlier child position, then the earlier parent position.
pub open spec fn resync_preferred(ci: int, pi: int, nc: int, np: int, mc: int, mp: int) -> bool {
    ||| skip_cost(ci, pi, nc, np) < skip_cost(ci, pi, mc, mp)
    ||| (skip_cost(ci, pi, nc, np) == skip_cost(ci, pi, mc, mp) && nc < mc)
    ||| (skip_cost(ci, pi, nc, np) == skip_cost(ci, pi, mc, mp) && nc == mc && np < mp)
}

/// The alignment the search settles on: no other alignment is preferred to it.
pub open spec fn is_best_resync(
    child: Seq<u64>,
    parent: Seq<u64>,
    window: int,
    ci: int,
    pi: int,
    nc: int,
    np: int,
) -> bool {
    &&& is_resync_alignment(child, parent, window, ci, pi, nc, np)
    &&& forall|mc: int, mp: int|
        is_resync_alignment(child, parent, window, ci, pi, mc, mp) ==> !resync_preferred(
            ci,
            pi,
            mc,
            mp,
            nc,
            np,
        )
}

/// How far a child record stream follows its parent's from `(ci, pi)`:
/// equal records advance both sides; at a mismatch the walk jumps to the best
/// re-synchronising alignment, and stops where there is none. `None` stands
/// for a walk whose search would slice past the end of a stream.
pub open spec fn boundary_walk(child: Seq<u64>, parent: Seq<u64>, window: int, ci: int, pi: int) -> Option<
    (int, int),
>
    decreases child.len() + parent.len() - ci - pi,
    when 0 <= ci <= child.len() && 0 <= pi <= parent.len()
{
    if ci < child.len() && pi < parent.len() {
        if child[ci] == parent[pi] {
            boundary_walk(child, parent, window, ci + 1, pi + 1)
        } else if !resync_search_in_bounds(child, parent, window, ci, pi) {
            None
        } else if exists|nc: int, np: int| is_best_resync(child, parent, window, ci, pi, nc, np) {
            let (nc, np) = choose|nc: int, np: int|
                is_best_resync(child, parent, window, ci, pi, nc, np);
            boundary_walk(child, parent, window, nc, np)
        } else {
            Some((ci, pi))
        }
    } else {
        Some((ci, pi))
    }
}

proof fn lemma_resync_preferred_transitive(
    ci: int,
    pi: int,
    a: int,
    b: int,
    c: int,
    d: int,
    e: int,
    f: int,
)
    requires
        resync_preferred(ci, pi, a, b, c, d),
        resync_preferred(ci, pi, c, d, e, f),
    ensures
        resync_preferred(ci, pi, a, b, e, f),
{
}

proof fn lemma_best_resync_unique(
    child: Seq<u64>,
    parent: Seq<u64>,
    window: int,
    ci: int,
    pi: int,
    a: int,
    b: int,
    c: int,
    d: int,
)
    requires
        is_best_resync(child, parent, window, ci, pi, a, b),
        is_best_resync(child, parent, window, ci, pi, c, d),
    ensures
        a == c && b == d,
{
    assert(!resync_preferred(ci, pi, a, b, c, d));
    assert(!resync_preferred(ci, pi, c, d, a, b));
}

/// Whether the `FORK_MATCH_ANCHOR_RECORDS` records starting at `nc` in the
/// child equal those starting at `np` in the parent.
fn anchors_equal(child: &[u64], parent: &[u64], nc: usize, np: usize) -> (r: bool)
    requires
        nc + FORK_MATCH_ANCHOR_RECORDS <= child@.len(),
        np + FORK_MATCH_ANCHOR_RECORDS <= parent@.len(),
    ensures
        r == (child@.subrange(nc as int, nc + FORK_MATCH_ANCHOR_RECORDS) == parent@.subrange(
            np as int,
            np + FORK_MATCH_ANCHOR_RECORDS,
        )),
{
    let ghost a = child@.subrange(nc as int, nc + FORK_MATCH_ANCHOR_RECORDS);
    let ghost b = parent@.subrange(np as int, np + FORK_MATCH_ANCHOR_RECORDS);
    let mut t: usize = 0;
    while t < FORK_MATCH_ANCHOR_RECORDS
        invariant
            child@.len() == child.len(),
            parent@.len() == parent.len(),
            nc + FORK_MATCH_ANCHOR_RECORDS <= child@.len(),
            np + FORK_MATCH_ANCHOR_RECORDS <= parent@.len(),
            a == child@.subrange(nc as int, nc + FORK_MATCH_ANCHOR_RECORDS),
            b == parent@.subrange(np as int, np + FORK_MATCH_ANCHOR_RECORDS),
            t <= FORK_MATCH_ANCHOR_RECORDS,
            forall|u: int| 0 <= u < t ==> #[trigger] a[u] == b[u],
        decreases FORK_MATCH_ANCHOR_RECORDS - t,
    {
        assert(a[t as int] == child@[nc + t]);
        assert(b[t as int] == parent@[np + t]);
        if child[nc + t] != parent[np + t] {
            assert(a[t as int] != b[t as int]);
            return false;
        }
        t = t + 1;
    }
    assert(a =~= b);
    true
}

/// Where the child and parent record streams stop following each other:
/// `(child position, parent position)`.
pub fn matching_record_boundary(child: &[u64], parent: &[u64], resync_window: usize) -> (r: (
    usize,
    usize,
))
    requires
        boundary_walk(child@, parent@, resync_window as int, 0, 0) is Some,
    ensures
        boundary_walk(child@, parent@, resync_window as int, 0, 0) == Some(
            (r.0 as int, r.1 as int),
        ),
{
    let ghost cs = child@;
    let ghost ps = parent@;
    let ghost w = resync_window as int;
    let ghost result = boundary_walk(cs, ps, w, 0, 0);
    let mut child_index: usize = 0;
    let mut parent_index: usize = 0;
    while child_index < child.len() && parent_index < parent.len()
        invariant
            cs == child@,
            ps == parent@,
            w == resync_window as int,
            child_index <= cs.len(),
            parent_index <= ps.len(),
            result is Some,
            boundary_walk(cs, ps, w, child_index as int, parent_index as int) == result,
        ensures
            result == Some((child_index as int, parent_index as int)),
        decreases cs.len() + ps.len() - child_index - parent_index,
    {
        if child[child_index] == parent[parent_index] {
            child_index = child_index + 1;
            parent_index = parent_index + 1;
            continue;
        }
        let ci = child_index;
        let pi = parent_index;
        assert(resync_search_in_bounds(cs, ps, w, ci as int, pi as int));
        let child_search_end = {
            let a = child.len().saturating_sub(FORK_MATCH_ANCHOR_RECORDS);
            let b = ci.saturating_add(resync_window);
            if a <= b {
                a
            } else {
                b
            }
        };
        let parent_search_end = {
            let a = parent.len().saturating_sub(FORK_MATCH_ANCHOR_RECORDS);
            let b = pi.saturating_add(resync_window);
            if a <= b {
                a
            } else {
                b
            }
        };
        assert(child_search_end as int == search_end(cs.len() as int, ci as int, w));
        assert(parent_search_end as int == search_end(ps.len() as int, pi as int, w));
        // best alignment found so far: (skip cost, child position, parent position)
        let mut best: Option<(usize, usize, usize)> = None;
        let mut next_child = ci;
        while next_child <= child_search_end
            invariant
                cs == child@,
                ps == parent@,
                w == resync_window as int,
                ci < cs.len(),
                pi < ps.len(),
                child_search_end as int == search_end(cs.len() as int, ci as int, w),
                parent_search_end as int == search_end(ps.len() as int, pi as int, w),
                resync_search_in_bounds(cs, ps, w, ci as int, pi as int),
                ci <= next_child,
                next_child <= child_search_end + 1 || next_child == ci,
                child_search_end < cs.len(),
                cs.len() == child.len(),
                ps.len() == parent.len(),
                best is None ==> forall|mc: int, mp: int|
                    ci <= mc < next_child ==> !is_resync_alignment(cs, ps, w, ci as int, pi as int, mc, mp),
                best matches Some((k, bc, bp)) ==> {
                    &&& is_resync_alignment(cs, ps, w, ci as int, pi as int, bc as int, bp as int)
                    &&& bc < next_child
                    &&& k as int == skip_cost(ci as int, pi as int, bc as int, bp as int)
                    &&& forall|mc: int, mp: int|
                        ci <= mc < next_child && is_resync_alignment(cs, ps, w, ci as int, pi as int, mc, mp)
                            ==> !resync_preferred(ci as int, pi as int, mc, mp, bc as int, bp as int)
                },
            decreases child_search_end + 1 - next_child,
        {
            let mut next_parent = pi;
            while next_parent <= parent_search_end
                invariant
                    cs == child@,
                    ps == parent@,
                    w == resync_window as int,
                    ci < cs.len(),
                    pi < ps.len(),
                    child_search_end as int == search_end(cs.len() as int, ci as int, w),
                    parent_search_end as int == search_end(ps.len() as int, pi as int, w),
                    resync_search_in_bounds(cs, ps, w, ci as int, pi as int),
                    ci <= next_child <= child_search_end,
                    pi <= next_parent,
                    next_parent <= parent_search_end + 1 || next_parent == pi,
                    parent_search_end < ps.len(),
                    cs.len() == child.len(),
                    ps.len() == parent.len(),
                    best is None ==> forall|mc: int, mp: int|
                        (ci <= mc < next_child || (mc == next_child && pi <= mp < next_parent))
                            ==> !is_resync_alignment(cs, ps, w, ci as int, pi as int, mc, mp),
                    best matches Some((k, bc, bp)) ==> {
                        &&& is_resync_alignment(cs, ps, w, ci as int, pi as int, bc as int, bp as int)
                        &&& (bc < next_child || (bc == next_child && bp < next_parent))
                        &&& k as int == skip_cost(ci as int, pi as int, bc as int, bp as int)
                        &&& forall|mc: int, mp: int|
                            (ci <= mc < next_child || (mc == next_child && pi <= mp < next_parent))
                                && is_resync_alignment(cs, ps, w, ci as int, pi as int, mc, mp)
                                ==> !resync_preferred(ci as int, pi as int, mc, mp, bc as int, bp as int)
                    },
                decreases parent_search_end + 1 - next_parent,
            {
                if !(next_child == ci && next_parent == pi) {
                    assert(is_resync_candidate(
                        cs,
                        ps,
                        w,
                        ci as int,
                        pi as int,
                        next_child as int,
                        next_parent as int,
                    ));
                    assert(next_child + FORK_MATCH_ANCHOR_RECORDS <= cs.len());
                    assert(next_parent + FORK_MATCH_ANCHOR_RECORDS <= ps.len());
                    let same = anchors_equal(child, parent, next_child, next_parent);
                    if same {
                        let child_skip = next_child - ci;
                        let parent_skip = next_parent - pi;
                        let cost = child_skip.saturating_add(parent_skip);
                        let better = match best {
                            None => true,
                            Some((k, bc, bp)) => cost < k || (cost == k && next_child < bc) || (
                            cost == k && next_child == bc && next_parent < bp),
                        };
                        assert(cost as int == skip_cost(
                            ci as int,
                            pi as int,
                            next_child as int,
                            next_parent as int,
                        ));
                        let ghost old_best = best;
                        if better {
                            best = Some((cost, next_child, next_parent));
                            proof {
                                if let Some((ok, obc, obp)) = old_best {
                                    assert(resync_preferred(
                                        ci as int,
                                        pi as int,
                                        next_child as int,
                                        next_parent as int,
                                        obc as int,
                                        obp as int,
                                    ));
                                    assert forall|mc: int, mp: int|
                                        (ci <= mc < next_child || (mc == next_child && pi <= mp
                                            < next_parent)) && is_resync_alignment(
                                            cs,
                                            ps,
                                            w,
                                            ci as int,
                                            pi as int,
                                            mc,
                                            mp,
                                        ) implies !resync_preferred(
                                        ci as int,
                                        pi as int,
                                        mc,
                                        mp,
                                        next_child as int,
                                        next_parent as int,
                                    ) by {
                                        if resync_preferred(
                                            ci as int,
                                            pi as int,
                                            mc,
                                            mp,
                                            next_child as int,
                                            next_parent as int,
                                        ) {
                                            lemma_resync_preferred_transitive(
                                                ci as int,
                                                pi as int,
                                                mc,
                                                mp,
                                                next_child as int,
                                                next_parent as int,
                                                obc as int,
                                                obp as int,
                                            );
                                        }
                                    }
                                }
                            }
                        }
                    }
                }
                assert(best is None ==> !is_resync_alignment(
                    cs,
                    ps,
                    w,
                    ci as int,
                    pi as int,
                    next_child as int,
                    next_parent as int,
                ));
                let ghost old_np = next_parent;
                next_parent = next_parent + 1;
                proof {
                    if best is None {
                        assert forall|mc: int, mp: int|
                            (ci <= mc < next_child || (mc == next_child && pi <= mp < next_parent))
                                implies !is_resync_alignment(cs, ps, w, ci as int, pi as int, mc, mp) by {
                            if mc == next_child && mp == old_np {
                            }
                        }
                    }
                }
            }
            next_child = next_child + 1;
        }
        proof {
            assert forall|mc: int, mp: int|
                is_resync_alignment(cs, ps, w, ci as int, pi as int, mc, mp) implies ci <= mc
                < next_child by {}
        }
        match best {
            None => {
                assert(!exists|nc: int, np: int|
                    is_best_resync(cs, ps, w, ci as int, pi as int, nc, np));
                assert(boundary_walk(cs, ps, w, ci as int, pi as int) == Some((ci as int, pi as int)));
                break ;
            },
            Some((_, bc, bp)) => {
                assert(is_best_resync(cs, ps, w, ci as int, pi as int, bc as int, bp as int));
                let ghost chosen = choose|nc: int, np: int|
                    is_best_resync(cs, ps, w, ci as int, pi as int, nc, np);
                proof {
                    lemma_best_resync_unique(
                        cs,
                        ps,
                        w,
                        ci as int,
                        pi as int,
                        bc as int,
                        bp as int,
                        chosen.0,
                        chosen.1,
                    );
                }
                child_index = bc;
                parent_index = bp;
            },
        }
    }
    (child_index, parent_index)
}

/// Number of child records that follow the parent's stream.
pub fn matching_record_prefix(child: &[u64], parent: &[u64], resync_window: usize) -> (r: usize)
    requires
        boundary_walk(child@, parent@, resync_window as int, 0, 0) is Some,
    ensures
        boundary_walk(child@, parent@, resync_window as int, 0, 0) matches Some((c, _)) && c
            == r,
{
    matching_record_boundary(child, parent, resync_window).0
}


/// What the lineage analysis knows of one session file.
#[derive(Clone, Debug)]
pub struct LineageNode {
    pub thread_id: String,
    /// The session this one was forked from (`forked_from_id`): its records
    /// were copied into this one.
    pub history_parent_id: Option<String>,
    /// The agent that spawned this session (`parent_thread_id`); it does not
    /// imply copied history and is not followed.
    pub agent_parent_id: Option<String>,
    /// The file's own name agrees with the session id inside it.
    pub identity_trusted: bool,
    pub record_hashes: Vec<u64>,
    pub record_resync_window: usize,
}

/// The lineage analysis' view of a node: plain sequences.
#[verifier::ext_equal]
pub struct LineageView {
    pub thread_id: Seq<char>,
    pub history_parent_id: Option<Seq<char>>,
    pub identity_trusted: bool,
    pub record_hashes: Seq<u64>,
    pub record_resync_window: nat,
}

pub open spec fn lineage_view(n: LineageNode) -> LineageView {
    LineageView {
        thread_id: n.thread_id@,
        history_parent_id: match n.history_parent_id {
            Some(p) => Some(p@),
            None => None,
        },
        identity_trusted: n.identity_trusted,
        record_hashes: n.record_hashes@,
        record_resync_window: n.record_resync_window as nat,
    }
}

pub open spec fn lineage_views(nodes: Seq<LineageNode>) -> Seq<LineageView> {
    nodes.map_values(|n: LineageNode| lineage_view(n))
}

/// Indices below `n` of the nodes whose thread id is `id`, in order.
pub open spec fn nodes_with_id(nodes: Seq<LineageView>, id: Seq<char>, n: int) -> Seq<int>
    decreases n,
{
    if n <= 0 {
        seq![]
    } else if nodes[n - 1].thread_id == id {
        nodes_with_id(nodes, id, n - 1).push(n - 1)
    } else {
        nodes_with_id(nodes, id, n - 1)
    }
}

/// Indices below `n` of the nodes with thread id `id` that are trusted and not `child`.
pub open spec fn trusted_parents(nodes: Seq<LineageView>, child: int, id: Seq<char>, n: int) -> Seq<
    int,
>
    decreases n,
{
    if n <= 0 {
        seq![]
    } else if nodes[n - 1].thread_id == id && n - 1 != child && nodes[n - 1].identity_trusted {
        trusted_parents(nodes, child, id, n - 1).push(n - 1)
    } else {
        trusted_parents(nodes, child, id, n - 1)
    }
}

/// The session a node was forked from, when exactly one file carries that id.
pub open spec fn lineage_step(nodes: Seq<LineageView>, i: int) -> Option<int> {
    match nodes[i].history_parent_id {
        None => None,
        Some(p) => {
            let c = nodes_with_id(nodes, p, nodes.len() as int);
            if c.len() == 1 {
                Some(c[0])
            } else {
                None
            }
        },
    }
}

/// The node reached from `start` after following `k` fork edges.
pub open spec fn lineage_iter(nodes: Seq<LineageView>, start: int, k: nat) -> Option<int>
    decreases k,
{
    if k == 0 {
        Some(start)
    } else {
        match lineage_iter(nodes, start, (k - 1) as nat) {
            Some(i) => lineage_step(nodes, i),
            None => None,
        }
    }
}

/// Following fork edges from `start` never ends.
pub open spec fn lineage_cycles(nodes: Seq<LineageView>, start: int) -> bool {
    forall|k: nat| #[trigger] lineage_iter(nodes, start, k) is Some
}

proof fn lemma_nodes_with_id_props(nodes: Seq<LineageView>, id: Seq<char>, n: int)
    requires
        0 <= n <= nodes.len(),
    ensures
        forall|t: int|
            0 <= t < nodes_with_id(nodes, id, n).len() ==> 0 <= #[trigger] nodes_with_id(
                nodes,
                id,
                n,
            )[t] < n && nodes[nodes_with_id(nodes, id, n)[t]].thread_id == id,
    decreases n,
{
    if n > 0 {
        lemma_nodes_with_id_props(nodes, id, n - 1);
    }
}

proof fn lemma_iter_shift(nodes: Seq<LineageView>, start: int, a: nat, b: nat, m: nat)
    requires
        lineage_iter(nodes, start, a) is Some,
        lineage_iter(nodes, start, a) == lineage_iter(nodes, start, b),
    ensures
        lineage_iter(nodes, start, a + m) == lineage_iter(nodes, start, b + m),
    decreases m,
{
    if m > 0 {
        lemma_iter_shift(nodes, start, a, b, (m - 1) as nat);
        assert(lineage_iter(nodes, start, a + m) == match lineage_iter(
            nodes,
            start,
            (a + m - 1) as nat,
        ) {
            Some(i) => lineage_step(nodes, i),
            None => None,
        });
        assert(lineage_iter(nodes, start, b + m) == match lineage_iter(
            nodes,
            start,
            (b + m - 1) as nat,
        ) {
            Some(i) => lineage_step(nodes, i),
            None => None,
        });
        assert((a + m - 1) as nat == a + (m - 1) as nat);
        assert((b + m - 1) as nat == b + (m - 1) as nat);
    }
}

proof fn lemma_iter_none_stays(nodes: Seq<LineageView>, start: int, a: nat, b: nat)
    requires
        lineage_iter(nodes, start, a) is None,
        a <= b,
    ensures
        lineage_iter(nodes, start, b) is None,
    decreases b - a,
{
    if a < b {
        lemma_iter_none_stays(nodes, start, a, (b - 1) as nat);
    }
}

proof fn lemma_periodic_all_some(nodes: Seq<LineageView>, start: int, a: nat, b: nat, k: nat)
    requires
        a < b,
        lineage_iter(nodes, start, a) is Some,
        lineage_iter(nodes, start, a) == lineage_iter(nodes, start, b),
        forall|j: nat| j <= b ==> (#[trigger] lineage_iter(nodes, start, j)) is Some,
    ensures
        lineage_iter(nodes, start, k) is Some,
    decreases k,
{
    if k > b {
        let m = (k - b) as nat;
        lemma_iter_shift(nodes, start, a, b, m);
        assert(b + m == k);
        lemma_periodic_all_some(nodes, start, a, b, (a + m) as nat);
    }
}

/// Indices of the nodes whose thread id is `id`.
fn nodes_with_thread_id(nodes: &[LineageNode], id: &String) -> (r: Vec<usize>)
    ensures
        r@.map_values(|x: usize| x as int) == nodes_with_id(lineage_views(nodes@), id@, lineage_views(nodes@).len() as int),
{
    let mut r: Vec<usize> = Vec::new();
    let mut i: usize = 0;
    while i < nodes.len()
        invariant
            i <= lineage_views(nodes@).len(),
            r@.map_values(|x: usize| x as int) == nodes_with_id(lineage_views(nodes@), id@, i as int),
        decreases lineage_views(nodes@).len() - i,
    {
        if nodes[i].thread_id == *id {
            r.push(i);
            assert(r@.map_values(|x: usize| x as int) =~= nodes_with_id(lineage_views(nodes@), id@, i as int).push(
                i as int,
            ));
        }
        i = i + 1;
    }
    r
}

/// The node `i` was forked from, when exactly one file carries that id.
fn lineage_successor(nodes: &[LineageNode], i: usize) -> (r: Option<usize>)
    requires
        i < lineage_views(nodes@).len(),
    ensures
        r matches Some(j) ==> lineage_step(lineage_views(nodes@), i as int) == Some(j as int),
        r is None ==> lineage_step(lineage_views(nodes@), i as int) is None,
{
    match &nodes[i].history_parent_id {
        None => None,
        Some(parent_id) => {
            let candidates = nodes_with_thread_id(nodes, parent_id);
            assert(candidates@.len() == nodes_with_id(lineage_views(nodes@), parent_id@, lineage_views(nodes@).len() as int).len());
            if candidates.len() != 1 {
                None
            } else {
                assert(candidates@.map_values(|x: usize| x as int)[0] == candidates@[0] as int);
                Some(candidates[0])
            }
        },
    }
}

/// Whether following fork edges (`forked_from_id`) from `start_index` comes
/// back to a node already visited.
pub fn lineage_has_cycle(start_index: usize, nodes: &[LineageNode]) -> (r: bool)
    requires
        start_index < lineage_views(nodes@).len(),
    ensures
        r == lineage_cycles(lineage_views(nodes@), start_index as int),
{
    let n = nodes.len();
    let mut visited: Vec<bool> = Vec::new();
    let mut z: usize = 0;
    while z < n
        invariant
            z <= n == lineage_views(nodes@).len(),
            visited@.len() == z,
            forall|j: int| 0 <= j < z ==> !visited@[j],
        decreases n - z,
    {
        visited.push(false);
        z = z + 1;
    }
    let ghost mut vset: Set<int> = Set::empty();
    let ghost mut steps: nat = 0;
    let mut current_index = start_index;
    proof {
        lemma_int_range(0, n as int);
    }
    loop
        invariant
            n == lineage_views(nodes@).len(),
            visited@.len() == n,
            current_index < n,
            lineage_iter(lineage_views(nodes@), start_index as int, steps) == Some(current_index as int),
            forall|j: int| 0 <= j < n ==> (visited@[j] <==> vset.contains(j)),
            forall|j: int|
                vset.contains(j) ==> exists|k: nat|
                    k < steps && #[trigger] lineage_iter(lineage_views(nodes@), start_index as int, k) == Some(j),
            forall|k: nat|
                k < steps ==> (#[trigger] lineage_iter(lineage_views(nodes@), start_index as int, k) matches Some(
                    j,
                ) && vset.contains(j)),
            vset.subset_of(set_int_range(0, n as int)),
            set_int_range(0, n as int).finite(),
            set_int_range(0, n as int).len() == n,
            vset.finite(),
            vset.len() == steps,
        decreases n - steps,
    {
        if visited[current_index] {
            proof {
                assert(vset.contains(current_index as int));
                let k = choose|k: nat|
                    k < steps && #[trigger] lineage_iter(lineage_views(nodes@), start_index as int, k) == Some(
                        current_index as int,
                    );
                assert forall|j: nat| j <= steps implies (#[trigger] lineage_iter(
                    lineage_views(nodes@),
                    start_index as int,
                    j,
                )) is Some by {
                    if j < steps {
                        assert(lineage_iter(lineage_views(nodes@), start_index as int, j) matches Some(_));
                    }
                }
                assert forall|kk: nat| #[trigger] lineage_iter(lineage_views(nodes@), start_index as int, kk) is Some by {
                    lemma_periodic_all_some(lineage_views(nodes@), start_index as int, k, steps, kk);
                }
            }
            return true;
        }
        visited.set(current_index, true);
        proof {
            let old_set = vset;
            vset = vset.insert(current_index as int);
            lemma_len_subset(vset, set_int_range(0, n as int));
            assert forall|j: int| vset.contains(j) implies exists|k: nat|
                k < steps + 1 && #[trigger] lineage_iter(lineage_views(nodes@), start_index as int, k) == Some(j) by {
                if j == current_index {
                    assert(lineage_iter(lineage_views(nodes@), start_index as int, steps) == Some(j));
                } else {
                    assert(old_set.contains(j));
                }
            }
            steps = steps + 1;
        }
        match lineage_successor(nodes, current_index) {
            None => {
                proof {
                    assert(lineage_iter(lineage_views(nodes@), start_index as int, steps) is None);
                }
                return false;
            },
            Some(next) => {
                proof {
                    let m = nodes_with_id(
                        lineage_views(nodes@),
                        lineage_views(nodes@)[current_index as int].history_parent_id.unwrap(),
                        n as int,
                    );
                    lemma_nodes_with_id_props(
                        lineage_views(nodes@),
                        lineage_views(nodes@)[current_index as int].history_parent_id.unwrap(),
                        n as int,
                    );
                    assert(m[0] == next);
                }
                current_index = next;
            },
        }
    }
}


/// Which leading records of a session file it copied from the session it was
/// forked from, or that this could not be decided.
#[derive(Clone, Copy, Debug, PartialEq, Eq, Structural)]
pub struct SessionOwnership {
    pub inherited_record_end: usize,
    pub unresolved: bool,
}

pub open spec fn unresolved_ownership() -> SessionOwnership {
    SessionOwnership { inherited_record_end: 0, unresolved: true }
}

/// How many of the child's records after its header follow the parent's
/// stream when the parent is read from `start`.
pub open spec fn prefix_from(tail: Seq<u64>, parent: Seq<u64>, start: int, window: int) -> Option<(int, int)> {
    boundary_walk(tail, parent.subrange(start, parent.len() as int), window, 0, 0)
}

/// Ownership of node `i`. `None` marks the inputs on which the analysis would
/// slice past the end of a record list.
pub open spec fn ownership_of(nodes: Seq<LineageView>, i: int) -> Option<SessionOwnership> {
    let n = nodes.len() as int;
    let c = nodes[i];
    if !c.identity_trusted {
        Some(unresolved_ownership())
    } else {
        match c.history_parent_id {
            None => Some(SessionOwnership { inherited_record_end: 0, unresolved: false }),
            Some(pid) => if nodes_with_id(nodes, pid, n).len() == 0 {
                Some(unresolved_ownership())
            } else {
                let tp = trusted_parents(nodes, i, pid, n);
                if tp.len() != 1 || lineage_cycles(nodes, i) {
                    Some(unresolved_ownership())
                } else if c.record_hashes.len() == 0 {
                    None
                } else {
                    let ph = nodes[tp[0]].record_hashes;
                    let tail = c.record_hashes.drop_first();
                    let w = c.record_resync_window as int;
                    let p0 = if ph.len() > 0 {
                        prefix_from(tail, ph, 0, w)
                    } else {
                        Some((0int, 0int))
                    };
                    let p1 = if ph.len() > 1 {
                        prefix_from(tail, ph, 1, w)
                    } else {
                        Some((0int, 0int))
                    };
                    if p0 is None || p1 is None {
                        None
                    } else {
                        let inherited = if p0.unwrap().0 >= p1.unwrap().0 {
                            p0.unwrap().0
                        } else {
                            p1.unwrap().0
                        };
                        if inherited == 0 {
                            Some(unresolved_ownership())
                        } else {
                            Some(
                                SessionOwnership {
                                    inherited_record_end: min_int(
                                        inherited + 1,
                                        usize::MAX as int,
                                    ) as usize,
                                    unresolved: false,
                                },
                            )
                        }
                    }
                }
            },
        }
    }
}

proof fn lemma_boundary_walk_bounded(child: Seq<u64>, parent: Seq<u64>, w: int, ci: int, pi: int)
    requires
        0 <= ci <= child.len(),
        0 <= pi <= parent.len(),
        boundary_walk(child, parent, w, ci, pi) is Some,
    ensures
        boundary_walk(child, parent, w, ci, pi) matches Some((a, b)) && ci <= a <= child.len() && pi
            <= b <= parent.len(),
    decreases child.len() + parent.len() - ci - pi,
{
    if ci < child.len() && pi < parent.len() {
        if child[ci] == parent[pi] {
            lemma_boundary_walk_bounded(child, parent, w, ci + 1, pi + 1);
        } else if resync_search_in_bounds(child, parent, w, ci, pi) {
            if exists|nc: int, np: int| is_best_resync(child, parent, w, ci, pi, nc, np) {
                let (nc, np) = choose|nc: int, np: int| is_best_resync(child, parent, w, ci, pi, nc, np);
                lemma_boundary_walk_bounded(child, parent, w, nc, np);
            }
        }
    }
}

/// A session's copied history never reaches past its own records: the
/// records it inherited, with its own header, are at most all it has.
pub proof fn law_inherited_records_within_session(nodes: Seq<LineageView>, i: int)
    requires
        0 <= i < nodes.len(),
        ownership_of(nodes, i) is Some,
    ensures
        ownership_of(nodes, i).unwrap().inherited_record_end <= nodes[i].record_hashes.len(),
{
    let n = nodes.len() as int;
    let c = nodes[i];
    if c.identity_trusted && c.history_parent_id is Some && c.record_hashes.len() > 0 {
        let pid = c.history_parent_id.unwrap();
        if nodes_with_id(nodes, pid, n).len() != 0 {
            let tp = trusted_parents(nodes, i, pid, n);
            if tp.len() == 1 && !lineage_cycles(nodes, i) {
                let ph = nodes[tp[0]].record_hashes;
                let tail = c.record_hashes.drop_first();
                let w = c.record_resync_window as int;
                if ph.len() > 0 {
                    lemma_boundary_walk_bounded(tail, ph.subrange(0, ph.len() as int), w, 0, 0);
                }
                if ph.len() > 1 {
                    lemma_boundary_walk_bounded(tail, ph.subrange(1, ph.len() as int), w, 0, 0);
                }
            }
        }
    }
}

/// The trusted files (other than `child`) whose thread id is `id`.
fn trusted_parent_indices(nodes: &[LineageNode], child: usize, id: &String) -> (r: Vec<usize>)
    ensures
        r@.map_values(|x: usize| x as int) == trusted_parents(lineage_views(nodes@), child as int, id@, lineage_views(nodes@).len() as int),
        forall|t: int| 0 <= t < r@.len() ==> #[trigger] r@[t] < lineage_views(nodes@).len(),
{
    let mut r: Vec<usize> = Vec::new();
    let mut i: usize = 0;
    while i < nodes.len()
        invariant
            i <= lineage_views(nodes@).len(),
            r@.map_values(|x: usize| x as int) == trusted_parents(lineage_views(nodes@), child as int, id@, i as int),
            forall|t: int| 0 <= t < r@.len() ==> #[trigger] r@[t] < i,
        decreases lineage_views(nodes@).len() - i,
    {
        if nodes[i].thread_id == *id && i != child && nodes[i].identity_trusted {
            r.push(i);
            assert(r@.map_values(|x: usize| x as int) =~= trusted_parents(lineage_views(nodes@), child as int, id@, i as int).push(
                i as int,
            ));
        }
        i = i + 1;
    }
    r
}

/// Ownership of one node: how many leading records it copied from the session
/// it was forked from (plus its own header), or unresolved when the fork
/// parent is missing, ambiguous, untrusted, part of a cycle, or shares no
/// records with it.
fn session_ownership(nodes: &[LineageNode], child_index: usize) -> (r: SessionOwnership)
    requires
        child_index < lineage_views(nodes@).len(),
        ownership_of(lineage_views(nodes@), child_index as int) is Some,
    ensures
        ownership_of(lineage_views(nodes@), child_index as int) == Some(r),
{
    let child = &nodes[child_index];
    if !child.identity_trusted {
        return SessionOwnership { inherited_record_end: 0, unresolved: true };
    }
    let history_parent_id = match &child.history_parent_id {
        None => {
            return SessionOwnership { inherited_record_end: 0, unresolved: false };
        },
        Some(id) => id,
    };
    let candidates = nodes_with_thread_id(nodes, history_parent_id);
    if candidates.len() == 0 {
        return SessionOwnership { inherited_record_end: 0, unresolved: true };
    }
    let trusted = trusted_parent_indices(nodes, child_index, history_parent_id);
    if trusted.len() != 1 || lineage_has_cycle(child_index, nodes) {
        return SessionOwnership { inherited_record_end: 0, unresolved: true };
    }
    assert(trusted@.map_values(|x: usize| x as int)[0] == trusted@[0] as int);
    let parent = &nodes[trusted[0]];
    let (_, child_tail) = child.record_hashes.as_slice().split_at(1);
    assert(child_tail@ =~= child.record_hashes@.drop_first());
    let ph = parent.record_hashes.as_slice();
    let window = child.record_resync_window;
    let mut inherited: usize = 0;
    if 0 < ph.len() {
        let (_, from0) = ph.split_at(0);
        assert(from0@ =~= ph@.subrange(0, ph@.len() as int));
        let v = matching_record_prefix(child_tail, from0, window);
        if v > inherited {
            inherited = v;
        }
    }
    if 1 < ph.len() {
        let (_, from1) = ph.split_at(1);
        let v = matching_record_prefix(child_tail, from1, window);
        if v > inherited {
            inherited = v;
        }
    }
    if inherited == 0 {
        return SessionOwnership { inherited_record_end: 0, unresolved: true };
    }
    SessionOwnership { inherited_record_end: inherited.saturating_add(1), unresolved: false }
}

/// Ownership of every node, in order.
pub fn derive_session_ownerships(nodes: &[LineageNode]) -> (r: Vec<SessionOwnership>)
    requires
        forall|i: int| 0 <= i < lineage_views(nodes@).len() ==> #[trigger] ownership_of(lineage_views(nodes@), i) is Some,
    ensures
        r@.len() == lineage_views(nodes@).len(),
        forall|i: int| 0 <= i < lineage_views(nodes@).len() ==> ownership_of(lineage_views(nodes@), i) == Some(#[trigger] r@[i]),
{
    let mut r: Vec<SessionOwnership> = Vec::new();
    let mut i: usize = 0;
    while i < nodes.len()
        invariant
            i <= lineage_views(nodes@).len(),
            r@.len() == i,
            forall|i: int| 0 <= i < lineage_views(nodes@).len() ==> #[trigger] ownership_of(lineage_views(nodes@), i) is Some,
            forall|j: int| 0 <= j < i ==> ownership_of(lineage_views(nodes@), j) == Some(#[trigger] r@[j]),
        decreases lineage_views(nodes@).len() - i,
    {
        r.push(session_ownership(nodes, i));
        i = i + 1;
    }
    r
}


/// What was read from one rollout log for the usage snapshot.
#[derive(Clone, Debug)]
pub struct ParsedTokenSessionFile {
    pub session_id: String,
    pub payload_session_id: Option<String>,
    pub filename_session_id: Option<String>,
    pub parent_session_id: Option<String>,
    pub parent_thread_id: Option<String>,
    pub identity_trusted: bool,
    pub header_checked: bool,
    pub record_hashes: Vec<u64>,
    pub events: Vec<ParsedTokenEvent>,
    pub latest_session: Option<CodexTokenSessionUsage>,
}

/// Token usage over the last day, 3 days, 7 days and 30 days, and the most
/// recently active session.
#[derive(Clone, Copy, Debug, PartialEq, Eq, Structural)]
pub struct CodexTokenUsageSnapshot {
    pub updated_at: i64,
    pub source_path_count: usize,
    pub failed_path_count: usize,
    pub unresolved_fork_count: usize,
    pub unresolved_usage_event_count: usize,
    pub event_count: usize,
    pub last_24h: CodexTokenTotals,
    pub last_3d: CodexTokenTotals,
    pub last_7d: CodexTokenTotals,
    pub last_30d: CodexTokenTotals,
    pub latest_session: Option<CodexTokenSessionUsage>,
}

/// `i64::saturating_sub`.
pub open spec fn sat_sub_i64(a: i64, b: int) -> i64 {
    if a - b < i64::MIN {
        i64::MIN
    } else {
        (a - b) as i64
    }
}

/// `i64::saturating_sub` for a non-negative subtrahend.
fn saturating_sub_i64(a: i64, b: i64) -> (r: i64)
    requires
        b >= 0,
    ensures
        r == sat_sub_i64(a, b as int),
{
    if a < i64::MIN + b {
        i64::MIN
    } else {
        a - b
    }
}

/// The lineage view of a parsed file.
pub open spec fn lineage_node_of(f: ParsedTokenSessionFile) -> LineageView {
    LineageView {
        thread_id: f.session_id@,
        history_parent_id: match f.parent_session_id {
            Some(p) => Some(p@),
            None => None,
        },
        identity_trusted: f.identity_trusted,
        record_hashes: f.record_hashes@,
        record_resync_window: FORK_MATCH_RESYNC_WINDOW as nat,
    }
}

pub open spec fn lineage_nodes_of(files: Seq<ParsedTokenSessionFile>) -> Seq<LineageView> {
    files.map_values(|f: ParsedTokenSessionFile| lineage_node_of(f))
}

/// Number of token events over all files.
pub open spec fn total_event_count(files: Seq<ParsedTokenSessionFile>) -> nat
    decreases files.len(),
{
    if files.len() == 0 {
        0
    } else {
        total_event_count(files.drop_last()) + files.last().events@.len()
    }
}

/// Adds one confirmed delta to the windows it falls into.
pub open spec fn snapshot_add_delta(s: CodexTokenUsageSnapshot, d: ConfirmedTokenDelta, now: i64) -> CodexTokenUsageSnapshot {
    CodexTokenUsageSnapshot {
        event_count: (s.event_count + 1) as usize,
        last_24h: if d.timestamp >= sat_sub_i64(now, DAY_SECONDS as int) {
            add_totals(s.last_24h, d.total)
        } else {
            s.last_24h
        },
        last_3d: if d.timestamp >= sat_sub_i64(now, 3 * DAY_SECONDS) {
            add_totals(s.last_3d, d.total)
        } else {
            s.last_3d
        },
        last_7d: if d.timestamp >= sat_sub_i64(now, 7 * DAY_SECONDS) {
            add_totals(s.last_7d, d.total)
        } else {
            s.last_7d
        },
        last_30d: if d.timestamp >= sat_sub_i64(now, 30 * DAY_SECONDS) {
            add_totals(s.last_30d, d.total)
        } else {
            s.last_30d
        },
        ..s
    }
}

pub open spec fn snapshot_add_deltas(s: CodexTokenUsageSnapshot, ds: Seq<ConfirmedTokenDelta>, now: i64) -> CodexTokenUsageSnapshot
    decreases ds.len(),
{
    if ds.len() == 0 {
        s
    } else {
        snapshot_add_delta(snapshot_add_deltas(s, ds.drop_last(), now), ds.last(), now)
    }
}

/// Folds one session file, given its ownership, into the snapshot.
pub open spec fn snapshot_add_session(
    s: CodexTokenUsageSnapshot,
    f: ParsedTokenSessionFile,
    own: SessionOwnership,
    now: i64,
) -> CodexTokenUsageSnapshot {
    if own.unresolved {
        CodexTokenUsageSnapshot { unresolved_fork_count: (s.unresolved_fork_count + 1) as usize, ..s }
    } else {
        let (ds, u) = confirmed_deltas(f.events@, own.inherited_record_end);
        let s0 = CodexTokenUsageSnapshot {
            unresolved_usage_event_count: (s.unresolved_usage_event_count + u) as usize,
            ..s
        };
        let s1 = snapshot_add_deltas(s0, ds, now);
        match session_of_deltas(ds) {
            Some(ls) => if s1.latest_session is None || ls.updated_at
                > s1.latest_session.unwrap().updated_at {
                CodexTokenUsageSnapshot { latest_session: Some(ls), ..s1 }
            } else {
                s1
            },
            None => s1,
        }
    }
}

pub open spec fn empty_snapshot(now: i64, source_path_count: usize, failed_path_count: usize) -> CodexTokenUsageSnapshot {
    CodexTokenUsageSnapshot {
        updated_at: now,
        source_path_count,
        failed_path_count,
        unresolved_fork_count: 0,
        unresolved_usage_event_count: 0,
        event_count: 0,
        last_24h: zero_totals(),
        last_3d: zero_totals(),
        last_7d: zero_totals(),
        last_30d: zero_totals(),
        latest_session: None,
    }
}

/// The snapshot after the first `k` files.
pub open spec fn snapshot_fold(
    files: Seq<ParsedTokenSessionFile>,
    k: int,
    now: i64,
    source_path_count: usize,
    failed_path_count: usize,
) -> CodexTokenUsageSnapshot
    decreases k,
{
    if k <= 0 {
        empty_snapshot(now, source_path_count, failed_path_count)
    } else {
        snapshot_add_session(
            snapshot_fold(files, k - 1, now, source_path_count, failed_path_count),
            files[k - 1],
            ownership_of(lineage_nodes_of(files), k - 1).unwrap(),
            now,
        )
    }
}

/// The files on which the analysis stays within the record lists.
pub open spec fn lineage_analysable(files: Seq<ParsedTokenSessionFile>) -> bool {
    forall|i: int| 0 <= i < files.len() ==> #[trigger] ownership_of(lineage_nodes_of(files), i) is Some
}

proof fn lemma_total_event_count_prefix(files: Seq<ParsedTokenSessionFile>, k: int)
    requires
        0 <= k <= files.len(),
    ensures
        total_event_count(files.subrange(0, k)) <= total_event_count(files),
    decreases files.len() - k,
{
    if k < files.len() {
        lemma_total_event_count_prefix(files, k + 1);
        assert(files.subrange(0, k + 1).drop_last() =~= files.subrange(0, k));
    } else {
        assert(files.subrange(0, k) =~= files);
    }
}

proof fn lemma_delta_result_bounded(evs: Seq<ParsedTokenEvent>, end: usize)
    ensures
        confirmed_deltas(evs, end).0.len() + confirmed_deltas(evs, end).1 <= evs.len(),
{
    lemma_delta_fold_bounded(evs, end, match inherited_baseline(evs, end) {
        Some(t) => t,
        None => zero_totals(),
    });
    lemma_counts_bounded(evs, end);
}

proof fn lemma_delta_fold_bounded(evs: Seq<ParsedTokenEvent>, end: usize, init: CodexTokenTotals)
    ensures
        delta_fold(evs, end, init).out.len() + delta_fold(evs, end, init).unresolved <= evs.len(),
    decreases evs.len(),
{
    if evs.len() > 0 {
        lemma_delta_fold_bounded(evs.drop_last(), end, init);
    }
}

proof fn lemma_fold_counts(
    files: Seq<ParsedTokenSessionFile>,
    k: int,
    now: i64,
    spc: usize,
    fpc: usize,
)
    requires
        0 <= k <= files.len(),
        total_event_count(files.subrange(0, k)) <= usize::MAX,
    ensures
        snapshot_fold(files, k, now, spc, fpc).event_count + snapshot_fold(
            files,
            k,
            now,
            spc,
            fpc,
        ).unresolved_usage_event_count <= total_event_count(files.subrange(0, k)),
        snapshot_fold(files, k, now, spc, fpc).unresolved_fork_count <= k,
    decreases k,
{
    if k > 0 {
        assert(files.subrange(0, k).drop_last() =~= files.subrange(0, k - 1));
        lemma_fold_counts(files, k - 1, now, spc, fpc);
        let f = files[k - 1];
        let own = ownership_of(lineage_nodes_of(files), k - 1).unwrap();
        lemma_delta_result_bounded(f.events@, own.inherited_record_end);
        let s = snapshot_fold(files, k - 1, now, spc, fpc);
        let (ds, u) = confirmed_deltas(f.events@, own.inherited_record_end);
        let s0 = CodexTokenUsageSnapshot {
            unresolved_usage_event_count: (s.unresolved_usage_event_count + u) as usize,
            ..s
        };
        lemma_add_deltas_counts(s0, ds, now);
    }
}

proof fn lemma_add_deltas_counts(s: CodexTokenUsageSnapshot, ds: Seq<ConfirmedTokenDelta>, now: i64)
    requires
        s.event_count + ds.len() <= usize::MAX,
    ensures
        snapshot_add_deltas(s, ds, now).event_count == s.event_count + ds.len(),
        snapshot_add_deltas(s, ds, now).unresolved_usage_event_count == s.unresolved_usage_event_count,
        snapshot_add_deltas(s, ds, now).unresolved_fork_count == s.unresolved_fork_count,
        snapshot_add_deltas(s, ds, now).latest_session == s.latest_session,
    decreases ds.len(),
{
    if ds.len() > 0 {
        lemma_add_deltas_counts(s, ds.drop_last(), now);
    }
}

/// Builds the usage snapshot: resolves fork lineage, turns each resolved
/// session's cumulative counters into confirmed deltas, and sums them into the
/// windows that end at `now`.
pub fn build_codex_token_usage_snapshot(
    files: &[ParsedTokenSessionFile],
    now: i64,
    source_path_count: usize,
    failed_path_count: usize,
) -> (r: CodexTokenUsageSnapshot)
    requires
        lineage_analysable(files@),
        total_event_count(files@) <= usize::MAX,
    ensures
        r == snapshot_fold(files@, files@.len() as int, now, source_path_count, failed_path_count),
{
    let mut snapshot = CodexTokenUsageSnapshot {
        updated_at: now,
        source_path_count,
        failed_path_count,
        unresolved_fork_count: 0,
        unresolved_usage_event_count: 0,
        event_count: 0,
        last_24h: CodexTokenTotals::zero(),
        last_3d: CodexTokenTotals::zero(),
        last_7d: CodexTokenTotals::zero(),
        last_30d: CodexTokenTotals::zero(),
        latest_session: None,
    };
    let last_24h_start = saturating_sub_i64(now, DAY_SECONDS);
    let last_3d_start = saturating_sub_i64(now, 3 * DAY_SECONDS);
    let last_7d_start = saturating_sub_i64(now, 7 * DAY_SECONDS);
    let last_30d_start = saturating_sub_i64(now, 30 * DAY_SECONDS);
    let mut nodes: Vec<LineageNode> = Vec::new();
    let mut i: usize = 0;
    while i < files.len()
        invariant
            i <= files@.len(),
            nodes@.len() == i,
            lineage_views(nodes@) == lineage_nodes_of(files@).subrange(0, i as int),
        decreases files@.len() - i,
    {
        let f = &files[i];
        let hashes = f.record_hashes.clone();
        assert(hashes@ =~= f.record_hashes@);
        let node = LineageNode {
            thread_id: f.session_id.clone(),
            history_parent_id: match &f.parent_session_id {
                Some(v) => Some(v.clone()),
                None => None,
            },
            agent_parent_id: match &f.parent_thread_id {
                Some(v) => Some(v.clone()),
                None => None,
            },
            identity_trusted: f.identity_trusted,
            record_hashes: hashes,
            record_resync_window: FORK_MATCH_RESYNC_WINDOW,
        };
        assert(lineage_view(node) =~= lineage_node_of(*f));
        let ghost old_nodes = nodes@;
        nodes.push(node);
        assert forall|j: int| 0 <= j < i + 1 implies #[trigger] lineage_views(nodes@)[j] == lineage_nodes_of(files@).subrange(0, i + 1)[j] by {
            if j < i {
                assert(nodes@[j] == old_nodes[j]);
                assert(lineage_views(old_nodes)[j] == lineage_nodes_of(files@).subrange(0, i as int)[j]);
            } else {
                assert(nodes@[j] == node);
            }
        }
        assert(lineage_views(nodes@) =~= lineage_nodes_of(files@).subrange(0, i + 1));
        i = i + 1;
    }
    assert(lineage_views(nodes@) =~= lineage_nodes_of(files@));
    let ownerships = derive_session_ownerships(nodes.as_slice());
    let mut k: usize = 0;
    while k < files.len()
        invariant
            k <= files@.len(),
            ownerships@.len() == files@.len(),
            lineage_views(nodes@) == lineage_nodes_of(files@),
            forall|i: int| 0 <= i < files@.len() ==> ownership_of(lineage_nodes_of(files@), i) == Some(#[trigger] ownerships@[i]),
            total_event_count(files@) <= usize::MAX,
            last_24h_start == sat_sub_i64(now, DAY_SECONDS as int),
            last_3d_start == sat_sub_i64(now, 3 * DAY_SECONDS),
            last_7d_start == sat_sub_i64(now, 7 * DAY_SECONDS),
            last_30d_start == sat_sub_i64(now, 30 * DAY_SECONDS),
            snapshot == snapshot_fold(files@, k as int, now, source_path_count, failed_path_count),
        decreases files@.len() - k,
    {
        proof {
            lemma_total_event_count_prefix(files@, k + 1);
            assert(files@.subrange(0, k + 1).drop_last() =~= files@.subrange(0, k as int));
            lemma_fold_counts(files@, k as int, now, source_path_count, failed_path_count);
        }
        let ownership = ownerships[k];
        let ghost before = snapshot;
        if ownership.unresolved {
            snapshot.unresolved_fork_count = snapshot.unresolved_fork_count + 1;
        } else {
            let session = &files[k];
            let delta_result = derive_confirmed_token_deltas(session.events.as_slice(), ownership.inherited_record_end);
            proof {
                lemma_delta_result_bounded(session.events@, ownership.inherited_record_end);
            }
            snapshot.unresolved_usage_event_count = snapshot.unresolved_usage_event_count + delta_result.unresolved_event_count;
            let ghost s0 = snapshot;
            let mut j: usize = 0;
            while j < delta_result.events.len()
                invariant
                    j <= delta_result.events@.len(),
                    s0.event_count + delta_result.events@.len() <= usize::MAX,
                    last_24h_start == sat_sub_i64(now, DAY_SECONDS as int),
                    last_3d_start == sat_sub_i64(now, 3 * DAY_SECONDS),
                    last_7d_start == sat_sub_i64(now, 7 * DAY_SECONDS),
                    last_30d_start == sat_sub_i64(now, 30 * DAY_SECONDS),
                    snapshot == snapshot_add_deltas(s0, delta_result.events@.subrange(0, j as int), now),
                decreases delta_result.events@.len() - j,
            {
                proof {
                    lemma_add_deltas_counts(s0, delta_result.events@.subrange(0, j as int), now);
                }
                assert(delta_result.events@.subrange(0, j + 1).drop_last() =~= delta_result.events@.subrange(0, j as int));
                let event = &delta_result.events[j];
                snapshot.event_count = snapshot.event_count + 1;
                if event.timestamp >= last_24h_start {
                    snapshot.last_24h.add(&event.total);
                }
                if event.timestamp >= last_3d_start {
                    snapshot.last_3d.add(&event.total);
                }
                if event.timestamp >= last_7d_start {
                    snapshot.last_7d.add(&event.total);
                }
                if event.timestamp >= last_30d_start {
                    snapshot.last_30d.add(&event.total);
                }
                j = j + 1;
            }
            assert(delta_result.events@.subrange(0, j as int) =~= delta_result.events@);
            if let Some(latest_session) = latest_confirmed_token_session(delta_result.events.as_slice()) {
                let should_replace = match &snapshot.latest_session {
                    Some(current) => latest_session.updated_at > current.updated_at,
                    None => true,
                };
                if should_replace {
                    snapshot.latest_session = Some(latest_session);
                }
            }
        }
        k = k + 1;
    }
    assert(files@.subrange(0, files@.len() as int) =~= files@);
    snapshot
}

/// Characters of a prompt shown in the analytics.
pub const PROMPT_PREVIEW_CHARS: usize = 220;

/// `value` cut to `max_chars` characters, with `...` when something was cut.
pub open spec fn truncated_chars(value: Seq<char>, max_chars: nat) -> Seq<char> {
    if value.len() <= max_chars {
        value
    } else {
        value.take(max_chars as int) + "..."@
    }
}

/// Cuts `value` to `max_chars` characters.
pub fn truncate_chars(value: &str, max_chars: usize) -> (r: String)
    ensures
        r@ == truncated_chars(value@, max_chars as nat),
{
    let v = crate::text::chars_of(value);
    if v.len() <= max_chars {
        return value.to_string();
    }
    let head = crate::text::slice_to_vec(v.as_slice(), 0, max_chars);
    assert(head@ =~= v@.take(max_chars as int));
    let mut out = crate::text::string_from(head.as_slice());
    out.append("...");
    out
}

/// A prompt as previewed: whitespace collapsed, cut to 220 characters.
pub fn prompt_preview(prompt: &str) -> (r: String)
    ensures
        r@ == truncated_chars(crate::text::squeeze_ws(prompt@), PROMPT_PREVIEW_CHARS as nat),
{
    let v = crate::text::chars_of(prompt);
    let normalized = crate::text::squeeze_whitespace(v.as_slice());
    let text = crate::text::string_from(normalized.as_slice());
    truncate_chars(text.as_str(), PROMPT_PREVIEW_CHARS)
}

/// The later of two optional times.
pub fn max_option_i64(left: Option<i64>, right: Option<i64>) -> (r: Option<i64>)
    ensures
        r == match (left, right) {
            (Some(a), Some(b)) => Some(if a >= b {
                a
            } else {
                b
            }),
            (Some(a), None) => Some(a),
            (None, Some(b)) => Some(b),
            (None, None) => None,
        },
{
    match (left, right) {
        (Some(a), Some(b)) => Some(if a >= b {
            a
        } else {
            b
        }),
        (Some(a), None) => Some(a),
        (None, Some(b)) => Some(b),
        (None, None) => None,
    }
}

/// Progress of an analytics scan.
#[derive(Debug)]
pub struct CodexCostAnalyticsProgress {
    pub stage: String,
    pub processed_files: usize,
    pub total_files: usize,
    pub percent: u8,
    pub current_path: Option<String>,
}

/// Percent of files processed: 100 with nothing to do, else the share
/// rounded down (the numerator saturating at `usize::MAX`), at most 100.
pub open spec fn progress_percent(processed: usize, total: usize) -> int {
    if total == 0 {
        100
    } else {
        let scaled = if processed * 100 > usize::MAX {
            usize::MAX as int
        } else {
            processed * 100
        };
        if scaled / (total as int) > 100 {
            100
        } else {
            scaled / (total as int)
        }
    }
}

/// Reports the progress of an analytics scan.
pub fn cost_analytics_progress(stage: &str, processed_files: usize, total_files: usize, current_path: Option<String>) -> (r: CodexCostAnalyticsProgress)
    ensures
        r.stage@ == stage@,
        r.processed_files == processed_files,
        r.total_files == total_files,
        r.percent as int == progress_percent(processed_files, total_files),
        r.current_path == current_path,
{
    let percent: u8 = if total_files == 0 {
        100
    } else {
        // `processed_files.saturating_mul(100)`
        let scaled = if processed_files > usize::MAX / 100 {
            usize::MAX
        } else {
            processed_files * 100
        };
        let share = scaled / total_files;
        if share > 100 {
            100
        } else {
            share as u8
        }
    };
    CodexCostAnalyticsProgress {
        stage: stage.to_string(),
        processed_files,
        total_files,
        percent,
        current_path,
    }
}

pub open spec fn is_hex_digit(c: char) -> bool {
    ('0' <= c && c <= '9') || ('a' <= c && c <= 'f') || ('A' <= c && c <= 'F')
}

/// A UUID in text form: 36 characters, `-` at positions 8, 13, 18 and 23
/// and hexadecimal digits elsewhere.
pub open spec fn uuid_text(s: Seq<char>) -> bool {
    &&& s.len() == 36
    &&& forall|i: int|
        0 <= i < 36 ==> (if i == 8 || i == 13 || i == 18 || i == 23 {
            s[i] == '-'
        } else {
            is_hex_digit(#[trigger] s[i])
        })
}

/// The session id a rollout file name ends with: its last 36 characters
/// when they form a UUID, lower-cased.
pub open spec fn rollout_session_id(stem: Seq<char>) -> Option<Seq<char>> {
    if stem.len() >= 36 && uuid_text(stem.skip(stem.len() - 36)) {
        Some(crate::text::ascii_lower(stem.skip(stem.len() - 36)))
    } else {
        None
    }
}

/// The session id in a rollout file's stem (its name without extension).
pub fn session_id_from_rollout_filename(stem: &str) -> (r: Option<String>)
    ensures
        opt_text_of(r) == rollout_session_id(stem@),
{
    let v = crate::text::chars_of(stem);
    if v.len() < 36 {
        return None;
    }
    let tail = crate::text::slice_to_vec(v.as_slice(), v.len() - 36, v.len());
    assert(tail@ =~= v@.skip(v@.len() - 36));
    let mut i: usize = 0;
    while i < 36
        invariant
            i <= 36,
            tail@.len() == 36,
            stem@.len() >= 36,
            tail@ == stem@.skip(stem@.len() - 36),
            forall|j: int|
                0 <= j < i ==> (if j == 8 || j == 13 || j == 18 || j == 23 {
                    tail@[j] == '-'
                } else {
                    is_hex_digit(#[trigger] tail@[j])
                }),
        decreases 36 - i,
    {
        let c = tail[i];
        let ok = if i == 8 || i == 13 || i == 18 || i == 23 {
            c == '-'
        } else {
            ('0' <= c && c <= '9') || ('a' <= c && c <= 'f') || ('A' <= c && c <= 'F')
        };
        if !ok {
            assert(!(if i == 8 || i == 13 || i == 18 || i == 23 {
                tail@[i as int] == '-'
            } else {
                is_hex_digit(tail@[i as int])
            }));
            return None;
        }
        i = i + 1;
    }
    let lower = crate::text::ascii_lowercase(tail.as_slice());
    Some(crate::text::string_from(lower.as_slice()))
}

pub open spec fn opt_text_of(v: Option<String>) -> Option<Seq<char>> {
    match v {
        Some(s) => Some(s@),
        None => None,
    }
}

pub open spec fn needs_csv_quotes(value: Seq<char>) -> bool {
    value.contains(',') || value.contains('"') || value.contains('\n') || value.contains('\r')
}

/// A CSV field: quoted, with quotes doubled, when it holds a comma, quote or
/// line break; else as it is.
pub open spec fn csv_field(value: Seq<char>) -> Seq<char> {
    if needs_csv_quotes(value) {
        "\""@ + crate::text::replace_all(value, "\""@, "\"\""@) + "\""@
    } else {
        value
    }
}

/// Escapes one CSV field.
pub fn csv_escape(value: &str) -> (r: String)
    ensures
        r@ == csv_field(value@),
{
    let v = crate::text::chars_of(value);
    let mut special = false;
    let mut i: usize = 0;
    while i < v.len()
        invariant
            i <= v@.len(),
            special == (exists|j: int| 0 <= j < i && (v@[j] == ',' || v@[j] == '"' || v@[j] == '\n' || v@[j] == '\r')),
        decreases v@.len() - i,
    {
        let c = v[i];
        if c == ',' || c == '"' || c == '\n' || c == '\r' {
            special = true;
        }
        i = i + 1;
    }
    proof {
        if special {
            let j = choose|j: int| 0 <= j < i && (v@[j] == ',' || v@[j] == '"' || v@[j] == '\n' || v@[j] == '\r');
            if v@[j] == ',' {
                assert(v@.contains(','));
            } else if v@[j] == '"' {
                assert(v@.contains('"'));
            } else if v@[j] == '\n' {
                assert(v@.contains('\n'));
            } else {
                assert(v@.contains('\r'));
            }
        }
    }
    if !special {
        return value.to_string();
    }
    proof {
        reveal_strlit("\"");
    }
    let doubled = crate::text::replace_chars(v.as_slice(), "\"", "\"\"");
    let mut out = "\"".to_string();
    out.append(crate::text::string_from(doubled.as_slice()).as_str());
    out.append("\"");
    out
}

/// A CSV row: the fields escaped and joined with `,`.
pub open spec fn csv_line(fields: Seq<Seq<char>>) -> Seq<char>
    decreases fields.len(),
{
    if fields.len() == 0 {
        seq![]
    } else if fields.len() == 1 {
        csv_field(fields[0])
    } else {
        csv_line(fields.drop_last()) + ","@ + csv_field(fields.last())
    }
}

/// Builds one CSV row.
pub fn csv_row(fields: &[&str]) -> (r: String)
    ensures
        r@ == csv_line(fields@.map_values(|f: &str| f@)),
{
    let ghost fs = fields@.map_values(|f: &str| f@);
    let mut out = String::new();
    let mut i: usize = 0;
    while i < fields.len()
        invariant
            i <= fields@.len(),
            fs == fields@.map_values(|f: &str| f@),
            out@ == csv_line(fs.take(i as int)),
        decreases fields@.len() - i,
    {
        assert(fs.take(i + 1).drop_last() =~= fs.take(i as int));
        assert(fs.take(i + 1).last() == fields@[i as int]@);
        if i > 0 {
            out.append(",");
        }
        out.append(csv_escape(fields[i]).as_str());
        i = i + 1;
    }
    assert(fs.take(i as int) =~= fs);
    out
}

/// The unsigned integer at JSON pointer `pointer` in the JSON text `line`
/// (`None` when the text does not parse, nothing is there, or it is not a
/// `u64`).
pub uninterp spec fn json_u64_at(line: Seq<char>, pointer: Seq<char>) -> Option<u64>;

/// The Unix time of the RFC 3339 timestamp `text` as `time` parses it.
pub uninterp spec fn rfc3339_unix_time(text: Seq<char>) -> Option<i64>;

/// Parses `line` with `serde_json` and reads the `u64` at `pointer`
/// (`Value::pointer`, `Value::as_u64`).
#[verifier::external_body]
fn json_pointer_u64(line: &str, pointer: &str) -> (r: Option<u64>)
    ensures
        r == json_u64_at(line@, pointer@),
{
    let root = serde_json::from_str::<serde_json::Value>(line).ok()?;
    root.pointer(pointer).and_then(|value| value.as_u64())
}

/// Parses an RFC 3339 timestamp with `time::OffsetDateTime::parse` and
/// gives its `unix_timestamp`.
#[verifier::external_body]
pub(crate) fn parse_timestamp(text: &str) -> (r: Option<i64>)
    ensures
        r == rfc3339_unix_time(text@),
{
    time::OffsetDateTime::parse(text, &time::format_description::well_known::Rfc3339)
        .ok()
        .map(|timestamp| timestamp.unix_timestamp())
}

/// The token counters of a usage object from the counters read out of it
/// (`None` when there is no object): missing counters read as zero, and a
/// missing total as input plus output (saturating).
pub open spec fn totals_from_counters(
    is_object: bool,
    input: Option<u64>,
    cached: Option<u64>,
    output: Option<u64>,
    reasoning: Option<u64>,
    total: Option<u64>,
) -> Option<CodexTokenTotals> {
    if !is_object {
        None
    } else {
        let get = |v: Option<u64>| -> u64 {
            match v {
                Some(x) => x,
                None => 0,
            }
        };
        Some(
            CodexTokenTotals {
                input_tokens: get(input),
                cached_input_tokens: get(cached),
                output_tokens: get(output),
                reasoning_output_tokens: get(reasoning),
                total_tokens: match total {
                    Some(t) => t,
                    None => if get(input) + get(output) > u64::MAX {
                        u64::MAX
                    } else {
                        (get(input) + get(output)) as u64
                    },
                },
            },
        )
    }
}

/// The token counters of the usage object at `pointer` of the JSON text
/// `line` (see `totals_from_counters`).
pub open spec fn totals_at(line: Seq<char>, pointer: Seq<char>) -> Option<CodexTokenTotals> {
    totals_from_counters(
        crate::provider_sync::json_object_at(line, pointer),
        json_u64_at(line, pointer + "/input_tokens"@),
        json_u64_at(line, pointer + "/cached_input_tokens"@),
        json_u64_at(line, pointer + "/output_tokens"@),
        json_u64_at(line, pointer + "/reasoning_output_tokens"@),
        json_u64_at(line, pointer + "/total_tokens"@),
    )
}

/// Builds a usage's token counters from the counters read out of it.
pub fn usage_totals_from_counters(
    is_object: bool,
    input: Option<u64>,
    cached: Option<u64>,
    output: Option<u64>,
    reasoning: Option<u64>,
    total: Option<u64>,
) -> (r: Option<CodexTokenTotals>)
    ensures
        r == totals_from_counters(is_object, input, cached, output, reasoning, total),
{
    if !is_object {
        return None;
    }
    let input_value = match input {
        Some(x) => x,
        None => 0,
    };
    let output_value = match output {
        Some(x) => x,
        None => 0,
    };
    let total_tokens = match total {
        Some(t) => t,
        None => if input_value > u64::MAX - output_value {
            u64::MAX
        } else {
            input_value + output_value
        },
    };
    Some(
        CodexTokenTotals {
            input_tokens: input_value,
            cached_input_tokens: match cached {
                Some(x) => x,
                None => 0,
            },
            output_tokens: output_value,
            reasoning_output_tokens: match reasoning {
                Some(x) => x,
                None => 0,
            },
            total_tokens,
        },
    )
}

pub(crate) fn totals_at_exec(line: &str, pointer: &str) -> (r: Option<CodexTokenTotals>)
    ensures
        r == totals_at(line@, pointer@),
{
    if !crate::provider_sync::json_object_at_exec(line, pointer) {
        return None;
    }
    let mut p_input = pointer.to_string();
    p_input.append("/input_tokens");
    let mut p_cached = pointer.to_string();
    p_cached.append("/cached_input_tokens");
    let mut p_output = pointer.to_string();
    p_output.append("/output_tokens");
    let mut p_reasoning = pointer.to_string();
    p_reasoning.append("/reasoning_output_tokens");
    let mut p_total = pointer.to_string();
    p_total.append("/total_tokens");
    let input = json_pointer_u64(line, p_input.as_str());
    let cached = json_pointer_u64(line, p_cached.as_str());
    let output = json_pointer_u64(line, p_output.as_str());
    let reasoning = json_pointer_u64(line, p_reasoning.as_str());
    let total = json_pointer_u64(line, p_total.as_str());
    usage_totals_from_counters(true, input, cached, output, reasoning, total)
}

/// The token event of a line from what was read out of it: whether it
/// mentions `"token_count"`, its RFC 3339 time, its `type` and payload
/// `type`, and its per-turn and cumulative usage. A line that mentions
/// `"token_count"`, has a time, is an `event_msg` whose payload is a
/// `token_count`, and has either usage is an event.
pub open spec fn token_event_from(
    mentions_token_count: bool,
    timestamp: Option<i64>,
    kind: Option<Seq<char>>,
    payload_kind: Option<Seq<char>>,
    last: Option<CodexTokenTotals>,
    total: Option<CodexTokenTotals>,
    record_index: usize,
) -> Option<ParsedTokenEvent> {
    if !mentions_token_count {
        None
    } else {
        match timestamp {
            None => None,
            Some(timestamp) => if kind != Some("event_msg"@) || payload_kind != Some("token_count"@) {
                None
            } else if last is None && total is None {
                None
            } else {
                Some(ParsedTokenEvent { record_index, timestamp, last, total })
            },
        }
    }
}

/// The token event a rollout line records, if any (see `token_event_from`).
pub open spec fn token_event_of(line: Seq<char>, record_index: usize) -> Option<ParsedTokenEvent> {
    token_event_from(
        crate::text::contains_seq(line, "\"token_count\""@),
        rfc3339_unix_time_of(line),
        crate::provider_sync::json_string_at(line, "/type"@),
        crate::provider_sync::json_string_at(line, "/payload/type"@),
        totals_at(line, "/payload/info/last_token_usage"@),
        totals_at(line, "/payload/info/total_token_usage"@),
        record_index,
    )
}

/// Builds the token event of a line from what was read out of it (see
/// `token_event_from`).
pub fn token_event_from_fields(
    mentions_token_count: bool,
    timestamp: Option<i64>,
    kind: Option<String>,
    payload_kind: Option<String>,
    last: Option<CodexTokenTotals>,
    total: Option<CodexTokenTotals>,
    record_index: usize,
) -> (r: Option<ParsedTokenEvent>)
    ensures
        r == token_event_from(
            mentions_token_count,
            timestamp,
            opt_text_of(kind),
            opt_text_of(payload_kind),
            last,
            total,
            record_index,
        ),
{
    if !mentions_token_count {
        return None;
    }
    let timestamp = match timestamp {
        Some(t) => t,
        None => {
            return None;
        },
    };
    let kind_ok = match &kind {
        Some(k) => crate::text::str_eq(k.as_str(), "event_msg"),
        None => false,
    };
    let payload_ok = match &payload_kind {
        Some(k) => crate::text::str_eq(k.as_str(), "token_count"),
        None => false,
    };
    if !kind_ok || !payload_ok {
        return None;
    }
    if last.is_none() && total.is_none() {
        return None;
    }
    Some(ParsedTokenEvent { record_index, timestamp, last, total })
}

/// The time of a line's `timestamp` string, if it is RFC 3339.
pub open spec fn rfc3339_unix_time_of(line: Seq<char>) -> Option<i64> {
    match crate::provider_sync::json_string_at(line, "/timestamp"@) {
        Some(t) => rfc3339_unix_time(t),
        None => None,
    }
}

/// Reads the token event of the rollout line at `record_index`.
pub fn parse_token_event_line_at(line: &str, record_index: usize) -> (r: Option<ParsedTokenEvent>)
    ensures
        r == token_event_of(line@, record_index),
{
    let v = crate::text::chars_of(line);
    if !crate::text::contains_str(v.as_slice(), "\"token_count\"") {
        return None;
    }
    let timestamp = match crate::provider_sync::json_pointer_string(line, "/timestamp") {
        Some(t) => parse_timestamp(t.as_str()),
        None => None,
    };
    let kind = crate::provider_sync::json_pointer_string(line, "/type");
    let payload_kind = crate::provider_sync::json_pointer_string(line, "/payload/type");
    let last = totals_at_exec(line, "/payload/info/last_token_usage");
    let total = totals_at_exec(line, "/payload/info/total_token_usage");
    token_event_from_fields(true, timestamp, kind, payload_kind, last, total, record_index)
}

/// Reads the token event of a rollout line (as the first record).
pub fn parse_token_event_line(line: &str) -> (r: Option<ParsedTokenEvent>)
    ensures
        r == token_event_of(line@, 0),
{
    parse_token_event_line_at(line, 0)
}

/// Subtracting a snapshot and adding the difference back gives the later
/// snapshot again: `prev + (cur - prev) == cur` whenever the delta exists.
pub proof fn law_delta_then_add_restores(cur: CodexTokenTotals, prev: CodexTokenTotals)
    ensures
        delta_totals(cur, prev) matches Some(d) ==> add_totals(prev, d) == cur,
{
}

/// A cumulative snapshot that did not change yields an all-zero delta, so a
/// repeated report adds no usage.
pub proof fn law_unchanged_snapshot_adds_nothing(t: CodexTokenTotals)
    ensures
        delta_totals(t, t) == Some(zero_totals()),
        totals_empty(zero_totals()),
{
}

/// The confirmed deltas added one after the other onto `base`.
pub open spec fn deltas_onto(base: CodexTokenTotals, out: Seq<ConfirmedTokenDelta>) -> CodexTokenTotals
    decreases out.len(),
{
    if out.len() == 0 {
        base
    } else {
        add_totals(deltas_onto(base, out.drop_last()), out.last().total)
    }
}

/// The session recorded every event itself, each with a cumulative
/// snapshot, and no counter ever went down (starting from `init`).
pub open spec fn owned_monotone(evs: Seq<ParsedTokenEvent>, end: usize, init: CodexTokenTotals) -> bool {
    &&& forall|i: int| 0 <= i < evs.len() ==> (#[trigger] evs[i]).record_index >= end && evs[i].total is Some
    &&& evs.len() > 0 ==> totals_dominate(evs[0].total.unwrap(), init)
    &&& forall|i: int|
        0 < i < evs.len() ==> totals_dominate(
            (#[trigger] evs[i]).total.unwrap(),
            evs[i - 1].total.unwrap(),
        )
}

/// When a session's counters only grow, its confirmed deltas add up, on top
/// of the starting snapshot, to its last cumulative snapshot: nothing is lost
/// and nothing is counted twice, and none of its events is unresolved.
pub proof fn law_deltas_sum_to_last_snapshot(evs: Seq<ParsedTokenEvent>, end: usize, init: CodexTokenTotals)
    requires
        owned_monotone(evs, end, init),
    ensures
        deltas_onto(init, delta_fold(evs, end, init).out) == delta_fold(evs, end, init).prev,
        delta_fold(evs, end, init).prev == if evs.len() == 0 {
            init
        } else {
            evs.last().total.unwrap()
        },
        delta_fold(evs, end, init).unresolved == 0,
    decreases evs.len(),
{
    if evs.len() > 0 {
        let front = evs.drop_last();
        assert(owned_monotone(front, end, init)) by {
            assert forall|i: int| 0 <= i < front.len() implies (#[trigger] front[i]).record_index >= end
                && front[i].total is Some by {
                assert(front[i] == evs[i]);
            }
            assert forall|i: int| 0 < i < front.len() implies totals_dominate(
                (#[trigger] front[i]).total.unwrap(),
                front[i - 1].total.unwrap(),
            ) by {
                assert(front[i] == evs[i]);
                assert(front[i - 1] == evs[i - 1]);
            }
            if front.len() > 0 {
                assert(front[0] == evs[0]);
            }
        }
        law_deltas_sum_to_last_snapshot(front, end, init);
        let st = delta_fold(front, end, init);
        let e = evs.last();
        assert(e == evs[evs.len() - 1]);
        if front.len() > 0 {
            assert(front.last() == evs[evs.len() - 2]);
        }
        assert(totals_dominate(e.total.unwrap(), st.prev));
        let d = delta_totals(e.total.unwrap(), st.prev).unwrap();
        law_delta_then_add_restores(e.total.unwrap(), st.prev);
        if !totals_empty(d) {
            let out = st.out.push(ConfirmedTokenDelta { timestamp: e.timestamp, total: d });
            assert(out.drop_last() =~= st.out);
        }
    }
}

/// A child record stream identical to its parent's follows it to the end.
pub proof fn law_identical_streams_match_completely(records: Seq<u64>, window: int, i: int)
    requires
        0 <= i <= records.len(),
    ensures
        boundary_walk(records, records, window, i, i) == Some((records.len() as int, records.len() as int)),
    decreases records.len() - i,
{
    if i < records.len() {
        law_identical_streams_match_completely(records, window, i + 1);
    }
}

proof fn lemma_nothing_inherited_before_start(evs: Seq<ParsedTokenEvent>)
    ensures
        inherited_baseline(evs, 0) is None,
        inherited_count(evs, 0) == 0,
    decreases evs.len(),
{
    if evs.len() > 0 {
        lemma_nothing_inherited_before_start(evs.drop_last());
    }
}

proof fn lemma_deltas_onto_zero(out: Seq<ConfirmedTokenDelta>)
    ensures
        deltas_onto(zero_totals(), out) == sum_deltas(out),
    decreases out.len(),
{
    if out.len() > 0 {
        lemma_deltas_onto_zero(out.drop_last());
    }
}

/// For a session that copied nothing from a parent and whose counters only
/// grow, the deltas `derive_confirmed_token_deltas` confirms add up to its
/// last cumulative snapshot, with no event left unresolved.
pub proof fn law_fresh_session_usage_is_its_last_snapshot(evs: Seq<ParsedTokenEvent>)
    requires
        evs.len() > 0,
        owned_monotone(evs, 0, zero_totals()),
    ensures
        sum_deltas(confirmed_deltas(evs, 0).0) == evs.last().total.unwrap(),
        confirmed_deltas(evs, 0).1 == 0,
{
    lemma_nothing_inherited_before_start(evs);
    law_deltas_sum_to_last_snapshot(evs, 0, zero_totals());
    lemma_deltas_onto_zero(delta_fold(evs, 0, zero_totals()).out);
}

/// The price list a model is billed by.
#[derive(Clone, Copy, Debug, PartialEq, Eq, Structural)]
pub enum PricingTier {
    Gpt56Sol,
    Gpt56Terra,
    Gpt56Luna,
    Gpt55Pro,
    Gpt55,
    Gpt54Pro,
    Gpt54Mini,
    Gpt54Nano,
    Gpt54,
    CodexMini,
    Gpt5Nano,
    O4Mini,
    O3,
    Standard,
}

/// One of three spellings of a GPT-5.6 family name starts `m`.
pub open spec fn gpt56_prefix(m: Seq<char>, variant: Seq<char>) -> bool {
    crate::text::has_prefix(m, "gpt-5.6-"@ + variant) || crate::text::has_prefix(m, "gpt5.6-"@ + variant)
        || crate::text::has_prefix(m, "gpt-5-6-"@ + variant)
}

/// The tier of a model name, compared in ASCII lower case: the first rule
/// that matches, from the GPT-5.6 variants (a bare `gpt-5.6` is billed as
/// `sol`) down to the older families, else the standard tier.
pub open spec fn pricing_tier(model: Seq<char>) -> PricingTier {
    let m = crate::text::ascii_lower(model);
    if m == "gpt-5.6"@ || m == "gpt5.6"@ || m == "gpt-5-6"@ || gpt56_prefix(m, "sol"@) {
        PricingTier::Gpt56Sol
    } else if gpt56_prefix(m, "terra"@) {
        PricingTier::Gpt56Terra
    } else if gpt56_prefix(m, "luna"@) {
        PricingTier::Gpt56Luna
    } else if crate::text::has_prefix(m, "gpt-5.5-pro"@) {
        PricingTier::Gpt55Pro
    } else if crate::text::has_prefix(m, "gpt-5.5"@) {
        PricingTier::Gpt55
    } else if crate::text::has_prefix(m, "gpt-5.4-pro"@) {
        PricingTier::Gpt54Pro
    } else if crate::text::has_prefix(m, "gpt-5.4-mini"@) {
        PricingTier::Gpt54Mini
    } else if crate::text::has_prefix(m, "gpt-5.4-nano"@) {
        PricingTier::Gpt54Nano
    } else if crate::text::has_prefix(m, "gpt-5.4"@) {
        PricingTier::Gpt54
    } else if crate::text::contains_seq(m, "codex-mini"@) || crate::text::has_prefix(m, "gpt-5-mini"@) {
        PricingTier::CodexMini
    } else if crate::text::has_prefix(m, "gpt-5-nano"@) {
        PricingTier::Gpt5Nano
    } else if crate::text::has_prefix(m, "o4-mini"@) {
        PricingTier::O4Mini
    } else if crate::text::has_prefix(m, "o3"@) {
        PricingTier::O3
    } else {
        PricingTier::Standard
    }
}

fn has_gpt56_prefix(m: &[char], variant: &str) -> (r: bool)
    ensures
        r == gpt56_prefix(m@, variant@),
{
    let mut a = "gpt-5.6-".to_string();
    a.append(variant);
    let mut b = "gpt5.6-".to_string();
    b.append(variant);
    let mut c = "gpt-5-6-".to_string();
    c.append(variant);
    crate::text::starts_with_str(m, a.as_str()) || crate::text::starts_with_str(m, b.as_str())
        || crate::text::starts_with_str(m, c.as_str())
}

/// The price list a model is billed by.
pub fn pricing_tier_for_model(model: &str) -> (r: PricingTier)
    ensures
        r == pricing_tier(model@),
{
    let m = crate::text::ascii_lowercase(crate::text::chars_of(model).as_slice());
    let m = m.as_slice();
    if crate::text::chars_eq(m, crate::text::chars_of("gpt-5.6").as_slice())
        || crate::text::chars_eq(m, crate::text::chars_of("gpt5.6").as_slice())
        || crate::text::chars_eq(m, crate::text::chars_of("gpt-5-6").as_slice())
        || has_gpt56_prefix(m, "sol") {
        PricingTier::Gpt56Sol
    } else if has_gpt56_prefix(m, "terra") {
        PricingTier::Gpt56Terra
    } else if has_gpt56_prefix(m, "luna") {
        PricingTier::Gpt56Luna
    } else if crate::text::starts_with_str(m, "gpt-5.5-pro") {
        PricingTier::Gpt55Pro
    } else if crate::text::starts_with_str(m, "gpt-5.5") {
        PricingTier::Gpt55
    } else if crate::text::starts_with_str(m, "gpt-5.4-pro") {
        PricingTier::Gpt54Pro
    } else if crate::text::starts_with_str(m, "gpt-5.4-mini") {
        PricingTier::Gpt54Mini
    } else if crate::text::starts_with_str(m, "gpt-5.4-nano") {
        PricingTier::Gpt54Nano
    } else if crate::text::starts_with_str(m, "gpt-5.4") {
        PricingTier::Gpt54
    } else if crate::text::contains_str(m, "codex-mini") || crate::text::starts_with_str(m, "gpt-5-mini") {
        PricingTier::CodexMini
    } else if crate::text::starts_with_str(m, "gpt-5-nano") {
        PricingTier::Gpt5Nano
    } else if crate::text::starts_with_str(m, "o4-mini") {
        PricingTier::O4Mini
    } else if crate::text::starts_with_str(m, "o3") {
        PricingTier::O3
    } else {
        PricingTier::Standard
    }
}

/// A token event carries the record index it was read at.
pub proof fn lemma_token_event_index(line: Seq<char>, record_index: usize)
    ensures
        token_event_of(line, record_index) matches Some(e) ==> e.record_index == record_index,
{
}

/// The token counts a usage is billed by: uncached input, cached input
/// (never more than the input) and output.
pub fn billable_tokens(usage: &CodexTokenTotals) -> (r: (u64, u64, u64))
    ensures
        r.1 == if usage.cached_input_tokens < usage.input_tokens {
            usage.cached_input_tokens
        } else {
            usage.input_tokens
        },
        r.0 == usage.input_tokens - r.1,
        r.2 == usage.output_tokens,
{
    let cached = if usage.cached_input_tokens < usage.input_tokens {
        usage.cached_input_tokens
    } else {
        usage.input_tokens
    };
    (usage.input_tokens - cached, cached, usage.output_tokens)
}


/// The shorter windows of a snapshot lie inside the longer ones, counter by
/// counter.
pub open spec fn windows_nest(s: CodexTokenUsageSnapshot) -> bool {
    &&& totals_dominate(s.last_3d, s.last_24h)
    &&& totals_dominate(s.last_7d, s.last_3d)
    &&& totals_dominate(s.last_30d, s.last_7d)
}

proof fn lemma_add_delta_keeps_nesting(s: CodexTokenUsageSnapshot, d: ConfirmedTokenDelta, now: i64)
    requires
        windows_nest(s),
    ensures
        windows_nest(snapshot_add_delta(s, d, now)),
{
}

proof fn lemma_add_deltas_keeps_shape(s: CodexTokenUsageSnapshot, ds: Seq<ConfirmedTokenDelta>, now: i64)
    requires
        windows_nest(s),
    ensures
        windows_nest(snapshot_add_deltas(s, ds, now)),
        snapshot_add_deltas(s, ds, now).updated_at == s.updated_at,
        snapshot_add_deltas(s, ds, now).source_path_count == s.source_path_count,
        snapshot_add_deltas(s, ds, now).failed_path_count == s.failed_path_count,
        snapshot_add_deltas(s, ds, now).unresolved_fork_count == s.unresolved_fork_count,
    decreases ds.len(),
{
    if ds.len() > 0 {
        lemma_add_deltas_keeps_shape(s, ds.drop_last(), now);
        lemma_add_delta_keeps_nesting(snapshot_add_deltas(s, ds.drop_last(), now), ds.last(), now);
    }
}

proof fn lemma_fold_keeps_shape(
    files: Seq<ParsedTokenSessionFile>,
    k: int,
    now: i64,
    spc: usize,
    fpc: usize,
)
    requires
        0 <= k,
    ensures
        windows_nest(snapshot_fold(files, k, now, spc, fpc)),
        snapshot_fold(files, k, now, spc, fpc).updated_at == now,
        snapshot_fold(files, k, now, spc, fpc).source_path_count == spc,
        snapshot_fold(files, k, now, spc, fpc).failed_path_count == fpc,
        snapshot_fold(files, k, now, spc, fpc).unresolved_fork_count <= k,
    decreases k,
{
    if k > 0 {
        lemma_fold_keeps_shape(files, k - 1, now, spc, fpc);
        let s = snapshot_fold(files, k - 1, now, spc, fpc);
        let f = files[k - 1];
        let own = ownership_of(lineage_nodes_of(files), k - 1).unwrap();
        if !own.unresolved {
            let (ds, u) = confirmed_deltas(f.events@, own.inherited_record_end);
            let s0 = CodexTokenUsageSnapshot {
                unresolved_usage_event_count: (s.unresolved_usage_event_count + u) as usize,
                ..s
            };
            lemma_add_deltas_keeps_shape(s0, ds, now);
        }
    }
}

/// Whatever the files, the snapshot reports the time and path counts it was
/// given, counts at most one unresolved fork per file, and each counter of
/// the 24-hour window is at most that of the 3-day window, which is at most
/// that of the 7-day window, which is at most that of the 30-day window.
pub proof fn law_snapshot_windows_nest(
    files: Seq<ParsedTokenSessionFile>,
    now: i64,
    source_path_count: usize,
    failed_path_count: usize,
)
    ensures
        ({
            let s = snapshot_fold(files, files.len() as int, now, source_path_count, failed_path_count);
            &&& s.updated_at == now
            &&& s.source_path_count == source_path_count
            &&& s.failed_path_count == failed_path_count
            &&& s.unresolved_fork_count <= files.len()
            &&& totals_dominate(s.last_3d, s.last_24h)
            &&& totals_dominate(s.last_7d, s.last_3d)
            &&& totals_dominate(s.last_30d, s.last_7d)
        }),
{
    lemma_fold_keeps_shape(files, files.len() as int, now, source_path_count, failed_path_count);
}

/// Counter `f` (0 input, 1 cached input, 2 output, 3 reasoning output,
/// 4 total) of a usage.
pub open spec fn counter(t: CodexTokenTotals, f: int) -> int {
    if f == 0 {
        t.input_tokens as int
    } else if f == 1 {
        t.cached_input_tokens as int
    } else if f == 2 {
        t.output_tokens as int
    } else if f == 3 {
        t.reasoning_output_tokens as int
    } else {
        t.total_tokens as int
    }
}

/// The window of a snapshot that reaches back `days` days (1, 3, 7 or 30).
pub open spec fn window(s: CodexTokenUsageSnapshot, days: int) -> CodexTokenTotals {
    if days == 1 {
        s.last_24h
    } else if days == 3 {
        s.last_3d
    } else if days == 7 {
        s.last_7d
    } else {
        s.last_30d
    }
}

/// The exact sum of counter `f` over the deltas at or after time `from`.
pub open spec fn sum_since(ds: Seq<ConfirmedTokenDelta>, from: int, f: int) -> int
    decreases ds.len(),
{
    if ds.len() == 0 {
        0
    } else {
        sum_since(ds.drop_last(), from, f) + if ds.last().timestamp >= from {
            counter(ds.last().total, f)
        } else {
            0
        }
    }
}

/// `x` capped at `u64::MAX`.
pub open spec fn capped(x: int) -> int {
    if x > u64::MAX {
        u64::MAX as int
    } else {
        x
    }
}

/// Adding deltas to a snapshot adds to each window exactly the deltas whose
/// time lies within that many days before `now` (the start included), each
/// counter saturating at `u64::MAX`: a delta 20 days old counts in the
/// 30-day window and in no shorter one.
pub proof fn law_windows_sum_their_own_deltas(
    s: CodexTokenUsageSnapshot,
    ds: Seq<ConfirmedTokenDelta>,
    now: i64,
    days: int,
    f: int,
)
    requires
        days == 1 || days == 3 || days == 7 || days == 30,
        0 <= f < 5,
    ensures
        counter(window(snapshot_add_deltas(s, ds, now), days), f) == capped(
            counter(window(s, days), f) + sum_since(ds, now - days * 86400, f),
        ),
    decreases ds.len(),
{
    if ds.len() > 0 {
        law_windows_sum_their_own_deltas(s, ds.drop_last(), now, days, f);
        assert(counter(window(s, days), f) >= 0);
        lemma_sum_since_nonnegative(ds.drop_last(), now - days * 86400, f);
    }
}

proof fn lemma_sum_since_nonnegative(ds: Seq<ConfirmedTokenDelta>, from: int, f: int)
    ensures
        sum_since(ds, from, f) >= 0,
    decreases ds.len(),
{
    if ds.len() > 0 {
        lemma_sum_since_nonnegative(ds.drop_last(), from, f);
    }
}

/// Each session file adds to every window of the snapshot exactly its own
/// confirmed deltas that fall in that window (none when its fork lineage is
/// unresolved), each counter saturating at `u64::MAX`.
pub proof fn law_each_file_adds_its_window_deltas(
    files: Seq<ParsedTokenSessionFile>,
    k: int,
    now: i64,
    source_path_count: usize,
    failed_path_count: usize,
    days: int,
    f: int,
)
    requires
        0 <= k < files.len(),
        days == 1 || days == 3 || days == 7 || days == 30,
        0 <= f < 5,
    ensures
        ({
            let before = snapshot_fold(files, k, now, source_path_count, failed_path_count);
            let after = snapshot_fold(files, k + 1, now, source_path_count, failed_path_count);
            let own = ownership_of(lineage_nodes_of(files), k).unwrap();
            counter(window(after, days), f) == if own.unresolved {
                counter(window(before, days), f)
            } else {
                capped(
                    counter(window(before, days), f) + sum_since(
                        confirmed_deltas(files[k].events@, own.inherited_record_end).0,
                        now - days * 86400,
                        f,
                    ),
                )
            }
        }),
{
    let before = snapshot_fold(files, k, now, source_path_count, failed_path_count);
    let own = ownership_of(lineage_nodes_of(files), k).unwrap();
    if !own.unresolved {
        let (ds, u) = confirmed_deltas(files[k].events@, own.inherited_record_end);
        let s0 = CodexTokenUsageSnapshot {
            unresolved_usage_event_count: (before.unresolved_usage_event_count + u) as usize,
            ..before
        };
        law_windows_sum_their_own_deltas(s0, ds, now, days, f);
    }
}

} // verus!
