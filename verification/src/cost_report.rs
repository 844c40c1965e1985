//! The cost analytics report: per-project and per-prompt token figures,
//! the reuse of cached session files, and the CSV export. Dollar amounts
//! reach the report already written as text.
use vstd::prelude::*;

use crate::analytics_log::AnalyticsTokenEvent;
use crate::order::texts;
use crate::text::{decimal, decimal_string, str_eq, trim, trim_chars};
use crate::token_usage::{add_totals, csv_line, csv_row, zero_totals, CodexTokenTotals};

verus! {

/// A signed integer as Rust prints it.
pub open spec fn i64_text(n: i64) -> Seq<char> {
    if n < 0 {
        "-"@ + decimal((-n) as nat)
    } else {
        decimal(n as nat)
    }
}

/// Prints an `i64`.
pub fn i64_string(n: i64) -> (r: String)
    ensures
        r@ == i64_text(n),
{
    if n < 0 {
        let m: u64 = ((-(n + 1)) as u64) + 1;
        let mut s = "-".to_string();
        s.append(decimal_string(m).as_str());
        s
    } else {
        decimal_string(n as u64)
    }
}

/// An optional time as a cell: empty when absent.
pub open spec fn opt_time_text(t: Option<i64>) -> Seq<char> {
    match t {
        Some(v) => i64_text(v),
        None => seq![],
    }
}

fn opt_time_string(t: Option<i64>) -> (r: String)
    ensures
        r@ == opt_time_text(t),
{
    match t {
        Some(v) => i64_string(v),
        None => String::new(),
    }
}

/// The source every per-item row names for its cost.
pub open spec fn local_cost_source() -> Seq<char> {
    "local_estimate"@
}

/// A project of the report.
pub struct CsvProjectRow {
    pub project_name: String,
    pub project_path: String,
    pub last_at: Option<i64>,
    pub total: CodexTokenTotals,
    pub event_count: usize,
    pub cost_usd: String,
}

/// A session of the report.
pub struct CsvSessionRow {
    pub session_id: String,
    pub project_name: String,
    pub project_path: String,
    pub parent_session_id: Option<String>,
    pub started_at: Option<i64>,
    pub updated_at: Option<i64>,
    pub model: String,
    pub total: CodexTokenTotals,
    pub event_count: usize,
    pub cost_usd: String,
    pub source_path: String,
}

/// One of the most expensive prompts of the report.
pub struct CsvPromptRow {
    pub session_id: String,
    pub timestamp: i64,
    pub project_name: String,
    pub project_path: String,
    pub model: String,
    pub prompt_preview: String,
    pub prompt_chars: usize,
    pub total: CodexTokenTotals,
    pub cost_usd: String,
    pub source_path: String,
}

/// A weekday-and-hour bucket of the report's heatmap.
pub struct CsvHeatmapRow {
    pub weekday: u8,
    pub hour: u8,
    pub calls: usize,
    pub tokens: u64,
    pub cost_usd: String,
}

/// What the CSV export of the cost analytics holds.
pub struct CostAnalyticsCsvReport {
    pub updated_at: i64,
    pub total: CodexTokenTotals,
    pub event_count: usize,
    pub total_cost_usd: String,
    pub pricing_source: String,
    pub cost_source: String,
    pub cost_source_updated_at: Option<i64>,
    pub cost_source_error: Option<String>,
    pub local_total_cost_usd: String,
    pub local_last_7d_cost_usd: String,
    pub projects: Vec<CsvProjectRow>,
    pub sessions: Vec<CsvSessionRow>,
    pub top_prompts: Vec<CsvPromptRow>,
    pub heatmap: Vec<CsvHeatmapRow>,
}

/// The five token counters as cells.
pub open spec fn token_cells(t: CodexTokenTotals) -> Seq<Seq<char>> {
    seq![
        decimal(t.input_tokens as nat),
        decimal(t.cached_input_tokens as nat),
        decimal(t.output_tokens as nat),
        decimal(t.reasoning_output_tokens as nat),
        decimal(t.total_tokens as nat),
    ]
}

pub open spec fn csv_header_cells() -> Seq<Seq<char>> {
    seq![
        "row_type"@, "id"@, "project"@, "project_path"@, "session_id"@, "parent_session_id"@,
        "timestamp"@, "updated_at"@, "weekday"@, "hour"@, "model"@, "prompt_preview"@,
        "prompt_chars"@, "input_tokens"@, "cached_input_tokens"@, "output_tokens"@,
        "reasoning_output_tokens"@, "total_tokens"@, "calls"@, "cost_usd"@, "source_path"@,
        "pricing_source"@, "selected_cost_source"@, "cost_source_updated_at"@,
        "cost_source_error"@, "local_total_cost_usd"@, "local_last_7d_cost_usd"@,
    ]
}

pub open spec fn summary_cells(r: CostAnalyticsCsvReport) -> Seq<Seq<char>> {
    seq!["summary"@, "all"@, ""@, ""@, ""@, ""@, ""@, i64_text(r.updated_at), ""@, ""@, ""@, ""@, ""@]
        + token_cells(r.total) + seq![
        decimal(r.event_count as nat),
        r.total_cost_usd@,
        ""@,
        r.pricing_source@,
        r.cost_source@,
        opt_time_text(r.cost_source_updated_at),
        match r.cost_source_error {
            Some(e) => e@,
            None => ""@,
        },
        r.local_total_cost_usd@,
        r.local_last_7d_cost_usd@,
    ]
}

pub open spec fn project_cells(p: CsvProjectRow, pricing: Seq<char>) -> Seq<Seq<char>> {
    seq!["project"@, p.project_name@, p.project_name@, p.project_path@, ""@, ""@, ""@, opt_time_text(p.last_at), ""@, ""@, ""@, ""@, ""@]
        + token_cells(p.total) + seq![
        decimal(p.event_count as nat),
        p.cost_usd@,
        ""@,
        pricing,
        local_cost_source(),
        ""@,
        ""@,
        ""@,
        ""@,
    ]
}

pub open spec fn session_cells(s: CsvSessionRow, pricing: Seq<char>) -> Seq<Seq<char>> {
    seq![
        "session"@, s.session_id@, s.project_name@, s.project_path@, s.session_id@,
        match s.parent_session_id {
            Some(p) => p@,
            None => ""@,
        },
        opt_time_text(s.started_at), opt_time_text(s.updated_at), ""@, ""@, s.model@, ""@, ""@,
    ] + token_cells(s.total) + seq![
        decimal(s.event_count as nat),
        s.cost_usd@,
        s.source_path@,
        pricing,
        local_cost_source(),
        ""@,
        ""@,
        ""@,
        ""@,
    ]
}

pub open spec fn prompt_cells(p: CsvPromptRow, pricing: Seq<char>) -> Seq<Seq<char>> {
    seq![
        "top_prompt"@, p.session_id@ + ":"@ + i64_text(p.timestamp), p.project_name@, p.project_path@,
        p.session_id@, ""@, i64_text(p.timestamp), ""@, ""@, ""@, p.model@, p.prompt_preview@,
        decimal(p.prompt_chars as nat),
    ] + token_cells(p.total) + seq![
        ""@,
        p.cost_usd@,
        p.source_path@,
        pricing,
        local_cost_source(),
        ""@,
        ""@,
        ""@,
        ""@,
    ]
}

/// A heatmap row; its cells follow the layout the export has always had
/// (the weekday and hour sit under `parent_session_id` and `timestamp`).
pub open spec fn heatmap_cells(b: CsvHeatmapRow, pricing: Seq<char>) -> Seq<Seq<char>> {
    seq![
        "heatmap"@, decimal(b.weekday as nat) + "-"@ + decimal(b.hour as nat), ""@, ""@, ""@,
        decimal(b.weekday as nat), decimal(b.hour as nat), ""@, ""@, ""@, ""@, ""@, ""@, ""@,
        decimal(b.tokens as nat), decimal(b.calls as nat), b.cost_usd@, ""@, pricing,
        local_cost_source(), ""@, ""@, ""@, ""@, ""@, ""@, ""@,
    ]
}

/// The heatmap rows of the buckets that saw calls, in order.
pub open spec fn heatmap_lines(bs: Seq<CsvHeatmapRow>, pricing: Seq<char>) -> Seq<Seq<char>>
    decreases bs.len(),
{
    if bs.len() == 0 {
        seq![]
    } else if bs.last().calls == 0 {
        heatmap_lines(bs.drop_last(), pricing)
    } else {
        heatmap_lines(bs.drop_last(), pricing).push(csv_line(heatmap_cells(bs.last(), pricing)))
    }
}

/// The CSV lines of the report: the header, the summary, then every
/// project, session and top prompt, then each heatmap bucket with calls.
pub open spec fn cost_csv_lines(r: CostAnalyticsCsvReport) -> Seq<Seq<char>> {
    let pricing = r.pricing_source@;
    seq![csv_line(csv_header_cells()), csv_line(summary_cells(r))]
        + r.projects@.map_values(|p: CsvProjectRow| csv_line(project_cells(p, pricing)))
        + r.sessions@.map_values(|s: CsvSessionRow| csv_line(session_cells(s, pricing)))
        + r.top_prompts@.map_values(|p: CsvPromptRow| csv_line(prompt_cells(p, pricing)))
        + heatmap_lines(r.heatmap@, pricing)
}

/// Lines, each ended by a line break.
pub open spec fn terminated_lines(ls: Seq<Seq<char>>) -> Seq<char>
    decreases ls.len(),
{
    if ls.len() == 0 {
        seq![]
    } else {
        terminated_lines(ls.drop_last()) + ls.last() + "\n"@
    }
}

fn push_cell(v: &mut Vec<String>, s: String)
    ensures
        texts(final(v)@) == texts(old(v)@).push(s@),
{
    let ghost before = v@;
    v.push(s);
    assert(texts(v@) =~= texts(before).push(s@));
}

fn push_text(v: &mut Vec<String>, s: &str)
    ensures
        texts(final(v)@) == texts(old(v)@).push(s@),
{
    push_cell(v, s.to_string());
}

fn push_tokens(v: &mut Vec<String>, t: &CodexTokenTotals)
    ensures
        texts(final(v)@) == texts(old(v)@) + token_cells(*t),
{
    let ghost before = texts(v@);
    push_cell(v, decimal_string(t.input_tokens));
    push_cell(v, decimal_string(t.cached_input_tokens));
    push_cell(v, decimal_string(t.output_tokens));
    push_cell(v, decimal_string(t.reasoning_output_tokens));
    push_cell(v, decimal_string(t.total_tokens));
    assert(texts(v@) =~= before + token_cells(*t));
}

fn push_empty(v: &mut Vec<String>, k: usize)
    ensures
        texts(final(v)@) == texts(old(v)@) + Seq::new(k as nat, |i: int| ""@),
{
    let ghost before = texts(v@);
    let mut i: usize = 0;
    while i < k
        invariant
            i <= k,
            texts(v@) == before + Seq::new(i as nat, |j: int| ""@),
        decreases k - i,
    {
        push_text(v, "");
        i = i + 1;
        assert(texts(v@) =~= before + Seq::new(i as nat, |j: int| ""@));
    }
}

/// The cells joined into one CSV line.
fn line_of(cells: &Vec<String>) -> (r: String)
    ensures
        r@ == csv_line(texts(cells@)),
{
    let mut refs: Vec<&str> = Vec::new();
    let mut i: usize = 0;
    while i < cells.len()
        invariant
            i <= cells@.len(),
            refs@.map_values(|f: &str| f@) == texts(cells@).take(i as int),
        decreases cells@.len() - i,
    {
        let ghost before = refs@;
        refs.push(cells[i].as_str());
        assert(refs@.map_values(|f: &str| f@) =~= before.map_values(|f: &str| f@).push(cells@[i as int]@));
        assert(texts(cells@).take(i + 1) =~= texts(cells@).take(i as int).push(cells@[i as int]@));
        i = i + 1;
    }
    assert(texts(cells@).take(i as int) =~= texts(cells@));
    csv_row(refs.as_slice())
}

fn header_line() -> (r: String)
    ensures
        r@ == csv_line(csv_header_cells()),
{
    let mut v: Vec<String> = Vec::new();
    push_text(&mut v, "row_type");
    push_text(&mut v, "id");
    push_text(&mut v, "project");
    push_text(&mut v, "project_path");
    push_text(&mut v, "session_id");
    push_text(&mut v, "parent_session_id");
    push_text(&mut v, "timestamp");
    push_text(&mut v, "updated_at");
    push_text(&mut v, "weekday");
    push_text(&mut v, "hour");
    push_text(&mut v, "model");
    push_text(&mut v, "prompt_preview");
    push_text(&mut v, "prompt_chars");
    push_text(&mut v, "input_tokens");
    push_text(&mut v, "cached_input_tokens");
    push_text(&mut v, "output_tokens");
    push_text(&mut v, "reasoning_output_tokens");
    push_text(&mut v, "total_tokens");
    push_text(&mut v, "calls");
    push_text(&mut v, "cost_usd");
    push_text(&mut v, "source_path");
    push_text(&mut v, "pricing_source");
    push_text(&mut v, "selected_cost_source");
    push_text(&mut v, "cost_source_updated_at");
    push_text(&mut v, "cost_source_error");
    push_text(&mut v, "local_total_cost_usd");
    push_text(&mut v, "local_last_7d_cost_usd");
    assert(texts(v@) =~= csv_header_cells());
    line_of(&v)
}

fn summary_line(r: &CostAnalyticsCsvReport) -> (out: String)
    ensures
        out@ == csv_line(summary_cells(*r)),
{
    let mut v: Vec<String> = Vec::new();
    push_text(&mut v, "summary");
    push_text(&mut v, "all");
    push_empty(&mut v, 5);
    push_cell(&mut v, i64_string(r.updated_at));
    push_empty(&mut v, 5);
    push_tokens(&mut v, &r.total);
    push_cell(&mut v, decimal_string(r.event_count as u64));
    push_text(&mut v, r.total_cost_usd.as_str());
    push_empty(&mut v, 1);
    push_text(&mut v, r.pricing_source.as_str());
    push_text(&mut v, r.cost_source.as_str());
    push_cell(&mut v, opt_time_string(r.cost_source_updated_at));
    match &r.cost_source_error {
        Some(e) => push_text(&mut v, e.as_str()),
        None => push_empty(&mut v, 1),
    }
    push_text(&mut v, r.local_total_cost_usd.as_str());
    push_text(&mut v, r.local_last_7d_cost_usd.as_str());
    assert(texts(v@) =~= summary_cells(*r));
    line_of(&v)
}

fn project_line(p: &CsvProjectRow, pricing: &str) -> (out: String)
    ensures
        out@ == csv_line(project_cells(*p, pricing@)),
{
    let mut v: Vec<String> = Vec::new();
    push_text(&mut v, "project");
    push_text(&mut v, p.project_name.as_str());
    push_text(&mut v, p.project_name.as_str());
    push_text(&mut v, p.project_path.as_str());
    push_empty(&mut v, 3);
    push_cell(&mut v, opt_time_string(p.last_at));
    push_empty(&mut v, 5);
    push_tokens(&mut v, &p.total);
    push_cell(&mut v, decimal_string(p.event_count as u64));
    push_text(&mut v, p.cost_usd.as_str());
    push_empty(&mut v, 1);
    push_text(&mut v, pricing);
    push_text(&mut v, "local_estimate");
    push_empty(&mut v, 4);
    assert(texts(v@) =~= project_cells(*p, pricing@));
    line_of(&v)
}

fn session_line(s: &CsvSessionRow, pricing: &str) -> (out: String)
    ensures
        out@ == csv_line(session_cells(*s, pricing@)),
{
    let mut v: Vec<String> = Vec::new();
    push_text(&mut v, "session");
    push_text(&mut v, s.session_id.as_str());
    push_text(&mut v, s.project_name.as_str());
    push_text(&mut v, s.project_path.as_str());
    push_text(&mut v, s.session_id.as_str());
    match &s.parent_session_id {
        Some(p) => push_text(&mut v, p.as_str()),
        None => push_empty(&mut v, 1),
    }
    push_cell(&mut v, opt_time_string(s.started_at));
    push_cell(&mut v, opt_time_string(s.updated_at));
    push_empty(&mut v, 2);
    push_text(&mut v, s.model.as_str());
    push_empty(&mut v, 2);
    push_tokens(&mut v, &s.total);
    push_cell(&mut v, decimal_string(s.event_count as u64));
    push_text(&mut v, s.cost_usd.as_str());
    push_text(&mut v, s.source_path.as_str());
    push_text(&mut v, pricing);
    push_text(&mut v, "local_estimate");
    push_empty(&mut v, 4);
    assert(texts(v@) =~= session_cells(*s, pricing@));
    line_of(&v)
}

fn prompt_line(p: &CsvPromptRow, pricing: &str) -> (out: String)
    ensures
        out@ == csv_line(prompt_cells(*p, pricing@)),
{
    let mut v: Vec<String> = Vec::new();
    push_text(&mut v, "top_prompt");
    let mut id = p.session_id.clone();
    id.append(":");
    id.append(i64_string(p.timestamp).as_str());
    push_cell(&mut v, id);
    push_text(&mut v, p.project_name.as_str());
    push_text(&mut v, p.project_path.as_str());
    push_text(&mut v, p.session_id.as_str());
    push_empty(&mut v, 1);
    push_cell(&mut v, i64_string(p.timestamp));
    push_empty(&mut v, 3);
    push_text(&mut v, p.model.as_str());
    push_text(&mut v, p.prompt_preview.as_str());
    push_cell(&mut v, decimal_string(p.prompt_chars as u64));
    push_tokens(&mut v, &p.total);
    push_empty(&mut v, 1);
    push_text(&mut v, p.cost_usd.as_str());
    push_text(&mut v, p.source_path.as_str());
    push_text(&mut v, pricing);
    push_text(&mut v, "local_estimate");
    push_empty(&mut v, 4);
    assert(texts(v@) =~= prompt_cells(*p, pricing@));
    line_of(&v)
}

fn heatmap_line(b: &CsvHeatmapRow, pricing: &str) -> (out: String)
    ensures
        out@ == csv_line(heatmap_cells(*b, pricing@)),
{
    let mut v: Vec<String> = Vec::new();
    push_text(&mut v, "heatmap");
    let mut id = decimal_string(b.weekday as u64);
    id.append("-");
    id.append(decimal_string(b.hour as u64).as_str());
    push_cell(&mut v, id);
    push_empty(&mut v, 3);
    push_cell(&mut v, decimal_string(b.weekday as u64));
    push_cell(&mut v, decimal_string(b.hour as u64));
    push_empty(&mut v, 7);
    push_cell(&mut v, decimal_string(b.tokens));
    push_cell(&mut v, decimal_string(b.calls as u64));
    push_text(&mut v, b.cost_usd.as_str());
    push_empty(&mut v, 1);
    push_text(&mut v, pricing);
    push_text(&mut v, "local_estimate");
    push_empty(&mut v, 7);
    assert(texts(v@) =~= heatmap_cells(*b, pricing@));
    line_of(&v)
}

/// The lines of the CSV export (see `cost_csv_lines`).
pub fn cost_analytics_csv_rows(r: &CostAnalyticsCsvReport) -> (out: Vec<String>)
    ensures
        texts(out@) == cost_csv_lines(*r),
{
    let ghost pricing = r.pricing_source@;
    let mut lines: Vec<String> = Vec::new();
    push_cell(&mut lines, header_line());
    push_cell(&mut lines, summary_line(r));
    let ghost base = texts(lines@);
    let mut i: usize = 0;
    while i < r.projects.len()
        invariant
            i <= r.projects@.len(),
            pricing == r.pricing_source@,
            texts(lines@) == base + r.projects@.take(i as int).map_values(|p: CsvProjectRow| csv_line(project_cells(p, pricing))),
        decreases r.projects@.len() - i,
    {
        push_cell(&mut lines, project_line(&r.projects[i], r.pricing_source.as_str()));
        assert(r.projects@.take(i + 1).map_values(|p: CsvProjectRow| csv_line(project_cells(p, pricing)))
            =~= r.projects@.take(i as int).map_values(|p: CsvProjectRow| csv_line(project_cells(p, pricing))).push(
            csv_line(project_cells(r.projects@[i as int], pricing)),
        ));
        i = i + 1;
    }
    assert(r.projects@.take(i as int) =~= r.projects@);
    let ghost base2 = texts(lines@);
    let mut j: usize = 0;
    while j < r.sessions.len()
        invariant
            j <= r.sessions@.len(),
            pricing == r.pricing_source@,
            texts(lines@) == base2 + r.sessions@.take(j as int).map_values(|s: CsvSessionRow| csv_line(session_cells(s, pricing))),
        decreases r.sessions@.len() - j,
    {
        push_cell(&mut lines, session_line(&r.sessions[j], r.pricing_source.as_str()));
        assert(r.sessions@.take(j + 1).map_values(|s: CsvSessionRow| csv_line(session_cells(s, pricing)))
            =~= r.sessions@.take(j as int).map_values(|s: CsvSessionRow| csv_line(session_cells(s, pricing))).push(
            csv_line(session_cells(r.sessions@[j as int], pricing)),
        ));
        j = j + 1;
    }
    assert(r.sessions@.take(j as int) =~= r.sessions@);
    let ghost base3 = texts(lines@);
    let mut k: usize = 0;
    while k < r.top_prompts.len()
        invariant
            k <= r.top_prompts@.len(),
            pricing == r.pricing_source@,
            texts(lines@) == base3 + r.top_prompts@.take(k as int).map_values(|p: CsvPromptRow| csv_line(prompt_cells(p, pricing))),
        decreases r.top_prompts@.len() - k,
    {
        push_cell(&mut lines, prompt_line(&r.top_prompts[k], r.pricing_source.as_str()));
        assert(r.top_prompts@.take(k + 1).map_values(|p: CsvPromptRow| csv_line(prompt_cells(p, pricing)))
            =~= r.top_prompts@.take(k as int).map_values(|p: CsvPromptRow| csv_line(prompt_cells(p, pricing))).push(
            csv_line(prompt_cells(r.top_prompts@[k as int], pricing)),
        ));
        k = k + 1;
    }
    assert(r.top_prompts@.take(k as int) =~= r.top_prompts@);
    let ghost base4 = texts(lines@);
    let mut h: usize = 0;
    while h < r.heatmap.len()
        invariant
            h <= r.heatmap@.len(),
            pricing == r.pricing_source@,
            texts(lines@) == base4 + heatmap_lines(r.heatmap@.take(h as int), pricing),
        decreases r.heatmap@.len() - h,
    {
        assert(r.heatmap@.take(h + 1).drop_last() =~= r.heatmap@.take(h as int));
        if r.heatmap[h].calls != 0 {
            push_cell(&mut lines, heatmap_line(&r.heatmap[h], r.pricing_source.as_str()));
        }
        h = h + 1;
    }
    assert(r.heatmap@.take(h as int) =~= r.heatmap@);
    assert(texts(lines@) =~= cost_csv_lines(*r));
    lines
}

/// The CSV export of the cost analytics: its lines, each ended by a line
/// break.
pub fn cost_analytics_csv(r: &CostAnalyticsCsvReport) -> (out: String)
    ensures
        out@ == terminated_lines(cost_csv_lines(*r)),
{
    let lines = cost_analytics_csv_rows(r);
    let ghost ls = texts(lines@);
    let mut out = String::new();
    let mut i: usize = 0;
    while i < lines.len()
        invariant
            i <= lines@.len(),
            ls == texts(lines@),
            out@ == terminated_lines(ls.take(i as int)),
        decreases lines@.len() - i,
    {
        assert(ls.take(i + 1).drop_last() =~= ls.take(i as int));
        out.append(lines[i].as_str());
        out.append("\n");
        i = i + 1;
    }
    assert(ls.take(i as int) =~= ls);
    out
}

/// What a session file contributes to its project's figures.
pub struct CostSessionFigures {
    pub project_path: String,
    pub prompt_keys: Vec<String>,
    pub event_count: usize,
    pub total: CodexTokenTotals,
    pub updated_at: Option<i64>,
}

/// The token figures of one project: its sessions, distinct prompts,
/// token events, usage and last activity.
pub struct ProjectFigures {
    pub project_path: String,
    pub session_count: usize,
    pub prompt_count: usize,
    pub event_count: usize,
    pub total: CodexTokenTotals,
    pub last_at: Option<i64>,
}

/// The later of two optional times.
pub open spec fn later_time(a: Option<i64>, b: Option<i64>) -> Option<i64> {
    match (a, b) {
        (Some(x), Some(y)) => Some(if x >= y { x } else { y }),
        (Some(x), None) => Some(x),
        (None, Some(y)) => Some(y),
        (None, None) => None,
    }
}

/// The figures of project `path` over the first `n` sessions: session
/// count, prompt keys, token events, usage (saturating) and last activity.
pub open spec fn project_fold(ss: Seq<CostSessionFigures>, path: Seq<char>, n: int) -> (nat, Set<Seq<char>>, nat, CodexTokenTotals, Option<i64>)
    decreases n,
{
    if n <= 0 {
        (0, Set::empty(), 0, zero_totals(), None)
    } else {
        let (c, p, e, t, l) = project_fold(ss, path, n - 1);
        let s = ss[n - 1];
        if s.project_path@ == path {
            (c + 1, p.union(texts(s.prompt_keys@).to_set()), (e + s.event_count) as nat, add_totals(t, s.total), later_time(l, s.updated_at))
        } else {
            (c, p, e, t, l)
        }
    }
}

/// The project paths among the first `n` sessions.
pub open spec fn project_paths(ss: Seq<CostSessionFigures>, n: int) -> Set<Seq<char>>
    decreases n,
{
    if n <= 0 {
        Set::empty()
    } else {
        project_paths(ss, n - 1).insert(ss[n - 1].project_path@)
    }
}

/// The token events of the first `n` sessions.
pub open spec fn session_events(ss: Seq<CostSessionFigures>, n: int) -> nat
    decreases n,
{
    if n <= 0 {
        0
    } else {
        (session_events(ss, n - 1) + ss[n - 1].event_count) as nat
    }
}

proof fn lemma_project_fold_bounded(ss: Seq<CostSessionFigures>, path: Seq<char>, n: int)
    requires
        0 <= n <= ss.len(),
    ensures
        project_fold(ss, path, n).0 <= n,
        project_fold(ss, path, n).2 <= session_events(ss, n),
        project_fold(ss, path, n).1.finite(),
    decreases n,
{
    if n > 0 {
        lemma_project_fold_bounded(ss, path, n - 1);
    }
}

proof fn lemma_session_events_monotone(ss: Seq<CostSessionFigures>, a: int, b: int)
    requires
        0 <= a <= b,
    ensures
        session_events(ss, a) <= session_events(ss, b),
    decreases b - a,
{
    if a < b {
        lemma_session_events_monotone(ss, a, b - 1);
    }
}

/// Every strictly ascending sequence has as many elements as its set.
proof fn lemma_ascending_set_len(s: Seq<Seq<char>>)
    requires
        crate::order::strictly_ascending(s),
    ensures
        s.to_set().len() == s.len(),
{
    assert forall|i: int, j: int| 0 <= i < s.len() && 0 <= j < s.len() && i != j implies s[i] != s[j] by {
        if i < j {
            assert(crate::order::seq_lt(s[i], s[j]));
        } else {
            assert(crate::order::seq_lt(s[j], s[i]));
        }
        crate::order::lemma_seq_lt_irreflexive(s[i]);
    }
    assert(s.no_duplicates());
    s.unique_seq_to_set();
}

/// The figures of each project of the sessions, in ascending path order.
pub fn project_figures(sessions: &Vec<CostSessionFigures>) -> (r: Vec<ProjectFigures>)
    requires
        session_events(sessions@, sessions@.len() as int) <= usize::MAX,
    ensures
        crate::order::strictly_ascending(r@.map_values(|p: ProjectFigures| p.project_path@)),
        r@.map_values(|p: ProjectFigures| p.project_path@).to_set() == project_paths(sessions@, sessions@.len() as int),
        forall|j: int| 0 <= j < r@.len() ==> ({
            let f = project_fold(sessions@, (#[trigger] r@[j]).project_path@, sessions@.len() as int);
            &&& r@[j].session_count == f.0
            &&& r@[j].prompt_count == f.1.len()
            &&& r@[j].event_count == f.2
            &&& r@[j].total == f.3
            &&& r@[j].last_at == f.4
        }),
{
    let n = sessions.len();
    let mut paths: Vec<String> = Vec::new();
    let mut i: usize = 0;
    while i < n
        invariant
            n == sessions@.len(),
            i <= n,
            crate::order::strictly_ascending(texts(paths@)),
            texts(paths@).to_set() == project_paths(sessions@, i as int),
        decreases n - i,
    {
        crate::order::insert_ascending_unique(&mut paths, sessions[i].project_path.clone());
        i = i + 1;
    }
    let ghost ks = texts(paths@);
    let mut out: Vec<ProjectFigures> = Vec::new();
    let mut j: usize = 0;
    while j < paths.len()
        invariant
            n == sessions@.len(),
            session_events(sessions@, n as int) <= usize::MAX,
            ks == texts(paths@),
            crate::order::strictly_ascending(ks),
            j <= paths@.len(),
            out@.map_values(|p: ProjectFigures| p.project_path@) == ks.take(j as int),
            forall|a: int| 0 <= a < j ==> ({
                let f = project_fold(sessions@, (#[trigger] out@[a]).project_path@, n as int);
                &&& out@[a].session_count == f.0
                &&& out@[a].prompt_count == f.1.len()
                &&& out@[a].event_count == f.2
                &&& out@[a].total == f.3
                &&& out@[a].last_at == f.4
            }),
        decreases paths@.len() - j,
    {
        let key = &paths[j];
        let ghost k = key@;
        let mut count: usize = 0;
        let mut prompts: Vec<String> = Vec::new();
        let mut events: usize = 0;
        let mut total = CodexTokenTotals::zero();
        let mut last: Option<i64> = None;
        let mut q: usize = 0;
        while q < n
            invariant
                n == sessions@.len(),
                session_events(sessions@, n as int) <= usize::MAX,
                q <= n,
                k == key@,
                crate::order::strictly_ascending(texts(prompts@)),
                ({
                    let f = project_fold(sessions@, k, q as int);
                    &&& count == f.0
                    &&& texts(prompts@).to_set() == f.1
                    &&& events == f.2
                    &&& total == f.3
                    &&& last == f.4
                }),
            decreases n - q,
        {
            proof {
                lemma_project_fold_bounded(sessions@, k, q + 1);
                lemma_session_events_monotone(sessions@, q + 1, n as int);
            }
            let s = &sessions[q];
            if str_eq(s.project_path.as_str(), key.as_str()) {
                count = count + 1;
                events = events + s.event_count;
                total.add(&s.total);
                last = crate::token_usage::max_option_i64(last, s.updated_at);
                let ghost before = texts(prompts@).to_set();
                let mut t: usize = 0;
                while t < s.prompt_keys.len()
                    invariant
                        t <= s.prompt_keys@.len(),
                        crate::order::strictly_ascending(texts(prompts@)),
                        texts(prompts@).to_set() == before.union(texts(s.prompt_keys@).take(t as int).to_set()),
                    decreases s.prompt_keys@.len() - t,
                {
                    crate::order::insert_ascending_unique(&mut prompts, s.prompt_keys[t].clone());
                    proof {
                        let tk = texts(s.prompt_keys@);
                        assert(tk.take(t + 1) =~= tk.take(t as int).push(tk[t as int]));
                        tk.take(t as int).lemma_push_to_set_commute(tk[t as int]);
                        assert(texts(prompts@).to_set() =~= before.union(tk.take(t + 1).to_set()));
                    }
                    t = t + 1;
                }
                assert(texts(s.prompt_keys@).take(t as int) =~= texts(s.prompt_keys@));
            }
            q = q + 1;
        }
        proof {
            lemma_ascending_set_len(texts(prompts@));
        }
        let ghost before_out = out@;
        out.push(ProjectFigures {
            project_path: key.clone(),
            session_count: count,
            prompt_count: prompts.len(),
            event_count: events,
            total,
            last_at: last,
        });
        assert(out@.map_values(|p: ProjectFigures| p.project_path@) =~= ks.take(j + 1)) by {
            assert(ks.take(j + 1) =~= ks.take(j as int).push(ks[j as int]));
            assert(before_out.map_values(|p: ProjectFigures| p.project_path@) == ks.take(j as int));
        }
        j = j + 1;
    }
    assert(ks.take(j as int) =~= ks);
    out
}

/// The token figures of one prompt: its first event (which names its
/// session, project, model and preview), its usage over all its events
/// (saturating) and the time of its earliest event.
pub struct PromptFigures {
    pub first_event: usize,
    pub total: CodexTokenTotals,
    pub timestamp: i64,
}

/// Over the first `n` events, those of prompt `key`: the first one, the
/// usage added up and the earliest time.
pub open spec fn prompt_fold(es: Seq<AnalyticsTokenEvent>, key: Seq<char>, n: int) -> (Option<int>, CodexTokenTotals, Option<i64>)
    decreases n,
{
    if n <= 0 {
        (None, zero_totals(), None)
    } else {
        let (f, t, m) = prompt_fold(es, key, n - 1);
        let e = es[n - 1];
        if e.prompt_key@ == key {
            (
                if f is Some { f } else { Some(n - 1) },
                add_totals(t, e.total),
                Some(match m {
                    Some(x) => if x <= e.timestamp { x } else { e.timestamp },
                    None => e.timestamp,
                }),
            )
        } else {
            (f, t, m)
        }
    }
}

/// The prompt keys among the first `n` events.
pub open spec fn prompt_keys_of(es: Seq<AnalyticsTokenEvent>, n: int) -> Set<Seq<char>>
    decreases n,
{
    if n <= 0 {
        Set::empty()
    } else {
        prompt_keys_of(es, n - 1).insert(es[n - 1].prompt_key@)
    }
}

proof fn lemma_prompt_fold(es: Seq<AnalyticsTokenEvent>, key: Seq<char>, n: int)
    requires
        0 <= n <= es.len(),
    ensures
        prompt_fold(es, key, n).0 matches Some(f) ==> 0 <= f < n && es[f].prompt_key@ == key,
        prompt_keys_of(es, n).contains(key) <==> prompt_fold(es, key, n).0 is Some,
        prompt_fold(es, key, n).0 is Some <==> prompt_fold(es, key, n).2 is Some,
    decreases n,
{
    if n > 0 {
        lemma_prompt_fold(es, key, n - 1);
    }
}

/// The figures of each prompt of the events, in ascending key order.
pub fn prompt_figures(events: &Vec<AnalyticsTokenEvent>) -> (r: Vec<PromptFigures>)
    ensures
        crate::order::strictly_ascending(r@.map_values(|p: PromptFigures| events@[p.first_event as int].prompt_key@)),
        r@.map_values(|p: PromptFigures| events@[p.first_event as int].prompt_key@).to_set() == prompt_keys_of(events@, events@.len() as int),
        forall|j: int| 0 <= j < r@.len() ==> ({
            let f = prompt_fold(events@, events@[(#[trigger] r@[j]).first_event as int].prompt_key@, events@.len() as int);
            &&& r@[j].first_event < events@.len()
            &&& f.0 == Some(r@[j].first_event as int)
            &&& r@[j].total == f.1
            &&& f.2 == Some(r@[j].timestamp)
        }),
{
    let n = events.len();
    let mut keys: Vec<String> = Vec::new();
    let mut i: usize = 0;
    while i < n
        invariant
            n == events@.len(),
            i <= n,
            crate::order::strictly_ascending(texts(keys@)),
            texts(keys@).to_set() == prompt_keys_of(events@, i as int),
        decreases n - i,
    {
        crate::order::insert_ascending_unique(&mut keys, events[i].prompt_key.clone());
        i = i + 1;
    }
    let ghost ks = texts(keys@);
    let mut out: Vec<PromptFigures> = Vec::new();
    let mut j: usize = 0;
    while j < keys.len()
        invariant
            n == events@.len(),
            ks == texts(keys@),
            crate::order::strictly_ascending(ks),
            ks.to_set() == prompt_keys_of(events@, n as int),
            j <= keys@.len(),
            out@.map_values(|p: PromptFigures| events@[p.first_event as int].prompt_key@) == ks.take(j as int),
            forall|a: int| 0 <= a < j ==> ({
                let f = prompt_fold(events@, events@[(#[trigger] out@[a]).first_event as int].prompt_key@, n as int);
                &&& out@[a].first_event < n
                &&& f.0 == Some(out@[a].first_event as int)
                &&& out@[a].total == f.1
                &&& f.2 == Some(out@[a].timestamp)
            }),
        decreases keys@.len() - j,
    {
        let key = &keys[j];
        let ghost k = key@;
        let mut first: Option<usize> = None;
        let mut total = CodexTokenTotals::zero();
        let mut earliest: i64 = 0;
        let mut q: usize = 0;
        while q < n
            invariant
                n == events@.len(),
                q <= n,
                k == key@,
                ({
                    let f = prompt_fold(events@, k, q as int);
                    &&& match f.0 {
                        Some(x) => first == Some(x as usize),
                        None => first is None,
                    }
                    &&& total == f.1
                    &&& (f.2 matches Some(m) ==> earliest == m)
                    &&& (f.0 is Some <==> f.2 is Some)
                }),
            decreases n - q,
        {
            proof {
                lemma_prompt_fold(events@, k, q as int);
            }
            let e = &events[q];
            if str_eq(e.prompt_key.as_str(), key.as_str()) {
                if first.is_none() {
                    first = Some(q);
                    earliest = e.timestamp;
                } else if e.timestamp < earliest {
                    earliest = e.timestamp;
                }
                total.add(&e.total);
            }
            q = q + 1;
        }
        proof {
            assert(ks.to_set().contains(ks[j as int]));
            lemma_prompt_fold(events@, k, n as int);
        }
        let f = match first {
            Some(f) => f,
            None => {
                proof {
                    assert(false);
                }
                0
            },
        };
        let ghost before_out = out@;
        out.push(PromptFigures { first_event: f, total, timestamp: earliest });
        assert(out@.map_values(|p: PromptFigures| events@[p.first_event as int].prompt_key@) =~= ks.take(j + 1)) by {
            assert(ks.take(j + 1) =~= ks.take(j as int).push(ks[j as int]));
            assert(before_out.map_values(|p: PromptFigures| events@[p.first_event as int].prompt_key@) == ks.take(j as int));
        }
        j = j + 1;
    }
    assert(ks.take(j as int) =~= ks);
    out
}

/// What is known of a log file to tell whether its cached reading still
/// holds: its length and modification time (in nanoseconds since the epoch).
#[derive(Clone, Copy, PartialEq, Eq, Structural)]
pub struct FileFingerprint {
    pub length: u64,
    pub modified_at: Option<i128>,
}

/// What a scan does with a log file given its cached reading.
#[derive(Clone, Copy, PartialEq, Eq, Structural)]
pub enum CacheFileAction {
    /// The file could not be inspected: it is left out.
    Skip,
    /// The file is unchanged: its cached reading is used.
    Reuse,
    /// The file changed: read what was appended, else read it again.
    Append,
    /// Nothing is cached for the file: read it.
    Parse,
}

/// The action for a file with fingerprint `current` (none when it could not
/// be inspected) and cached fingerprint `cached`.
pub open spec fn cache_action(cached: Option<FileFingerprint>, current: Option<FileFingerprint>) -> CacheFileAction {
    match current {
        None => CacheFileAction::Skip,
        Some(c) => match cached {
            Some(k) => if k == c {
                CacheFileAction::Reuse
            } else {
                CacheFileAction::Append
            },
            None => CacheFileAction::Parse,
        },
    }
}

/// Decides what a scan does with one log file (see `cache_action`).
pub fn cache_file_action(cached: Option<FileFingerprint>, current: Option<FileFingerprint>) -> (r: CacheFileAction)
    ensures
        r == cache_action(cached, current),
{
    match current {
        None => CacheFileAction::Skip,
        Some(c) => match cached {
            Some(k) => if k.length == c.length && match (k.modified_at, c.modified_at) {
                (Some(a), Some(b)) => a == b,
                (None, None) => true,
                _ => false,
            } {
                CacheFileAction::Reuse
            } else {
                CacheFileAction::Append
            },
            None => CacheFileAction::Parse,
        },
    }
}

/// The number of cached files a scan drops: those whose path is not among
/// the files it could inspect.
pub open spec fn evicted_count(cached: Seq<Seq<char>>, present: Seq<Seq<char>>) -> nat
    decreases cached.len(),
{
    if cached.len() == 0 {
        0
    } else {
        evicted_count(cached.drop_last(), present) + if present.contains(cached.last()) { 0nat } else { 1nat }
    }
}

/// Counts the cached files a scan drops (see `evicted_count`).
pub fn evicted_cache_files(cached: &Vec<String>, present: &Vec<String>) -> (r: usize)
    ensures
        r == evicted_count(texts(cached@), texts(present@)),
{
    let mut count: usize = 0;
    let mut i: usize = 0;
    while i < cached.len()
        invariant
            i <= cached@.len(),
            count == evicted_count(texts(cached@).take(i as int), texts(present@)),
            count <= i,
        decreases cached@.len() - i,
    {
        assert(texts(cached@).take(i + 1).drop_last() =~= texts(cached@).take(i as int));
        if !crate::provider_sync::contains_text(present, cached[i].as_str()) {
            count = count + 1;
        }
        i = i + 1;
    }
    assert(texts(cached@).take(i as int) =~= texts(cached@));
    count
}


/// The weekday (days from Sunday) and hour of the Unix time `timestamp`
/// seen at an offset of `offset_seconds` from UTC: 1970-01-01 was a
/// Thursday.
pub open spec fn local_weekday_hour(timestamp: i64, offset_seconds: i32) -> (int, int) {
    let local = timestamp + offset_seconds;
    (((local / 86400) + 4) % 7, (local % 86400) / 3600)
}

/// The heatmap bucket, as (weekday from Sunday, hour), of the Unix time
/// `timestamp` at a UTC offset of `offset_seconds`.
pub fn heatmap_bucket_key_with_offset(timestamp: i64, offset_seconds: i32) -> (r: (u8, u8))
    ensures
        r.0 as int == local_weekday_hour(timestamp, offset_seconds).0,
        r.1 as int == local_weekday_hour(timestamp, offset_seconds).1,
        r.0 < 7,
        r.1 < 24,
{
    let local: i128 = timestamp as i128 + offset_seconds as i128;
    let lift: i128 = 604800 * 20_000_000_000_000;
    let shifted: u128 = (local + lift) as u128;
    let days: u128 = shifted / 86400;
    let within: u128 = shifted % 86400;
    let weekday: u128 = (days + 4) % 7;
    let hour: u128 = within / 3600;
    proof {
        let l = local as int;
        let n = 7 * 20_000_000_000_000int;
        assert(shifted as int == 86400 * n + l);
        vstd::arithmetic::div_mod::lemma_mod_multiples_vanish(n, l, 86400);
        vstd::arithmetic::div_mod::lemma_fundamental_div_mod(shifted as int, 86400);
        vstd::arithmetic::div_mod::lemma_fundamental_div_mod(l, 86400);
        let q = l / 86400;
        assert(days as int == q + n) by (nonlinear_arith)
            requires
                shifted as int == 86400 * (days as int) + (within as int),
                l == 86400 * q + (within as int),
                shifted as int == 86400 * n + l,
        ;
        vstd::arithmetic::div_mod::lemma_mod_multiples_vanish(20_000_000_000_000int, q + 4, 7);
        assert(7 * 20_000_000_000_000int + (q + 4) == days as int + 4);
    }
    (weekday as u8, hour as u8)
}

/// What the heatmap reads of a token event: its time, the UTC offset of
/// local time at that moment, and its tokens.
#[derive(Clone, Copy, Debug)]
pub struct HeatmapEvent {
    pub timestamp: i64,
    pub local_offset_seconds: i32,
    pub tokens: u64,
}

/// The calls and tokens of one hour of the week.
#[derive(Clone, Copy, Debug, PartialEq, Eq, Structural)]
pub struct HourlyTokenBucket {
    pub weekday: u8,
    pub hour: u8,
    pub calls: usize,
    pub tokens: u64,
}

/// The position of an event's bucket among the 168 buckets, ordered by
/// weekday, then hour.
pub open spec fn bucket_position(e: HeatmapEvent) -> int {
    local_weekday_hour(e.timestamp, e.local_offset_seconds).0 * 24 + local_weekday_hour(
        e.timestamp,
        e.local_offset_seconds,
    ).1
}

/// The empty heatmap: every hour of the week, in order, with no calls.
pub open spec fn empty_heatmap() -> Seq<HourlyTokenBucket> {
    Seq::new(168, |i: int| HourlyTokenBucket { weekday: (i / 24) as u8, hour: (i % 24) as u8, calls: 0, tokens: 0 })
}

/// The heatmap counts an event from `start` on whose time `time` can
/// represent.
pub open spec fn on_heatmap(e: HeatmapEvent, start: i64) -> bool {
    e.timestamp >= start && unix_time_in_range(e.timestamp)
}

/// The heatmap after one more event: counted, with its tokens added
/// (saturating), in its hour of the week when it is on the heatmap.
pub open spec fn heatmap_step(bs: Seq<HourlyTokenBucket>, e: HeatmapEvent, start: i64) -> Seq<HourlyTokenBucket> {
    if on_heatmap(e, start) {
        let i = bucket_position(e);
        bs.update(
            i,
            HourlyTokenBucket {
                calls: (bs[i].calls + 1) as usize,
                tokens: crate::token_usage::sat_add(bs[i].tokens, e.tokens),
                ..bs[i]
            },
        )
    } else {
        bs
    }
}

/// The heatmap of the first `k` events.
pub open spec fn heatmap_fold(es: Seq<HeatmapEvent>, start: i64, k: int) -> Seq<HourlyTokenBucket>
    decreases k,
{
    if k <= 0 {
        empty_heatmap()
    } else {
        heatmap_step(heatmap_fold(es, start, k - 1), es[k - 1], start)
    }
}

/// Counts the calls and tokens of the events from `heatmap_start` on per
/// hour of the week (local time of each event); a time outside the years
/// -9999 to 9999 has no local hour and is left out.
pub fn heatmap_buckets(events: &Vec<HeatmapEvent>, heatmap_start: i64) -> (r: Vec<HourlyTokenBucket>)
    ensures
        r@ == heatmap_fold(events@, heatmap_start, events@.len() as int),
{
    let mut out: Vec<HourlyTokenBucket> = Vec::new();
    let mut i: usize = 0;
    while i < 168
        invariant
            i <= 168,
            out@ == empty_heatmap().take(i as int),
        decreases 168 - i,
    {
        out.push(HourlyTokenBucket { weekday: (i / 24) as u8, hour: (i % 24) as u8, calls: 0, tokens: 0 });
        i = i + 1;
        assert(out@ =~= empty_heatmap().take(i as int));
    }
    assert(out@ =~= empty_heatmap());
    let mut k: usize = 0;
    while k < events.len()
        invariant
            k <= events@.len(),
            out@ == heatmap_fold(events@, heatmap_start, k as int),
            out@.len() == 168,
            forall|j: int| 0 <= j < 168 ==> (#[trigger] out@[j]).calls <= k,
        decreases events@.len() - k,
    {
        let e = events[k];
        if e.timestamp >= heatmap_start && -377705116800 <= e.timestamp && e.timestamp <= 253402300799 {
            let (weekday, hour) = heatmap_bucket_key_with_offset(e.timestamp, e.local_offset_seconds);
            let p: usize = weekday as usize * 24 + hour as usize;
            let b = out[p];
            let tokens = if b.tokens > u64::MAX - e.tokens {
                u64::MAX
            } else {
                b.tokens + e.tokens
            };
            out.set(p, HourlyTokenBucket { calls: b.calls + 1, tokens, ..b });
        }
        k = k + 1;
    }
    out
}

/// The calls counted in the first `n` buckets.
pub open spec fn calls_total(bs: Seq<HourlyTokenBucket>, n: int) -> int
    decreases n,
{
    if n <= 0 {
        0
    } else {
        calls_total(bs, n - 1) + bs[n - 1].calls
    }
}

/// The number of the first `k` events that are on the heatmap.
pub open spec fn events_since(es: Seq<HeatmapEvent>, start: i64, k: int) -> int
    decreases k,
{
    if k <= 0 {
        0
    } else {
        events_since(es, start, k - 1) + if on_heatmap(es[k - 1], start) {
            1int
        } else {
            0int
        }
    }
}

proof fn lemma_calls_total_update(bs: Seq<HourlyTokenBucket>, i: int, b: HourlyTokenBucket, n: int)
    requires
        0 <= i < bs.len(),
        0 <= n <= bs.len(),
    ensures
        calls_total(bs.update(i, b), n) == calls_total(bs, n) + if i < n {
            b.calls - bs[i].calls
        } else {
            0int
        },
    decreases n,
{
    if n > 0 {
        lemma_calls_total_update(bs, i, b, n - 1);
    }
}

proof fn lemma_calls_total_empty(n: int)
    requires
        0 <= n <= 168,
    ensures
        calls_total(empty_heatmap(), n) == 0,
    decreases n,
{
    if n > 0 {
        lemma_calls_total_empty(n - 1);
    }
}

proof fn lemma_heatmap_fold_counts(es: Seq<HeatmapEvent>, start: i64, k: int)
    requires
        0 <= k <= es.len() <= usize::MAX,
    ensures
        heatmap_fold(es, start, k).len() == 168,
        forall|j: int| 0 <= j < 168 ==> (#[trigger] heatmap_fold(es, start, k)[j]).calls <= k,
        calls_total(heatmap_fold(es, start, k), 168) == events_since(es, start, k),
    decreases k,
{
    if k == 0 {
        lemma_calls_total_empty(168);
    } else {
        lemma_heatmap_fold_counts(es, start, k - 1);
        let bs = heatmap_fold(es, start, k - 1);
        let e = es[k - 1];
        if on_heatmap(e, start) {
            let i = bucket_position(e);
            let b = HourlyTokenBucket {
                calls: (bs[i].calls + 1) as usize,
                tokens: crate::token_usage::sat_add(bs[i].tokens, e.tokens),
                ..bs[i]
            };
            assert(0 <= i < 168);
            assert(bs[i].calls + 1 <= usize::MAX);
            lemma_calls_total_update(bs, i, b, 168);
        }
    }
}

/// The heatmap counts every event from its start on exactly once, and no
/// earlier event (nor one whose time has no local hour): its calls add up
/// to the number of those events.
pub proof fn law_heatmap_counts_each_recent_event_once(es: Seq<HeatmapEvent>, start: i64)
    requires
        es.len() <= usize::MAX,
    ensures
        heatmap_fold(es, start, es.len() as int).len() == 168,
        calls_total(heatmap_fold(es, start, es.len() as int), 168) == events_since(es, start, es.len() as int),
{
    lemma_heatmap_fold_counts(es, start, es.len() as int);
}

/// A project's name: the last component of its path when that is not
/// blank, else the whole path.
pub open spec fn project_name_of(path: Seq<char>, file_name: Option<Seq<char>>) -> Seq<char> {
    match file_name {
        Some(n) => if trim(n).len() > 0 {
            n
        } else {
            path
        },
        None => path,
    }
}

/// The project name of `path`, given the last component that
/// `Path::file_name` found in it (`None` when there is none).
pub fn project_name_from_file_name(path: &str, file_name: Option<String>) -> (r: String)
    ensures
        r@ == project_name_of(path@, crate::provider_sync::opt_text(file_name)),
{
    match file_name {
        Some(n) => {
            if trim_chars(n.as_str()).len() > 0 {
                n
            } else {
                path.to_string()
            }
        },
        None => path.to_string(),
    }
}

/// `/` or `\\`: a separator on Windows (the first also on Unix).
pub open spec fn is_separator(c: char) -> bool {
    c == '/' || c == '\\'
}

/// The path starts with two separators, as Windows UNC, device and verbatim
/// paths do.
pub open spec fn starts_with_two_separators(p: Seq<char>) -> bool {
    p.len() >= 2 && is_separator(p[0]) && is_separator(p[1])
}

/// A component every platform's path parser reads as itself: not empty, not
/// `.` or `..`, and without a separator.
pub open spec fn plain_component(y: Seq<char>) -> bool {
    &&& y.len() > 0
    &&& y != "."@
    &&& y != ".."@
    &&& forall|k: int| 0 <= k < y.len() ==> !is_separator(#[trigger] y[k])
}

/// `path` ends in `/` followed by the plain component from `i + 1` on, and
/// does not start with two separators.
pub open spec fn ends_in_plain_component(path: Seq<char>, i: int) -> bool {
    &&& 0 <= i < path.len()
    &&& path[i] == '/'
    &&& plain_component(path.skip(i + 1))
    &&& !starts_with_two_separators(path)
}

/// `std::path::Path::file_name` of `path`, as text. How a path splits into
/// components depends on the platform; on Unix and on Windows alike, a path
/// that ends in `/` and a plain component, and does not start with two
/// separators (no UNC, device or verbatim prefix), has that component as
/// its file name. Nothing is stated of other paths.
#[verifier::external_body]
fn path_file_name(path: &str) -> (r: Option<String>)
    ensures
        forall|i: int| #[trigger] ends_in_plain_component(path@, i) ==> crate::provider_sync::opt_text(r) == Some(
            path@.skip(i + 1),
        ),
{
    std::path::Path::new(path).file_name().and_then(|value| value.to_str()).map(|value| value.to_string())
}

/// The name a project is shown under: the last component of its path, or
/// the whole path when that component is missing or blank.
pub fn project_name_from_path(path: &str) -> (r: String)
    ensures
        r@ == path@ || trim(r@).len() > 0,
        forall|i: int| #[trigger] ends_in_plain_component(path@, i) ==> r@ == project_name_of(path@, Some(path@.skip(i + 1))),
{
    let file_name = path_file_name(path);
    project_name_from_file_name(path, file_name)
}

/// The Unix times `time::OffsetDateTime::from_unix_timestamp` accepts: the
/// years -9999 to 9999.
pub open spec fn unix_time_in_range(ts: i64) -> bool {
    -377705116800 <= ts <= 253402300799
}

/// The local calendar day (days since 1970-01-01) of the Unix time `ts` at a
/// UTC offset of `offset_seconds`.
pub open spec fn local_day(ts: i64, offset_seconds: i32) -> int {
    (ts + offset_seconds) / 86400
}

/// The local calendar day of `ts` at `offset_seconds`.
pub fn local_day_number(ts: i64, offset_seconds: i32) -> (r: i128)
    ensures
        r == local_day(ts, offset_seconds),
{
    let local: i128 = ts as i128 + offset_seconds as i128;
    let n: i128 = 140_000_000_000_000;
    let shifted: u128 = (local + 86400 * n) as u128;
    let days: u128 = shifted / 86400;
    let within: u128 = shifted % 86400;
    proof {
        let l = local as int;
        vstd::arithmetic::div_mod::lemma_mod_multiples_vanish(n as int, l, 86400);
        vstd::arithmetic::div_mod::lemma_fundamental_div_mod(shifted as int, 86400);
        vstd::arithmetic::div_mod::lemma_fundamental_div_mod(l, 86400);
        let q = l / 86400;
        assert(days as int == q + n) by (nonlinear_arith)
            requires
                shifted as int == 86400 * (days as int) + (within as int),
                l == 86400 * q + (within as int),
                shifted as int == 86400 * (n as int) + l,
        ;
    }
    days as i128 - n
}

/// What the seven-day cost window reads of a token event.
#[derive(Clone, Copy, Debug)]
pub struct WindowEvent {
    pub timestamp: i64,
    pub local_offset_seconds: i32,
    pub total: CodexTokenTotals,
}

/// The event falls on one of the seven complete local days before the local
/// day of `now`.
pub open spec fn in_last_complete_week(e: WindowEvent, now: i64, now_offset_seconds: i32) -> bool {
    &&& unix_time_in_range(now)
    &&& unix_time_in_range(e.timestamp)
    &&& local_day(now, now_offset_seconds) - 7 <= local_day(e.timestamp, e.local_offset_seconds)
    &&& local_day(e.timestamp, e.local_offset_seconds) <= local_day(now, now_offset_seconds) - 1
}

/// The tokens of the first `k` events that fall in the last complete week.
pub open spec fn last_week_totals(es: Seq<WindowEvent>, now: i64, now_offset_seconds: i32, k: int) -> CodexTokenTotals
    decreases k,
{
    if k <= 0 {
        zero_totals()
    } else if in_last_complete_week(es[k - 1], now, now_offset_seconds) {
        add_totals(last_week_totals(es, now, now_offset_seconds, k - 1), es[k - 1].total)
    } else {
        last_week_totals(es, now, now_offset_seconds, k - 1)
    }
}

/// Sums the tokens of the events on the seven complete local days before
/// today (today excluded), each day read at the local offset of its moment.
pub fn last_complete_week_totals(events: &Vec<WindowEvent>, now: i64, now_offset_seconds: i32) -> (r: CodexTokenTotals)
    ensures
        r == last_week_totals(events@, now, now_offset_seconds, events@.len() as int),
{
    let mut sum = CodexTokenTotals::zero();
    let now_ok = -377705116800 <= now && now <= 253402300799;
    let today = local_day_number(now, now_offset_seconds);
    let mut k: usize = 0;
    while k < events.len()
        invariant
            k <= events@.len(),
            now_ok == unix_time_in_range(now),
            today == local_day(now, now_offset_seconds),
            sum == last_week_totals(events@, now, now_offset_seconds, k as int),
        decreases events@.len() - k,
    {
        let e = events[k];
        if now_ok && -377705116800 <= e.timestamp && e.timestamp <= 253402300799 {
            let day = local_day_number(e.timestamp, e.local_offset_seconds);
            if today - 7 <= day && day <= today - 1 {
                sum.add(&e.total);
            }
        }
        k = k + 1;
    }
    sum
}

/// A project's last activity is the latest update time of its sessions: no
/// session of the project was updated later, it is the update time of one of
/// them, and it is missing only when none of them has one.
pub proof fn law_project_last_activity_is_latest(ss: Seq<CostSessionFigures>, path: Seq<char>, n: int)
    requires
        0 <= n <= ss.len(),
    ensures
        forall|i: int|
            0 <= i < n && (#[trigger] ss[i]).project_path@ == path && ss[i].updated_at is Some
                ==> project_fold(ss, path, n).4 is Some && ss[i].updated_at.unwrap() <= project_fold(ss, path, n).4.unwrap(),
        project_fold(ss, path, n).4 matches Some(m) ==> exists|i: int|
            0 <= i < n && (#[trigger] ss[i]).project_path@ == path && ss[i].updated_at == Some(m),
        project_fold(ss, path, n).4 is None ==> forall|i: int|
            0 <= i < n && (#[trigger] ss[i]).project_path@ == path ==> ss[i].updated_at is None,
    decreases n,
{
    if n > 0 {
        law_project_last_activity_is_latest(ss, path, n - 1);
        let prev = project_fold(ss, path, n - 1).4;
        let cur = project_fold(ss, path, n).4;
        if ss[n - 1].project_path@ == path {
            if let Some(m) = cur {
                if prev == Some(m) {
                    let i = choose|i: int| 0 <= i < n - 1 && (#[trigger] ss[i]).project_path@ == path && ss[i].updated_at == Some(m);
                    assert(0 <= i < n && ss[i].project_path@ == path && ss[i].updated_at == Some(m));
                } else {
                    assert(ss[n - 1].updated_at == Some(m));
                }
            }
        }
    }
}

/// The number of sessions of project `path` among the first `n`, their
/// token events, and the exact sum of their counter `f`.
pub open spec fn project_session_sums(ss: Seq<CostSessionFigures>, path: Seq<char>, n: int, f: int) -> (int, int, int)
    decreases n,
{
    if n <= 0 {
        (0, 0, 0)
    } else {
        let (c, e, t) = project_session_sums(ss, path, n - 1, f);
        if ss[n - 1].project_path@ == path {
            (c + 1, e + ss[n - 1].event_count, t + crate::token_usage::counter(ss[n - 1].total, f))
        } else {
            (c, e, t)
        }
    }
}

/// A project counts each of its sessions once, adds up their token events,
/// and sums each usage counter over them (saturating at `u64::MAX`);
/// sessions of other projects change nothing.
pub proof fn law_project_figures_add_up_its_sessions(ss: Seq<CostSessionFigures>, path: Seq<char>, n: int, f: int)
    requires
        0 <= n <= ss.len(),
        0 <= f < 5,
    ensures
        project_fold(ss, path, n).0 == project_session_sums(ss, path, n, f).0,
        project_fold(ss, path, n).2 == project_session_sums(ss, path, n, f).1,
        crate::token_usage::counter(project_fold(ss, path, n).3, f) == crate::token_usage::capped(
            project_session_sums(ss, path, n, f).2,
        ),
    decreases n,
{
    if n > 0 {
        law_project_figures_add_up_its_sessions(ss, path, n - 1, f);
        lemma_project_sums_nonnegative(ss, path, n - 1, f);
    }
}

proof fn lemma_project_sums_nonnegative(ss: Seq<CostSessionFigures>, path: Seq<char>, n: int, f: int)
    ensures
        project_session_sums(ss, path, n, f).2 >= 0,
    decreases n,
{
    if n > 0 {
        lemma_project_sums_nonnegative(ss, path, n - 1, f);
    }
}

} // verus!
