//! Reading a rollout log for cost analytics: the session it names, where
//! and with which model it worked, its prompts, and the usage of each token
//! event, tagged with the prompt it answered; then the usage each session
//! owns once fork lineage is applied, and its summary.
use vstd::prelude::*;

use crate::provider_sync::{
    contains_text, json_parse_error, json_pointer_string, json_string_at, json_syntax_error, opt_text,
};
use crate::order::texts;
use crate::record_hash::{fast_record_hash, record_hash};
use crate::text::{chars_of, decimal, decimal_string, str_eq, string_from, trim, trim_chars};
use crate::text_map::TextMap;
use crate::token_usage::{
    add_totals, delta_totals, derive_session_ownerships, lineage_view, lineage_views, ownership_of,
    prompt_preview, rfc3339_unix_time_of, token_totals_delta, totals_at, totals_at_exec, totals_empty,
    truncated_chars, zero_totals, CodexTokenTotals, LineageNode, LineageView, SessionOwnership,
    FORK_MATCH_RESYNC_WINDOW, PROMPT_PREVIEW_CHARS,
};

verus! {

/// The length of the array at JSON pointer `pointer` in the JSON text
/// `line` (`None` when the text does not parse or no array is there).
pub uninterp spec fn json_array_len(line: Seq<char>, pointer: Seq<char>) -> Option<nat>;

/// Parses `line` with `serde_json` and gives the length of the array at
/// `pointer` (`Value::pointer`, `Value::as_array`).
#[verifier::external_body]
fn json_pointer_array_len(line: &str, pointer: &str) -> (r: Option<usize>)
    ensures
        match r {
            Some(n) => json_array_len(line@, pointer@) == Some(n as nat),
            None => json_array_len(line@, pointer@) is None,
        },
{
    let root = serde_json::from_str::<serde_json::Value>(line).ok()?;
    root.pointer(pointer).and_then(|value| value.as_array()).map(|items| items.len())
}

/// The text of item `i` of a message's `content` array: its `text`, else
/// its `input_text`.
pub open spec fn content_item_text(line: Seq<char>, i: nat) -> Option<Seq<char>> {
    let item = "/payload/content/"@ + decimal(i);
    match json_string_at(line, item + "/text"@) {
        Some(t) => Some(t),
        None => json_string_at(line, item + "/input_text"@),
    }
}

/// The non-blank item texts among the first `n` items of the content array.
pub open spec fn content_texts(line: Seq<char>, n: nat) -> Seq<Seq<char>>
    decreases n,
{
    if n == 0 {
        seq![]
    } else {
        let before = content_texts(line, (n - 1) as nat);
        match content_item_text(line, (n - 1) as nat) {
            Some(t) => if trim(t).len() > 0 {
                before.push(t)
            } else {
                before
            },
            None => before,
        }
    }
}

/// `parts` joined with line breaks.
pub open spec fn join_lines(parts: Seq<Seq<char>>) -> Seq<char>
    decreases parts.len(),
{
    if parts.len() == 0 {
        seq![]
    } else if parts.len() == 1 {
        parts[0]
    } else {
        join_lines(parts.drop_last()) + "\n"@ + parts.last()
    }
}

/// The text of a message record: its `content` when that is a string; when
/// it is an array, the non-blank texts of its items joined with line
/// breaks (`None` when there are none); otherwise `None`.
pub open spec fn message_text(line: Seq<char>) -> Option<Seq<char>> {
    match json_string_at(line, "/payload/content"@) {
        Some(t) => Some(t),
        None => match json_array_len(line, "/payload/content"@) {
            Some(n) => {
                let parts = content_texts(line, n);
                if parts.len() == 0 {
                    None
                } else {
                    Some(join_lines(parts))
                }
            },
            None => None,
        },
    }
}

fn content_item_text_exec(line: &str, i: usize) -> (r: Option<String>)
    ensures
        opt_text(r) == content_item_text(line@, i as nat),
{
    let mut item = "/payload/content/".to_string();
    item.append(decimal_string(i as u64).as_str());
    let mut text_pointer = item.clone();
    text_pointer.append("/text");
    match json_pointer_string(line, text_pointer.as_str()) {
        Some(t) => Some(t),
        None => {
            let mut input_pointer = item.clone();
            input_pointer.append("/input_text");
            json_pointer_string(line, input_pointer.as_str())
        },
    }
}

/// Reads the text of a message record.
pub fn message_payload_text(line: &str) -> (r: Option<String>)
    ensures
        opt_text(r) == message_text(line@),
{
    if let Some(t) = json_pointer_string(line, "/payload/content") {
        return Some(t);
    }
    let n = match json_pointer_array_len(line, "/payload/content") {
        Some(n) => n,
        None => {
            return None;
        },
    };
    let mut joined = String::new();
    let mut count: usize = 0;
    let ghost mut parts: Seq<Seq<char>> = seq![];
    let mut i: usize = 0;
    while i < n
        invariant
            i <= n,
            parts == content_texts(line@, i as nat),
            count == parts.len(),
            count <= i,
            joined@ == join_lines(parts),
        decreases n - i,
    {
        let item = content_item_text_exec(line, i);
        if let Some(t) = item {
            if trim_chars(t.as_str()).len() > 0 {
                if count > 0 {
                    joined.append("\n");
                }
                joined.append(t.as_str());
                proof {
                    let next = parts.push(t@);
                    assert(next.drop_last() =~= parts);
                    parts = next;
                }
                count = count + 1;
            }
        }
        i = i + 1;
    }
    if count == 0 {
        None
    } else {
        Some(joined)
    }
}

/// One token event as cost analytics sees it; its cost and project name
/// are added where prices and paths are known.
#[derive(Clone, Debug)]
pub struct AnalyticsTokenEvent {
    pub record_index: usize,
    pub timestamp: i64,
    pub session_id: String,
    pub project_path: String,
    pub model: String,
    /// `session:prompt number`, the prompt the usage answered.
    pub prompt_key: String,
    pub prompt_preview: String,
    pub prompt_chars: usize,
    /// The usage of the turn: the per-turn report, else the cumulative one.
    pub total: CodexTokenTotals,
    pub cumulative_total: Option<CodexTokenTotals>,
}

pub struct AnalyticsEventView {
    pub record_index: usize,
    pub timestamp: i64,
    pub session_id: Seq<char>,
    pub project_path: Seq<char>,
    pub model: Seq<char>,
    pub prompt_key: Seq<char>,
    pub prompt_preview: Seq<char>,
    pub prompt_chars: usize,
    pub total: CodexTokenTotals,
    pub cumulative_total: Option<CodexTokenTotals>,
}

pub open spec fn event_view(e: AnalyticsTokenEvent) -> AnalyticsEventView {
    AnalyticsEventView {
        record_index: e.record_index,
        timestamp: e.timestamp,
        session_id: e.session_id@,
        project_path: e.project_path@,
        model: e.model@,
        prompt_key: e.prompt_key@,
        prompt_preview: e.prompt_preview@,
        prompt_chars: e.prompt_chars,
        total: e.total,
        cumulative_total: e.cumulative_total,
    }
}

/// A rollout log as cost analytics has read it so far.
pub struct AnalyticsLogReader {
    pub session_id: String,
    pub parent_session_id: Option<String>,
    pub project_path: String,
    pub started_at: Option<i64>,
    pub updated_at: Option<i64>,
    /// The usage of all token events read (saturating).
    pub total: CodexTokenTotals,
    pub payload_session_id: Option<String>,
    pub filename_session_id: Option<String>,
    pub parent_thread_id: Option<String>,
    pub identity_trusted: bool,
    pub record_hashes: Vec<u64>,
    pub events: Vec<AnalyticsTokenEvent>,
    /// The prompts that usage was attributed to, each once, in order.
    pub prompt_keys: Vec<String>,
    pub header_checked: bool,
    pub current_model: String,
    pub current_prompt_preview: String,
    pub current_prompt_chars: usize,
    pub current_prompt_index: usize,
}

pub struct AnalyticsLogView {
    pub session_id: Seq<char>,
    pub parent_session_id: Option<Seq<char>>,
    pub project_path: Seq<char>,
    pub started_at: Option<i64>,
    pub updated_at: Option<i64>,
    pub total: CodexTokenTotals,
    pub payload_session_id: Option<Seq<char>>,
    pub filename_session_id: Option<Seq<char>>,
    pub parent_thread_id: Option<Seq<char>>,
    pub identity_trusted: bool,
    pub record_hashes: Seq<u64>,
    pub events: Seq<AnalyticsEventView>,
    pub prompt_keys: Seq<Seq<char>>,
    pub header_checked: bool,
    pub current_model: Seq<char>,
    pub current_prompt_preview: Seq<char>,
    pub current_prompt_chars: usize,
    pub current_prompt_index: usize,
}

impl View for AnalyticsLogReader {
    type V = AnalyticsLogView;

    open spec fn view(&self) -> AnalyticsLogView {
        AnalyticsLogView {
            session_id: self.session_id@,
            parent_session_id: opt_text(self.parent_session_id),
            project_path: self.project_path@,
            started_at: self.started_at,
            updated_at: self.updated_at,
            total: self.total,
            payload_session_id: opt_text(self.payload_session_id),
            filename_session_id: opt_text(self.filename_session_id),
            parent_thread_id: opt_text(self.parent_thread_id),
            identity_trusted: self.identity_trusted,
            record_hashes: self.record_hashes@,
            events: self.events@.map_values(|e: AnalyticsTokenEvent| event_view(e)),
            prompt_keys: texts(self.prompt_keys@),
            header_checked: self.header_checked,
            current_model: self.current_model@,
            current_prompt_preview: self.current_prompt_preview@,
            current_prompt_chars: self.current_prompt_chars,
            current_prompt_index: self.current_prompt_index,
        }
    }
}

/// `v`, or `current` when `v` is `None`.
pub open spec fn or_keep(v: Option<Seq<char>>, current: Seq<char>) -> Seq<char> {
    match v {
        Some(x) => x,
        None => current,
    }
}

/// The state after a prompt `p`: the next prompt number, its length and preview.
pub open spec fn with_prompt(s: AnalyticsLogView, p: Seq<char>) -> AnalyticsLogView {
    AnalyticsLogView {
        current_prompt_index: (s.current_prompt_index + 1) as usize,
        current_prompt_chars: p.len() as usize,
        current_prompt_preview: truncated_chars(crate::text::squeeze_ws(p), PROMPT_PREVIEW_CHARS as nat),
        ..s
    }
}

/// The state after the header's session metadata: the session named (by
/// its `id`, else its `session_id`, trusted when the file name agrees or
/// names none), its fork parents, and its working directory and model when
/// given.
pub open spec fn with_header(s: AnalyticsLogView, line: Seq<char>) -> AnalyticsLogView {
    let id = json_string_at(line, "/payload/id"@);
    let session_id = json_string_at(line, "/payload/session_id"@);
    let name = if id is Some {
        id
    } else {
        session_id
    };
    let named = match name {
        Some(n) => AnalyticsLogView {
            session_id: n,
            identity_trusted: match s.filename_session_id {
                Some(f) => f == n,
                None => true,
            },
            ..s
        },
        None => s,
    };
    AnalyticsLogView {
        payload_session_id: session_id,
        parent_session_id: json_string_at(line, "/payload/forked_from_id"@),
        parent_thread_id: json_string_at(line, "/payload/parent_thread_id"@),
        project_path: or_keep(json_string_at(line, "/payload/cwd"@), s.project_path),
        current_model: or_keep(json_string_at(line, "/payload/model"@), s.current_model),
        ..named
    }
}

/// The key of the current prompt: `session:number`.
pub open spec fn prompt_key_of(s: AnalyticsLogView) -> Seq<char> {
    s.session_id + ":"@ + decimal(s.current_prompt_index as nat)
}

/// The state after a token event at `timestamp` with per-turn usage
/// `last` and cumulative usage `cumulative` (one of them given).
pub open spec fn with_token_event(
    s: AnalyticsLogView,
    record_index: usize,
    timestamp: i64,
    last: Option<CodexTokenTotals>,
    cumulative: Option<CodexTokenTotals>,
) -> AnalyticsLogView {
    let usage = match last {
        Some(u) => u,
        None => cumulative.unwrap(),
    };
    let key = prompt_key_of(s);
    AnalyticsLogView {
        prompt_keys: if s.prompt_keys.contains(key) {
            s.prompt_keys
        } else {
            s.prompt_keys.push(key)
        },
        total: add_totals(s.total, usage),
        started_at: Some(
            match s.started_at {
                Some(t) => if t < timestamp {
                    t
                } else {
                    timestamp
                },
                None => timestamp,
            },
        ),
        updated_at: Some(
            match s.updated_at {
                Some(t) => if t > timestamp {
                    t
                } else {
                    timestamp
                },
                None => timestamp,
            },
        ),
        events: s.events.push(
            AnalyticsEventView {
                record_index,
                timestamp,
                session_id: s.session_id,
                project_path: s.project_path,
                model: s.current_model,
                prompt_key: key,
                prompt_preview: s.current_prompt_preview,
                prompt_chars: s.current_prompt_chars,
                total: usage,
                cumulative_total: cumulative,
            },
        ),
        ..s
    }
}

/// The reader after one more line. A blank line changes nothing; another
/// line marks the header as seen, and one that parses as JSON is a record:
/// its fingerprint is kept, and by its `type` it names the session (the
/// first record only; later session metadata is copied history), sets the
/// working directory and model (`turn_context`), starts a prompt (a user
/// message, as an event or a response item), or adds a token event (a
/// `token_count` with a timestamp and some usage).
pub open spec fn after_analytics_line(s: AnalyticsLogView, line: Seq<char>) -> AnalyticsLogView {
    if trim(line).len() == 0 {
        s
    } else {
        let is_header = !s.header_checked;
        let seen = AnalyticsLogView { header_checked: true, ..s };
        if json_syntax_error(line) is Some {
            seen
        } else {
            let r = AnalyticsLogView {
                record_hashes: s.record_hashes.push(record_hash(line)),
                ..seen
            };
            let root_type = json_string_at(line, "/type"@);
            let payload_type = json_string_at(line, "/payload/type"@);
            if root_type == Some("session_meta"@) {
                if is_header {
                    with_header(r, line)
                } else {
                    r
                }
            } else if root_type == Some("turn_context"@) {
                AnalyticsLogView {
                    project_path: or_keep(json_string_at(line, "/payload/cwd"@), r.project_path),
                    current_model: or_keep(json_string_at(line, "/payload/model"@), r.current_model),
                    ..r
                }
            } else if root_type == Some("event_msg"@) && payload_type == Some("user_message"@) {
                match json_string_at(line, "/payload/message"@) {
                    Some(p) => with_prompt(r, p),
                    None => r,
                }
            } else if root_type == Some("response_item"@) && payload_type == Some("message"@)
                && json_string_at(line, "/payload/role"@) == Some("user"@) {
                match message_text(line) {
                    Some(p) => with_prompt(r, p),
                    None => r,
                }
            } else if root_type == Some("event_msg"@) && payload_type == Some("token_count"@) {
                let last = totals_at(line, "/payload/info/last_token_usage"@);
                let cumulative = totals_at(line, "/payload/info/total_token_usage"@);
                match rfc3339_unix_time_of(line) {
                    Some(ts) => if last is None && cumulative is None {
                        r
                    } else {
                        with_token_event(r, s.record_hashes.len() as usize, ts, last, cumulative)
                    },
                    None => r,
                }
            } else {
                r
            }
        }
    }
}

fn opt_clone(v: &Option<String>) -> (r: Option<String>)
    ensures
        opt_text(r) == opt_text(*v),
{
    match v {
        Some(x) => Some(x.clone()),
        None => None,
    }
}

fn json_is(line: &str, pointer: &str, expected: &str) -> (r: bool)
    ensures
        r == (json_string_at(line@, pointer@) == Some(expected@)),
{
    match json_pointer_string(line, pointer) {
        Some(v) => str_eq(v.as_str(), expected),
        None => false,
    }
}

impl AnalyticsLogReader {
    /// An empty reader for a log named `fallback_session_id` (from its file)
    /// until its header says otherwise; its project is unknown.
    pub fn new(fallback_session_id: String, filename_session_id: Option<String>) -> (r: Self)
        ensures
            r@.session_id == fallback_session_id@,
            r@.filename_session_id == opt_text(filename_session_id),
            r@.project_path == "(unknown project)"@,
            r@.parent_session_id is None,
            r@.payload_session_id is None,
            r@.parent_thread_id is None,
            r@.started_at is None,
            r@.updated_at is None,
            r@.total == crate::token_usage::zero_totals(),
            !r@.identity_trusted,
            !r@.header_checked,
            r@.record_hashes.len() == 0,
            r@.events.len() == 0,
            r@.prompt_keys.len() == 0,
            r@.current_model == "unknown"@,
            r@.current_prompt_preview.len() == 0,
            r@.current_prompt_chars == 0,
            r@.current_prompt_index == 0,
    {
        let r = AnalyticsLogReader {
            session_id: fallback_session_id,
            parent_session_id: None,
            project_path: "(unknown project)".to_string(),
            started_at: None,
            updated_at: None,
            total: CodexTokenTotals::zero(),
            payload_session_id: None,
            filename_session_id,
            parent_thread_id: None,
            identity_trusted: false,
            record_hashes: Vec::new(),
            events: Vec::new(),
            prompt_keys: Vec::new(),
            header_checked: false,
            current_model: "unknown".to_string(),
            current_prompt_preview: String::new(),
            current_prompt_chars: 0,
            current_prompt_index: 0,
        };
        assert(r@.events =~= Seq::<AnalyticsEventView>::empty());
        assert(r@.prompt_keys =~= Seq::<Seq<char>>::empty());
        r
    }

    fn start_prompt(&mut self, prompt: String)
        requires
            old(self).current_prompt_index < usize::MAX,
        ensures
            final(self)@ == with_prompt(old(self)@, prompt@),
    {
        self.current_prompt_index = self.current_prompt_index + 1;
        self.current_prompt_chars = chars_of(prompt.as_str()).len();
        self.current_prompt_preview = prompt_preview(prompt.as_str());
    }

    fn read_header(&mut self, line: &str)
        ensures
            final(self)@ == with_header(old(self)@, line@),
    {
        let id = json_pointer_string(line, "/payload/id");
        let session_id = json_pointer_string(line, "/payload/session_id");
        let name = match &id {
            Some(i) => Some(i.clone()),
            None => opt_clone(&session_id),
        };
        if let Some(n) = name {
            let trusted = match &self.filename_session_id {
                Some(f) => str_eq(f.as_str(), n.as_str()),
                None => true,
            };
            self.session_id = n;
            self.identity_trusted = trusted;
        }
        self.payload_session_id = session_id;
        self.parent_session_id = json_pointer_string(line, "/payload/forked_from_id");
        self.parent_thread_id = json_pointer_string(line, "/payload/parent_thread_id");
        if let Some(cwd) = json_pointer_string(line, "/payload/cwd") {
            self.project_path = cwd;
        }
        if let Some(model) = json_pointer_string(line, "/payload/model") {
            self.current_model = model;
        }
    }

    fn add_token_event(
        &mut self,
        record_index: usize,
        timestamp: i64,
        last: Option<CodexTokenTotals>,
        cumulative: Option<CodexTokenTotals>,
    )
        requires
            last is Some || cumulative is Some,
        ensures
            final(self)@ == with_token_event(old(self)@, record_index, timestamp, last, cumulative),
    {
        let usage = match last {
            Some(u) => u,
            None => cumulative.unwrap(),
        };
        let mut key = self.session_id.clone();
        key.append(":");
        key.append(decimal_string(self.current_prompt_index as u64).as_str());
        if !contains_text(&self.prompt_keys, key.as_str()) {
            let ghost before = self.prompt_keys@;
            self.prompt_keys.push(key.clone());
            assert(texts(self.prompt_keys@) =~= texts(before).push(key@));
        }
        self.total.add(&usage);
        self.started_at = Some(
            match self.started_at {
                Some(t) => if t < timestamp {
                    t
                } else {
                    timestamp
                },
                None => timestamp,
            },
        );
        self.updated_at = Some(
            match self.updated_at {
                Some(t) => if t > timestamp {
                    t
                } else {
                    timestamp
                },
                None => timestamp,
            },
        );
        let event = AnalyticsTokenEvent {
            record_index,
            timestamp,
            session_id: self.session_id.clone(),
            project_path: self.project_path.clone(),
            model: self.current_model.clone(),
            prompt_key: key,
            prompt_preview: self.current_prompt_preview.clone(),
            prompt_chars: self.current_prompt_chars,
            total: usage,
            cumulative_total: cumulative,
        };
        let ghost before = self.events@;
        self.events.push(event);
        assert(self.events@.map_values(|e: AnalyticsTokenEvent| event_view(e)) =~= before.map_values(
            |e: AnalyticsTokenEvent| event_view(e),
        ).push(event_view(event)));
    }

    /// Reads one more line of the log.
    pub fn read_line(&mut self, line: &str)
        requires
            old(self)@.record_hashes.len() < usize::MAX,
            old(self)@.current_prompt_index < usize::MAX,
        ensures
            final(self)@ == after_analytics_line(old(self)@, line@),
    {
        if trim_chars(line).len() == 0 {
            return;
        }
        let is_header = !self.header_checked;
        self.header_checked = true;
        if json_parse_error(line).is_some() {
            return;
        }
        let record_index = self.record_hashes.len();
        self.record_hashes.push(fast_record_hash(line));
        if json_is(line, "/type", "session_meta") {
            if is_header {
                self.read_header(line);
            }
        } else if json_is(line, "/type", "turn_context") {
            if let Some(cwd) = json_pointer_string(line, "/payload/cwd") {
                self.project_path = cwd;
            }
            if let Some(model) = json_pointer_string(line, "/payload/model") {
                self.current_model = model;
            }
        } else if json_is(line, "/type", "event_msg") && json_is(line, "/payload/type", "user_message") {
            if let Some(p) = json_pointer_string(line, "/payload/message") {
                self.start_prompt(p);
            }
        } else if json_is(line, "/type", "response_item") && json_is(line, "/payload/type", "message")
            && json_is(line, "/payload/role", "user") {
            if let Some(p) = message_payload_text(line) {
                self.start_prompt(p);
            }
        } else if json_is(line, "/type", "event_msg") && json_is(line, "/payload/type", "token_count") {
            let last = totals_at_exec(line, "/payload/info/last_token_usage");
            let cumulative = totals_at_exec(line, "/payload/info/total_token_usage");
            let timestamp = match json_pointer_string(line, "/timestamp") {
                Some(t) => crate::token_usage::parse_timestamp(t.as_str()),
                None => None,
            };
            if let Some(ts) = timestamp {
                if last.is_some() || cumulative.is_some() {
                    self.add_token_event(record_index, ts, last, cumulative);
                }
            }
        }
    }
}

/// A copy of an event.
pub fn copy_event(e: &AnalyticsTokenEvent) -> (r: AnalyticsTokenEvent)
    ensures
        event_view(r) == event_view(*e),
{
    AnalyticsTokenEvent {
        record_index: e.record_index,
        timestamp: e.timestamp,
        session_id: e.session_id.clone(),
        project_path: e.project_path.clone(),
        model: e.model.clone(),
        prompt_key: e.prompt_key.clone(),
        prompt_preview: e.prompt_preview.clone(),
        prompt_chars: e.prompt_chars,
        total: e.total,
        cumulative_total: e.cumulative_total,
    }
}

pub open spec fn events_view(v: Seq<AnalyticsTokenEvent>) -> Seq<AnalyticsEventView> {
    v.map_values(|e: AnalyticsTokenEvent| event_view(e))
}

/// Some event carries a cumulative snapshot.
pub open spec fn any_cumulative(evs: Seq<AnalyticsEventView>) -> bool {
    exists|i: int| 0 <= i < evs.len() && (#[trigger] evs[i]).cumulative_total is Some
}

/// The events the session recorded itself (record at or after `end`).
pub open spec fn owned_events(evs: Seq<AnalyticsEventView>, end: usize) -> Seq<AnalyticsEventView>
    decreases evs.len(),
{
    if evs.len() == 0 {
        seq![]
    } else if evs.last().record_index >= end {
        owned_events(evs.drop_last(), end).push(evs.last())
    } else {
        owned_events(evs.drop_last(), end)
    }
}

/// The last cumulative snapshot among the events copied from the parent.
pub open spec fn copied_baseline(evs: Seq<AnalyticsEventView>, end: usize) -> Option<CodexTokenTotals>
    decreases evs.len(),
{
    if evs.len() == 0 {
        None
    } else if evs.last().record_index < end && evs.last().cumulative_total is Some {
        evs.last().cumulative_total
    } else {
        copied_baseline(evs.drop_last(), end)
    }
}

/// How many events the session copied from its parent.
pub open spec fn copied_count(evs: Seq<AnalyticsEventView>, end: usize) -> nat
    decreases evs.len(),
{
    if evs.len() == 0 {
        0
    } else {
        copied_count(evs.drop_last(), end) + if evs.last().record_index < end { 1nat } else { 0nat }
    }
}

/// The walk over a session's own events: the cumulative snapshot last seen,
/// the events confirmed (each carrying its delta) and the unresolved count.
pub struct AnalyticsDeltaState {
    pub prev: CodexTokenTotals,
    pub out: Seq<AnalyticsEventView>,
    pub unresolved: nat,
}

pub open spec fn analytics_delta_step(st: AnalyticsDeltaState, e: AnalyticsEventView, end: usize) -> AnalyticsDeltaState {
    if e.record_index < end {
        st
    } else {
        match e.cumulative_total {
            None => AnalyticsDeltaState { unresolved: st.unresolved + 1, ..st },
            Some(cur) => match delta_totals(cur, st.prev) {
                None => AnalyticsDeltaState { prev: cur, unresolved: st.unresolved + 1, ..st },
                Some(d) => if totals_empty(d) {
                    AnalyticsDeltaState { prev: cur, ..st }
                } else {
                    AnalyticsDeltaState {
                        prev: cur,
                        out: st.out.push(AnalyticsEventView { total: d, ..e }),
                        ..st
                    }
                },
            },
        }
    }
}

pub open spec fn analytics_delta_fold(evs: Seq<AnalyticsEventView>, end: usize, init: CodexTokenTotals) -> AnalyticsDeltaState
    decreases evs.len(),
{
    if evs.len() == 0 {
        AnalyticsDeltaState { prev: init, out: seq![], unresolved: 0 }
    } else {
        analytics_delta_step(analytics_delta_fold(evs.drop_last(), end, init), evs.last(), end)
    }
}

/// The events a session keeps for cost analytics, and how many could not be
/// attributed. Without any cumulative snapshot its own events keep their
/// per-turn usage. Otherwise each own event is charged the growth of the
/// cumulative counters since the last snapshot (from the one copied from
/// the parent), events without growth are dropped, and a missing snapshot
/// or a decrease leaves the event unresolved; when copied history carries
/// events but no snapshot, nothing can be attributed.
pub open spec fn confirmed_analytics_events(evs: Seq<AnalyticsEventView>, end: usize) -> (
    Seq<AnalyticsEventView>,
    nat,
) {
    if !any_cumulative(evs) {
        (owned_events(evs, end), 0)
    } else if end > 0 && copied_count(evs, end) > 0 && copied_baseline(evs, end) is None {
        (seq![], (evs.len() - copied_count(evs, end)) as nat)
    } else {
        let init = match copied_baseline(evs, end) {
            Some(t) => t,
            None => zero_totals(),
        };
        let st = analytics_delta_fold(evs, end, init);
        (st.out, st.unresolved)
    }
}

proof fn lemma_copied_count_bounded(evs: Seq<AnalyticsEventView>, end: usize)
    ensures
        copied_count(evs, end) <= evs.len(),
    decreases evs.len(),
{
    if evs.len() > 0 {
        lemma_copied_count_bounded(evs.drop_last(), end);
    }
}

proof fn lemma_analytics_unresolved_bounded(evs: Seq<AnalyticsEventView>, end: usize, init: CodexTokenTotals)
    ensures
        analytics_delta_fold(evs, end, init).unresolved <= evs.len(),
    decreases evs.len(),
{
    if evs.len() > 0 {
        lemma_analytics_unresolved_bounded(evs.drop_last(), end, init);
    }
}

/// Keeps a session's own events for cost analytics, charged by the growth
/// of its cumulative counters: see `confirmed_analytics_events`.
pub fn apply_cumulative_deltas_to_analytics(events: &Vec<AnalyticsTokenEvent>, inherited_record_end: usize) -> (r: (
    Vec<AnalyticsTokenEvent>,
    usize,
))
    ensures
        (events_view(r.0@), r.1 as nat) == confirmed_analytics_events(events_view(events@), inherited_record_end),
{
    let n = events.len();
    let ghost evs = events_view(events@);
    let end = inherited_record_end;
    let mut any = false;
    let mut baseline: Option<CodexTokenTotals> = None;
    let mut copied: usize = 0;
    let mut kept: Vec<AnalyticsTokenEvent> = Vec::new();
    let mut i: usize = 0;
    while i < n
        invariant
            n == events@.len(),
            evs == events_view(events@),
            i <= n,
            any == any_cumulative(evs.subrange(0, i as int)),
            baseline == copied_baseline(evs.subrange(0, i as int), end),
            copied == copied_count(evs.subrange(0, i as int), end),
            events_view(kept@) == owned_events(evs.subrange(0, i as int), end),
        decreases n - i,
    {
        proof {
            lemma_copied_count_bounded(evs.subrange(0, i as int), end);
        }
        let ghost prefix = evs.subrange(0, i as int);
        let ghost next = evs.subrange(0, i + 1);
        assert(next.drop_last() =~= prefix);
        assert(next.last() == event_view(events@[i as int]));
        let e = &events[i];
        proof {
            if e.cumulative_total.is_some() {
                assert(next[i as int].cumulative_total is Some);
            } else if any {
                let k = choose|k: int| 0 <= k < prefix.len() && (#[trigger] prefix[k]).cumulative_total is Some;
                assert(next[k] == prefix[k]);
            } else {
                assert forall|k: int| 0 <= k < next.len() implies !((#[trigger] next[k]).cumulative_total is Some) by {
                    if k < prefix.len() {
                        assert(next[k] == prefix[k]);
                    }
                }
            }
        }
        if e.cumulative_total.is_some() {
            any = true;
        }
        if e.record_index < end {
            copied = copied + 1;
            if e.cumulative_total.is_some() {
                baseline = e.cumulative_total;
            }
        } else {
            let ghost before = kept@;
            kept.push(copy_event(e));
            assert(events_view(kept@) =~= events_view(before).push(event_view(*e)));
        }
        i = i + 1;
    }
    assert(evs.subrange(0, n as int) =~= evs);
    if !any {
        return (kept, 0);
    }
    proof {
        lemma_copied_count_bounded(evs, end);
    }
    if end > 0 && copied > 0 && baseline.is_none() {
        return (Vec::new(), n - copied);
    }
    let mut previous_total = match baseline {
        Some(t) => t,
        None => CodexTokenTotals::zero(),
    };
    let ghost init = previous_total;
    let mut out: Vec<AnalyticsTokenEvent> = Vec::new();
    let mut unresolved: usize = 0;
    let mut j: usize = 0;
    while j < n
        invariant
            n == events@.len(),
            evs == events_view(events@),
            j <= n,
            ({
                let st = analytics_delta_fold(evs.subrange(0, j as int), end, init);
                &&& st.prev == previous_total
                &&& st.out == events_view(out@)
                &&& st.unresolved == unresolved as nat
            }),
        decreases n - j,
    {
        proof {
            lemma_analytics_unresolved_bounded(evs.subrange(0, j as int), end, init);
        }
        assert(evs.subrange(0, j + 1).drop_last() =~= evs.subrange(0, j as int));
        assert(evs.subrange(0, j + 1).last() == event_view(events@[j as int]));
        let e = &events[j];
        if e.record_index >= end {
            match e.cumulative_total {
                None => {
                    unresolved = unresolved + 1;
                },
                Some(current_total) => {
                    match token_totals_delta(&current_total, &previous_total) {
                        None => {
                            unresolved = unresolved + 1;
                            previous_total = current_total;
                        },
                        Some(delta) => {
                            previous_total = current_total;
                            if !delta.is_empty() {
                                let mut confirmed = copy_event(e);
                                confirmed.total = delta;
                                let ghost before = out@;
                                out.push(confirmed);
                                assert(events_view(out@) =~= events_view(before).push(
                                    AnalyticsEventView { total: delta, ..event_view(*e) },
                                ));
                            }
                        },
                    }
                },
            }
        }
        j = j + 1;
    }
    assert(evs.subrange(0, n as int) =~= evs);
    (out, unresolved)
}

/// The prompt keys of `evs`, each once, in order of first use.
pub open spec fn distinct_prompt_keys(evs: Seq<AnalyticsEventView>) -> Seq<Seq<char>>
    decreases evs.len(),
{
    if evs.len() == 0 {
        seq![]
    } else {
        let before = distinct_prompt_keys(evs.drop_last());
        if before.contains(evs.last().prompt_key) {
            before
        } else {
            before.push(evs.last().prompt_key)
        }
    }
}

/// The usage of `evs` added up (saturating).
pub open spec fn events_total(evs: Seq<AnalyticsEventView>) -> CodexTokenTotals
    decreases evs.len(),
{
    if evs.len() == 0 {
        zero_totals()
    } else {
        add_totals(events_total(evs.drop_last()), evs.last().total)
    }
}

/// The earliest (`latest` false) or latest (`latest` true) event time.
pub open spec fn event_time_bound(evs: Seq<AnalyticsEventView>, latest: bool) -> Option<i64>
    decreases evs.len(),
{
    if evs.len() == 0 {
        None
    } else {
        let t = evs.last().timestamp;
        match event_time_bound(evs.drop_last(), latest) {
            None => Some(t),
            Some(b) => Some(
                if latest {
                    if b > t { b } else { t }
                } else {
                    if b < t { b } else { t }
                },
            ),
        }
    }
}

/// The tokens of `evs` spent with `model`.
pub open spec fn model_tokens(evs: Seq<AnalyticsEventView>, model: Seq<char>) -> int
    decreases evs.len(),
{
    if evs.len() == 0 {
        0
    } else {
        model_tokens(evs.drop_last(), model) + if evs.last().model == model {
            evs.last().total.total_tokens as int
        } else {
            0
        }
    }
}

/// No model's running token count leaves `u64`, and no two event times
/// are further apart than an `i64` can count.
pub open spec fn summary_fits(evs: Seq<AnalyticsEventView>) -> bool {
    &&& forall|k: int|
        0 <= k <= evs.len() ==> forall|i: int|
            0 <= i < evs.len() ==> model_tokens(#[trigger] evs.take(k), #[trigger] evs[i].model)
                <= u64::MAX
    &&& forall|i: int, j: int|
        0 <= i < evs.len() && 0 <= j < evs.len() ==> (#[trigger] evs[i]).timestamp
            - (#[trigger] evs[j]).timestamp <= i64::MAX
}

/// A session's figures over the events it keeps.
pub struct AnalyticsSessionSummary {
    pub prompt_keys: Vec<String>,
    pub total: CodexTokenTotals,
    pub started_at: Option<i64>,
    pub updated_at: Option<i64>,
    pub duration_seconds: Option<i64>,
    pub prompt_count: usize,
    pub event_count: usize,
    /// The model the most tokens went to; `None` without events.
    pub model: Option<String>,
}

proof fn lemma_model_tokens_nonneg(evs: Seq<AnalyticsEventView>, model: Seq<char>)
    ensures
        model_tokens(evs, model) >= 0,
    decreases evs.len(),
{
    if evs.len() > 0 {
        lemma_model_tokens_nonneg(evs.drop_last(), model);
    }
}

proof fn lemma_model_tokens_absent(evs: Seq<AnalyticsEventView>, model: Seq<char>)
    requires
        forall|i: int| 0 <= i < evs.len() ==> (#[trigger] evs[i]).model != model,
    ensures
        model_tokens(evs, model) == 0,
    decreases evs.len(),
{
    if evs.len() > 0 {
        assert forall|i: int| 0 <= i < evs.drop_last().len() implies (#[trigger] evs.drop_last()[i]).model != model by {
            assert(evs.drop_last()[i] == evs[i]);
        }
        lemma_model_tokens_absent(evs.drop_last(), model);
    }
}

proof fn lemma_time_bounds_are_event_times(evs: Seq<AnalyticsEventView>, latest: bool)
    ensures
        evs.len() == 0 <==> event_time_bound(evs, latest) is None,
        event_time_bound(evs, latest) matches Some(b) ==> exists|i: int| 0 <= i < evs.len() && (#[trigger] evs[i]).timestamp == b,
    decreases evs.len(),
{
    if evs.len() > 0 {
        lemma_time_bounds_are_event_times(evs.drop_last(), latest);
        let b = event_time_bound(evs, latest).unwrap();
        if b == evs.last().timestamp {
            assert(evs[evs.len() - 1].timestamp == b);
        } else {
            let i = choose|i: int| 0 <= i < evs.drop_last().len() && (#[trigger] evs.drop_last()[i]).timestamp == b;
            assert(evs[i] == evs.drop_last()[i]);
        }
    }
}

/// Sums up the events a session keeps: its prompts (each once), usage,
/// first and last event times and the span between them, and the model
/// that the most tokens went to (one of them, on a tie).
pub fn summarize_analytics_events(events: &Vec<AnalyticsTokenEvent>) -> (r: AnalyticsSessionSummary)
    requires
        summary_fits(events_view(events@)),
    ensures
        texts(r.prompt_keys@) == distinct_prompt_keys(events_view(events@)),
        r.prompt_count == r.prompt_keys@.len(),
        r.event_count == events@.len(),
        r.total == events_total(events_view(events@)),
        r.started_at == event_time_bound(events_view(events@), false),
        r.updated_at == event_time_bound(events_view(events@), true),
        r.duration_seconds == match (r.started_at, r.updated_at) {
            (Some(a), Some(b)) => if b >= a {
                Some((b - a) as i64)
            } else {
                None
            },
            _ => None,
        },
        events@.len() == 0 <==> r.model is None,
        r.model matches Some(m) ==> (exists|i: int| 0 <= i < events@.len() && (#[trigger] events@[i]).model@ == m@)
            && forall|i: int| 0 <= i < events@.len() ==> model_tokens(events_view(events@), #[trigger] events@[i].model@)
                <= model_tokens(events_view(events@), m@),
{
    let ghost evs = events_view(events@);
    let n = events.len();
    let mut keys: Vec<String> = Vec::new();
    let mut total = CodexTokenTotals::zero();
    let mut started: Option<i64> = None;
    let mut updated: Option<i64> = None;
    let mut by_model: TextMap<u64> = TextMap::new();
    let mut i: usize = 0;
    while i < n
        invariant
            n == events@.len(),
            evs == events_view(events@),
            summary_fits(evs),
            i <= n,
            texts(keys@) == distinct_prompt_keys(evs.take(i as int)),
            total == events_total(evs.take(i as int)),
            started == event_time_bound(evs.take(i as int), false),
            updated == event_time_bound(evs.take(i as int), true),
            by_model.wf(),
            forall|m: Seq<char>| #[trigger] by_model.as_map().contains_key(m) ==> by_model.as_map()[m] == model_tokens(evs.take(i as int), m),
            forall|m: Seq<char>| #[trigger] by_model.as_map().contains_key(m) <==> exists|k: int| 0 <= k < i && (#[trigger] evs[k]).model == m,
        decreases n - i,
    {
        let ghost prefix = evs.take(i as int);
        let ghost next = evs.take(i + 1);
        assert(next.drop_last() =~= prefix);
        assert(next.last() == event_view(events@[i as int]));
        let e = &events[i];
        if !crate::provider_sync::contains_text(&keys, e.prompt_key.as_str()) {
            let ghost before = keys@;
            keys.push(e.prompt_key.clone());
            assert(texts(keys@) =~= texts(before).push(e.prompt_key@));
        }
        total.add(&e.total);
        started = Some(
            match started {
                Some(b) => if b < e.timestamp {
                    b
                } else {
                    e.timestamp
                },
                None => e.timestamp,
            },
        );
        updated = Some(
            match updated {
                Some(b) => if b > e.timestamp {
                    b
                } else {
                    e.timestamp
                },
                None => e.timestamp,
            },
        );
        proof {
            lemma_model_tokens_nonneg(prefix, e.model@);
            assert(evs[i as int] == event_view(events@[i as int]));
            assert(model_tokens(next, evs[i as int].model) <= u64::MAX);
            if !by_model.as_map().contains_key(e.model@) {
                assert forall|k: int| 0 <= k < prefix.len() implies (#[trigger] prefix[k]).model != e.model@ by {
                    assert(prefix[k] == evs[k]);
                }
                lemma_model_tokens_absent(prefix, e.model@);
            }
        }
        proof {
            by_model.lemma_keys();
        }
        let current = match by_model.position(e.model.as_str()) {
            Some(p) => {
                proof {
                    assert(by_model.key_order().contains(e.model@));
                }
                *by_model.value_at(p)
            },
            None => 0,
        };
        assert(current == model_tokens(prefix, e.model@));
        assert(model_tokens(next, e.model@) == model_tokens(prefix, e.model@) + e.total.total_tokens);
        let ghost old_map = by_model.as_map();
        by_model.insert(e.model.clone(), current + e.total.total_tokens);
        proof {
            assert forall|m: Seq<char>| #[trigger] by_model.as_map().contains_key(m) implies by_model.as_map()[m]
                == model_tokens(next, m) by {
                if m != e.model@ {
                    assert(old_map.contains_key(m));
                }
            }
            assert forall|m: Seq<char>| #[trigger] by_model.as_map().contains_key(m) <==> exists|k: int| 0 <= k < i + 1 && (#[trigger] evs[k]).model == m by {
                if by_model.as_map().contains_key(m) && m != e.model@ {
                    assert(old_map.contains_key(m));
                    let k = choose|k: int| 0 <= k < i && (#[trigger] evs[k]).model == m;
                }
                if m == e.model@ {
                    assert(evs[i as int].model == m);
                }
                if exists|k: int| 0 <= k < i + 1 && (#[trigger] evs[k]).model == m {
                    let k = choose|k: int| 0 <= k < i + 1 && (#[trigger] evs[k]).model == m;
                    if k < i {
                        assert(old_map.contains_key(m));
                    }
                }
            }
        }
        i = i + 1;
    }
    assert(evs.take(n as int) =~= evs);
    let mut best: Option<usize> = None;
    let count = by_model.len();
    let mut j: usize = 0;
    proof {
        by_model.lemma_keys();
    }
    while j < count
        invariant
            by_model.wf(),
            count == by_model.key_order().len(),
            j <= count,
            best matches Some(b) ==> b < j,
            best is None <==> j == 0,
            best matches Some(b) ==> forall|k: int| 0 <= k < j ==> by_model.as_map()[by_model.key_order()[k]]
                <= by_model.as_map()[by_model.key_order()[b as int]],
        decreases count - j,
    {
        match best {
            None => {
                best = Some(j);
            },
            Some(b) => {
                if *by_model.value_at(j) > *by_model.value_at(b) {
                    best = Some(j);
                }
            },
        }
        j = j + 1;
    }
    let model = match best {
        Some(b) => Some(by_model.key_at(b).clone()),
        None => None,
    };
    proof {
        by_model.lemma_keys();
        if n > 0 {
            assert(by_model.as_map().contains_key(evs[0].model));
            assert(by_model.key_order().to_set().contains(evs[0].model));
            assert(by_model.key_order().contains(evs[0].model));
        }
        if let Some(b) = best {
            let m = by_model.key_order()[b as int];
            assert(by_model.key_order().contains(m));
            assert(by_model.as_map().contains_key(m));
            let k = choose|k: int| 0 <= k < n && (#[trigger] evs[k]).model == m;
            assert(events@[k].model@ == evs[k].model);
            assert forall|i: int| 0 <= i < events@.len() implies model_tokens(evs, #[trigger] events@[i].model@)
                <= model_tokens(evs, m) by {
                assert(evs[i].model == events@[i].model@);
                assert(by_model.as_map().contains_key(evs[i].model));
                assert(by_model.key_order().to_set().contains(evs[i].model));
                let q = choose|q: int| 0 <= q < by_model.key_order().len() && by_model.key_order()[q] == evs[i].model;
            }
        }
        lemma_time_bounds_are_event_times(evs, false);
        lemma_time_bounds_are_event_times(evs, true);
    }
    let duration = match (started, updated) {
        (Some(a), Some(b)) => if b >= a {
            Some(b - a)
        } else {
            None
        },
        _ => None,
    };
    let prompt_count = keys.len();
    AnalyticsSessionSummary {
        prompt_keys: keys,
        total,
        started_at: started,
        updated_at: updated,
        duration_seconds: duration,
        prompt_count,
        event_count: n,
        model,
    }
}

/// The log with only `evs` as its events, and its prompts, usage and
/// first and last event times taken from them.
pub open spec fn with_kept_events(f: AnalyticsLogView, evs: Seq<AnalyticsEventView>) -> AnalyticsLogView {
    AnalyticsLogView {
        events: evs,
        prompt_keys: distinct_prompt_keys(evs),
        total: events_total(evs),
        started_at: event_time_bound(evs, false),
        updated_at: event_time_bound(evs, true),
        ..f
    }
}

/// The prompts (each once), usage and first and last event times of `events`.
fn event_figures(events: &Vec<AnalyticsTokenEvent>) -> (r: (Vec<String>, CodexTokenTotals, Option<i64>, Option<i64>))
    ensures
        texts(r.0@) == distinct_prompt_keys(events_view(events@)),
        r.1 == events_total(events_view(events@)),
        r.2 == event_time_bound(events_view(events@), false),
        r.3 == event_time_bound(events_view(events@), true),
{
    let ghost evs = events_view(events@);
    let n = events.len();
    let mut keys: Vec<String> = Vec::new();
    let mut total = CodexTokenTotals::zero();
    let mut started: Option<i64> = None;
    let mut updated: Option<i64> = None;
    let mut i: usize = 0;
    while i < n
        invariant
            n == events@.len(),
            evs == events_view(events@),
            i <= n,
            texts(keys@) == distinct_prompt_keys(evs.take(i as int)),
            total == events_total(evs.take(i as int)),
            started == event_time_bound(evs.take(i as int), false),
            updated == event_time_bound(evs.take(i as int), true),
        decreases n - i,
    {
        assert(evs.take(i + 1).drop_last() =~= evs.take(i as int));
        assert(evs.take(i + 1).last() == event_view(events@[i as int]));
        let e = &events[i];
        if !contains_text(&keys, e.prompt_key.as_str()) {
            let ghost before = keys@;
            keys.push(e.prompt_key.clone());
            assert(texts(keys@) =~= texts(before).push(e.prompt_key@));
        }
        total.add(&e.total);
        started = Some(
            match started {
                Some(b) => if b < e.timestamp {
                    b
                } else {
                    e.timestamp
                },
                None => e.timestamp,
            },
        );
        updated = Some(
            match updated {
                Some(b) => if b > e.timestamp {
                    b
                } else {
                    e.timestamp
                },
                None => e.timestamp,
            },
        );
        i = i + 1;
    }
    assert(evs.take(n as int) =~= evs);
    (keys, total, started, updated)
}

/// A copy of the log `f` that keeps only `events`.
fn with_events(f: &AnalyticsLogReader, events: Vec<AnalyticsTokenEvent>) -> (r: AnalyticsLogReader)
    ensures
        r@ == with_kept_events(f@, events_view(events@)),
{
    let (prompt_keys, total, started_at, updated_at) = event_figures(&events);
    let hashes = f.record_hashes.clone();
    assert(hashes@ =~= f.record_hashes@);
    let r = AnalyticsLogReader {
        session_id: f.session_id.clone(),
        parent_session_id: opt_clone(&f.parent_session_id),
        project_path: f.project_path.clone(),
        started_at,
        updated_at,
        total,
        payload_session_id: opt_clone(&f.payload_session_id),
        filename_session_id: opt_clone(&f.filename_session_id),
        parent_thread_id: opt_clone(&f.parent_thread_id),
        identity_trusted: f.identity_trusted,
        record_hashes: hashes,
        events,
        prompt_keys,
        header_checked: f.header_checked,
        current_model: f.current_model.clone(),
        current_prompt_preview: f.current_prompt_preview.clone(),
        current_prompt_chars: f.current_prompt_chars,
        current_prompt_index: f.current_prompt_index,
    };
    assert(r@.events =~= events_view(events@));
    r
}

/// The lineage analysis' view of a log read for cost analytics.
pub open spec fn log_lineage_view(f: AnalyticsLogView) -> LineageView {
    LineageView {
        thread_id: f.session_id,
        history_parent_id: f.parent_session_id,
        identity_trusted: f.identity_trusted,
        record_hashes: f.record_hashes,
        record_resync_window: FORK_MATCH_RESYNC_WINDOW as nat,
    }
}

pub open spec fn logs_view(files: Seq<AnalyticsLogReader>) -> Seq<AnalyticsLogView> {
    files.map_values(|f: AnalyticsLogReader| f@)
}

pub open spec fn log_lineage_views(files: Seq<AnalyticsLogView>) -> Seq<LineageView> {
    files.map_values(|f: AnalyticsLogView| log_lineage_view(f))
}

/// The ownership of each log's leading records.
pub open spec fn log_ownerships(files: Seq<AnalyticsLogView>) -> Seq<SessionOwnership> {
    Seq::new(files.len(), |i: int| ownership_of(log_lineage_views(files), i).unwrap())
}

/// The lineage analysis stays within the logs' record lists.
pub open spec fn logs_analysable(files: Seq<AnalyticsLogView>) -> bool {
    forall|i: int| 0 <= i < files.len() ==> #[trigger] ownership_of(log_lineage_views(files), i) is Some
}

/// A log after its ownership is applied: an unresolved fork keeps no
/// events; otherwise it keeps its confirmed events.
pub open spec fn owned_log(f: AnalyticsLogView, own: SessionOwnership) -> AnalyticsLogView {
    if own.unresolved {
        with_kept_events(f, seq![])
    } else {
        with_kept_events(f, confirmed_analytics_events(f.events, own.inherited_record_end).0)
    }
}

/// What applying `own` to `f` counts: events removed (all of an unresolved
/// fork's, else those copied from the parent), unresolved forks, and own
/// events whose usage could not be attributed.
pub open spec fn ownership_counts(f: AnalyticsLogView, own: SessionOwnership) -> (nat, nat, nat) {
    if own.unresolved {
        (f.events.len(), 1, 0)
    } else {
        (copied_count(f.events, own.inherited_record_end), 0, confirmed_analytics_events(f.events, own.inherited_record_end).1)
    }
}

/// `ownership_counts` added up over the first `k` logs.
pub open spec fn ownership_counts_upto(files: Seq<AnalyticsLogView>, owns: Seq<SessionOwnership>, k: int) -> (nat, nat, nat)
    decreases k,
{
    if k <= 0 {
        (0, 0, 0)
    } else {
        let (a, b, c) = ownership_counts_upto(files, owns, k - 1);
        let (x, y, z) = ownership_counts(files[k - 1], owns[k - 1]);
        (a + x, b + y, c + z)
    }
}

/// The number of token events over the first `k` logs.
pub open spec fn log_event_count(files: Seq<AnalyticsLogView>, k: int) -> nat
    decreases k,
{
    if k <= 0 {
        0
    } else {
        log_event_count(files, k - 1) + files[k - 1].events.len()
    }
}

proof fn lemma_log_event_count_monotone(files: Seq<AnalyticsLogView>, j: int, k: int)
    requires
        0 <= j <= k,
    ensures
        log_event_count(files, j) <= log_event_count(files, k),
    decreases k - j,
{
    if j < k {
        lemma_log_event_count_monotone(files, j, k - 1);
    }
}

proof fn lemma_confirmed_unresolved_bounded(evs: Seq<AnalyticsEventView>, end: usize)
    ensures
        confirmed_analytics_events(evs, end).1 <= evs.len(),
{
    lemma_copied_count_bounded(evs, end);
    let init = match copied_baseline(evs, end) {
        Some(t) => t,
        None => zero_totals(),
    };
    lemma_analytics_unresolved_bounded(evs, end, init);
}

proof fn lemma_ownership_counts_bounded(files: Seq<AnalyticsLogView>, owns: Seq<SessionOwnership>, k: int)
    requires
        0 <= k <= files.len(),
        k <= owns.len(),
    ensures
        ownership_counts_upto(files, owns, k).0 <= log_event_count(files, k),
        ownership_counts_upto(files, owns, k).1 <= k,
        ownership_counts_upto(files, owns, k).2 <= log_event_count(files, k),
    decreases k,
{
    if k > 0 {
        lemma_ownership_counts_bounded(files, owns, k - 1);
        let f = files[k - 1];
        let own = owns[k - 1];
        lemma_copied_count_bounded(f.events, own.inherited_record_end);
        lemma_confirmed_unresolved_bounded(f.events, own.inherited_record_end);
    }
}

/// Applies fork lineage to logs read for cost analytics. Each log's
/// ownership is derived over all of them; a log whose fork parent cannot be
/// decided loses all its events, the others keep the events they confirmed
/// (see `confirmed_analytics_events`), and every log's prompts, usage and
/// event times are taken anew from what it keeps. Gives the number of
/// events removed, of unresolved forks and of own events left unattributed.
pub fn apply_analytics_lineage_ownership(files: &mut Vec<AnalyticsLogReader>) -> (r: (usize, usize, usize))
    requires
        logs_analysable(logs_view(old(files)@)),
        log_event_count(logs_view(old(files)@), old(files)@.len() as int) <= usize::MAX,
    ensures
        final(files)@.len() == old(files)@.len(),
        forall|i: int| 0 <= i < old(files)@.len() ==> (#[trigger] final(files)@[i])@ == owned_log(
            old(files)@[i]@,
            log_ownerships(logs_view(old(files)@))[i],
        ),
        (r.0 as nat, r.1 as nat, r.2 as nat) == ownership_counts_upto(
            logs_view(old(files)@),
            log_ownerships(logs_view(old(files)@)),
            old(files)@.len() as int,
        ),
{
    let ghost logs = logs_view(files@);
    let ghost views = log_lineage_views(logs);
    let n = files.len();
    let mut nodes: Vec<LineageNode> = Vec::new();
    let mut i: usize = 0;
    while i < n
        invariant
            n == files@.len(),
            logs == logs_view(files@),
            views == log_lineage_views(logs),
            i <= n,
            nodes@.len() == i,
            forall|j: int| 0 <= j < i ==> lineage_view(#[trigger] nodes@[j]) == views[j],
        decreases n - i,
    {
        let f = &files[i];
        let hashes = f.record_hashes.clone();
        assert(hashes@ =~= f.record_hashes@);
        let node = LineageNode {
            thread_id: f.session_id.clone(),
            history_parent_id: opt_clone(&f.parent_session_id),
            agent_parent_id: opt_clone(&f.parent_thread_id),
            identity_trusted: f.identity_trusted,
            record_hashes: hashes,
            record_resync_window: FORK_MATCH_RESYNC_WINDOW,
        };
        assert(logs[i as int] == files@[i as int]@);
        assert(lineage_view(node) =~= views[i as int]);
        nodes.push(node);
        i = i + 1;
    }
    assert(lineage_views(nodes@) =~= views);
    let ownerships = derive_session_ownerships(nodes.as_slice());
    let ghost owns = log_ownerships(logs);
    assert(ownerships@ =~= owns);
    let mut out: Vec<AnalyticsLogReader> = Vec::new();
    let mut removed: usize = 0;
    let mut forks: usize = 0;
    let mut unattributed: usize = 0;
    let mut k: usize = 0;
    while k < n
        invariant
            n == files@.len(),
            logs == logs_view(files@),
            ownerships@ == owns,
            owns.len() == n,
            log_event_count(logs, n as int) <= usize::MAX,
            k <= n,
            out@.len() == k,
            forall|j: int| 0 <= j < k ==> (#[trigger] out@[j])@ == owned_log(logs[j], owns[j]),
            (removed as nat, forks as nat, unattributed as nat) == ownership_counts_upto(logs, owns, k as int),
        decreases n - k,
    {
        proof {
            lemma_ownership_counts_bounded(logs, owns, k + 1);
            lemma_log_event_count_monotone(logs, k + 1, n as int);
        }
        let f = &files[k];
        assert(logs[k as int] == f@);
        let ownership = ownerships[k];
        let kept: Vec<AnalyticsTokenEvent>;
        if ownership.unresolved {
            forks = forks + 1;
            removed = removed + f.events.len();
            kept = Vec::new();
            assert(events_view(kept@) =~= seq![]);
        } else {
            let end = ownership.inherited_record_end;
            let mut copied: usize = 0;
            let mut j: usize = 0;
            while j < f.events.len()
                invariant
                    j <= f.events@.len(),
                    copied == copied_count(events_view(f.events@).take(j as int), end),
                decreases f.events@.len() - j,
            {
                proof {
                    lemma_copied_count_bounded(events_view(f.events@).take(j as int), end);
                }
                assert(events_view(f.events@).take(j + 1).drop_last() =~= events_view(f.events@).take(j as int));
                if f.events[j].record_index < end {
                    copied = copied + 1;
                }
                j = j + 1;
            }
            assert(events_view(f.events@).take(j as int) =~= events_view(f.events@));
            let (confirmed, unresolved) = apply_cumulative_deltas_to_analytics(&f.events, end);
            removed = removed + copied;
            unattributed = unattributed + unresolved;
            kept = confirmed;
        }
        let g = with_events(f, kept);
        out.push(g);
        assert forall|j: int| 0 <= j < k + 1 implies (#[trigger] out@[j])@ == owned_log(logs[j], owns[j]) by {
        }
        k = k + 1;
    }
    *files = out;
    (removed, forks, unattributed)
}

/// The view after reading `lines` one after the other.
pub open spec fn after_analytics_lines(s: AnalyticsLogView, lines: Seq<Seq<char>>) -> AnalyticsLogView
    decreases lines.len(),
{
    if lines.len() == 0 {
        s
    } else {
        after_analytics_line(after_analytics_lines(s, lines.drop_last()), lines.last())
    }
}

/// Reading a log in two parts, the second resumed from the state the first
/// left (as a cache does when a file has grown by whole lines), gives what
/// reading it whole gives.
pub proof fn law_resumed_reading_matches_whole_analytics(s: AnalyticsLogView, first: Seq<Seq<char>>, rest: Seq<Seq<char>>)
    ensures
        after_analytics_lines(s, first + rest) == after_analytics_lines(after_analytics_lines(s, first), rest),
    decreases rest.len(),
{
    if rest.len() == 0 {
        assert(first + rest =~= first);
    } else {
        law_resumed_reading_matches_whole_analytics(s, first, rest.drop_last());
        assert((first + rest).drop_last() =~= first + rest.drop_last());
    }
}

} // verus!
