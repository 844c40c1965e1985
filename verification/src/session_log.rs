//! Reading a rollout log line by line: its `session_meta` header, the
//! fingerprint of every record and its token events.
use vstd::prelude::*;

use crate::provider_sync::{json_pointer_string, json_string_at, opt_text};
use crate::record_hash::{fast_record_hash, record_hash};
use crate::text::{chars_of, contains_seq, contains_str, str_eq, trim, trim_chars};
use crate::token_usage::{
    parse_token_event_line_at, token_event_of, ParsedTokenEvent, ParsedTokenSessionFile,
};

verus! {

/// What a `session_meta` record says of its session.
#[derive(Debug, Clone)]
pub struct ParsedSessionMetadata {
    pub payload_id: Option<String>,
    pub payload_session_id: Option<String>,
    pub forked_from_id: Option<String>,
    pub parent_thread_id: Option<String>,
}

/// The `payload` fields `id`, `session_id`, `forked_from_id` and
/// `parent_thread_id` of a line holding `"session_meta"` that parses as a
/// JSON record of type `session_meta`.
pub open spec fn session_metadata_of(line: Seq<char>) -> Option<
    (Option<Seq<char>>, Option<Seq<char>>, Option<Seq<char>>, Option<Seq<char>>),
> {
    if !contains_seq(line, "\"session_meta\""@) || json_string_at(line, "/type"@) != Some(
        "session_meta"@,
    ) {
        None
    } else {
        Some(
            (
                json_string_at(line, "/payload/id"@),
                json_string_at(line, "/payload/session_id"@),
                json_string_at(line, "/payload/forked_from_id"@),
                json_string_at(line, "/payload/parent_thread_id"@),
            ),
        )
    }
}

pub open spec fn metadata_view(m: ParsedSessionMetadata) -> (
    Option<Seq<char>>,
    Option<Seq<char>>,
    Option<Seq<char>>,
    Option<Seq<char>>,
) {
    (opt_text(m.payload_id), opt_text(m.payload_session_id), opt_text(m.forked_from_id), opt_text(m.parent_thread_id))
}

/// Reads the session metadata of a rollout line, if it is a `session_meta` record.
pub fn parse_session_metadata_line(line: &str) -> (r: Option<ParsedSessionMetadata>)
    ensures
        match r {
            Some(m) => session_metadata_of(line@) == Some(metadata_view(m)),
            None => session_metadata_of(line@) is None,
        },
{
    let v = chars_of(line);
    if !contains_str(v.as_slice(), "\"session_meta\"") {
        return None;
    }
    let is_meta = match json_pointer_string(line, "/type") {
        Some(t) => str_eq(t.as_str(), "session_meta"),
        None => false,
    };
    if !is_meta {
        return None;
    }
    Some(
        ParsedSessionMetadata {
            payload_id: json_pointer_string(line, "/payload/id"),
            payload_session_id: json_pointer_string(line, "/payload/session_id"),
            forked_from_id: json_pointer_string(line, "/payload/forked_from_id"),
            parent_thread_id: json_pointer_string(line, "/payload/parent_thread_id"),
        },
    )
}

/// The values of a `ParsedTokenSessionFile`.
pub struct SessionFileView {
    pub session_id: Seq<char>,
    pub payload_session_id: Option<Seq<char>>,
    pub filename_session_id: Option<Seq<char>>,
    pub parent_session_id: Option<Seq<char>>,
    pub parent_thread_id: Option<Seq<char>>,
    pub identity_trusted: bool,
    pub header_checked: bool,
    pub record_hashes: Seq<u64>,
    pub events: Seq<ParsedTokenEvent>,
}

impl View for ParsedTokenSessionFile {
    type V = SessionFileView;

    open spec fn view(&self) -> SessionFileView {
        SessionFileView {
            session_id: self.session_id@,
            payload_session_id: opt_text(self.payload_session_id),
            filename_session_id: opt_text(self.filename_session_id),
            parent_session_id: opt_text(self.parent_session_id),
            parent_thread_id: opt_text(self.parent_thread_id),
            identity_trusted: self.identity_trusted,
            header_checked: self.header_checked,
            record_hashes: self.record_hashes@,
            events: self.events@,
        }
    }
}

/// The log after one more line. A blank line changes nothing. Any other
/// line is a record: its fingerprint is kept; the first record, when it
/// is session metadata, names the session (its `id`, else its
/// `session_id`), which is trusted when the file name names none or the
/// same one; any other record adds its token event, if it has one.
pub open spec fn after_line(s: SessionFileView, line: Seq<char>) -> SessionFileView {
    if trim(line).len() == 0 {
        s
    } else {
        let recorded = SessionFileView {
            header_checked: true,
            record_hashes: s.record_hashes.push(record_hash(line)),
            ..s
        };
        let header = if !s.header_checked {
            session_metadata_of(line)
        } else {
            None
        };
        match header {
            Some(m) => {
                let id = if m.0 is Some {
                    m.0
                } else {
                    m.1
                };
                let named = match id {
                    Some(i) => SessionFileView {
                        session_id: i,
                        identity_trusted: match s.filename_session_id {
                            Some(f) => f == i,
                            None => true,
                        },
                        ..recorded
                    },
                    None => recorded,
                };
                SessionFileView {
                    payload_session_id: m.1,
                    parent_session_id: m.2,
                    parent_thread_id: m.3,
                    ..named
                }
            },
            None => match token_event_of(line, s.record_hashes.len() as usize) {
                Some(e) => SessionFileView { events: recorded.events.push(e), ..recorded },
                None => recorded,
            },
        }
    }
}

impl ParsedTokenSessionFile {
    /// An empty log named `fallback_session_id` until its header says otherwise.
    pub fn new(fallback_session_id: String, filename_session_id: Option<String>) -> (r: Self)
        ensures
            r.latest_session is None,
            r@.session_id == fallback_session_id@,
            r@.filename_session_id == opt_text(filename_session_id),
            r@.payload_session_id is None,
            r@.parent_session_id is None,
            r@.parent_thread_id is None,
            !r@.identity_trusted,
            !r@.header_checked,
            r@.record_hashes.len() == 0,
            r@.events.len() == 0,
    {
        ParsedTokenSessionFile {
            session_id: fallback_session_id,
            payload_session_id: None,
            filename_session_id,
            parent_session_id: None,
            parent_thread_id: None,
            identity_trusted: false,
            header_checked: false,
            record_hashes: Vec::new(),
            events: Vec::new(),
            latest_session: None,
        }
    }

    /// Reads one more line of the log.
    pub fn read_line(&mut self, line: &str)
        requires
            old(self)@.record_hashes.len() < usize::MAX,
        ensures
            final(self)@ == after_line(old(self)@, line@),
            final(self).latest_session == old(self).latest_session,
    {
        let t = trim_chars(line);
        if t.len() == 0 {
            return;
        }
        let is_header = !self.header_checked;
        self.header_checked = true;
        let record_index = self.record_hashes.len();
        self.record_hashes.push(fast_record_hash(line));
        let metadata = if is_header {
            parse_session_metadata_line(line)
        } else {
            None
        };
        match metadata {
            Some(m) => {
                let id = match &m.payload_id {
                    Some(i) => Some(i.clone()),
                    None => match &m.payload_session_id {
                        Some(i) => Some(i.clone()),
                        None => None,
                    },
                };
                if let Some(i) = id {
                    let trusted = match &self.filename_session_id {
                        Some(f) => str_eq(f.as_str(), i.as_str()),
                        None => true,
                    };
                    self.session_id = i;
                    self.identity_trusted = trusted;
                }
                self.payload_session_id = m.payload_session_id;
                self.parent_session_id = m.forked_from_id;
                self.parent_thread_id = m.parent_thread_id;
            },
            None => {
                if let Some(e) = parse_token_event_line_at(line, record_index) {
                    self.events.push(e);
                }
            },
        }
    }
}

/// Every token event points at a record read so far.
pub open spec fn events_point_at_records(s: SessionFileView) -> bool {
    forall|i: int| 0 <= i < s.events.len() ==> (#[trigger] s.events[i]).record_index < s.record_hashes.len()
}

/// Reading a line keeps every token event pointing at a record read so
/// far, and a line that is not blank adds exactly one record.
pub proof fn law_events_point_at_records(s: SessionFileView, line: Seq<char>)
    requires
        events_point_at_records(s),
    ensures
        events_point_at_records(after_line(s, line)),
        trim(line).len() > 0 ==> after_line(s, line).record_hashes.len() == s.record_hashes.len() + 1,
        trim(line).len() == 0 ==> after_line(s, line) == s,
{
    let t = after_line(s, line);
    if trim(line).len() > 0 {
        assert forall|i: int| 0 <= i < t.events.len() implies (#[trigger] t.events[i]).record_index
            < t.record_hashes.len() by {
            if i < s.events.len() {
                assert(t.events[i] == s.events[i]);
            } else {
                let e = token_event_of(line, s.record_hashes.len() as usize).unwrap();
                assert(t.events[i] == e);
                crate::token_usage::lemma_token_event_index(line, s.record_hashes.len() as usize);
            }
        }
    }
}

/// The view after reading `lines` one after the other.
pub open spec fn after_lines(s: SessionFileView, lines: Seq<Seq<char>>) -> SessionFileView
    decreases lines.len(),
{
    if lines.len() == 0 {
        s
    } else {
        after_line(after_lines(s, lines.drop_last()), lines.last())
    }
}

/// Reading a log in two parts, the second resumed from the state the first
/// left (as a cache does when a file has grown by whole lines), gives what
/// reading it whole gives.
pub proof fn law_resumed_reading_matches_whole_session(s: SessionFileView, first: Seq<Seq<char>>, rest: Seq<Seq<char>>)
    ensures
        after_lines(s, first + rest) == after_lines(after_lines(s, first), rest),
    decreases rest.len(),
{
    if rest.len() == 0 {
        assert(first + rest =~= first);
    } else {
        law_resumed_reading_matches_whole_session(s, first, rest.drop_last());
        assert((first + rest).drop_last() =~= first + rest.drop_last());
    }
}

} // verus!
