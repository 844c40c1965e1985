//! Moving Codex history between model providers: the provider named in
//! `config.toml`, the rollout files' session metadata, per-provider counts,
//! SQLite identifiers and the bookkeeping of backups.
use vstd::prelude::*;

use crate::order::{descending, insert_ascending_unique, max_string, seq_lt, sort_descending, strictly_ascending, texts};
use crate::text_map::TextMap;
use crate::text::{
    ascii_lower, ascii_lowercase, chars_of, contains_seq, contains_str, str_eq, string_from, trim,
    trim_chars,
};

verus! {

/// The provider Codex uses when `config.toml` names none.
pub open spec fn default_provider() -> Seq<char> {
    "openai"@
}

/// The string value of top-level `key` in the TOML document `text`: `None`
/// when `text` does not parse with `toml_edit`, has no such key, or the value
/// is not a string.
pub uninterp spec fn toml_top_level_string(text: Seq<char>, key: Seq<char>) -> Option<Seq<char>>;

/// The keys, in document order, of the table at top-level `key` of the TOML
/// document `text`; `None` when `text` does not parse or that item is not a
/// (non-inline) table.
pub uninterp spec fn toml_table_keys(text: Seq<char>, key: Seq<char>) -> Option<Seq<Seq<char>>>;

/// The TOML document `text` (an empty one when it does not parse) with
/// top-level `key` set to the string `value`, as `toml_edit` prints it.
pub uninterp spec fn toml_with_string(text: Seq<char>, key: Seq<char>, value: Seq<char>) -> Seq<char>;

pub open spec fn opt_text(v: Option<String>) -> Option<Seq<char>> {
    match v {
        Some(s) => Some(s@),
        None => None,
    }
}

/// Parses `text` with `toml_edit` and reads top-level `key` as a string
/// (`DocumentMut::get`, `Item::as_str`).
#[verifier::external_body]
fn toml_string_value(text: &str, key: &str) -> (r: Option<String>)
    ensures
        opt_text(r) == toml_top_level_string(text@, key@),
{
    let document = text.parse::<toml_edit::DocumentMut>().ok()?;
    document.get(key).and_then(|item| item.as_str()).map(|value| value.to_string())
}

/// Parses `text` with `toml_edit` and lists the keys of the table at
/// top-level `key` (`DocumentMut::get`, `Item::as_table`, `Table::iter`).
#[verifier::external_body]
fn toml_table_key_list(text: &str, key: &str) -> (r: Option<Vec<String>>)
    ensures
        match r {
            Some(v) => toml_table_keys(text@, key@) == Some(texts(v@)),
            None => toml_table_keys(text@, key@) is None,
        },
{
    let document = text.parse::<toml_edit::DocumentMut>().ok()?;
    let table = document.get(key).and_then(|item| item.as_table())?;
    Some(table.iter().map(|(name, _)| name.to_string()).collect())
}

/// Parses `text` with `toml_edit` (an empty document when that fails), sets
/// top-level `key` to the string `value` and prints the document. The
/// printed document reads back `value` at `key`: the root table's entries
/// are printed first and the string is escaped as TOML requires.
#[verifier::external_body]
fn toml_set_string(text: &str, key: &str, value: &str) -> (r: String)
    ensures
        r@ == toml_with_string(text@, key@, value@),
        toml_top_level_string(r@, key@) == Some(value@),
{
    let mut document = text.parse::<toml_edit::DocumentMut>().unwrap_or_default();
    document[key] = toml_edit::value(value);
    document.to_string()
}

/// Message for an empty provider id.
pub open spec fn empty_provider_message() -> Seq<char> {
    "provider 不能为空"@
}

/// A provider id is taken trimmed and must not be empty.
pub open spec fn provider_id(provider: Seq<char>) -> Result<Seq<char>, Seq<char>> {
    if trim(provider).len() == 0 {
        Err(empty_provider_message())
    } else {
        Ok(trim(provider))
    }
}

pub open spec fn result_text(r: Result<String, String>) -> Result<Seq<char>, Seq<char>> {
    match r {
        Ok(s) => Ok(s@),
        Err(e) => Err(e@),
    }
}

/// Trims a provider id; an empty one is refused.
pub fn normalize_provider_id(provider: &str) -> (r: Result<String, String>)
    ensures
        result_text(r) == provider_id(provider@),
{
    let t = trim_chars(provider);
    if t.len() == 0 {
        return Err("provider 不能为空".to_string());
    }
    Ok(string_from(t.as_slice()))
}

/// The provider `config.toml` selects, where that choice comes from, and
/// the configured OpenAI base URL.
#[derive(Debug)]
pub struct CurrentProvider {
    pub id: String,
    pub source: String,
    pub base_url: Option<String>,
}

/// The current provider given the `model_provider` and `openai_base_url`
/// strings of `config.toml`: that provider (source `config`), else `openai`
/// (source `default`), with the base URL as it is.
pub fn current_provider_from_values(model_provider: Option<String>, base_url: Option<String>) -> (r: CurrentProvider)
    ensures
        r.id@ == match opt_text(model_provider) {
            Some(v) => v,
            None => default_provider(),
        },
        r.source@ == (if model_provider is Some {
            "config"@
        } else {
            "default"@
        }),
        opt_text(r.base_url) == opt_text(base_url),
{
    match model_provider {
        Some(id) => CurrentProvider { id, source: "config".to_string(), base_url },
        None => CurrentProvider { id: "openai".to_string(), source: "default".to_string(), base_url },
    }
}

/// Reads the current provider from the text of `config.toml`: its
/// `model_provider` string (source `config`), else `openai` (source
/// `default`), with `openai_base_url` when that is a string.
pub fn read_current_provider_from_config_text(config_text: &str) -> (r: CurrentProvider)
    ensures
        r.id@ == match toml_top_level_string(config_text@, "model_provider"@) {
            Some(v) => v,
            None => default_provider(),
        },
        r.source@ == (if toml_top_level_string(config_text@, "model_provider"@) is Some {
            "config"@
        } else {
            "default"@
        }),
        opt_text(r.base_url) == toml_top_level_string(config_text@, "openai_base_url"@),
{
    let configured = toml_string_value(config_text, "model_provider");
    let base_url = toml_string_value(config_text, "openai_base_url");
    current_provider_from_values(configured, base_url)
}

/// The provider ids offered given the keys of the `[model_providers]` table
/// (`None` when there is no such table): `openai` and those keys.
pub open spec fn ids_of_keys(keys: Option<Seq<Seq<char>>>) -> Set<Seq<char>> {
    match keys {
        Some(k) => k.to_set().insert(default_provider()),
        None => set![default_provider()],
    }
}

/// The provider ids `config.toml` makes available: `openai` and the keys of
/// its `[model_providers]` table.
pub open spec fn configured_ids(config_text: Seq<char>) -> Set<Seq<char>> {
    ids_of_keys(toml_table_keys(config_text, "model_providers"@))
}

pub open spec fn opt_key_texts(keys: Option<Vec<String>>) -> Option<Seq<Seq<char>>> {
    match keys {
        Some(k) => Some(texts(k@)),
        None => None,
    }
}

/// The configured provider ids, sorted and without repeats.
pub fn configured_provider_ids(config_text: &str) -> (r: Vec<String>)
    ensures
        strictly_ascending(texts(r@)),
        texts(r@).to_set() == configured_ids(config_text@),
{
    let keys = toml_table_key_list(config_text, "model_providers");
    provider_ids_from_table_keys(keys)
}

/// The provider ids offered given the keys of the `[model_providers]` table,
/// sorted and without repeats.
pub fn provider_ids_from_table_keys(keys: Option<Vec<String>>) -> (r: Vec<String>)
    ensures
        strictly_ascending(texts(r@)),
        texts(r@).to_set() == ids_of_keys(opt_key_texts(keys)),
{
    let mut ids: Vec<String> = Vec::new();
    let openai = "openai".to_string();
    insert_ascending_unique(&mut ids, openai);
    assert(texts(ids@).to_set() =~= set![default_provider()]) by {
        assert(Seq::<Seq<char>>::empty().to_set() =~= Set::<Seq<char>>::empty());
        assert(texts(Seq::<String>::empty()) =~= Seq::<Seq<char>>::empty());
    }
    match keys {
        Some(keys) => {
            let mut i: usize = 0;
            while i < keys.len()
                invariant
                    i <= keys@.len(),
                    strictly_ascending(texts(ids@)),
                    texts(ids@).to_set() == texts(keys@).subrange(0, i as int).to_set().insert(
                        default_provider(),
                    ),
                decreases keys@.len() - i,
            {
                let ghost before = texts(ids@).to_set();
                let key = keys[i].clone();
                insert_ascending_unique(&mut ids, key);
                assert(texts(keys@).subrange(0, i + 1) =~= texts(keys@).subrange(0, i as int).push(
                    keys@[i as int]@,
                ));
                assert(texts(keys@).subrange(0, i + 1).to_set() =~= texts(keys@).subrange(
                    0,
                    i as int,
                ).to_set().insert(keys@[i as int]@)) by {
                    texts(keys@).subrange(0, i as int).lemma_push_to_set_commute(keys@[i as int]@);
                }
                assert(texts(ids@).to_set() =~= texts(keys@).subrange(0, i + 1).to_set().insert(
                    default_provider(),
                ));
                i = i + 1;
            }
            assert(texts(keys@).subrange(0, i as int) =~= texts(keys@));
        },
        None => {},
    }
    ids
}

/// Message for a provider that `config.toml` does not configure.
pub open spec fn unconfigured_provider_message(provider: Seq<char>) -> Seq<char> {
    "config.toml 中没有配置 provider `"@ + provider + "`，请先在 [model_providers."@ + provider
        + "] 中配置后再同步"@
}

/// Accepts `provider` only when `config.toml` configures it.
pub fn ensure_configured_provider(config_text: &str, provider: &str) -> (r: Result<(), String>)
    ensures
        configured_ids(config_text@).contains(provider@) <==> r is Ok,
        r matches Err(e) ==> e@ == unconfigured_provider_message(provider@),
{
    let providers = configured_provider_ids(config_text);
    let mut i: usize = 0;
    while i < providers.len()
        invariant
            i <= providers@.len(),
            texts(providers@).to_set() == configured_ids(config_text@),
            forall|k: int| 0 <= k < i ==> texts(providers@)[k] != provider@,
        decreases providers@.len() - i,
    {
        if str_eq(providers[i].as_str(), provider) {
            assert(texts(providers@)[i as int] == provider@);
            assert(texts(providers@).to_set().contains(provider@));
            return Ok(());
        }
        i = i + 1;
    }
    let mut m = "config.toml 中没有配置 provider `".to_string();
    m.append(provider);
    m.append("`，请先在 [model_providers.");
    m.append(provider);
    m.append("] 中配置后再同步");
    Err(m)
}

/// The provider a sync moves history to: the normalized id, which an
/// explicitly requested provider must also be configured for.
pub open spec fn sync_target(config_text: Seq<char>, provider: Seq<char>, explicit: bool) -> Result<Seq<char>, Seq<char>> {
    match provider_id(provider) {
        Err(e) => Err(e),
        Ok(p) => if explicit && !configured_ids(config_text).contains(p) {
            Err(unconfigured_provider_message(p))
        } else {
            Ok(p)
        },
    }
}

/// Checks the provider a sync is asked for against `config.toml`.
pub fn sync_target_provider(config_text: &str, provider: &str, explicit: bool) -> (r: Result<String, String>)
    ensures
        result_text(r) == sync_target(config_text@, provider@, explicit),
{
    let p = normalize_provider_id(provider)?;
    if explicit {
        ensure_configured_provider(config_text, p.as_str())?;
    }
    Ok(p)
}

/// The new text of `config.toml` when switching to `provider`: the
/// provider must be configured; `model_provider` is then set to it.
pub open spec fn switched_config(config_text: Seq<char>, provider: Seq<char>) -> Result<Seq<char>, Seq<char>> {
    match sync_target(config_text, provider, true) {
        Err(e) => Err(e),
        Ok(p) => Ok(toml_with_string(config_text, "model_provider"@, p)),
    }
}

/// The text `config.toml` gets when switching to `provider`; read back, it
/// selects the (trimmed) provider.
pub fn config_with_model_provider(config_text: &str, provider: &str) -> (r: Result<String, String>)
    ensures
        result_text(r) == switched_config(config_text@, provider@),
        r matches Ok(t) ==> toml_top_level_string(t@, "model_provider"@) == Some(trim(provider@)),
{
    let p = sync_target_provider(config_text, provider, true)?;
    Ok(toml_set_string(config_text, "model_provider", p.as_str()))
}

/// Index of the first `c` in `s`.
pub open spec fn first_index_of(s: Seq<char>, c: char) -> Option<int>
    decreases s.len(),
{
    if s.len() == 0 {
        None
    } else if s[0] == c {
        Some(0)
    } else {
        match first_index_of(s.drop_first(), c) {
            Some(i) => Some(i + 1),
            None => None,
        }
    }
}

/// `s` without one trailing `\r`.
pub open spec fn without_cr(s: Seq<char>) -> Seq<char> {
    if s.len() > 0 && s.last() == '\r' {
        s.drop_last()
    } else {
        s
    }
}

/// A rollout file split into its first line, the line break after it and
/// the rest: `None` for an empty file.
pub open spec fn first_line_split(raw: Seq<char>) -> Option<(Seq<char>, Seq<char>, Seq<char>)> {
    if raw.len() == 0 {
        None
    } else {
        match first_index_of(raw, '\n') {
            Some(i) => {
                let first = raw.subrange(0, i);
                let rest = raw.subrange(i + 1, raw.len() as int);
                if first.len() > 0 && first.last() == '\r' {
                    Some((first.drop_last(), "\r\n"@, rest))
                } else {
                    Some((first, "\n"@, rest))
                }
            },
            None => Some((without_cr(raw), ""@, ""@)),
        }
    }
}

/// Splits a rollout file into its first line, line break and remainder.
pub fn split_first_jsonl_line(raw: &str) -> (r: Option<(String, String, String)>)
    ensures
        match first_line_split(raw@) {
            Some((a, b, c)) => r matches Some(t) && t.0@ == a && t.1@ == b && t.2@ == c,
            None => r is None,
        },
{
    let v = chars_of(raw);
    if v.len() == 0 {
        return None;
    }
    let mut i: usize = 0;
    assert(v@.skip(0) =~= v@);
    while i < v.len() && v[i] != '\n'
        invariant
            i <= v@.len(),
            v@ == raw@,
            first_index_of(v@, '\n') == match first_index_of(v@.skip(i as int), '\n') {
                Some(k) => Some(k + i),
                None => None,
            },
        decreases v@.len() - i,
    {
        assert(v@.skip(i as int).drop_first() =~= v@.skip(i + 1));
        i = i + 1;
    }
    if i < v.len() {
        let first = crate::text::slice_to_vec(v.as_slice(), 0, i);
        let rest = crate::text::slice_to_vec(v.as_slice(), i + 1, v.len());
        if first.len() > 0 && first[first.len() - 1] == '\r' {
            let trimmed = crate::text::slice_to_vec(first.as_slice(), 0, first.len() - 1);
            assert(trimmed@ =~= first@.drop_last());
            Some((string_from(trimmed.as_slice()), "\r\n".to_string(), string_from(rest.as_slice())))
        } else {
            Some((string_from(first.as_slice()), "\n".to_string(), string_from(rest.as_slice())))
        }
    } else {
        if v[v.len() - 1] == '\r' {
            let trimmed = crate::text::slice_to_vec(v.as_slice(), 0, v.len() - 1);
            assert(trimmed@ =~= v@.drop_last());
            Some((string_from(trimmed.as_slice()), "".to_string(), "".to_string()))
        } else {
            Some((raw.to_string(), "".to_string(), "".to_string()))
        }
    }
}

/// A rollout records a user turn when it holds a user role or a user
/// message event, in compact or spaced JSON.
pub open spec fn has_user_event(raw: Seq<char>) -> bool {
    contains_seq(raw, "\"role\":\"user\""@) || contains_seq(raw, "\"role\": \"user\""@)
        || contains_seq(raw, "\"type\":\"user_message\""@) || contains_seq(
        raw,
        "\"type\": \"user_message\""@,
    )
}

/// Whether a rollout file records a user turn.
pub fn rollout_has_user_event(raw: &str) -> (r: bool)
    ensures
        r == has_user_event(raw@),
{
    let v = chars_of(raw);
    let s = v.as_slice();
    contains_str(s, "\"role\":\"user\"") || contains_str(s, "\"role\": \"user\"") || contains_str(
        s,
        "\"type\":\"user_message\"",
    ) || contains_str(s, "\"type\": \"user_message\"")
}

pub open spec fn identifier_char(c: char) -> bool {
    ('a' <= c && c <= 'z') || ('A' <= c && c <= 'Z') || ('0' <= c && c <= '9') || c == '_'
}

/// A column name is quoted for SQL only when it is made of ASCII letters,
/// digits and `_`.
pub open spec fn quoted_identifier(identifier: Seq<char>) -> Result<Seq<char>, Seq<char>> {
    if forall|i: int| 0 <= i < identifier.len() ==> identifier_char(#[trigger] identifier[i]) {
        Ok("\""@ + identifier + "\""@)
    } else {
        Err("不支持的 SQLite 字段名: "@ + identifier)
    }
}

/// Quotes a SQLite column name, refusing anything but plain identifiers.
pub fn quote_sqlite_identifier(identifier: &str) -> (r: Result<String, String>)
    ensures
        result_text(r) == quoted_identifier(identifier@),
{
    let v = chars_of(identifier);
    let mut i: usize = 0;
    while i < v.len()
        invariant
            i <= v@.len(),
            v@ == identifier@,
            forall|j: int| 0 <= j < i ==> identifier_char(#[trigger] v@[j]),
        decreases v@.len() - i,
    {
        let c = v[i];
        if !(('a' <= c && c <= 'z') || ('A' <= c && c <= 'Z') || ('0' <= c && c <= '9') || c == '_') {
            assert(!identifier_char(v@[i as int]));
            let mut m = "不支持的 SQLite 字段名: ".to_string();
            m.append(identifier);
            return Err(m);
        }
        i = i + 1;
    }
    let mut q = "\"".to_string();
    q.append(identifier);
    q.append("\"");
    Ok(q)
}

/// How a SQLite failure is reported: a database held by Codex (locked or
/// busy) gets a hint to close Codex first.
pub open spec fn sqlite_error_text(action: Seq<char>, message: Seq<char>) -> Seq<char> {
    let lowered = ascii_lower(message);
    if contains_seq(lowered, "locked"@) || contains_seq(lowered, "busy"@) {
        action + "失败：state_5.sqlite 正在被 Codex 占用，请关闭 Codex/Codex App 后重试。原始错误: "@
            + message
    } else {
        action + "失败: "@ + message
    }
}

/// The message for a failed SQLite `action`, given the error's text.
pub fn sqlite_error(action: &str, message: &str) -> (r: String)
    ensures
        r@ == sqlite_error_text(action@, message@),
{
    let v = chars_of(message);
    let lowered = ascii_lowercase(v.as_slice());
    let mut out = action.to_string();
    if contains_str(lowered.as_slice(), "locked") || contains_str(lowered.as_slice(), "busy") {
        out.append("失败：state_5.sqlite 正在被 Codex 占用，请关闭 Codex/Codex App 后重试。原始错误: ");
    } else {
        out.append("失败: ");
    }
    out.append(message);
    out
}

/// What the provider sync needs to know of the `threads` table.
#[derive(Debug)]
pub struct SqliteSchema {
    pub id_column: String,
    pub has_model_provider: bool,
    pub has_user_event: bool,
    pub has_cwd: bool,
}

/// The schema of the `threads` table given its column names: none when it
/// has no columns or neither an `id` nor a `thread_id` column.
pub fn sqlite_schema_from_columns(columns: &Vec<String>) -> (r: Option<SqliteSchema>)
    ensures
        match r {
            None => texts(columns@).len() == 0 || (!texts(columns@).contains("id"@)
                && !texts(columns@).contains("thread_id"@)),
            Some(schema) => {
                &&& texts(columns@).len() > 0
                &&& schema.id_column@ == (if texts(columns@).contains("id"@) {
                    "id"@
                } else {
                    "thread_id"@
                })
                &&& texts(columns@).contains(schema.id_column@)
                &&& schema.has_model_provider == texts(columns@).contains("model_provider"@)
                &&& schema.has_user_event == texts(columns@).contains("has_user_event"@)
                &&& schema.has_cwd == texts(columns@).contains("cwd"@)
            },
        },
{
    if columns.len() == 0 {
        return None;
    }
    let has_id = contains_text(columns, "id");
    let has_thread_id = contains_text(columns, "thread_id");
    let id_column = if has_id {
        "id".to_string()
    } else if has_thread_id {
        "thread_id".to_string()
    } else {
        return None;
    };
    Some(SqliteSchema {
        id_column,
        has_model_provider: contains_text(columns, "model_provider"),
        has_user_event: contains_text(columns, "has_user_event"),
        has_cwd: contains_text(columns, "cwd"),
    })
}

/// Whether one of `v` equals `x`.
pub fn contains_text(v: &Vec<String>, x: &str) -> (r: bool)
    ensures
        r == texts(v@).contains(x@),
{
    let mut i: usize = 0;
    while i < v.len()
        invariant
            i <= v@.len(),
            forall|k: int| 0 <= k < i ==> texts(v@)[k] != x@,
        decreases v@.len() - i,
    {
        if str_eq(v[i].as_str(), x) {
            assert(texts(v@)[i as int] == x@);
            return true;
        }
        i = i + 1;
    }
    false
}

/// The text of the error `serde_json` reports for `line`, `None` when it
/// parses as a JSON value.
pub uninterp spec fn json_syntax_error(line: Seq<char>) -> Option<Seq<char>>;

/// The string at JSON pointer `pointer` in the JSON text `line` (`None` when
/// the text does not parse, nothing is there, or it is not a string).
pub uninterp spec fn json_string_at(line: Seq<char>, pointer: Seq<char>) -> Option<Seq<char>>;

/// Whether an object stands at JSON pointer `pointer` in the JSON text `line`.
pub uninterp spec fn json_object_at(line: Seq<char>, pointer: Seq<char>) -> bool;

/// The JSON text `line` with the entry `field` of its top-level object `key`
/// set to the string `value`, as `serde_json::to_string` prints it, or its
/// error text.
pub uninterp spec fn json_with_string(line: Seq<char>, key: Seq<char>, field: Seq<char>, value: Seq<char>) -> Result<Seq<char>, Seq<char>>;

/// A key that a JSON pointer names as it is: without `/` or `~`.
pub open spec fn plain_pointer_token(k: Seq<char>) -> bool {
    !k.contains('/') && !k.contains('~')
}

/// Parses `line` with `serde_json` and keeps the error's text.
#[verifier::external_body]
pub(crate) fn json_parse_error(line: &str) -> (r: Option<String>)
    ensures
        opt_text(r) == json_syntax_error(line@),
{
    serde_json::from_str::<serde_json::Value>(line).err().map(|error| error.to_string())
}

/// Parses `line` with `serde_json` and reads the string at `pointer`
/// (`Value::pointer`, `Value::as_str`).
#[verifier::external_body]
pub(crate) fn json_pointer_string(line: &str, pointer: &str) -> (r: Option<String>)
    ensures
        opt_text(r) == json_string_at(line@, pointer@),
{
    let root = serde_json::from_str::<serde_json::Value>(line).ok()?;
    root.pointer(pointer).and_then(|value| value.as_str()).map(|value| value.to_string())
}

/// Parses `line` with `serde_json` and tells whether an object stands at
/// `pointer` (`Value::pointer`, `Value::is_object`).
#[verifier::external_body]
pub(crate) fn json_object_at_exec(line: &str, pointer: &str) -> (r: bool)
    ensures
        r == json_object_at(line@, pointer@),
{
    match serde_json::from_str::<serde_json::Value>(line) {
        Ok(root) => root.pointer(pointer).is_some_and(|value| value.is_object()),
        Err(_) => false,
    }
}

/// Parses `line` with `serde_json`, sets `root[key][field]` to the string
/// `value` through `IndexMut` and prints the value with
/// `serde_json::to_string`. The indexing panics unless the root is an object
/// and `root[key]` an object (or absent), which the precondition ensures. The
/// compact text printed is valid JSON on one line (control characters inside
/// strings are escaped), keeps every other top-level string entry and `key`
/// an object, and reads back `value` at `key`/`field`.
#[verifier::external_body]
fn json_set_string(line: &str, key: &str, field: &str, value: &str) -> (r: Result<String, String>)
    requires
        json_syntax_error(line@) is None,
        json_object_at(line@, ""@),
        json_object_at(line@, "/"@ + key@),
        plain_pointer_token(key@),
        plain_pointer_token(field@),
    ensures
        result_text(r) == json_with_string(line@, key@, field@, value@),
        r matches Ok(t) ==> {
            &&& t@.len() > 0
            &&& !t@.contains('\n')
            &&& !t@.contains('\r')
            &&& json_syntax_error(t@) is None
            &&& json_object_at(t@, ""@)
            &&& json_object_at(t@, "/"@ + key@)
            &&& json_string_at(t@, "/"@ + key@ + "/"@ + field@) == Some(value@)
            &&& forall|k: Seq<char>|
                plain_pointer_token(k) && k != key@ ==> #[trigger] json_string_at(t@, "/"@ + k)
                    == json_string_at(line@, "/"@ + k)
        },
{
    let mut root = serde_json::from_str::<serde_json::Value>(line).map_err(|error| error.to_string())?;
    root[key][field] = serde_json::Value::String(value.to_string());
    serde_json::to_string(&root).map_err(|error| error.to_string())
}

/// What one rollout file contributes to a provider scan.
#[derive(Debug)]
pub struct RolloutFileScan {
    /// The provider its session metadata names (`openai` when none).
    pub existing_provider: String,
    /// The file holds encrypted content.
    pub encrypted_content: bool,
    /// The session's thread id.
    pub thread_id: Option<String>,
    /// The thread has a user turn.
    pub user_event: bool,
    /// The session's working directory, when it has an id and a non-blank cwd.
    pub cwd: Option<String>,
    /// The rewritten file when the metadata names another provider, or the
    /// error met while writing its first line.
    pub rewrite: Option<Result<String, String>>,
}

/// The metadata line of a rollout file says it is a session.
pub open spec fn is_session_meta(first: Seq<char>) -> bool {
    &&& json_object_at(first, ""@)
    &&& json_string_at(first, "/type"@) == Some("session_meta"@)
    &&& json_object_at(first, "/payload"@)
}

/// The cwd a session records when it has an id and a non-blank cwd.
pub open spec fn session_cwd(first: Seq<char>) -> Option<Seq<char>> {
    if json_string_at(first, "/payload/id"@) is Some {
        match json_string_at(first, "/payload/cwd"@) {
            Some(c) => if trim(c).len() > 0 {
                Some(c)
            } else {
                None
            },
            None => None,
        }
    } else {
        None
    }
}

/// What the rewrite of a session needs: nothing when its metadata already
/// names `target`; else its first line with the new provider, followed by
/// the file's own line break and remainder.
pub open spec fn session_rewrite(first: Seq<char>, sep: Seq<char>, rest: Seq<char>, target: Seq<char>) -> Option<Result<Seq<char>, Seq<char>>> {
    if json_string_at(first, "/payload/model_provider"@) == Some(target) {
        None
    } else {
        match json_with_string(first, "payload"@, "model_provider"@, target) {
            Ok(t) => Some(Ok(t + sep + rest)),
            Err(e) => Some(Err("序列化 session_meta 失败: "@ + e)),
        }
    }
}

pub open spec fn opt_result_text(r: Option<Result<String, String>>) -> Option<Result<Seq<char>, Seq<char>>> {
    match r {
        Some(x) => Some(result_text(x)),
        None => None,
    }
}

/// The scan of a rollout file is exactly what its first line and contents
/// say about it.
pub open spec fn file_scan_matches(f: RolloutFileScan, raw: Seq<char>, first: Seq<char>, sep: Seq<char>, rest: Seq<char>, target: Seq<char>) -> bool {
    &&& f.existing_provider@ == match json_string_at(first, "/payload/model_provider"@) {
        Some(p) => p,
        None => default_provider(),
    }
    &&& f.encrypted_content == contains_seq(raw, "encrypted_content"@)
    &&& opt_text(f.thread_id) == json_string_at(first, "/payload/id"@)
    &&& f.user_event == (json_string_at(first, "/payload/id"@) is Some && has_user_event(raw))
    &&& opt_text(f.cwd) == session_cwd(first)
    &&& opt_result_text(f.rewrite) == session_rewrite(first, sep, rest, target)
}

/// A rollout file whose session metadata is valid JSON and already names
/// `target` as its provider.
pub open spec fn settled_session(raw: Seq<char>, target: Seq<char>) -> bool {
    first_line_split(raw) matches Some((first, _, _)) && json_syntax_error(first) is None
        && is_session_meta(first) && json_string_at(first, "/payload/model_provider"@) == Some(target)
}

proof fn lemma_first_index_of_after(s: Seq<char>, c: char, k: int)
    requires
        0 <= k <= s.len(),
        forall|j: int| 0 <= j < k ==> s[j] != c,
    ensures
        first_index_of(s, c) == match first_index_of(s.skip(k), c) {
            Some(i) => Some(i + k),
            None => None,
        },
    decreases k,
{
    if k > 0 {
        lemma_first_index_of_after(s.drop_first(), c, k - 1);
        assert(s.drop_first().skip(k - 1) =~= s.skip(k));
    } else {
        assert(s.skip(0) =~= s);
    }
}

/// A one-line text followed by a line break (or by nothing) and the rest of
/// a file is that file's first line.
proof fn lemma_first_line_of_rewrite(t: Seq<char>, sep: Seq<char>, rest: Seq<char>)
    requires
        t.len() > 0,
        !t.contains('\n'),
        !t.contains('\r'),
        sep == "\n"@ || sep == "\r\n"@ || (sep == ""@ && rest == ""@),
    ensures
        first_line_split(t + sep + rest) matches Some((f, _, _)) && f == t,
{
    reveal_strlit("\n");
    reveal_strlit("\r\n");
    reveal_strlit("");
    let s = t + sep + rest;
    assert forall|j: int| 0 <= j < t.len() implies s[j] != '\n' by {
        assert(s[j] == t[j]);
        if t[j] == '\n' {
            assert(t.contains('\n'));
        }
    }
    lemma_first_index_of_after(s, '\n', t.len() as int);
    if t.last() == '\r' {
        assert(t.contains('\r'));
    }
    let k = t.len() as int;
    if sep == ""@ {
        assert(s =~= t);
        assert(s.skip(k) =~= Seq::<char>::empty());
        assert(first_index_of(s, '\n') is None);
        assert(without_cr(s) == t);
    } else if sep == "\n"@ {
        assert(s.skip(k)[0] == '\n');
        assert(first_index_of(s.skip(k), '\n') == Some(0int));
        assert(first_index_of(s, '\n') == Some(k));
        assert(s.subrange(0, k) =~= t);
    } else {
        assert(s.skip(k)[0] == '\r');
        assert(s.skip(k).drop_first()[0] == '\n');
        assert(first_index_of(s.skip(k).drop_first(), '\n') == Some(0int));
        assert(first_index_of(s.skip(k), '\n') == Some(1int));
        assert(first_index_of(s, '\n') == Some(k + 1));
        assert(s.subrange(0, k + 1) =~= t.push('\r'));
        assert(t.push('\r').drop_last() =~= t);
    }
}

/// A settled rollout file needs no rewrite for a sync to `target`: syncing
/// twice changes nothing the second time.
pub proof fn law_settled_session_needs_no_rewrite(raw: Seq<char>, target: Seq<char>)
    requires
        settled_session(raw, target),
    ensures
        first_line_split(raw) matches Some((first, sep, rest)) && session_rewrite(first, sep, rest, target) is None,
{
}

/// Scans the contents `raw` of a rollout file for a sync to `target`. An
/// empty file, or one whose first line is not session metadata with an
/// object payload, contributes nothing; a first line that is not JSON is an
/// error.
pub fn scan_rollout_text(raw: &str, target: &str) -> (r: Result<Option<RolloutFileScan>, String>)
    ensures
        match first_line_split(raw@) {
            None => r matches Ok(None),
            Some((first, sep, rest)) => match json_syntax_error(first) {
                Some(e) => r matches Err(m) && m@ == "解析 session_meta 失败: "@ + e,
                None => if !is_session_meta(first) {
                    r matches Ok(None)
                } else {
                    r matches Ok(Some(f)) && file_scan_matches(f, raw@, first, sep, rest, target@)
                },
            },
        },
        r matches Ok(Some(f)) ==> (f.rewrite matches Some(Ok(new)) ==> settled_session(new@, target@)),
{
    let (first, sep, rest) = match split_first_jsonl_line(raw) {
        Some(t) => t,
        None => {
            return Ok(None);
        },
    };
    if let Some(e) = json_parse_error(first.as_str()) {
        let mut m = "解析 session_meta 失败: ".to_string();
        m.append(e.as_str());
        return Err(m);
    }
    let kind = json_pointer_string(first.as_str(), "/type");
    let kind_ok = match &kind {
        Some(k) => str_eq(k.as_str(), "session_meta"),
        None => false,
    };
    if !json_object_at_exec(first.as_str(), "") || !kind_ok || !json_object_at_exec(first.as_str(), "/payload") {
        return Ok(None);
    }
    let provider = json_pointer_string(first.as_str(), "/payload/model_provider");
    let thread_id = json_pointer_string(first.as_str(), "/payload/id");
    let raw_chars = chars_of(raw);
    let encrypted_content = contains_str(raw_chars.as_slice(), "encrypted_content");
    let user_event = match &thread_id {
        Some(_) => rollout_has_user_event(raw),
        None => false,
    };
    let cwd = match &thread_id {
        Some(_) => match json_pointer_string(first.as_str(), "/payload/cwd") {
            Some(c) => {
                let t = trim_chars(c.as_str());
                if t.len() > 0 {
                    Some(c)
                } else {
                    None
                }
            },
            None => None,
        },
        None => None,
    };
    let needs_rewrite = match &provider {
        Some(p) => !str_eq(p.as_str(), target),
        None => true,
    };
    let rewrite = if needs_rewrite {
        proof {
            reveal_strlit("/");
            reveal_strlit("payload");
            reveal_strlit("/payload");
            reveal_strlit("model_provider");
            reveal_strlit("/payload/model_provider");
            reveal_strlit("type");
            reveal_strlit("/type");
            assert("/"@ + "payload"@ =~= "/payload"@);
            assert("/"@ + "payload"@ + "/"@ + "model_provider"@ =~= "/payload/model_provider"@);
            assert("/"@ + "type"@ =~= "/type"@);
            assert(plain_pointer_token("payload"@));
            assert(plain_pointer_token("model_provider"@));
            assert(plain_pointer_token("type"@) && "type"@ != "payload"@);
        }
        match json_set_string(first.as_str(), "payload", "model_provider", target) {
            Ok(t) => {
                proof {
                    assert(json_string_at(t@, "/"@ + "type"@) == json_string_at(first@, "/"@ + "type"@));
                }
                let mut updated = t;
                let ghost line = updated@;
                updated.append(sep.as_str());
                updated.append(rest.as_str());
                proof {
                    lemma_first_line_of_rewrite(line, sep@, rest@);
                    assert(updated@ == line + sep@ + rest@);
                }
                Some(Ok(updated))
            },
            Err(e) => {
                let mut m = "序列化 session_meta 失败: ".to_string();
                m.append(e.as_str());
                Some(Err(m))
            },
        }
    } else {
        None
    };
    let existing_provider = match provider {
        Some(p) => p,
        None => "openai".to_string(),
    };
    Ok(
        Some(
            RolloutFileScan {
                existing_provider,
                encrypted_content,
                thread_id,
                user_event,
                cwd,
                rewrite,
            },
        ),
    )
}

/// Which history folder a rollout file lives in.
#[derive(Debug, Clone, Copy, PartialEq, Eq, Structural)]
pub enum RolloutScope {
    Sessions,
    ArchivedSessions,
}

/// Number of rollout files per provider, for live and archived sessions.
pub struct ProviderScopeCounts {
    pub sessions: TextMap<u64>,
    pub archived_sessions: TextMap<u64>,
}

impl ProviderScopeCounts {
    pub open spec fn wf(self) -> bool {
        self.sessions.wf() && self.archived_sessions.wf()
    }

    /// The counts of one scope.
    pub open spec fn scope(self, scope: RolloutScope) -> Map<Seq<char>, u64> {
        match scope {
            RolloutScope::Sessions => self.sessions.as_map(),
            RolloutScope::ArchivedSessions => self.archived_sessions.as_map(),
        }
    }

    pub fn new() -> (r: Self)
        ensures
            r.wf(),
            r.sessions.as_map() == Map::<Seq<char>, u64>::empty(),
            r.archived_sessions.as_map() == Map::<Seq<char>, u64>::empty(),
    {
        ProviderScopeCounts { sessions: TextMap::new(), archived_sessions: TextMap::new() }
    }
}

/// `m` with one more for `key`.
pub open spec fn counted(m: Map<Seq<char>, u64>, key: Seq<char>) -> Map<Seq<char>, u64> {
    m.insert(
        key,
        (if m.contains_key(key) {
            m[key] + 1
        } else {
            1
        }) as u64,
    )
}

/// A count can grow by one.
pub open spec fn can_count(m: Map<Seq<char>, u64>, key: Seq<char>) -> bool {
    m.contains_key(key) ==> m[key] < u64::MAX
}

/// Counts one more rollout file for `provider` in `scope`.
pub fn increment_provider_count(counts: &mut ProviderScopeCounts, scope: RolloutScope, provider: &str)
    requires
        old(counts).wf(),
        can_count(old(counts).scope(scope), provider@),
    ensures
        final(counts).wf(),
        final(counts).scope(scope) == counted(old(counts).scope(scope), provider@),
        scope == RolloutScope::Sessions ==> final(counts).archived_sessions.as_map() == old(counts).archived_sessions.as_map(),
        scope == RolloutScope::ArchivedSessions ==> final(counts).sessions.as_map() == old(counts).sessions.as_map(),
{
    match scope {
        RolloutScope::Sessions => counts.sessions.increment(provider),
        RolloutScope::ArchivedSessions => counts.archived_sessions.increment(provider),
    }
}

/// A rollout file to rewrite, with its new contents.
#[derive(Debug)]
pub struct SessionFileChange {
    pub path: String,
    pub updated_text: String,
}

pub open spec fn change_texts(s: Seq<SessionFileChange>) -> Seq<(Seq<char>, Seq<char>)> {
    s.map_values(|c: SessionFileChange| (c.path@, c.updated_text@))
}

/// What scanning the rollout files found.
pub struct SessionScan {
    pub provider_counts: ProviderScopeCounts,
    pub encrypted_content_counts: ProviderScopeCounts,
    pub changes: Vec<SessionFileChange>,
    pub unreadable_files: Vec<String>,
    pub rollout_files_scanned: usize,
    pub thread_ids: TextMap<()>,
    pub user_event_thread_ids: TextMap<()>,
    pub thread_cwd_by_id: TextMap<String>,
}

impl SessionScan {
    pub open spec fn wf(self) -> bool {
        &&& self.provider_counts.wf()
        &&& self.encrypted_content_counts.wf()
        &&& self.thread_ids.wf()
        &&& self.user_event_thread_ids.wf()
        &&& self.thread_cwd_by_id.wf()
    }

    /// A scan that has seen nothing.
    pub fn new() -> (r: Self)
        ensures
            r.wf(),
            r.provider_counts.sessions.as_map() == Map::<Seq<char>, u64>::empty(),
            r.provider_counts.archived_sessions.as_map() == Map::<Seq<char>, u64>::empty(),
            r.encrypted_content_counts.sessions.as_map() == Map::<Seq<char>, u64>::empty(),
            r.encrypted_content_counts.archived_sessions.as_map() == Map::<Seq<char>, u64>::empty(),
            r.changes@.len() == 0,
            r.unreadable_files@.len() == 0,
            r.rollout_files_scanned == 0,
            r.thread_ids.as_map() == Map::<Seq<char>, ()>::empty(),
            r.user_event_thread_ids.as_map() == Map::<Seq<char>, ()>::empty(),
            r.thread_cwd_by_id.as_map() == Map::<Seq<char>, String>::empty(),
    {
        SessionScan {
            provider_counts: ProviderScopeCounts::new(),
            encrypted_content_counts: ProviderScopeCounts::new(),
            changes: Vec::new(),
            unreadable_files: Vec::new(),
            rollout_files_scanned: 0,
            thread_ids: TextMap::new(),
            user_event_thread_ids: TextMap::new(),
            thread_cwd_by_id: TextMap::new(),
        }
    }
}

/// `key` added to a set kept as a map to `()`.
pub open spec fn with_key(m: Map<Seq<char>, ()>, key: Option<Seq<char>>) -> Map<Seq<char>, ()> {
    match key {
        Some(k) => m.insert(k, ()),
        None => m,
    }
}

/// The line reported for a rollout file that could not be used.
pub open spec fn unreadable_line(path: Seq<char>, error: Seq<char>) -> Seq<char> {
    path + ": "@ + error
}

/// Adds the outcome of scanning the rollout file at `path` to `scan`: an
/// error marks the file unreadable; a session counts under its provider (and
/// under encrypted content when it has some), records its thread, user turn
/// and cwd, and queues its rewrite (or reports why that failed).
pub fn record_rollout_file(
    scan: &mut SessionScan,
    path: &str,
    scope: RolloutScope,
    outcome: Result<Option<RolloutFileScan>, String>,
)
    requires
        old(scan).wf(),
        old(scan).rollout_files_scanned < usize::MAX,
        outcome matches Ok(Some(f)) ==> can_count(old(scan).provider_counts.scope(scope), f.existing_provider@)
            && can_count(old(scan).encrypted_content_counts.scope(scope), f.existing_provider@),
    ensures
        final(scan).wf(),
        final(scan).rollout_files_scanned == old(scan).rollout_files_scanned + 1,
        match outcome {
            Err(e) => {
                &&& texts(final(scan).unreadable_files@) == texts(old(scan).unreadable_files@).push(unreadable_line(path@, e@))
                &&& change_texts(final(scan).changes@) == change_texts(old(scan).changes@)
                &&& final(scan).provider_counts.scope(scope) == old(scan).provider_counts.scope(scope)
                &&& final(scan).encrypted_content_counts.scope(scope) == old(scan).encrypted_content_counts.scope(scope)
                &&& final(scan).thread_ids.as_map() == old(scan).thread_ids.as_map()
            },
            Ok(None) => {
                &&& texts(final(scan).unreadable_files@) == texts(old(scan).unreadable_files@)
                &&& change_texts(final(scan).changes@) == change_texts(old(scan).changes@)
                &&& final(scan).provider_counts.scope(scope) == old(scan).provider_counts.scope(scope)
                &&& final(scan).encrypted_content_counts.scope(scope) == old(scan).encrypted_content_counts.scope(scope)
                &&& final(scan).thread_ids.as_map() == old(scan).thread_ids.as_map()
            },
            Ok(Some(f)) => {
                &&& final(scan).provider_counts.scope(scope) == counted(old(scan).provider_counts.scope(scope), f.existing_provider@)
                &&& final(scan).encrypted_content_counts.scope(scope) == (if f.encrypted_content {
                    counted(old(scan).encrypted_content_counts.scope(scope), f.existing_provider@)
                } else {
                    old(scan).encrypted_content_counts.scope(scope)
                })
                &&& final(scan).thread_ids.as_map() == with_key(old(scan).thread_ids.as_map(), opt_text(f.thread_id))
                &&& final(scan).user_event_thread_ids.as_map() == (if f.user_event {
                    with_key(old(scan).user_event_thread_ids.as_map(), opt_text(f.thread_id))
                } else {
                    old(scan).user_event_thread_ids.as_map()
                })
                &&& final(scan).thread_cwd_by_id.as_map() == match (f.thread_id, f.cwd) {
                    (Some(id), Some(cwd)) => old(scan).thread_cwd_by_id.as_map().insert(id@, cwd),
                    _ => old(scan).thread_cwd_by_id.as_map(),
                }
                &&& change_texts(final(scan).changes@) == match f.rewrite {
                    Some(Ok(t)) => change_texts(old(scan).changes@).push((path@, t@)),
                    _ => change_texts(old(scan).changes@),
                }
                &&& texts(final(scan).unreadable_files@) == match f.rewrite {
                    Some(Err(e)) => texts(old(scan).unreadable_files@).push(unreadable_line(path@, e@)),
                    _ => texts(old(scan).unreadable_files@),
                }
            },
        },
{
    scan.rollout_files_scanned = scan.rollout_files_scanned + 1;
    let ghost old_unreadable = texts(scan.unreadable_files@);
    let ghost old_changes = change_texts(scan.changes@);
    match outcome {
        Err(e) => {
            let mut line = path.to_string();
            line.append(": ");
            line.append(e.as_str());
            scan.unreadable_files.push(line);
            assert(texts(scan.unreadable_files@) =~= old_unreadable.push(unreadable_line(path@, e@)));
        },
        Ok(None) => {},
        Ok(Some(f)) => {
            increment_provider_count(&mut scan.provider_counts, scope, f.existing_provider.as_str());
            if f.encrypted_content {
                increment_provider_count(&mut scan.encrypted_content_counts, scope, f.existing_provider.as_str());
            }
            match &f.thread_id {
                Some(id) => {
                    scan.thread_ids.insert(id.clone(), ());
                    if f.user_event {
                        scan.user_event_thread_ids.insert(id.clone(), ());
                    }
                    match &f.cwd {
                        Some(cwd) => {
                            scan.thread_cwd_by_id.insert(id.clone(), cwd.clone());
                        },
                        None => {},
                    }
                },
                None => {},
            }
            match f.rewrite {
                Some(Ok(t)) => {
                    scan.changes.push(SessionFileChange { path: path.to_string(), updated_text: t });
                    assert(change_texts(scan.changes@) =~= old_changes.push((path@, t@)));
                },
                Some(Err(e)) => {
                    let mut line = path.to_string();
                    line.append(": ");
                    line.append(e.as_str());
                    scan.unreadable_files.push(line);
                    assert(texts(scan.unreadable_files@) =~= old_unreadable.push(unreadable_line(path@, e@)));
                },
                None => {},
            }
        },
    }
}

/// Threads per provider in the SQLite history index.
pub struct SqliteProviderCounts {
    pub threads: TextMap<u64>,
    pub total_threads: u64,
}

impl SqliteProviderCounts {
    pub fn new() -> (r: Self)
        ensures
            r.threads.wf(),
            r.threads.as_map() == Map::<Seq<char>, u64>::empty(),
            r.total_threads == 0,
    {
        SqliteProviderCounts { threads: TextMap::new(), total_threads: 0 }
    }
}

/// The name a provider row is listed under: `<empty>` for an empty one.
pub open spec fn provider_row_name(provider: Seq<char>) -> Seq<char> {
    if provider.len() == 0 {
        "<empty>"@
    } else {
        provider
    }
}

/// A row count as listed: negative counts read as zero.
pub open spec fn row_count(count: i64) -> u64 {
    if count < 0 {
        0
    } else {
        count as u64
    }
}

/// Adds one `GROUP BY` row (provider, thread count) of the history index.
pub fn add_sqlite_provider_row(counts: &mut SqliteProviderCounts, provider: String, count: i64)
    requires
        old(counts).threads.wf(),
        old(counts).total_threads + row_count(count) <= u64::MAX,
    ensures
        final(counts).threads.wf(),
        final(counts).total_threads == old(counts).total_threads + row_count(count),
        final(counts).threads.as_map() == old(counts).threads.as_map().insert(
            provider_row_name(provider@),
            row_count(count),
        ),
{
    let c: u64 = if count < 0 {
        0
    } else {
        count as u64
    };
    let name = if provider.unicode_len() == 0 {
        "<empty>".to_string()
    } else {
        provider
    };
    counts.total_threads = counts.total_threads + c;
    counts.threads.insert(name, c);
}

/// What a listing of backup ids says: whether there is one, how many, and
/// the latest (the largest id, ids starting with their creation time).
#[derive(Debug)]
pub struct BackupSummary {
    pub available: bool,
    pub backup_count: usize,
    pub latest_backup_id: Option<String>,
}

/// Summarizes the ids of the backups present.
pub fn summarize_backups(ids: &Vec<String>) -> (r: BackupSummary)
    ensures
        r.available == (ids@.len() > 0),
        r.backup_count == ids@.len(),
        ids@.len() == 0 <==> r.latest_backup_id is None,
        r.latest_backup_id matches Some(m) ==> texts(ids@).contains(m@) && forall|k: int|
            0 <= k < ids@.len() ==> !seq_lt(m@, #[trigger] texts(ids@)[k]),
{
    BackupSummary {
        available: ids.len() > 0,
        backup_count: ids.len(),
        latest_backup_id: max_string(ids),
    }
}

/// Message when there is no backup to restore.
pub open spec fn no_backup_message() -> Seq<char> {
    "没有可恢复的 provider 同步备份"@
}

/// The backup a restore uses: the requested one, else the latest present
/// (the largest id); with neither, the restore is refused.
pub fn restore_backup_id(requested: Option<&str>, ids: &Vec<String>) -> (r: Result<String, String>)
    ensures
        match requested {
            Some(id) => r matches Ok(x) && x@ == id@,
            None => match r {
                Ok(x) => texts(ids@).contains(x@) && forall|k: int|
                    0 <= k < ids@.len() ==> !seq_lt(x@, #[trigger] texts(ids@)[k]),
                Err(e) => ids@.len() == 0 && e@ == no_backup_message(),
            },
        },
{
    match requested {
        Some(id) => Ok(id.to_string()),
        None => match max_string(ids) {
            Some(latest) => Ok(latest),
            None => Err("没有可恢复的 provider 同步备份".to_string()),
        },
    }
}

/// Which backups pruning removes, keeping the `keep` latest: the ids from
/// the latest down, past the first `keep`; and how many are kept.
pub fn prune_plan(ids: Vec<String>, keep: usize) -> (r: (Vec<String>, usize))
    ensures
        r.1 == (if ids@.len() < keep {
            ids@.len() as int
        } else {
            keep as int
        }),
        exists|sorted: Seq<Seq<char>>|
            descending(sorted) && sorted.to_multiset() == texts(ids@).to_multiset() && texts(r.0@)
                == (if keep < sorted.len() {
                sorted.skip(keep as int)
            } else {
                Seq::<Seq<char>>::empty()
            }),
{
    let n = ids.len();
    let sorted = sort_descending(ids);
    let ghost sorted_texts = texts(sorted@);
    let mut removed: Vec<String> = Vec::new();
    let mut i = keep;
    while i < sorted.len()
        invariant
            keep <= i,
            i <= sorted@.len() || sorted@.len() <= keep,
            sorted_texts == texts(sorted@),
            keep < sorted@.len() ==> texts(removed@) == sorted_texts.subrange(keep as int, i as int),
            keep >= sorted@.len() ==> removed@.len() == 0,
        decreases sorted@.len() - i,
    {
        let ghost before = texts(removed@);
        removed.push(sorted[i].clone());
        assert(texts(removed@) =~= before.push(sorted_texts[i as int]));
        assert(sorted_texts.subrange(keep as int, i + 1) =~= sorted_texts.subrange(keep as int, i as int).push(sorted_texts[i as int]));
        i = i + 1;
    }
    proof {
        if keep < sorted@.len() {
            assert(sorted_texts.subrange(keep as int, sorted_texts.len() as int) =~= sorted_texts.skip(keep as int));
        } else {
            assert(texts(removed@) =~= Seq::<Seq<char>>::empty());
        }
    }
    let kept = if n < keep {
        n
    } else {
        keep
    };
    (removed, kept)
}

/// The backup entries to put back after a failed sync: those whose source
/// file was already rewritten (paths compared by their text).
pub fn rollouts_to_restore(sources: &Vec<String>, written: &Vec<String>) -> (r: Vec<usize>)
    ensures
        forall|k: int| 0 <= k < r@.len() ==> #[trigger] r@[k] < sources@.len(),
        forall|k: int, l: int| 0 <= k < l < r@.len() ==> r@[k] < r@[l],
        forall|i: int|
            0 <= i < sources@.len() ==> (texts(written@).contains(#[trigger] texts(sources@)[i]) <==> r@.contains(
                i as usize,
            )),
{
    let mut picked: Vec<usize> = Vec::new();
    let mut i: usize = 0;
    while i < sources.len()
        invariant
            i <= sources@.len(),
            forall|k: int| 0 <= k < picked@.len() ==> #[trigger] picked@[k] < i,
            forall|k: int, l: int| 0 <= k < l < picked@.len() ==> picked@[k] < picked@[l],
            forall|j: int|
                0 <= j < i ==> (texts(written@).contains(#[trigger] texts(sources@)[j]) <==> picked@.contains(
                    j as usize,
                )),
        decreases sources@.len() - i,
    {
        let ghost before = picked@;
        if contains_text(written, sources[i].as_str()) {
            picked.push(i);
            assert forall|j: int| 0 <= j < i + 1 implies (texts(written@).contains(#[trigger] texts(sources@)[j]) <==> picked@.contains(
                j as usize,
            )) by {
                if j < i {
                    if picked@.contains(j as usize) {
                        let k = choose|k: int| 0 <= k < picked@.len() && picked@[k] == j as usize;
                        assert(k < before.len());
                        assert(before.contains(j as usize));
                    }
                    if before.contains(j as usize) {
                        let k = choose|k: int| 0 <= k < before.len() && before[k] == j as usize;
                        assert(picked@[k] == j as usize);
                    }
                } else {
                    assert(picked@[before.len() as int] == i);
                }
            }
        } else {
            assert forall|j: int| 0 <= j < i + 1 implies (texts(written@).contains(#[trigger] texts(sources@)[j]) <==> picked@.contains(
                j as usize,
            )) by {
                if j == i {
                    if picked@.contains(j as usize) {
                        let k = choose|k: int| 0 <= k < picked@.len() && picked@[k] == j as usize;
                    }
                }
            }
        }
        i = i + 1;
    }
    picked
}

/// What a sync must do besides rewriting rollouts: whether it backs up
/// first (there are rollout changes or the index changes), and whether it
/// updates the SQLite index (present, with threads to move).
pub fn sync_plan(change_count: usize, sqlite_present: bool, sqlite_threads_changed: u64) -> (r: (bool, bool))
    ensures
        r.1 == (sqlite_present && sqlite_threads_changed > 0),
        r.0 == (change_count > 0 || r.1),
{
    let update_sqlite = sqlite_present && sqlite_threads_changed > 0;
    (change_count > 0 || update_sqlite, update_sqlite)
}

/// A provider id that normalises to `p` normalises to `p` again.
pub proof fn law_provider_id_is_stable(provider: Seq<char>)
    ensures
        provider_id(provider) matches Ok(p) ==> provider_id(p) == Ok::<Seq<char>, Seq<char>>(p),
{
    crate::text::lemma_trim_idempotent(provider);
}

/// Pruning splits the backups in two: the ones it removes and the ones it
/// keeps make up all of them, and none it removes is later than one it keeps.
pub proof fn law_prune_partitions_backups(
    ids: Seq<Seq<char>>,
    keep: usize,
    removed: Seq<Seq<char>>,
    kept: int,
    sorted: Seq<Seq<char>>,
)
    requires
        kept == (if ids.len() < keep { ids.len() as int } else { keep as int }),
        descending(sorted),
        sorted.to_multiset() == ids.to_multiset(),
        removed == (if keep < sorted.len() { sorted.skip(keep as int) } else { Seq::<Seq<char>>::empty() }),
    ensures
        removed.len() + kept == ids.len(),
        forall|i: int, j: int|
            0 <= i < kept && 0 <= j < removed.len() ==> !seq_lt(#[trigger] sorted[i], #[trigger] removed[j]),
{
    sorted.to_multiset_ensures();
    ids.to_multiset_ensures();
    assert forall|i: int, j: int|
        0 <= i < kept && 0 <= j < removed.len() implies !seq_lt(#[trigger] sorted[i], #[trigger] removed[j]) by {
        assert(removed[j] == sorted[keep + j]);
    }
}

/// What `provider status` reports of a Codex home.
pub struct ProviderStatus {
    pub codex_home: String,
    pub current_provider: CurrentProvider,
    pub configured_providers: Vec<String>,
    pub rollout_counts: ProviderScopeCounts,
    pub encrypted_content_counts: ProviderScopeCounts,
    pub unreadable_rollout_files: Vec<String>,
    pub sqlite_present: bool,
    pub sqlite_path: Option<String>,
    pub sqlite_counts: Option<SqliteProviderCounts>,
    pub backup_summary: BackupSummary,
    pub backup_dir: String,
}

/// What a provider sync did.
pub struct ProviderSyncResult {
    pub codex_home: String,
    pub provider: String,
    pub rollout_files_scanned: usize,
    pub rollout_files_changed: usize,
    pub sqlite_present: bool,
    pub sqlite_threads_changed: u64,
    pub backup_id: Option<String>,
    pub backup_path: Option<String>,
    pub encrypted_content_counts: ProviderScopeCounts,
    pub unreadable_rollout_files: Vec<String>,
}

} // verus!
