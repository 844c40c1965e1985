//! Local and remote skills: SKILL.md front matter, skill names and paths,
//! skill ids, Git sources, where a skill lives in a repository, and the text
//! shown for a skill.
use vstd::prelude::*;

use crate::provider_sync::{first_index_of, opt_text, result_text};
use crate::order::{insert_ascending_unique, seq_lt, strictly_ascending, texts};
use crate::text::{
    ascii_lower, ascii_lowercase, char_utf8_width, chars_of, contains_seq, has_prefix, has_suffix, is_ws, squeeze_whitespace,
    squeeze_ws, str_eq, string_from, trim, trim_chars, utf8_len, utf8_len_exceeds,
};

verus! {

/// The lines of `s` as `str::lines` yields them: split after each `\n`,
/// with the `\n` and one `\r` before it removed, and no empty last line.
pub open spec fn lines_of(s: Seq<char>) -> Seq<Seq<char>>
    decreases s.len(),
{
    if s.len() == 0 {
        seq![]
    } else {
        match first_index_of(s, '\n') {
            Some(i) => {
                proof {
                    lemma_first_index_of_bounds(s, '\n');
                }
                let line = s.subrange(0, i);
                let line = if line.len() > 0 && line.last() == '\r' {
                    line.drop_last()
                } else {
                    line
                };
                seq![line] + lines_of(s.subrange(i + 1, s.len() as int))
            },
            None => seq![s],
        }
    }
}

pub proof fn lemma_first_index_of_bounds(s: Seq<char>, c: char)
    ensures
        first_index_of(s, c) matches Some(i) ==> 0 <= i < s.len() && s[i] == c && forall|j: int|
            0 <= j < i ==> s[j] != c,
        first_index_of(s, c) is None ==> forall|j: int| 0 <= j < s.len() ==> s[j] != c,
    decreases s.len(),
{
    if s.len() > 0 {
        lemma_first_index_of_bounds(s.drop_first(), c);
        if first_index_of(s.drop_first(), c) is None && s[0] != c {
            assert forall|j: int| 0 <= j < s.len() implies s[j] != c by {
                if j > 0 {
                    assert(s[j] == s.drop_first()[j - 1]);
                }
            }
        }
        if let Some(i) = first_index_of(s.drop_first(), c) {
            if s[0] != c {
                assert forall|j: int| 0 <= j < i + 1 implies s[j] != c by {
                    if j > 0 {
                        assert(s[j] == s.drop_first()[j - 1]);
                    }
                }
            }
        }
    }
}

proof fn lemma_first_index_of_skip(s: Seq<char>, c: char, k: int)
    requires
        0 <= k <= s.len(),
        forall|j: int| 0 <= j < k ==> s[j] != c,
    ensures
        first_index_of(s, c) == match first_index_of(s.skip(k), c) {
            Some(i) => Some(i + k),
            None => None,
        },
    decreases k,
{
    if k > 0 {
        lemma_first_index_of_skip(s.drop_first(), c, k - 1);
        assert(s.drop_first().skip(k - 1) =~= s.skip(k));
    } else {
        assert(s.skip(0) =~= s);
    }
}

/// Splits `s` into its lines (`str::lines`).
pub fn split_lines(s: &[char]) -> (r: Vec<Vec<char>>)
    ensures
        r@.len() == lines_of(s@).len(),
        forall|i: int| 0 <= i < r@.len() ==> #[trigger] r@[i]@ == lines_of(s@)[i],
{
    let mut out: Vec<Vec<char>> = Vec::new();
    let mut start: usize = 0;
    assert(s@.skip(0) =~= s@);
    while start < s.len()
        invariant
            start <= s@.len(),
            forall|i: int| 0 <= i < out@.len() ==> #[trigger] out@[i]@ == lines_of(s@)[i],
            lines_of(s@) == out@.map_values(|v: Vec<char>| v@) + lines_of(s@.skip(start as int)),
        decreases s@.len() - start,
    {
        let ghost rest = s@.skip(start as int);
        let mut end = start;
        while end < s.len() && s[end] != '\n'
            invariant
                start <= end <= s@.len(),
                forall|j: int| start <= j < end ==> s@[j] != '\n',
            decreases s@.len() - end,
        {
            end = end + 1;
        }
        proof {
            lemma_first_index_of_skip(rest, '\n', end - start);
            assert(rest.skip(end - start) =~= s@.skip(end as int));
            if end < s.len() {
                assert(s@.skip(end as int)[0] == '\n');
            }
        }
        let ghost before = out@.map_values(|v: Vec<char>| v@);
        if end < s.len() {
            let line_end = if end > start && s[end - 1] == '\r' {
                end - 1
            } else {
                end
            };
            let line = crate::text::slice_to_vec(s, start, line_end);
            assert(rest.subrange(0, end - start) =~= s@.subrange(start as int, end as int));
            if line_end < end {
                assert(s@.subrange(start as int, end as int).drop_last() =~= line@);
            } else {
                assert(s@.subrange(start as int, end as int) =~= line@);
            }
            assert(rest.subrange(end - start + 1, rest.len() as int) =~= s@.skip(end + 1));
            out.push(line);
            assert(out@.map_values(|v: Vec<char>| v@) =~= before.push(line@));
            assert(before + lines_of(rest) =~= before.push(line@) + lines_of(s@.skip(end + 1)));
            start = end + 1;
        } else {
            let line = crate::text::slice_to_vec(s, start, end);
            assert(line@ =~= rest);
            out.push(line);
            assert(out@.map_values(|v: Vec<char>| v@) =~= before.push(line@));
            assert(s@.skip(end as int) =~= Seq::<char>::empty());
            assert(before + lines_of(rest) =~= before.push(line@) + lines_of(s@.skip(end as int)));
            start = end;
        }
    }
    assert(lines_of(s@.skip(start as int)) =~= Seq::<Seq<char>>::empty());
    assert(lines_of(s@) =~= out@.map_values(|v: Vec<char>| v@));
    out
}

/// `s` without the characters `c` at either end (`str::trim_matches`).
pub open spec fn trim_char(s: Seq<char>, c: char) -> Seq<char>
    decreases s.len(),
{
    if s.len() > 0 && s[0] == c {
        trim_char(s.drop_first(), c)
    } else if s.len() > 0 && s.last() == c {
        trim_char(s.drop_last(), c)
    } else {
        s
    }
}

fn trim_char_exec(s: &[char], c: char) -> (r: Vec<char>)
    ensures
        r@ == trim_char(s@, c),
{
    let mut a: usize = 0;
    let mut b: usize = s.len();
    assert(s@.subrange(0, s@.len() as int) =~= s@);
    while a < b && s[a] == c
        invariant
            a <= b <= s@.len(),
            b == s@.len(),
            trim_char(s@, c) == trim_char(s@.subrange(a as int, b as int), c),
        decreases b - a,
    {
        assert(s@.subrange(a as int, b as int).drop_first() =~= s@.subrange(a + 1, b as int));
        a = a + 1;
    }
    while a < b && s[b - 1] == c
        invariant
            a <= b <= s@.len(),
            trim_char(s@, c) == trim_char(s@.subrange(a as int, b as int), c),
            a < b ==> s@[a as int] != c,
        decreases b - a,
    {
        assert(s@.subrange(a as int, b as int).drop_last() =~= s@.subrange(a as int, b - 1));
        b = b - 1;
    }
    crate::text::slice_to_vec(s, a, b)
}

/// A YAML scalar as front matter writes it: trimmed, without the double and
/// then single quotes around it, trimmed again.
pub open spec fn unquoted(value: Seq<char>) -> Seq<char> {
    trim(trim_char(trim_char(trim(value), '"'), '\''))
}

/// Takes the quotes off a front matter value.
pub fn unquote_yaml_scalar(value: &str) -> (r: String)
    ensures
        r@ == unquoted(value@),
{
    let t = trim_chars(value);
    let a = trim_char_exec(t.as_slice(), '"');
    let b = trim_char_exec(a.as_slice(), '\'');
    let s = string_from(b.as_slice());
    let c = trim_chars(s.as_str());
    string_from(c.as_slice())
}

pub open spec fn skill_name_char(c: char) -> bool {
    ('a' <= c && c <= 'z') || ('A' <= c && c <= 'Z') || ('0' <= c && c <= '9') || c == '-' || c
        == '_' || c == '.'
}

/// A skill name is 1 to 128 bytes of ASCII letters, digits, `-`, `_` and
/// `.`, other than `.` and `..`.
pub open spec fn safe_skill_name(name: Seq<char>) -> bool {
    &&& name.len() > 0
    &&& utf8_len(name) <= 128
    &&& name != "."@
    &&& name != ".."@
    &&& forall|i: int| 0 <= i < name.len() ==> skill_name_char(#[trigger] name[i])
}

/// Whether `name` may name a skill directory.
pub fn is_safe_skill_name(name: &str) -> (r: bool)
    ensures
        r == safe_skill_name(name@),
{
    let v = chars_of(name);
    if v.len() == 0 || utf8_len_exceeds(v.as_slice(), 128) || str_eq(name, ".") || str_eq(name, "..") {
        return false;
    }
    let mut i: usize = 0;
    while i < v.len()
        invariant
            i <= v@.len(),
            v@ == name@,
            forall|j: int| 0 <= j < i ==> skill_name_char(#[trigger] v@[j]),
        decreases v@.len() - i,
    {
        let c = v[i];
        if !(('a' <= c && c <= 'z') || ('A' <= c && c <= 'Z') || ('0' <= c && c <= '9') || c == '-'
            || c == '_' || c == '.') {
            assert(!skill_name_char(v@[i as int]));
            return false;
        }
        i = i + 1;
    }
    true
}

/// Name and description gathered from the front matter lines `ls[i..]`,
/// up to the closing `---`: the last `name:` wins, as does the last
/// `description:` with a usable value (not empty, `>` or `|`).
pub open spec fn front_matter_fields(
    ls: Seq<Seq<char>>,
    i: int,
    name: Option<Seq<char>>,
    description: Option<Seq<char>>,
) -> (Option<Seq<char>>, Option<Seq<char>>)
    decreases ls.len() - i,
{
    if i >= ls.len() || i < 0 {
        (name, description)
    } else {
        let t = trim(ls[i]);
        if t == "---"@ {
            (name, description)
        } else if crate::text::has_prefix(t, "name:"@) {
            front_matter_fields(ls, i + 1, Some(unquoted(t.skip(5))), description)
        } else if crate::text::has_prefix(t, "description:"@) {
            let v = unquoted(t.skip(12));
            if v.len() > 0 && v != ">"@ && v != "|"@ {
                front_matter_fields(ls, i + 1, name, Some(v))
            } else {
                front_matter_fields(ls, i + 1, name, description)
            }
        } else {
            front_matter_fields(ls, i + 1, name, description)
        }
    }
}

/// The (name, description) a SKILL.md declares: it must open with a `---`
/// line and name a safe skill; the description defaults to a generic one.
pub open spec fn front_matter(raw: Seq<char>) -> Option<(Seq<char>, Seq<char>)> {
    let ls = lines_of(raw);
    if ls.len() == 0 || trim(ls[0]) != "---"@ {
        None
    } else {
        let (name, description) = front_matter_fields(ls, 1, None, None);
        match name {
            None => None,
            Some(n) => {
                let n = trim(n);
                if !safe_skill_name(n) {
                    None
                } else {
                    Some(
                        (
                            n,
                            match description {
                                Some(d) => d,
                                None => "内置 Skill："@ + n,
                            },
                        ),
                    )
                }
            },
        }
    }
}

/// Reads the name and description from the text of a SKILL.md.
pub fn parse_frontmatter_content(raw: &str) -> (r: Option<(String, String)>)
    ensures
        match front_matter(raw@) {
            Some((n, d)) => r matches Some(p) && p.0@ == n && p.1@ == d,
            None => r is None,
        },
{
    let v = chars_of(raw);
    let ls = split_lines(v.as_slice());
    proof {
        reveal_strlit("---");
        reveal_strlit("name:");
        reveal_strlit("description:");
    }
    if ls.len() == 0 {
        return None;
    }
    let first = trim_chars(string_from(ls[0].as_slice()).as_str());
    if !crate::text::chars_eq(first.as_slice(), chars_of("---").as_slice()) {
        return None;
    }
    let ghost lsv = lines_of(raw@);
    let mut name: Option<String> = None;
    let mut description: Option<String> = None;
    let mut i: usize = 1;
    let mut closed = false;
    while i < ls.len() && !closed
        invariant
            1 <= i <= ls@.len(),
            ls@.len() == lsv.len(),
            forall|k: int| 0 <= k < ls@.len() ==> #[trigger] ls@[k]@ == lsv[k],
            front_matter_fields(lsv, 1, None, None) == front_matter_fields(lsv, i as int, opt_text(name), opt_text(description)),
            closed ==> front_matter_fields(lsv, i as int, opt_text(name), opt_text(description)) == (opt_text(name), opt_text(description)),
        decreases ls@.len() - i + (if closed { 0int } else { 1int }),
    {
        proof {
            reveal_strlit("---");
            reveal_strlit("name:");
            reveal_strlit("description:");
        }
        let t = trim_chars(string_from(ls[i].as_slice()).as_str());
        if crate::text::chars_eq(t.as_slice(), chars_of("---").as_slice()) {
            closed = true;
        } else if crate::text::starts_with_str(t.as_slice(), "name:") {
            let rest = crate::text::slice_to_vec(t.as_slice(), 5, t.len());
            assert(rest@ =~= t@.skip(5));
            name = Some(unquote_yaml_scalar(string_from(rest.as_slice()).as_str()));
        } else if crate::text::starts_with_str(t.as_slice(), "description:") {
            let rest = crate::text::slice_to_vec(t.as_slice(), 12, t.len());
            assert(rest@ =~= t@.skip(12));
            let value = unquote_yaml_scalar(string_from(rest.as_slice()).as_str());
            if value.unicode_len() > 0 && !str_eq(value.as_str(), ">") && !str_eq(value.as_str(), "|") {
                description = Some(value);
            }
        }
        if !closed {
            i = i + 1;
        }
    }
    let n = match name {
        Some(n) => n,
        None => {
            return None;
        },
    };
    let nt = trim_chars(n.as_str());
    let name_text = string_from(nt.as_slice());
    if !is_safe_skill_name(name_text.as_str()) {
        return None;
    }
    let d = match description {
        Some(d) => d,
        None => {
            let mut m = "内置 Skill：".to_string();
            m.append(name_text.as_str());
            m
        },
    };
    Some((name_text, d))
}

/// A path separator under the given platform's rules.
pub open spec fn is_separator(c: char, windows: bool) -> bool {
    c == '/' || (windows && c == '\\')
}

/// A `..` component starts at `i`.
pub open spec fn parent_component_at(s: Seq<char>, i: int, windows: bool) -> bool {
    &&& 0 <= i
    &&& i + 2 <= s.len()
    &&& (i == 0 || is_separator(s[i - 1], windows))
    &&& s[i] == '.'
    &&& s[i + 1] == '.'
    &&& (i + 2 == s.len() || is_separator(s[i + 2], windows))
}

/// A Windows drive prefix such as `C:`.
pub open spec fn has_drive_prefix(s: Seq<char>) -> bool {
    s.len() >= 2 && (('a' <= s[0] && s[0] <= 'z') || ('A' <= s[0] && s[0] <= 'Z')) && s[1] == ':'
}

/// A relative skill path is non-empty and made of plain components only:
/// no root, no drive prefix (on Windows) and no `..`. Windows also splits
/// at `\`.
pub open spec fn safe_relative_path(s: Seq<char>, windows: bool) -> bool {
    &&& s.len() > 0
    &&& !is_separator(s[0], windows)
    &&& !(windows && has_drive_prefix(s))
    &&& forall|i: int| !parent_component_at(s, i, windows)
}

fn is_separator_exec(c: char, windows: bool) -> (r: bool)
    ensures
        r == is_separator(c, windows),
{
    c == '/' || (windows && c == '\\')
}

/// Whether `value` is a safe relative skill path, under Windows' path rules
/// when `windows` is set and Unix ones otherwise.
pub fn is_safe_relative_skill_path(value: &str, windows: bool) -> (r: bool)
    ensures
        r == safe_relative_path(value@, windows),
{
    let v = chars_of(value);
    let n = v.len();
    if n == 0 || is_separator_exec(v[0], windows) {
        return false;
    }
    if windows && n >= 2 && (('a' <= v[0] && v[0] <= 'z') || ('A' <= v[0] && v[0] <= 'Z')) && v[1] == ':' {
        return false;
    }
    let mut i: usize = 0;
    while i < n
        invariant
            i <= n,
            n == v@.len(),
            v@ == value@,
            forall|j: int| 0 <= j < i ==> !parent_component_at(v@, j, windows),
        decreases n - i,
    {
        if n - i >= 2 && (i == 0 || is_separator_exec(v[i - 1], windows)) && v[i] == '.' && v[i + 1] == '.' && (i + 2 == n
            || is_separator_exec(v[i + 2], windows)) {
            assert(parent_component_at(v@, i as int, windows));
            return false;
        }
        i = i + 1;
    }
    assert forall|j: int| !parent_component_at(v@, j, windows) by {
        if j >= n as int {
        }
    }
    true
}

/// Message for a skill id that is not `enabled:<path>` or `disabled:<path>`.
pub open spec fn invalid_skill_path_message() -> Seq<char> {
    "Skill 路径无效。"@
}

/// A local skill id: `enabled:` or `disabled:` and a safe relative path.
pub open spec fn local_skill_path(value: Seq<char>, windows: bool) -> Result<(bool, Seq<char>), Seq<char>> {
    match first_index_of(value, ':') {
        None => Err(invalid_skill_path_message()),
        Some(i) => {
            let kind = value.subrange(0, i);
            let relative = value.subrange(i + 1, value.len() as int);
            if kind != "enabled"@ && kind != "disabled"@ {
                Err(invalid_skill_path_message())
            } else if !safe_relative_path(relative, windows) {
                Err(invalid_skill_path_message())
            } else {
                Ok((kind == "enabled"@, relative))
            }
        },
    }
}

/// Splits a local skill id into whether it is enabled and its relative path.
pub fn split_local_skill_path(value: &str, windows: bool) -> (r: Result<(bool, String), String>)
    ensures
        match (r, local_skill_path(value@, windows)) {
            (Ok(a), Ok(b)) => a.0 == b.0 && a.1@ == b.1,
            (Err(a), Err(b)) => a@ == b,
            _ => false,
        },
{
    let v = chars_of(value);
    let mut i: usize = 0;
    assert(v@.skip(0) =~= v@);
    while i < v.len() && v[i] != ':'
        invariant
            i <= v@.len(),
            v@ == value@,
            forall|j: int| 0 <= j < i ==> v@[j] != ':',
        decreases v@.len() - i,
    {
        i = i + 1;
    }
    proof {
        lemma_first_index_of_skip(v@, ':', i as int);
        if i < v@.len() {
            assert(v@.skip(i as int)[0] == ':');
        } else {
            assert(v@.skip(i as int) =~= Seq::<char>::empty());
        }
    }
    if i == v.len() {
        return Err("Skill 路径无效。".to_string());
    }
    let kind = crate::text::slice_to_vec(v.as_slice(), 0, i);
    let relative = crate::text::slice_to_vec(v.as_slice(), i + 1, v.len());
    let enabled = crate::text::chars_eq(kind.as_slice(), chars_of("enabled").as_slice());
    let disabled = crate::text::chars_eq(kind.as_slice(), chars_of("disabled").as_slice());
    if !enabled && !disabled {
        return Err("Skill 路径无效。".to_string());
    }
    let relative_text = string_from(relative.as_slice());
    if !is_safe_relative_skill_path(relative_text.as_str(), windows) {
        return Err("Skill 路径无效。".to_string());
    }
    Ok((enabled, relative_text))
}

/// The first `k` characters of `s` take `n` UTF-8 bytes.
pub open spec fn byte_boundary(s: Seq<char>, k: int, n: int) -> bool {
    0 <= k <= s.len() && utf8_len(s.take(k)) == n
}

/// An HTTP error body as shown: whitespace collapsed, and cut to its first
/// 320 bytes with an ellipsis when longer.
pub open spec fn http_error_text(body: Seq<char>) -> Seq<char> {
    let compact = squeeze_ws(body);
    if utf8_len(compact) > 320 {
        compact.take(choose|k: int| byte_boundary(compact, k, 320)) + "…"@
    } else {
        compact
    }
}

/// Shortens an HTTP error body for display. Cutting a longer body at byte
/// 320 must not split a character.
pub fn trim_http_error(body: &str) -> (r: String)
    requires
        utf8_len(squeeze_ws(body@)) <= 320 || exists|k: int| byte_boundary(squeeze_ws(body@), k, 320),
    ensures
        r@ == http_error_text(body@),
        utf8_len(squeeze_ws(body@)) > 320 ==> exists|k: int| byte_boundary(squeeze_ws(body@), k, 320) && r@ == squeeze_ws(body@).take(k) + "…"@,
{
    let v = chars_of(body);
    let compact = squeeze_whitespace(v.as_slice());
    if !utf8_len_exceeds(compact.as_slice(), 320) {
        return string_from(compact.as_slice());
    }
    let ghost c = compact@;
    let ghost target = choose|k: int| byte_boundary(c, k, 320);
    let mut k: usize = 0;
    let mut total: usize = 0;
    proof {
        assert(c.take(0) =~= Seq::<char>::empty());
        lemma_utf8_take_monotone(c, k as int, target);
    }
    while total < 320
        invariant
            k <= c.len(),
            c == compact@,
            total == utf8_len(c.take(k as int)),
            byte_boundary(c, target, 320),
            k <= target,
            total <= 320,
        decreases 320 - total,
    {
        proof {
            if k == target {
                assert(false);
            }
            assert(c.take(k + 1).drop_last() =~= c.take(k as int));
        }
        let ch = compact[k];
        let w: usize = if (ch as u32) < 0x80 {
            1
        } else if (ch as u32) < 0x800 {
            2
        } else if (ch as u32) < 0x10000 {
            3
        } else {
            4
        };
        total = total + w;
        k = k + 1;
        proof {
            lemma_utf8_take_monotone(c, k as int, target);
        }
    }
    proof {
        lemma_utf8_take_strict(c, k as int, target);
    }
    let mut out = crate::text::slice_to_vec(compact.as_slice(), 0, k);
    assert(out@ =~= c.take(k as int));
    let s = string_from(out.as_slice());
    let mut r = s;
    r.append("…");
    r
}

proof fn lemma_utf8_take_monotone(s: Seq<char>, a: int, b: int)
    requires
        0 <= a <= b <= s.len(),
    ensures
        utf8_len(s.take(a)) <= utf8_len(s.take(b)),
    decreases b - a,
{
    if a < b {
        lemma_utf8_take_monotone(s, a, b - 1);
        assert(s.take(b).drop_last() =~= s.take(b - 1));
    }
}

/// Each character takes at least one byte, so two prefixes with the same
/// byte length are the same prefix.
proof fn lemma_utf8_take_strict(s: Seq<char>, a: int, b: int)
    requires
        0 <= a <= s.len(),
        0 <= b <= s.len(),
        utf8_len(s.take(a)) == utf8_len(s.take(b)),
    ensures
        a == b,
    decreases b - a,
{
    if a < b {
        lemma_utf8_take_monotone(s, a, b - 1);
        assert(s.take(b).drop_last() =~= s.take(b - 1));
    } else if b < a {
        lemma_utf8_take_monotone(s, b, a - 1);
        assert(s.take(a).drop_last() =~= s.take(a - 1));
    }
}

/// The first line at or after `i` that is `---` once trimmed.
pub open spec fn fence_from(ls: Seq<Seq<char>>, i: int) -> Option<int>
    decreases ls.len() - i,
{
    if i < 0 || i >= ls.len() {
        None
    } else if trim(ls[i]) == "---"@ {
        Some(i)
    } else {
        fence_from(ls, i + 1)
    }
}

/// Lines joined with `\n`.
pub open spec fn join_lines(ls: Seq<Seq<char>>) -> Seq<char>
    decreases ls.len(),
{
    if ls.len() == 0 {
        seq![]
    } else if ls.len() == 1 {
        ls[0]
    } else {
        join_lines(ls.drop_last()) + seq!['\n'] + ls.last()
    }
}

/// Note appended to a skill text cut at 60000 characters.
pub open spec fn truncation_note() -> Seq<char> {
    "\n\n…内容过长，已截断显示。"@
}

/// The text shown for a skill: its SKILL.md after a closed front matter
/// block (all of it when there is none), trimmed, and cut at 60000
/// characters with a note.
pub open spec fn markdown_body(raw: Seq<char>) -> Seq<char> {
    let ls = lines_of(raw);
    let fence = if ls.len() > 0 && trim(ls[0]) == "---"@ {
        fence_from(ls, 1)
    } else {
        None
    };
    let body = match fence {
        Some(k) => join_lines(ls.skip(k + 1)),
        None => raw,
    };
    let t = trim(body);
    if t.len() <= 60000 {
        t
    } else {
        t.take(60000) + truncation_note()
    }
}

/// The displayed body of a SKILL.md.
pub fn skill_markdown_body(raw: &str) -> (r: String)
    ensures
        r@ == markdown_body(raw@),
{
    let v = chars_of(raw);
    let ls = split_lines(v.as_slice());
    let ghost lsv = lines_of(raw@);
    proof {
        reveal_strlit("---");
    }
    let opens = ls.len() > 0 && crate::text::chars_eq(
        trim_chars(string_from(ls[0].as_slice()).as_str()).as_slice(),
        chars_of("---").as_slice(),
    );
    let mut fence: Option<usize> = None;
    if opens {
        let mut i: usize = 1;
        while i < ls.len() && fence.is_none()
            invariant
                1 <= i <= ls@.len(),
                ls@.len() == lsv.len(),
                forall|k: int| 0 <= k < ls@.len() ==> #[trigger] ls@[k]@ == lsv[k],
                fence is None ==> fence_from(lsv, 1) == fence_from(lsv, i as int),
                fence matches Some(k) ==> fence_from(lsv, 1) == Some(k as int) && k < ls@.len(),
            decreases ls@.len() - i + (if fence is None { 1int } else { 0int }),
        {
            proof {
                reveal_strlit("---");
            }
            if crate::text::chars_eq(
                trim_chars(string_from(ls[i].as_slice()).as_str()).as_slice(),
                chars_of("---").as_slice(),
            ) {
                fence = Some(i);
            } else {
                i = i + 1;
            }
        }
    }
    let body: Vec<char> = match fence {
        Some(k) => {
            let mut out: Vec<char> = Vec::new();
            let mut j = k + 1;
            let ghost rest = lsv.skip(k + 1);
            while j < ls.len()
                invariant
                    k + 1 <= j <= ls@.len(),
                    ls@.len() == lsv.len(),
                    forall|q: int| 0 <= q < ls@.len() ==> #[trigger] ls@[q]@ == lsv[q],
                    rest == lsv.skip(k + 1),
                    out@ == join_lines(rest.take(j - (k + 1))),
                decreases ls@.len() - j,
            {
                let ghost before = out@;
                if j > k + 1 {
                    out.push('\n');
                }
                let mut q: usize = 0;
                let ghost mid = out@;
                while q < ls[j].len()
                    invariant
                        j < ls@.len(),
                        q <= ls@[j as int]@.len(),
                        out@ == mid + ls@[j as int]@.take(q as int),
                    decreases ls@[j as int]@.len() - q,
                {
                    out.push(ls[j][q]);
                    q = q + 1;
                    assert(mid + ls@[j as int]@.take(q as int) =~= out@);
                }
                assert(ls@[j as int]@.take(q as int) =~= ls@[j as int]@);
                assert(rest.take(j + 1 - (k + 1)).drop_last() =~= rest.take(j - (k + 1)));
                assert(rest.take(j + 1 - (k + 1)).last() == lsv[j as int]);
                if j == k + 1 {
                    assert(out@ =~= join_lines(rest.take(j + 1 - (k + 1))));
                } else {
                    assert(out@ =~= join_lines(rest.take(j + 1 - (k + 1))));
                }
                j = j + 1;
            }
            assert(rest.take(j - (k + 1)) =~= rest);
            out
        },
        None => v,
    };
    let t = trim_chars(string_from(body.as_slice()).as_str());
    if t.len() <= 60000 {
        return string_from(t.as_slice());
    }
    let head = crate::text::slice_to_vec(t.as_slice(), 0, 60000);
    assert(head@ =~= t@.take(60000));
    let mut out = string_from(head.as_slice());
    out.append("\n\n…内容过长，已截断显示。");
    out
}

/// Scheme, host and path segments of `text` parsed as a URL by
/// `reqwest::Url::parse`; `None` when it does not parse. The segments are
/// `None` for URLs that cannot be a base.
pub uninterp spec fn url_components(text: Seq<char>) -> Option<(Seq<char>, Option<Seq<char>>, Option<Seq<Seq<char>>>)>;

/// What the logic reads of a parsed URL.
#[derive(Debug)]
pub struct UrlParts {
    pub scheme: String,
    pub host: Option<String>,
    pub segments: Option<Vec<String>>,
}

pub open spec fn opt_texts(v: Option<Vec<String>>) -> Option<Seq<Seq<char>>> {
    match v {
        Some(x) => Some(texts(x@)),
        None => None,
    }
}

/// Parses `text` with `reqwest::Url::parse` and reads `scheme`, `host_str`
/// and `path_segments`.
#[verifier::external_body]
fn parse_url(text: &str) -> (r: Option<UrlParts>)
    ensures
        match r {
            Some(p) => url_components(text@) == Some((p.scheme@, opt_text(p.host), opt_texts(p.segments))),
            None => url_components(text@) is None,
        },
{
    let url = reqwest::Url::parse(text).ok()?;
    Some(UrlParts {
        scheme: url.scheme().to_string(),
        host: url.host_str().map(|host| host.to_string()),
        segments: url.path_segments().map(|parts| parts.map(|part| part.to_string()).collect()),
    })
}

/// The non-empty segments, in order.
pub open spec fn nonempty_segments(segs: Seq<Seq<char>>) -> Seq<Seq<char>>
    decreases segs.len(),
{
    if segs.len() == 0 {
        seq![]
    } else if segs.last().len() == 0 {
        nonempty_segments(segs.drop_last())
    } else {
        nonempty_segments(segs.drop_last()).push(segs.last())
    }
}

/// `s` with every trailing `.git` removed (`trim_end_matches(".git")`).
pub open spec fn without_git_suffix(s: Seq<char>) -> Seq<char>
    decreases s.len(),
{
    if s.len() >= 4 && has_suffix(s, ".git"@) {
        without_git_suffix(s.take(s.len() - 4))
    } else {
        s
    }
}

/// Segments joined with `/`.
pub open spec fn join_slash(segs: Seq<Seq<char>>) -> Seq<char>
    decreases segs.len(),
{
    if segs.len() == 0 {
        seq![]
    } else if segs.len() == 1 {
        segs[0]
    } else {
        join_slash(segs.drop_last()) + seq!['/'] + segs.last()
    }
}

/// A repository to install skills from: what to clone and, for a GitHub
/// tree URL, the directory inside it.
#[derive(Debug)]
pub struct GitSource {
    pub clone_url: String,
    pub subdirectory: Option<String>,
}

pub open spec fn scheme_supported(scheme: Seq<char>) -> bool {
    scheme == "https"@ || scheme == "http"@ || scheme == "ssh"@ || scheme == "git"@
}

/// The source a URL names: an http(s), ssh or git URL with a host; a GitHub
/// URL naming an owner and repository clones that repository over HTTPS,
/// and a `tree/<ref>/<path>` URL also selects a safe sub-directory.
pub open spec fn git_source(raw: Seq<char>, windows: bool) -> Result<(Seq<char>, Option<Seq<char>>), Seq<char>> {
    git_source_of_parts(trim(raw), url_components(trim(raw)), windows)
}

/// The source that the trimmed URL text `t` names, given what the URL
/// parser made of it (see `git_source`).
pub open spec fn git_source_of_parts(
    t: Seq<char>,
    parts: Option<(Seq<char>, Option<Seq<char>>, Option<Seq<Seq<char>>>)>,
    windows: bool,
) -> Result<(Seq<char>, Option<Seq<char>>), Seq<char>> {
    match parts {
        None => Err("Git URL 格式无效。"@),
        Some((scheme, host, segments)) => if host is None || !scheme_supported(scheme) {
            Err("仅支持 http(s)、ssh 或 git 格式的仓库地址。"@)
        } else {
            let segs = match segments {
                Some(x) => nonempty_segments(x),
                None => seq![],
            };
            if host == Some("github.com"@) && segs.len() >= 2 {
                let clone_url = "https://github.com/"@ + segs[0] + "/"@ + without_git_suffix(segs[1]) + ".git"@;
                let is_tree = segs.len() >= 3 && segs[2] == "tree"@;
                let sub = if is_tree && segs.len() >= 5 && safe_relative_path(join_slash(segs.skip(4)), windows) {
                    Some(join_slash(segs.skip(4)))
                } else {
                    None
                };
                if is_tree && sub is None {
                    Err("GitHub Skill 子目录地址无效。"@)
                } else {
                    Ok((clone_url, sub))
                }
            } else {
                Ok((t, None))
            }
        },
    }
}

/// The non-empty segments of `segs`.
fn nonempty_segments_exec(segs: &Vec<String>) -> (r: Vec<String>)
    ensures
        texts(r@) == nonempty_segments(texts(segs@)),
{
    let mut out: Vec<String> = Vec::new();
    let mut i: usize = 0;
    while i < segs.len()
        invariant
            i <= segs@.len(),
            texts(out@) == nonempty_segments(texts(segs@).take(i as int)),
        decreases segs@.len() - i,
    {
        assert(texts(segs@).take(i + 1).drop_last() =~= texts(segs@).take(i as int));
        if segs[i].unicode_len() > 0 {
            let ghost before = texts(out@);
            out.push(segs[i].clone());
            assert(texts(out@) =~= before.push(segs@[i as int]@));
        }
        i = i + 1;
    }
    assert(texts(segs@).take(i as int) =~= texts(segs@));
    out
}

/// `s` without its trailing `.git` suffixes.
fn without_git_suffix_exec(s: &str) -> (r: String)
    ensures
        r@ == without_git_suffix(s@),
{
    let v = chars_of(s);
    let mut n = v.len();
    assert(v@.take(n as int) =~= v@);
    proof {
        reveal_strlit(".git");
    }
    while n >= 4 && v[n - 4] == '.' && v[n - 3] == 'g' && v[n - 2] == 'i' && v[n - 1] == 't'
        invariant
            n <= v@.len(),
            without_git_suffix(v@) == without_git_suffix(v@.take(n as int)),
        decreases n,
    {
        proof {
            reveal_strlit(".git");
            let t = v@.take(n as int);
            assert(t.subrange(t.len() - 4, t.len() as int) =~= ".git"@);
            assert(t.take(t.len() - 4) =~= v@.take(n - 4));
        }
        n = n - 4;
    }
    proof {
        reveal_strlit(".git");
        let t = v@.take(n as int);
        if t.len() >= 4 && has_suffix(t, ".git"@) {
            assert(t.subrange(t.len() - 4, t.len() as int)[0] == '.');
            assert(t.subrange(t.len() - 4, t.len() as int)[1] == 'g');
            assert(t.subrange(t.len() - 4, t.len() as int)[2] == 'i');
            assert(t.subrange(t.len() - 4, t.len() as int)[3] == 't');
        }
    }
    let head = crate::text::slice_to_vec(v.as_slice(), 0, n);
    assert(head@ =~= v@.take(n as int));
    string_from(head.as_slice())
}

/// Segments `segs[from..]` joined with `/`.
fn join_slash_from(segs: &Vec<String>, from: usize) -> (r: String)
    requires
        from <= segs@.len(),
    ensures
        r@ == join_slash(texts(segs@).skip(from as int)),
{
    let mut out = String::new();
    let mut i = from;
    let ghost rest = texts(segs@).skip(from as int);
    while i < segs.len()
        invariant
            from <= i <= segs@.len(),
            rest == texts(segs@).skip(from as int),
            out@ == join_slash(rest.take(i - from)),
        decreases segs@.len() - i,
    {
        assert(rest.take(i + 1 - from).drop_last() =~= rest.take(i - from));
        assert(rest.take(i + 1 - from).last() == segs@[i as int]@);
        if i > from {
            out.push('/');
        }
        out.append(segs[i].as_str());
        i = i + 1;
    }
    assert(rest.take(i - from) =~= rest);
    out
}

/// Checks a Git source URL and derives what to clone.
pub fn valid_git_source(raw: &str, windows: bool) -> (r: Result<GitSource, String>)
    ensures
        match (r, git_source(raw@, windows)) {
            (Ok(a), Ok(b)) => a.clone_url@ == b.0 && opt_text(a.subdirectory) == b.1,
            (Err(a), Err(b)) => a@ == b,
            _ => false,
        },
{
    let t = trim_chars(raw);
    let trimmed = string_from(t.as_slice());
    let parts = parse_url(trimmed.as_str());
    git_source_from_parts(trimmed, parts, windows)
}

pub open spec fn url_parts_view(parts: Option<UrlParts>) -> Option<(Seq<char>, Option<Seq<char>>, Option<Seq<Seq<char>>>)> {
    match parts {
        Some(p) => Some((p.scheme@, opt_text(p.host), opt_texts(p.segments))),
        None => None,
    }
}

/// Derives what to clone from the trimmed URL text and what the URL parser
/// made of it (`None` when it did not parse).
pub fn git_source_from_parts(trimmed: String, parts: Option<UrlParts>, windows: bool) -> (r: Result<GitSource, String>)
    ensures
        match (r, git_source_of_parts(trimmed@, url_parts_view(parts), windows)) {
            (Ok(a), Ok(b)) => a.clone_url@ == b.0 && opt_text(a.subdirectory) == b.1,
            (Err(a), Err(b)) => a@ == b,
            _ => false,
        },
{
    let parts = match parts {
        Some(p) => p,
        None => {
            return Err("Git URL 格式无效。".to_string());
        },
    };
    let scheme = parts.scheme.as_str();
    let supported = str_eq(scheme, "https") || str_eq(scheme, "http") || str_eq(scheme, "ssh") || str_eq(scheme, "git");
    let is_github = match &parts.host {
        None => {
            return Err("仅支持 http(s)、ssh 或 git 格式的仓库地址。".to_string());
        },
        Some(h) => str_eq(h.as_str(), "github.com"),
    };
    if !supported {
        return Err("仅支持 http(s)、ssh 或 git 格式的仓库地址。".to_string());
    }
    let segs = match &parts.segments {
        Some(x) => nonempty_segments_exec(x),
        None => {
            let e: Vec<String> = Vec::new();
            assert(texts(e@) =~= Seq::<Seq<char>>::empty());
            e
        },
    };
    if is_github && segs.len() >= 2 {
        let mut clone_url = "https://github.com/".to_string();
        clone_url.append(segs[0].as_str());
        clone_url.append("/");
        clone_url.append(without_git_suffix_exec(segs[1].as_str()).as_str());
        clone_url.append(".git");
        let is_tree = segs.len() >= 3 && str_eq(segs[2].as_str(), "tree");
        let subdirectory = if is_tree && segs.len() >= 5 {
            let path = join_slash_from(&segs, 4);
            if is_safe_relative_skill_path(path.as_str(), windows) {
                Some(path)
            } else {
                None
            }
        } else {
            None
        };
        if is_tree && subdirectory.is_none() {
            return Err("GitHub Skill 子目录地址无效。".to_string());
        }
        return Ok(GitSource { clone_url, subdirectory });
    }
    Ok(GitSource { clone_url: trimmed, subdirectory: None })
}

/// Owner and repository of a GitHub clone URL.
pub open spec fn github_owner_repo(clone_url: Seq<char>) -> Option<(Seq<char>, Seq<char>)> {
    match url_components(clone_url) {
        Some((_, Some(host), Some(segments))) => if host == "github.com"@ && nonempty_segments(segments).len() >= 2 {
            Some((nonempty_segments(segments)[0], without_git_suffix(nonempty_segments(segments)[1])))
        } else {
            None
        },
        _ => None,
    }
}

/// The GitHub owner and repository a clone URL points at.
pub fn github_coordinates(clone_url: &str) -> (r: Option<(String, String)>)
    ensures
        match github_owner_repo(clone_url@) {
            Some((o, n)) => r matches Some(p) && p.0@ == o && p.1@ == n,
            None => r is None,
        },
{
    let parts = match parse_url(clone_url) {
        Some(p) => p,
        None => {
            return None;
        },
    };
    let on_github = match &parts.host {
        Some(h) => str_eq(h.as_str(), "github.com"),
        None => false,
    };
    if !on_github {
        return None;
    }
    let segs = match &parts.segments {
        Some(x) => nonempty_segments_exec(x),
        None => {
            return None;
        },
    };
    if segs.len() < 2 {
        return None;
    }
    Some((segs[0].clone(), without_git_suffix_exec(segs[1].as_str())))
}

/// An entry of a GitHub tree listing.
#[derive(Debug)]
pub struct TreeEntry {
    pub path: String,
    pub kind: String,
}

/// The entry is a SKILL.md file.
pub open spec fn is_skill_file(e: TreeEntry) -> bool {
    e.kind@ == "blob"@ && (e.path@ == "SKILL.md"@ || has_suffix(e.path@, "/SKILL.md"@))
}

/// The directory holding a SKILL.md entry (`Path::parent`, `/`-separated).
pub open spec fn skill_dir(path: Seq<char>) -> Seq<char> {
    if path == "SKILL.md"@ {
        seq![]
    } else {
        path.take(path.len() - 9)
    }
}

/// Index of the last `/` in `s`.
pub open spec fn last_slash(s: Seq<char>) -> Option<int>
    decreases s.len(),
{
    if s.len() == 0 {
        None
    } else if s.last() == '/' {
        Some(s.len() - 1)
    } else {
        last_slash(s.drop_last())
    }
}

/// The last component of a `/`-separated path; none for an empty path.
pub open spec fn last_component(s: Seq<char>) -> Option<Seq<char>> {
    if s.len() == 0 {
        None
    } else {
        match last_slash(s) {
            Some(i) => Some(s.skip(i + 1)),
            None => Some(s),
        }
    }
}

/// Number of components of a `/`-separated path.
pub open spec fn component_count(s: Seq<char>) -> nat
    decreases s.len(),
{
    if s.len() == 0 {
        0
    } else {
        component_count(s.drop_last()) + (if s.last() != '/' && (s.len() == 1 || s[s.len() - 2] == '/') {
            1nat
        } else {
            0nat
        })
    }
}

/// The SKILL.md entry `i` lies in a directory named `name` (ASCII case
/// ignored).
pub open spec fn names_skill(tree: Seq<TreeEntry>, i: int, name: Seq<char>) -> bool {
    &&& is_skill_file(tree[i])
    &&& last_component(skill_dir(tree[i].path@)) matches Some(c) && ascii_lower(c) == ascii_lower(name)
}

/// Among entries below `n`, the first of least depth whose directory is
/// named `name`.
pub open spec fn shallowest_named(tree: Seq<TreeEntry>, n: int, name: Seq<char>) -> Option<int>
    decreases n,
{
    if n <= 0 {
        None
    } else {
        let best = shallowest_named(tree, n - 1, name);
        if names_skill(tree, n - 1, name) && (best matches Some(b) ==> component_count(
            skill_dir(tree[n - 1].path@),
        ) < component_count(skill_dir(tree[b].path@))) {
            Some(n - 1)
        } else {
            best
        }
    }
}

/// Number of SKILL.md entries below `n`.
pub open spec fn skill_file_count(tree: Seq<TreeEntry>, n: int) -> nat
    decreases n,
{
    if n <= 0 {
        0
    } else {
        skill_file_count(tree, n - 1) + (if is_skill_file(tree[n - 1]) {
            1nat
        } else {
            0nat
        })
    }
}

/// The first SKILL.md entry below `n`.
pub open spec fn first_skill_file(tree: Seq<TreeEntry>, n: int) -> Option<int>
    decreases n,
{
    if n <= 0 {
        None
    } else {
        match first_skill_file(tree, n - 1) {
            Some(i) => Some(i),
            None => if is_skill_file(tree[n - 1]) {
                Some(n - 1)
            } else {
                None
            },
        }
    }
}

/// The first entry below `n` with path `path`.
pub open spec fn first_with_path(tree: Seq<TreeEntry>, n: int, path: Seq<char>) -> Option<int>
    decreases n,
{
    if n <= 0 {
        None
    } else {
        match first_with_path(tree, n - 1, path) {
            Some(i) => Some(i),
            None => if tree[n - 1].path@ == path {
                Some(n - 1)
            } else {
                None
            },
        }
    }
}

/// `\` written as `/`.
pub open spec fn forward_slashes(s: Seq<char>) -> Seq<char> {
    s.map_values(|c: char| if c == '\\' { '/' } else { c })
}

/// Where the requested skill lives in a repository tree: the source's
/// sub-directory; else the shallowest directory named like the skill; else
/// the directory of the only SKILL.md. Then its SKILL.md entry must exist.
pub open spec fn github_skill_file(tree: Seq<TreeEntry>, subdirectory: Option<Seq<char>>, name: Seq<char>) -> Result<(Seq<char>, int), Seq<char>> {
    let n = tree.len() as int;
    match skill_root(tree, subdirectory, name) {
        None => Err("GitHub HTTPS 清单中未定位到 Skill："@ + name),
        Some(r) => {
            let file = skill_file_path(r);
            match first_with_path(tree, n, file) {
                Some(i) => Ok((r, i)),
                None => Err("GitHub HTTPS 清单中未找到 "@ + file),
            }
        },
    }
}

/// The path of the SKILL.md in directory `root`.
pub open spec fn skill_file_path(root: Seq<char>) -> Seq<char> {
    if root.len() == 0 {
        "SKILL.md"@
    } else {
        root + "/SKILL.md"@
    }
}

/// The directory of the requested skill, if one can be told.
pub open spec fn skill_root(tree: Seq<TreeEntry>, subdirectory: Option<Seq<char>>, name: Seq<char>) -> Option<Seq<char>> {
    let n = tree.len() as int;
    match subdirectory {
        Some(p) => Some(forward_slashes(p)),
        None => match shallowest_named(tree, n, name) {
            Some(i) => Some(skill_dir(tree[i].path@)),
            None => if skill_file_count(tree, n) == 1 {
                match first_skill_file(tree, n) {
                    Some(i) => Some(skill_dir(tree[i].path@)),
                    None => None,
                }
            } else {
                None
            },
        },
    }
}

fn is_skill_file_exec(e: &TreeEntry) -> (r: bool)
    ensures
        r == is_skill_file(*e),
{
    let path = chars_of(e.path.as_str());
    str_eq(e.kind.as_str(), "blob") && (str_eq(e.path.as_str(), "SKILL.md")
        || crate::text::ends_with_str(path.as_slice(), "/SKILL.md"))
}

fn skill_dir_exec(path: &str) -> (r: Vec<char>)
    requires
        path@ == "SKILL.md"@ || has_suffix(path@, "/SKILL.md"@),
    ensures
        r@ == skill_dir(path@),
{
    proof {
        reveal_strlit("/SKILL.md");
    }
    let v = chars_of(path);
    if str_eq(path, "SKILL.md") {
        return Vec::new();
    }
    crate::text::slice_to_vec(v.as_slice(), 0, v.len() - 9)
}

fn last_component_exec(d: &[char]) -> (r: Option<Vec<char>>)
    ensures
        match last_component(d@) {
            Some(c) => r matches Some(x) && x@ == c,
            None => r is None,
        },
{
    if d.len() == 0 {
        return None;
    }
    let mut k = d.len();
    assert(d@.take(k as int) =~= d@);
    while k > 0 && d[k - 1] != '/'
        invariant
            k <= d@.len(),
            last_slash(d@) == last_slash(d@.take(k as int)),
        decreases k,
    {
        assert(d@.take(k as int).drop_last() =~= d@.take(k - 1));
        k = k - 1;
    }
    if k == 0 {
        assert(d@.take(0) =~= Seq::<char>::empty());
        return Some(crate::text::slice_to_vec(d, 0, d.len()));
    }
    assert(d@.take(k as int).last() == '/');
    let c = crate::text::slice_to_vec(d, k, d.len());
    assert(c@ =~= d@.skip(k as int));
    assert(d@.subrange(0, d@.len() as int) =~= d@);
    Some(c)
}

fn component_count_exec(d: &[char]) -> (r: usize)
    ensures
        r == component_count(d@),
{
    let mut count: usize = 0;
    let mut i: usize = 0;
    while i < d.len()
        invariant
            i <= d@.len(),
            count == component_count(d@.take(i as int)),
            count <= i,
        decreases d@.len() - i,
    {
        assert(d@.take(i + 1).drop_last() =~= d@.take(i as int));
        if d[i] != '/' && (i == 0 || d[i - 1] == '/') {
            count = count + 1;
        }
        i = i + 1;
    }
    assert(d@.take(i as int) =~= d@);
    count
}

fn forward_slashes_exec(s: &str) -> (r: String)
    ensures
        r@ == forward_slashes(s@),
{
    let v = chars_of(s);
    let mut out: Vec<char> = Vec::new();
    let mut i: usize = 0;
    while i < v.len()
        invariant
            i <= v@.len(),
            out@ == forward_slashes(v@.take(i as int)),
        decreases v@.len() - i,
    {
        out.push(if v[i] == '\\' { '/' } else { v[i] });
        i = i + 1;
        assert(out@ =~= forward_slashes(v@.take(i as int)));
    }
    assert(v@.take(i as int) =~= v@);
    string_from(out.as_slice())
}

fn names_skill_exec(tree: &Vec<TreeEntry>, i: usize, name: &str) -> (r: bool)
    requires
        i < tree@.len(),
    ensures
        r == names_skill(tree@, i as int, name@),
{
    if !is_skill_file_exec(&tree[i]) {
        return false;
    }
    let dir = skill_dir_exec(tree[i].path.as_str());
    match last_component_exec(dir.as_slice()) {
        Some(c) => {
            let a = ascii_lowercase(c.as_slice());
            let b = ascii_lowercase(chars_of(name).as_slice());
            crate::text::chars_eq(a.as_slice(), b.as_slice())
        },
        None => false,
    }
}

/// Locates the requested skill's directory and its SKILL.md entry (by
/// index) in a repository tree.
pub fn resolve_github_skill_file(tree: &Vec<TreeEntry>, subdirectory: Option<&str>, requested_name: &str) -> (r: Result<(String, usize), String>)
    ensures
        match (r, github_skill_file(tree@, match subdirectory {
            Some(p) => Some(p@),
            None => None,
        }, requested_name@)) {
            (Ok(a), Ok(b)) => a.0@ == b.0 && a.1 as int == b.1,
            (Err(a), Err(b)) => a@ == b,
            _ => false,
        },
{
    let mut best: Option<usize> = None;
    let mut best_depth: usize = 0;
    let mut count: usize = 0;
    let mut first: Option<usize> = None;
    let mut i: usize = 0;
    while i < tree.len()
        invariant
            i <= tree@.len(),
            match shallowest_named(tree@, i as int, requested_name@) {
                Some(b) => best == Some(b as usize) && best_depth == component_count(skill_dir(tree@[b].path@)),
                None => best is None,
            },
            count == skill_file_count(tree@, i as int),
            count <= i,
            match first_skill_file(tree@, i as int) {
                Some(f) => first == Some(f as usize),
                None => first is None,
            },
        decreases tree@.len() - i,
    {
        if names_skill_exec(tree, i, requested_name) {
            let dir = skill_dir_exec(tree[i].path.as_str());
            let depth = component_count_exec(dir.as_slice());
            if best.is_none() || depth < best_depth {
                best = Some(i);
                best_depth = depth;
            }
        }
        if is_skill_file_exec(&tree[i]) {
            count = count + 1;
            if first.is_none() {
                first = Some(i);
            }
        }
        i = i + 1;
    }
    proof {
        lemma_skill_indices_bounds(tree@, tree@.len() as int, requested_name@);
    }
    let root: String = match subdirectory {
        Some(p) => forward_slashes_exec(p),
        None => match best {
            Some(b) => string_from(skill_dir_exec(tree[b].path.as_str()).as_slice()),
            None => {
                if count == 1 {
                    match first {
                        Some(f) => string_from(skill_dir_exec(tree[f].path.as_str()).as_slice()),
                        None => {
                            let mut m = "GitHub HTTPS 清单中未定位到 Skill：".to_string();
                            m.append(requested_name);
                            return Err(m);
                        },
                    }
                } else {
                    let mut m = "GitHub HTTPS 清单中未定位到 Skill：".to_string();
                    m.append(requested_name);
                    return Err(m);
                }
            },
        },
    };
    let file = if root.unicode_len() == 0 {
        "SKILL.md".to_string()
    } else {
        let mut f = root.clone();
        f.append("/SKILL.md");
        f
    };
    let ghost sub = match subdirectory {
        Some(p) => Some(p@),
        None => None,
    };
    assert(skill_root(tree@, sub, requested_name@) == Some(root@));
    assert(file@ == skill_file_path(root@));
    let mut j: usize = 0;
    while j < tree.len()
        invariant
            j <= tree@.len(),
            first_with_path(tree@, j as int, file@) is None,
            skill_root(tree@, sub, requested_name@) == Some(root@),
            file@ == skill_file_path(root@),
            sub == match subdirectory {
                Some(p) => Some(p@),
                None => None::<Seq<char>>,
            },
        decreases tree@.len() - j,
    {
        if str_eq(tree[j].path.as_str(), file.as_str()) {
            proof {
                lemma_first_with_path_stable(tree@, j + 1, tree@.len() as int, file@);
            }
            return Ok((root, j));
        }
        j = j + 1;
    }
    let mut m = "GitHub HTTPS 清单中未找到 ".to_string();
    m.append(file.as_str());
    Err(m)
}

proof fn lemma_skill_indices_bounds(tree: Seq<TreeEntry>, n: int, name: Seq<char>)
    ensures
        shallowest_named(tree, n, name) matches Some(b) ==> 0 <= b < n && names_skill(tree, b, name),
        first_skill_file(tree, n) matches Some(f) ==> 0 <= f < n && is_skill_file(tree[f]),
        skill_file_count(tree, n) > 0 ==> first_skill_file(tree, n) is Some,
    decreases n,
{
    if n > 0 {
        lemma_skill_indices_bounds(tree, n - 1, name);
    }
}

proof fn lemma_first_with_path_stable(tree: Seq<TreeEntry>, n: int, m: int, path: Seq<char>)
    requires
        n <= m,
        first_with_path(tree, n, path) is Some,
    ensures
        first_with_path(tree, m, path) == first_with_path(tree, n, path),
    decreases m - n,
{
    if n < m {
        lemma_first_with_path_stable(tree, n, m - 1, path);
    }
}

/// A path names a SKILL.md file.
pub open spec fn is_skill_path(p: Seq<char>) -> bool {
    p == "SKILL.md"@ || has_suffix(p, "/SKILL.md"@)
}

/// The SKILL.md paths among `ls`, in order.
pub open spec fn skill_paths(ls: Seq<Seq<char>>) -> Seq<Seq<char>>
    decreases ls.len(),
{
    if ls.len() == 0 {
        seq![]
    } else if is_skill_path(ls.last()) {
        skill_paths(ls.drop_last()).push(ls.last())
    } else {
        skill_paths(ls.drop_last())
    }
}

/// The SKILL.md at `p` lies in a directory named `name` (ASCII case ignored).
pub open spec fn path_names_skill(p: Seq<char>, name: Seq<char>) -> bool {
    last_component(skill_dir(p)) matches Some(c) && ascii_lower(c) == ascii_lower(name)
}

/// Among the first `n` SKILL.md paths, the first of least depth whose
/// directory is named `name`.
pub open spec fn shallowest_named_path(files: Seq<Seq<char>>, n: int, name: Seq<char>) -> Option<int>
    decreases n,
{
    if n <= 0 {
        None
    } else {
        let best = shallowest_named_path(files, n - 1, name);
        if path_names_skill(files[n - 1], name) && (best matches Some(b) ==> component_count(skill_dir(files[n - 1]))
            < component_count(skill_dir(files[b]))) {
            Some(n - 1)
        } else {
            best
        }
    }
}

/// Most SKILL.md files whose front matter is read to find a skill.
pub const FRONT_MATTER_CANDIDATE_LIMIT: usize = 80;

/// Where a requested skill lives in a checkout, by the paths of its files
/// (`git ls-tree` output, one per line): the directory of the only SKILL.md;
/// else the shallowest directory named like the skill; else (`Err`) the
/// first SKILL.md files, whose front matter is to be read.
pub open spec fn repository_skill_lookup(tree: Seq<char>, name: Seq<char>) -> Result<Seq<char>, Seq<Seq<char>>> {
    let files = skill_paths(lines_of(tree));
    if files.len() == 1 {
        Ok(skill_dir(files[0]))
    } else {
        match shallowest_named_path(files, files.len() as int, name) {
            Some(i) => Ok(skill_dir(files[i])),
            None => Err(
                files.take(
                    if files.len() < FRONT_MATTER_CANDIDATE_LIMIT {
                        files.len() as int
                    } else {
                        FRONT_MATTER_CANDIDATE_LIMIT as int
                    },
                ),
            ),
        }
    }
}

/// What the file listing of a checkout tells of where a requested skill lives.
pub enum RepositorySkillLookup {
    /// The skill's directory, relative to the repository root.
    Directory(String),
    /// The SKILL.md files whose front matter is to be read, in order.
    ReadFrontMatter(Vec<String>),
}

fn is_skill_path_exec(p: &[char]) -> (r: bool)
    ensures
        r == is_skill_path(p@),
{
    proof {
        reveal_strlit("SKILL.md");
    }
    crate::text::chars_eq(p, chars_of("SKILL.md").as_slice()) || crate::text::ends_with_str(p, "/SKILL.md")
}

proof fn lemma_shallowest_named_path_bounds(files: Seq<Seq<char>>, n: int, name: Seq<char>)
    ensures
        shallowest_named_path(files, n, name) matches Some(b) ==> 0 <= b < n,
    decreases n,
{
    if n > 0 {
        lemma_shallowest_named_path_bounds(files, n - 1, name);
    }
}

/// Locates a requested skill from the file listing of a checkout (see
/// `repository_skill_lookup`).
pub fn locate_repository_skill(tree: &str, requested_name: &str) -> (r: RepositorySkillLookup)
    ensures
        match (r, repository_skill_lookup(tree@, requested_name@)) {
            (RepositorySkillLookup::Directory(d), Ok(x)) => d@ == x,
            (RepositorySkillLookup::ReadFrontMatter(c), Err(x)) => texts(c@) == x,
            _ => false,
        },
{
    let v = chars_of(tree);
    let lines = split_lines(v.as_slice());
    let ghost ls = lines_of(tree@);
    let mut files: Vec<String> = Vec::new();
    let mut i: usize = 0;
    while i < lines.len()
        invariant
            i <= lines@.len(),
            lines@.len() == ls.len(),
            forall|k: int| 0 <= k < lines@.len() ==> #[trigger] lines@[k]@ == ls[k],
            texts(files@) == skill_paths(ls.take(i as int)),
            forall|k: int| 0 <= k < files@.len() ==> is_skill_path(#[trigger] files@[k]@),
        decreases lines@.len() - i,
    {
        assert(ls.take(i + 1).drop_last() =~= ls.take(i as int));
        assert(ls.take(i + 1).last() == lines@[i as int]@);
        if is_skill_path_exec(lines[i].as_slice()) {
            let ghost before = files@;
            files.push(string_from(lines[i].as_slice()));
            assert(texts(files@) =~= texts(before).push(lines@[i as int]@));
        }
        i = i + 1;
    }
    assert(ls.take(i as int) =~= ls);
    let ghost fs = texts(files@);
    if files.len() == 1 {
        return RepositorySkillLookup::Directory(string_from(skill_dir_exec(files[0].as_str()).as_slice()));
    }
    let mut best: Option<usize> = None;
    let mut best_depth: usize = 0;
    let mut j: usize = 0;
    while j < files.len()
        invariant
            j <= files@.len(),
            fs == texts(files@),
            forall|k: int| 0 <= k < files@.len() ==> is_skill_path(#[trigger] files@[k]@),
            match shallowest_named_path(fs, j as int, requested_name@) {
                Some(b) => best == Some(b as usize) && best_depth == component_count(skill_dir(fs[b])),
                None => best is None,
            },
        decreases files@.len() - j,
    {
        proof {
            lemma_shallowest_named_path_bounds(fs, j as int, requested_name@);
        }
        let dir = skill_dir_exec(files[j].as_str());
        let named = match last_component_exec(dir.as_slice()) {
            Some(c) => {
                let a = ascii_lowercase(c.as_slice());
                let b = ascii_lowercase(chars_of(requested_name).as_slice());
                crate::text::chars_eq(a.as_slice(), b.as_slice())
            },
            None => false,
        };
        if named {
            let depth = component_count_exec(dir.as_slice());
            if best.is_none() || depth < best_depth {
                best = Some(j);
                best_depth = depth;
            }
        }
        j = j + 1;
    }
    proof {
        lemma_shallowest_named_path_bounds(fs, fs.len() as int, requested_name@);
    }
    match best {
        Some(b) => RepositorySkillLookup::Directory(string_from(skill_dir_exec(files[b].as_str()).as_slice())),
        None => {
            let limit = if files.len() < FRONT_MATTER_CANDIDATE_LIMIT {
                files.len()
            } else {
                FRONT_MATTER_CANDIDATE_LIMIT
            };
            let mut candidates: Vec<String> = Vec::new();
            let mut k: usize = 0;
            while k < limit
                invariant
                    k <= limit <= files@.len(),
                    fs == texts(files@),
                    texts(candidates@) == fs.take(k as int),
                decreases limit - k,
            {
                let ghost before = candidates@;
                candidates.push(files[k].clone());
                assert(texts(candidates@) =~= texts(before).push(fs[k as int]));
                assert(fs.take(k + 1) =~= fs.take(k as int).push(fs[k as int]));
                k = k + 1;
            }
            RepositorySkillLookup::ReadFrontMatter(candidates)
        },
    }
}

/// Whether the SKILL.md text `contents` declares the skill `requested_name`
/// (ASCII case ignored) in valid front matter.
pub fn front_matter_names_skill(contents: &str, requested_name: &str) -> (r: bool)
    ensures
        r == (front_matter(contents@) matches Some(p) && ascii_lower(p.0) == ascii_lower(requested_name@)),
{
    match parse_frontmatter_content(contents) {
        Some((name, _)) => {
            let a = ascii_lowercase(chars_of(name.as_str()).as_slice());
            let b = ascii_lowercase(chars_of(requested_name).as_slice());
            crate::text::chars_eq(a.as_slice(), b.as_slice())
        },
        None => false,
    }
}

/// What reading one candidate SKILL.md leads to.
pub enum FrontMatterStep {
    /// The candidate declares the skill: its directory.
    Found(String),
    /// Reading failed in a way that ends the search (a timeout): the error.
    Stop(String),
    /// Go on with the next candidate.
    Next,
}

/// The step after reading the candidate SKILL.md at `path` (its text, or
/// the error reading it): the candidate's directory when its front matter
/// declares `requested_name`; stop on a timeout; else go on.
pub fn front_matter_step(path: &str, outcome: Result<String, String>, requested_name: &str) -> (r: FrontMatterStep)
    requires
        is_skill_path(path@),
    ensures
        match outcome {
            Ok(contents) => if front_matter(contents@) matches Some(p) && ascii_lower(p.0) == ascii_lower(requested_name@) {
                r matches FrontMatterStep::Found(d) && d@ == skill_dir(path@)
            } else {
                r is Next
            },
            Err(e) => if contains_seq(e@, "超时"@) {
                r matches FrontMatterStep::Stop(m) && m@ == e@
            } else {
                r is Next
            },
        },
{
    match outcome {
        Ok(contents) => {
            if front_matter_names_skill(contents.as_str(), requested_name) {
                FrontMatterStep::Found(string_from(skill_dir_exec(path).as_slice()))
            } else {
                FrontMatterStep::Next
            }
        },
        Err(e) => {
            if crate::text::contains_str(chars_of(e.as_str()).as_slice(), "超时") {
                FrontMatterStep::Stop(e)
            } else {
                FrontMatterStep::Next
            }
        },
    }
}

/// The error when no SKILL.md of a checkout names the requested skill.
pub fn repository_skill_missing(requested_name: &str) -> (r: String)
    ensures
        r@ == "仓库中未找到 Skill："@ + requested_name@,
{
    let mut m = "仓库中未找到 Skill：".to_string();
    m.append(requested_name);
    m
}

/// The arguments of the `git clone` that fetches a skill repository; a
/// targeted install (a sub-directory or a skill name is given) clones
/// sparsely without checking anything out.
pub open spec fn git_clone_args(clone_url: Seq<char>, repo_root: Seq<char>, targeted: bool) -> Seq<Seq<char>> {
    seq!["clone"@, "--depth"@, "1"@, "--no-tags"@, "--single-branch"@] + (if targeted {
        seq!["--filter=blob:none"@, "--sparse"@, "--no-checkout"@]
    } else {
        seq![]
    }) + seq!["--"@, clone_url, repo_root]
}

fn push_str(v: &mut Vec<String>, s: &str)
    ensures
        texts(final(v)@) == texts(old(v)@).push(s@),
{
    let ghost before = v@;
    v.push(s.to_string());
    assert(texts(v@) =~= texts(before).push(s@));
}

/// The `git clone` arguments for a skill install.
pub fn git_clone_arguments(clone_url: &str, repo_root: &str, targeted: bool) -> (r: Vec<String>)
    ensures
        texts(r@) == git_clone_args(clone_url@, repo_root@, targeted),
{
    let mut v: Vec<String> = Vec::new();
    push_str(&mut v, "clone");
    push_str(&mut v, "--depth");
    push_str(&mut v, "1");
    push_str(&mut v, "--no-tags");
    push_str(&mut v, "--single-branch");
    if targeted {
        push_str(&mut v, "--filter=blob:none");
        push_str(&mut v, "--sparse");
        push_str(&mut v, "--no-checkout");
    }
    push_str(&mut v, "--");
    push_str(&mut v, clone_url);
    push_str(&mut v, repo_root);
    assert(texts(v@) =~= git_clone_args(clone_url@, repo_root@, targeted));
    v
}

/// The arguments that limit a sparse checkout to `relative` (the whole
/// repository when it is empty).
pub open spec fn git_sparse_args(repo_root: Seq<char>, relative: Seq<char>) -> Seq<Seq<char>> {
    if relative.len() == 0 {
        seq!["-C"@, repo_root, "sparse-checkout"@, "disable"@]
    } else {
        seq!["-C"@, repo_root, "sparse-checkout"@, "set"@, "--no-cone"@, "--"@, relative]
    }
}

/// The `git sparse-checkout` arguments for a targeted install.
pub fn git_sparse_checkout_arguments(repo_root: &str, relative: &str) -> (r: Vec<String>)
    ensures
        texts(r@) == git_sparse_args(repo_root@, relative@),
{
    let mut v: Vec<String> = Vec::new();
    push_str(&mut v, "-C");
    push_str(&mut v, repo_root);
    push_str(&mut v, "sparse-checkout");
    if relative.unicode_len() == 0 {
        push_str(&mut v, "disable");
    } else {
        push_str(&mut v, "set");
        push_str(&mut v, "--no-cone");
        push_str(&mut v, "--");
        push_str(&mut v, relative);
    }
    assert(texts(v@) =~= git_sparse_args(repo_root@, relative@));
    v
}

/// Where the skill of a Git install lives: the source's sub-directory;
/// else a directory to locate by the (trimmed, non-blank) requested name;
/// else the repository root.
pub enum GitSkillRoot {
    Given(String),
    Locate(String),
    RepositoryRoot,
}

/// The skill root to use for a Git install.
pub fn git_skill_root(subdirectory: Option<String>, requested_name: Option<&str>) -> (r: GitSkillRoot)
    ensures
        match subdirectory {
            Some(p) => r matches GitSkillRoot::Given(x) && x@ == p@,
            None => match crate::models::present(match requested_name {
                Some(n) => Some(n@),
                None => None,
            }) {
                Some(n) => r matches GitSkillRoot::Locate(x) && x@ == n,
                None => r is RepositoryRoot,
            },
        },
{
    match subdirectory {
        Some(p) => GitSkillRoot::Given(p),
        None => match requested_name {
            Some(n) => {
                let t = trim_chars(n);
                if t.len() == 0 {
                    GitSkillRoot::RepositoryRoot
                } else {
                    GitSkillRoot::Locate(string_from(t.as_slice()))
                }
            },
            None => GitSkillRoot::RepositoryRoot,
        },
    }
}

/// A SKILL.md found in a checkout: the name its front matter declares and
/// its directory relative to the skill root.
pub struct GitSkillFile {
    pub name: String,
    pub relative_path: String,
}

/// Number of `/` in `s`.
pub open spec fn slash_count(s: Seq<char>) -> nat
    decreases s.len(),
{
    if s.len() == 0 {
        0
    } else {
        slash_count(s.drop_last()) + if s.last() == '/' { 1nat } else { 0nat }
    }
}

fn slash_count_exec(s: &str) -> (r: usize)
    ensures
        r == slash_count(s@),
{
    let v = chars_of(s);
    let mut count: usize = 0;
    let mut i: usize = 0;
    while i < v.len()
        invariant
            i <= v@.len(),
            count == slash_count(v@.take(i as int)),
            count <= i,
        decreases v@.len() - i,
    {
        assert(v@.take(i + 1).drop_last() =~= v@.take(i as int));
        if v[i] == '/' {
            count = count + 1;
        }
        i = i + 1;
    }
    assert(v@.take(i as int) =~= v@);
    count
}

/// A found skill may be installed (the `_template` skill is not).
pub open spec fn git_candidate(f: GitSkillFile) -> bool {
    f.name@ != "_template"@
}

/// A skill name is one the install asks for: any when no name is requested,
/// else the requested one with ASCII case ignored.
pub open spec fn name_requested(name: Seq<char>, requested: Option<Seq<char>>) -> bool {
    match requested {
        Some(r) => ascii_lower(name) == ascii_lower(r),
        None => true,
    }
}

/// Among the first `n` files, the installable one named `k` with the fewest
/// `/` in its path (the first of those).
pub open spec fn best_git_candidate(fs: Seq<GitSkillFile>, k: Seq<char>, n: int) -> Option<int>
    decreases n,
{
    if n <= 0 {
        None
    } else {
        let b = best_git_candidate(fs, k, n - 1);
        if git_candidate(fs[n - 1]) && fs[n - 1].name@ == k && (b matches Some(q) ==> slash_count(
            fs[n - 1].relative_path@,
        ) < slash_count(fs[q].relative_path@)) {
            Some(n - 1)
        } else {
            b
        }
    }
}

/// The names of the installable skills among the first `n` files that the
/// install asks for.
pub open spec fn wanted_git_names(fs: Seq<GitSkillFile>, requested: Option<Seq<char>>, n: int) -> Set<Seq<char>>
    decreases n,
{
    if n <= 0 {
        Set::empty()
    } else if git_candidate(fs[n - 1]) && name_requested(fs[n - 1].name@, requested) {
        wanted_git_names(fs, requested, n - 1).insert(fs[n - 1].name@)
    } else {
        wanted_git_names(fs, requested, n - 1)
    }
}

pub open spec fn no_installable_skill_message() -> Seq<char> {
    "该 Git 仓库中没有可安装的 SKILL.md。"@
}

proof fn lemma_best_git_candidate(fs: Seq<GitSkillFile>, k: Seq<char>, requested: Option<Seq<char>>, n: int)
    requires
        0 <= n <= fs.len(),
    ensures
        best_git_candidate(fs, k, n) matches Some(q) ==> 0 <= q < n && git_candidate(fs[q]) && fs[q].name@ == k,
        name_requested(k, requested) ==> (wanted_git_names(fs, requested, n).contains(k) <==> best_git_candidate(fs, k, n) is Some),
        wanted_git_names(fs, requested, n).contains(k) ==> name_requested(k, requested),
    decreases n,
{
    if n > 0 {
        lemma_best_git_candidate(fs, k, requested, n - 1);
    }
}

/// Picks the skills a Git install copies: one per installable name (its
/// shallowest SKILL.md, the first of those), only the requested name when
/// one is given (ASCII case ignored), in ascending name order. Gives their
/// indices in `files`.
pub fn select_git_skill_candidates(files: &Vec<GitSkillFile>, requested_name: Option<&str>) -> (r: Result<Vec<usize>, String>)
    ensures
        ({
            let req = crate::models::present(match requested_name {
                Some(n) => Some(n@),
                None => None,
            });
            let n = files@.len() as int;
            match r {
                Ok(v) => {
                    &&& v@.len() > 0
                    &&& forall|j: int| 0 <= j < v@.len() ==> #[trigger] v@[j] < n && best_git_candidate(
                        files@,
                        files@[v@[j] as int].name@,
                        n,
                    ) == Some(v@[j] as int) && name_requested(files@[v@[j] as int].name@, req)
                    &&& forall|j: int, l: int| 0 <= j < l < v@.len() ==> seq_lt(
                        files@[#[trigger] v@[j] as int].name@,
                        files@[#[trigger] v@[l] as int].name@,
                    )
                    &&& forall|i: int| 0 <= i < n && git_candidate(#[trigger] files@[i]) && name_requested(files@[i].name@, req)
                        ==> exists|j: int| 0 <= j < v@.len() && files@[#[trigger] v@[j] as int].name@ == files@[i].name@
                },
                Err(e) => if wanted_git_names(files@, None, n).len() == 0 {
                    e@ == no_installable_skill_message()
                } else {
                    req matches Some(q) && wanted_git_names(files@, req, n).len() == 0 && e@ == "仓库中未找到 Skill："@ + q
                },
            }
        }),
{
    let ghost req = crate::models::present(match requested_name {
        Some(n) => Some(n@),
        None => None,
    });
    let wanted: Option<Vec<char>> = match requested_name {
        Some(n) => {
            let t = trim_chars(n);
            if t.len() == 0 {
                None
            } else {
                Some(ascii_lowercase(t.as_slice()))
            }
        },
        None => None,
    };
    proof {
        reveal_strlit("_template");
    }
    let n = files.len();
    let mut names: Vec<String> = Vec::new();
    let mut any = false;
    let mut i: usize = 0;
    while i < n
        invariant
            n == files@.len(),
            i <= n,
            strictly_ascending(texts(names@)),
            texts(names@).to_set() == wanted_git_names(files@, req, i as int),
            any == (wanted_git_names(files@, None, i as int).len() > 0),
            wanted_git_names(files@, None, i as int).finite(),
            match wanted {
                Some(w) => req matches Some(q) && w@ == ascii_lower(q),
                None => req is None,
            },
        decreases n - i,
    {
        let f = &files[i];
        if !str_eq(f.name.as_str(), "_template") {
            proof {
                assert(wanted_git_names(files@, None, i + 1) == wanted_git_names(files@, None, i as int).insert(f.name@));
                assert(wanted_git_names(files@, None, i + 1).contains(f.name@));
            }
            any = true;
            let ok = match &wanted {
                Some(w) => crate::text::chars_eq(ascii_lowercase(chars_of(f.name.as_str()).as_slice()).as_slice(), w.as_slice()),
                None => true,
            };
            if ok {
                insert_ascending_unique(&mut names, f.name.clone());
            }
        }
        i = i + 1;
    }
    if !any {
        return Err("该 Git 仓库中没有可安装的 SKILL.md。".to_string());
    }
    if names.len() == 0 {
        proof {
            assert(texts(names@).to_set() =~= Set::<Seq<char>>::empty());
        }
        let mut m = "仓库中未找到 Skill：".to_string();
        match requested_name {
            Some(q) => {
                let t = trim_chars(q);
                m.append(string_from(t.as_slice()).as_str());
            },
            None => {},
        }
        return Err(m);
    }
    let ghost ks = texts(names@);
    let mut r: Vec<usize> = Vec::new();
    let mut j: usize = 0;
    while j < names.len()
        invariant
            n == files@.len(),
            ks == texts(names@),
            strictly_ascending(ks),
            ks.to_set() == wanted_git_names(files@, req, n as int),
            j <= names@.len(),
            r@.len() == j,
            forall|a: int| 0 <= a < j ==> #[trigger] r@[a] < n && files@[r@[a] as int].name@ == ks[a]
                && best_git_candidate(files@, ks[a], n as int) == Some(r@[a] as int),
        decreases names@.len() - j,
    {
        proof {
            assert(ks.to_set().contains(ks[j as int]));
            lemma_best_git_candidate(files@, ks[j as int], req, n as int);
        }
        let mut best: Option<usize> = None;
        let mut best_depth: usize = 0;
        let mut q: usize = 0;
        while q < n
            invariant
                n == files@.len(),
                q <= n,
                ks == texts(names@),
                j < names@.len(),
                match best_git_candidate(files@, ks[j as int], q as int) {
                    Some(b) => best == Some(b as usize) && best_depth == slash_count(files@[b].relative_path@),
                    None => best is None,
                },
            decreases n - q,
        {
            proof {
                lemma_best_git_candidate(files@, ks[j as int], req, q as int);
            }
            let f = &files[q];
            if !str_eq(f.name.as_str(), "_template") && str_eq(f.name.as_str(), names[j].as_str()) {
                let depth = slash_count_exec(f.relative_path.as_str());
                if best.is_none() || depth < best_depth {
                    best = Some(q);
                    best_depth = depth;
                }
            }
            q = q + 1;
        }
        proof {
            lemma_best_git_candidate(files@, ks[j as int], req, n as int);
        }
        let b = match best {
            Some(b) => b,
            None => {
                proof {
                    assert(false);
                }
                0
            },
        };
        r.push(b);
        j = j + 1;
    }
    proof {
        assert forall|i: int| 0 <= i < n && git_candidate(#[trigger] files@[i]) && name_requested(files@[i].name@, req)
            implies exists|a: int| 0 <= a < r@.len() && files@[#[trigger] r@[a] as int].name@ == files@[i].name@ by {
            lemma_wanted_contains(files@, req, i, n as int);
            let a = choose|a: int| 0 <= a < ks.len() && ks[a] == files@[i].name@;
            assert(files@[r@[a] as int].name@ == ks[a]);
        }
        assert forall|a: int| 0 <= a < r@.len() implies name_requested(files@[#[trigger] r@[a] as int].name@, req) by {
            assert(ks.to_set().contains(ks[a]));
            lemma_best_git_candidate(files@, ks[a], req, n as int);
        }
    }
    Ok(r)
}

proof fn lemma_wanted_contains(fs: Seq<GitSkillFile>, req: Option<Seq<char>>, i: int, n: int)
    requires
        0 <= i < n <= fs.len(),
        git_candidate(fs[i]),
        name_requested(fs[i].name@, req),
    ensures
        wanted_git_names(fs, req, n).contains(fs[i].name@),
    decreases n,
{
    if n > i + 1 {
        lemma_wanted_contains(fs, req, i, n - 1);
    }
}

/// How a GitHub HTTPS install begins.
pub enum GithubInstallStart {
    /// The source is invalid: the install fails.
    Failed(String),
    /// No skill name is requested, or the source is not on GitHub: the
    /// HTTPS route does not apply.
    NotApplicable,
    /// Fetch the repository tree at `tree_url` for the (trimmed) requested skill.
    FetchTree { tree_url: String, requested_name: String, subdirectory: Option<String> },
}

/// The tree listing URL of a GitHub repository.
pub open spec fn github_tree_url(owner: Seq<char>, repository: Seq<char>) -> Seq<char> {
    "https://api.github.com/repos/"@ + owner + "/"@ + repository + "/git/trees/HEAD?recursive=1"@
}

/// The first step of a GitHub HTTPS install of `requested_name` from
/// `raw_url`: an invalid source fails; a missing or blank name, or a source
/// not on GitHub, leaves the install to Git; otherwise the tree is fetched.
pub fn github_install_start(raw_url: &str, windows: bool, requested_name: Option<&str>) -> (r: GithubInstallStart)
    ensures
        match git_source(raw_url@, windows) {
            Err(e) => r matches GithubInstallStart::Failed(m) && m@ == e,
            Ok((clone_url, sub)) => match crate::models::present(match requested_name {
                Some(n) => Some(n@),
                None => None,
            }) {
                None => r is NotApplicable,
                Some(name) => match github_owner_repo(clone_url) {
                    None => r is NotApplicable,
                    Some((o, p)) => r matches GithubInstallStart::FetchTree { tree_url, requested_name: n, subdirectory: s }
                        && tree_url@ == github_tree_url(o, p) && n@ == name && opt_text(s) == sub,
                },
            },
        },
{
    let source = match valid_git_source(raw_url, windows) {
        Ok(s) => s,
        Err(e) => {
            return GithubInstallStart::Failed(e);
        },
    };
    let name = match requested_name {
        Some(n) => {
            let t = trim_chars(n);
            if t.len() == 0 {
                return GithubInstallStart::NotApplicable;
            }
            string_from(t.as_slice())
        },
        None => {
            return GithubInstallStart::NotApplicable;
        },
    };
    match github_coordinates(source.clone_url.as_str()) {
        None => GithubInstallStart::NotApplicable,
        Some((owner, repository)) => {
            let mut url = "https://api.github.com/repos/".to_string();
            url.append(owner.as_str());
            url.append("/");
            url.append(repository.as_str());
            url.append("/git/trees/HEAD?recursive=1");
            GithubInstallStart::FetchTree { tree_url: url, requested_name: name, subdirectory: source.subdirectory }
        },
    }
}

/// The error that sends a GitHub install back to Git when the tree request
/// answered with a status that is not a success.
pub fn github_tree_http_failure(status: u16, body: &str) -> (r: String)
    requires
        utf8_len(squeeze_ws(body@)) <= 320 || exists|k: int| byte_boundary(squeeze_ws(body@), k, 320),
    ensures
        r@ == "GitHub HTTPS 清单失败（HTTP "@ + crate::text::decimal(status as nat) + "）："@ + http_error_text(body@),
{
    let mut r = "GitHub HTTPS 清单失败（HTTP ".to_string();
    r.append(crate::text::decimal_string(status as u64).as_str());
    r.append("）：");
    r.append(trim_http_error(body).as_str());
    r
}

/// An entry of a GitHub tree listing with what the install checks of it.
pub struct GithubTreeItem {
    pub path: String,
    pub kind: String,
    pub mode: String,
    pub size: Option<u64>,
}

/// The entry belongs to the skill rooted at `root`: a file (blob) at or
/// below the root directory, and not the root itself.
pub open spec fn github_skill_item(it: GithubTreeItem, root: Seq<char>) -> bool {
    &&& it.kind@ == "blob"@
    &&& (root.len() == 0 || has_prefix(it.path@, root + "/"@))
    &&& it.path@ != root
}

/// The indices below `n` of the entries that belong to the skill, in order.
pub open spec fn github_skill_items(items: Seq<GithubTreeItem>, root: Seq<char>, n: int) -> Seq<int>
    decreases n,
{
    if n <= 0 {
        seq![]
    } else if github_skill_item(items[n - 1], root) {
        github_skill_items(items, root, n - 1).push(n - 1)
    } else {
        github_skill_items(items, root, n - 1)
    }
}

/// The listed sizes of the entries at `idx` added up (an unlisted size counts 0).
pub open spec fn listed_size(items: Seq<GithubTreeItem>, idx: Seq<int>) -> int
    decreases idx.len(),
{
    if idx.len() == 0 {
        0
    } else {
        listed_size(items, idx.drop_last()) + match items[idx.last()].size {
            Some(s) => s as int,
            None => 0,
        }
    }
}

/// Most files a skill may have.
pub const GITHUB_SKILL_MAX_FILES: usize = 200;
/// Most bytes a skill may have.
pub const GITHUB_SKILL_MAX_BYTES: u64 = 25165824;

/// The files a GitHub install of the skill at `root` fetches, or why it is
/// refused: no files or more than the limit, a symbolic link among them, or
/// a listed size above the limit.
pub open spec fn github_skill_files(items: Seq<GithubTreeItem>, root: Seq<char>) -> Result<Seq<int>, Seq<char>> {
    let sel = github_skill_items(items, root, items.len() as int);
    if sel.len() == 0 || sel.len() > GITHUB_SKILL_MAX_FILES {
        Err("Skill 文件数量异常，安装已取消。"@)
    } else if exists|k: int| 0 <= k < sel.len() && items[#[trigger] sel[k]].mode@ == "120000"@ {
        Err("Skill 包含符号链接，出于安全原因拒绝安装。"@)
    } else if listed_size(items, sel) > GITHUB_SKILL_MAX_BYTES {
        Err("Skill 文件总大小超过 24 MB，安装已取消。"@)
    } else {
        Ok(sel)
    }
}

proof fn lemma_github_items_bounded(items: Seq<GithubTreeItem>, root: Seq<char>, n: int)
    requires
        0 <= n <= items.len(),
    ensures
        github_skill_items(items, root, n).len() <= n,
        forall|k: int| 0 <= k < github_skill_items(items, root, n).len() ==> 0 <= #[trigger] github_skill_items(items, root, n)[k] < n,
    decreases n,
{
    if n > 0 {
        lemma_github_items_bounded(items, root, n - 1);
    }
}

/// Selects the files of a GitHub skill install (see `github_skill_files`).
pub fn github_install_files(items: &Vec<GithubTreeItem>, relative_root: &str) -> (r: Result<Vec<usize>, String>)
    ensures
        match (r, github_skill_files(items@, relative_root@)) {
            (Ok(a), Ok(b)) => a@.map_values(|x: usize| x as int) == b,
            (Err(a), Err(b)) => a@ == b,
            _ => false,
        },
{
    proof {
        reveal_strlit("blob");
        reveal_strlit("120000");
        reveal_strlit("/");
    }
    let n = items.len();
    let mut prefix = relative_root.to_string();
    prefix.append("/");
    let root_empty = relative_root.unicode_len() == 0;
    let mut sel: Vec<usize> = Vec::new();
    let mut i: usize = 0;
    while i < n
        invariant
            n == items@.len(),
            i <= n,
            prefix@ == relative_root@ + "/"@,
            root_empty == (relative_root@.len() == 0),
            sel@.map_values(|x: usize| x as int) == github_skill_items(items@, relative_root@, i as int),
        decreases n - i,
    {
        let it = &items[i];
        let keep = str_eq(it.kind.as_str(), "blob") && (root_empty || crate::text::starts_with_str(
            chars_of(it.path.as_str()).as_slice(),
            prefix.as_str(),
        )) && !str_eq(it.path.as_str(), relative_root);
        if keep {
            let ghost before = sel@;
            sel.push(i);
            assert(sel@.map_values(|x: usize| x as int) =~= before.map_values(|x: usize| x as int).push(i as int));
        }
        i = i + 1;
    }
    let ghost s = github_skill_items(items@, relative_root@, n as int);
    proof {
        lemma_github_items_bounded(items@, relative_root@, n as int);
    }
    assert(sel@.len() == s.len());
    if sel.len() == 0 || sel.len() > GITHUB_SKILL_MAX_FILES {
        return Err("Skill 文件数量异常，安装已取消。".to_string());
    }
    let mut k: usize = 0;
    while k < sel.len()
        invariant
            n == items@.len(),
            s == github_skill_items(items@, relative_root@, n as int),
            sel@.map_values(|x: usize| x as int) == s,
            forall|q: int| 0 <= q < s.len() ==> 0 <= #[trigger] s[q] < n,
            k <= sel@.len(),
            0 < s.len() <= GITHUB_SKILL_MAX_FILES,
            forall|q: int| 0 <= q < k ==> items@[#[trigger] s[q]].mode@ != "120000"@,
        decreases sel@.len() - k,
    {
        assert(s[k as int] == sel@[k as int] as int);
        if str_eq(items[sel[k]].mode.as_str(), "120000") {
            assert(items@[s[k as int]].mode@ == "120000"@);
            return Err("Skill 包含符号链接，出于安全原因拒绝安装。".to_string());
        }
        k = k + 1;
    }
    let mut total: u64 = 0;
    let mut q: usize = 0;
    while q < sel.len()
        invariant
            n == items@.len(),
            s == github_skill_items(items@, relative_root@, n as int),
            sel@.map_values(|x: usize| x as int) == s,
            forall|p: int| 0 <= p < s.len() ==> 0 <= #[trigger] s[p] < n,
            q <= sel@.len(),
            total == listed_size(items@, s.take(q as int)),
            total <= GITHUB_SKILL_MAX_BYTES,
            0 < s.len() <= GITHUB_SKILL_MAX_FILES,
            forall|p: int| 0 <= p < s.len() ==> items@[#[trigger] s[p]].mode@ != "120000"@,
        decreases sel@.len() - q,
    {
        assert(s.take(q + 1).drop_last() =~= s.take(q as int));
        assert(s[q as int] == sel@[q as int] as int);
        let add: u64 = match items[sel[q]].size {
            Some(v) => v,
            None => 0,
        };
        assert(listed_size(items@, s.take(q + 1)) == total + add);
        if add > GITHUB_SKILL_MAX_BYTES - total {
            proof {
                lemma_listed_size_monotone(items@, s, q + 1);
            }
            return Err("Skill 文件总大小超过 24 MB，安装已取消。".to_string());
        }
        total = total + add;
        q = q + 1;
    }
    assert(s.take(q as int) =~= s);
    Ok(sel)
}

proof fn lemma_listed_size_monotone(items: Seq<GithubTreeItem>, s: Seq<int>, k: int)
    requires
        0 <= k <= s.len(),
    ensures
        listed_size(items, s.take(k)) <= listed_size(items, s),
    decreases s.len() - k,
{
    if k < s.len() {
        lemma_listed_size_monotone(items, s, k + 1);
        assert(s.take(k + 1).drop_last() =~= s.take(k));
    } else {
        assert(s.take(k) =~= s);
    }
}

/// What a GitHub install does once the repository tree is listed.
#[derive(Debug)]
pub enum GithubTreePlan {
    /// The listing cannot be used: install with Git instead.
    RetryWithGit(String),
    /// The skill cannot be installed.
    Failed(String),
    /// Fetch the listed `files` (positions in the listing) of the skill at
    /// `relative_root`, starting with its SKILL.md at `skill_file`.
    FetchFiles { relative_root: String, skill_file: usize, files: Vec<usize> },
}

/// The tree listing as the skill locator reads it.
pub open spec fn tree_entries(items: Seq<GithubTreeItem>) -> Seq<TreeEntry> {
    items.map_values(|it: GithubTreeItem| TreeEntry { path: it.path, kind: it.kind })
}

/// Message for a tree listing that GitHub cut short.
pub open spec fn truncated_tree_message() -> Seq<char> {
    "GitHub 仓库文件清单过大，改用 Git 备用下载。"@
}

/// Plans the install from the tree listing: a truncated listing, or one in
/// which the skill or its SKILL.md is not found, sends the install to Git;
/// files that may not be installed fail it; otherwise the skill's files are
/// fetched.
pub fn github_tree_plan(
    items: &Vec<GithubTreeItem>,
    truncated: bool,
    subdirectory: Option<&str>,
    requested_name: &str,
) -> (r: GithubTreePlan)
    ensures
        truncated ==> (r matches GithubTreePlan::RetryWithGit(m) && m@ == truncated_tree_message()),
        !truncated ==> match github_skill_file(
            tree_entries(items@),
            match subdirectory {
                Some(p) => Some(p@),
                None => None,
            },
            requested_name@,
        ) {
            Err(e) => r matches GithubTreePlan::RetryWithGit(m) && m@ == e,
            Ok((root, i)) => match github_skill_files(items@, root) {
                Err(e) => r matches GithubTreePlan::Failed(m) && m@ == e,
                Ok(sel) => r matches GithubTreePlan::FetchFiles { relative_root, skill_file, files }
                    && relative_root@ == root && skill_file as int == i && files@.map_values(|x: usize| x as int) == sel,
            },
        },
{
    if truncated {
        return GithubTreePlan::RetryWithGit("GitHub 仓库文件清单过大，改用 Git 备用下载。".to_string());
    }
    let mut entries: Vec<TreeEntry> = Vec::new();
    let mut k: usize = 0;
    while k < items.len()
        invariant
            k <= items@.len(),
            entries@.len() == k,
            forall|j: int| 0 <= j < k ==> #[trigger] entries@[j] == (TreeEntry { path: items@[j].path, kind: items@[j].kind }),
        decreases items@.len() - k,
    {
        entries.push(TreeEntry { path: items[k].path.clone(), kind: items[k].kind.clone() });
        k = k + 1;
    }
    assert(entries@ =~= tree_entries(items@));
    match resolve_github_skill_file(&entries, subdirectory, requested_name) {
        Err(e) => GithubTreePlan::RetryWithGit(e),
        Ok((root, skill_file)) => match github_install_files(items, root.as_str()) {
            Err(e) => GithubTreePlan::Failed(e),
            Ok(files) => GithubTreePlan::FetchFiles { relative_root: root, skill_file, files },
        },
    }
}

/// Where a file of the skill lands inside the skill's directory: its path
/// with the skill root and `/` cut off (all of it when the root is the
/// repository), refused unless that is a safe relative path.
pub open spec fn github_file_destination(path: Seq<char>, root: Seq<char>, windows: bool) -> Result<Seq<char>, Seq<char>> {
    let relative = if root.len() == 0 {
        path
    } else if has_prefix(path, root + "/"@) {
        path.skip(root.len() as int + 1)
    } else {
        seq![]
    };
    if safe_relative_path(relative, windows) {
        Ok(relative)
    } else {
        Err("Skill 文件路径无效，安装已取消。"@)
    }
}

/// The path inside the skill's directory that a listed file is written to.
pub fn github_file_relative_path(path: &str, relative_root: &str, windows: bool) -> (r: Result<String, String>)
    ensures
        match (r, github_file_destination(path@, relative_root@, windows)) {
            (Ok(a), Ok(b)) => a@ == b,
            (Err(a), Err(b)) => a@ == b,
            _ => false,
        },
{
    let p = chars_of(path);
    let root = chars_of(relative_root);
    let relative: String = if root.len() == 0 {
        path.to_string()
    } else {
        let mut prefix = root.clone();
        prefix.push('/');
        assert(prefix@ =~= relative_root@ + "/"@) by {
            reveal_strlit("/");
        }
        if crate::text::occurs_at_exec(p.as_slice(), prefix.as_slice(), 0) {
            let mut rest: Vec<char> = Vec::new();
            let mut k: usize = prefix.len();
            while k < p.len()
                invariant
                    prefix@.len() <= k <= p@.len(),
                    rest@ == p@.subrange(prefix@.len() as int, k as int),
                decreases p@.len() - k,
            {
                rest.push(p[k]);
                k = k + 1;
            }
            assert(rest@ =~= path@.skip(relative_root@.len() as int + 1));
            string_from(rest.as_slice())
        } else {
            String::new()
        }
    };
    if is_safe_relative_skill_path(relative.as_str(), windows) {
        Ok(relative)
    } else {
        Err("Skill 文件路径无效，安装已取消。".to_string())
    }
}

/// The name a fetched SKILL.md gives the install, or why it is refused: the
/// text must be UTF-8 (`None` when it is not), declare valid front matter,
/// and name the requested skill (ASCII case ignored).
pub fn github_skill_name_check(skill_text: Option<&str>, requested_name: &str) -> (r: Result<String, String>)
    ensures
        match skill_text {
            None => r matches Err(e) && e@ == "SKILL.md 不是有效 UTF-8。"@,
            Some(t) => match front_matter(t@) {
                None => r matches Err(e) && e@ == "SKILL.md 元数据无效。"@,
                Some((name, _)) => if ascii_lower(name) == ascii_lower(requested_name@) {
                    r matches Ok(x) && x@ == name
                } else {
                    r matches Err(e) && e@ == "Skill 名称不匹配：请求 "@ + requested_name@ + "，仓库提供 "@ + name + "。"@
                },
            },
        },
{
    let text = match skill_text {
        Some(t) => t,
        None => {
            return Err("SKILL.md 不是有效 UTF-8。".to_string());
        },
    };
    match parse_frontmatter_content(text) {
        None => Err("SKILL.md 元数据无效。".to_string()),
        Some((name, _)) => {
            let a = ascii_lowercase(chars_of(name.as_str()).as_slice());
            let b = ascii_lowercase(chars_of(requested_name).as_slice());
            if crate::text::chars_eq(a.as_slice(), b.as_slice()) {
                Ok(name)
            } else {
                let mut m = "Skill 名称不匹配：请求 ".to_string();
                m.append(requested_name);
                m.append("，仓库提供 ");
                m.append(name.as_str());
                m.append("。");
                Err(m)
            }
        },
    }
}

/// A skill search query: trimmed, non-empty and at most 200 characters.
pub open spec fn search_query(query: Seq<char>) -> Result<Seq<char>, Seq<char>> {
    let q = trim(query);
    if q.len() == 0 {
        Err("请输入 Skill 名称或功能关键词。"@)
    } else if q.len() > 200 {
        Err("搜索关键词不能超过 200 个字符。"@)
    } else {
        Ok(q)
    }
}

/// Checks a skill search query.
pub fn validated_search_query(query: &str) -> (r: Result<String, String>)
    ensures
        result_text(r) == search_query(query@),
{
    let q = trim_chars(query);
    if q.len() == 0 {
        return Err("请输入 Skill 名称或功能关键词。".to_string());
    }
    if q.len() > 200 {
        return Err("搜索关键词不能超过 200 个字符。".to_string());
    }
    Ok(string_from(q.as_slice()))
}

/// Where skills are searched.
#[derive(Clone, Copy, Debug, PartialEq, Eq, Structural)]
pub enum SkillSearchProvider {
    SkillsMp,
    SkillsSh,
}

/// The search source a provider name stands for.
pub fn skill_search_provider(provider: &str) -> (r: Result<SkillSearchProvider, String>)
    ensures
        provider@ == "skillsMp"@ ==> r == Ok::<SkillSearchProvider, String>(SkillSearchProvider::SkillsMp),
        provider@ == "skillsSh"@ ==> r == Ok::<SkillSearchProvider, String>(SkillSearchProvider::SkillsSh),
        provider@ != "skillsMp"@ && provider@ != "skillsSh"@ ==> (r matches Err(e) && e@
            == "不支持的 Skill 搜索来源。"@),
{
    proof {
        reveal_strlit("skillsMp");
        reveal_strlit("skillsSh");
        assert("skillsMp"@[6] != "skillsSh"@[6]);
    }
    if str_eq(provider, "skillsMp") {
        Ok(SkillSearchProvider::SkillsMp)
    } else if str_eq(provider, "skillsSh") {
        Ok(SkillSearchProvider::SkillsSh)
    } else {
        Err("不支持的 Skill 搜索来源。".to_string())
    }
}

/// The SkillsMP API key to send, if one is given and not blank (trimmed).
pub fn skillsmp_bearer_key(api_key: Option<&str>) -> (r: Option<String>)
    ensures
        match api_key {
            Some(k) => if trim(k@).len() > 0 {
                r matches Some(v) && v@ == trim(k@)
            } else {
                r is None
            },
            None => r is None,
        },
{
    match api_key {
        Some(k) => {
            let t = trim_chars(k);
            if t.len() > 0 {
                Some(string_from(t.as_slice()))
            } else {
                None
            }
        },
        None => None,
    }
}

/// The error of a SkillsMP search that the service reported as failed.
pub fn skillsmp_failure_message(error_message: Option<&str>) -> (r: String)
    ensures
        match error_message {
            Some(m) => r@ == "SkillsMP 搜索失败："@ + m@,
            None => r@ == "SkillsMP 搜索失败。"@,
        },
{
    match error_message {
        Some(m) => {
            let mut r = "SkillsMP 搜索失败：".to_string();
            r.append(m);
            r
        },
        None => "SkillsMP 搜索失败。".to_string(),
    }
}

/// The error for a search answered with a failing HTTP status.
pub fn search_http_failure(source_label: &str, status: u16, body: &str) -> (r: String)
    requires
        utf8_len(squeeze_ws(body@)) <= 320 || exists|k: int| byte_boundary(squeeze_ws(body@), k, 320),
    ensures
        r@ == source_label@ + " 搜索失败（HTTP "@ + crate::text::decimal(status as nat) + "）："@
            + http_error_text(body@),
{
    let mut r = source_label.to_string();
    r.append(" 搜索失败（HTTP ");
    let code = crate::text::decimal_string(status as u64);
    r.append(code.as_str());
    r.append("）：");
    let detail = trim_http_error(body);
    r.append(detail.as_str());
    r
}

/// The id of a skills.sh entry: its `id`, or its `skillId` when that is blank.
pub fn skills_sh_entry_id(id: &str, skill_id: &str) -> (r: String)
    ensures
        r@ == if trim(id@).len() == 0 { skill_id@ } else { id@ },
{
    if trim_chars(id).len() == 0 {
        skill_id.to_string()
    } else {
        id.to_string()
    }
}

/// The clone URL of a skills.sh source `owner/repo` (any source holding a
/// slash), trimmed; `None` for one without a slash.
pub fn skills_sh_github_url(source: &str) -> (r: Option<String>)
    ensures
        source@.contains('/') ==> (r matches Some(u) && u@ == "https://github.com/"@ + trim(source@) + ".git"@),
        !source@.contains('/') ==> r is None,
{
    let v = chars_of(source);
    let mut i: usize = 0;
    while i < v.len()
        invariant
            i <= v@.len(),
            v@ == source@,
            forall|j: int| 0 <= j < i ==> v@[j] != '/',
        decreases v@.len() - i,
    {
        if v[i] == '/' {
            let t = trim_chars(source);
            let mut u = "https://github.com/".to_string();
            u.append(string_from(t.as_slice()).as_str());
            u.append(".git");
            return Some(u);
        }
        i = i + 1;
    }
    None
}

} // verus!
