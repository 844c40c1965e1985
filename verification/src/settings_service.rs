//! Normalisation of settings values typed or pasted by the user.
use vstd::prelude::*;

use crate::text::{string_from, trim, trim_chars};

verus! {

/// `t` without one pair of matching double quotes around it, else without
/// one pair of single quotes, else unchanged.
pub open spec fn unquoted_path(t: Seq<char>) -> Seq<char> {
    if t.len() >= 2 && t[0] == '"' && t.last() == '"' {
        t.subrange(1, t.len() - 1)
    } else if t.len() >= 2 && t[0] == '\'' && t.last() == '\'' {
        t.subrange(1, t.len() - 1)
    } else {
        t
    }
}

/// A configured Codex launch path: trimmed, unquoted, trimmed again; `None`
/// when nothing is left.
pub open spec fn launch_path(value: Option<Seq<char>>) -> Option<Seq<char>> {
    match value {
        None => None,
        Some(raw) => {
            let p = trim(unquoted_path(trim(raw)));
            if p.len() == 0 {
                None
            } else {
                Some(p)
            }
        },
    }
}

/// Cleans up a Codex launch path as typed or pasted.
pub fn normalize_codex_launch_path(value: Option<String>) -> (r: Option<String>)
    ensures
        match (r, launch_path(match value {
            Some(v) => Some(v@),
            None => None,
        })) {
            (Some(a), Some(b)) => a@ == b,
            (None, None) => true,
            _ => false,
        },
{
    let raw = match value {
        Some(v) => v,
        None => {
            return None;
        },
    };
    let t = trim_chars(raw.as_str());
    let n = t.len();
    let inner = if n >= 2 && ((t[0] == '"' && t[n - 1] == '"') || (t[0] == '\'' && t[n - 1] == '\'')) {
        crate::text::slice_to_vec(t.as_slice(), 1, n - 1)
    } else {
        crate::text::slice_to_vec(t.as_slice(), 0, n)
    };
    assert(t@.subrange(0, n as int) =~= t@);
    let p = trim_chars(string_from(inner.as_slice()).as_str());
    if p.len() == 0 {
        None
    } else {
        Some(string_from(p.as_slice()))
    }
}

} // verus!
