//! The stable record fingerprint used to match a forked rollout against its
//! parent: FNV-1a over a record line with its volatile fields cut out.
use vstd::prelude::*;
use crate::text::{chars_of, trim_end};
use vstd::string::StringSliceAdditionalSpecFns;
use vstd::utf8::{encode_scalar, encode_utf8};

verus! {

/// FNV-1a 64-bit offset basis.
pub const FNV_OFFSET_BASIS: u64 = 0xcbf29ce484222325;

/// FNV-1a 64-bit prime.
pub const FNV_PRIME: u64 = 0x100000001b3;

/// One FNV-1a round: xor the byte in, then multiply modulo 2^64.
pub open spec fn fnv_step(h: u64, byte: u8) -> u64 {
    (h ^ (byte as u64)).wrapping_mul(FNV_PRIME)
}

/// FNV-1a state after feeding `bytes`, in order, into state `h`.
pub open spec fn fnv(h: u64, bytes: Seq<u8>) -> u64
    decreases bytes.len(),
{
    if bytes.len() == 0 {
        h
    } else {
        fnv_step(fnv(h, bytes.drop_last()), bytes.last())
    }
}

/// Feeding two pieces one after the other is feeding their concatenation.
pub proof fn lemma_fnv_concat(h: u64, a: Seq<u8>, c: Seq<u8>)
    ensures
        fnv(h, a + c) == fnv(fnv(h, a), c),
    decreases c.len(),
{
    if c.len() == 0 {
        assert(a + c =~= a);
    } else {
        lemma_fnv_concat(h, a, c.drop_last());
        assert((a + c).drop_last() =~= a + c.drop_last());
    }
}

/// The eight little-endian bytes of `n`.
pub open spec fn le_bytes(n: u64) -> Seq<u8> {
    seq![
        (n & 0xff) as u8,
        ((n >> 8u64) & 0xff) as u8,
        ((n >> 16u64) & 0xff) as u8,
        ((n >> 24u64) & 0xff) as u8,
        ((n >> 32u64) & 0xff) as u8,
        ((n >> 40u64) & 0xff) as u8,
        ((n >> 48u64) & 0xff) as u8,
        ((n >> 56u64) & 0xff) as u8,
    ]
}

/// A deterministic FNV-1a hasher, independent of the process and platform.
pub struct StableFnvHasher {
    state: u64,
}

impl View for StableFnvHasher {
    type V = u64;

    closed spec fn view(&self) -> u64 {
        self.state
    }
}

impl StableFnvHasher {
    pub fn new() -> (r: Self)
        ensures
            r@ == FNV_OFFSET_BASIS,
    {
        StableFnvHasher { state: FNV_OFFSET_BASIS }
    }

    pub fn finish(&self) -> (r: u64)
        ensures
            r == self@,
    {
        self.state
    }

    /// Feeds `bytes[from..to]`.
    pub fn write_range(&mut self, bytes: &[u8], from: usize, to: usize)
        requires
            from <= to <= bytes@.len(),
        ensures
            final(self)@ == fnv(old(self)@, bytes@.subrange(from as int, to as int)),
    {
        let ghost h0 = self.state;
        let mut i = from;
        while i < to
            invariant
                from <= i <= to <= bytes@.len(),
                self.state == fnv(h0, bytes@.subrange(from as int, i as int)),
            decreases to - i,
        {
            assert(bytes@.subrange(from as int, i + 1 as int).drop_last() =~= bytes@.subrange(
                from as int,
                i as int,
            ));
            self.state = (self.state ^ (bytes[i] as u64)).wrapping_mul(FNV_PRIME);
            i = i + 1;
        }
    }

    /// Feeds all of `bytes`.
    pub fn write(&mut self, bytes: &[u8])
        ensures
            final(self)@ == fnv(old(self)@, bytes@),
    {
        self.write_range(bytes, 0, bytes.len());
        assert(bytes@.subrange(0, bytes@.len() as int) =~= bytes@);
    }

    /// Feeds a length as eight little-endian bytes, the way std's `Hash`
    /// for `usize` feeds it on 64-bit little-endian targets.
    pub fn write_len(&mut self, n: u64)
        ensures
            final(self)@ == fnv(old(self)@, le_bytes(n)),
    {
        let v: Vec<u8> = vec![
            (n & 0xff) as u8,
            ((n >> 8u64) & 0xff) as u8,
            ((n >> 16u64) & 0xff) as u8,
            ((n >> 24u64) & 0xff) as u8,
            ((n >> 32u64) & 0xff) as u8,
            ((n >> 40u64) & 0xff) as u8,
            ((n >> 48u64) & 0xff) as u8,
            ((n >> 56u64) & 0xff) as u8,
        ];
        assert(v@ =~= le_bytes(n));
        self.write(v.as_slice());
    }
}

/// `pattern` occurs in `b` at byte `i`.
pub open spec fn matches_at(b: Seq<u8>, pattern: Seq<u8>, i: int) -> bool {
    0 <= i && i + pattern.len() <= b.len() && b.subrange(i, i + pattern.len()) == pattern
}

/// The first byte at or after `from` where `pattern` occurs in `b`.
pub open spec fn first_match_from(b: Seq<u8>, pattern: Seq<u8>, from: int) -> Option<int>
    decreases b.len() + 1 - from,
{
    if from < 0 || from + pattern.len() > b.len() {
        None
    } else if matches_at(b, pattern, from) {
        Some(from)
    } else {
        first_match_from(b, pattern, from + 1)
    }
}

pub proof fn lemma_first_match_from(b: Seq<u8>, pattern: Seq<u8>, from: int)
    ensures
        first_match_from(b, pattern, from) matches Some(i) ==> from <= i && matches_at(b, pattern, i),
    decreases b.len() + 1 - from,
{
    if from < 0 || from + pattern.len() > b.len() {
    } else if matches_at(b, pattern, from) {
    } else {
        lemma_first_match_from(b, pattern, from + 1);
    }
}

/// The bytes of an ASCII literal.
pub open spec fn ascii_bytes(s: Seq<char>) -> Seq<u8> {
    s.map_values(|c: char| c as u8)
}

fn ascii_pattern(lit: &str) -> (v: Vec<u8>)
    ensures
        v@ == ascii_bytes(lit@),
{
    let cs = chars_of(lit);
    let mut v: Vec<u8> = Vec::new();
    let mut i: usize = 0;
    while i < cs.len()
        invariant
            i <= cs@.len(),
            cs@ == lit@,
            v@ =~= ascii_bytes(cs@.subrange(0, i as int)),
        decreases cs.len() - i,
    {
        v.push(cs[i] as u8);
        i = i + 1;
        assert(v@ =~= ascii_bytes(cs@.subrange(0, i as int)));
    }
    assert(cs@.subrange(0, cs@.len() as int) =~= cs@);
    v
}

fn matches_at_exec(b: &[u8], pattern: &[u8], i: usize) -> (r: bool)
    requires
        i + pattern@.len() <= b@.len(),
    ensures
        r == matches_at(b@, pattern@, i as int),
{
    let blen = b.len();
    let mut j: usize = 0;
    while j < pattern.len()
        invariant
            j <= pattern@.len(),
            blen == b@.len(),
            i + pattern@.len() <= b@.len(),
            forall|k: int| 0 <= k < j ==> b@[i + k] == pattern@[k],
        decreases pattern.len() - j,
    {
        if b[i + j] != pattern[j] {
            assert(b@.subrange(i as int, i + pattern@.len())[j as int] != pattern@[j as int]);
            return false;
        }
        j = j + 1;
    }
    assert(b@.subrange(i as int, i + pattern@.len()) =~= pattern@);
    true
}

/// `str::find` on bytes, starting at `from`.
fn find_from(b: &[u8], pattern: &[u8], from: usize) -> (r: Option<usize>)
    ensures
        match r {
            Some(i) => first_match_from(b@, pattern@, from as int) == Some(i as int),
            None => first_match_from(b@, pattern@, from as int) is None,
        },
{
    if pattern.len() > b.len() {
        return None;
    }
    let last = b.len() - pattern.len();
    let mut i = from;
    while i <= last
        invariant
            from <= i,
            last + pattern@.len() == b@.len(),
            first_match_from(b@, pattern@, from as int) == first_match_from(b@, pattern@, i as int),
        decreases last + 1 - i,
    {
        if matches_at_exec(b, pattern, i) {
            return Some(i);
        }
        if i == last {
            return None;
        }
        i = i + 1;
    }
    None
}

/// End of a quoted JSON value whose scan starts at byte `i` (just after the
/// opening quote): one past the first `"` not preceded by a backslash, or the
/// end of the line.
pub open spec fn quoted_end(b: Seq<u8>, i: int) -> int
    decreases b.len() - i,
{
    if i >= b.len() || i < 1 {
        i
    } else if b[i] == 34u8 && b[i - 1] != 92u8 {
        i + 1
    } else {
        quoted_end(b, i + 1)
    }
}

/// End of an unquoted JSON value starting at byte `i`: the first `,` or `}`,
/// or the end of the line.
pub open spec fn unquoted_end(b: Seq<u8>, i: int) -> int
    decreases b.len() - i,
{
    if i >= b.len() || i < 0 {
        i
    } else if b[i] == 44u8 || b[i] == 125u8 {
        i
    } else {
        unquoted_end(b, i + 1)
    }
}

/// `e`, or one past it when a comma follows.
pub open spec fn with_trailing_comma(b: Seq<u8>, e: int) -> int {
    if 0 <= e < b.len() && b[e] == 44u8 {
        e + 1
    } else {
        e
    }
}

/// The byte range of the first `"key":value` field (its key pattern is
/// `key_pattern`), together with one adjacent comma: the one before it when
/// there is one, else the one after it. `None` when the key is absent, or when
/// a quoted value is asked for and the value does not start with a quote.
pub open spec fn field_range(b: Seq<u8>, key_pattern: Seq<u8>, quoted: bool) -> Option<(int, int)> {
    match first_match_from(b, key_pattern, 0) {
        None => None,
        Some(key_start) => {
            let value_start = key_start + key_pattern.len();
            if quoted && !(value_start < b.len() && b[value_start] == 34u8) {
                None
            } else {
                let value_end = if quoted {
                    quoted_end(b, value_start + 1)
                } else {
                    unquoted_end(b, value_start)
                };
                if key_start > 0 && b[key_start - 1] == 44u8 {
                    Some((key_start - 1, value_end))
                } else {
                    Some((key_start, with_trailing_comma(b, value_end)))
                }
            }
        },
    }
}

proof fn lemma_quoted_end_bounds(b: Seq<u8>, i: int)
    requires
        1 <= i <= b.len(),
    ensures
        i <= quoted_end(b, i) <= b.len(),
    decreases b.len() - i,
{
    if i < b.len() && !(b[i] == 34u8 && b[i - 1] != 92u8) {
        lemma_quoted_end_bounds(b, i + 1);
    }
}

proof fn lemma_unquoted_end_bounds(b: Seq<u8>, i: int)
    requires
        0 <= i <= b.len(),
    ensures
        i <= unquoted_end(b, i) <= b.len(),
    decreases b.len() - i,
{
    if i < b.len() && !(b[i] == 44u8 || b[i] == 125u8) {
        lemma_unquoted_end_bounds(b, i + 1);
    }
}

fn quoted_end_exec(b: &[u8], i: usize) -> (r: usize)
    requires
        1 <= i <= b@.len(),
    ensures
        r == quoted_end(b@, i as int),
{
    let mut j = i;
    while j < b.len()
        invariant
            1 <= i <= j <= b@.len(),
            quoted_end(b@, i as int) == quoted_end(b@, j as int),
        decreases b@.len() - j,
    {
        if b[j] == 34u8 && b[j - 1] != 92u8 {
            return j + 1;
        }
        j = j + 1;
    }
    j
}

fn unquoted_end_exec(b: &[u8], i: usize) -> (r: usize)
    requires
        i <= b@.len(),
    ensures
        r == unquoted_end(b@, i as int),
{
    let mut j = i;
    while j < b.len()
        invariant
            i <= j <= b@.len(),
            unquoted_end(b@, i as int) == unquoted_end(b@, j as int),
        decreases b@.len() - j,
    {
        if b[j] == 44u8 || b[j] == 125u8 {
            return j;
        }
        j = j + 1;
    }
    j
}

fn with_trailing_comma_exec(b: &[u8], e: usize) -> (r: usize)
    requires
        e <= b@.len(),
    ensures
        r == with_trailing_comma(b@, e as int),
        r <= b@.len(),
{
    if e < b.len() && b[e] == 44u8 {
        e + 1
    } else {
        e
    }
}

/// The range of a field, as `field_range` states it.
fn field_range_exec(b: &[u8], key_pattern: &[u8], quoted: bool) -> (r: Option<(usize, usize)>)
    ensures
        match r {
            Some(p) => field_range(b@, key_pattern@, quoted) == Some((p.0 as int, p.1 as int))
                && p.0 <= p.1 <= b@.len(),
            None => field_range(b@, key_pattern@, quoted) is None,
        },
{
    proof {
        lemma_first_match_from(b@, key_pattern@, 0);
    }
    let key_start = match find_from(b, key_pattern, 0) {
        None => {
            return None;
        },
        Some(k) => k,
    };
    let blen = b.len();
    assert(matches_at(b@, key_pattern@, key_start as int));
    let value_start = key_start + key_pattern.len();
    if quoted && !(value_start < b.len() && b[value_start] == 34u8) {
        return None;
    }
    let value_end = if quoted {
        proof {
            lemma_quoted_end_bounds(b@, value_start + 1);
        }
        quoted_end_exec(b, value_start + 1)
    } else {
        proof {
            lemma_unquoted_end_bounds(b@, value_start as int);
        }
        unquoted_end_exec(b, value_start)
    };
    if key_start > 0 && b[key_start - 1] == 44u8 {
        Some((key_start - 1, value_end))
    } else {
        let end = with_trailing_comma_exec(b, value_end);
        Some((key_start, end))
    }
}

/// Byte ranges as integers.
pub open spec fn ranges_view(v: Seq<(usize, usize)>) -> Seq<(int, int)> {
    v.map_values(|r: (usize, usize)| (r.0 as int, r.1 as int))
}

/// Every range starts no later than it ends, and ends within `n` bytes.
pub open spec fn ranges_within(r: Seq<(int, int)>, n: int) -> bool {
    forall|k: int| 0 <= k < r.len() ==> 0 <= #[trigger] r[k].0 <= r[k].1 <= n
}

/// The ranges of every occurrence, searching from `from` and resuming after
/// each match, of a field whose whole text `"key":value` is `field_pattern`
/// (its key part being `key_len` bytes long), each with a following comma.
pub open spec fn default_field_ranges(
    b: Seq<u8>,
    key_len: int,
    field_pattern: Seq<u8>,
    from: int,
) -> Seq<(int, int)>
    decreases b.len() + 1 - from,
{
    match first_match_from(b, field_pattern, from) {
        None => seq![],
        Some(k) => if k < from || field_pattern.len() == 0 || k + field_pattern.len() > b.len() {
            seq![]
        } else {
            seq![(k, with_trailing_comma(b, unquoted_end(b, k + key_len)))]
                + default_field_ranges(b, key_len, field_pattern, k + field_pattern.len())
        },
    }
}

/// Appends the ranges of `default_field_ranges` from the start of `b`.
fn push_default_field_ranges(
    b: &[u8],
    key_len: usize,
    field_pattern: &[u8],
    ranges: &mut Vec<(usize, usize)>,
)
    requires
        0 < key_len <= field_pattern@.len(),
        ranges_within(ranges_view(old(ranges)@), b@.len() as int),
    ensures
        ranges_view(final(ranges)@) == ranges_view(old(ranges)@) + default_field_ranges(
            b@,
            key_len as int,
            field_pattern@,
            0,
        ),
        ranges_within(ranges_view(final(ranges)@), b@.len() as int),
{
    let ghost start = ranges_view(ranges@);
    let ghost all = default_field_ranges(b@, key_len as int, field_pattern@, 0);
    let blen = b.len();
    let mut search: usize = 0;
    assert(start + all =~= ranges_view(ranges@) + default_field_ranges(b@, key_len as int, field_pattern@, 0));
    loop
        invariant
            start == ranges_view(old(ranges)@),
            all == default_field_ranges(b@, key_len as int, field_pattern@, 0),
            0 < key_len <= field_pattern@.len(),
            blen == b@.len(),
            search <= b@.len(),
            start + all == ranges_view(ranges@) + default_field_ranges(
                b@,
                key_len as int,
                field_pattern@,
                search as int,
            ),
            ranges_within(ranges_view(ranges@), b@.len() as int),
        decreases b@.len() + 1 - search,
    {
        proof {
            lemma_first_match_from(b@, field_pattern@, search as int);
        }
        match find_from(b, field_pattern, search) {
            None => {
                assert(default_field_ranges(b@, key_len as int, field_pattern@, search as int)
                    =~= Seq::<(int, int)>::empty());
                assert(ranges_view(ranges@) + Seq::<(int, int)>::empty() =~= ranges_view(ranges@));
                assert(ranges_view(ranges@) =~= start + all);
                return;
            },
            Some(k) => {
                assert(matches_at(b@, field_pattern@, k as int));
                proof {
                    lemma_unquoted_end_bounds(b@, k + key_len);
                }
                let value_end = unquoted_end_exec(b, k + key_len);
                let end = with_trailing_comma_exec(b, value_end);
                let ghost before = ranges_view(ranges@);
                ranges.push((k, end));
                assert(ranges_view(ranges@) =~= before.push((k as int, end as int)));
                assert(before.push((k as int, end as int)) + default_field_ranges(
                    b@,
                    key_len as int,
                    field_pattern@,
                    k + field_pattern@.len(),
                ) =~= before + default_field_ranges(b@, key_len as int, field_pattern@, search as int));
                search = k + field_pattern.len();
            },
        }
    }
}

/// The greatest character boundary of `b` at or below `k` (0 when none).
pub open spec fn floor_boundary(b: Seq<u8>, k: int) -> int
    decreases k,
{
    if k <= 0 {
        0
    } else if vstd::utf8::is_char_boundary(b, k) {
        k
    } else {
        floor_boundary(b, k - 1)
    }
}

/// The least character boundary of `b` at or above `k`, or `k` once past the end.
pub open spec fn ceil_boundary(b: Seq<u8>, k: int) -> int
    decreases b.len() - k,
{
    if k >= b.len() {
        k
    } else if vstd::utf8::is_char_boundary(b, k) {
        k
    } else {
        ceil_boundary(b, k + 1)
    }
}

proof fn lemma_floor_boundary_bounds(b: Seq<u8>, k: int)
    ensures
        0 <= floor_boundary(b, k),
        k >= 0 ==> floor_boundary(b, k) <= k,
    decreases k,
{
    if k > 0 && !vstd::utf8::is_char_boundary(b, k) {
        lemma_floor_boundary_bounds(b, k - 1);
    }
}

proof fn lemma_ceil_boundary_bounds(b: Seq<u8>, k: int)
    requires
        k <= b.len(),
    ensures
        k <= ceil_boundary(b, k) <= b.len(),
    decreases b.len() - k,
{
    if k < b.len() && !vstd::utf8::is_char_boundary(b, k) {
        lemma_ceil_boundary_bounds(b, k + 1);
    }
}

fn floor_char_boundary(line: &str, index: usize) -> (r: usize)
    ensures
        r == floor_boundary(
            line.spec_bytes(),
            if index <= line.spec_bytes().len() { index as int } else { line.spec_bytes().len() as int },
        ),
        r <= index,
        r <= line.spec_bytes().len(),
{
    let len = line.as_bytes().len();
    let mut i = if index <= len { index } else { len };
    let ghost k = i;
    proof {
        lemma_floor_boundary_bounds(line.spec_bytes(), k as int);
    }
    while i > 0 && !line.is_char_boundary(i)
        invariant
            i <= k,
            k <= index,
            k <= line.spec_bytes().len(),
            floor_boundary(line.spec_bytes(), k as int) == floor_boundary(line.spec_bytes(), i as int),
        decreases i,
    {
        i = i - 1;
    }
    assert(floor_boundary(line.spec_bytes(), i as int) == i as int);
    i
}

fn ceil_char_boundary(line: &str, index: usize) -> (r: usize)
    ensures
        r == ceil_boundary(
            line.spec_bytes(),
            if index <= line.spec_bytes().len() { index as int } else { line.spec_bytes().len() as int },
        ),
        r <= line.spec_bytes().len(),
{
    let len = line.as_bytes().len();
    let mut i = if index <= len { index } else { len };
    let ghost k = i;
    while i < len && !line.is_char_boundary(i)
        invariant
            k <= i <= len,
            len == line.spec_bytes().len(),
            ceil_boundary(line.spec_bytes(), k as int) == ceil_boundary(line.spec_bytes(), i as int),
        decreases len - i,
    {
        i = i + 1;
    }
    assert(ceil_boundary(line.spec_bytes(), i as int) == i as int);
    i
}

/// Lexicographic order on ranges: by start, then by end.
pub open spec fn range_lt(a: (int, int), b: (int, int)) -> bool {
    a.0 < b.0 || (a.0 == b.0 && a.1 < b.1)
}

/// Strictly ascending, so sorted with no range twice.
pub open spec fn strictly_sorted(r: Seq<(int, int)>) -> bool {
    forall|i: int, j: int| 0 <= i < j < r.len() ==> range_lt(#[trigger] r[i], #[trigger] r[j])
}

/// The distinct ranges of `r` in ascending order: what `sort` then `dedup` leave.
pub open spec fn sorted_distinct(r: Seq<(int, int)>) -> Seq<(int, int)> {
    choose|t: Seq<(int, int)>| strictly_sorted(t) && t.to_set() == r.to_set()
}

/// Two strictly ascending sequences with the same elements are equal.
pub proof fn lemma_strictly_sorted_unique(s: Seq<(int, int)>, t: Seq<(int, int)>)
    requires
        strictly_sorted(s),
        strictly_sorted(t),
        s.to_set() == t.to_set(),
    ensures
        s == t,
    decreases s.len(),
{
    if s.len() == 0 {
        if t.len() > 0 {
            assert(t.to_set().contains(t[0]));
            assert(s.contains(t[0]));
        }
        assert(s =~= t);
    } else {
        assert(s.to_set().contains(s[0]));
        assert(t.contains(s[0]));
        let j = choose|j: int| 0 <= j < t.len() && t[j] == s[0];
        assert(t.to_set().contains(t[0]));
        assert(s.contains(t[0]));
        let i = choose|i: int| 0 <= i < s.len() && s[i] == t[0];
        if j > 0 {
            if i > 0 {
                assert(range_lt(s[0], s[i]));
                assert(range_lt(t[0], t[j]));
            } else {
                assert(range_lt(t[0], t[j]));
            }
        }
        assert(s[0] == t[0]);
        let s1 = s.drop_first();
        let t1 = t.drop_first();
        assert forall|x: (int, int)| s1.to_set().contains(x) implies t1.to_set().contains(x) by {
            assert(s1.contains(x));
            let a = choose|a: int| 0 <= a < s1.len() && s1[a] == x;
            assert(s[a + 1] == x);
            assert(range_lt(s[0], s[a + 1]));
            assert(s.to_set().contains(x));
            assert(t.contains(x));
            let c = choose|c: int| 0 <= c < t.len() && t[c] == x;
            assert(c != 0);
            assert(t1[c - 1] == x);
            assert(t1.contains(x));
        }
        assert forall|x: (int, int)| t1.to_set().contains(x) implies s1.to_set().contains(x) by {
            assert(t1.contains(x));
            let a = choose|a: int| 0 <= a < t1.len() && t1[a] == x;
            assert(t[a + 1] == x);
            assert(range_lt(t[0], t[a + 1]));
            assert(t.to_set().contains(x));
            assert(s.contains(x));
            let c = choose|c: int| 0 <= c < s.len() && s[c] == x;
            assert(c != 0);
            assert(s1[c - 1] == x);
            assert(s1.contains(x));
        }
        assert(s1.to_set() =~= t1.to_set());
        assert(strictly_sorted(s1));
        assert(strictly_sorted(t1));
        lemma_strictly_sorted_unique(s1, t1);
        assert(s1.len() == t1.len());
        assert(s.len() == t.len());
        assert forall|k: int| 0 <= k < s.len() implies s[k] == t[k] by {
            if k > 0 {
                assert(s[k] == s1[k - 1]);
                assert(t[k] == t1[k - 1]);
                assert(s1[k - 1] == t1[k - 1]);
            }
        }
        assert(s =~= t);
    }
}

fn range_lt_exec(a: (usize, usize), b: (usize, usize)) -> (r: bool)
    ensures
        r == range_lt((a.0 as int, a.1 as int), (b.0 as int, b.1 as int)),
{
    a.0 < b.0 || (a.0 == b.0 && a.1 < b.1)
}

/// Inserts `r` into the strictly ascending `ranges`, unless it is already there.
fn insert_sorted_distinct(ranges: &mut Vec<(usize, usize)>, r: (usize, usize))
    requires
        strictly_sorted(ranges_view(old(ranges)@)),
    ensures
        strictly_sorted(ranges_view(final(ranges)@)),
        ranges_view(final(ranges)@).to_set() == ranges_view(old(ranges)@).to_set().insert(
            (r.0 as int, r.1 as int),
        ),
{
    let ghost rv = (r.0 as int, r.1 as int);
    let ghost before = ranges_view(ranges@);
    let mut p: usize = 0;
    while p < ranges.len() && range_lt_exec(ranges[p], r)
        invariant
            p <= ranges@.len(),
            rv == (r.0 as int, r.1 as int),
            before == ranges_view(ranges@),
            forall|k: int| 0 <= k < p ==> range_lt(#[trigger] before[k], rv),
        decreases ranges@.len() - p,
    {
        assert(before[p as int] == (ranges@[p as int].0 as int, ranges@[p as int].1 as int));
        p = p + 1;
    }
    if p < ranges.len() && ranges[p].0 == r.0 && ranges[p].1 == r.1 {
        assert(before[p as int] == rv);
        assert(before.to_set().insert(rv) =~= before.to_set());
        return;
    }
    ranges.insert(p, r);
    let ghost after = ranges_view(ranges@);
    assert(after =~= before.insert(p as int, rv));
    assert forall|i: int, j: int| 0 <= i < j < after.len() implies range_lt(
        #[trigger] after[i],
        #[trigger] after[j],
    ) by {
        if p < before.len() {
            assert(!range_lt(before[p as int], rv));
            assert(before[p as int] != rv);
        }
        if j < p {
        } else if j == p {
        } else if i < p {
            assert(range_lt(before[i], rv));
            if j - 1 > p {
                assert(range_lt(before[p as int], before[j - 1]));
            }
        } else if i == p {
            if j - 1 > p {
                assert(range_lt(before[p as int], before[j - 1]));
            }
        } else {
        }
    }
    assert forall|x: (int, int)| after.to_set().contains(x) <==> before.to_set().insert(rv).contains(x) by {
        if after.contains(x) {
            let a = choose|a: int| 0 <= a < after.len() && after[a] == x;
            if a < p {
                assert(before[a] == x);
            } else if a > p {
                assert(before[a - 1] == x);
            }
        }
        if before.contains(x) {
            let a = choose|a: int| 0 <= a < before.len() && before[a] == x;
            if a < p {
                assert(after[a] == x);
            } else {
                assert(after[a + 1] == x);
            }
        }
        if x == rv {
            assert(after[p as int] == x);
        }
    }
    assert(after.to_set() =~= before.to_set().insert(rv));
}

/// Range `r` covers byte `p`.
pub open spec fn in_range(r: (int, int), p: int) -> bool {
    r.0 <= p < r.1
}

/// Some range of `r` covers byte `p`.
pub open spec fn covered(r: Seq<(int, int)>, p: int) -> bool {
    exists|k: int| 0 <= k < r.len() && #[trigger] in_range(r[k], p)
}

/// The bytes of `b[lo..hi)` that no range of `r` covers, in order.
pub open spec fn kept(b: Seq<u8>, lo: int, hi: int, r: Seq<(int, int)>) -> Seq<u8>
    decreases hi - lo,
{
    if hi <= lo {
        seq![]
    } else {
        kept(b, lo, hi - 1, r) + if covered(r, hi - 1) {
            seq![]
        } else {
            seq![b[hi - 1]]
        }
    }
}

proof fn lemma_kept_uncovered(b: Seq<u8>, lo: int, c: int, d: int, r: Seq<(int, int)>)
    requires
        0 <= lo <= c <= d <= b.len(),
        forall|p: int| c <= p < d ==> !covered(r, p),
    ensures
        kept(b, lo, d, r) == kept(b, lo, c, r) + b.subrange(c, d),
    decreases d - c,
{
    if d == c {
        assert(kept(b, lo, c, r) + b.subrange(c, d) =~= kept(b, lo, c, r));
    } else {
        lemma_kept_uncovered(b, lo, c, d - 1, r);
        assert(!covered(r, d - 1));
        assert(kept(b, lo, c, r) + b.subrange(c, d - 1) + seq![b[d - 1]] =~= kept(b, lo, c, r)
            + b.subrange(c, d));
    }
}

proof fn lemma_kept_covered(b: Seq<u8>, lo: int, c: int, d: int, r: Seq<(int, int)>)
    requires
        lo <= c <= d,
        forall|p: int| c <= p < d ==> covered(r, p),
    ensures
        kept(b, lo, d, r) == kept(b, lo, c, r),
    decreases d - c,
{
    if d > c {
        lemma_kept_covered(b, lo, c, d - 1, r);
        assert(covered(r, d - 1));
        assert(kept(b, lo, d - 1, r) + Seq::<u8>::empty() =~= kept(b, lo, d - 1, r));
    }
}

/// Feeds the bytes of `b[start..end)` that no range covers, sweeping the
/// ranges in ascending order with a cursor.
fn hash_range_excluding(
    b: &[u8],
    start: usize,
    end: usize,
    ranges: &[(usize, usize)],
    hasher: &mut StableFnvHasher,
)
    requires
        start <= b@.len(),
        end <= b@.len(),
        strictly_sorted(ranges_view(ranges@)),
        ranges_within(ranges_view(ranges@), b@.len() as int),
    ensures
        final(hasher)@ == fnv(old(hasher)@, kept(b@, start as int, end as int, ranges_view(ranges@))),
{
    let ghost rs = ranges_view(ranges@);
    let ghost h0 = hasher@;
    if start >= end {
        assert(kept(b@, start as int, end as int, rs) =~= Seq::<u8>::empty());
        return;
    }
    let mut cursor = start;
    let mut k: usize = 0;
    while k < ranges.len()
        invariant
            start <= cursor <= end <= b@.len(),
            k <= ranges@.len(),
            rs == ranges_view(ranges@),
            strictly_sorted(rs),
            ranges_within(rs, b@.len() as int),
            hasher@ == fnv(h0, kept(b@, start as int, cursor as int, rs)),
            forall|j: int, p: int|
                0 <= j < k && start <= p < end && #[trigger] in_range(rs[j], p) ==> p < cursor,
        decreases ranges@.len() - k,
    {
        let (s, e) = ranges[k];
        assert(rs[k as int] == (s as int, e as int));
        if e <= start || s >= end {
            k = k + 1;
            continue;
        }
        let cs = if s > start { s } else { start };
        let ce = if e < end { e } else { end };
        if cs > cursor {
            proof {
                assert forall|p: int| cursor <= p < cs implies !covered(rs, p) by {
                    if covered(rs, p) {
                        let j = choose|j: int| 0 <= j < rs.len() && #[trigger] in_range(rs[j], p);
                        if j > k {
                            assert(range_lt(rs[k as int], rs[j]));
                        }
                    }
                }
                lemma_kept_uncovered(b@, start as int, cursor as int, cs as int, rs);
                lemma_fnv_concat(
                    h0,
                    kept(b@, start as int, cursor as int, rs),
                    b@.subrange(cursor as int, cs as int),
                );
            }
            hasher.write_range(b, cursor, cs);
        }
        let mid = if cs > cursor { cs } else { cursor };
        if ce > mid {
            proof {
                assert forall|p: int| mid <= p < ce implies covered(rs, p) by {
                    assert(in_range(rs[k as int], p));
                }
                lemma_kept_covered(b@, start as int, mid as int, ce as int, rs);
            }
            cursor = ce;
        } else {
            cursor = mid;
        }
        k = k + 1;
    }
    proof {
        assert forall|p: int| cursor <= p < end implies !covered(rs, p) by {
            if covered(rs, p) {
                let j = choose|j: int| 0 <= j < rs.len() && #[trigger] in_range(rs[j], p);
            }
        }
        lemma_kept_uncovered(b@, start as int, cursor as int, end as int, rs);
        lemma_fnv_concat(
            h0,
            kept(b@, start as int, cursor as int, rs),
            b@.subrange(cursor as int, end as int),
        );
    }
    hasher.write_range(b, cursor, end);
}

/// Lines up to this many bytes are hashed whole and have their default fields cut out.
pub const FULL_HASH_BYTES: usize = 65536;

/// Longer lines are hashed by this many bytes at each end.
pub const EDGE_SAMPLE_BYTES: usize = 16384;

/// How far into a line the record type is looked for.
pub const PROBE_BYTES: usize = 2048;

/// The bytes of `"key":`.
pub open spec fn key_pattern(key: Seq<char>) -> Seq<u8> {
    seq![34u8] + ascii_bytes(key) + seq![34u8, 58u8]
}

/// `pattern` occurs somewhere in `b`.
pub open spec fn contains_bytes(b: Seq<u8>, pattern: Seq<u8>) -> bool {
    first_match_from(b, pattern, 0) is Some
}

pub open spec fn optional_range(r: Option<(int, int)>) -> Seq<(int, int)> {
    match r {
        Some(x) => seq![x],
        None => seq![],
    }
}

/// Ranges of every `"key":expected` field.
pub open spec fn default_ranges_for(b: Seq<u8>, key: Seq<char>, expected: Seq<char>) -> Seq<(int, int)> {
    default_field_ranges(
        b,
        key_pattern(key).len() as int,
        key_pattern(key) + ascii_bytes(expected),
        0,
    )
}

/// Fields that replayed records carry with their default values.
pub open spec fn default_value_ranges(b: Seq<u8>) -> Seq<(int, int)> {
    default_ranges_for(b, "local_audio"@, "[]"@)
        + default_ranges_for(b, "cache_write_input_tokens"@, "0"@)
        + default_ranges_for(b, "spend_control_reached"@, "null"@)
        + default_ranges_for(b, "history_mode"@, "\"legacy\""@)
        + default_ranges_for(b, "history_base"@, "null"@)
        + default_ranges_for(b, "subagent_history_start_ordinal"@, "null"@)
        + default_ranges_for(b, "parent_thread_id"@, "null"@)
}

/// The byte ranges left out of a record's fingerprint, in the order they are
/// found: the envelope timestamp; on lines of at most `FULL_HASH_BYTES`, the
/// default-valued fields; and on response items (told by the first
/// `PROBE_BYTES`), the response id and, on short lines, a null `content`.
pub open spec fn excluded_ranges(b: Seq<u8>) -> Seq<(int, int)> {
    let probe = b.subrange(
        0,
        floor_boundary(b, if b.len() <= PROBE_BYTES { b.len() as int } else { PROBE_BYTES as int }),
    );
    let short = b.len() <= FULL_HASH_BYTES;
    let timestamp = optional_range(field_range(b, key_pattern("timestamp"@), true));
    let defaults = if short {
        default_value_ranges(b)
    } else {
        seq![]
    };
    let response = if contains_bytes(probe, ascii_bytes("\"type\":\"response_item\""@)) {
        optional_range(field_range(b, key_pattern("id"@), true)) + if short && contains_bytes(
            probe,
            ascii_bytes("\"content\":null"@),
        ) {
            optional_range(field_range(b, key_pattern("content"@), false))
        } else {
            seq![]
        }
    } else {
        seq![]
    };
    timestamp + defaults + response
}

/// How many bytes below `limit` the ranges cover, counting each range alone.
pub open spec fn removed_bytes(r: Seq<(int, int)>, limit: int) -> int
    decreases r.len(),
{
    if r.len() == 0 {
        0
    } else {
        let last_end = if r.last().1 < limit { r.last().1 } else { limit };
        removed_bytes(r.drop_last(), limit) + if last_end > r.last().0 {
            last_end - r.last().0
        } else {
            0
        }
    }
}

/// The fingerprint of a record line: FNV-1a over the retained length (the
/// length without trailing whitespace, less the excluded bytes, as eight
/// little-endian bytes), then over the bytes outside the excluded ranges,
/// all of them up to `FULL_HASH_BYTES` and the two edges beyond.
pub open spec fn record_hash(line: Seq<char>) -> u64 {
    let b = encode_utf8(line);
    let trimmed = encode_utf8(trim_end(line)).len() as int;
    let r = sorted_distinct(excluded_ranges(b));
    let removed = removed_bytes(r, trimmed);
    let retained = if removed >= trimmed {
        0
    } else {
        trimmed - removed
    };
    let h = fnv(FNV_OFFSET_BASIS, le_bytes(retained as u64));
    if trimmed <= FULL_HASH_BYTES {
        fnv(h, kept(b, 0, trimmed, r))
    } else {
        fnv(
            h,
            kept(b, 0, floor_boundary(b, EDGE_SAMPLE_BYTES as int), r) + kept(
                b,
                ceil_boundary(b, trimmed - EDGE_SAMPLE_BYTES),
                trimmed,
                r,
            ),
        )
    }
}

/// The number of bytes UTF-8 takes for `c`.
fn utf8_width(c: char) -> (r: usize)
    ensures
        r == encode_scalar(c as u32).len(),
{
    let v = c as u32;
    proof {
        vstd::utf8::char_is_scalar(c);
    }
    if v <= 0x7F {
        1
    } else if v <= 0x7FF {
        2
    } else if v <= 0xFFFF {
        3
    } else {
        4
    }
}

/// The number of bytes `line` keeps once its trailing whitespace (Unicode
/// `White_Space`) is removed, as `str::trim_end` removes it.
fn trimmed_byte_len(line: &str) -> (r: usize)
    ensures
        r == encode_utf8(trim_end(line@)).len(),
{
    broadcast use vstd::string::axiom_spec_iter;

    let total = line.as_bytes().len();
    let ghost s = line@;
    let mut pos: usize = 0;
    let mut keep: usize = 0;
    for c in it: line.chars()
        invariant
            total == encode_utf8(s).len(),
            s == line@,
            it.seq() == s,
            it.index() <= s.len(),
            pos == encode_utf8(s.take(it.index() as int)).len(),
            keep == encode_utf8(trim_end(s.take(it.index() as int))).len(),
    {
        let w = utf8_width(c);
        let ghost n = it.index() as int;
        proof {
            let before = s.take(n);
            let after = s.take(n + 1);
            assert(c == s[n]);
            assert(after =~= before.push(c));
            lemma_encode_utf8_concat(before, seq![c]);
            assert(encode_utf8(seq![c]) =~= encode_scalar(c as u32)) by {
                assert(seq![c][0] == c);
                assert(seq![c].drop_first() =~= Seq::<char>::empty());
                assert(encode_utf8(Seq::<char>::empty()) =~= Seq::<u8>::empty());
            }
            assert(before.push(c) =~= before + seq![c]);
            assert(s =~= after + s.skip(n + 1));
            lemma_encode_utf8_concat(after, s.skip(n + 1));
            assert(after.drop_last() =~= before);
        }
        pos = pos + w;
        if !crate::text::is_ws_char(c) {
            keep = pos;
        }
    }
    assert(s.take(s.len() as int) =~= s);
    keep
}

proof fn lemma_encode_utf8_concat(a: Seq<char>, c: Seq<char>)
    ensures
        encode_utf8(a + c) == encode_utf8(a) + encode_utf8(c),
    decreases a.len(),
{
    if a.len() == 0 {
        assert(a + c =~= c);
        assert(encode_utf8(a) + encode_utf8(c) =~= encode_utf8(c));
    } else {
        lemma_encode_utf8_concat(a.drop_first(), c);
        assert((a + c).drop_first() =~= a.drop_first() + c);
        assert((a + c)[0] == a[0]);
        assert(encode_scalar(a[0] as u32) + (encode_utf8(a.drop_first()) + encode_utf8(c))
            =~= encode_scalar(a[0] as u32) + encode_utf8(a.drop_first()) + encode_utf8(c));
    }
}

proof fn lemma_trim_end_prefix(s: Seq<char>)
    ensures
        trim_end(s).len() <= s.len(),
        trim_end(s) == s.subrange(0, trim_end(s).len() as int),
    decreases s.len(),
{
    if s.len() > 0 && crate::text::is_ws(s.last()) {
        lemma_trim_end_prefix(s.drop_last());
    } else {
        assert(s.subrange(0, s.len() as int) =~= s);
    }
}

proof fn lemma_trimmed_within(s: Seq<char>)
    ensures
        encode_utf8(trim_end(s)).len() <= encode_utf8(s).len(),
{
    lemma_trim_end_prefix(s);
    let t = trim_end(s);
    let rest = s.subrange(t.len() as int, s.len() as int);
    assert(s =~= t + rest);
    lemma_encode_utf8_concat(t, rest);
}

fn key_pattern_exec(key: &str) -> (v: Vec<u8>)
    ensures
        v@ == key_pattern(key@),
{
    let mut v: Vec<u8> = Vec::new();
    v.push(34u8);
    let k = ascii_pattern(key);
    let mut i: usize = 0;
    while i < k.len()
        invariant
            i <= k@.len(),
            v@ =~= seq![34u8] + k@.subrange(0, i as int),
        decreases k.len() - i,
    {
        v.push(k[i]);
        i = i + 1;
        assert(v@ =~= seq![34u8] + k@.subrange(0, i as int));
    }
    v.push(34u8);
    v.push(58u8);
    assert(k@.subrange(0, k@.len() as int) =~= k@);
    assert(v@ =~= key_pattern(key@));
    v
}

fn prefix_bytes(b: &[u8], n: usize) -> (v: Vec<u8>)
    requires
        n <= b@.len(),
    ensures
        v@ == b@.subrange(0, n as int),
{
    let mut v: Vec<u8> = Vec::new();
    let mut i: usize = 0;
    while i < n
        invariant
            i <= n <= b@.len(),
            v@ =~= b@.subrange(0, i as int),
        decreases n - i,
    {
        v.push(b[i]);
        i = i + 1;
        assert(v@ =~= b@.subrange(0, i as int));
    }
    v
}

fn push_default_ranges_for(b: &[u8], key: &str, expected: &str, ranges: &mut Vec<(usize, usize)>)
    requires
        ranges_within(ranges_view(old(ranges)@), b@.len() as int),
    ensures
        ranges_view(final(ranges)@) == ranges_view(old(ranges)@) + default_ranges_for(
            b@,
            key@,
            expected@,
        ),
        ranges_within(ranges_view(final(ranges)@), b@.len() as int),
{
    let key_pat = key_pattern_exec(key);
    let expected_bytes = ascii_pattern(expected);
    let mut field: Vec<u8> = key_pat.clone();
    let mut i: usize = 0;
    while i < expected_bytes.len()
        invariant
            i <= expected_bytes@.len(),
            field@ =~= key_pat@ + expected_bytes@.subrange(0, i as int),
        decreases expected_bytes.len() - i,
    {
        field.push(expected_bytes[i]);
        i = i + 1;
        assert(field@ =~= key_pat@ + expected_bytes@.subrange(0, i as int));
    }
    assert(expected_bytes@.subrange(0, expected_bytes@.len() as int) =~= expected_bytes@);
    push_default_field_ranges(b, key_pat.len(), field.as_slice(), ranges);
}

fn push_optional(ranges: &mut Vec<(usize, usize)>, r: Option<(usize, usize)>, Ghost(n): Ghost<int>)
    requires
        ranges_within(ranges_view(old(ranges)@), n),
        r matches Some(p) ==> p.0 <= p.1 <= n,
    ensures
        ranges_within(ranges_view(final(ranges)@), n),
        ranges_view(final(ranges)@) == ranges_view(old(ranges)@) + optional_range(
            match r {
                Some(p) => Some((p.0 as int, p.1 as int)),
                None => None,
            },
        ),
{
    match r {
        Some(p) => {
            let ghost before = ranges_view(ranges@);
            ranges.push(p);
            assert(ranges_view(ranges@) =~= before + seq![(p.0 as int, p.1 as int)]);
        },
        None => {
            assert(ranges_view(ranges@) + Seq::<(int, int)>::empty() =~= ranges_view(ranges@));
        },
    }
}

proof fn lemma_take_to_set_step(s: Seq<(int, int)>, i: int)
    requires
        0 <= i < s.len(),
    ensures
        s.take(i + 1).to_set() == s.take(i).to_set().insert(s[i]),
{
    let a = s.take(i + 1);
    let c = s.take(i);
    assert forall|x: (int, int)| a.to_set().contains(x) <==> c.to_set().insert(s[i]).contains(x) by {
        if a.contains(x) {
            let k = choose|k: int| 0 <= k < a.len() && a[k] == x;
            if k < i {
                assert(c[k] == x);
            }
        }
        if c.contains(x) {
            let k = choose|k: int| 0 <= k < c.len() && c[k] == x;
            assert(a[k] == x);
        }
        if x == s[i] {
            assert(a[i] == x);
        }
    }
    assert(a.to_set() =~= c.to_set().insert(s[i]));
}

/// The distinct ranges of `collected`, ascending: `sorted_distinct` of them.
fn sort_distinct(collected: &Vec<(usize, usize)>, Ghost(n): Ghost<int>) -> (r: Vec<(usize, usize)>)
    requires
        ranges_within(ranges_view(collected@), n),
    ensures
        ranges_view(r@) == sorted_distinct(ranges_view(collected@)),
        strictly_sorted(ranges_view(r@)),
        ranges_within(ranges_view(r@), n),
{
    let ghost cv = ranges_view(collected@);
    let mut sorted: Vec<(usize, usize)> = Vec::new();
    let mut i: usize = 0;
    assert(ranges_view(sorted@).to_set() =~= cv.take(0).to_set());
    while i < collected.len()
        invariant
            i <= collected@.len(),
            cv == ranges_view(collected@),
            strictly_sorted(ranges_view(sorted@)),
            ranges_view(sorted@).to_set() == cv.take(i as int).to_set(),
        decreases collected@.len() - i,
    {
        proof {
            lemma_take_to_set_step(cv, i as int);
        }
        assert(cv[i as int] == (collected@[i as int].0 as int, collected@[i as int].1 as int));
        insert_sorted_distinct(&mut sorted, collected[i]);
        i = i + 1;
    }
    let ghost sv = ranges_view(sorted@);
    proof {
        assert(cv.take(cv.len() as int) =~= cv);
        assert(strictly_sorted(sv) && sv.to_set() == cv.to_set());
        let t = sorted_distinct(cv);
        lemma_strictly_sorted_unique(t, sv);
        assert forall|k: int| 0 <= k < sv.len() implies 0 <= #[trigger] sv[k].0 <= sv[k].1 <= n by {
            assert(sv.to_set().contains(sv[k]));
            assert(cv.contains(sv[k]));
            let j = choose|j: int| 0 <= j < cv.len() && cv[j] == sv[k];
        }
    }
    sorted
}

/// The fingerprint by which a forked rollout's replayed records are matched
/// against its parent's. It ignores what a replay changes: the envelope
/// timestamp, response ids, defaulted fields and a null `content`.
pub fn fast_record_hash(line: &str) -> (h: u64)
    ensures
        h == record_hash(line@),
{
    let b = line.as_bytes();
    let len = b.len();
    let ghost bv = b@;
    let ghost n = len as int;
    let mut collected: Vec<(usize, usize)> = Vec::new();
    let ts_pat = key_pattern_exec("timestamp");
    let ts = field_range_exec(b, ts_pat.as_slice(), true);
    push_optional(&mut collected, ts, Ghost(n));
    let ghost timestamp_part = ranges_view(collected@);
    let probe_end = floor_char_boundary(line, if len <= PROBE_BYTES { len } else { PROBE_BYTES });
    let probe = prefix_bytes(b, probe_end);
    let short = len <= FULL_HASH_BYTES;
    if short {
        push_default_ranges_for(b, "local_audio", "[]", &mut collected);
        push_default_ranges_for(b, "cache_write_input_tokens", "0", &mut collected);
        push_default_ranges_for(b, "spend_control_reached", "null", &mut collected);
        push_default_ranges_for(b, "history_mode", "\"legacy\"", &mut collected);
        push_default_ranges_for(b, "history_base", "null", &mut collected);
        push_default_ranges_for(b, "subagent_history_start_ordinal", "null", &mut collected);
        push_default_ranges_for(b, "parent_thread_id", "null", &mut collected);
        assert(ranges_view(collected@) =~= timestamp_part + default_value_ranges(bv));
    } else {
        assert(ranges_view(collected@) =~= timestamp_part + Seq::<(int, int)>::empty());
    }
    let ghost before_response = ranges_view(collected@);
    let response_pat = ascii_pattern("\"type\":\"response_item\"");
    if find_from(probe.as_slice(), response_pat.as_slice(), 0).is_some() {
        let id_pat = key_pattern_exec("id");
        let id = field_range_exec(b, id_pat.as_slice(), true);
        push_optional(&mut collected, id, Ghost(n));
        let ghost with_id = ranges_view(collected@);
        let null_content = ascii_pattern("\"content\":null");
        if short && find_from(probe.as_slice(), null_content.as_slice(), 0).is_some() {
            let content_pat = key_pattern_exec("content");
            let content = field_range_exec(b, content_pat.as_slice(), false);
            push_optional(&mut collected, content, Ghost(n));
        } else {
            assert(ranges_view(collected@) =~= with_id + Seq::<(int, int)>::empty());
        }
    } else {
        assert(ranges_view(collected@) =~= before_response + Seq::<(int, int)>::empty());
    }
    assert(ranges_view(collected@) =~= excluded_ranges(bv));
    let sorted = sort_distinct(&collected, Ghost(n));
    let ghost r = ranges_view(sorted@);
    let te = trimmed_byte_len(line);
    proof {
        lemma_trimmed_within(line@);
    }
    let mut removed: usize = 0;
    let mut i: usize = 0;
    while i < sorted.len()
        invariant
            i <= sorted@.len(),
            r == ranges_view(sorted@),
            removed <= te,
            removed == if removed_bytes(r.take(i as int), te as int) >= te {
                te as int
            } else {
                removed_bytes(r.take(i as int), te as int)
            },
        decreases sorted@.len() - i,
    {
        let (start, end) = sorted[i];
        assert(r.take(i + 1).drop_last() =~= r.take(i as int));
        assert(r.take(i + 1).last() == (start as int, end as int));
        let last_end = if end < te { end } else { te };
        let term = if last_end > start { last_end - start } else { 0 };
        if term >= te - removed {
            removed = te;
        } else {
            removed = removed + term;
        }
        i = i + 1;
    }
    assert(r.take(r.len() as int) =~= r);
    let retained = te - removed;
    let mut hasher = StableFnvHasher::new();
    hasher.write_len(retained as u64);
    let ghost h = hasher@;
    if te <= FULL_HASH_BYTES {
        hash_range_excluding(b, 0, te, sorted.as_slice(), &mut hasher);
    } else {
        let head_end = floor_char_boundary(line, EDGE_SAMPLE_BYTES);
        let tail_start = ceil_char_boundary(line, te - EDGE_SAMPLE_BYTES);
        hash_range_excluding(b, 0, head_end, sorted.as_slice(), &mut hasher);
        hash_range_excluding(b, tail_start, te, sorted.as_slice(), &mut hasher);
        proof {
            lemma_fnv_concat(
                h,
                kept(bv, 0, head_end as int, r),
                kept(bv, tail_start as int, te as int, r),
            );
        }
    }
    hasher.finish()
}

} // verus!
