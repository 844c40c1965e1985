//! The order `str` values compare by (lexicographic over code points, which
//! is the order of their UTF-8 bytes), with sorting and maximum helpers.
use vstd::prelude::*;

use crate::text::chars_of;

verus! {

/// `a < b` as `str` compares them.
pub open spec fn seq_lt(a: Seq<char>, b: Seq<char>) -> bool
    decreases a.len(),
{
    if a.len() == 0 {
        b.len() > 0
    } else if b.len() == 0 {
        false
    } else if a[0] != b[0] {
        a[0] < b[0]
    } else {
        seq_lt(a.drop_first(), b.drop_first())
    }
}

pub proof fn lemma_seq_lt_irreflexive(a: Seq<char>)
    ensures
        !seq_lt(a, a),
    decreases a.len(),
{
    if a.len() > 0 {
        lemma_seq_lt_irreflexive(a.drop_first());
    }
}

pub proof fn lemma_seq_lt_transitive(a: Seq<char>, b: Seq<char>, c: Seq<char>)
    requires
        seq_lt(a, b),
        seq_lt(b, c),
    ensures
        seq_lt(a, c),
    decreases a.len(),
{
    if a.len() > 0 && b.len() > 0 && c.len() > 0 && a[0] == b[0] && b[0] == c[0] {
        lemma_seq_lt_transitive(a.drop_first(), b.drop_first(), c.drop_first());
    }
}

/// Two different strings are ordered one way or the other.
pub proof fn lemma_seq_lt_total(a: Seq<char>, b: Seq<char>)
    ensures
        seq_lt(a, b) || seq_lt(b, a) || a == b,
    decreases a.len(),
{
    if a.len() > 0 && b.len() > 0 {
        if a[0] == b[0] {
            lemma_seq_lt_total(a.drop_first(), b.drop_first());
            if a.drop_first() == b.drop_first() {
                assert(a =~= seq![a[0]] + a.drop_first());
                assert(b =~= seq![b[0]] + b.drop_first());
                assert(a =~= b);
            }
        }
    } else if a.len() == 0 && b.len() == 0 {
        assert(a =~= b);
    }
}

/// `a < b` for character slices.
pub fn chars_lt(a: &[char], b: &[char]) -> (r: bool)
    ensures
        r == seq_lt(a@, b@),
{
    let mut i: usize = 0;
    assert(a@.skip(0) =~= a@ && b@.skip(0) =~= b@);
    while i < a.len() && i < b.len() && a[i] == b[i]
        invariant
            i <= a@.len(),
            i <= b@.len(),
            seq_lt(a@, b@) == seq_lt(a@.skip(i as int), b@.skip(i as int)),
        decreases a@.len() - i,
    {
        assert(a@.skip(i as int).drop_first() =~= a@.skip(i + 1));
        assert(b@.skip(i as int).drop_first() =~= b@.skip(i + 1));
        i = i + 1;
    }
    if i == a.len() {
        i < b.len()
    } else if i == b.len() {
        false
    } else {
        a[i] < b[i]
    }
}

/// `a < b` for strings.
pub fn str_lt(a: &str, b: &str) -> (r: bool)
    ensures
        r == seq_lt(a@, b@),
{
    let av = chars_of(a);
    let bv = chars_of(b);
    chars_lt(av.as_slice(), bv.as_slice())
}

/// The texts of a sequence of strings.
pub open spec fn texts(s: Seq<String>) -> Seq<Seq<char>> {
    s.map_values(|x: String| x@)
}

/// Strictly increasing, hence without repeats.
pub open spec fn strictly_ascending(s: Seq<Seq<char>>) -> bool {
    forall|i: int, j: int| 0 <= i < j < s.len() ==> seq_lt(#[trigger] s[i], #[trigger] s[j])
}

/// A strictly ascending sequence is fixed by its set of elements.
pub proof fn lemma_ascending_unique(a: Seq<Seq<char>>, b: Seq<Seq<char>>)
    requires
        strictly_ascending(a),
        strictly_ascending(b),
        a.to_set() == b.to_set(),
    ensures
        a == b,
    decreases a.len(),
{
    if a.len() == 0 {
        if b.len() > 0 {
            assert(b.to_set().contains(b[0]));
        }
        assert(a =~= b);
    } else {
        assert(a.to_set().contains(a[0]));
        assert(b.len() > 0);
        assert(b.to_set().contains(b[0]));
        let i = choose|i: int| 0 <= i < a.len() && a[i] == b[0];
        let j = choose|j: int| 0 <= j < b.len() && b[j] == a[0];
        if a[0] != b[0] {
            assert(i > 0 && j > 0);
            assert(seq_lt(a[0], a[i]));
            assert(seq_lt(b[0], b[j]));
            lemma_seq_lt_transitive(a[0], b[0], a[0]);
            lemma_seq_lt_irreflexive(a[0]);
        }
        let ar = a.drop_first();
        let br = b.drop_first();
        assert forall|x: Seq<char>| ar.to_set().contains(x) implies br.to_set().contains(x) by {
            let k = choose|k: int| 0 <= k < ar.len() && ar[k] == x;
            assert(a[k + 1] == x);
            assert(seq_lt(a[0], x));
            assert(b.to_set().contains(x));
            let q = choose|q: int| 0 <= q < b.len() && b[q] == x;
            if q == 0 {
                lemma_seq_lt_irreflexive(x);
            }
            assert(br[q - 1] == x);
        }
        assert forall|x: Seq<char>| br.to_set().contains(x) implies ar.to_set().contains(x) by {
            let k = choose|k: int| 0 <= k < br.len() && br[k] == x;
            assert(b[k + 1] == x);
            assert(seq_lt(b[0], x));
            assert(a.to_set().contains(x));
            let q = choose|q: int| 0 <= q < a.len() && a[q] == x;
            if q == 0 {
                lemma_seq_lt_irreflexive(x);
            }
            assert(ar[q - 1] == x);
        }
        assert(ar.to_set() =~= br.to_set());
        lemma_ascending_unique(ar, br);
        assert(a =~= seq![a[0]] + ar);
        assert(b =~= seq![b[0]] + br);
    }
}

/// Each element is at least as large as every later one.
pub open spec fn descending(s: Seq<Seq<char>>) -> bool {
    forall|i: int, j: int| 0 <= i < j < s.len() ==> !seq_lt(#[trigger] s[i], #[trigger] s[j])
}

/// Adds `x` to a strictly ascending list unless it is already there.
pub fn insert_ascending_unique(v: &mut Vec<String>, x: String)
    requires
        strictly_ascending(texts(old(v)@)),
    ensures
        strictly_ascending(texts(final(v)@)),
        texts(final(v)@).to_set() == texts(old(v)@).to_set().insert(x@),
{
    let ghost x_text = x@;
    let mut pos: usize = 0;
    while pos < v.len() && str_lt(v[pos].as_str(), x.as_str())
        invariant
            pos <= v@.len(),
            x@ == x_text,
            strictly_ascending(texts(v@)),
            forall|k: int| 0 <= k < pos ==> seq_lt(#[trigger] texts(v@)[k], x_text),
        decreases v@.len() - pos,
    {
        pos = pos + 1;
    }
    let ghost old_t = texts(v@);
    if pos < v.len() && crate::text::str_eq(v[pos].as_str(), x.as_str()) {
        assert(old_t.to_set().insert(x_text) =~= old_t.to_set()) by {
            assert(old_t[pos as int] == x_text);
        }
        return;
    }
    proof {
        if pos < old_t.len() {
            lemma_seq_lt_total(old_t[pos as int], x_text);
        }
    }
    v.insert(pos, x);
    let ghost new_t = texts(v@);
    assert(new_t =~= old_t.insert(pos as int, x_text));
    assert forall|i: int, j: int| 0 <= i < j < new_t.len() implies seq_lt(#[trigger] new_t[i], #[trigger] new_t[j]) by {
        if j < pos {
        } else if j == pos {
        } else if i < pos {
            // new_t[i] < x <= new_t[pos + 1] <= new_t[j]
            lemma_seq_lt_transitive(new_t[i], x_text, new_t[pos + 1]);
            if j > pos + 1 {
                lemma_seq_lt_transitive(new_t[i], new_t[pos + 1], new_t[j]);
            }
        } else if i == pos {
            if j > pos + 1 {
                lemma_seq_lt_transitive(x_text, new_t[pos + 1], new_t[j]);
            }
        }
    }
    assert(new_t.to_set() =~= old_t.to_set().insert(x_text)) by {
        assert forall|t: Seq<char>| new_t.to_set().contains(t) implies old_t.to_set().insert(x_text).contains(t) by {
            let k = choose|k: int| 0 <= k < new_t.len() && new_t[k] == t;
            if k < pos {
                assert(old_t[k] == t);
            } else if k > pos {
                assert(old_t[k - 1] == t);
            }
        }
        assert forall|t: Seq<char>| old_t.to_set().insert(x_text).contains(t) implies new_t.to_set().contains(t) by {
            if t == x_text {
                assert(new_t[pos as int] == t);
            } else {
                let k = choose|k: int| 0 <= k < old_t.len() && old_t[k] == t;
                if k < pos {
                    assert(new_t[k] == t);
                } else {
                    assert(new_t[k + 1] == t);
                }
            }
        }
    }
}

/// The strings of `v` from the largest to the smallest.
pub fn sort_descending(v: Vec<String>) -> (r: Vec<String>)
    ensures
        descending(texts(r@)),
        texts(r@).to_multiset() == texts(v@).to_multiset(),
{
    let mut out: Vec<String> = Vec::new();
    let mut rest = v;
    let ghost total = texts(rest@).to_multiset();
    proof {
        broadcast use vstd::seq_lib::group_to_multiset_ensures;
        assert(texts(out@) =~= Seq::<Seq<char>>::empty());
    }
    while rest.len() > 0
        invariant
            descending(texts(out@)),
            texts(out@).to_multiset().add(texts(rest@).to_multiset()) == total,
        decreases rest@.len(),
    {
        let ghost before_rest = texts(rest@);
        let x = rest.pop().unwrap();
        let ghost x_text = x@;
        proof {
            broadcast use vstd::seq_lib::group_to_multiset_ensures;
            assert(before_rest =~= texts(rest@).push(x_text));
        }
        let mut pos: usize = 0;
        while pos < out.len() && !str_lt(out[pos].as_str(), x.as_str())
            invariant
                pos <= out@.len(),
                x@ == x_text,
                descending(texts(out@)),
                forall|k: int| 0 <= k < pos ==> !seq_lt(#[trigger] texts(out@)[k], x_text),
            decreases out@.len() - pos,
        {
            pos = pos + 1;
        }
        let ghost old_t = texts(out@);
        out.insert(pos, x);
        let ghost new_t = texts(out@);
        assert(new_t =~= old_t.insert(pos as int, x_text));
        assert forall|i: int, j: int| 0 <= i < j < new_t.len() implies !seq_lt(#[trigger] new_t[i], #[trigger] new_t[j]) by {
            if j < pos || i > pos {
                if i > pos {
                    assert(new_t[i] == old_t[i - 1] && new_t[j] == old_t[j - 1]);
                }
            } else if j == pos {
            } else if i < pos {
                assert(new_t[i] == old_t[i] && new_t[j] == old_t[j - 1]);
            } else {
                let y = old_t[j - 1];
                let p = old_t[pos as int];
                assert(new_t[j] == y);
                lemma_seq_lt_total(p, y);
                if seq_lt(x_text, y) {
                    if y == p {
                        lemma_seq_lt_transitive(x_text, p, x_text);
                    } else {
                        lemma_seq_lt_transitive(x_text, y, p);
                        lemma_seq_lt_transitive(x_text, p, x_text);
                    }
                    lemma_seq_lt_irreflexive(x_text);
                }
            }
        }
        proof {
            broadcast use vstd::seq_lib::group_to_multiset_ensures;
            vstd::seq_lib::to_multiset_insert(old_t, pos as int, x_text);
            assert(texts(out@).to_multiset() == old_t.to_multiset().insert(x_text));
            assert(texts(out@).to_multiset().add(texts(rest@).to_multiset()) =~= total);
        }
    }
    proof {
        assert(texts(rest@).to_multiset() =~= vstd::multiset::Multiset::<Seq<char>>::empty()) by {
            broadcast use vstd::seq_lib::group_to_multiset_ensures;
        }
        assert(texts(out@).to_multiset().add(vstd::multiset::Multiset::<Seq<char>>::empty()) =~= texts(out@).to_multiset());
    }
    out
}

/// The largest string of `v`, as `Iterator::max` picks it.
pub fn max_string(v: &Vec<String>) -> (r: Option<String>)
    ensures
        v@.len() == 0 <==> r is None,
        r matches Some(m) ==> texts(v@).contains(m@) && forall|k: int|
            0 <= k < v@.len() ==> !seq_lt(m@, #[trigger] texts(v@)[k]),
{
    if v.len() == 0 {
        return None;
    }
    let mut best: usize = 0;
    let mut i: usize = 1;
    proof {
        lemma_seq_lt_irreflexive(texts(v@)[0]);
    }
    while i < v.len()
        invariant
            1 <= i <= v@.len(),
            best < i,
            forall|k: int| 0 <= k < i ==> !seq_lt(texts(v@)[best as int], #[trigger] texts(v@)[k]),
        decreases v@.len() - i,
    {
        if !str_lt(v[i].as_str(), v[best].as_str()) {
            proof {
                lemma_seq_lt_total(texts(v@)[i as int], texts(v@)[best as int]);
                assert forall|k: int| 0 <= k < i + 1 implies !seq_lt(texts(v@)[i as int], #[trigger] texts(v@)[k]) by {
                    if k < i && seq_lt(texts(v@)[i as int], texts(v@)[k]) {
                        if seq_lt(texts(v@)[best as int], texts(v@)[i as int]) {
                            lemma_seq_lt_transitive(texts(v@)[best as int], texts(v@)[i as int], texts(v@)[k]);
                        }
                    }
                    if k == i {
                        lemma_seq_lt_irreflexive(texts(v@)[i as int]);
                    }
                }
            }
            best = i;
        } else {
            proof {
                assert forall|k: int| 0 <= k < i + 1 implies !seq_lt(texts(v@)[best as int], #[trigger] texts(v@)[k]) by {
                    if k == i && seq_lt(texts(v@)[best as int], texts(v@)[k]) {
                        lemma_seq_lt_transitive(texts(v@)[best as int], texts(v@)[k], texts(v@)[best as int]);
                        lemma_seq_lt_irreflexive(texts(v@)[best as int]);
                    }
                }
            }
        }
        i = i + 1;
    }
    let m = v[best].clone();
    assert(texts(v@)[best as int] == v@[best as int]@);
    Some(m)
}

} // verus!
