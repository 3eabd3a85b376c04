//! Top-n selection of scored entities.
//!
//! Entities are ordered by score, descending, with NaN scores last; equal
//! scores are ordered by entity identifier (byte-wise), so the result does not
//! depend on the order in which the entries are supplied.

use core::cmp::Ordering;
use vstd::prelude::*;
use vstd::utf8::{encode_utf8, encode_utf8_decode_utf8};

verus! {

broadcast use vstd::seq_lib::group_to_multiset_ensures;

/// The position of a score in the ranking order.
///
/// `order` is the key of the score in the IEEE 754 total order (larger ranks
/// first); `is_nan` marks NaN scores, which rank after all others.
#[derive(Debug, Clone, Copy, PartialEq, Eq, Structural)]
pub struct ScoreOrder {
    /// The score is NaN.
    pub is_nan: bool,
    /// Key of the score in the total order.
    pub order: i64,
}

/// Lexicographic byte order.
pub open spec fn bytes_lt(a: Seq<u8>, b: Seq<u8>) -> bool
    decreases a.len(),
{
    if a.len() == 0 {
        b.len() > 0
    } else if b.len() == 0 {
        false
    } else if a[0] != b[0] {
        a[0] < b[0]
    } else {
        bytes_lt(a.drop_first(), b.drop_first())
    }
}

/// What the ranking reads of an entry: the identifier's characters and the
/// score's position.
pub open spec fn entry_key(e: (String, ScoreOrder)) -> (Seq<char>, ScoreOrder) {
    (e.0@, e.1)
}

/// `a` ranks strictly before `b`: non-NaN before NaN, then higher score first,
/// then smaller identifier (by UTF-8 bytes) first.
pub open spec fn ranks_before(a: (Seq<char>, ScoreOrder), b: (Seq<char>, ScoreOrder)) -> bool {
    if a.1.is_nan != b.1.is_nan {
        !a.1.is_nan
    } else if a.1.order != b.1.order {
        a.1.order > b.1.order
    } else {
        bytes_lt(encode_utf8(a.0), encode_utf8(b.0))
    }
}

/// No key ranks before an earlier one.
pub open spec fn keys_ranked(keys: Seq<(Seq<char>, ScoreOrder)>) -> bool {
    forall|i: int, j: int| 0 <= i < j < keys.len() ==> !ranks_before(keys[j], keys[i])
}

/// The keys of the entries, in order.
pub open spec fn keys_of(entries: Seq<(String, ScoreOrder)>) -> Seq<(Seq<char>, ScoreOrder)> {
    entries.map_values(|e: (String, ScoreOrder)| entry_key(e))
}

proof fn lemma_bytes_lt_irreflexive(a: Seq<u8>)
    ensures
        !bytes_lt(a, a),
    decreases a.len(),
{
    if a.len() > 0 {
        lemma_bytes_lt_irreflexive(a.drop_first());
    }
}

proof fn lemma_bytes_lt_transitive(a: Seq<u8>, b: Seq<u8>, c: Seq<u8>)
    requires
        bytes_lt(a, b),
        bytes_lt(b, c),
    ensures
        bytes_lt(a, c),
    decreases a.len(),
{
    if a.len() > 0 && b.len() > 0 && c.len() > 0 && a[0] == b[0] && b[0] == c[0] {
        lemma_bytes_lt_transitive(a.drop_first(), b.drop_first(), c.drop_first());
    }
}

proof fn lemma_bytes_lt_total(a: Seq<u8>, b: Seq<u8>)
    requires
        a != b,
    ensures
        bytes_lt(a, b) || bytes_lt(b, a),
    decreases a.len(),
{
    if a.len() == 0 {
        assert(b.len() > 0) by {
            if b.len() == 0 {
                assert(a =~= b);
            }
        }
    } else if b.len() > 0 && a[0] == b[0] {
        if a.drop_first() == b.drop_first() {
            assert(a =~= b.drop_first().insert(0, a[0]));
            assert(b =~= b.drop_first().insert(0, b[0]));
        }
        lemma_bytes_lt_total(a.drop_first(), b.drop_first());
    }
}

/// `ranks_before` is a strict total order on keys: irreflexive, transitive,
/// and any two different keys are ordered one way or the other.
pub proof fn lemma_ranks_before_strict_total_order(
    a: (Seq<char>, ScoreOrder),
    b: (Seq<char>, ScoreOrder),
    c: (Seq<char>, ScoreOrder),
)
    ensures
        !ranks_before(a, a),
        ranks_before(a, b) && ranks_before(b, c) ==> ranks_before(a, c),
        a != b ==> ranks_before(a, b) || ranks_before(b, a),
        !(ranks_before(a, b) && ranks_before(b, a)),
{
    lemma_bytes_lt_irreflexive(encode_utf8(a.0));
    if ranks_before(a, b) && ranks_before(b, c) && a.1 == b.1 && b.1 == c.1 {
        lemma_bytes_lt_transitive(encode_utf8(a.0), encode_utf8(b.0), encode_utf8(c.0));
    }
    if a != b && a.1 == b.1 {
        if encode_utf8(a.0) == encode_utf8(b.0) {
            encode_utf8_decode_utf8(a.0);
            encode_utf8_decode_utf8(b.0);
        }
        lemma_bytes_lt_total(encode_utf8(a.0), encode_utf8(b.0));
    }
    if ranks_before(a, b) && ranks_before(b, a) {
        lemma_bytes_lt_transitive(encode_utf8(a.0), encode_utf8(b.0), encode_utf8(a.0));
    }
}

/// Sequences holding the same keys (with multiplicity) in ranked order are
/// equal: the ranking of a collection of keys is unique.
pub proof fn lemma_ranked_keys_unique(k1: Seq<(Seq<char>, ScoreOrder)>, k2: Seq<(Seq<char>, ScoreOrder)>)
    requires
        keys_ranked(k1),
        keys_ranked(k2),
        k1.to_multiset() == k2.to_multiset(),
    ensures
        k1 == k2,
    decreases k1.len(),
{
    assert(k1.len() == k1.to_multiset().len());
    assert(k2.len() == k2.to_multiset().len());
    if k1.len() == 0 {
        assert(k1 =~= k2);
    } else {
        let x = k1[0];
        let y = k2[0];
        assert(k1.contains(x));
        assert(k1.to_multiset().count(x) > 0);
        assert(k2.contains(x));
        assert(k2.contains(y));
        assert(k2.to_multiset().count(y) > 0);
        assert(k1.contains(y));
        let i = choose|i: int| 0 <= i < k2.len() && k2[i] == x;
        let j = choose|j: int| 0 <= j < k1.len() && k1[j] == y;
        if x != y {
            lemma_ranks_before_strict_total_order(x, y, x);
            if ranks_before(x, y) {
                assert(i > 0);
                assert(!ranks_before(k2[i], k2[0]));
            } else {
                assert(j > 0);
                assert(!ranks_before(k1[j], k1[0]));
            }
        }
        let t1 = k1.drop_first();
        let t2 = k2.drop_first();
        assert(k1 =~= t1.insert(0, x));
        assert(k2 =~= t2.insert(0, x));
        assert(t1 =~= k1.remove(0));
        assert(t2 =~= k2.remove(0));
        assert(t1.to_multiset() =~= k1.to_multiset().remove(x));
        assert(t2.to_multiset() =~= k2.to_multiset().remove(x));
        assert(keys_ranked(t1)) by {
            assert forall|a: int, b: int| 0 <= a < b < t1.len() implies !ranks_before(t1[b], t1[a]) by {
                assert(t1[a] == k1[a + 1] && t1[b] == k1[b + 1]);
            }
        }
        assert(keys_ranked(t2)) by {
            assert forall|a: int, b: int| 0 <= a < b < t2.len() implies !ranks_before(t2[b], t2[a]) by {
                assert(t2[a] == k2[a + 1] && t2[b] == k2[b + 1]);
            }
        }
        lemma_ranked_keys_unique(t1, t2);
    }
}

/// Permuting entries permutes their keys.
pub proof fn lemma_keys_of_permutation(e1: Seq<(String, ScoreOrder)>, e2: Seq<(String, ScoreOrder)>)
    requires
        e1.to_multiset() == e2.to_multiset(),
    ensures
        keys_of(e1).to_multiset() == keys_of(e2).to_multiset(),
    decreases e1.len(),
{
    assert(e1.len() == e1.to_multiset().len());
    assert(e2.len() == e2.to_multiset().len());
    if e1.len() == 0 {
        assert(e2.len() == 0);
        assert(keys_of(e1) =~= keys_of(e2));
    } else {
        let x = e1[0];
        assert(e1.contains(x));
        assert(e1.to_multiset().count(x) > 0);
        assert(e2.contains(x));
        let i = choose|i: int| 0 <= i < e2.len() && e2[i] == x;
        let t1 = e1.remove(0);
        let t2 = e2.remove(i);
        assert(t1.to_multiset() =~= e1.to_multiset().remove(x));
        assert(t2.to_multiset() =~= e2.to_multiset().remove(x));
        lemma_keys_of_permutation(t1, t2);
        assert(keys_of(t1) =~= keys_of(e1).remove(0));
        assert(keys_of(t2) =~= keys_of(e2).remove(i));
        assert(keys_of(t1).to_multiset() =~= keys_of(e1).to_multiset().remove(entry_key(x)));
        assert(keys_of(t2).to_multiset() =~= keys_of(e2).to_multiset().remove(entry_key(x)));
        assert(keys_of(e1).to_multiset().count(entry_key(x)) > 0) by {
            assert(keys_of(e1)[0] == entry_key(x));
            assert(keys_of(e1).contains(entry_key(x)));
        }
        assert(keys_of(e2).to_multiset().count(entry_key(x)) > 0) by {
            assert(keys_of(e2)[i] == entry_key(x));
            assert(keys_of(e2).contains(entry_key(x)));
        }
        assert(keys_of(e1).to_multiset() =~= keys_of(t1).to_multiset().insert(entry_key(x)));
        assert(keys_of(e2).to_multiset() =~= keys_of(t2).to_multiset().insert(entry_key(x)));
    }
}

/// Lexicographic byte comparison.
fn bytes_before(a: &[u8], b: &[u8]) -> (before: bool)
    ensures
        before == bytes_lt(a@, b@),
{
    let mut i: usize = 0;
    proof {
        assert(a@.skip(0) =~= a@);
        assert(b@.skip(0) =~= b@);
    }
    while i < a.len() && i < b.len()
        invariant
            i <= a@.len(),
            i <= b@.len(),
            bytes_lt(a@, b@) == bytes_lt(a@.skip(i as int), b@.skip(i as int)),
        decreases a@.len() - i,
    {
        if a[i] != b[i] {
            return a[i] < b[i];
        }
        proof {
            assert(a@.skip(i as int).drop_first() =~= a@.skip(i as int + 1));
            assert(b@.skip(i as int).drop_first() =~= b@.skip(i as int + 1));
        }
        i = i + 1;
    }
    a.len() < b.len()
}

/// Three-way comparison in ranking order.
fn compare_ranked(a: &(String, ScoreOrder), b: &(String, ScoreOrder)) -> (o: Ordering)
    ensures
        o == Ordering::Less <==> ranks_before(entry_key(*a), entry_key(*b)),
        o == Ordering::Greater <==> ranks_before(entry_key(*b), entry_key(*a)),
{
    proof {
        lemma_ranks_before_strict_total_order(entry_key(*a), entry_key(*b), entry_key(*a));
    }
    if a.1.is_nan != b.1.is_nan {
        if !a.1.is_nan {
            Ordering::Less
        } else {
            Ordering::Greater
        }
    } else if a.1.order != b.1.order {
        if a.1.order > b.1.order {
            Ordering::Less
        } else {
            Ordering::Greater
        }
    } else {
        let a_bytes = a.0.as_str().as_bytes();
        let b_bytes = b.0.as_str().as_bytes();
        if bytes_before(a_bytes, b_bytes) {
            Ordering::Less
        } else if bytes_before(b_bytes, a_bytes) {
            Ordering::Greater
        } else {
            Ordering::Equal
        }
    }
}

/// `slice::sort_by` with the ranking comparison, a total order: the entries
/// are permuted into ranking order.
#[verifier::external_body]
fn sort_ranked(entries: &mut Vec<(String, ScoreOrder)>)
    ensures
        final(entries)@.to_multiset() == old(entries)@.to_multiset(),
        keys_ranked(keys_of(final(entries)@)),
{
    entries.sort_by(compare_ranked);
}

/// `top` is the first `n` entries (or all of them) of `entries` in ranking order.
pub open spec fn is_top_n(entries: Seq<(String, ScoreOrder)>, n: usize, top: Seq<(String, ScoreOrder)>) -> bool {
    exists|ranked: Seq<(String, ScoreOrder)>|
        #![trigger ranked.to_multiset()]
        ranked.to_multiset() == entries.to_multiset() && keys_ranked(keys_of(ranked)) && top == ranked.take(
            if n <= entries.len() { n as int } else { entries.len() as int },
        )
}

/// The top-`n` entries, best first: higher scores first, NaN scores last, and
/// equal scores ordered by identifier.
pub fn top_n(entries: Vec<(String, ScoreOrder)>, n: usize) -> (top: Vec<(String, ScoreOrder)>)
    ensures
        top@.len() == if n <= entries@.len() { n as int } else { entries@.len() as int },
        keys_ranked(keys_of(top@)),
        is_top_n(entries@, n, top@),
{
    let mut entries = entries;
    let ghost supplied = entries@;
    sort_ranked(&mut entries);
    let ghost ranked = entries@;
    proof {
        assert(ranked.len() == ranked.to_multiset().len());
        assert(supplied.len() == supplied.to_multiset().len());
    }
    entries.truncate(n);
    proof {
        let k = if n <= supplied.len() { n as int } else { supplied.len() as int };
        assert(entries@ =~= ranked.take(k));
        assert(keys_of(entries@) =~= keys_of(ranked).take(k));
        assert(ranked.to_multiset() == supplied.to_multiset());
    }
    entries
}

/// The top-`n` result does not depend on the order of the entries: inputs
/// holding the same entries give results with the same identifiers and scores,
/// in the same order.
pub proof fn lemma_top_n_independent_of_input_order(
    entries1: Seq<(String, ScoreOrder)>,
    entries2: Seq<(String, ScoreOrder)>,
    n: usize,
    top1: Seq<(String, ScoreOrder)>,
    top2: Seq<(String, ScoreOrder)>,
)
    requires
        entries1.to_multiset() == entries2.to_multiset(),
        is_top_n(entries1, n, top1),
        is_top_n(entries2, n, top2),
    ensures
        keys_of(top1) == keys_of(top2),
{
    let r1 = choose|ranked: Seq<(String, ScoreOrder)>|
        #![trigger ranked.to_multiset()]
        ranked.to_multiset() == entries1.to_multiset() && keys_ranked(keys_of(ranked)) && top1 == ranked.take(
            if n <= entries1.len() { n as int } else { entries1.len() as int },
        );
    let r2 = choose|ranked: Seq<(String, ScoreOrder)>|
        #![trigger ranked.to_multiset()]
        ranked.to_multiset() == entries2.to_multiset() && keys_ranked(keys_of(ranked)) && top2 == ranked.take(
            if n <= entries2.len() { n as int } else { entries2.len() as int },
        );
    lemma_keys_of_permutation(r1, r2);
    lemma_ranked_keys_unique(keys_of(r1), keys_of(r2));
    assert(entries1.len() == entries1.to_multiset().len());
    assert(entries2.len() == entries2.to_multiset().len());
    let k = if n <= entries1.len() { n as int } else { entries1.len() as int };
    assert(keys_of(top1) =~= keys_of(r1).take(k));
    assert(keys_of(top2) =~= keys_of(r2).take(k));
}

} // verus!
