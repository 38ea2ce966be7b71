//! Median aggregation: the value a round finalizes with is the element at
//! index `n / 2` of the ascending ordering of the `n` submitted values — the
//! true median for odd `n`, the upper of the two middle values for even `n`,
//! never an average.

use vstd::prelude::*;
use vstd::relations::{sorted_by, total_ordering};
use vstd::seq_lib::lemma_sorted_unique;

verus! {

/// The ascending order on submitted values.
pub open spec fn value_le() -> spec_fn(i128, i128) -> bool {
    |a: i128, b: i128| a <= b
}

/// The canonical ascending ordering of a value sequence.
pub open spec fn sorted_version(s: Seq<i128>) -> Seq<i128> {
    s.sort_by(value_le())
}

/// The aggregated value of a round that collected the values `s`, in
/// submission order: the element at index `len / 2` of the ascending
/// ordering.
pub open spec fn median_of(s: Seq<i128>) -> i128 {
    sorted_version(s)[s.len() as int / 2]
}

pub proof fn lemma_value_le_total_ordering()
    ensures
        total_ordering(value_le()),
{
    assert forall|a: i128| #[trigger] value_le()(a, a) by {}
}

/// The sorted ordering keeps exactly the submitted values.
pub proof fn lemma_sorted_version_ensures(s: Seq<i128>)
    ensures
        sorted_version(s).to_multiset() == s.to_multiset(),
        sorted_version(s).len() == s.len(),
        sorted_by(sorted_version(s), value_le()),
{
    broadcast use vstd::seq_lib::group_to_multiset_ensures;

    lemma_value_le_total_ordering();
    s.lemma_sort_by_ensures(value_le());
    assert(sorted_version(s).to_multiset() =~= s.to_multiset());
    assert(s.to_multiset().len() == s.len());
    assert(sorted_version(s).to_multiset().len() == sorted_version(s).len());
}

/// An aggregated value is always one of the submitted values: the median rule
/// selects, it never averages or invents.
pub proof fn lemma_median_is_submitted(s: Seq<i128>)
    requires
        s.len() >= 1,
    ensures
        s.contains(median_of(s)),
{
    broadcast use vstd::seq_lib::group_to_multiset_ensures;

    lemma_sorted_version_ensures(s);
    let sorted = sorted_version(s);
    let mid = s.len() as int / 2;
    assert(sorted.contains(sorted[mid]));
    assert(sorted.to_multiset().count(sorted[mid]) > 0);
    assert(s.to_multiset().count(sorted[mid]) > 0);
}

proof fn lemma_insert_to_multiset(s: Seq<i128>, p: int, x: i128)
    requires
        0 <= p <= s.len(),
    ensures
        s.insert(p, x).to_multiset() == s.to_multiset().insert(x),
    decreases s.len(),
{
    broadcast use vstd::seq_lib::group_to_multiset_ensures;
    broadcast use vstd::multiset::group_multiset_axioms;

    let t = s.insert(p, x);
    if p == s.len() {
        assert(t =~= s.push(x));
    } else {
        assert(t[p] == x);
        assert(t.remove(p) =~= s);
        assert(s.to_multiset() == t.to_multiset().remove(x));
        assert(t.contains(x)) by {
            assert(t[p] == x);
        }
        assert(t.to_multiset().count(x) > 0);
        assert(t.to_multiset().remove(x).insert(x) =~= t.to_multiset());
    }
}

/// Inserts `x` into a vector kept in ascending order, at the first position
/// whose element exceeds it.
fn sorted_insert(out: &mut Vec<i128>, x: i128)
    requires
        sorted_by(old(out)@, value_le()),
    ensures
        sorted_by(final(out)@, value_le()),
        final(out)@.to_multiset() == old(out)@.to_multiset().insert(x),
        final(out)@.len() == old(out)@.len() + 1,
{
    let ghost prev = out@;
    let mut p: usize = 0;
    while p < out.len() && out[p] <= x
        invariant
            p <= out@.len(),
            forall|i: int| 0 <= i < p ==> value_le()(#[trigger] out@[i], x),
            out@ == prev,
            sorted_by(prev, value_le()),
        decreases out@.len() - p,
    {
        p += 1;
    }
    proof {
        assert forall|j: int| p <= j < prev.len() implies !value_le()(#[trigger] prev[j], x) by {
            assert(!value_le()(prev[p as int], x));
            if j > p {
                assert(value_le()(prev[p as int], prev[j]));
            }
        }
        lemma_insert_to_multiset(prev, p as int, x);
    }
    out.insert(p, x);
    proof {
        let s = out@;
        assert(s == prev.insert(p as int, x));
        assert forall|i: int, j: int| 0 <= i < j < s.len() implies #[trigger] value_le()(
            s[i],
            s[j],
        ) by {
            if i == p {
                assert(s[i] == x && s[j] == prev[j - 1] && !value_le()(prev[j - 1], x));
            } else if j == p {
                assert(s[j] == x && s[i] == prev[i] && value_le()(prev[i], x));
            } else if i < p && j < p {
                assert(s[i] == prev[i] && s[j] == prev[j]);
            } else if i < p {
                assert(s[i] == prev[i] && s[j] == prev[j - 1]);
                if i == j - 1 {
                    assert(value_le()(prev[i], x) && !value_le()(prev[j - 1], x));
                }
            } else {
                assert(s[i] == prev[i - 1] && s[j] == prev[j - 1]);
            }
        }
    }
}

/// The aggregated value of a non-empty report round: sorts the values
/// ascending and takes the element at index `n / 2`.
pub fn aggregate_median(values: &Vec<i128>) -> (r: i128)
    requires
        values@.len() >= 1,
    ensures
        r == median_of(values@),
{
    broadcast use vstd::seq_lib::group_to_multiset_ensures;

    let mut sorted: Vec<i128> = Vec::new();
    let mut i: usize = 0;
    while i < values.len()
        invariant
            i <= values@.len(),
            sorted@.len() == i,
            sorted_by(sorted@, value_le()),
            sorted@.to_multiset() == values@.subrange(0, i as int).to_multiset(),
        decreases values@.len() - i,
    {
        sorted_insert(&mut sorted, values[i]);
        proof {
            assert(values@.subrange(0, i + 1) =~= values@.subrange(0, i as int).push(
                values@[i as int],
            ));
            values@.subrange(0, i as int).to_multiset_ensures();
            assert(values@.subrange(0, i as int).push(values@[i as int]).to_multiset()
                =~= values@.subrange(0, i as int).to_multiset().insert(values@[i as int]));
        }
        i += 1;
    }
    proof {
        assert(values@.subrange(0, values@.len() as int) =~= values@);
        lemma_sorted_version_ensures(values@);
        lemma_value_le_total_ordering();
        lemma_sorted_unique(sorted@, sorted_version(values@), value_le());
        assert(sorted@ =~= sorted_version(values@));
    }
    sorted[values.len() / 2]
}

} // verus!
