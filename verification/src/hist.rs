//! Histograms over a sequence of values.
//!
//! A histogram of `vals` is a dense vector `h` with one slot per value from 0
//! up to the largest value present: `h[d]` counts how many entries of `vals`
//! equal `d`. Slot counts therefore sum to the number of entries, and the
//! index-weighted sum of the slots equals the sum of the entries.

use vstd::prelude::*;

verus! {

/// Sum of the entries.
pub open spec fn seq_sum(s: Seq<usize>) -> int
    decreases s.len(),
{
    if s.len() == 0 {
        0
    } else {
        seq_sum(s.drop_last()) + s.last()
    }
}

/// Sum of `index * entry` over all slots.
pub open spec fn weighted_sum(s: Seq<usize>) -> int
    decreases s.len(),
{
    if s.len() == 0 {
        0
    } else {
        weighted_sum(s.drop_last()) + (s.len() - 1) * s.last()
    }
}

/// How many entries of `vals` equal `d`.
pub open spec fn count_eq(vals: Seq<usize>, d: int) -> int
    decreases vals.len(),
{
    if vals.len() == 0 {
        0
    } else {
        count_eq(vals.drop_last(), d) + if vals.last() == d {
            1int
        } else {
            0int
        }
    }
}

/// The largest entry of `vals`, or -1 when there is none.
pub open spec fn max_val(vals: Seq<usize>) -> int
    decreases vals.len(),
{
    if vals.len() == 0 {
        -1
    } else {
        let prior = max_val(vals.drop_last());
        if prior >= vals.last() {
            prior
        } else {
            vals.last() as int
        }
    }
}

/// `h` is the histogram of `vals`: one slot per value up to the largest one,
/// each slot counting the entries that equal its index.
pub open spec fn is_histogram(vals: Seq<usize>, h: Seq<usize>) -> bool {
    &&& h.len() == max_val(vals) + 1
    &&& forall|d: int| 0 <= d < h.len() ==> h[d] == count_eq(vals, d)
}

pub proof fn lemma_count_eq_bounds(vals: Seq<usize>, d: int)
    ensures
        0 <= count_eq(vals, d) <= vals.len(),
    decreases vals.len(),
{
    if vals.len() > 0 {
        lemma_count_eq_bounds(vals.drop_last(), d);
    }
}

/// Values larger than every entry occur zero times.
pub proof fn lemma_count_eq_above_max(vals: Seq<usize>, d: int)
    requires
        d > max_val(vals),
    ensures
        count_eq(vals, d) == 0,
    decreases vals.len(),
{
    if vals.len() > 0 {
        lemma_count_eq_above_max(vals.drop_last(), d);
    }
}

pub proof fn lemma_max_val_bound(vals: Seq<usize>, bound: int)
    requires
        bound >= -1,
        forall|k: int| 0 <= k < vals.len() ==> #[trigger] vals[k] <= bound,
    ensures
        max_val(vals) <= bound,
    decreases vals.len(),
{
    if vals.len() > 0 {
        assert(forall|k: int|
            0 <= k < vals.drop_last().len() ==> #[trigger] vals.drop_last()[k] == vals[k]);
        lemma_max_val_bound(vals.drop_last(), bound);
        assert(vals[vals.len() - 1] <= bound);
    }
}

pub proof fn lemma_seq_sum_update(s: Seq<usize>, i: int, v: usize)
    requires
        0 <= i < s.len(),
    ensures
        seq_sum(s.update(i, v)) == seq_sum(s) - s[i] + v,
    decreases s.len(),
{
    if i == s.len() - 1 {
        assert(s.update(i, v).drop_last() =~= s.drop_last());
    } else {
        assert(s.update(i, v).drop_last() =~= s.drop_last().update(i, v));
        lemma_seq_sum_update(s.drop_last(), i, v);
    }
}

pub proof fn lemma_weighted_sum_update(s: Seq<usize>, i: int, v: usize)
    requires
        0 <= i < s.len(),
    ensures
        weighted_sum(s.update(i, v)) == weighted_sum(s) - i * s[i] + i * v,
    decreases s.len(),
{
    if i == s.len() - 1 {
        assert(s.update(i, v).drop_last() =~= s.drop_last());
    } else {
        assert(s.update(i, v).drop_last() =~= s.drop_last().update(i, v));
        lemma_weighted_sum_update(s.drop_last(), i, v);
    }
}

/// Law: the histogram of a sequence of values is unique, so any two runs of
/// an analyzer over the same graph return the same histogram.
pub proof fn lemma_histogram_unique(vals: Seq<usize>, h1: Seq<usize>, h2: Seq<usize>)
    requires
        is_histogram(vals, h1),
        is_histogram(vals, h2),
    ensures
        h1 == h2,
{
    assert(h1 =~= h2);
}

/// Builds the histogram of `vals`. Besides the per-slot counts, the slot
/// counts sum to the number of entries and the index-weighted slot counts sum
/// to the total of the entries.
#[verifier::loop_isolation(false)]
pub fn build_histogram(vals: &Vec<usize>) -> (h: Vec<usize>)
    ensures
        is_histogram(vals@, h@),
        seq_sum(h@) == vals@.len(),
        weighted_sum(h@) == seq_sum(vals@),
{
    let mut h: Vec<usize> = Vec::new();
    let mut i: usize = 0;
    while i < vals.len()
        invariant
            i <= vals@.len(),
            h@.len() == max_val(vals@.take(i as int)) + 1,
            forall|d: int| 0 <= d < h@.len() ==> h@[d] == count_eq(vals@.take(i as int), d),
            seq_sum(h@) == i,
            weighted_sum(h@) == seq_sum(vals@.take(i as int)),
        decreases vals@.len() - i,
    {
        let ghost pre = vals@.take(i as int);
        let v = vals[i];
        proof {
            assert(vals@.take(i + 1).drop_last() =~= pre);
            assert(vals@.take(i + 1).last() == vals@[i as int]);
        }
        while h.len() <= v
            invariant
                max_val(pre) + 1 <= h@.len() <= if max_val(pre) >= v {
                    max_val(pre) + 1
                } else {
                    v + 1
                },
                forall|d: int| 0 <= d < h@.len() ==> h@[d] == count_eq(pre, d),
                seq_sum(h@) == i,
                weighted_sum(h@) == seq_sum(pre),
            decreases v + 1 - h@.len(),
        {
            proof {
                lemma_count_eq_above_max(pre, h@.len() as int);
                assert(h@.push(0).drop_last() =~= h@);
                assert(seq_sum(h@.push(0)) == seq_sum(h@));
                assert(weighted_sum(h@.push(0)) == weighted_sum(h@) + (h@.push(0).len() - 1) * 0);
            }
            h.push(0);
        }
        proof {
            lemma_count_eq_bounds(pre, v as int);
            lemma_seq_sum_update(h@, v as int, (h@[v as int] + 1) as usize);
            lemma_weighted_sum_update(h@, v as int, (h@[v as int] + 1) as usize);
            assert(v * ((h@[v as int] + 1) as int) - v * (h@[v as int] as int) == v)
                by (nonlinear_arith);
        }
        let ghost h_pre = h@;
        h[v] = h[v] + 1;
        proof {
            assert forall|d: int| 0 <= d < h@.len() implies h@[d] == count_eq(
                vals@.take(i + 1),
                d,
            ) by {
                assert(count_eq(vals@.take(i + 1), d) == count_eq(pre, d) + if v == d {
                    1int
                } else {
                    0int
                });
                if d != v {
                    assert(h@[d] == h_pre[d]);
                }
            }
        }
        i = i + 1;
    }
    proof {
        assert(vals@.take(vals@.len() as int) =~= vals@);
    }
    h
}

} // verus!
