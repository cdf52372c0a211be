//! The mathematical model of a discrete weighted distribution.
//!
//! A distribution is a sequence of non-negative integer weights.  A uniform
//! draw `r` from `[0, total_weight(ws))` selects the unique index `i` whose
//! half-open interval of cumulative weights contains `r`; an index of weight
//! `w` therefore owns exactly `w` of the possible draws, which is what makes
//! the selection proportional to the weights.

use vstd::prelude::*;
use vstd::set_lib::lemma_int_range;
use vstd::set_lib::set_int_range;

verus! {

/// Every weight in the sequence is non-negative.
pub open spec fn weights_ok(ws: Seq<int>) -> bool {
    forall|i: int| 0 <= i < ws.len() ==> ws[i] >= 0
}

/// The sum of a sequence of weights.
pub open spec fn total_weight(ws: Seq<int>) -> int
    decreases ws.len(),
{
    if ws.len() == 0 {
        0
    } else {
        ws[0] + total_weight(ws.drop_first())
    }
}

/// The index selected by the uniform draw `r`: the smallest `i` with
/// `r < ws[0] + ... + ws[i]`.
pub open spec fn chosen_index(ws: Seq<int>, r: int) -> int
    decreases ws.len(),
{
    if ws.len() == 0 {
        0
    } else if r < ws[0] {
        0
    } else {
        1 + chosen_index(ws.drop_first(), r - ws[0])
    }
}

/// Appending a weight adds it to the total.
pub proof fn lemma_total_weight_push(ws: Seq<int>, w: int)
    ensures
        total_weight(ws.push(w)) == total_weight(ws) + w,
    decreases ws.len(),
{
    assert(total_weight(ws.push(w)) == ws.push(w)[0] + total_weight(ws.push(w).drop_first()));
    if ws.len() == 0 {
        assert(ws.push(w)[0] == w);
        assert(ws.push(w).drop_first() =~= Seq::<int>::empty());
        assert(total_weight(Seq::<int>::empty()) == 0);
    } else {
        assert(ws.push(w)[0] == ws[0]);
        assert(ws.push(w).drop_first() =~= ws.drop_first().push(w));
        lemma_total_weight_push(ws.drop_first(), w);
    }
}

/// Extending a prefix by one element adds that element's weight.
pub proof fn lemma_total_weight_take_succ(ws: Seq<int>, i: int)
    requires
        0 <= i < ws.len(),
    ensures
        total_weight(ws.take(i + 1)) == total_weight(ws.take(i)) + ws[i],
{
    assert(ws.take(i + 1) =~= ws.take(i).push(ws[i]));
    lemma_total_weight_push(ws.take(i), ws[i]);
}

/// A sum of non-negative weights is non-negative.
pub proof fn lemma_total_weight_nonneg(ws: Seq<int>)
    requires
        weights_ok(ws),
    ensures
        total_weight(ws) >= 0,
    decreases ws.len(),
{
    if ws.len() > 0 {
        assert(weights_ok(ws.drop_first()));
        lemma_total_weight_nonneg(ws.drop_first());
    }
}

/// Every prefix sum lies between `0` and the total.
pub proof fn lemma_prefix_le_total(ws: Seq<int>, i: int)
    requires
        weights_ok(ws),
        0 <= i <= ws.len(),
    ensures
        0 <= total_weight(ws.take(i)) <= total_weight(ws),
    decreases ws.len() - i,
{
    assert(weights_ok(ws.take(i)));
    lemma_total_weight_nonneg(ws.take(i));
    if i < ws.len() {
        lemma_total_weight_take_succ(ws, i);
        lemma_prefix_le_total(ws, i + 1);
    } else {
        assert(ws.take(i) =~= ws);
    }
}

/// Longer prefixes have at least the sum of shorter ones.
pub proof fn lemma_prefix_monotone(ws: Seq<int>, i: int, j: int)
    requires
        weights_ok(ws),
        0 <= i <= j <= ws.len(),
    ensures
        total_weight(ws.take(i)) <= total_weight(ws.take(j)),
    decreases j - i,
{
    if i < j {
        lemma_total_weight_take_succ(ws, i);
        lemma_prefix_monotone(ws, i + 1, j);
    }
}

/// A distribution whose total is zero has no weight anywhere.
pub proof fn lemma_total_weight_zero(ws: Seq<int>)
    requires
        weights_ok(ws),
        total_weight(ws) == 0,
    ensures
        forall|i: int| 0 <= i < ws.len() ==> ws[i] == 0,
{
    assert forall|i: int| 0 <= i < ws.len() implies ws[i] == 0 by {
        lemma_prefix_le_total(ws, i);
        lemma_prefix_le_total(ws, i + 1);
        lemma_total_weight_take_succ(ws, i);
    }
}

/// A distribution with no weight anywhere has total zero.
pub proof fn lemma_all_zero_total_weight(ws: Seq<int>)
    requires
        forall|i: int| 0 <= i < ws.len() ==> ws[i] == 0,
    ensures
        total_weight(ws) == 0,
    decreases ws.len(),
{
    if ws.len() > 0 {
        lemma_all_zero_total_weight(ws.drop_first());
    }
}

/// Removing an element subtracts its weight from the total.
pub proof fn lemma_total_weight_remove(ws: Seq<int>, i: int)
    requires
        0 <= i < ws.len(),
    ensures
        total_weight(ws.remove(i)) == total_weight(ws) - ws[i],
    decreases i,
{
    if i == 0 {
        assert(ws.remove(0) =~= ws.drop_first());
    } else {
        assert(ws.remove(i).drop_first() =~= ws.drop_first().remove(i - 1));
        lemma_total_weight_remove(ws.drop_first(), i - 1);
    }
}

/// The selected index is in range, its cumulative interval contains the
/// draw, and — since the interval is then non-empty — its weight is
/// positive: a zero-weight index is never selected.
pub proof fn lemma_chosen_index_props(ws: Seq<int>, r: int)
    requires
        weights_ok(ws),
        0 <= r < total_weight(ws),
    ensures
        ({
            let i = chosen_index(ws, r);
            &&& 0 <= i < ws.len()
            &&& total_weight(ws.take(i)) <= r < total_weight(ws.take(i)) + ws[i]
            &&& ws[i] > 0
        }),
    decreases ws.len(),
{
    if ws.len() == 0 {
        // impossible: the total is 0, so no draw is in range
    } else if r < ws[0] {
        assert(ws.take(0) =~= Seq::<int>::empty());
    } else {
        let tail = ws.drop_first();
        assert(weights_ok(tail));
        lemma_chosen_index_props(tail, r - ws[0]);
        let it = chosen_index(tail, r - ws[0]);
        assert(ws.take(it + 1).drop_first() =~= tail.take(it));
        assert(ws[it + 1] == tail[it]);
    }
}

/// The cumulative-interval characterisation pins the selected index down:
/// `r` selects `i` exactly when `r` falls in `i`'s interval.
pub proof fn lemma_chosen_index_iff(ws: Seq<int>, r: int, i: int)
    requires
        weights_ok(ws),
        0 <= r < total_weight(ws),
        0 <= i < ws.len(),
    ensures
        chosen_index(ws, r) == i <==> total_weight(ws.take(i)) <= r < total_weight(ws.take(i))
            + ws[i],
{
    lemma_chosen_index_props(ws, r);
    let c = chosen_index(ws, r);
    if c != i && total_weight(ws.take(i)) <= r < total_weight(ws.take(i)) + ws[i] {
        if c < i {
            lemma_total_weight_take_succ(ws, c);
            lemma_prefix_monotone(ws, c + 1, i);
            assert(r < total_weight(ws.take(i)));
        } else {
            lemma_total_weight_take_succ(ws, i);
            lemma_prefix_monotone(ws, i + 1, c);
            assert(r < total_weight(ws.take(c)));
        }
    }
}

/// Weight proportionality: of the `total_weight(ws)` equally likely uniform
/// draws, exactly `ws[i]` select the index `i`.  The share of draws an index
/// receives is therefore its weight over the total.
pub proof fn lemma_weight_proportionality(ws: Seq<int>, i: int)
    requires
        weights_ok(ws),
        0 <= i < ws.len(),
    ensures
        ({
            let hits = Set::new(|r: int| 0 <= r < total_weight(ws) && chosen_index(ws, r) == i);
            hits.finite() && hits.len() == ws[i]
        }),
{
    let lo = total_weight(ws.take(i));
    let hi = lo + ws[i];
    let hits = Set::new(|r: int| 0 <= r < total_weight(ws) && chosen_index(ws, r) == i);
    lemma_prefix_le_total(ws, i);
    lemma_total_weight_take_succ(ws, i);
    lemma_prefix_le_total(ws, i + 1);
    assert forall|r: int| hits.contains(r) <==> set_int_range(lo, hi).contains(r) by {
        if 0 <= r < total_weight(ws) {
            lemma_chosen_index_iff(ws, r, i);
        }
    }
    assert(hits =~= set_int_range(lo, hi));
    lemma_int_range(lo, hi);
}

/// Determinism given a fixed random source: the selection is a pure
/// function of the distribution and of the drawn value, with no hidden
/// state — two draws that read equal values from equal distributions
/// select equal indices.  Every draw of the sampler routes its result
/// through `chosen_index`, so this pins the whole pipeline down once the
/// random source is fixed.
pub proof fn lemma_selection_deterministic(ws1: Seq<int>, ws2: Seq<int>, r1: int, r2: int)
    requires
        ws1 == ws2,
        r1 == r2,
    ensures
        chosen_index(ws1, r1) == chosen_index(ws2, r2),
{
}

/// Uniqueness exhaustion: a duplicate-free sequence of `k` indices drawn
/// from `[0, k)` contains every such index — a draw of all choices without
/// replacement is a permutation of the full choice set.
pub proof fn lemma_exhaustive_indices(idxs: Seq<int>, k: int)
    requires
        idxs.len() == k,
        idxs.no_duplicates(),
        forall|p: int| 0 <= p < k ==> 0 <= #[trigger] idxs[p] < k,
    ensures
        forall|j: int| 0 <= j < k ==> idxs.contains(j),
{
    idxs.unique_seq_to_set();
    let s = idxs.to_set();
    lemma_int_range(0, k);
    assert(s.subset_of(set_int_range(0, k)));
    vstd::set_lib::lemma_len_subset(s, set_int_range(0, k));
    vstd::set_lib::lemma_subset_equality(s, set_int_range(0, k));
    assert forall|j: int| 0 <= j < k implies idxs.contains(j) by {
        assert(set_int_range(0, k).contains(j));
        assert(s.contains(j));
    }
}

} // verus!
