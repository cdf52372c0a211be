//! The weighted sampler: a fixed set of choices with a discrete weighted
//! distribution over them, queried with caller-supplied randomness.

use vstd::prelude::*;

use crate::distribution::chosen_index;
use crate::distribution::lemma_all_zero_total_weight;
use crate::distribution::lemma_chosen_index_iff;
use crate::distribution::lemma_chosen_index_props;
use crate::distribution::lemma_exhaustive_indices;
use crate::distribution::lemma_prefix_le_total;
use crate::distribution::lemma_prefix_monotone;
use crate::distribution::lemma_total_weight_nonneg;
use crate::distribution::lemma_total_weight_remove;
use crate::distribution::lemma_total_weight_take_succ;
use crate::distribution::lemma_total_weight_zero;
use crate::distribution::total_weight;
use crate::distribution::weights_ok;
use crate::source::RandomSource;
use vstd::arithmetic::mul::lemma_mul_inequality;
use vstd::arithmetic::mul::lemma_mul_nonnegative;
use vstd::arithmetic::mul::lemma_mul_strict_inequality;

verus! {

/// Why a sampler could not be constructed.
///
/// A failed construction is surfaced to the caller rather than replaced by
/// a default distribution: a silently empty or uniform sampler would mask a
/// configuration defect.
#[derive(Clone, Copy, Debug, PartialEq, Eq)]
pub enum ConstructionError {
    /// No choices were supplied at all.
    Empty,
    /// A supplied weight was negative.
    NegativeWeight,
    /// Every supplied weight was zero, so no choice could ever be drawn.
    AllZeroWeights,
    /// Fewer than two choices were supplied to the ramp constructor.
    TooFewChoices,
    /// The ramp constructor was given bounds with `end <= start`.
    RampNotIncreasing,
    /// The ramp constructor was given a negative bound.
    NegativeRampBound,
    /// The weights are individually valid but too large to total up.
    WeightOverflow,
}

/// Why a draw without replacement could not be served.
#[derive(Clone, Copy, Debug, PartialEq, Eq)]
pub enum DrawError {
    /// More distinct choices were requested than the sampler holds.
    CountExceedsChoices,
}

/// The weights of a sequence of `(choice, weight)` pairs, as integers.
pub open spec fn pair_weights<T>(entries: Seq<(T, i64)>) -> Seq<int> {
    entries.map_values(|p: (T, i64)| p.1 as int)
}

/// The choices of a sequence of `(choice, weight)` pairs.
pub open spec fn pair_choices<T>(entries: Seq<(T, i64)>) -> Seq<T> {
    entries.map_values(|p: (T, i64)| p.0)
}

/// The error that `Sampler::new` reports for a given weight sequence, or
/// `None` when construction succeeds.
pub open spec fn new_error(ws: Seq<int>) -> Option<ConstructionError> {
    if ws.len() == 0 {
        Some(ConstructionError::Empty)
    } else if exists|i: int| 0 <= i < ws.len() && ws[i] < 0 {
        Some(ConstructionError::NegativeWeight)
    } else if forall|i: int| 0 <= i < ws.len() ==> ws[i] == 0 {
        Some(ConstructionError::AllZeroWeights)
    } else if total_weight(ws) > u64::MAX {
        Some(ConstructionError::WeightOverflow)
    } else {
        None
    }
}

/// The value `c` is a copy of some positively weighted choice: what every
/// single weighted draw returns, whatever the random source hands back.  A
/// zero-weight choice is never drawn.
pub open spec fn weighted_pick<T: Clone>(cs: Seq<T>, ws: Seq<int>, c: T) -> bool {
    exists|i: int| 0 <= i < cs.len() && ws[i] > 0 && #[trigger] cloned(cs[i], c)
}

/// The sequence of indices holds `j` somewhere.
pub open spec fn holds_index(idxs: Seq<usize>, j: int) -> bool {
    exists|q: int| 0 <= q < idxs.len() && #[trigger] idxs[q] as int == j
}

/// The weights of the still-available indices, in their current order.
pub open spec fn avail_weights(ws: Seq<int>, avail: Seq<usize>) -> Seq<int> {
    avail.map_values(|u: usize| ws[u as int])
}

/// A valid draw of `n` distinct indices from the weighted choice set:
/// every index is in range, none repeats, and an index of weight zero is
/// drawn at a position only when every index not drawn before that
/// position carries weight zero as well — while any weight remains, only
/// positively weighted indices are drawn.
pub open spec fn unique_index_draw(ws: Seq<int>, idxs: Seq<usize>, n: int) -> bool {
    &&& idxs.len() == n
    &&& (forall|p: int| 0 <= p < n ==> (#[trigger] idxs[p] as int) < ws.len())
    &&& idxs.no_duplicates()
    &&& (forall|p: int|
        0 <= p < n && ws[#[trigger] idxs[p] as int] == 0 ==> (forall|j: int|
            0 <= j < ws.len() && !holds_index(idxs.take(p), j) ==> ws[j] == 0))
}

/// The drawn pairs correspond position-by-position to the drawn indices:
/// each pair is a copy of the choice at its index together with that
/// index's original weight.
pub open spec fn pairs_drawn<T: Clone>(
    cs: Seq<T>,
    ws: Seq<int>,
    idxs: Seq<usize>,
    pairs: Seq<(T, i64)>,
) -> bool {
    &&& pairs.len() == idxs.len()
    &&& (forall|p: int|
        0 <= p < idxs.len() ==> cloned(cs[#[trigger] idxs[p] as int], pairs[p].0) && pairs[p].1
            as int == ws[idxs[p] as int])
}

/// Uniqueness exhaustion: a draw without replacement of as many indices
/// as there are choices holds every index — it is a permutation of the
/// full choice set, whatever order the draws came in.
pub proof fn lemma_unique_draw_exhaustive(ws: Seq<int>, idxs: Seq<usize>)
    requires
        unique_index_draw(ws, idxs, ws.len() as int),
    ensures
        forall|j: int| 0 <= j < ws.len() ==> holds_index(idxs, j),
{
    let mapped = idxs.map_values(|u: usize| u as int);
    assert forall|a: int, b: int|
        0 <= a < mapped.len() && 0 <= b < mapped.len() && a != b implies mapped[a] != mapped[b] by {
        assert(idxs[a] != idxs[b]);
    }
    lemma_exhaustive_indices(mapped, ws.len() as int);
    assert forall|j: int| 0 <= j < ws.len() implies holds_index(idxs, j) by {
        assert(mapped.contains(j));
        let q = choose|q: int| 0 <= q < mapped.len() && mapped[q] == j;
        assert(idxs[q] as int == j);
    }
}

/// How `holds_index` and `no_duplicates` behave when one position is
/// removed from a sequence of indices.
proof fn lemma_holds_index_remove(s: Seq<usize>, pos: int, j: int)
    requires
        0 <= pos < s.len(),
    ensures
        s.no_duplicates() ==> !holds_index(s.remove(pos), s[pos] as int),
        holds_index(s, j) && j != s[pos] as int ==> holds_index(s.remove(pos), j),
        holds_index(s.remove(pos), j) ==> holds_index(s, j),
        s.no_duplicates() ==> s.remove(pos).no_duplicates(),
{
    let t = s.remove(pos);
    if s.no_duplicates() && holds_index(t, s[pos] as int) {
        let q = choose|q: int| 0 <= q < t.len() && #[trigger] t[q] as int == s[pos] as int;
        if q < pos {
            assert(s[q] == s[pos]);
        } else {
            assert(s[q + 1] == s[pos]);
        }
    }
    if holds_index(s, j) && j != s[pos] as int {
        let q = choose|q: int| 0 <= q < s.len() && #[trigger] s[q] as int == j;
        if q < pos {
            assert(t[q] as int == j);
        } else {
            assert(t[q - 1] as int == j);
        }
    }
    if holds_index(t, j) {
        let q = choose|q: int| 0 <= q < t.len() && #[trigger] t[q] as int == j;
        if q < pos {
            assert(s[q] as int == j);
        } else {
            assert(s[q + 1] as int == j);
        }
    }
    if s.no_duplicates() {
        assert forall|a: int, b: int|
            0 <= a < t.len() && 0 <= b < t.len() && a != b implies t[a] != t[b] by {
            assert(t[a] == if a < pos {
                s[a]
            } else {
                s[a + 1]
            });
            assert(t[b] == if b < pos {
                s[b]
            } else {
                s[b + 1]
            });
        }
    }
}

/// Removing a position from the available indices removes the same
/// position from their weights.
proof fn lemma_avail_weights_remove(ws: Seq<int>, avail: Seq<usize>, pos: int)
    requires
        0 <= pos < avail.len(),
    ensures
        avail_weights(ws, avail.remove(pos)) =~= avail_weights(ws, avail).remove(pos),
{
}

/// The weight ramp of the linear constructor over `k` choices and a span
/// `d == end - start`: the choice at index `i` gets weight `i * d`.
///
/// This is the fractional ramp that rises by a step of `d / (k - 1)` per
/// index — from zero at index `0` up to `d` at the last index — with every
/// weight scaled by the same factor `k - 1`, so that the weights stay
/// exact integers.  Scaling all weights alike leaves the induced
/// distribution unchanged; only the magnitudes that
/// [`Sampler::sample_unique`] and [`Sampler::total`] report are the scaled
/// ones.  The first choice always gets weight zero — the span sets the
/// shape of the ramp, not an absolute floor — so that later-indexed
/// choices are drawn ever more often.
pub open spec fn linear_weights(k: int, d: int) -> Seq<int> {
    Seq::new(k as nat, |i: int| i * d)
}

/// The error that `Sampler::linear` reports for `k` choices and the given
/// ramp bounds, or `None` when construction succeeds.
pub open spec fn linear_error(k: int, start: int, end: int) -> Option<ConstructionError> {
    if end <= start {
        Some(ConstructionError::RampNotIncreasing)
    } else if k < 2 {
        Some(ConstructionError::TooFewChoices)
    } else if start < 0 {
        Some(ConstructionError::NegativeRampBound)
    } else if (k - 1) * (end - start) > i64::MAX || total_weight(linear_weights(k, end - start))
        > u64::MAX {
        Some(ConstructionError::WeightOverflow)
    } else {
        None
    }
}

/// A fixed, ordered set of choices with one non-negative weight per choice.
///
/// The sampler is immutable after construction; every query is a pure
/// computation over its data and the values drawn from the supplied
/// [`RandomSource`](crate::RandomSource).
pub struct Sampler<T> {
    choice_vec: Vec<T>,
    weight_vec: Vec<i64>,
    total: u64,
}

impl<T: Clone> Sampler<T> {
    /// The choices, in construction order.
    pub closed spec fn choices(&self) -> Seq<T> {
        self.choice_vec@
    }

    /// The weights, index-aligned with the choices.
    pub closed spec fn weights(&self) -> Seq<int> {
        self.weight_vec@.map_values(|w: i64| w as int)
    }

    /// Well-formedness: one weight per choice, at least one choice, no
    /// negative weight, and a positive total that fits the machine.
    pub closed spec fn wf(&self) -> bool {
        &&& self.choice_vec@.len() == self.weight_vec@.len()
        &&& self.choice_vec@.len() > 0
        &&& weights_ok(self.weights())
        &&& self.total as int == total_weight(self.weights())
        &&& self.total > 0
    }

    /// The total weight over all choices.
    pub fn total(&self) -> (t: u64)
        requires
            self.wf(),
        ensures
            t as int == total_weight(self.weights()),
            t > 0,
    {
        self.total
    }

    /// Build a sampler from `(choice, weight)` pairs.
    ///
    /// Construction fails — with the exact error that [`new_error`] assigns
    /// to the weights — when the list is empty, when any weight is negative,
    /// when every weight is zero, or when the weights do not total up within
    /// a machine word; otherwise the sampler holds exactly the supplied
    /// choices and weights, in order.
    pub fn new(entries: Vec<(T, i64)>) -> (result: Result<Sampler<T>, ConstructionError>)
        ensures
            match result {
                Ok(s) => {
                    &&& new_error(pair_weights(entries@)) is None
                    &&& s.wf()
                    &&& s.choices() == pair_choices(entries@)
                    &&& s.weights() == pair_weights(entries@)
                },
                Err(e) => Some(e) == new_error(pair_weights(entries@)),
            },
    {
        let ghost entries0 = entries@;
        let ghost ws = pair_weights(entries0);
        if entries.len() == 0 {
            return Err(ConstructionError::Empty);
        }
        let mut i: usize = 0;
        while i < entries.len()
            invariant
                entries@ == entries0,
                i <= entries0.len(),
                forall|p: int| 0 <= p < i ==> entries0[p].1 >= 0,
            decreases entries0.len() - i,
        {
            if entries[i].1 < 0 {
                proof {
                    assert(ws[i as int] < 0);
                }
                return Err(ConstructionError::NegativeWeight);
            }
            i += 1;
        }
        proof {
            assert(weights_ok(ws));
        }
        let mut total: u64 = 0;
        let mut j: usize = 0;
        while j < entries.len()
            invariant
                entries@ == entries0,
                ws == pair_weights(entries0),
                weights_ok(ws),
                j <= entries0.len(),
                total as int == total_weight(ws.take(j as int)),
            decreases entries0.len() - j,
        {
            let w = entries[j].1;
            proof {
                lemma_total_weight_take_succ(ws, j as int);
            }
            match total.checked_add(w as u64) {
                Some(t) => {
                    total = t;
                }
                None => {
                    proof {
                        lemma_prefix_monotone(ws, j + 1, ws.len() as int);
                        assert(ws.take(ws.len() as int) =~= ws);
                        if forall|p: int| 0 <= p < ws.len() ==> ws[p] == 0 {
                            lemma_all_zero_total_weight(ws);
                        }
                    }
                    return Err(ConstructionError::WeightOverflow);
                },
            }
            j += 1;
        }
        proof {
            assert(ws.take(ws.len() as int) =~= ws);
        }
        if total == 0 {
            proof {
                lemma_total_weight_zero(ws);
            }
            return Err(ConstructionError::AllZeroWeights);
        }
        proof {
            if forall|p: int| 0 <= p < ws.len() ==> ws[p] == 0 {
                lemma_all_zero_total_weight(ws);
            }
        }
        let mut rest = entries;
        let mut rev_c: Vec<T> = Vec::new();
        let mut rev_w: Vec<i64> = Vec::new();
        while rest.len() > 0
            invariant
                rest@ == entries0.take(rest@.len() as int),
                rev_c@.len() == rev_w@.len(),
                rev_c@.len() == entries0.len() - rest@.len(),
                forall|p: int| 0 <= p < rev_c@.len() ==> rev_c@[p] == entries0[entries0.len() - 1
                    - p].0,
                forall|p: int| 0 <= p < rev_w@.len() ==> rev_w@[p] == entries0[entries0.len() - 1
                    - p].1,
            decreases rest@.len(),
        {
            let ghost n = rest@.len() as int;
            let (t, w) = rest.pop().unwrap();
            proof {
                assert(entries0.take(n).drop_last() =~= entries0.take(n - 1));
                assert(entries0.take(n).last() == entries0[n - 1]);
            }
            rev_c.push(t);
            rev_w.push(w);
        }
        let mut choice_vec: Vec<T> = Vec::new();
        let mut weight_vec: Vec<i64> = Vec::new();
        while rev_c.len() > 0
            invariant
                rev_c@.len() == rev_w@.len(),
                choice_vec@.len() == weight_vec@.len(),
                choice_vec@.len() == entries0.len() - rev_c@.len(),
                forall|p: int| 0 <= p < rev_c@.len() ==> rev_c@[p] == entries0[entries0.len() - 1
                    - p].0,
                forall|p: int| 0 <= p < rev_w@.len() ==> rev_w@[p] == entries0[entries0.len() - 1
                    - p].1,
                forall|p: int| 0 <= p < choice_vec@.len() ==> choice_vec@[p] == entries0[p].0,
                forall|p: int| 0 <= p < weight_vec@.len() ==> weight_vec@[p] == entries0[p].1,
            decreases rev_c@.len(),
        {
            let t = rev_c.pop().unwrap();
            let w = rev_w.pop().unwrap();
            choice_vec.push(t);
            weight_vec.push(w);
        }
        let s = Sampler { choice_vec, weight_vec, total };
        proof {
            assert(s.choices() =~= pair_choices(entries0));
            assert(s.weights() =~= pair_weights(entries0));
        }
        Ok(s)
    }

    /// Build a sampler over the given choices with a linearly increasing
    /// weight ramp.
    ///
    /// The choice at index `i` receives weight `i * (end - start)`: weight
    /// zero for the first choice, rising by the same span per index.  This
    /// is the fractional ramp with step `(end - start) / (k - 1)` — zero at
    /// the first index, `end - start` at the last — with every weight
    /// multiplied by `k - 1` so that it stays an exact integer; the induced
    /// distribution is the same, and only the reported weight magnitudes
    /// carry the factor.  The `start` bound only shapes the ramp through
    /// the span `end - start`; it is not a weight floor.  Construction
    /// fails — with the exact error that [`linear_error`] assigns — when
    /// `end <= start`, when fewer than two choices are supplied, when
    /// `start` is negative, or when a weight or the total outgrows the
    /// machine.
    pub fn linear(choices: Vec<T>, start: i64, end: i64) -> (result: Result<
        Sampler<T>,
        ConstructionError,
    >)
        ensures
            match result {
                Ok(s) => {
                    &&& linear_error(choices@.len() as int, start as int, end as int) is None
                    &&& s.wf()
                    &&& s.choices() == choices@
                    &&& s.weights() == linear_weights(choices@.len() as int, end - start)
                    &&& forall|i: int|
                        0 <= i < choices@.len() ==> s.weights()[i] == i * (end - start)
                    &&& s.weights()[0] == 0
                    &&& forall|i: int, j: int|
                        0 <= i < j < choices@.len() ==> s.weights()[i] < s.weights()[j]
                },
                Err(e) => Some(e) == linear_error(
                    choices@.len() as int,
                    start as int,
                    end as int,
                ),
            },
    {
        let ghost cs0 = choices@;
        let ghost k = choices@.len() as int;
        if end <= start {
            return Err(ConstructionError::RampNotIncreasing);
        }
        if choices.len() < 2 {
            return Err(ConstructionError::TooFewChoices);
        }
        if start < 0 {
            return Err(ConstructionError::NegativeRampBound);
        }
        let dd: i64 = end - start;
        let ghost d = dd as int;
        let ghost ramp = linear_weights(k, d);
        proof {
            assert forall|p: int| 0 <= p < ramp.len() implies ramp[p] >= 0 by {
                lemma_mul_nonnegative(p, d);
            }
            assert(weights_ok(ramp));
        }
        let n = choices.len();
        let mut weight_vec: Vec<i64> = Vec::new();
        let mut total: u64 = 0;
        let mut i: usize = 0;
        while i < n
            invariant
                weight_vec@.len() == i,
                i <= n,
                forall|p: int| 0 <= p < i ==> weight_vec@[p] as int == ramp[p],
                total as int == total_weight(ramp.take(i as int)),
            decreases n - i,
        {
            let w_u: u64 = match (i as u64).checked_mul(dd as u64) {
                Some(x) => x,
                None => {
                    proof {
                        lemma_mul_inequality(i as int, k - 1, d);
                    }
                    return Err(ConstructionError::WeightOverflow);
                },
            };
            if w_u > (i64::MAX as u64) {
                proof {
                    lemma_mul_inequality(i as int, k - 1, d);
                }
                return Err(ConstructionError::WeightOverflow);
            }
            proof {
                lemma_total_weight_take_succ(ramp, i as int);
            }
            total = match total.checked_add(w_u) {
                Some(t) => t,
                None => {
                    proof {
                        lemma_prefix_monotone(ramp, i as int + 1, k);
                        assert(ramp.take(k) =~= ramp);
                    }
                    return Err(ConstructionError::WeightOverflow);
                },
            };
            weight_vec.push(w_u as i64);
            i += 1;
        }
        proof {
            assert(ramp.take(k) =~= ramp);
            assert(ramp.take(0) =~= Seq::<int>::empty());
            lemma_total_weight_take_succ(ramp, 0);
            lemma_total_weight_take_succ(ramp, 1);
            lemma_prefix_monotone(ramp, 2, k);
            assert(weight_vec@[k - 1] as int == ramp[k - 1]);
            assert((k - 1) * d <= i64::MAX);
            assert(total_weight(ramp) <= u64::MAX);
        }
        let s = Sampler { choice_vec: choices, weight_vec, total };
        proof {
            assert(s.choices() == cs0);
            assert(s.weights() =~= ramp);
            assert forall|i2: int, j2: int| 0 <= i2 < j2 < k implies ramp[i2] < ramp[j2] by {
                lemma_mul_strict_inequality(i2, j2, d);
            }
        }
        Ok(s)
    }

    /// The choice selected by the uniform draw `r`.
    ///
    /// This is the deterministic core of every draw: the result is exactly
    /// the choice at `chosen_index(self.weights(), r)`, so the sampler and
    /// the draw fully determine the outcome — there is no hidden state.
    pub fn sample_at(&self, r: u64) -> (c: T)
        requires
            self.wf(),
            (r as int) < total_weight(self.weights()),
        ensures
            cloned(self.choices()[chosen_index(self.weights(), r as int)], c),
            self.weights()[chosen_index(self.weights(), r as int)] > 0,
    {
        let ghost ws = self.weights();
        proof {
            lemma_chosen_index_props(ws, r as int);
            assert(ws.take(0) =~= Seq::<int>::empty());
        }
        let mut i: usize = 0;
        let mut acc: u64 = 0;
        loop
            invariant
                i < self.weight_vec@.len(),
                acc as int == total_weight(ws.take(i as int)),
                acc <= r,
            decreases self.weight_vec@.len() - i,
        {
            // reading the length here teaches the prover that it fits a
            // machine word, which bounds the index increment below
            let _len = self.weight_vec.len();
            let w = self.weight_vec[i];
            proof {
                lemma_total_weight_take_succ(ws, i as int);
                lemma_prefix_le_total(ws, i as int + 1);
            }
            if r < acc + (w as u64) {
                proof {
                    lemma_chosen_index_iff(ws, r as int, i as int);
                }
                return self.choice_vec[i].clone();
            }
            acc = acc + (w as u64);
            i = i + 1;
            proof {
                if i == self.weight_vec@.len() {
                    assert(ws.take(i as int) =~= ws);
                }
            }
        }
    }

    /// One weighted draw, with replacement.
    ///
    /// The result is a copy of one of the choices, selected by the value the
    /// source hands back; a choice of weight zero is never returned.  Exactly
    /// one value is drawn from the source.  The sampler itself is unchanged,
    /// so repeated calls are independent draws.
    pub fn sample<R: RandomSource>(&self, rng: &mut R) -> (c: T)
        requires
            self.wf(),
        ensures
            weighted_pick(self.choices(), self.weights(), c),
            final(rng).draws() == old(rng).draws() + 1,
    {
        let r = rng.next_below(self.total);
        let c = self.sample_at(r);
        proof {
            lemma_chosen_index_props(self.weights(), r as int);
            let i = chosen_index(self.weights(), r as int);
            assert(0 <= i < self.choices().len() && self.weights()[i] > 0 && cloned(
                self.choices()[i],
                c,
            ));
        }
        c
    }

    /// Exactly `samples` independent weighted draws, in order.
    ///
    /// Each element is a draw as by [`Sampler::sample`]; the sequence has
    /// length exactly `samples`, including the empty sequence for zero.
    /// Exactly `samples` values are drawn from the source — none at all
    /// when `samples` is zero, which leaves the source untouched.
    pub fn iter<R: RandomSource>(&self, rng: &mut R, samples: usize) -> (v: Vec<T>)
        requires
            self.wf(),
        ensures
            v@.len() == samples,
            forall|p: int|
                0 <= p < samples ==> weighted_pick(self.choices(), self.weights(), v@[p]),
            final(rng).draws() == old(rng).draws() + samples,
            samples == 0 ==> *final(rng) == *old(rng),
    {
        let mut v: Vec<T> = Vec::new();
        let mut n: usize = 0;
        while n < samples
            invariant
                v@.len() == n,
                n <= samples,
                forall|p: int| 0 <= p < n ==> weighted_pick(self.choices(), self.weights(), v@[p]),
                rng.draws() == old(rng).draws() + n,
                n == 0 ==> *rng == *old(rng),
            decreases samples - n,
        {
            let c = self.sample(rng);
            v.push(c);
            n += 1;
        }
        v
    }

    /// The position within `avail` selected by the uniform draw `r`, over
    /// the weights of the still-available indices.
    fn pick_in(&self, avail: &Vec<usize>, r: u64) -> (pos: usize)
        requires
            self.wf(),
            forall|q: int| 0 <= q < avail@.len() ==> (#[trigger] avail@[q] as int)
                < self.weights().len(),
            (r as int) < total_weight(avail_weights(self.weights(), avail@)),
            total_weight(avail_weights(self.weights(), avail@)) <= u64::MAX,
        ensures
            pos < avail@.len(),
            chosen_index(avail_weights(self.weights(), avail@), r as int) == pos,
            self.weights()[avail@[pos as int] as int] > 0,
    {
        let ghost ws = self.weights();
        let ghost aws = avail_weights(ws, avail@);
        proof {
            assert(weights_ok(aws));
            lemma_chosen_index_props(aws, r as int);
            assert(aws.take(0) =~= Seq::<int>::empty());
        }
        let mut q: usize = 0;
        let mut acc: u64 = 0;
        loop
            invariant
                q < avail@.len(),
                acc as int == total_weight(aws.take(q as int)),
                acc <= r,
            decreases avail@.len() - q,
        {
            // reading the length here teaches the prover that it fits a
            // machine word, which bounds the index increment below
            let _len = avail.len();
            let idx = avail[q];
            let w = self.weight_vec[idx];
            proof {
                lemma_total_weight_take_succ(aws, q as int);
                lemma_prefix_le_total(aws, q as int + 1);
            }
            if r < acc + (w as u64) {
                proof {
                    lemma_chosen_index_iff(aws, r as int, q as int);
                }
                return q;
            }
            acc = acc + (w as u64);
            q = q + 1;
            proof {
                if q == avail@.len() {
                    assert(aws.take(q as int) =~= aws);
                }
            }
        }
    }

    /// Draw `n` distinct indices, without replacement.
    ///
    /// Each draw selects among the indices not yet drawn, in proportion to
    /// their weights; once the remaining weight is exhausted, the remaining
    /// indices — all of weight zero by then — are drawn uniformly, so a
    /// full-length draw always succeeds.  Exactly `n` values are drawn from
    /// the source; a failed call draws none.  Fails exactly when more
    /// indices are requested than the sampler holds.
    pub fn sample_unique_indices<R: RandomSource>(&self, rng: &mut R, n: usize) -> (result: Result<
        Vec<usize>,
        DrawError,
    >)
        requires
            self.wf(),
        ensures
            match result {
                Ok(idxs) => n <= self.choices().len() && unique_index_draw(
                    self.weights(),
                    idxs@,
                    n as int,
                ) && final(rng).draws() == old(rng).draws() + n,
                Err(e) => n > self.choices().len() && e == DrawError::CountExceedsChoices
                    && *final(rng) == *old(rng),
            },
    {
        let k = self.choice_vec.len();
        if n > k {
            return Err(DrawError::CountExceedsChoices);
        }
        let ghost ws = self.weights();
        let mut avail: Vec<usize> = Vec::new();
        let mut t: usize = 0;
        while t < k
            invariant
                avail@.len() == t,
                t <= k,
                forall|q: int| 0 <= q < t ==> #[trigger] avail@[q] == q,
            decreases k - t,
        {
            avail.push(t);
            t += 1;
        }
        proof {
            assert forall|j: int| 0 <= j < k implies holds_index(avail@, j) by {
                assert(avail@[j] as int == j);
            }
            assert(avail_weights(ws, avail@) =~= ws) by {
                assert(forall|q: int|
                    0 <= q < k ==> avail_weights(ws, avail@)[q] == ws[#[trigger] avail@[q] as int]);
            }
        }
        let mut rem: u64 = self.total;
        let mut picked: Vec<usize> = Vec::new();
        while picked.len() < n
            invariant
                picked@.len() + avail@.len() == k,
                picked@.len() <= n,
                forall|q: int| 0 <= q < avail@.len() ==> (#[trigger] avail@[q] as int) < k,
                avail@.no_duplicates(),
                picked@.no_duplicates(),
                forall|p: int| 0 <= p < picked@.len() ==> (#[trigger] picked@[p] as int) < k,
                forall|j: int|
                    0 <= j < k ==> (holds_index(avail@, j) <==> !holds_index(picked@, j)),
                rem as int == total_weight(avail_weights(ws, avail@)),
                rng.draws() == old(rng).draws() + picked@.len(),
                forall|p: int|
                    0 <= p < picked@.len() && ws[#[trigger] picked@[p] as int] == 0 ==> (forall|
                        j: int,
                    |
                        0 <= j < k && !holds_index(picked@.take(p), j) ==> ws[j] == 0),
            decreases n - picked@.len(),
        {
            let ghost picked0 = picked@;
            let ghost avail0 = avail@;
            let ghost aws = avail_weights(ws, avail0);
            let pos: usize;
            if rem > 0 {
                let r = rng.next_below(rem);
                pos = self.pick_in(&avail, r);
                proof {
                    lemma_chosen_index_props(aws, r as int);
                }
            } else {
                proof {
                    lemma_total_weight_zero(aws);
                }
                let r = rng.next_below(avail.len() as u64);
                pos = r as usize;
            }
            let sel = avail[pos];
            let w_sel = self.weight_vec[sel];
            proof {
                lemma_total_weight_remove(aws, pos as int);
                lemma_avail_weights_remove(ws, avail0, pos as int);
                assert(weights_ok(aws.remove(pos as int)));
                lemma_total_weight_nonneg(aws.remove(pos as int));
                assert(aws[pos as int] == ws[sel as int]);
            }
            picked.push(sel);
            avail.remove(pos);
            rem = rem - (w_sel as u64);
            proof {
                assert(holds_index(avail0, sel as int)) by {
                    assert(avail0[pos as int] as int == sel as int);
                }
                assert(!holds_index(picked0, sel as int));
                assert(!picked0.contains(sel)) by {
                    if picked0.contains(sel) {
                        let q = choose|q: int|
                            0 <= q < picked0.len() && #[trigger] picked0[q] == sel;
                        assert(picked0[q] as int == sel as int);
                    }
                }
                assert(picked@.no_duplicates()) by {
                    assert forall|a: int, b: int|
                        0 <= a < picked@.len() && 0 <= b < picked@.len() && a
                            != b implies picked@[a] != picked@[b] by {
                        if a < picked0.len() && b < picked0.len() {
                            assert(picked0[a] != picked0[b]);
                        }
                    }
                }
                assert forall|j: int|
                    0 <= j < k implies (holds_index(avail@, j) <==> !holds_index(
                    picked@,
                    j,
                )) by {
                    lemma_holds_index_remove(avail0, pos as int, j);
                    assert(holds_index(picked@, j) <==> (holds_index(picked0, j) || j == sel as int))
                        by {
                        if holds_index(picked@, j) {
                            let q = choose|q: int|
                                0 <= q < picked@.len() && #[trigger] picked@[q] as int == j;
                            if q < picked0.len() {
                                assert(picked0[q] as int == j);
                            }
                        }
                        if holds_index(picked0, j) {
                            let q = choose|q: int|
                                0 <= q < picked0.len() && #[trigger] picked0[q] as int == j;
                            assert(picked@[q] as int == j);
                        }
                        if j == sel as int {
                            assert(picked@[picked0.len() as int] as int == j);
                        }
                    }
                }
                assert forall|p: int|
                    0 <= p < picked@.len() && ws[#[trigger] picked@[p] as int] == 0 implies (forall|
                    j: int,
                |
                    0 <= j < k && !holds_index(picked@.take(p), j) ==> ws[j] == 0) by {
                    if p < picked0.len() {
                        assert(picked@.take(p) =~= picked0.take(p));
                        assert(picked0[p] as int == picked@[p] as int);
                    } else {
                        assert(picked@[p] == sel);
                        assert(picked@.take(p) =~= picked0);
                        if ws[sel as int] == 0 {
                            assert forall|j: int|
                                0 <= j < k && !holds_index(picked0, j) implies ws[j] == 0 by {
                                assert(holds_index(avail0, j));
                                let q = choose|q: int|
                                    0 <= q < avail0.len() && #[trigger] avail0[q] as int == j;
                                assert(aws[q] == ws[j]);
                            }
                        }
                    }
                }
            }
        }
        Ok(picked)
    }

    /// Draw `n` distinct choices, without replacement, each paired with
    /// its original weight.
    ///
    /// Equivalent to rebuilding the distribution over the not-yet-drawn
    /// choices after every draw: no index is drawn twice, every drawn value
    /// is a copy of one of the sampler's choices, and a zero-weight choice
    /// is drawn only once every remaining choice has weight zero.  Exactly
    /// `n` values are drawn from the source; a failed call draws none.  The
    /// sampler itself is unchanged.  Fails exactly when more choices are
    /// requested than the sampler holds.
    pub fn sample_unique<R: RandomSource>(&self, rng: &mut R, n: usize) -> (result: Result<
        Vec<(T, i64)>,
        DrawError,
    >)
        requires
            self.wf(),
        ensures
            match result {
                Ok(pairs) => n <= self.choices().len() && (exists|idxs: Seq<usize>|
                    #[trigger] unique_index_draw(self.weights(), idxs, n as int) && pairs_drawn(
                        self.choices(),
                        self.weights(),
                        idxs,
                        pairs@,
                    )) && final(rng).draws() == old(rng).draws() + n,
                Err(e) => n > self.choices().len() && e == DrawError::CountExceedsChoices
                    && *final(rng) == *old(rng),
            },
    {
        let idxs = match self.sample_unique_indices(rng, n) {
            Ok(v) => v,
            Err(e) => {
                return Err(e);
            },
        };
        let mut pairs: Vec<(T, i64)> = Vec::new();
        let mut p: usize = 0;
        while p < idxs.len()
            invariant
                pairs@.len() == p,
                p <= idxs@.len(),
                forall|q: int|
                    0 <= q < p ==> cloned(self.choices()[#[trigger] idxs@[q] as int], pairs@[q].0)
                        && pairs@[q].1 as int == self.weights()[idxs@[q] as int],
            decreases idxs@.len() - p,
        {
            let idx = idxs[p];
            let c = self.choice_vec[idx].clone();
            let w = self.weight_vec[idx];
            pairs.push((c, w));
            p += 1;
        }
        proof {
            assert(unique_index_draw(self.weights(), idxs@, n as int) && pairs_drawn(
                self.choices(),
                self.weights(),
                idxs@,
                pairs@,
            ));
        }
        Ok(pairs)
    }
}

} // verus!
