//! Random choice among the rules that apply: uniform, or weighted by rule.

use vstd::prelude::*;
use rand::distributions::{Distribution, Uniform, WeightedIndex};
use rand::rngs::ThreadRng;
use rand::Rng;
use crate::grammar::as_ints;

verus! {

/// The thread-local generator of the `rand` crate. Nothing is known of its
/// state: every draw may give any value that the draw's contract allows.
#[verifier::external_type_specification]
#[verifier::external_body]
pub struct ExThreadRng(ThreadRng);

/// `rand::thread_rng` hands out a handle to the generator of the current
/// thread. It takes no input and nothing is claimed of the handle.
pub assume_specification[ rand::thread_rng ]() -> (rng: ThreadRng)
;

/// The weight of rule `i`: the entry of `weights` at `i`, and zero for a rule
/// that `weights` does not reach.
pub open spec fn weight_at(weights: Seq<u64>, i: int) -> u64 {
    if 0 <= i < weights.len() {
        weights[i]
    } else {
        0
    }
}

/// The weights of the rules listed in `choices`, in the order of `choices`.
pub open spec fn restricted(choices: Seq<int>, weights: Seq<u64>) -> Seq<u64> {
    Seq::new(choices.len(), |k: int| weight_at(weights, choices[k]))
}

/// The sum of a list of weights.
pub open spec fn total(w: Seq<u64>) -> int
    decreases w.len(),
{
    if w.len() == 0 {
        0
    } else {
        total(w.drop_last()) + w.last()
    }
}

/// Draws an index below `n` from a uniform distribution.
///
/// Wraps `Uniform::from(0..n)` and `Distribution::sample` of `rand`. The
/// constructor panics on an empty range, which `requires` excludes; a sample
/// of the half-open range lies in it.
#[verifier::external_body]
fn uniform_below(rng: &mut ThreadRng, n: usize) -> (k: usize)
    requires
        n > 0,
    ensures
        k < n,
{
    Uniform::from(0..n).sample(rng)
}

/// Draws an index below `n` with a single-use uniform sampler.
///
/// Wraps `Rng::gen_range` of `rand` on the half-open range `0..n`. It panics
/// on an empty range, which `requires` excludes; its result lies in the
/// range.
#[verifier::external_body]
fn range_below(rng: &mut ThreadRng, n: usize) -> (k: usize)
    requires
        n > 0,
    ensures
        k < n,
{
    rng.gen_range(0..n)
}

/// Draws an index with a chance proportional to its weight, or `None` where
/// the weights admit no such draw.
///
/// Wraps `WeightedIndex::new` and `Distribution::sample` of `rand`. The
/// constructor adds the weights up without a check, so `requires` keeps the
/// sum within `u64`; it fails exactly when there is no weight or their sum is
/// zero. A sample is the first index whose running sum exceeds a value drawn
/// below the total: it is an index of `weights`, and its weight is not zero.
#[verifier::external_body]
fn weighted_below(rng: &mut ThreadRng, weights: &Vec<u64>) -> (k: Option<usize>)
    requires
        total(weights@) <= u64::MAX,
    ensures
        k is Some <==> total(weights@) > 0,
        k matches Some(i) ==> i < weights@.len() && weights@[i as int] > 0,
{
    match WeightedIndex::new(weights) {
        Ok(dist) => Some(dist.sample(rng)),
        Err(_) => None,
    }
}

/// The weights of the rules in `choices`, in order; a rule beyond the end of
/// `weights` weighs nothing.
pub fn restrict_weights(choices: &Vec<usize>, weights: &Vec<u64>) -> (r: Vec<u64>)
    ensures
        r@ == restricted(as_ints(choices@), weights@),
{
    let mut r: Vec<u64> = Vec::new();
    let mut k: usize = 0;
    while k < choices.len()
        invariant
            k <= choices.len(),
            r@ == restricted(as_ints(choices@), weights@).take(k as int),
        decreases choices.len() - k,
    {
        let i: usize = choices[k];
        let w: u64 = if i < weights.len() {
            weights[i]
        } else {
            0
        };
        r.push(w);
        proof {
            let all = restricted(as_ints(choices@), weights@);
            assert(all.take(k + 1) =~= all.take(k as int).push(w));
        }
        k = k + 1;
    }
    proof {
        let all = restricted(as_ints(choices@), weights@);
        assert(all.take(k as int) =~= all);
    }
    r
}

/// The sum of the weights, or `None` where it does not fit in `u64`.
pub fn checked_total(w: &Vec<u64>) -> (t: Option<u64>)
    ensures
        match t {
            Some(t) => t == total(w@),
            None => total(w@) > u64::MAX,
        },
{
    let mut sum: u64 = 0;
    let mut k: usize = 0;
    while k < w.len()
        invariant
            k <= w.len(),
            sum == total(w@.take(k as int)),
        decreases w.len() - k,
    {
        proof {
            assert(w@.take(k + 1).drop_last() =~= w@.take(k as int));
            lemma_total_grows(w@, k + 1);
        }
        sum = match sum.checked_add(w[k]) {
            Some(s) => s,
            None => {
                return None;
            },
        };
        k = k + 1;
    }
    proof {
        assert(w@.take(k as int) =~= w@);
    }
    Some(sum)
}

/// The sum of a prefix is at most the sum of the whole list.
pub proof fn lemma_total_grows(w: Seq<u64>, k: int)
    requires
        0 <= k <= w.len(),
    ensures
        total(w.take(k)) <= total(w),
    decreases w.len() - k,
{
    if k < w.len() {
        assert(w.take(k + 1).drop_last() =~= w.take(k));
        lemma_total_grows(w, k + 1);
    } else {
        assert(w.take(k) =~= w);
    }
}

/// The weights that decide among `choices`: those of the rules in
/// `choices`, where their sum is positive and fits in `u64`. Otherwise the
/// weights say nothing of these rules, and `None` is returned.
pub fn usable_weights(choices: &Vec<usize>, weights: &Vec<u64>) -> (r: Option<Vec<u64>>)
    ensures
        match r {
            Some(local) => local@ == restricted(as_ints(choices@), weights@) && 0 < total(local@)
                <= u64::MAX,
            None => !(0 < total(restricted(as_ints(choices@), weights@)) <= u64::MAX),
        },
{
    let local = restrict_weights(choices, weights);
    match checked_total(&local) {
        Some(t) => if t > 0 {
            Some(local)
        } else {
            None
        },
        None => None,
    }
}

/// Picks one of `choices` at random, or `None` where there is none to pick.
///
/// Without weights the pick is uniform. With weights, each rule is picked
/// with a chance proportional to its weight; where the weights of `choices`
/// add up to zero, or to more than `u64` holds, the pick is uniform instead.
/// Whatever is drawn, the result is one of `choices`, and where the weights
/// decide it is a rule of positive weight.
pub fn choose_rule(rng: &mut ThreadRng, choices: &Vec<usize>, weights: Option<&Vec<u64>>) -> (r:
    Option<usize>)
    ensures
        r is None <==> choices@.len() == 0,
        r matches Some(ridx) ==> choices@.contains(ridx),
        r matches Some(ridx) ==> (weights matches Some(w) ==> (0 < total(
            restricted(as_ints(choices@), w@),
        ) <= u64::MAX ==> weight_at(w@, ridx as int) > 0)),
{
    if choices.len() == 0 {
        return None;
    }
    let pos: usize = match weights {
        None => uniform_below(rng, choices.len()),
        Some(w) => match usable_weights(choices, w) {
            Some(local) => match weighted_below(rng, &local) {
                Some(k) => k,
                None => range_below(rng, choices.len()),
            },
            None => range_below(rng, choices.len()),
        },
    };
    Some(choices[pos])
}

} // verus!
