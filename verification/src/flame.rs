//! The stochastic side of the chaos-game ("flame") sampler: the catalogue
//! of nonlinear coordinate warps, and the weighted random choice of which
//! affine transform fires each round.
//!
//! The choice runs on rand's `WeightedIndex` over a seeded `StdRng`; the
//! weight table is validated up front, so that a malformed configuration
//! fails fast with a structured error instead of reaching the sampler.

use rand::distributions::WeightedError;
use rand::distributions::WeightedIndex;
use rand::rngs::StdRng;
use rand::Rng;
use vstd::prelude::*;

verus! {

/// The nonlinear coordinate warps a flame configuration can blend, applied
/// to the affine-transformed point every round.
#[derive(Clone, Copy, PartialEq, Eq, Structural, Debug)]
pub enum VariationFunction {
    Bisin,
    Linear,
    Spherical,
    Julia,
    Swirl,
}

/// Why a transform weight table cannot drive the chaos game.
#[derive(Clone, Copy, PartialEq, Eq, Structural, Debug)]
pub enum FlameConfigError {
    /// The table is empty: there is no transform to choose.
    NoTransformWeights,
    /// Every weight is zero: no transform could ever fire.
    AllWeightsZero,
    /// The weights add up past what the sampler's byte-sized accumulator
    /// holds.
    WeightTotalTooLarge,
}

/// rand's `WeightedIndex` over byte weights. Verus refuses the outside
/// struct's own generic bounds, so the value is held opaquely and reached
/// only through the trusted wrappers below.
#[verifier::external_body]
pub struct ByteWeightedIndex {
    index: WeightedIndex<u8>,
}

#[verifier::external_type_specification]
#[verifier::external_body]
pub struct ExWeightedError(WeightedError);

#[verifier::external_type_specification]
#[verifier::external_body]
pub struct ExStdRng(StdRng);

/// The weight table a `ByteWeightedIndex` was built over.
pub uninterp spec fn dist_weights(d: ByteWeightedIndex) -> Seq<u8>;

/// Sum of a weight table.
pub open spec fn weight_total(s: Seq<u8>) -> int
    decreases s.len(),
{
    if s.len() == 0 {
        0
    } else {
        weight_total(s.drop_last()) + s.last()
    }
}

/// Extending a prefix of `s` by one weight adds that weight to the total.
proof fn lemma_weight_total_take_succ(s: Seq<u8>, k: int)
    requires
        0 <= k < s.len(),
    ensures
        weight_total(s.take(k + 1)) == weight_total(s.take(k)) + s[k],
{
    assert(s.take(k + 1).drop_last() =~= s.take(k));
    assert(s.take(k + 1).last() == s[k]);
}

/// A prefix of the table never weighs more than the whole table.
proof fn lemma_weight_total_take_le(s: Seq<u8>, k: int)
    requires
        0 <= k <= s.len(),
    ensures
        weight_total(s.take(k)) <= weight_total(s),
    decreases s.len() - k,
{
    if k == s.len() {
        assert(s.take(k) =~= s);
    } else {
        lemma_weight_total_take_succ(s, k);
        lemma_weight_total_take_le(s, k + 1);
    }
}

/// Relies on rand's `WeightedIndex::new`: over `u8` weights it fails with
/// an error exactly when the table is empty or its total is zero, and
/// otherwise yields the distribution over exactly the given weights. Its
/// `u8` accumulator caps the total this wrapper may be asked to sum.
#[verifier::external_body]
fn new_weighted_index(weights: &Vec<u8>) -> (r: Result<ByteWeightedIndex, WeightedError>)
    requires
        weight_total(weights@) <= u8::MAX,
    ensures
        r matches Ok(d) ==> dist_weights(d) == weights@ && weights@.len() > 0 && weight_total(
            weights@,
        ) > 0,
        r is Err ==> weights@.len() == 0 || weight_total(weights@) == 0,
{
    WeightedIndex::new(weights).map(|index| ByteWeightedIndex { index })
}

/// Relies on rand's `WeightedIndex` sampling: whatever the random draw,
/// the returned index lies inside the weight table and never names a zero
/// weight.
#[verifier::external_body]
fn sample_weighted_index(d: &ByteWeightedIndex, rng: &mut StdRng) -> (i: usize)
    ensures
        i < dist_weights(*d).len(),
        dist_weights(*d)[i as int] > 0,
{
    rng.sample(&d.index)
}

/// The weighted-random choice of which chaos-game transform fires each
/// round: index `j` is drawn with probability proportional to `weights[j]`.
pub struct FlameDistribution {
    weights: Vec<u8>,
    index: ByteWeightedIndex,
}

impl FlameDistribution {
    /// The weight table this distribution draws from.
    pub closed spec fn weight_seq(self) -> Seq<u8> {
        self.weights@
    }

    /// The sampler was built over this very table, and the table is one
    /// the sampler accepts.
    pub closed spec fn wf(self) -> bool {
        &&& dist_weights(self.index) == self.weights@
        &&& 0 < weight_total(self.weights@) <= u8::MAX
    }

    /// Validate a transform weight table and build the distribution over
    /// it. Exactly the malformed tables are rejected, each with the error
    /// that names its defect.
    pub fn new(weights: Vec<u8>) -> (r: Result<FlameDistribution, FlameConfigError>)
        ensures
            weights@.len() == 0 ==> r == Err::<FlameDistribution, FlameConfigError>(
                FlameConfigError::NoTransformWeights,
            ),
            weights@.len() > 0 && weight_total(weights@) == 0 ==> r == Err::<
                FlameDistribution,
                FlameConfigError,
            >(FlameConfigError::AllWeightsZero),
            weight_total(weights@) > u8::MAX ==> r == Err::<FlameDistribution, FlameConfigError>(
                FlameConfigError::WeightTotalTooLarge,
            ),
            0 < weight_total(weights@) <= u8::MAX ==> r is Ok,
            r matches Ok(d) ==> d.wf() && d.weight_seq() == weights@,
    {
        let mut total: u32 = 0;
        let mut i: usize = 0;
        while i < weights.len()
            invariant
                i <= weights.len(),
                total == weight_total(weights@.take(i as int)),
                total <= u8::MAX,
            decreases weights.len() - i,
        {
            let w = weights[i];
            proof {
                lemma_weight_total_take_succ(weights@, i as int);
            }
            if total + w as u32 > u8::MAX as u32 {
                proof {
                    lemma_weight_total_take_le(weights@, i as int + 1);
                }
                return Err(FlameConfigError::WeightTotalTooLarge);
            }
            total = total + w as u32;
            i = i + 1;
        }
        proof {
            assert(weights@.take(weights@.len() as int) =~= weights@);
        }
        if weights.len() == 0 {
            return Err(FlameConfigError::NoTransformWeights);
        }
        if total == 0 {
            return Err(FlameConfigError::AllWeightsZero);
        }
        match new_weighted_index(&weights) {
            Ok(index) => Ok(FlameDistribution { weights, index }),
            // The sampler only rejects tables the checks above already
            // rejected, so this arm is proven unreachable.
            Err(_) => {
                proof {
                    assert(false);
                }
                Err(FlameConfigError::AllWeightsZero)
            },
        }
    }

    /// Draw the transform that fires this round: an in-range index whose
    /// weight is not zero.
    pub fn sample(&self, rng: &mut StdRng) -> (i: usize)
        requires
            self.wf(),
        ensures
            i < self.weight_seq().len(),
            self.weight_seq()[i as int] > 0,
    {
        sample_weighted_index(&self.index, rng)
    }

    /// How many transforms the table holds.
    pub fn len(&self) -> (n: usize)
        ensures
            n == self.weight_seq().len(),
    {
        self.weights.len()
    }
}

} // verus!
