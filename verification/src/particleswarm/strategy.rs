//! What can be chosen about the behaviour of the swarm.

use crate::float;
use crate::float::{ArgminFloat, Real};
use vstd::prelude::*;

verus! {

/// Strategy for initializing particle positions
#[derive(Clone, Copy, Debug, PartialEq, Structural)]
pub enum InitializationStrategy {
    /// Standard uniform random initialization (default)
    UniformRandom,
    /// Latin Hypercube Sampling - ensures uniform distribution across search space
    LatinHypercube,
    /// Opposition-Based Learning - generates both random and opposite positions, selects best
    OppositionBased,
}

impl Default for InitializationStrategy {
    fn default() -> (r: Self)
        ensures
            r == InitializationStrategy::UniformRandom,
    {
        InitializationStrategy::UniformRandom
    }
}

/// Mutation strategy for avoiding local optima
#[derive(Clone, Copy, Debug, PartialEq)]
pub enum MutationStrategy<W> {
    /// No mutation
    Disabled,
    /// Gaussian mutation with specified standard deviation
    Gaussian(W),
    /// Cauchy mutation with specified scale parameter
    Cauchy(W),
}

impl<W> Default for MutationStrategy<W> {
    fn default() -> (r: Self)
        ensures
            r == MutationStrategy::<W>::Disabled,
    {
        MutationStrategy::Disabled
    }
}

impl<W: Real> MutationStrategy<W> {
    /// Whether random numbers can be drawn from the distribution.
    pub open spec fn is_valid(self) -> bool {
        match self {
            MutationStrategy::Disabled => true,
            MutationStrategy::Gaussian(deviation) => float::finite(deviation),
            MutationStrategy::Cauchy(scale) => float::zero::<W>().spec_less(scale),
        }
    }
}

/// Determines which particles to apply mutation to
#[derive(Clone, Copy, Debug, PartialEq, Structural)]
pub enum MutationApplication {
    /// No mutation application (default)
    Disabled,
    /// Apply mutation only to the global best particle (most efficient)
    GlobalBestOnly,
    /// Apply mutation to all particles with given probability (maximum diversity)
    AllParticles,
    /// Apply mutation only to particles with below-average fitness (balanced approach)
    BelowAverage,
}

impl Default for MutationApplication {
    fn default() -> (r: Self)
        ensures
            r == MutationApplication::Disabled,
    {
        MutationApplication::Disabled
    }
}

/// Strategy for controlling acceleration coefficients (cognitive and social factors)
#[derive(Clone, Copy, Debug, PartialEq)]
pub enum AccelerationCoefficientStrategy<F> {
    /// Constant coefficients throughout optimization (canonical PSO)
    Constant {
        /// Cognitive coefficient (c1)
        cognitive: F,
        /// Social coefficient (c2)
        social: F,
    },
    /// Time-Varying Acceleration Coefficients (TVAC)
    TimeVarying {
        /// Initial cognitive factor
        c1_initial: F,
        /// Final cognitive factor
        c1_final: F,
        /// Initial social factor
        c2_initial: F,
        /// Final social factor
        c2_final: F,
    },
}

/// The default of the acceleration coefficients, `0.5 + ln(2)`.
pub open spec fn default_acceleration<F: Real>() -> F {
    F::spec_decimal(11931471805599454, 16)
}

/// The default of the acceleration coefficients, `0.5 + ln(2)`.
pub fn standard_acceleration<F: Real>() -> (r: F)
    ensures
        r == default_acceleration::<F>(),
{
    F::decimal(11931471805599454, 16)
}

impl<F: ArgminFloat> Default for AccelerationCoefficientStrategy<F> {
    fn default() -> (r: Self)
        ensures
            r == (AccelerationCoefficientStrategy::Constant {
                cognitive: default_acceleration::<F>(),
                social: default_acceleration::<F>(),
            }),
    {
        AccelerationCoefficientStrategy::Constant {
            cognitive: standard_acceleration(),
            social: standard_acceleration(),
        }
    }
}

impl<F: Real> AccelerationCoefficientStrategy<F> {
    /// The cognitive and the social coefficient in iteration `iter` of `max_iterations`.
    pub open spec fn coefficients(self, iter: u64, max_iterations: usize) -> (F, F) {
        match self {
            AccelerationCoefficientStrategy::Constant { cognitive, social } => (cognitive, social),
            AccelerationCoefficientStrategy::TimeVarying {
                c1_initial,
                c1_final,
                c2_initial,
                c2_final,
            } => {
                let progress = F::spec_from_u64(iter).spec_over(
                    F::spec_from_u64(max_iterations as u64),
                );
                (
                    c1_initial.spec_plus(c1_final.spec_minus(c1_initial).spec_times(progress)),
                    c2_initial.spec_plus(c2_final.spec_minus(c2_initial).spec_times(progress)),
                )
            },
        }
    }
}

/// Strategy for controlling inertia weight
#[derive(Clone, Copy, Debug, PartialEq)]
pub enum InertiaWeightStrategy<F> {
    /// Constant inertia weight (canonical PSO)
    Constant(F),
    /// Chaotic inertia weight using logistic map
    Chaotic {
        /// Minimum inertia weight
        w_min: F,
        /// Maximum inertia weight
        w_max: F,
        /// Current chaotic state (z in (0,1) for logistic map)
        state: F,
    },
}

/// The default of the inertia weight, `1/(2 * ln(2))`.
pub open spec fn default_inertia<F: Real>() -> F {
    F::spec_decimal(7213475204444817, 16)
}

impl<F: ArgminFloat> Default for InertiaWeightStrategy<F> {
    fn default() -> (r: Self)
        ensures
            r == InertiaWeightStrategy::Constant(default_inertia::<F>()),
    {
        InertiaWeightStrategy::Constant(F::decimal(7213475204444817, 16))
    }
}

impl<F: Real> InertiaWeightStrategy<F> {
    /// The strategy after one iteration: the chaotic state `z` becomes `4 * z * (1 - z)`.
    pub open spec fn advanced(self) -> Self {
        match self {
            InertiaWeightStrategy::Constant(_) => self,
            InertiaWeightStrategy::Chaotic { w_min, w_max, state } => {
                InertiaWeightStrategy::Chaotic {
                    w_min,
                    w_max,
                    state: F::spec_decimal(4, 0).spec_times(state).spec_times(
                        float::one::<F>().spec_minus(state),
                    ),
                }
            },
        }
    }

    /// The inertia weight: the chaotic state `z` stands for `w_min + (w_max - w_min) * z`.
    pub open spec fn weight(self) -> F {
        match self {
            InertiaWeightStrategy::Constant(weight) => weight,
            InertiaWeightStrategy::Chaotic { w_min, w_max, state } => w_min.spec_plus(
                w_max.spec_minus(w_min).spec_times(state),
            ),
        }
    }
}

impl<F: Real> InertiaWeightStrategy<F> {
    /// The strategy after `k` iterations.
    pub open spec fn advanced_by(self, k: nat) -> Self
        decreases k,
    {
        if k == 0 {
            self
        } else {
            self.advanced_by((k - 1) as nat).advanced()
        }
    }
}

/// A chaotic inertia weight after `k` iterations from `state`.
pub open spec fn chaotic<F: Real>(w_min: F, w_max: F, state: F, k: nat) -> InertiaWeightStrategy<F> {
    (InertiaWeightStrategy::Chaotic { w_min, w_max, state }).advanced_by(k)
}

/// The chaotic state stays between zero and one.
proof fn lemma_chaotic_state_within<F: ArgminFloat>(w_min: F, w_max: F, state: F, k: nat)
    requires
        float::at_most(float::zero(), state),
        float::at_most(state, float::one()),
    ensures
        chaotic(w_min, w_max, state, k) is Chaotic,
        chaotic(w_min, w_max, state, k)->w_min == w_min,
        chaotic(w_min, w_max, state, k)->w_max == w_max,
        float::at_most(float::zero(), chaotic(w_min, w_max, state, k)->state),
        float::at_most(chaotic(w_min, w_max, state, k)->state, float::one()),
    decreases k,
{
    if k > 0 {
        lemma_chaotic_state_within(w_min, w_max, state, (k - 1) as nat);
        F::logistic_laws(chaotic(w_min, w_max, state, (k - 1) as nat)->state);
    }
}

/// A chaotic inertia weight that starts from a state between zero and one stays, in every iteration,
/// between the least and the greatest weight, but for rounding: it is at least the least weight, and
/// at most every number above the greatest. Where the greatest weight is infinite, the state must
/// not be zero, for zero times infinity is undefined.
pub proof fn law_chaotic_weight_within<F: ArgminFloat>(
    w_min: F,
    w_max: F,
    state: F,
    k: nat,
    c: F,
)
    requires
        float::at_most(float::zero(), w_min),
        w_min.spec_less(w_max),
        float::at_most(float::zero(), state),
        float::at_most(state, float::one()),
        float::infinite(w_max) ==> float::zero::<F>().spec_less(
            chaotic(w_min, w_max, state, k)->state,
        ),
    ensures
        ({
            let now = chaotic(w_min, w_max, state, k);
            &&& float::at_most(float::zero(), now->state)
            &&& float::at_most(now->state, float::one())
            &&& now.weight() == w_min.spec_plus(w_max.spec_minus(w_min).spec_times(now->state))
            &&& float::at_most(w_min, now.weight())
            &&& w_max.spec_less(c) ==> float::at_most(now.weight(), c)
        }),
{
    let now = chaotic(w_min, w_max, state, k);
    let z = now->state;
    let range = w_max.spec_minus(w_min);
    let (least, most) = (F::spec_neg_infinity(), F::spec_infinity());
    lemma_chaotic_state_within(w_min, w_max, state, k);
    F::constant_laws();
    F::order_laws(most, w_min, w_max);
    F::order_laws(w_min, most, w_max);
    F::order_laws(float::zero(), w_min, least);
    F::order_laws(w_min, w_max, least);
    F::order_laws(w_max, most, c);
    F::order_laws(most, w_max, c);
    if float::finite(w_max) {
        F::span_laws(w_min, w_max, c);
        F::difference_laws(w_min, w_max, w_min, w_max);
        F::fraction_laws(w_min, range, z);
        F::order_laws(now.weight(), w_min.spec_plus(range), c);
    } else {
        F::infinity_laws(w_min, w_max, z);
        F::order_laws(c, c, c);
    }
}

/// The state that a chaotic inertia weight starts from lies between zero and one.
pub proof fn law_chaotic_start_within<F: ArgminFloat>()
    ensures
        float::at_most(float::zero::<F>(), F::spec_decimal(7, 1)),
        float::at_most(F::spec_decimal(7, 1), float::one()),
{
    F::constant_laws();
}

/// A constant inertia weight never changes.
pub proof fn law_constant_weight_stays<F: Real>(weight: F, k: nat)
    ensures
        InertiaWeightStrategy::Constant(weight).advanced_by(k) == InertiaWeightStrategy::Constant(
            weight,
        ),
        InertiaWeightStrategy::Constant(weight).advanced_by(k).weight() == weight,
    decreases k,
{
    if k > 0 {
        law_constant_weight_stays(weight, (k - 1) as nat);
    }
}

} // verus!
