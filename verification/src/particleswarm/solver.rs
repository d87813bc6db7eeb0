//! The solver and its settings.

use crate::error;
use crate::error::{Error, ErrorView};
use crate::float;
use crate::float::{ArgminFloat, Real};
use crate::particleswarm::strategy;
use crate::particleswarm::strategy::{
    AccelerationCoefficientStrategy, InertiaWeightStrategy, InitializationStrategy,
    MutationApplication, MutationStrategy,
};
use crate::random;
use rand::rngs::StdRng;
use vstd::prelude::*;

verus! {

/// Particle Swarm Optimization (PSO)
///
/// Canonical implementation of the particle swarm optimization method, along with several optional
/// enhancements including time-varying coefficients, chaotic inertia, multiple initialization
/// strategies, mutation operators, and velocity control mechanisms.
pub struct ParticleSwarm<P, F: ArgminFloat, R> {
    /// Bounds on parameter space
    pub bounds: (P, P),
    /// Number of particles
    pub num_particles: usize,
    /// Inertia weight strategy
    pub inertia_strategy: InertiaWeightStrategy<F>,
    /// Acceleration coefficient strategy
    pub acceleration_strategy: AccelerationCoefficientStrategy<F>,
    /// Particle initialization strategy
    pub initialization_strategy: InitializationStrategy,
    /// Velocity clamping factor (as fraction of search space range, None = disabled)
    pub velocity_clamp_factor: Option<F>,
    /// Threshold below which velocity is considered near-zero and should be reinitialized (None = disabled)
    pub velocity_mutation_threshold: Option<F>,
    /// Mutation strategy
    pub mutation_strategy: MutationStrategy<F::Wide>,
    /// Mutation probability (applied per iteration)
    pub mutation_probability: F,
    /// Which particles to apply mutation to
    pub mutation_application: MutationApplication,
    /// Maximum iterations (for time-varying strategies like TVAC)
    pub max_iterations: usize,
    /// Random number generator
    pub rng_generator: R,
}

impl<P: Clone, F: ArgminFloat, R: Clone> Clone for ParticleSwarm<P, F, R> {
    fn clone(&self) -> (r: Self)
        ensures
            r == (ParticleSwarm { bounds: r.bounds, rng_generator: r.rng_generator, ..*self }),
            cloned(self.bounds.0, r.bounds.0),
            cloned(self.bounds.1, r.bounds.1),
            cloned(self.rng_generator, r.rng_generator),
    {
        ParticleSwarm {
            bounds: (self.bounds.0.clone(), self.bounds.1.clone()),
            num_particles: self.num_particles,
            inertia_strategy: self.inertia_strategy,
            acceleration_strategy: self.acceleration_strategy,
            initialization_strategy: self.initialization_strategy,
            velocity_clamp_factor: self.velocity_clamp_factor,
            velocity_mutation_threshold: self.velocity_mutation_threshold,
            mutation_strategy: self.mutation_strategy,
            mutation_probability: self.mutation_probability,
            mutation_application: self.mutation_application,
            max_iterations: self.max_iterations,
            rng_generator: self.rng_generator.clone(),
        }
    }
}

/// Either new settings, or the error for an invalid parameter.
pub open spec fn checked<T>(fault: bool, text: Seq<char>, settings: T) -> Result<T, ErrorView> {
    if fault {
        Err(ErrorView::InvalidParameter(text))
    } else {
        Ok(settings)
    }
}

/// Whether a value is negative.
pub open spec fn is_negative<F: Real>(a: F) -> bool {
    a.spec_less(float::zero())
}

/// Whether a value is negative.
fn negative<F: Real>(a: F) -> (r: bool)
    ensures
        r == is_negative(a),
{
    a.less(F::decimal(0, 0))
}

impl<P, F: ArgminFloat> ParticleSwarm<P, F, StdRng> {
    /// Construct a new instance of `ParticleSwarm`
    ///
    /// Takes the number of particles and bounds on the search space as inputs. `bounds` is a tuple
    /// `(lower_bound, upper_bound)`, where `lower_bound` and `upper_bound` are of the same type as
    /// the position of a particle (`P`) and of the same length as the problem as dimensions.
    ///
    /// The weights and acceleration factors default to:
    ///
    /// * inertia: `1/(2 * ln(2))`
    /// * cognitive: `0.5 + ln(2)`
    /// * social: `0.5 + ln(2)`
    pub fn new(bounds: (P, P), num_particles: usize) -> (r: Self)
        ensures
            r == (ParticleSwarm {
                bounds,
                num_particles,
                inertia_strategy: InertiaWeightStrategy::Constant(strategy::default_inertia::<F>()),
                acceleration_strategy: AccelerationCoefficientStrategy::Constant {
                    cognitive: strategy::default_acceleration::<F>(),
                    social: strategy::default_acceleration::<F>(),
                },
                initialization_strategy: InitializationStrategy::UniformRandom,
                velocity_clamp_factor: None,
                velocity_mutation_threshold: None,
                mutation_strategy: MutationStrategy::Disabled,
                mutation_probability: float::zero::<F>(),
                mutation_application: MutationApplication::Disabled,
                max_iterations: 1000,
                rng_generator: r.rng_generator,
            }),
    {
        ParticleSwarm {
            bounds,
            num_particles,
            inertia_strategy: InertiaWeightStrategy::default(),
            acceleration_strategy: AccelerationCoefficientStrategy::default(),
            initialization_strategy: InitializationStrategy::UniformRandom,
            velocity_clamp_factor: None,
            velocity_mutation_threshold: None,
            mutation_strategy: MutationStrategy::Disabled,
            mutation_probability: F::decimal(0, 0),
            mutation_application: MutationApplication::Disabled,
            max_iterations: 1000,
            rng_generator: random::std_rng(),
        }
    }
}

impl<P, F: ArgminFloat, R> ParticleSwarm<P, F, R> {
    /// Set the random number generator
    ///
    /// Defaults to a standard generator that is seeded by the operating system.
    pub fn with_rng_generator<R1>(self, generator: R1) -> (r: ParticleSwarm<P, F, R1>)
        ensures
            r == (ParticleSwarm {
                bounds: self.bounds,
                num_particles: self.num_particles,
                inertia_strategy: self.inertia_strategy,
                acceleration_strategy: self.acceleration_strategy,
                initialization_strategy: self.initialization_strategy,
                velocity_clamp_factor: self.velocity_clamp_factor,
                velocity_mutation_threshold: self.velocity_mutation_threshold,
                mutation_strategy: self.mutation_strategy,
                mutation_probability: self.mutation_probability,
                mutation_application: self.mutation_application,
                max_iterations: self.max_iterations,
                rng_generator: generator,
            }),
    {
        ParticleSwarm {
            bounds: self.bounds,
            num_particles: self.num_particles,
            inertia_strategy: self.inertia_strategy,
            acceleration_strategy: self.acceleration_strategy,
            initialization_strategy: self.initialization_strategy,
            velocity_clamp_factor: self.velocity_clamp_factor,
            velocity_mutation_threshold: self.velocity_mutation_threshold,
            mutation_strategy: self.mutation_strategy,
            mutation_probability: self.mutation_probability,
            mutation_application: self.mutation_application,
            max_iterations: self.max_iterations,
            rng_generator: generator,
        }
    }

    /// Set constant inertia factor on particle velocity
    ///
    /// Defaults to `1/(2 * ln(2))`.
    pub fn with_inertia_factor(self, factor: F) -> (r: Result<Self, Error>)
        ensures
            error::outcome(r) == checked(
                is_negative(factor),
                "`ParticleSwarm`: inertia factor must be >=0."@,
                ParticleSwarm { inertia_strategy: InertiaWeightStrategy::Constant(factor), ..self },
            ),
    {
        if negative(factor) {
            return Err(Error::invalid_parameter("`ParticleSwarm`: inertia factor must be >=0."));
        }
        Ok(ParticleSwarm { inertia_strategy: InertiaWeightStrategy::Constant(factor), ..self })
    }

    /// Enable chaotic inertia weight using logistic map
    ///
    /// Uses a logistic map (z_next = 4 * z * (1 - z)) to generate chaotic variation in the
    /// inertia weight. The chaotic state z in (0,1) is mapped to w in [w_min, w_max].
    pub fn with_chaotic_inertia(self, w_min: F, w_max: F) -> (r: Result<Self, Error>)
        ensures
            error::outcome(r) == checked(
                is_negative(w_min) || is_negative(w_max) || float::at_most(w_max, w_min),
                "`ParticleSwarm`: chaotic inertia range must satisfy 0 <= w_min < w_max."@,
                ParticleSwarm {
                    inertia_strategy: InertiaWeightStrategy::Chaotic {
                        w_min,
                        w_max,
                        state: F::spec_decimal(7, 1),
                    },
                    ..self
                },
            ),
    {
        if negative(w_min) || negative(w_max) || float::is_at_most(w_max, w_min) {
            return Err(
                Error::invalid_parameter(
                    "`ParticleSwarm`: chaotic inertia range must satisfy 0 <= w_min < w_max.",
                ),
            );
        }
        // 0.7 is none of the fixed points 0, 0.5 and 1
        Ok(
            ParticleSwarm {
                inertia_strategy: InertiaWeightStrategy::Chaotic {
                    w_min,
                    w_max,
                    state: F::decimal(7, 1),
                },
                ..self
            },
        )
    }

    /// Set cognitive acceleration factor
    ///
    /// Defaults to `0.5 + ln(2)`.
    pub fn with_cognitive_factor(self, factor: F) -> (r: Result<Self, Error>)
        ensures
            error::outcome(r) == checked(
                is_negative(factor),
                "`ParticleSwarm`: cognitive factor must be >=0."@,
                ParticleSwarm {
                    acceleration_strategy: AccelerationCoefficientStrategy::Constant {
                        cognitive: factor,
                        social: match self.acceleration_strategy {
                            AccelerationCoefficientStrategy::Constant { social, .. } => social,
                            _ => strategy::default_acceleration(),
                        },
                    },
                    ..self
                },
            ),
    {
        if negative(factor) {
            return Err(Error::invalid_parameter("`ParticleSwarm`: cognitive factor must be >=0."));
        }
        let social = match self.acceleration_strategy {
            AccelerationCoefficientStrategy::Constant { social, .. } => social,
            _ => strategy::standard_acceleration(),
        };
        Ok(
            ParticleSwarm {
                acceleration_strategy: AccelerationCoefficientStrategy::Constant {
                    cognitive: factor,
                    social,
                },
                ..self
            },
        )
    }

    /// Set social acceleration factor
    ///
    /// Defaults to `0.5 + ln(2)`.
    pub fn with_social_factor(self, factor: F) -> (r: Result<Self, Error>)
        ensures
            error::outcome(r) == checked(
                is_negative(factor),
                "`ParticleSwarm`: social factor must be >=0."@,
                ParticleSwarm {
                    acceleration_strategy: AccelerationCoefficientStrategy::Constant {
                        cognitive: match self.acceleration_strategy {
                            AccelerationCoefficientStrategy::Constant { cognitive, .. } => cognitive,
                            _ => strategy::default_acceleration(),
                        },
                        social: factor,
                    },
                    ..self
                },
            ),
    {
        if negative(factor) {
            return Err(Error::invalid_parameter("`ParticleSwarm`: social factor must be >=0."));
        }
        let cognitive = match self.acceleration_strategy {
            AccelerationCoefficientStrategy::Constant { cognitive, .. } => cognitive,
            _ => strategy::standard_acceleration(),
        };
        Ok(
            ParticleSwarm {
                acceleration_strategy: AccelerationCoefficientStrategy::Constant {
                    cognitive,
                    social: factor,
                },
                ..self
            },
        )
    }

    /// Enable Time-Varying Acceleration Coefficients (TVAC)
    ///
    /// TVAC adjusts cognitive (c1) and social (c2) acceleration coefficients over iterations
    /// to balance exploration and exploitation. Typically, c1 decreases and c2 increases over
    /// time to shift from exploration to exploitation.
    pub fn with_tvac(
        self,
        c1_initial: F,
        c1_final: F,
        c2_initial: F,
        c2_final: F,
        max_iterations: usize,
    ) -> (r: Result<Self, Error>)
        ensures
            error::outcome(r) == checked(
                is_negative(c1_initial) || is_negative(c1_final) || is_negative(c2_initial)
                    || is_negative(c2_final),
                "`ParticleSwarm`: TVAC parameters must be >=0."@,
                ParticleSwarm {
                    acceleration_strategy: AccelerationCoefficientStrategy::TimeVarying {
                        c1_initial,
                        c1_final,
                        c2_initial,
                        c2_final,
                    },
                    max_iterations,
                    ..self
                },
            ),
    {
        if negative(c1_initial) || negative(c1_final) || negative(c2_initial) || negative(c2_final) {
            return Err(Error::invalid_parameter("`ParticleSwarm`: TVAC parameters must be >=0."));
        }
        Ok(
            ParticleSwarm {
                acceleration_strategy: AccelerationCoefficientStrategy::TimeVarying {
                    c1_initial,
                    c1_final,
                    c2_initial,
                    c2_final,
                },
                max_iterations,
                ..self
            },
        )
    }

    /// Set particle initialization strategy
    ///
    /// Choose between different strategies for initializing particle positions:
    ///
    /// - **UniformRandom** (default): Standard uniform random initialization
    /// - **LatinHypercube**: Latin Hypercube Sampling divides the search space into as many
    ///   intervals as there are particles and samples once from each.
    /// - **OppositionBased**: Opposition-Based Learning generates both random and opposite
    ///   positions, then selects the best particles.
    pub fn with_initialization_strategy(self, strategy: InitializationStrategy) -> (r: Self)
        ensures
            r == (ParticleSwarm { initialization_strategy: strategy, ..self }),
    {
        ParticleSwarm { initialization_strategy: strategy, ..self }
    }

    /// Enable velocity clamping
    ///
    /// Limits particle velocities to prevent explosive behavior. The velocity is clamped to
    /// `+-clamp_factor * (upper_bound - lower_bound)` component-wise.
    pub fn with_velocity_clamping(self, clamp_factor: F) -> (r: Result<Self, Error>)
        ensures
            error::outcome(r) == checked(
                float::at_most(clamp_factor, float::zero()) || float::one::<F>().spec_less(
                    clamp_factor,
                ),
                "`ParticleSwarm`: velocity clamp factor must be in (0, 1]."@,
                ParticleSwarm { velocity_clamp_factor: Some(clamp_factor), ..self },
            ),
    {
        if float::is_at_most(clamp_factor, F::decimal(0, 0)) || F::decimal(1, 0).less(
            clamp_factor,
        ) {
            return Err(
                Error::invalid_parameter(
                    "`ParticleSwarm`: velocity clamp factor must be in (0, 1].",
                ),
            );
        }
        Ok(ParticleSwarm { velocity_clamp_factor: Some(clamp_factor), ..self })
    }

    /// Enable velocity mutation when velocity approaches zero
    ///
    /// Reinitializes the velocity when it falls below a threshold, preventing particle stagnation.
    pub fn with_velocity_mutation(self, threshold: F) -> (r: Result<Self, Error>)
        ensures
            error::outcome(r) == checked(
                is_negative(threshold),
                "`ParticleSwarm`: velocity mutation threshold must be >=0."@,
                ParticleSwarm { velocity_mutation_threshold: Some(threshold), ..self },
            ),
    {
        if negative(threshold) {
            return Err(
                Error::invalid_parameter(
                    "`ParticleSwarm`: velocity mutation threshold must be >=0.",
                ),
            );
        }
        Ok(ParticleSwarm { velocity_mutation_threshold: Some(threshold), ..self })
    }

    /// Enable mutation with specified strategy and application method
    ///
    /// Applies Gaussian or Cauchy mutation to particles with specified probability
    /// to help escape local optima. Cauchy mutation has heavier tails and provides larger jumps,
    /// making it more effective for escaping local optima.
    pub fn with_mutation(
        self,
        strategy: MutationStrategy<F::Wide>,
        probability: F,
        application: MutationApplication,
    ) -> (r: Result<Self, Error>)
        ensures
            error::outcome(r) == checked(
                is_negative(probability) || float::one::<F>().spec_less(probability),
                "`ParticleSwarm`: mutation probability must be in [0, 1]."@,
                ParticleSwarm {
                    mutation_strategy: strategy,
                    mutation_probability: probability,
                    mutation_application: application,
                    ..self
                },
            ),
    {
        if negative(probability) || F::decimal(1, 0).less(probability) {
            return Err(
                Error::invalid_parameter("`ParticleSwarm`: mutation probability must be in [0, 1]."),
            );
        }
        Ok(
            ParticleSwarm {
                mutation_strategy: strategy,
                mutation_probability: probability,
                mutation_application: application,
                ..self
            },
        )
    }

    /// The name of the solver.
    pub fn name(&self) -> (r: &'static str)
        ensures
            r@ == "Particle Swarm Optimization"@,
    {
        "Particle Swarm Optimization"
    }

    /// Get current cognitive and social coefficients based on strategy
    pub fn get_acceleration_coefficients(&self, current_iter: u64) -> (r: (F, F))
        ensures
            r == self.acceleration_strategy.coefficients(current_iter, self.max_iterations),
    {
        match self.acceleration_strategy {
            AccelerationCoefficientStrategy::Constant { cognitive, social } => (cognitive, social),
            AccelerationCoefficientStrategy::TimeVarying {
                c1_initial,
                c1_final,
                c2_initial,
                c2_final,
            } => {
                let progress = F::from_u64(current_iter).over(
                    F::from_u64(self.max_iterations as u64),
                );
                (
                    c1_initial.plus(c1_final.minus(c1_initial).times(progress)),
                    c2_initial.plus(c2_final.minus(c2_initial).times(progress)),
                )
            },
        }
    }

    /// Get current inertia weight based on strategy
    pub fn get_inertia_weight(&mut self) -> (r: F)
        ensures
            *final(self) == (ParticleSwarm {
                inertia_strategy: old(self).inertia_strategy.advanced(),
                ..*old(self)
            }),
            r == final(self).inertia_strategy.weight(),
    {
        match self.inertia_strategy {
            InertiaWeightStrategy::Constant(weight) => weight,
            InertiaWeightStrategy::Chaotic { w_min, w_max, state } => {
                let next = F::decimal(4, 0).times(state).times(F::decimal(1, 0).minus(state));
                self.inertia_strategy = InertiaWeightStrategy::Chaotic { w_min, w_max, state: next };
                w_min.plus(w_max.minus(w_min).times(next))
            },
        }
    }
}

} // verus!
