# argmin

Population-based and combinatorial optimization solvers, written in Rust and verified with Verus.

* `src/greedysubsetselection`: greedy subset selection with seeded random restarts, local search by
  swaps, and fronts of size against cost.
* `src/nsgaii`: the NSGA-II multi-objective genetic algorithm.
* `src/particleswarm`: particle swarm optimization with time-varying coefficients, chaotic inertia,
  several ways to start, mutation and velocity control.
* `src/float.rs`: the numbers that the solvers compute with. Solvers are generic over them, so that
  a contract says which operations are done without saying how they round. `src/whole.rs` is one
  such type.
* `src/random.rs`: random numbers, and what the library believes of the generators of `rand` and
  `rand_xoshiro`.

Where a result depends on chance, the contract says which result follows from the words that the
generator has yet to give. Where it depends on the answers of a user's problem, the contract is a
relation that holds whatever the answers are. The functions named `law_...` state what holds of
several functions together.

`app` connects the solvers with `f64`, `rand_distr`, threads and `serde`. It is ordinary Rust that
is not verified. A number type that is implemented there has to obey the laws of `Real` and
`ArgminFloat`, a generator has to give its words in their order, and a problem has to answer as its
trait says.
