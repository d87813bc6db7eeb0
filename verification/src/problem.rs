//! The problems that solvers work on.

use crate::error;
use crate::error::{Error, ErrorView};
use vstd::prelude::*;

verus! {

/// A problem with a single cost for each parameter.
///
/// A problem may answer the same question differently at different times. The contracts of the
/// solvers refer to the answers that it may give.
pub trait CostFunction<P: View, F> {
    /// Whether the problem may answer `answer` when asked for the cost of `param`.
    closed spec fn may_cost(&self, param: P::V, answer: Result<F, ErrorView>) -> bool {
        arbitrary()
    }

    /// The cost of `param`.
    fn cost(&self, param: &P) -> (r: Result<F, Error>)
        ensures
            self.may_cost(param@, error::outcome(r)),
    ;

    /// The costs of some parameters, or an error that the problem answers to one of them.
    ///
    /// The parameters are handed to `cost` one after the other. A problem that can do better, such
    /// as working on several of them at a time, may bring its own method.
    fn bulk_cost(&self, params: &Vec<&P>) -> (r: Result<Vec<F>, Error>)
        ensures
            match r {
                Ok(costs) => {
                    &&& costs@.len() == params@.len()
                    &&& forall|i: int|
                        0 <= i < costs@.len() ==> self.may_cost(
                            params@[i]@,
                            Ok(#[trigger] costs@[i]),
                        )
                },
                Err(e) => exists|i: int|
                    0 <= i < params@.len() && self.may_cost(#[trigger] params@[i]@, Err(e@)),
            },
    {
        let mut costs: Vec<F> = Vec::new();
        let mut k: usize = 0;
        while k < params.len()
            invariant
                k <= params@.len(),
                costs@.len() == k,
                forall|i: int| 0 <= i < k ==> self.may_cost(params@[i]@, Ok(#[trigger] costs@[i])),
            decreases params@.len() - k,
        {
            match self.cost(params[k]) {
                Err(e) => {
                    assert(self.may_cost(params@[k as int]@, Err(e@)));
                    return Err(e);
                },
                Ok(c) => {
                    costs.push(c);
                },
            }
            k = k + 1;
        }
        Ok(costs)
    }
}

/// The abstract values of some parameters.
pub open spec fn views<P: View>(params: Seq<P>) -> Seq<P::V> {
    params.map_values(|p: P| p@)
}

/// Whether the problem may answer with `costs` when asked for the costs of `params` one by one.
pub open spec fn are_costs<O: CostFunction<P, F>, P: View, F>(
    problem: O,
    params: Seq<P::V>,
    costs: Seq<F>,
) -> bool {
    &&& costs.len() == params.len()
    &&& forall|i: int| 0 <= i < costs.len() ==> problem.may_cost(params[i], Ok(#[trigger] costs[i]))
}

/// Whether the problem may answer with the error `e` when asked for the cost of one of `params`.
pub open spec fn fails_on<O: CostFunction<P, F>, P: View, F>(
    problem: O,
    params: Seq<P::V>,
    e: ErrorView,
) -> bool {
    exists|i: int| 0 <= i < params.len() && problem.may_cost(#[trigger] params[i], Err(e))
}

/// Whether the problem never answers with an error when asked for a cost.
pub open spec fn never_fails<O: CostFunction<P, F>, P: View, F>(problem: O) -> bool {
    forall|param: P::V, e: ErrorView| !#[trigger] problem.may_cost(param, Err(e))
}

/// The costs of some parameters, or an error that the problem answers to one of them.
pub fn bulk_cost<O: CostFunction<P, F>, P: View, F>(problem: &O, params: &Vec<P>) -> (r: Result<
    Vec<F>,
    Error,
>)
    ensures
        match r {
            Ok(costs) => are_costs::<O, P, F>(*problem, views(params@), costs@),
            Err(e) => fails_on::<O, P, F>(*problem, views(params@), e@),
        },
{
    let mut borrowed: Vec<&P> = Vec::new();
    let mut k: usize = 0;
    while k < params.len()
        invariant
            k <= params@.len(),
            borrowed@.len() == k,
            forall|i: int| 0 <= i < k ==> *(#[trigger] borrowed@[i]) == params@[i],
        decreases params@.len() - k,
    {
        borrowed.push(&params[k]);
        k = k + 1;
    }
    let r = problem.bulk_cost(&borrowed);
    proof {
        if r is Err {
            let e = r->Err_0;
            let i = choose|i: int|
                0 <= i < borrowed@.len() && problem.may_cost(#[trigger] borrowed@[i]@, Err(e@));
            assert(views(params@)[i] == borrowed@[i]@);
        }
    }
    r
}

/// A problem with several objectives for each parameter.
///
/// A problem may answer the same question differently at different times. The contracts of the
/// solvers refer to the answers that it may give.
pub trait MultiObjectiveCostFunction<F> {
    /// Whether the problem may answer `answer` when asked for the objectives of `param`.
    closed spec fn may_score(&self, param: Seq<F>, answer: Result<Seq<F>, ErrorView>) -> bool {
        arbitrary()
    }

    /// How many objectives the problem says that it has.
    closed spec fn objective_count(&self) -> nat {
        arbitrary()
    }

    /// The objectives of `param`.
    fn objectives(&self, param: &Vec<F>) -> (r: Result<Vec<F>, Error>)
        ensures
            self.may_score(param@, error::outcome_view(r)),
    ;

    /// How many objectives the problem has.
    fn num_objectives(&self) -> (r: usize)
        ensures
            r == self.objective_count(),
    ;
}

} // verus!
