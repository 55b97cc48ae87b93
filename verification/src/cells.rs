use crate::ids::{CellID, ComputeCellID};
use crate::reactor::Reactor;
use vstd::prelude::*;

verus! {

/// A pure function over the current values of a compute cell's dependencies.
/// The reactor stores one owned function object per compute cell; its
/// mathematical meaning `spec_call` is what every contract about a compute
/// cell's value is stated over, and `call` must agree with it on every
/// argument list.
pub trait ComputeFn<T> {
    /// What the function denotes: the result for a given argument list,
    /// where `args[k]` is the value of the `k`-th dependency.
    spec fn spec_call(&self, args: Seq<T>) -> T;

    /// Apply the function to the argument values, in dependency order.
    fn call(&self, args: &Vec<T>) -> (r: T)
        ensures
            r == self.spec_call(args@),
    ;
}

/// An owned, stateful change callback.  The reactor invokes `on_change` with
/// a compute cell's settled value whenever that value differs from the value
/// the cell had before the triggering `set_value` call.  `seen` abstracts the
/// callback's state as the sequence of values delivered so far, oldest first,
/// which is what the reactor's contracts about callback firing are stated
/// over.
pub trait Callback<T> {
    /// The values this callback has been notified with so far, oldest first.
    spec fn seen(&self) -> Seq<T>;

    /// Deliver a newly settled value.
    fn on_change(&mut self, value: T)
        ensures
            final(self).seen() == old(self).seen().push(value),
    ;
}

/// A leaf cell holding a directly settable value, together with the handles
/// of the compute cells that directly depend on it.
pub struct InputCell<T> {
    pub value: T,
    pub clients: Vec<ComputeCellID>,
}

impl<T> InputCell<T> {
    pub fn new(init: T) -> (r: Self)
        ensures
            r.value == init,
            r.clients@.len() == 0,
    {
        InputCell { value: init, clients: Vec::new() }
    }
}

/// An interior cell holding a pure function over a fixed, ordered list of
/// dependency cells, the value it settled to after the most recent
/// propagation pass, its registered callbacks, and the handles of the compute
/// cells that directly depend on it.
///
/// Callback identifiers are dense and monotonic: the callback with identifier
/// `j` lives in slot `j` of `callbacks`, and removal clears the slot without
/// ever reusing it.
pub struct ComputeCell<T, F, C> {
    pub function: F,
    pub dependencies: Vec<CellID>,
    pub cached_value: Option<T>,
    pub callbacks: Vec<Option<C>>,
    pub clients: Vec<ComputeCellID>,
}

impl<T: Copy + PartialEq, F: ComputeFn<T>, C: Callback<T>> ComputeCell<T, F, C> {
    /// A fresh compute cell: the dependency list is copied and fixed for the
    /// cell's lifetime, and no value has been computed yet.  The reactor
    /// evaluates the cell once before making it reachable, so a cell whose
    /// cache is still empty is never observable through the public interface.
    pub fn new(function: F, dependencies: &Vec<CellID>) -> (r: Self)
        ensures
            r.function == function,
            r.dependencies@ == dependencies@,
            r.cached_value is None,
            r.callbacks@.len() == 0,
            r.clients@.len() == 0,
    {
        let mut deps: Vec<CellID> = Vec::new();
        let mut k: usize = 0;
        while k < dependencies.len()
            invariant
                k <= dependencies@.len(),
                deps@ == dependencies@.take(k as int),
            decreases dependencies@.len() - k,
        {
            deps.push(dependencies[k]);
            proof {
                assert(dependencies@.take(k + 1 as int) =~= dependencies@.take(k as int).push(
                    dependencies@[k as int],
                ));
            }
            k += 1;
        }
        proof {
            assert(dependencies@.take(dependencies@.len() as int) =~= dependencies@);
        }
        ComputeCell {
            function,
            dependencies: deps,
            cached_value: None,
            callbacks: Vec::new(),
            clients: Vec::new(),
        }
    }

    /// Apply this cell's function to the values its dependencies currently
    /// denote in `reactor`, in dependency order.  This is a pure read: in a
    /// settled reactor it reproduces exactly the value the cell would settle
    /// to, so nothing is cached and no callback can be owed.
    pub fn call(&self, reactor: &Reactor<T, F, C>) -> (r: T)
        requires
            reactor.well_formed(),
            forall|k: int|
                0 <= k < self.dependencies@.len() ==> reactor.valid_cell(
                    #[trigger] self.dependencies@[k],
                ),
        ensures
            r == self.function.spec_call(
                Seq::new(
                    self.dependencies@.len(),
                    |k: int| reactor.cell_value(self.dependencies@[k]),
                ),
            ),
    {
        let ghost g = reactor.graph();
        let ghost bound = reactor.compute_cells@.len() as int;
        proof {
            assert forall|k: int| 0 <= k < self.dependencies@.len() implies g.dep_ok(
                #[trigger] self.dependencies@[k],
                bound,
            ) by {
                assert(reactor.valid_cell(self.dependencies@[k]));
            }
            assert forall|k: int| 0 <= k < self.dependencies@.len() implies (match (
            #[trigger] self.dependencies@[k]) {
                CellID::Input(_) => true,
                CellID::Compute(d) => reactor.compute_cells@[d.0 as int].cached_value == Some(
                    g.compute_value(d.0 as int),
                ),
            }) by {
                match self.dependencies@[k] {
                    CellID::Compute(d) => {
                        assert(reactor.valid_cell(self.dependencies@[k]));
                        assert(d.0 < reactor.compute_cells@.len());
                    },
                    CellID::Input(_) => {},
                }
            }
        }
        let r = reactor.evaluate(&self.dependencies, &self.function, Ghost(bound));
        proof {
            g.lemma_dep_values_are_cell_values(self.dependencies@, bound);
            assert(Seq::new(
                self.dependencies@.len(),
                |k: int| g.cell_value(self.dependencies@[k]),
            ) =~= Seq::new(
                self.dependencies@.len(),
                |k: int| reactor.cell_value(self.dependencies@[k]),
            ));
        }
        r
    }
}

} // verus!
