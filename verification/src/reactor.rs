use crate::cells::{Callback, ComputeCell, ComputeFn, InputCell};
use crate::graph::{CellGraph, CellSpec};
use crate::ids::{CallbackID, CellID, ComputeCellID, InputCellID, RemoveCallbackError};
use vstd::prelude::*;

verus! {

/// The effect of one propagation pass on a compute cell's callback registry:
/// when `fired`, every callback present has observed `value` exactly once
/// more; otherwise the registry is untouched.  Slots are never added,
/// removed, or moved by a pass.
pub open spec fn callbacks_updated<T, C: Callback<T>>(
    pre: Seq<Option<C>>,
    post: Seq<Option<C>>,
    fired: bool,
    value: T,
) -> bool {
    &&& post.len() == pre.len()
    &&& forall|j: int|
        0 <= j < pre.len() ==> (match (pre[j], #[trigger] post[j]) {
            (Some(cb0), Some(cb1)) => cb1.seen() == (if fired {
                cb0.seen().push(value)
            } else {
                cb0.seen()
            }),
            (None, None) => true,
            _ => false,
        })
}

/// During the client-closure walk, every discovered cell is either already
/// marked or still waiting on the work stack.
spec fn marked_or_stacked(marks: Seq<bool>, stack: Seq<ComputeCellID>, c: int) -> bool {
    marks[c] || exists|j: int| 0 <= j < stack.len() && (#[trigger] stack[j]).0 as int == c
}

/// Termination measure for the closure walk: how many cells are still
/// unmarked.
spec fn count_unmarked(s: Seq<bool>) -> nat
    decreases s.len(),
{
    if s.len() == 0 {
        0
    } else {
        count_unmarked(s.drop_last()) + (if s.last() {
            0nat
        } else {
            1nat
        })
    }
}

proof fn lemma_count_unmarked_mark(s: Seq<bool>, i: int)
    requires
        0 <= i < s.len(),
        !s[i],
    ensures
        count_unmarked(s.update(i, true)) < count_unmarked(s),
    decreases s.len(),
{
    let s2 = s.update(i, true);
    if i == s.len() - 1 {
        assert(s2.drop_last() =~= s.drop_last());
    } else {
        assert(s2.drop_last() =~= s.drop_last().update(i, true));
        lemma_count_unmarked_mark(s.drop_last(), i);
        assert(s2.last() == s.last());
    }
}

/// Linear membership test on a client list.  Client lists are sets: a cell
/// is registered as a client of a dependency at most once, so registration
/// checks for presence before appending.
fn contains_client(v: &Vec<ComputeCellID>, x: ComputeCellID) -> (r: bool)
    ensures
        r == v@.contains(x),
{
    let mut q: usize = 0;
    while q < v.len()
        invariant
            q <= v@.len(),
            forall|p: int| 0 <= p < q ==> (#[trigger] v@[p]) != x,
        decreases v@.len() - q,
    {
        if v[q] == x {
            return true;
        }
        q += 1;
    }
    false
}

proof fn lemma_push_preserves_contains(s: Seq<ComputeCellID>, e: ComputeCellID, x: ComputeCellID)
    requires
        s.contains(x),
    ensures
        s.push(e).contains(x),
{
    let q = choose|q: int| 0 <= q < s.len() && s[q] == x;
    assert(s.push(e)[q] == x);
}

/// The reactor: all cell storage, addressed only through handles.  Input
/// cells and compute cells live in separate dense vectors, so the two handle
/// kinds index disjoint storage.
pub struct Reactor<T, F, C> {
    pub input_cells: Vec<InputCell<T>>,
    pub compute_cells: Vec<ComputeCell<T, F, C>>,
}

impl<T: Copy + PartialEq, F: ComputeFn<T>, C: Callback<T>> Reactor<T, F, C> {
    /// The dependency graph this reactor currently realises.
    pub open spec fn graph(&self) -> CellGraph<T, F> {
        CellGraph {
            inputs: self.input_cells@.map_values(|cell: InputCell<T>| cell.value),
            cells: self.compute_cells@.map_values(
                |cell: ComputeCell<T, F, C>|
                    CellSpec { func: cell.function, deps: cell.dependencies@ },
            ),
        }
    }

    pub open spec fn valid_input(&self, id: InputCellID) -> bool {
        id.0 < self.input_cells@.len()
    }

    pub open spec fn valid_compute(&self, id: ComputeCellID) -> bool {
        id.0 < self.compute_cells@.len()
    }

    /// Is a callback currently registered on `cell` under `callback`?
    pub open spec fn callback_registered(&self, cell: ComputeCellID, callback: CallbackID) -> bool {
        &&& callback.0 < self.compute_cells@[cell.0 as int].callbacks@.len()
        &&& self.compute_cells@[cell.0 as int].callbacks@[callback.0 as int] is Some
    }

    pub open spec fn valid_cell(&self, id: CellID) -> bool {
        match id {
            CellID::Input(i) => self.valid_input(i),
            CellID::Compute(d) => self.valid_compute(d),
        }
    }

    /// The value a handle denotes: for an input cell its stored value, for a
    /// compute cell its function applied to the current values of its
    /// dependencies, recursively.
    pub open spec fn cell_value(&self, id: CellID) -> T {
        self.graph().cell_value(id)
    }

    /// Every client handle recorded anywhere addresses an existing compute
    /// cell.
    pub open spec fn clients_valid(&self) -> bool {
        &&& forall|i: int, j: int|
            0 <= i < self.input_cells@.len() && 0 <= j < self.input_cells@[i].clients@.len()
                ==> (#[trigger] self.input_cells@[i].clients@[j]).0 < self.compute_cells@.len()
        &&& forall|c: int, j: int|
            0 <= c < self.compute_cells@.len() && 0 <= j < self.compute_cells@[c].clients@.len()
                ==> (#[trigger] self.compute_cells@[c].clients@[j]).0 < self.compute_cells@.len()
    }

    /// Every dependency edge is mirrored by a client edge: a compute cell is
    /// recorded as a client of each of its dependencies.  Propagation walks
    /// client edges, so this is what guarantees that every transitively
    /// dependent cell is reached.
    pub open spec fn clients_complete(&self) -> bool {
        forall|c: int, k: int|
            0 <= c < self.compute_cells@.len() && 0 <= k
                < self.compute_cells@[c].dependencies@.len() ==> (match (
            #[trigger] self.compute_cells@[c].dependencies@[k]) {
                CellID::Input(i) => self.input_cells@[i.0 as int].clients@.contains(
                    ComputeCellID(c as usize),
                ),
                CellID::Compute(d) => self.compute_cells@[d.0 as int].clients@.contains(
                    ComputeCellID(c as usize),
                ),
            })
    }

    /// Every compute cell's cache holds exactly the value its function
    /// denotes over the current input values.  Every public operation
    /// restores this before returning, so between operations the cached
    /// values are the settled values.
    pub open spec fn settled(&self) -> bool {
        forall|c: int|
            0 <= c < self.compute_cells@.len() ==> (#[trigger] self.compute_cells@[c].cached_value)
                == Some(self.graph().compute_value(c))
    }

    /// The reactor's invariant: the graph is acyclic by construction (every
    /// dependency points at an existing cell, compute dependencies at a
    /// strictly earlier one), client edges mirror dependency edges, and all
    /// caches are settled.
    pub open spec fn well_formed(&self) -> bool {
        &&& self.graph().wf()
        &&& self.clients_valid()
        &&& self.clients_complete()
        &&& self.settled()
    }

    pub fn new() -> (r: Self)
        ensures
            r.well_formed(),
            r.input_cells@.len() == 0,
            r.compute_cells@.len() == 0,
    {
        Reactor { input_cells: Vec::new(), compute_cells: Vec::new() }
    }

    /// Appends a new input cell with the given initial value and returns its
    /// handle.  Always succeeds; no existing cell's value changes.
    pub fn create_input(&mut self, initial: T) -> (id: InputCellID)
        requires
            old(self).well_formed(),
        ensures
            final(self).well_formed(),
            id.0 == old(self).input_cells@.len(),
            final(self).input_cells@.len() == old(self).input_cells@.len() + 1,
            final(self).input_cells@[id.0 as int].value == initial,
            forall|i: int|
                0 <= i < old(self).input_cells@.len() ==> final(self).input_cells@[i] == old(self).input_cells@[i],
            final(self).compute_cells@ == old(self).compute_cells@,
            forall|other: CellID|
                old(self).valid_cell(other) ==> #[trigger] final(self).cell_value(other) == old(self).cell_value(other),
    {
        let idx = self.input_cells.len();
        let id = InputCellID(idx);
        self.input_cells.push(InputCell::new(initial));
        proof {
            self.lemma_push_input_preserves(*old(self));
            let g1 = old(self).graph();
            let g2 = self.graph();
            assert forall|other: CellID| old(self).valid_cell(other) implies #[trigger] self.cell_value(other)
                == old(self).cell_value(other) by {
                match other {
                    CellID::Input(i) => {
                        assert(g2.inputs[i.0 as int] == g1.inputs[i.0 as int]);
                    },
                    CellID::Compute(d) => {
                        CellGraph::lemma_cell_stable(g1, g2, Set::empty(), Set::empty(), d.0 as int);
                    },
                }
            }
        }
        id
    }

    /// After pushing one input cell onto `pre`, the graph stays well formed
    /// and every compute cell's value is unchanged, so the caches stay
    /// settled.
    proof fn lemma_push_input_preserves(&self, pre: Self)
        requires
            pre.well_formed(),
            self.input_cells@.len() == pre.input_cells@.len() + 1,
            forall|i: int|
                0 <= i < pre.input_cells@.len() ==> self.input_cells@[i] == pre.input_cells@[i],
            self.input_cells@[pre.input_cells@.len() as int].clients@.len() == 0,
            self.compute_cells@ == pre.compute_cells@,
        ensures
            self.well_formed(),
    {
        let g1 = pre.graph();
        let g2 = self.graph();
        assert(forall|d: int| 0 <= d < g1.cells.len() ==> g2.cells[d] == g1.cells[d]);
        assert(forall|c: int| 0 <= c < g2.cells.len() ==> g2.cell_wf(c)) by {
            assert forall|c: int| 0 <= c < g2.cells.len() implies g2.cell_wf(c) by {
                assert(g1.cell_wf(c));
            }
        }
        assert forall|c: int| 0 <= c < self.compute_cells@.len() implies (
        #[trigger] self.compute_cells@[c].cached_value) == Some(g2.compute_value(c)) by {
            CellGraph::lemma_cell_stable(g1, g2, Set::empty(), Set::empty(), c);
        }
        assert forall|c: int, k: int|
            0 <= c < self.compute_cells@.len() && 0 <= k
                < self.compute_cells@[c].dependencies@.len() implies (match (
        #[trigger] self.compute_cells@[c].dependencies@[k]) {
            CellID::Input(i) => self.input_cells@[i.0 as int].clients@.contains(
                ComputeCellID(c as usize),
            ),
            CellID::Compute(d) => self.compute_cells@[d.0 as int].clients@.contains(
                ComputeCellID(c as usize),
            ),
        }) by {
            assert(g1.cell_wf(c));
            assert(g1.dep_ok(g1.cells[c].deps[k], c));
            match self.compute_cells@[c].dependencies@[k] {
                CellID::Input(i) => {
                    assert(self.input_cells@[i.0 as int] == pre.input_cells@[i.0 as int]);
                },
                CellID::Compute(_) => {},
            }
        }
    }

    /// Changing only caches or callbacks never disturbs well-formedness'
    /// structural half; here nothing but callbacks changed, so the settled
    /// caches carry over too.
    proof fn lemma_same_shape_preserves(&self, pre: Self)
        requires
            pre.well_formed(),
            self.input_cells@.len() == pre.input_cells@.len(),
            forall|i: int|
                0 <= i < pre.input_cells@.len() ==> (#[trigger] self.input_cells@[i]).value
                    == pre.input_cells@[i].value && self.input_cells@[i].clients@
                    == pre.input_cells@[i].clients@,
            self.compute_cells@.len() == pre.compute_cells@.len(),
            forall|c: int|
                0 <= c < pre.compute_cells@.len() ==> (#[trigger] self.compute_cells@[c]).function
                    == pre.compute_cells@[c].function && self.compute_cells@[c].dependencies@
                    == pre.compute_cells@[c].dependencies@ && self.compute_cells@[c].clients@
                    == pre.compute_cells@[c].clients@ && self.compute_cells@[c].cached_value
                    == pre.compute_cells@[c].cached_value,
        ensures
            self.well_formed(),
            self.graph() == pre.graph(),
    {
        assert(self.graph() =~~= pre.graph());
        self.lemma_clients_carry(pre);
    }

    /// Creates a compute cell over the given dependencies and pure function.
    /// Every dependency is validated before anything is registered: on the
    /// first invalid handle the call fails with that handle and the reactor
    /// is untouched.  On success the new cell is registered as a client of
    /// each dependency, evaluated once immediately, and its handle returned;
    /// no existing cell's value, cache or callbacks change.
    pub fn create_compute(&mut self, dependencies: &Vec<CellID>, compute_func: F) -> (r: Result<
        ComputeCellID,
        CellID,
    >)
        requires
            old(self).well_formed(),
        ensures
            final(self).well_formed(),
            (forall|k: int|
                0 <= k < dependencies@.len() ==> old(self).valid_cell(#[trigger] dependencies@[k]))
                ==> ({
                let cid = ComputeCellID(old(self).compute_cells@.len() as usize);
                let post = final(self).compute_cells@[cid.0 as int];
                &&& r == Ok::<ComputeCellID, CellID>(cid)
                &&& final(self).input_cells@.len() == old(self).input_cells@.len()
                &&& forall|i: int|
                    0 <= i < old(self).input_cells@.len()
                        ==> (#[trigger] final(self).input_cells@[i]).value == old(self).input_cells@[i].value
                &&& final(self).compute_cells@.len() == old(self).compute_cells@.len() + 1
                &&& forall|c: int|
                    0 <= c < old(self).compute_cells@.len()
                        ==> (#[trigger] final(self).compute_cells@[c]).function == old(self).compute_cells@[c].function && final(self).compute_cells@[c].dependencies@
                        == old(self).compute_cells@[c].dependencies@ && final(self).compute_cells@[c].cached_value == old(self).compute_cells@[c].cached_value
                        && final(self).compute_cells@[c].callbacks@ == old(self).compute_cells@[c].callbacks@
                &&& post.function == compute_func
                &&& post.dependencies@ == dependencies@
                &&& post.callbacks@.len() == 0
                &&& forall|other: CellID|
                    old(self).valid_cell(other) ==> #[trigger] final(self).cell_value(other) == old(self).cell_value(other)
            }),
            (exists|k: int|
                0 <= k < dependencies@.len() && !old(self).valid_cell(
                    #[trigger] dependencies@[k],
                )) ==> ({
                &&& *final(self) == *old(self)
                &&& exists|k: int|
                    0 <= k < dependencies@.len() && !old(self).valid_cell(
                        #[trigger] dependencies@[k],
                    ) && r == Err::<ComputeCellID, CellID>(dependencies@[k]) && (forall|j: int|
                        0 <= j < k ==> old(self).valid_cell(#[trigger] dependencies@[j]))
            }),
    {
        let n = self.compute_cells.len();
        let cid = ComputeCellID(n);

        let mut k: usize = 0;
        while k < dependencies.len()
            invariant
                *self == *old(self),
                old(self).well_formed(),
                k <= dependencies@.len(),
                forall|j: int| 0 <= j < k ==> self.valid_cell(#[trigger] dependencies@[j]),
            decreases dependencies@.len() - k,
        {
            let dep = dependencies[k];
            let ok = match dep {
                CellID::Input(i) => i.0 < self.input_cells.len(),
                CellID::Compute(d) => d.0 < self.compute_cells.len(),
            };
            if !ok {
                return Err(dep);
            }
            k += 1;
        }

        let ghost g1 = self.graph();
        let mut j: usize = 0;
        while j < dependencies.len()
            invariant
                n == old(self).compute_cells@.len(),
                cid.0 == n,
                j <= dependencies@.len(),
                old(self).well_formed(),
                g1 == old(self).graph(),
                forall|kk: int|
                    0 <= kk < dependencies@.len() ==> old(self).valid_cell(
                        #[trigger] dependencies@[kk],
                    ),
                self.input_cells@.len() == old(self).input_cells@.len(),
                forall|i: int|
                    0 <= i < old(self).input_cells@.len() ==> (#[trigger] self.input_cells@[i]).value
                        == old(self).input_cells@[i].value,
                self.compute_cells@.len() == n,
                forall|c: int|
                    0 <= c < n ==> (#[trigger] self.compute_cells@[c]).function == old(self).compute_cells@[c].function && self.compute_cells@[c].dependencies@ == old(self).compute_cells@[c].dependencies@ && self.compute_cells@[c].cached_value == old(self).compute_cells@[c].cached_value && self.compute_cells@[c].callbacks@ == old(self).compute_cells@[c].callbacks@,
                forall|i: int|
                    0 <= i < old(self).input_cells@.len() ==> (
                    #[trigger] self.input_cells@[i].clients@) == old(self).input_cells@[i].clients@ || self.input_cells@[i].clients@ == old(self).input_cells@[i].clients@.push(cid),
                forall|c: int|
                    0 <= c < n ==> (#[trigger] self.compute_cells@[c].clients@) == old(self).compute_cells@[c].clients@ || self.compute_cells@[c].clients@ == old(self).compute_cells@[c].clients@.push(cid),
                forall|kk: int|
                    0 <= kk < j ==> (match (#[trigger] dependencies@[kk]) {
                        CellID::Input(i) => self.input_cells@[i.0 as int].clients@.contains(cid),
                        CellID::Compute(d) => self.compute_cells@[d.0 as int].clients@.contains(
                            cid,
                        ),
                    }),
            decreases dependencies@.len() - j,
        {
            let ghost snap = *self;
            let dep = dependencies[j];
            proof {
                assert(old(self).valid_cell(dep));
            }
            self.register_client(dep, cid);
            proof {
                assert forall|i2: int| 0 <= i2 < old(self).input_cells@.len() implies ((
                #[trigger] self.input_cells@[i2].clients@) == old(self).input_cells@[i2].clients@
                    || self.input_cells@[i2].clients@ == old(self).input_cells@[i2].clients@.push(cid)) by {
                    let l0 = old(self).input_cells@[i2].clients@;
                    let l1 = snap.input_cells@[i2].clients@;
                    let l2 = self.input_cells@[i2].clients@;
                    if l1 == l0.push(cid) {
                        assert(l1[l1.len() - 1] == cid);
                        assert(l1.contains(cid));
                        assert(l2 == l1);
                    }
                }
                assert forall|c2: int| 0 <= c2 < n implies ((
                #[trigger] self.compute_cells@[c2].clients@) == old(self).compute_cells@[c2].clients@ || self.compute_cells@[c2].clients@ == old(self).compute_cells@[c2].clients@.push(cid)) by {
                    let l0 = old(self).compute_cells@[c2].clients@;
                    let l1 = snap.compute_cells@[c2].clients@;
                    let l2 = self.compute_cells@[c2].clients@;
                    if l1 == l0.push(cid) {
                        assert(l1[l1.len() - 1] == cid);
                        assert(l1.contains(cid));
                        assert(l2 == l1);
                    }
                }
                assert forall|kk: int| 0 <= kk < j + 1 implies (match (#[trigger] dependencies@[kk]) {
                    CellID::Input(i2) => self.input_cells@[i2.0 as int].clients@.contains(cid),
                    CellID::Compute(d2) => self.compute_cells@[d2.0 as int].clients@.contains(cid),
                }) by {
                    if kk < j {
                        match dependencies@[kk] {
                            CellID::Input(i2) => {
                                let l1 = snap.input_cells@[i2.0 as int].clients@;
                                let l2 = self.input_cells@[i2.0 as int].clients@;
                                assert(l1.contains(cid));
                                if l2 != l1 {
                                    assert(l2 == l1.push(cid));
                                    lemma_push_preserves_contains(l1, cid, cid);
                                }
                            },
                            CellID::Compute(d2) => {
                                let l1 = snap.compute_cells@[d2.0 as int].clients@;
                                let l2 = self.compute_cells@[d2.0 as int].clients@;
                                assert(l1.contains(cid));
                                if l2 != l1 {
                                    assert(l2 == l1.push(cid));
                                    lemma_push_preserves_contains(l1, cid, cid);
                                }
                            },
                        }
                    }
                }
            }
            j += 1;
        }

        proof {
            self.lemma_ready_for_initial_eval(*old(self), dependencies@, g1, n as int);
        }
        let v = self.evaluate(dependencies, &compute_func, Ghost(n as int));
        let mut cell = ComputeCell::new(compute_func, dependencies);
        cell.cached_value = Some(v);
        let ghost mid = *self;
        self.compute_cells.push(cell);
        proof {
            self.lemma_create_compute_done(*old(self), mid, dependencies@, g1, v, cid);
        }
        Ok(cid)
    }

    /// Record `cid` as a client of the cell `dep` addresses, once: nothing
    /// happens when it is already recorded, and nothing else in the reactor
    /// changes either way.
    fn register_client(&mut self, dep: CellID, cid: ComputeCellID)
        requires
            old(self).valid_cell(dep),
        ensures
            final(self).input_cells@.len() == old(self).input_cells@.len(),
            final(self).compute_cells@.len() == old(self).compute_cells@.len(),
            forall|i: int|
                0 <= i < old(self).input_cells@.len() ==> (#[trigger] final(self).input_cells@[i]).value
                    == old(self).input_cells@[i].value,
            forall|c: int|
                0 <= c < old(self).compute_cells@.len()
                    ==> (#[trigger] final(self).compute_cells@[c]).function == old(self).compute_cells@[c].function && final(self).compute_cells@[c].dependencies@ == old(self).compute_cells@[c].dependencies@ && final(self).compute_cells@[c].cached_value
                    == old(self).compute_cells@[c].cached_value && final(self).compute_cells@[c].callbacks@ == old(self).compute_cells@[c].callbacks@,
            forall|i: int|
                0 <= i < old(self).input_cells@.len() ==> (
                #[trigger] final(self).input_cells@[i].clients@) == old(self).input_cells@[i].clients@ || (final(self).input_cells@[i].clients@ == old(self).input_cells@[i].clients@.push(cid) && !old(self).input_cells@[i].clients@.contains(
                    cid,
                )),
            forall|c: int|
                0 <= c < old(self).compute_cells@.len() ==> (
                #[trigger] final(self).compute_cells@[c].clients@) == old(self).compute_cells@[c].clients@ || (final(self).compute_cells@[c].clients@ == old(self).compute_cells@[c].clients@.push(cid)
                    && !old(self).compute_cells@[c].clients@.contains(cid)),
            (match dep {
                CellID::Input(i) => final(self).input_cells@[i.0 as int].clients@.contains(cid),
                CellID::Compute(d) => final(self).compute_cells@[d.0 as int].clients@.contains(cid),
            }),
    {
        match dep {
            CellID::Input(i) => {
                let present = contains_client(&self.input_cells[i.0].clients, cid);
                if !present {
                    let ic = &mut self.input_cells[i.0];
                    ic.clients.push(cid);
                    proof {
                        let l = final(self).input_cells@[i.0 as int].clients@;
                        assert(l[l.len() - 1] == cid);
                        assert(l.contains(cid));
                    }
                }
            },
            CellID::Compute(d) => {
                let present = contains_client(&self.compute_cells[d.0].clients, cid);
                if !present {
                    let cc = &mut self.compute_cells[d.0];
                    cc.clients.push(cid);
                    proof {
                        let l = final(self).compute_cells@[d.0 as int].clients@;
                        assert(l[l.len() - 1] == cid);
                        assert(l.contains(cid));
                    }
                }
            },
        }
    }

    /// After client registration the graph is unchanged, so the reactor is
    /// still settled and the new cell's dependency list is ready to
    /// evaluate with bound `n`, the index the new cell will occupy.
    proof fn lemma_ready_for_initial_eval(
        &self,
        pre: Self,
        deps: Seq<CellID>,
        g1: CellGraph<T, F>,
        n: int,
    )
        requires
            pre.well_formed(),
            g1 == pre.graph(),
            n == pre.compute_cells@.len(),
            self.input_cells@.len() == pre.input_cells@.len(),
            forall|i: int|
                0 <= i < pre.input_cells@.len() ==> (#[trigger] self.input_cells@[i]).value
                    == pre.input_cells@[i].value,
            self.compute_cells@.len() == n,
            forall|c: int|
                0 <= c < n ==> (#[trigger] self.compute_cells@[c]).function
                    == pre.compute_cells@[c].function && self.compute_cells@[c].dependencies@
                    == pre.compute_cells@[c].dependencies@ && self.compute_cells@[c].cached_value
                    == pre.compute_cells@[c].cached_value,
            forall|kk: int| 0 <= kk < deps.len() ==> pre.valid_cell(#[trigger] deps[kk]),
        ensures
            self.graph() == g1,
            forall|k: int| 0 <= k < deps.len() ==> self.graph().dep_ok(#[trigger] deps[k], n),
            forall|k: int|
                0 <= k < deps.len() ==> (match (#[trigger] deps[k]) {
                    CellID::Input(_) => true,
                    CellID::Compute(d) => self.compute_cells@[d.0 as int].cached_value == Some(
                        self.graph().compute_value(d.0 as int),
                    ),
                }),
    {
        assert(self.graph() =~~= pre.graph());
        assert forall|k: int| 0 <= k < deps.len() implies self.graph().dep_ok(
            #[trigger] deps[k],
            n,
        ) by {
            assert(pre.valid_cell(deps[k]));
        }
        assert forall|k: int| 0 <= k < deps.len() implies (match (#[trigger] deps[k]) {
            CellID::Input(_) => true,
            CellID::Compute(d) => self.compute_cells@[d.0 as int].cached_value == Some(
                self.graph().compute_value(d.0 as int),
            ),
        }) by {
            match deps[k] {
                CellID::Compute(d) => {
                    assert(pre.valid_cell(deps[k]));
                    assert(pre.compute_cells@[d.0 as int].cached_value == Some(
                        g1.compute_value(d.0 as int),
                    ));
                },
                CellID::Input(_) => {},
            }
        }
    }

    /// The final step of compute-cell creation: pushing the evaluated cell
    /// leaves every old cell's value untouched and the new cache holds
    /// exactly the new cell's value, so the grown reactor is well formed.
    proof fn lemma_create_compute_done(
        &self,
        pre: Self,
        mid: Self,
        deps: Seq<CellID>,
        g1: CellGraph<T, F>,
        v: T,
        cid: ComputeCellID,
    )
        requires
            pre.well_formed(),
            g1 == pre.graph(),
            cid.0 == pre.compute_cells@.len(),
            mid.graph() == g1,
            mid.input_cells@.len() == pre.input_cells@.len(),
            mid.compute_cells@.len() == pre.compute_cells@.len(),
            forall|c: int|
                0 <= c < pre.compute_cells@.len() ==> (#[trigger] mid.compute_cells@[c]).function
                    == pre.compute_cells@[c].function && mid.compute_cells@[c].dependencies@
                    == pre.compute_cells@[c].dependencies@ && mid.compute_cells@[c].cached_value
                    == pre.compute_cells@[c].cached_value && mid.compute_cells@[c].callbacks@
                    == pre.compute_cells@[c].callbacks@,
            forall|i: int|
                0 <= i < pre.input_cells@.len() ==> (#[trigger] mid.input_cells@[i].clients@)
                    == pre.input_cells@[i].clients@ || mid.input_cells@[i].clients@
                    == pre.input_cells@[i].clients@.push(cid),
            forall|c: int|
                0 <= c < pre.compute_cells@.len() ==> (#[trigger] mid.compute_cells@[c].clients@)
                    == pre.compute_cells@[c].clients@ || mid.compute_cells@[c].clients@
                    == pre.compute_cells@[c].clients@.push(cid),
            forall|kk: int|
                0 <= kk < deps.len() ==> (match (#[trigger] deps[kk]) {
                    CellID::Input(i) => mid.input_cells@[i.0 as int].clients@.contains(cid),
                    CellID::Compute(d) => mid.compute_cells@[d.0 as int].clients@.contains(cid),
                }),
            forall|kk: int| 0 <= kk < deps.len() ==> pre.valid_cell(#[trigger] deps[kk]),
            self.input_cells@ == mid.input_cells@,
            self.compute_cells@.len() == cid.0 + 1,
            forall|c: int|
                0 <= c < cid.0 ==> #[trigger] self.compute_cells@[c] == mid.compute_cells@[c],
            self.compute_cells@[cid.0 as int].dependencies@ == deps,
            self.compute_cells@[cid.0 as int].cached_value == Some(v),
            self.compute_cells@[cid.0 as int].callbacks@.len() == 0,
            self.compute_cells@[cid.0 as int].clients@.len() == 0,
            v == self.compute_cells@[cid.0 as int].function.spec_call(
                g1.dep_values(deps, cid.0 as int),
            ),
        ensures
            self.well_formed(),
            forall|other: CellID|
                pre.valid_cell(other) ==> #[trigger] self.cell_value(other) == pre.cell_value(
                    other,
                ),
    {
        let n = cid.0 as int;
        let g3 = self.graph();
        assert(g3.inputs == mid.graph().inputs);
        assert(g3.inputs == g1.inputs);
        assert forall|c: int| 0 <= c < n implies g3.cells[c] == g1.cells[c] by {
            assert(g3.cells[c] == mid.graph().cells[c]);
        }
        assert(g1.extends_except(g3, Set::empty()));
        assert(g1.closed_under_deps(Set::empty(), Set::empty()));

        assert forall|c: int| 0 <= c < g3.cells.len() implies g3.cell_wf(c) by {
            if c < n {
                assert(g1.cell_wf(c));
                assert forall|k: int| 0 <= k < g3.cells[c].deps.len() implies g3.dep_ok(
                    #[trigger] g3.cells[c].deps[k],
                    c,
                ) by {
                    assert(g1.dep_ok(g1.cells[c].deps[k], c));
                }
            } else {
                assert(g3.cells[c].deps == deps);
                assert forall|k: int| 0 <= k < deps.len() implies g3.dep_ok(
                    #[trigger] deps[k],
                    c,
                ) by {
                    assert(pre.valid_cell(deps[k]));
                }
            }
        }

        assert forall|i: int, q: int|
            0 <= i < self.input_cells@.len() && 0 <= q
                < self.input_cells@[i].clients@.len() implies (
        #[trigger] self.input_cells@[i].clients@[q]).0 < self.compute_cells@.len() by {
            let l0 = pre.input_cells@[i].clients@;
            if self.input_cells@[i].clients@ == l0.push(cid) {
                if q < l0.len() {
                    assert(pre.clients_valid());
                    assert(l0[q].0 < pre.compute_cells@.len());
                }
            } else {
                assert(pre.clients_valid());
            }
        }
        assert forall|c: int, q: int|
            0 <= c < self.compute_cells@.len() && 0 <= q
                < self.compute_cells@[c].clients@.len() implies (
        #[trigger] self.compute_cells@[c].clients@[q]).0 < self.compute_cells@.len() by {
            if c < n {
                let l0 = pre.compute_cells@[c].clients@;
                if self.compute_cells@[c].clients@ == l0.push(cid) {
                    if q < l0.len() {
                        assert(pre.clients_valid());
                        assert(l0[q].0 < pre.compute_cells@.len());
                    }
                } else {
                    assert(pre.clients_valid());
                }
            }
        }

        assert forall|c: int, k: int|
            0 <= c < self.compute_cells@.len() && 0 <= k
                < self.compute_cells@[c].dependencies@.len() implies (match (
        #[trigger] self.compute_cells@[c].dependencies@[k]) {
            CellID::Input(i) => self.input_cells@[i.0 as int].clients@.contains(
                ComputeCellID(c as usize),
            ),
            CellID::Compute(d) => self.compute_cells@[d.0 as int].clients@.contains(
                ComputeCellID(c as usize),
            ),
        }) by {
            if c < n {
                assert(g1.cell_wf(c));
                assert(g1.dep_ok(g1.cells[c].deps[k], c));
                assert(pre.clients_complete());
                match self.compute_cells@[c].dependencies@[k] {
                    CellID::Input(i) => {
                        let l0 = pre.input_cells@[i.0 as int].clients@;
                        assert(l0.contains(ComputeCellID(c as usize)));
                        if self.input_cells@[i.0 as int].clients@ == l0.push(cid) {
                            lemma_push_preserves_contains(l0, cid, ComputeCellID(c as usize));
                        }
                    },
                    CellID::Compute(d) => {
                        let l0 = pre.compute_cells@[d.0 as int].clients@;
                        assert(l0.contains(ComputeCellID(c as usize)));
                        if self.compute_cells@[d.0 as int].clients@ == l0.push(cid) {
                            lemma_push_preserves_contains(l0, cid, ComputeCellID(c as usize));
                        }
                    },
                }
            } else {
                assert(self.compute_cells@[c].dependencies@ == deps);
                assert(cid == ComputeCellID(c as usize));
            }
        }

        assert forall|c: int| 0 <= c < self.compute_cells@.len() implies (
        #[trigger] self.compute_cells@[c].cached_value) == Some(g3.compute_value(c)) by {
            if c < n {
                CellGraph::lemma_cell_stable(g1, g3, Set::empty(), Set::empty(), c);
                assert(self.compute_cells@[c].cached_value == pre.compute_cells@[c].cached_value);
                assert(pre.compute_cells@[c].cached_value == Some(g1.compute_value(c)));
            } else {
                assert forall|k: int| 0 <= k < deps.len() implies g1.dep_ok(
                    #[trigger] deps[k],
                    n,
                ) by {
                    assert(pre.valid_cell(deps[k]));
                }
                CellGraph::lemma_deps_stable(g1, g3, Set::empty(), Set::empty(), deps, n);
                assert(g3.cells[c].deps == deps);
                assert(g3.compute_value(c) == g3.cells[c].func.spec_call(g3.dep_values(deps, c)));
            }
        }

        assert forall|other: CellID| pre.valid_cell(other) implies #[trigger] self.cell_value(other)
            == pre.cell_value(other) by {
            match other {
                CellID::Input(i) => {
                    assert(g3.inputs[i.0 as int] == g1.inputs[i.0 as int]);
                },
                CellID::Compute(d) => {
                    CellGraph::lemma_cell_stable(g1, g3, Set::empty(), Set::empty(), d.0 as int);
                },
            }
        }
    }

    /// In a settled reactor, a compute cell's dependency list is ready for
    /// re-evaluation: each handle is in range and each compute dependency's
    /// cache already holds its value.
    pub(crate) proof fn lemma_cell_ready(&self, c: int)
        requires
            self.well_formed(),
            0 <= c < self.compute_cells@.len(),
        ensures
            self.graph().cells[c] == (CellSpec {
                func: self.compute_cells@[c].function,
                deps: self.compute_cells@[c].dependencies@,
            }),
            forall|k: int|
                0 <= k < self.compute_cells@[c].dependencies@.len() ==> self.graph().dep_ok(
                    #[trigger] self.compute_cells@[c].dependencies@[k],
                    c,
                ),
            forall|k: int|
                0 <= k < self.compute_cells@[c].dependencies@.len() ==> (match (
                #[trigger] self.compute_cells@[c].dependencies@[k]) {
                    CellID::Input(_) => true,
                    CellID::Compute(d) => self.compute_cells@[d.0 as int].cached_value == Some(
                        self.graph().compute_value(d.0 as int),
                    ),
                }),
    {
        let g = self.graph();
        assert(g.cell_wf(c));
        assert forall|k: int| 0 <= k < self.compute_cells@[c].dependencies@.len() implies g.dep_ok(
            #[trigger] self.compute_cells@[c].dependencies@[k],
            c,
        ) by {
            assert(g.dep_ok(g.cells[c].deps[k], c));
        }
        assert forall|k: int| 0 <= k < self.compute_cells@[c].dependencies@.len() implies (match (
        #[trigger] self.compute_cells@[c].dependencies@[k]) {
            CellID::Input(_) => true,
            CellID::Compute(d) => self.compute_cells@[d.0 as int].cached_value == Some(
                g.compute_value(d.0 as int),
            ),
        }) by {
            assert(g.dep_ok(g.cells[c].deps[k], c));
            match self.compute_cells@[c].dependencies@[k] {
                CellID::Compute(d) => {
                    assert(d.0 < self.compute_cells@.len());
                },
                CellID::Input(_) => {},
            }
        }
    }

    /// Evaluate `f` over the current values of `deps`, reading input cells
    /// directly and compute cells from their settled caches.  `bound` is the
    /// index the dependency list belongs to (or the number of compute cells,
    /// for a read from outside): every compute dependency lies below it.
    pub(crate) fn evaluate(&self, deps: &Vec<CellID>, f: &F, bound: Ghost<int>) -> (r: T)
        requires
            0 <= bound@ <= self.compute_cells@.len(),
            forall|k: int|
                0 <= k < deps@.len() ==> self.graph().dep_ok(#[trigger] deps@[k], bound@),
            forall|k: int|
                0 <= k < deps@.len() ==> (match (#[trigger] deps@[k]) {
                    CellID::Input(_) => true,
                    CellID::Compute(d) => self.compute_cells@[d.0 as int].cached_value == Some(
                        self.graph().compute_value(d.0 as int),
                    ),
                }),
        ensures
            r == f.spec_call(self.graph().dep_values(deps@, bound@)),
    {
        let ghost g = self.graph();
        let mut args: Vec<T> = Vec::new();
        let mut k: usize = 0;
        while k < deps.len()
            invariant
                k <= deps@.len(),
                args@ == g.dep_values(deps@.take(k as int), bound@),
                g == self.graph(),
                0 <= bound@ <= self.compute_cells@.len(),
                forall|j: int|
                    0 <= j < deps@.len() ==> self.graph().dep_ok(#[trigger] deps@[j], bound@),
                forall|j: int|
                    0 <= j < deps@.len() ==> (match (#[trigger] deps@[j]) {
                        CellID::Input(_) => true,
                        CellID::Compute(d) => self.compute_cells@[d.0 as int].cached_value == Some(
                            self.graph().compute_value(d.0 as int),
                        ),
                    }),
            decreases deps@.len() - k,
        {
            let v: T = match deps[k] {
                CellID::Input(i) => self.input_cells[i.0].value,
                CellID::Compute(d) => self.compute_cells[d.0].cached_value.unwrap(),
            };
            args.push(v);
            proof {
                let t1 = deps@.take(k + 1 as int);
                assert(t1.drop_last() =~= deps@.take(k as int));
                assert(t1.last() == deps@[k as int]);
                assert(args@ == g.dep_values(t1, bound@));
            }
            k += 1;
        }
        proof {
            assert(deps@.take(deps@.len() as int) =~= deps@);
        }
        f.call(&args)
    }

    /// Retrieves the current value of the cell, or `None` if the cell does
    /// not exist.  A compute cell is re-evaluated from the current values of
    /// its dependencies; because the reactor is settled this always
    /// reproduces the cached value, so no callback can be owed.
    pub fn value(&self, id: CellID) -> (r: Option<T>)
        requires
            self.well_formed(),
        ensures
            r == if self.valid_cell(id) {
                Some(self.cell_value(id))
            } else {
                None::<T>
            },
    {
        match id {
            CellID::Input(i) => {
                if i.0 < self.input_cells.len() {
                    Some(self.input_cells[i.0].value)
                } else {
                    None
                }
            },
            CellID::Compute(d) => {
                if d.0 < self.compute_cells.len() {
                    let ghost g = self.graph();
                    let ghost di = d.0 as int;
                    proof {
                        self.lemma_cell_ready(di);
                    }
                    let cell = &self.compute_cells[d.0];
                    let v = self.evaluate(&cell.dependencies, &cell.function, Ghost(di));
                    proof {
                        assert(v == g.compute_value(di));
                    }
                    Some(v)
                } else {
                    None
                }
            },
        }
    }

    /// Sets the value of the specified input cell, returning `false` only
    /// when the cell does not exist.  Writing the value a cell already holds
    /// returns `true` and changes nothing: no propagation runs and no
    /// callback fires anywhere.  On an actual change, every settled value is
    /// snapshotted, the transitive closure of client cells is re-evaluated
    /// to a new settled state, and then each compute cell whose settled
    /// value differs from its snapshot fires each of its callbacks exactly
    /// once with the settled value; a cell whose value merely flickered
    /// during the pass and settled back fires nothing.
    pub fn set_value(&mut self, id: InputCellID, new_value: T) -> (r: bool)
        requires
            old(self).well_formed(),
            vstd::laws_eq::obeys_concrete_eq::<T>(),
        ensures
            final(self).well_formed(),
            r == old(self).valid_input(id),
            !old(self).valid_input(id) ==> *final(self) == *old(self),
            old(self).valid_input(id) && old(self).input_cells@[id.0 as int].value == new_value
                ==> *final(self) == *old(self),
            old(self).valid_input(id) && old(self).input_cells@[id.0 as int].value != new_value
                ==> ({
                let pre = *old(self);
                let post = *final(self);
                &&& post.input_cells@.len() == pre.input_cells@.len()
                &&& post.input_cells@[id.0 as int].value == new_value
                &&& forall|i: int|
                    0 <= i < pre.input_cells@.len() ==> (#[trigger] post.input_cells@[i]).clients@
                        == pre.input_cells@[i].clients@
                &&& forall|i: int|
                    0 <= i < pre.input_cells@.len() && i != id.0 as int
                        ==> (#[trigger] post.input_cells@[i]).value == pre.input_cells@[i].value
                &&& post.compute_cells@.len() == pre.compute_cells@.len()
                &&& forall|c: int|
                    #![trigger post.compute_cells@[c]]
                    0 <= c < pre.compute_cells@.len() ==> ({
                        let a = post.compute_cells@[c];
                        let b = pre.compute_cells@[c];
                        &&& a.function == b.function
                        &&& a.dependencies@ == b.dependencies@
                        &&& a.clients@ == b.clients@
                        &&& a.cached_value == Some(post.graph().compute_value(c))
                        &&& callbacks_updated(
                            b.callbacks@,
                            a.callbacks@,
                            post.graph().compute_value(c) != pre.graph().compute_value(c),
                            post.graph().compute_value(c),
                        )
                    })
            }),
    {
        let idx = id.0;
        if idx >= self.input_cells.len() {
            return false;
        }
        let unchanged = self.input_cells[idx].value == new_value;
        proof {
            reveal(vstd::laws_eq::obeys_concrete_eq);
            assert(unchanged == (self.input_cells@[idx as int].value == new_value));
        }
        if unchanged {
            return true;
        }

        let ghost g1 = old(self).graph();
        {
            let ic = &mut self.input_cells[idx];
            ic.value = new_value;
        }
        let ghost g2 = self.graph();
        let ghost xs = Set::<int>::empty().insert(idx as int);
        let n = self.compute_cells.len();
        proof {
            assert(g2.cells == g1.cells);
            assert forall|c: int| 0 <= c < g2.cells.len() implies g2.cell_wf(c) by {
                assert(g1.cell_wf(c));
                assert forall|k: int| 0 <= k < g2.cells[c].deps.len() implies g2.dep_ok(
                    #[trigger] g2.cells[c].deps[k],
                    c,
                ) by {
                    assert(g1.dep_ok(g1.cells[c].deps[k], c));
                }
            }
            assert(g1.extends_except(g2, xs));
            self.lemma_clients_carry(*old(self));
        }

        let marks = self.affected_set(idx);
        let ghost dirty = Set::<int>::new(|c: int| 0 <= c < n && marks@[c]);
        proof {
            assert forall|d: int, k: int|
                0 <= d < g1.cells.len() && 0 <= k < g1.cells[d].deps.len() implies (match (
            #[trigger] g1.cells[d].deps[k]) {
                CellID::Input(i) => xs.contains(i.0 as int) ==> dirty.contains(d),
                CellID::Compute(e) => dirty.contains(e.0 as int) ==> dirty.contains(d),
            }) by {
                assert(g1.cells[d].deps == self.compute_cells@[d].dependencies@);
                assert(self.clients_complete());
                match g1.cells[d].deps[k] {
                    CellID::Input(i) => {
                        if xs.contains(i.0 as int) {
                            assert(i.0 == idx);
                            let cl = self.input_cells@[idx as int].clients@;
                            assert(cl.contains(ComputeCellID(d as usize)));
                            let q = choose|q: int|
                                0 <= q < cl.len() && cl[q] == ComputeCellID(d as usize);
                            assert(marks@[(cl[q]).0 as int]);
                            assert(dirty.contains(d));
                        }
                    },
                    CellID::Compute(e) => {
                        if dirty.contains(e.0 as int) {
                            assert(marks@[e.0 as int]);
                            let cl = self.compute_cells@[e.0 as int].clients@;
                            assert(cl.contains(ComputeCellID(d as usize)));
                            let q = choose|q: int|
                                0 <= q < cl.len() && cl[q] == ComputeCellID(d as usize);
                            assert(marks@[(cl[q]).0 as int]);
                            assert(dirty.contains(d));
                        }
                    },
                }
            }
            assert(g1.closed_under_deps(xs, dirty));
            assert forall|c: int| 0 <= c < n && !marks@[c] implies g2.compute_value(c)
                == g1.compute_value(c) by {
                assert(!dirty.contains(c));
                CellGraph::lemma_cell_stable(g1, g2, xs, dirty, c);
            }
        }

        let mut snapshot: Vec<T> = Vec::new();
        let mut c1: usize = 0;
        while c1 < n
            invariant
                n == self.compute_cells@.len(),
                c1 <= n,
                snapshot@.len() == c1,
                forall|c: int|
                    0 <= c < n ==> (#[trigger] self.compute_cells@[c].cached_value) == Some(
                        g1.compute_value(c),
                    ),
                forall|c: int| 0 <= c < c1 ==> #[trigger] snapshot@[c] == g1.compute_value(c),
            decreases n - c1,
        {
            snapshot.push(self.compute_cells[c1].cached_value.unwrap());
            c1 += 1;
        }

        let ghost mid = *self;
        let mut c2: usize = 0;
        while c2 < n
            invariant
                n == self.compute_cells@.len(),
                c2 <= n,
                marks@.len() == n,
                g2 == self.graph(),
                g2.wf(),
                self.input_cells@ == mid.input_cells@,
                forall|c: int|
                    #![trigger self.compute_cells@[c]]
                    0 <= c < n ==> ({
                        let a = self.compute_cells@[c];
                        let b = mid.compute_cells@[c];
                        &&& a.function == b.function
                        &&& a.dependencies@ == b.dependencies@
                        &&& a.clients@ == b.clients@
                        &&& a.callbacks@ == b.callbacks@
                    }),
                forall|c: int|
                    0 <= c < c2 && marks@[c] ==> (#[trigger] self.compute_cells@[c].cached_value)
                        == Some(g2.compute_value(c)),
                forall|c: int|
                    0 <= c < n && !marks@[c] ==> (#[trigger] self.compute_cells@[c].cached_value)
                        == Some(g2.compute_value(c)),
                forall|c: int|
                    c2 <= c < n && marks@[c] ==> (#[trigger] self.compute_cells@[c].cached_value)
                        == Some(g1.compute_value(c)),
            decreases n - c2,
        {
            if marks[c2] {
                let ghost ci = c2 as int;
                proof {
                    assert(g2.cells[ci] == (CellSpec {
                        func: self.compute_cells@[ci].function,
                        deps: self.compute_cells@[ci].dependencies@,
                    }));
                    assert(g2.cell_wf(ci));
                    assert forall|k: int|
                        0 <= k < self.compute_cells@[ci].dependencies@.len() implies g2.dep_ok(
                        #[trigger] self.compute_cells@[ci].dependencies@[k],
                        ci,
                    ) by {
                        assert(g2.dep_ok(g2.cells[ci].deps[k], ci));
                    }
                    assert forall|k: int|
                        0 <= k < self.compute_cells@[ci].dependencies@.len() implies (match (
                    #[trigger] self.compute_cells@[ci].dependencies@[k]) {
                        CellID::Input(_) => true,
                        CellID::Compute(d) => self.compute_cells@[d.0 as int].cached_value == Some(
                            g2.compute_value(d.0 as int),
                        ),
                    }) by {
                        assert(g2.dep_ok(g2.cells[ci].deps[k], ci));
                    }
                }
                let v = {
                    let cell = &self.compute_cells[c2];
                    self.evaluate(&cell.dependencies, &cell.function, Ghost(c2 as int))
                };
                proof {
                    assert(v == g2.compute_value(ci));
                }
                let cc = &mut self.compute_cells[c2];
                cc.cached_value = Some(v);
                proof {
                    assert(self.graph() =~~= g2);
                }
            }
            c2 += 1;
        }

        let ghost fin = *self;
        let mut c3: usize = 0;
        while c3 < n
            invariant
                n == self.compute_cells@.len(),
                c3 <= n,
                snapshot@.len() == n,
                g2 == self.graph(),
                vstd::laws_eq::obeys_concrete_eq::<T>(),
                forall|c: int| 0 <= c < n ==> #[trigger] snapshot@[c] == g1.compute_value(c),
                self.input_cells@ == fin.input_cells@,
                forall|c: int|
                    #![trigger self.compute_cells@[c]]
                    0 <= c < n ==> ({
                        let a = self.compute_cells@[c];
                        let b = fin.compute_cells@[c];
                        &&& a.function == b.function
                        &&& a.dependencies@ == b.dependencies@
                        &&& a.clients@ == b.clients@
                        &&& a.cached_value == b.cached_value
                    }),
                forall|c: int|
                    0 <= c < n ==> (#[trigger] self.compute_cells@[c].cached_value) == Some(
                        g2.compute_value(c),
                    ),
                forall|c: int|
                    0 <= c < c3 ==> callbacks_updated(
                        (#[trigger] fin.compute_cells@[c]).callbacks@,
                        self.compute_cells@[c].callbacks@,
                        g2.compute_value(c) != g1.compute_value(c),
                        g2.compute_value(c),
                    ),
                forall|c: int|
                    c3 <= c < n ==> (#[trigger] self.compute_cells@[c]).callbacks@
                        == fin.compute_cells@[c].callbacks@,
            decreases n - c3,
        {
            let now = self.compute_cells[c3].cached_value.unwrap();
            let same = snapshot[c3] == now;
            proof {
                reveal(vstd::laws_eq::obeys_concrete_eq);
                assert(same == (snapshot@[c3 as int] == now));
            }
            if !same {
                let cc = &mut self.compute_cells[c3];
                Self::fire_callbacks(&mut cc.callbacks, now);
                proof {
                    assert(self.graph() =~~= g2);
                }
            }
            c3 += 1;
        }

        proof {
            self.lemma_clients_carry(*old(self));
            assert(self.settled());
            assert(self.well_formed());
        }
        true
    }

    /// Adds a callback to the specified compute cell and returns its fresh,
    /// monotonically increasing identifier, or `None` if the cell does not
    /// exist.  Nothing else about the reactor changes; in particular no
    /// callback fires.
    pub fn add_callback(&mut self, id: ComputeCellID, callback: C) -> (r: Option<CallbackID>)
        requires
            old(self).well_formed(),
        ensures
            final(self).well_formed(),
            !old(self).valid_compute(id) ==> r is None && *final(self) == *old(self),
            old(self).valid_compute(id) ==> ({
                let pre = old(self).compute_cells@[id.0 as int];
                let post = final(self).compute_cells@[id.0 as int];
                &&& r == Some(CallbackID(pre.callbacks@.len() as usize))
                &&& final(self).input_cells@ == old(self).input_cells@
                &&& final(self).compute_cells@.len() == old(self).compute_cells@.len()
                &&& forall|c: int|
                    0 <= c < old(self).compute_cells@.len() && c != id.0
                        ==> #[trigger] final(self).compute_cells@[c] == old(self).compute_cells@[c]
                &&& post.function == pre.function
                &&& post.dependencies@ == pre.dependencies@
                &&& post.cached_value == pre.cached_value
                &&& post.clients@ == pre.clients@
                &&& post.callbacks@ == pre.callbacks@.push(Some(callback))
            }),
    {
        if id.0 >= self.compute_cells.len() {
            return None;
        }
        let cbid = CallbackID(self.compute_cells[id.0].callbacks.len());
        let cell = &mut self.compute_cells[id.0];
        cell.callbacks.push(Some(callback));
        proof {
            self.lemma_same_shape_preserves(*old(self));
        }
        Some(cbid)
    }

    /// Removes the callback identified by an identifier returned from
    /// `add_callback`.  A removed callback never fires again; its identifier
    /// is never reused.  Fails with `NonexistentCell` when the compute cell
    /// does not exist, and with `NonexistentCallback` when the cell exists
    /// but carries no callback under that identifier (never given out, or
    /// already removed).
    pub fn remove_callback(&mut self, cell: ComputeCellID, callback: CallbackID) -> (r: Result<
        (),
        RemoveCallbackError,
    >)
        requires
            old(self).well_formed(),
        ensures
            final(self).well_formed(),
            !old(self).valid_compute(cell) ==> r == Err::<(), RemoveCallbackError>(
                RemoveCallbackError::NonexistentCell,
            ) && *final(self) == *old(self),
            old(self).valid_compute(cell) && !old(self).callback_registered(cell, callback) ==> r
                == Err::<(), RemoveCallbackError>(RemoveCallbackError::NonexistentCallback)
                && *final(self) == *old(self),
            old(self).valid_compute(cell) && old(self).callback_registered(cell, callback) ==> ({
                let pre = old(self).compute_cells@[cell.0 as int];
                let post = final(self).compute_cells@[cell.0 as int];
                &&& r == Ok::<(), RemoveCallbackError>(())
                &&& final(self).input_cells@ == old(self).input_cells@
                &&& final(self).compute_cells@.len() == old(self).compute_cells@.len()
                &&& forall|c: int|
                    0 <= c < old(self).compute_cells@.len() && c != cell.0
                        ==> #[trigger] final(self).compute_cells@[c] == old(self).compute_cells@[c]
                &&& post.function == pre.function
                &&& post.dependencies@ == pre.dependencies@
                &&& post.cached_value == pre.cached_value
                &&& post.clients@ == pre.clients@
                &&& post.callbacks@ == pre.callbacks@.update(callback.0 as int, None::<C>)
            }),
    {
        if cell.0 >= self.compute_cells.len() {
            return Err(RemoveCallbackError::NonexistentCell);
        }
        if callback.0 >= self.compute_cells[cell.0].callbacks.len() {
            return Err(RemoveCallbackError::NonexistentCallback);
        }
        if self.compute_cells[cell.0].callbacks[callback.0].is_some() {
            let cc = &mut self.compute_cells[cell.0];
            let slot = &mut cc.callbacks[callback.0];
            *slot = None;
            proof {
                self.lemma_same_shape_preserves(*old(self));
            }
            Ok(())
        } else {
            Err(RemoveCallbackError::NonexistentCallback)
        }
    }

    /// Functional correctness of recomputation, as a law: in every
    /// well-formed reactor the value a compute cell denotes is its function
    /// applied to the values its dependencies currently denote, in
    /// dependency order.  Together with the contract of `value`, which
    /// returns `cell_value` for every existing cell, this pins down what a
    /// read observes after any sequence of operations.
    pub proof fn lemma_compute_cell_value(&self, id: ComputeCellID)
        requires
            self.well_formed(),
            self.valid_compute(id),
        ensures
            self.cell_value(CellID::Compute(id)) == self.compute_cells@[id.0 as int].function.spec_call(
                Seq::new(
                    self.compute_cells@[id.0 as int].dependencies@.len(),
                    |k: int| self.cell_value(self.compute_cells@[id.0 as int].dependencies@[k]),
                ),
            ),
    {
        let g = self.graph();
        let ci = id.0 as int;
        assert(g.cells[ci] == (CellSpec {
            func: self.compute_cells@[ci].function,
            deps: self.compute_cells@[ci].dependencies@,
        }));
        assert(g.cell_wf(ci));
        g.lemma_dep_values_are_cell_values(g.cells[ci].deps, ci);
        let deps = self.compute_cells@[ci].dependencies@;
        assert(Seq::new(deps.len(), |k: int| g.cell_value(deps[k])) =~= Seq::new(
            deps.len(),
            |k: int| self.cell_value(deps[k]),
        ));
    }

    /// Read access to a registered callback's current state, for inspecting
    /// what it has observed.  Returns `None` when the cell does not exist or
    /// carries no callback under that identifier.
    pub fn get_callback(&self, cell: ComputeCellID, callback: CallbackID) -> (r: Option<&C>)
        ensures
            match r {
                Some(cb) => self.valid_compute(cell) && callback.0 < self.compute_cells@[cell.0 as int].callbacks@.len()
                    && self.compute_cells@[cell.0 as int].callbacks@[callback.0 as int] == Some(
                    *cb,
                ),
                None => !self.valid_compute(cell) || callback.0
                    >= self.compute_cells@[cell.0 as int].callbacks@.len()
                    || self.compute_cells@[cell.0 as int].callbacks@[callback.0 as int] is None,
            },
    {
        if cell.0 >= self.compute_cells.len() {
            return None;
        }
        if callback.0 >= self.compute_cells[cell.0].callbacks.len() {
            return None;
        }
        match &self.compute_cells[cell.0].callbacks[callback.0] {
            Some(cb) => Some(cb),
            None => None,
        }
    }

    /// Deliver `value` to every callback present in one cell's registry,
    /// each exactly once.
    fn fire_callbacks(callbacks: &mut Vec<Option<C>>, value: T)
        ensures
            callbacks_updated(old(callbacks)@, final(callbacks)@, true, value),
    {
        let mut j: usize = 0;
        while j < callbacks.len()
            invariant
                callbacks@.len() == old(callbacks)@.len(),
                j <= callbacks@.len(),
                forall|q: int|
                    j <= q < callbacks@.len() ==> #[trigger] callbacks@[q] == old(callbacks)@[q],
                forall|q: int|
                    0 <= q < j ==> (match (old(callbacks)@[q], #[trigger] callbacks@[q]) {
                        (Some(cb0), Some(cb1)) => cb1.seen() == cb0.seen().push(value),
                        (None, None) => true,
                        _ => false,
                    }),
            decreases callbacks@.len() - j,
        {
            let slot = &mut callbacks[j];
            match slot {
                Some(cb) => cb.on_change(value),
                None => {},
            }
            j += 1;
        }
    }

    /// Client lists and dependency lists decide `clients_valid` and
    /// `clients_complete` alone, so any state change that leaves them (and
    /// the storage sizes) alone carries both over.
    proof fn lemma_clients_carry(&self, pre: Self)
        requires
            pre.well_formed(),
            self.input_cells@.len() == pre.input_cells@.len(),
            self.compute_cells@.len() == pre.compute_cells@.len(),
            forall|i: int|
                0 <= i < pre.input_cells@.len() ==> (#[trigger] self.input_cells@[i].clients@)
                    == pre.input_cells@[i].clients@,
            forall|c: int|
                0 <= c < pre.compute_cells@.len() ==> (#[trigger] self.compute_cells@[c].clients@)
                    == pre.compute_cells@[c].clients@,
            forall|c: int|
                0 <= c < pre.compute_cells@.len() ==> (
                #[trigger] self.compute_cells@[c].dependencies@)
                    == pre.compute_cells@[c].dependencies@,
        ensures
            self.clients_valid(),
            self.clients_complete(),
    {
        let g = pre.graph();
        assert forall|c: int, k: int|
            0 <= c < self.compute_cells@.len() && 0 <= k
                < self.compute_cells@[c].dependencies@.len() implies (match (
        #[trigger] self.compute_cells@[c].dependencies@[k]) {
            CellID::Input(i) => self.input_cells@[i.0 as int].clients@.contains(
                ComputeCellID(c as usize),
            ),
            CellID::Compute(d) => self.compute_cells@[d.0 as int].clients@.contains(
                ComputeCellID(c as usize),
            ),
        }) by {
            assert(g.cell_wf(c));
            assert(g.dep_ok(g.cells[c].deps[k], c));
            assert(pre.compute_cells@[c].dependencies@[k] == g.cells[c].deps[k]);
        }
    }

    /// The affected set of one input mutation: the transitive closure of
    /// "clients of clients of ..." starting from the input's direct clients,
    /// reached by fixpoint iteration over the client graph with a work
    /// stack.  The result is closed under client edges, which (client lists
    /// being complete) means it absorbs everything downstream of the input.
    fn affected_set(&self, x: usize) -> (marks: Vec<bool>)
        requires
            x < self.input_cells@.len(),
            self.clients_valid(),
        ensures
            marks@.len() == self.compute_cells@.len(),
            forall|j: int|
                0 <= j < self.input_cells@[x as int].clients@.len() ==> marks@[(
                #[trigger] self.input_cells@[x as int].clients@[j]).0 as int],
            forall|d: int, j: int|
                0 <= d < self.compute_cells@.len() && marks@[d] && 0 <= j
                    < self.compute_cells@[d].clients@.len() ==> marks@[(
                #[trigger] self.compute_cells@[d].clients@[j]).0 as int],
    {
        let n = self.compute_cells.len();
        let mut marks: Vec<bool> = Vec::new();
        while marks.len() < n
            invariant
                marks@.len() <= n,
                forall|c: int| 0 <= c < marks@.len() ==> !(#[trigger] marks@[c]),
            decreases n - marks@.len(),
        {
            marks.push(false);
        }

        let mut stack: Vec<ComputeCellID> = Vec::new();
        let mut k: usize = 0;
        while k < self.input_cells[x].clients.len()
            invariant
                x < self.input_cells@.len(),
                self.clients_valid(),
                n == self.compute_cells@.len(),
                marks@.len() == n,
                k <= self.input_cells@[x as int].clients@.len(),
                stack@ == self.input_cells@[x as int].clients@.take(k as int),
            decreases self.input_cells@[x as int].clients@.len() - k,
        {
            stack.push(self.input_cells[x].clients[k]);
            proof {
                assert(self.input_cells@[x as int].clients@.take(k + 1 as int)
                    =~= self.input_cells@[x as int].clients@.take(k as int).push(
                    self.input_cells@[x as int].clients@[k as int],
                ));
            }
            k += 1;
        }
        proof {
            let cl = self.input_cells@[x as int].clients@;
            assert(cl.take(cl.len() as int) =~= cl);
        }

        while stack.len() != 0
            invariant
                n == self.compute_cells@.len(),
                marks@.len() == n,
                self.clients_valid(),
                x < self.input_cells@.len(),
                forall|j: int| 0 <= j < stack@.len() ==> (#[trigger] stack@[j]).0 < n,
                forall|j: int|
                    0 <= j < self.input_cells@[x as int].clients@.len() ==> marked_or_stacked(
                        marks@,
                        stack@,
                        (#[trigger] self.input_cells@[x as int].clients@[j]).0 as int,
                    ),
                forall|d: int, j: int|
                    0 <= d < n && marks@[d] && 0 <= j < self.compute_cells@[d].clients@.len()
                        ==> marked_or_stacked(
                        marks@,
                        stack@,
                        (#[trigger] self.compute_cells@[d].clients@[j]).0 as int,
                    ),
            decreases count_unmarked(marks@), stack@.len(),
        {
            let ghost marks0 = marks@;
            let ghost stack0 = stack@;
            let cid = stack.pop().unwrap();
            proof {
                assert(stack@ =~= stack0.drop_last());
            }
            if !marks[cid.0] {
                let ghost popped = stack@;
                {
                    let slot = &mut marks[cid.0];
                    *slot = true;
                }
                proof {
                    assert(marks@ =~= marks0.update(cid.0 as int, true));
                    lemma_count_unmarked_mark(marks0, cid.0 as int);
                    assert(popped =~= stack@.subrange(0, popped.len() as int));
                    assert(popped.is_prefix_of(stack@));
                }
                let mut k2: usize = 0;
                while k2 < self.compute_cells[cid.0].clients.len()
                    invariant
                        n == self.compute_cells@.len(),
                        cid.0 < n,
                        marks@.len() == n,
                        self.clients_valid(),
                        marks@ == marks0.update(cid.0 as int, true),
                        k2 <= self.compute_cells@[cid.0 as int].clients@.len(),
                        popped.is_prefix_of(stack@),
                        forall|j: int| 0 <= j < stack@.len() ==> (#[trigger] stack@[j]).0 < n,
                        forall|j: int|
                            #![trigger self.compute_cells@[cid.0 as int].clients@[j]]
                            0 <= j < k2 ==> marked_or_stacked(
                                marks@,
                                stack@,
                                (self.compute_cells@[cid.0 as int].clients@[j]).0 as int,
                            ),
                    decreases self.compute_cells@[cid.0 as int].clients@.len() - k2,
                {
                    let ghost before = stack@;
                    stack.push(self.compute_cells[cid.0].clients[k2]);
                    proof {
                        assert(popped =~= stack@.subrange(0, popped.len() as int));
                        let cl = self.compute_cells@[cid.0 as int].clients@;
                        assert(stack@[stack@.len() - 1] == cl[k2 as int]);
                        assert forall|j: int| #![trigger cl[j]] 0 <= j < k2 + 1 implies marked_or_stacked(
                            marks@,
                            stack@,
                            (cl[j]).0 as int,
                        ) by {
                            if j < k2 {
                                assert(marked_or_stacked(marks@, before, (cl[j]).0 as int));
                                if !marks@[(cl[j]).0 as int] {
                                    let p = choose|p: int|
                                        0 <= p < before.len() && (#[trigger] before[p]).0 as int
                                            == (cl[j]).0 as int;
                                    assert(stack@[p].0 as int == (cl[j]).0 as int);
                                }
                            } else {
                                assert(stack@[stack@.len() - 1].0 as int == (cl[j]).0 as int);
                            }
                        }
                    }
                    k2 += 1;
                }
                proof {
                    let cl = self.compute_cells@[cid.0 as int].clients@;
                    assert(k2 >= cl.len());
                    assert forall|j: int| #![trigger cl[j]] 0 <= j < cl.len() implies marked_or_stacked(
                        marks@,
                        stack@,
                        (cl[j]).0 as int,
                    ) by {
                        assert(0 <= j < k2);
                    }
                    self.lemma_walk_step(x, marks0, stack0, marks@, stack@, cid, true);
                }
            } else {
                proof {
                    let dl = stack0.drop_last();
                    assert(dl =~= stack@.subrange(0, dl.len() as int));
                    assert(dl.is_prefix_of(stack@));
                    self.lemma_walk_step(x, marks0, stack0, marks@, stack@, cid, false);
                }
            }
        }
        marks
    }

    /// One step of the closure walk preserves its invariant: the popped cell
    /// is marked afterwards (it either was already, or was marked and had
    /// all its clients pushed), marks only grow, and the remainder of the
    /// stack survives.
    proof fn lemma_walk_step(
        &self,
        x: usize,
        marks0: Seq<bool>,
        stack0: Seq<ComputeCellID>,
        marks1: Seq<bool>,
        stack1: Seq<ComputeCellID>,
        cid: ComputeCellID,
        newly: bool,
    )
        requires
            x < self.input_cells@.len(),
            self.clients_valid(),
            marks0.len() == self.compute_cells@.len(),
            marks1.len() == marks0.len(),
            stack0.len() > 0,
            stack0.last() == cid,
            cid.0 < marks0.len(),
            newly ==> marks1 == marks0.update(cid.0 as int, true),
            !newly ==> marks1 == marks0 && marks0[cid.0 as int],
            stack0.drop_last().is_prefix_of(stack1),
            newly ==> forall|j: int|
                #![trigger self.compute_cells@[cid.0 as int].clients@[j]]
                0 <= j < self.compute_cells@[cid.0 as int].clients@.len() ==> marked_or_stacked(
                    marks1,
                    stack1,
                    (self.compute_cells@[cid.0 as int].clients@[j]).0 as int,
                ),
            forall|j: int|
                0 <= j < self.input_cells@[x as int].clients@.len() ==> marked_or_stacked(
                    marks0,
                    stack0,
                    (#[trigger] self.input_cells@[x as int].clients@[j]).0 as int,
                ),
            forall|d: int, j: int|
                0 <= d < marks0.len() && marks0[d] && 0 <= j
                    < self.compute_cells@[d].clients@.len() ==> marked_or_stacked(
                    marks0,
                    stack0,
                    (#[trigger] self.compute_cells@[d].clients@[j]).0 as int,
                ),
        ensures
            forall|j: int|
                0 <= j < self.input_cells@[x as int].clients@.len() ==> marked_or_stacked(
                    marks1,
                    stack1,
                    (#[trigger] self.input_cells@[x as int].clients@[j]).0 as int,
                ),
            forall|d: int, j: int|
                0 <= d < marks1.len() && marks1[d] && 0 <= j
                    < self.compute_cells@[d].clients@.len() ==> marked_or_stacked(
                    marks1,
                    stack1,
                    (#[trigger] self.compute_cells@[d].clients@[j]).0 as int,
                ),
    {
        assert(marks1[cid.0 as int]);
        let dl = stack0.drop_last();
        assert forall|c: int|
            0 <= c < marks0.len() && marked_or_stacked(marks0, stack0, c) implies marked_or_stacked(
            marks1,
            stack1,
            c,
        ) by {
            if marks0[c] {
                assert(marks1[c]);
            } else {
                let j = choose|j: int|
                    0 <= j < stack0.len() && (#[trigger] stack0[j]).0 as int == c;
                if j < stack0.len() - 1 {
                    assert(dl =~= stack1.subrange(0, dl.len() as int));
                    assert(stack1[j] == dl[j]);
                    assert(stack1[j].0 as int == c);
                } else {
                    assert(stack0[j] == cid);
                    assert(marks1[c]);
                }
            }
        }
        assert forall|j: int|
            0 <= j < self.input_cells@[x as int].clients@.len() implies marked_or_stacked(
            marks1,
            stack1,
            (#[trigger] self.input_cells@[x as int].clients@[j]).0 as int,
        ) by {
            let c = self.input_cells@[x as int].clients@[j].0 as int;
            assert(0 <= c < marks0.len());
            assert(marked_or_stacked(marks0, stack0, c));
        }
        assert forall|d: int, j: int|
            0 <= d < marks1.len() && marks1[d] && 0 <= j
                < self.compute_cells@[d].clients@.len() implies marked_or_stacked(
            marks1,
            stack1,
            (#[trigger] self.compute_cells@[d].clients@[j]).0 as int,
        ) by {
            let c = self.compute_cells@[d].clients@[j].0 as int;
            assert(0 <= c < marks0.len());
            if newly && d == cid.0 as int && !marks0[d] {
                assert(marked_or_stacked(marks1, stack1, c));
            } else {
                assert(marks0[d]);
                assert(marked_or_stacked(marks0, stack0, c));
            }
        }
    }
}

} // verus!
