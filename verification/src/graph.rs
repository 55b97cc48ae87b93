use crate::cells::ComputeFn;
use crate::ids::CellID;
use vstd::prelude::*;

verus! {

/// The mathematical content of one compute cell: its pure function and the
/// ordered handles of the cells it reads.
#[verifier::ext_equal]
pub ghost struct CellSpec<F> {
    pub func: F,
    pub deps: Seq<CellID>,
}

/// Ghost model of a reactor's dependency graph: the current input values and,
/// for every compute cell, its function and dependency list.  Cached values,
/// client edges and callbacks are deliberately absent, so the model is
/// untouched by recomputation and callback delivery, and the value semantics
/// below depends only on what a cell is wired to.
#[verifier::ext_equal]
pub ghost struct CellGraph<T, F> {
    pub inputs: Seq<T>,
    pub cells: Seq<CellSpec<F>>,
}

impl<T, F: ComputeFn<T>> CellGraph<T, F> {
    /// A handle may serve as a dependency of the compute cell at index `c`
    /// when it resolves to an existing input cell or to a compute cell
    /// created strictly earlier.  Dependencies must exist at creation time,
    /// so every dependency edge points to a smaller compute index and the
    /// graph is acyclic by construction.
    pub open spec fn dep_ok(self, id: CellID, c: int) -> bool {
        match id {
            CellID::Input(i) => i.0 < self.inputs.len(),
            CellID::Compute(d) => (d.0 as int) < c,
        }
    }

    pub open spec fn cell_wf(self, c: int) -> bool {
        forall|k: int|
            0 <= k < self.cells[c].deps.len() ==> self.dep_ok(#[trigger] self.cells[c].deps[k], c)
    }

    pub open spec fn wf(self) -> bool {
        forall|c: int| 0 <= c < self.cells.len() ==> #[trigger] self.cell_wf(c)
    }

    /// Does a handle address an existing cell of this graph?
    pub open spec fn valid(self, id: CellID) -> bool {
        match id {
            CellID::Input(i) => i.0 < self.inputs.len(),
            CellID::Compute(d) => d.0 < self.cells.len(),
        }
    }

    /// The values of a dependency list, in dependency order, as read by the
    /// compute cell at index `c`: an input dependency denotes the current
    /// input value, and a compute dependency denotes that cell's own value.
    /// Recursion is well founded because dependencies have indices below `c`.
    pub open spec fn dep_values(self, deps: Seq<CellID>, c: int) -> Seq<T>
        decreases c, 0int, deps.len(),
    {
        if deps.len() == 0 {
            Seq::empty()
        } else {
            self.dep_values(deps.drop_last(), c).push(
                match deps.last() {
                    CellID::Input(i) => self.inputs[i.0 as int],
                    CellID::Compute(d) => if (d.0 as int) < c {
                        self.compute_value(d.0 as int)
                    } else {
                        vstd::pervasive::arbitrary()
                    },
                },
            )
        }
    }

    /// The value of the compute cell at index `c`: its function applied to
    /// the current values of its dependencies, in order.
    pub open spec fn compute_value(self, c: int) -> T
        decreases c, 1int, 0int,
    {
        self.cells[c].func.spec_call(self.dep_values(self.cells[c].deps, c))
    }

    /// The value denoted by any cell handle.
    pub open spec fn cell_value(self, id: CellID) -> T {
        match id {
            CellID::Input(i) => self.inputs[i.0 as int],
            CellID::Compute(d) => self.compute_value(d.0 as int),
        }
    }

    /// `g2` agrees with `self` except that it may have extra input cells,
    /// extra compute cells, and different values for the input indices in
    /// `dirty_inputs`.
    pub open spec fn extends_except(self, g2: Self, dirty_inputs: Set<int>) -> bool {
        &&& self.inputs.len() <= g2.inputs.len()
        &&& forall|i: int|
            0 <= i < self.inputs.len() && !dirty_inputs.contains(i) ==> g2.inputs[i]
                == self.inputs[i]
        &&& self.cells.len() <= g2.cells.len()
        &&& forall|d: int| 0 <= d < self.cells.len() ==> g2.cells[d] == self.cells[d]
    }

    /// `dirty_cells` absorbs everything downstream of the dirty inputs: any
    /// compute cell with a dependency on a dirty input, or on a compute cell
    /// already in `dirty_cells`, is itself in `dirty_cells`.
    pub open spec fn closed_under_deps(self, dirty_inputs: Set<int>, dirty_cells: Set<int>) -> bool {
        forall|d: int, k: int|
            0 <= d < self.cells.len() && 0 <= k < self.cells[d].deps.len() ==> (match (
            #[trigger] self.cells[d].deps[k]) {
                CellID::Input(i) => dirty_inputs.contains(i.0 as int) ==> dirty_cells.contains(d),
                CellID::Compute(e) => dirty_cells.contains(e.0 as int) ==> dirty_cells.contains(d),
            })
    }

    /// A compute cell outside the closed dirty set keeps its value when the
    /// graph changes only at dirty inputs or by growing: no cell it
    /// transitively reads has changed.
    pub proof fn lemma_cell_stable(
        g1: Self,
        g2: Self,
        dirty_inputs: Set<int>,
        dirty_cells: Set<int>,
        c: int,
    )
        requires
            g1.wf(),
            g1.extends_except(g2, dirty_inputs),
            g1.closed_under_deps(dirty_inputs, dirty_cells),
            0 <= c < g1.cells.len(),
            !dirty_cells.contains(c),
        ensures
            g2.compute_value(c) == g1.compute_value(c),
        decreases c, 1int, 0int,
    {
        let deps = g1.cells[c].deps;
        assert(g1.cell_wf(c));
        assert forall|k: int| 0 <= k < deps.len() implies (match (#[trigger] deps[k]) {
            CellID::Input(i) => !dirty_inputs.contains(i.0 as int),
            CellID::Compute(d) => !dirty_cells.contains(d.0 as int),
        }) by {
            match deps[k] {
                CellID::Input(i) => {
                    if dirty_inputs.contains(i.0 as int) {
                        assert(dirty_cells.contains(c));
                    }
                },
                CellID::Compute(d) => {
                    if dirty_cells.contains(d.0 as int) {
                        assert(dirty_cells.contains(c));
                    }
                },
            }
        }
        Self::lemma_deps_stable(g1, g2, dirty_inputs, dirty_cells, deps, c);
        assert(g2.cells[c] == g1.cells[c]);
    }

    /// Companion to `lemma_cell_stable`: a dependency list that touches no
    /// dirty input and no dirty compute cell denotes the same values in both
    /// graphs.
    pub proof fn lemma_deps_stable(
        g1: Self,
        g2: Self,
        dirty_inputs: Set<int>,
        dirty_cells: Set<int>,
        deps: Seq<CellID>,
        c: int,
    )
        requires
            g1.wf(),
            g1.extends_except(g2, dirty_inputs),
            g1.closed_under_deps(dirty_inputs, dirty_cells),
            0 <= c <= g1.cells.len(),
            forall|k: int| 0 <= k < deps.len() ==> g1.dep_ok(#[trigger] deps[k], c),
            forall|k: int|
                0 <= k < deps.len() ==> (match (#[trigger] deps[k]) {
                    CellID::Input(i) => !dirty_inputs.contains(i.0 as int),
                    CellID::Compute(d) => !dirty_cells.contains(d.0 as int),
                }),
        ensures
            g2.dep_values(deps, c) == g1.dep_values(deps, c),
        decreases c, 0int, deps.len(),
    {
        if deps.len() > 0 {
            Self::lemma_deps_stable(g1, g2, dirty_inputs, dirty_cells, deps.drop_last(), c);
            match deps.last() {
                CellID::Input(i) => {
                    assert(g2.inputs[i.0 as int] == g1.inputs[i.0 as int]);
                },
                CellID::Compute(d) => {
                    Self::lemma_cell_stable(g1, g2, dirty_inputs, dirty_cells, d.0 as int);
                },
            }
        }
    }

    pub proof fn lemma_dep_values_len(self, deps: Seq<CellID>, c: int)
        ensures
            self.dep_values(deps, c).len() == deps.len(),
        decreases deps.len(),
    {
        if deps.len() > 0 {
            self.lemma_dep_values_len(deps.drop_last(), c);
        }
    }

    /// When every handle in a dependency list is admissible at bound `c`,
    /// the list's dependency values are exactly the values the handles
    /// denote, in order.
    pub proof fn lemma_dep_values_are_cell_values(self, deps: Seq<CellID>, c: int)
        requires
            forall|k: int| 0 <= k < deps.len() ==> self.dep_ok(#[trigger] deps[k], c),
        ensures
            self.dep_values(deps, c) == Seq::new(deps.len(), |k: int| self.cell_value(deps[k])),
        decreases deps.len(),
    {
        let target = Seq::new(deps.len(), |k: int| self.cell_value(deps[k]));
        self.lemma_dep_values_len(deps, c);
        if deps.len() == 0 {
            assert(self.dep_values(deps, c) =~= target);
        } else {
            let shorter = deps.drop_last();
            self.lemma_dep_values_are_cell_values(shorter, c);
            let prev = Seq::new(shorter.len(), |k: int| self.cell_value(shorter[k]));
            assert forall|q: int| 0 <= q < deps.len() implies self.dep_values(deps, c)[q]
                == target[q] by {
                if q < deps.len() - 1 {
                    assert(self.dep_values(deps, c)[q] == prev[q]);
                    assert(shorter[q] == deps[q]);
                } else {
                    assert(self.dep_ok(deps.last(), c));
                }
            }
            assert(self.dep_values(deps, c) =~= target);
        }
    }
}

} // verus!
