use vstd::prelude::*;

verus! {

/// `InputCellID` is a unique identifier for an input cell, wrapping a dense
/// index into the reactor's input-cell storage.
#[derive(Clone, Copy, Debug, PartialEq, Eq, Hash, Structural)]
pub struct InputCellID(pub usize);

/// `ComputeCellID` is a unique identifier for a compute cell, wrapping a dense
/// index into the reactor's compute-cell storage.  Values of type
/// `InputCellID` and `ComputeCellID` are deliberately not mutually assignable:
/// an identifier minted for one kind of cell can never address storage of the
/// other kind.
#[derive(Clone, Copy, Debug, PartialEq, Eq, Hash, Structural)]
pub struct ComputeCellID(pub usize);

/// Identifies a callback within the compute cell it was registered on.
/// Identifiers are allocated monotonically and never reused, so a removed
/// callback's identifier stays dead for the reactor's whole lifetime.
#[derive(Clone, Copy, Debug, PartialEq, Eq, Hash, Structural)]
pub struct CallbackID(pub usize);

/// A handle to either kind of cell, used wherever a dependency may be an
/// input cell or another compute cell.
#[derive(Clone, Copy, Debug, PartialEq, Eq, Hash, Structural)]
pub enum CellID {
    Input(InputCellID),
    Compute(ComputeCellID),
}

/// Why `Reactor::remove_callback` failed: either the compute cell itself does
/// not exist, or the cell exists but no callback with the given identifier is
/// currently registered on it.
#[derive(Clone, Copy, Debug, PartialEq, Eq, Structural)]
pub enum RemoveCallbackError {
    NonexistentCell,
    NonexistentCallback,
}

} // verus!
