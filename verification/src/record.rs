use crate::cells::Callback;
use vstd::prelude::*;

verus! {

/// The library's stock callback: it records every value it is notified
/// with, in delivery order.  Register one on a compute cell and read back,
/// through `Reactor::get_callback`, exactly which settled values the cell
/// announced.
pub struct Recorder<T> {
    pub values: Vec<T>,
}

impl<T> Recorder<T> {
    pub fn new() -> (r: Self)
        ensures
            r.values@ == Seq::<T>::empty(),
    {
        Recorder { values: Vec::new() }
    }
}

impl<T> Callback<T> for Recorder<T> {
    open spec fn seen(&self) -> Seq<T> {
        self.values@
    }

    fn on_change(&mut self, value: T) {
        self.values.push(value);
    }
}

} // verus!
