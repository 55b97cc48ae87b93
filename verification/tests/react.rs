use react::{
    ArithFn, CallbackID, CellID, ComputeCell, ComputeCellID, InputCell, InputCellID, Reactor,
    Recorder, RemoveCallbackError,
};

fn new_reactor() -> Reactor<i64, ArithFn, Recorder<i64>> {
    Reactor::new()
}

#[test]
fn input_cells_hold_their_value() {
    let mut r = new_reactor();
    let a = r.create_input(10);
    assert_eq!(r.value(CellID::Input(a)), Some(10));
}

#[test]
fn input_cell_struct_starts_with_no_clients() {
    let cell: InputCell<i64> = InputCell::new(5);
    assert_eq!(cell.value, 5);
    assert!(cell.clients.is_empty());
}

#[test]
fn value_of_missing_cells_is_none() {
    let mut r = new_reactor();
    let _ = r.create_input(1);
    assert_eq!(r.value(CellID::Input(InputCellID(1))), None);
    assert_eq!(r.value(CellID::Compute(ComputeCellID(0))), None);
}

#[test]
fn set_value_on_missing_input_returns_false() {
    let mut r = new_reactor();
    assert!(!r.set_value(InputCellID(0), 3));
    let a = r.create_input(1);
    assert!(r.set_value(a, 2));
    assert!(!r.set_value(InputCellID(7), 2));
}

#[test]
fn compute_cells_compute_their_function() {
    let mut r = new_reactor();
    let a = r.create_input(1);
    let b = r
        .create_compute(&vec![CellID::Input(a)], ArithFn::AddConst(1))
        .unwrap();
    assert_eq!(r.value(CellID::Compute(b)), Some(2));
}

#[test]
fn compute_cells_update_when_an_input_changes() {
    let mut r = new_reactor();
    let a = r.create_input(1);
    let b = r
        .create_compute(&vec![CellID::Input(a)], ArithFn::AddConst(1))
        .unwrap();
    assert!(r.set_value(a, 3));
    assert_eq!(r.value(CellID::Compute(b)), Some(4));
}

#[test]
fn compute_cells_can_depend_on_compute_cells() {
    let mut r = new_reactor();
    let a = r.create_input(1);
    let b = r
        .create_compute(&vec![CellID::Input(a)], ArithFn::AddConst(1))
        .unwrap();
    let c = r
        .create_compute(&vec![CellID::Compute(b)], ArithFn::AddConst(10))
        .unwrap();
    assert_eq!(r.value(CellID::Compute(c)), Some(12));
    assert!(r.set_value(a, 5));
    assert_eq!(r.value(CellID::Compute(c)), Some(16));
}

#[test]
fn create_compute_rejects_the_first_missing_dependency() {
    let mut r = new_reactor();
    let a = r.create_input(1);
    let bad = CellID::Compute(ComputeCellID(5));
    let worse = CellID::Input(InputCellID(9));
    assert_eq!(
        r.create_compute(&vec![CellID::Input(a), bad, worse], ArithFn::Sum),
        Err(bad)
    );
    // The failed call registered nothing: the next compute cell gets the
    // first compute index and works.
    let b = r
        .create_compute(&vec![CellID::Input(a)], ArithFn::AddConst(0))
        .unwrap();
    assert_eq!(b, ComputeCellID(0));
    assert_eq!(r.value(CellID::Compute(b)), Some(1));
}

#[test]
fn constant_cells_take_no_arguments() {
    let mut r = new_reactor();
    let c = r.create_compute(&vec![], ArithFn::Constant(7)).unwrap();
    assert_eq!(r.value(CellID::Compute(c)), Some(7));
}

#[test]
fn addition_wraps_on_overflow() {
    let mut r = new_reactor();
    let a = r.create_input(i64::MAX);
    let b = r
        .create_compute(&vec![CellID::Input(a)], ArithFn::AddConst(1))
        .unwrap();
    assert_eq!(r.value(CellID::Compute(b)), Some(i64::MIN));
}

#[test]
fn compute_cell_call_reads_current_values() {
    let mut r = new_reactor();
    let a = r.create_input(4);
    let cell: ComputeCell<i64, ArithFn, Recorder<i64>> =
        ComputeCell::new(ArithFn::AddConst(2), &vec![CellID::Input(a)]);
    assert_eq!(cell.call(&r), 6);
}

#[test]
fn callback_fires_with_the_settled_value() {
    let mut r = new_reactor();
    let a = r.create_input(1);
    let b = r
        .create_compute(&vec![CellID::Input(a)], ArithFn::AddConst(1))
        .unwrap();
    let cb = r.add_callback(b, Recorder::new()).unwrap();
    assert!(r.set_value(a, 3));
    let rec = r.get_callback(b, cb).unwrap();
    assert_eq!(rec.values, vec![4]);
}

#[test]
fn noop_write_returns_true_and_fires_nothing() {
    let mut r = new_reactor();
    let a = r.create_input(1);
    let b = r
        .create_compute(&vec![CellID::Input(a)], ArithFn::AddConst(1))
        .unwrap();
    let cb = r.add_callback(b, Recorder::new()).unwrap();
    assert!(r.set_value(a, 1));
    let rec = r.get_callback(b, cb).unwrap();
    assert!(rec.values.is_empty());
}

#[test]
fn identity_records_each_net_change_exactly_once() {
    let mut r = new_reactor();
    let a = r.create_input(1);
    let b = r
        .create_compute(&vec![CellID::Input(a)], ArithFn::AddConst(0))
        .unwrap();
    let cb = r.add_callback(b, Recorder::new()).unwrap();
    assert!(r.set_value(a, 1));
    assert!(r.get_callback(b, cb).unwrap().values.is_empty());
    assert!(r.set_value(a, 2));
    assert_eq!(r.get_callback(b, cb).unwrap().values, vec![2]);
    assert!(r.set_value(a, 2));
    assert_eq!(r.get_callback(b, cb).unwrap().values, vec![2]);
}

#[test]
fn diamond_fires_once_with_the_settled_value() {
    let mut r = new_reactor();
    let a = r.create_input(1);
    let b = r
        .create_compute(&vec![CellID::Input(a)], ArithFn::AddConst(1))
        .unwrap();
    let c = r
        .create_compute(&vec![CellID::Input(a)], ArithFn::AddConst(10))
        .unwrap();
    let d = r
        .create_compute(&vec![CellID::Compute(b), CellID::Compute(c)], ArithFn::Sum)
        .unwrap();
    assert_eq!(r.value(CellID::Compute(d)), Some(13));
    let cb = r.add_callback(d, Recorder::new()).unwrap();
    assert!(r.set_value(a, 5));
    assert_eq!(r.value(CellID::Compute(d)), Some(21));
    let rec = r.get_callback(d, cb).unwrap();
    assert_eq!(rec.values, vec![21]);
}

#[test]
fn dependent_cell_whose_value_does_not_change_fires_nothing() {
    let mut r = new_reactor();
    let a = r.create_input(1);
    let c = r
        .create_compute(&vec![CellID::Input(a)], ArithFn::Constant(5))
        .unwrap();
    let cb = r.add_callback(c, Recorder::new()).unwrap();
    assert!(r.set_value(a, 42));
    let rec = r.get_callback(c, cb).unwrap();
    assert!(rec.values.is_empty());
}

#[test]
fn add_callback_on_missing_cell_is_none() {
    let mut r = new_reactor();
    assert!(r.add_callback(ComputeCellID(0), Recorder::new()).is_none());
}

#[test]
fn remove_callback_distinguishes_its_errors() {
    let mut r = new_reactor();
    let a = r.create_input(1);
    let b = r
        .create_compute(&vec![CellID::Input(a)], ArithFn::AddConst(1))
        .unwrap();
    let cb = r.add_callback(b, Recorder::new()).unwrap();
    assert_eq!(r.remove_callback(b, cb), Ok(()));
    // A just-removed handle is gone.
    assert_eq!(
        r.remove_callback(b, cb),
        Err(RemoveCallbackError::NonexistentCallback)
    );
    // A handle never given out for this cell.
    assert_eq!(
        r.remove_callback(b, CallbackID(99)),
        Err(RemoveCallbackError::NonexistentCallback)
    );
    // A missing cell wins over any callback handle, valid or not.
    assert_eq!(
        r.remove_callback(ComputeCellID(8), cb),
        Err(RemoveCallbackError::NonexistentCell)
    );
    assert_eq!(
        r.remove_callback(ComputeCellID(8), CallbackID(99)),
        Err(RemoveCallbackError::NonexistentCell)
    );
}

#[test]
fn removed_callbacks_never_fire_and_ids_are_not_reused() {
    let mut r = new_reactor();
    let a = r.create_input(1);
    let b = r
        .create_compute(&vec![CellID::Input(a)], ArithFn::AddConst(1))
        .unwrap();
    let cb1 = r.add_callback(b, Recorder::new()).unwrap();
    assert_eq!(r.remove_callback(b, cb1), Ok(()));
    let cb2 = r.add_callback(b, Recorder::new()).unwrap();
    assert_ne!(cb1, cb2);
    assert!(r.set_value(a, 9));
    assert!(r.get_callback(b, cb1).is_none());
    assert_eq!(r.get_callback(b, cb2).unwrap().values, vec![10]);
}

#[test]
fn several_callbacks_on_one_cell_all_fire() {
    let mut r = new_reactor();
    let a = r.create_input(1);
    let b = r
        .create_compute(&vec![CellID::Input(a)], ArithFn::AddConst(1))
        .unwrap();
    let cb1 = r.add_callback(b, Recorder::new()).unwrap();
    let cb2 = r.add_callback(b, Recorder::new()).unwrap();
    assert!(r.set_value(a, 2));
    assert_eq!(r.get_callback(b, cb1).unwrap().values, vec![3]);
    assert_eq!(r.get_callback(b, cb2).unwrap().values, vec![3]);
}

#[test]
fn a_cell_may_depend_on_the_same_cell_twice() {
    let mut r = new_reactor();
    let a = r.create_input(3);
    let d = r
        .create_compute(&vec![CellID::Input(a), CellID::Input(a)], ArithFn::Sum)
        .unwrap();
    assert_eq!(r.value(CellID::Compute(d)), Some(6));
    let cb = r.add_callback(d, Recorder::new()).unwrap();
    assert!(r.set_value(a, 10));
    assert_eq!(r.value(CellID::Compute(d)), Some(20));
    assert_eq!(r.get_callback(d, cb).unwrap().values, vec![20]);
}

#[test]
fn unrelated_cells_are_left_alone() {
    let mut r = new_reactor();
    let a = r.create_input(1);
    let b = r.create_input(100);
    let ca = r
        .create_compute(&vec![CellID::Input(a)], ArithFn::AddConst(0))
        .unwrap();
    let cb_cell = r
        .create_compute(&vec![CellID::Input(b)], ArithFn::AddConst(0))
        .unwrap();
    let rec_a = r.add_callback(ca, Recorder::new()).unwrap();
    let rec_b = r.add_callback(cb_cell, Recorder::new()).unwrap();
    assert!(r.set_value(a, 2));
    assert_eq!(r.get_callback(ca, rec_a).unwrap().values, vec![2]);
    assert!(r.get_callback(cb_cell, rec_b).unwrap().values.is_empty());
    assert_eq!(r.value(CellID::Input(b)), Some(100));
    assert_eq!(r.value(CellID::Compute(cb_cell)), Some(100));
}

#[test]
fn sums_handle_negative_values() {
    let mut r = new_reactor();
    let a = r.create_input(-7);
    let b = r.create_input(5);
    let s = r
        .create_compute(&vec![CellID::Input(a), CellID::Input(b)], ArithFn::Sum)
        .unwrap();
    assert_eq!(r.value(CellID::Compute(s)), Some(-2));
    assert!(r.set_value(b, -3));
    assert_eq!(r.value(CellID::Compute(s)), Some(-10));
}

#[test]
fn chained_changes_reach_the_end_of_a_long_line() {
    let mut r = new_reactor();
    let a = r.create_input(0);
    let mut last = r
        .create_compute(&vec![CellID::Input(a)], ArithFn::AddConst(1))
        .unwrap();
    for _ in 0..9 {
        last = r
            .create_compute(&vec![CellID::Compute(last)], ArithFn::AddConst(1))
            .unwrap();
    }
    assert_eq!(r.value(CellID::Compute(last)), Some(10));
    let cb = r.add_callback(last, Recorder::new()).unwrap();
    assert!(r.set_value(a, 100));
    assert_eq!(r.value(CellID::Compute(last)), Some(110));
    assert_eq!(r.get_callback(last, cb).unwrap().values, vec![110]);
}
