use crate::cells::ComputeFn;
use vstd::prelude::*;

verus! {

/// Wrapping sum of a sequence of `i64` values, left to right.
pub open spec fn wrap_sum(args: Seq<i64>) -> i64
    decreases args.len(),
{
    if args.len() == 0 {
        0
    } else {
        vstd::wrapping::i64_specs::wrapping_add(wrap_sum(args.drop_last()), args.last())
    }
}

/// The library's stock compute functions over `i64` cell values: enough to
/// wire identities, offsets and fan-in sums.  All arithmetic wraps on
/// overflow, so every function is total and never panics.
pub enum ArithFn {
    /// Ignore the arguments and produce a constant.
    Constant(i64),
    /// The first argument plus a constant, wrapping; the constant alone when
    /// there is no argument.  `AddConst(0)` is the identity on its first
    /// dependency.
    AddConst(i64),
    /// The wrapping sum of all arguments.
    Sum,
}

impl ComputeFn<i64> for ArithFn {
    open spec fn spec_call(&self, args: Seq<i64>) -> i64 {
        match self {
            ArithFn::Constant(k) => *k,
            ArithFn::AddConst(k) => if args.len() > 0 {
                vstd::wrapping::i64_specs::wrapping_add(args[0], *k)
            } else {
                *k
            },
            ArithFn::Sum => wrap_sum(args),
        }
    }

    fn call(&self, args: &Vec<i64>) -> (r: i64) {
        match self {
            ArithFn::Constant(k) => *k,
            ArithFn::AddConst(k) => {
                if args.len() > 0 {
                    args[0].wrapping_add(*k)
                } else {
                    *k
                }
            },
            ArithFn::Sum => {
                let mut acc: i64 = 0;
                let mut q: usize = 0;
                while q < args.len()
                    invariant
                        q <= args@.len(),
                        acc == wrap_sum(args@.take(q as int)),
                    decreases args@.len() - q,
                {
                    acc = acc.wrapping_add(args[q]);
                    proof {
                        assert(args@.take(q + 1 as int).drop_last() =~= args@.take(q as int));
                        assert(args@.take(q + 1 as int).last() == args@[q as int]);
                    }
                    q += 1;
                }
                proof {
                    assert(args@.take(args@.len() as int) =~= args@);
                }
                acc
            },
        }
    }
}

} // verus!
