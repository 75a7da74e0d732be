//! Small helpers shared by the library.

use vstd::prelude::*;

verus! {

/// Integers that can say whether they are below zero; the return values of
/// system calls signal failure that way.
pub trait IsNegative {
    spec fn spec_is_negative(&self) -> bool;

    fn is_negative(&self) -> (r: bool)
        ensures
            r == self.spec_is_negative(),
    ;
}

impl IsNegative for i32 {
    open spec fn spec_is_negative(&self) -> bool {
        *self < 0
    }

    fn is_negative(&self) -> (r: bool) {
        *self < 0
    }
}

impl IsNegative for i64 {
    open spec fn spec_is_negative(&self) -> bool {
        *self < 0
    }

    fn is_negative(&self) -> (r: bool) {
        *self < 0
    }
}

impl IsNegative for isize {
    open spec fn spec_is_negative(&self) -> bool {
        *self < 0
    }

    fn is_negative(&self) -> (r: bool) {
        *self < 0
    }
}

} // verus!

verus! {

/// The part of `xs` that begins with the first element on which `pred`
/// holds; empty if `pred` holds on none. `pred` is asked about the elements
/// in order, up to the first on which it holds.
pub fn skip_slice_until<T, F>(xs: &[T], pred: F) -> (r: &[T])
    where F: FnMut(&T) -> bool,
    requires
        forall|x: &T| call_requires(pred, (x,)),
    ensures
        r@.len() <= xs@.len(),
        r@ == xs@.subrange(xs@.len() - r@.len(), xs@.len() as int),
        forall|j: int| 0 <= j < xs@.len() - r@.len() ==> call_ensures(pred, (&xs@[j],), false),
        r@.len() > 0 ==> call_ensures(pred, (&xs@[xs@.len() - r@.len()],), true),
{
    let ghost original = pred;
    let mut check = pred;
    let mut i: usize = 0;
    while i < xs.len()
        invariant
            i <= xs@.len(),
            check == original,
            original == pred,
            forall|x: &T| call_requires(check, (x,)),
            forall|j: int| 0 <= j < i ==> call_ensures(original, (&xs@[j],), false),
        decreases xs@.len() - i,
    {
        if check(&xs[i]) {
            return vstd::slice::slice_subrange(xs, i, xs.len());
        }
        i = i + 1;
    }
    vstd::slice::slice_subrange(xs, xs.len(), xs.len())
}

/// `Cell::take`: takes the value out of the cell, leaving the default value
/// in it. Nothing is stated of the value: what a shared cell holds is not
/// tracked.
#[verifier::external_body]
fn cell_take<T: Default>(cell: &std::cell::Cell<T>) -> T {
    cell.take()
}

/// `Cell::set`: puts `value` into the cell. Nothing is stated: what a shared
/// cell holds is not tracked.
#[verifier::external_body]
fn cell_set<T>(cell: &std::cell::Cell<T>, value: T) {
    cell.set(value)
}

/// Changes the value in `cell` by `f`: the value is taken out, handed to
/// `f`, and put back.
pub fn mutate_cell<T: Default, F: FnOnce(&mut T)>(cell: &std::cell::Cell<T>, f: F)
    requires
        forall|x: &mut T| call_requires(f, (x,)),
{
    let mut x = cell_take(cell);
    f(&mut x);
    cell_set(cell, x);
}

} // verus!
