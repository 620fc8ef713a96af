//! The list of values bound to the fields of one instruction, kept in a
//! small vector that stays off the heap for the usual handful of arguments.

use smallvec::SmallVec;
use vstd::prelude::*;

verus! {

/// A list of field values, held in a `smallvec::SmallVec<[u64; 4]>`. The
/// verifier does not look inside: what the list holds is known through
/// [`argv_items`] and the three functions below alone.
#[verifier::external_body]
pub struct ArgValues {
    items: SmallVec<[u64; 4]>,
}

/// The values that the list holds, in the order in which they were pushed.
pub uninterp spec fn argv_items(values: ArgValues) -> Seq<u64>;

/// The largest number of values that [`argv_push`] is asked to store: far
/// below the length at which a small vector can no longer grow.
pub const ARGV_LIMIT: usize = 0x0800_0000;

/// `SmallVec::new`: an empty list.
#[verifier::external_body]
pub(crate) fn argv_new() -> (values: ArgValues)
    ensures
        argv_items(values) == Seq::<u64>::empty(),
{
    ArgValues { items: SmallVec::new() }
}

/// `SmallVec::push`: appends `value`. The vector panics when its capacity
/// overflows, which a list shorter than [`ARGV_LIMIT`] cannot cause.
#[verifier::external_body]
pub(crate) fn argv_push(values: &mut ArgValues, value: u64)
    requires
        argv_items(*old(values)).len() < ARGV_LIMIT,
    ensures
        argv_items(*final(values)) == argv_items(*old(values)).push(value),
{
    values.items.push(value)
}

/// `SmallVec::as_slice`: the values as a slice, in order.
#[verifier::external_body]
pub(crate) fn argv_as_slice(values: &ArgValues) -> (slice: &[u64])
    ensures
        slice@ == argv_items(*values),
{
    values.items.as_slice()
}

} // verus!
