use vstd::prelude::*;

use smallvec::SmallVec;

verus! {

/// A short list of indices, stored inline while it holds one: a
/// `SmallVec<[usize; 1]>`, which Verus sees only through the functions below.
#[verifier::external_body]
pub struct IndexList {
    items: SmallVec<[usize; 1]>,
}

/// The indices that an `IndexList` holds, in order.
pub uninterp spec fn index_items(v: IndexList) -> Seq<usize>;

/// Relies on `SmallVec::new`: a new vector is empty.
#[verifier::external_body]
pub(crate) fn index_list_new() -> (r: IndexList)
    ensures
        index_items(r) == Seq::<usize>::empty(),
{
    IndexList { items: SmallVec::new() }
}

/// Relies on `SmallVec::push`: the value is appended after the existing items.
#[verifier::external_body]
pub(crate) fn index_list_push(v: &mut IndexList, value: usize)
    requires
        index_items(*old(v)).len() < usize::MAX,
    ensures
        index_items(*final(v)) == index_items(*old(v)).push(value),
{
    v.items.push(value)
}

/// Relies on `SmallVec::len`: the number of items.
#[verifier::external_body]
pub(crate) fn index_list_len(v: &IndexList) -> (r: usize)
    ensures
        r == index_items(*v).len(),
{
    v.items.len()
}

/// Relies on indexing a `SmallVec` (through its slice): the item at `i`.
#[verifier::external_body]
pub(crate) fn index_list_get(v: &IndexList, i: usize) -> (r: usize)
    requires
        i < index_items(*v).len(),
    ensures
        r == index_items(*v)[i as int],
{
    v.items[i]
}

} // verus!
