//! The radix sorter that groups buffered updates by key hash before they are
//! consolidated. The sorter itself is an outside collaborator; these wrappers
//! state what its operations do to the multiset of updates it holds.
use vstd::prelude::*;
use vstd::multiset::Multiset;

use timely_sort::{LSBRadixSorter, RadixSorter, RadixSorterBase};

use crate::update::Update;

verus! {

#[verifier::external_type_specification]
#[verifier::external_body]
#[verifier::reject_recursive_types(T)]
pub struct ExSorter<T>(LSBRadixSorter<T>);

/// The multiset of updates pushed into the sorter and not yet drained.
pub uninterp spec fn sorter_contents(s: LSBRadixSorter<Update>) -> Multiset<Update>;

/// The concatenation of a sequence of buffers, in order.
pub open spec fn blocks(bs: Seq<Vec<Update>>) -> Seq<Update>
    decreases bs.len(),
{
    if bs.len() == 0 {
        Seq::<Update>::empty()
    } else {
        blocks(bs.drop_last()) + bs.last()@
    }
}

/// Relies on timely_sort's LSBRadixSorter::new: a fresh sorter holds nothing.
#[verifier::external_body]
pub fn sorter_new() -> (s: LSBRadixSorter<Update>)
    ensures
        sorter_contents(s) == Multiset::<Update>::empty(),
{
    LSBRadixSorter::new()
}

/// Relies on LSBRadixSorter::push: the element joins what the sorter holds;
/// the radix key handed over is the update's key hash.
#[verifier::external_body]
pub fn sorter_push(s: &mut LSBRadixSorter<Update>, u: Update)
    ensures
        sorter_contents(*final(s)) == sorter_contents(*old(s)).insert(u),
{
    s.push(u, &|x: &Update| x.key.hash);
}

/// Relies on LSBRadixSorter::finish: it hands back exactly the updates it
/// held, as blocks whose concatenation is ordered by key hash, and is empty
/// afterwards.
#[verifier::external_body]
pub fn sorter_finish(s: &mut LSBRadixSorter<Update>) -> (r: Vec<Vec<Update>>)
    ensures
        blocks(r@).to_multiset() == sorter_contents(*old(s)),
        forall|i: int, j: int|
            0 <= i <= j < blocks(r@).len() ==> blocks(r@)[i].key.hash <= blocks(
                r@,
            )[j].key.hash,
        sorter_contents(*final(s)) == Multiset::<Update>::empty(),
{
    s.finish(&|x: &Update| x.key.hash)
}

/// Relies on LSBRadixSorter::sort: the given buffers come back holding the
/// same updates, their concatenation ordered by key hash; the sorter keeps
/// nothing. Every buffer handed over must hold at least one element: the
/// sorter recycles the drained buffers through its stash assuming they have
/// capacity, and a buffer that has held an element necessarily does.
#[verifier::external_body]
pub fn sorter_sort(s: &mut LSBRadixSorter<Update>, bufs: &mut Vec<Vec<Update>>)
    requires
        sorter_contents(*old(s)) == Multiset::<Update>::empty(),
        forall|i: int| 0 <= i < old(bufs)@.len() ==> (#[trigger] old(bufs)@[i])@.len() > 0,
    ensures
        blocks(final(bufs)@).to_multiset() == blocks(old(bufs)@).to_multiset(),
        forall|i: int, j: int|
            0 <= i <= j < blocks(final(bufs)@).len() ==> blocks(final(bufs)@)[i].key.hash
                <= blocks(final(bufs)@)[j].key.hash,
        sorter_contents(*final(s)) == Multiset::<Update>::empty(),
{
    s.sort(bufs, &|x: &Update| x.key.hash);
}

} // verus!
