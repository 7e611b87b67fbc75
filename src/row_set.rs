use vstd::prelude::*;

use indexmap::IndexSet;

use crate::indexes::{view_rows, IndexValue};

verus! {

#[verifier::external_type_specification]
#[verifier::external_body]
#[verifier::reject_recursive_types(T)]
#[verifier::reject_recursive_types(S)]
pub struct ExIndexSet<T, S>(IndexSet<T, S>);

/// The rows held by an insertion-ordered set of rows, in insertion order.
pub uninterp spec fn row_set_items(s: IndexSet<Vec<IndexValue>>) -> Seq<Seq<IndexValue>>;

/// Relies on `IndexSet::new`: a new set holds nothing.
#[verifier::external_body]
pub(crate) fn row_set_new() -> (r: IndexSet<Vec<IndexValue>>)
    ensures
        row_set_items(r) == Seq::<Seq<IndexValue>>::empty(),
{
    IndexSet::new()
}

/// Relies on `IndexSet::insert_full`: a row equal to one already in the set
/// leaves the set as it is and gives the index of that row; another row is
/// appended and gives its new index.
#[verifier::external_body]
pub(crate) fn row_set_insert(set: &mut IndexSet<Vec<IndexValue>>, row: Vec<IndexValue>) -> (r:
    usize)
    ensures
        row_set_items(*old(set)).contains(row@) ==> r < row_set_items(*old(set)).len()
            && row_set_items(*old(set))[r as int] == row@ && row_set_items(*final(set))
            == row_set_items(*old(set)),
        !row_set_items(*old(set)).contains(row@) ==> r == row_set_items(*old(set)).len()
            && row_set_items(*final(set)) == row_set_items(*old(set)).push(row@),
{
    set.insert_full(row).0
}

/// Relies on `IndexSet::into_iter`: the rows come out in insertion order.
#[verifier::external_body]
pub(crate) fn row_set_into_vec(set: IndexSet<Vec<IndexValue>>) -> (r: Vec<Vec<IndexValue>>)
    ensures
        view_rows(r@) == row_set_items(set),
{
    set.into_iter().collect()
}

} // verus!
