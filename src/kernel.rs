use vstd::prelude::*;

use crate::densify::as_opt_int;
use crate::descriptor::{index_origins, reduced_names, reduced_rows, reduction_fails, Descriptor};
use crate::error::Error;
use crate::indexes::{first_index_of, IndexValue, Indexes};
use crate::reduce::{
    lemma_first_seen_distinct, lemma_kept_columns_all, remaining_columns, remove_from_samples,
    removes_every_column,
    removed_samples_spec, select, select_rows, variable_positions, view_names, DensifiedIndex,
    RemovedSamples,
};
use crate::row_set::{row_set_insert, row_set_items, row_set_new};

use indexmap::IndexSet;

verus! {

/// A row of a mapping where the block key is replaced by a numeric id.
#[derive(Clone, Copy, PartialEq, Eq, Structural)]
pub struct BlockEntry {
    /// Position of the reduced row.
    pub new_sample_i: usize,
    /// Position of the initial row.
    pub old_sample_i: usize,
    /// Id of the block key.
    pub block_id: usize,
}

/// One contribution to a kernel entry: the product of the left row
/// `old_lhs` with the right row `old_rhs` goes to the column `new_rhs`.
#[derive(Clone, Copy, PartialEq, Eq, Structural)]
pub struct DotTerm {
    pub old_lhs: usize,
    pub old_rhs: usize,
    pub new_rhs: usize,
}

/// `t` contributes to the row `row`: its left row belongs to `row`, its right
/// row has the same block id, and it goes to the column of the right row.
pub open spec fn is_term(lhs: Seq<BlockEntry>, rhs: Seq<BlockEntry>, row: int, t: DotTerm) -> bool {
    &&& t.old_lhs < lhs.len()
    &&& t.old_rhs < rhs.len()
    &&& lhs[t.old_lhs as int].new_sample_i == row
    &&& lhs[t.old_lhs as int].block_id == rhs[t.old_rhs as int].block_id
    &&& t.new_rhs == rhs[t.old_rhs as int].new_sample_i
}

/// The entries of a mapping are listed in the order of their initial rows.
pub open spec fn indexed_by_old(m: Seq<BlockEntry>) -> bool {
    forall|i: int| 0 <= i < m.len() ==> (#[trigger] m[i]).old_sample_i == i
}

/// Each entry keeps the rows of its mapping entry, and its id is the position
/// of the mapping entry's block key in `keys`.
pub open spec fn ids_of_keys(
    entries: Seq<BlockEntry>,
    mapping: Seq<DensifiedIndex>,
    keys: Seq<Seq<IndexValue>>,
) -> bool {
    &&& entries.len() == mapping.len()
    &&& forall|i: int|
        0 <= i < entries.len() ==> {
            let e = #[trigger] entries[i];
            &&& e.new_sample_i == mapping[i].new_sample_i
            &&& e.old_sample_i == mapping[i].old_sample_i
            &&& e.block_id < keys.len()
            &&& keys[e.block_id as int] == mapping[i].variables@
        }
}

/// Give each block key of `mapping` a numeric id, shared through `ids` with
/// the other mappings given the same set: the first key seen gets 0, the
/// next new one 1, and so on.
pub(crate) fn assign_block_ids(ids: &mut IndexSet<Vec<IndexValue>>, mapping: &Vec<DensifiedIndex>) -> (r:
    Vec<BlockEntry>)
    requires
        row_set_items(*old(ids)).no_duplicates(),
    ensures
        row_set_items(*final(ids)).no_duplicates(),
        row_set_items(*old(ids)).is_prefix_of(row_set_items(*final(ids))),
        ids_of_keys(r@, mapping@, row_set_items(*final(ids))),
{
    let mut r: Vec<BlockEntry> = Vec::new();
    let mut i: usize = 0;
    while i < mapping.len()
        invariant
            i <= mapping.len(),
            row_set_items(*ids).no_duplicates(),
            row_set_items(*old(ids)).is_prefix_of(row_set_items(*ids)),
            r.len() == i,
            forall|j: int|
                0 <= j < i ==> {
                    let e = #[trigger] r@[j];
                    &&& e.new_sample_i == mapping@[j].new_sample_i
                    &&& e.old_sample_i == mapping@[j].old_sample_i
                    &&& e.block_id < row_set_items(*ids).len()
                    &&& row_set_items(*ids)[e.block_id as int] == mapping@[j].variables@
                },
        decreases mapping.len() - i,
    {
        let m = &mapping[i];
        let ghost before = row_set_items(*ids);
        let key = vstd::slice::slice_to_vec(m.variables.as_slice());
        let id = row_set_insert(ids, key);
        proof {
            let after = row_set_items(*ids);
            if !before.contains(m.variables@) {
                assert forall|a: int, b: int| 0 <= a < b < after.len() implies after[a] != after[b] by {
                    if b == before.len() {
                        assert(after[a] == before[a]);
                    }
                }
            }
            assert(before.is_prefix_of(after));
            assert(row_set_items(*old(ids)).is_prefix_of(after));
        }
        r.push(BlockEntry { new_sample_i: m.new_sample_i, old_sample_i: m.old_sample_i, block_id: id });
        i = i + 1;
    }
    r
}

/// For each of the `n_rows` output rows, the terms whose sum gives the row:
/// one for each left entry of that row and each right entry with the same
/// block id, in the order of the entries.
pub fn dot_terms(lhs: &Vec<BlockEntry>, rhs: &Vec<BlockEntry>, n_rows: usize) -> (r: Vec<Vec<DotTerm>>)
    requires
        indexed_by_old(lhs@),
        indexed_by_old(rhs@),
        forall|i: int| 0 <= i < lhs.len() ==> (#[trigger] lhs@[i]).new_sample_i < n_rows,
    ensures
        r.len() == n_rows,
        forall|row: int| 0 <= row < n_rows ==> (#[trigger] r@[row])@.no_duplicates(),
        forall|row: int, t: DotTerm|
            0 <= row < n_rows ==> (#[trigger] r@[row]@.contains(t) <==> is_term(
                lhs@,
                rhs@,
                row,
                t,
            )),
{
    let mut rows: Vec<Vec<DotTerm>> = Vec::new();
    let mut k: usize = 0;
    while k < n_rows
        invariant
            k <= n_rows,
            rows.len() == k,
            forall|row: int| 0 <= row < k ==> (#[trigger] rows@[row])@.len() == 0,
        decreases n_rows - k,
    {
        rows.push(Vec::new());
        k = k + 1;
    }
    let mut i: usize = 0;
    while i < lhs.len()
        invariant
            i <= lhs.len(),
            indexed_by_old(lhs@),
            indexed_by_old(rhs@),
            forall|x: int| 0 <= x < lhs.len() ==> (#[trigger] lhs@[x]).new_sample_i < n_rows,
            rows.len() == n_rows,
            forall|row: int| 0 <= row < n_rows ==> (#[trigger] rows@[row])@.no_duplicates(),
            forall|row: int, t: DotTerm|
                0 <= row < n_rows ==> (#[trigger] rows@[row]@.contains(t) <==> (is_term(
                    lhs@,
                    rhs@,
                    row,
                    t,
                ) && t.old_lhs < i)),
        decreases lhs.len() - i,
    {
        let l = lhs[i];
        let mut j: usize = 0;
        while j < rhs.len()
            invariant
                i < lhs.len(),
                j <= rhs.len(),
                l == lhs@[i as int],
                indexed_by_old(lhs@),
                indexed_by_old(rhs@),
                forall|x: int| 0 <= x < lhs.len() ==> (#[trigger] lhs@[x]).new_sample_i < n_rows,
                rows.len() == n_rows,
                forall|row: int| 0 <= row < n_rows ==> (#[trigger] rows@[row])@.no_duplicates(),
                forall|row: int, t: DotTerm|
                    0 <= row < n_rows ==> (#[trigger] rows@[row]@.contains(t) <==> (is_term(
                        lhs@,
                        rhs@,
                        row,
                        t,
                    ) && (t.old_lhs < i || (t.old_lhs == i && t.old_rhs < j)))),
            decreases rhs.len() - j,
        {
            let e = rhs[j];
            if e.block_id == l.block_id {
                let t = DotTerm { old_lhs: l.old_sample_i, old_rhs: e.old_sample_i, new_rhs: e.new_sample_i };
                let target = l.new_sample_i;
                let ghost before = rows@;
                let row = &mut rows[target];
                row.push(t);
                proof {
                    assert(l.old_sample_i == i);
                    assert(e.old_sample_i == j);
                    assert(!before[target as int]@.contains(t));
                    assert forall|row2: int, t2: DotTerm|
                        0 <= row2 < n_rows implies (#[trigger] rows@[row2]@.contains(t2) <==> (
                        is_term(lhs@, rhs@, row2, t2) && (t2.old_lhs < i || (t2.old_lhs == i
                            && t2.old_rhs < j + 1)))) by {
                        if row2 != target {
                            assert(rows@[row2] == before[row2]);
                        } else {
                            assert(rows@[row2]@ == before[row2]@.push(t));
                            if rows@[row2]@.contains(t2) && t2 != t {
                                let w = choose|w: int| 0 <= w < rows@[row2]@.len() && rows@[row2]@[w] == t2;
                                assert(before[row2]@[w] == t2);
                            }
                            if before[row2]@.contains(t2) {
                                let w = choose|w: int| 0 <= w < before[row2]@.len() && before[row2]@[w] == t2;
                                assert(rows@[row2]@[w] == t2);
                            }
                            if t2 == t {
                                assert(rows@[row2]@[before[row2]@.len() as int] == t2);
                            }
                        }
                    }
                    assert forall|row2: int| 0 <= row2 < n_rows implies (#[trigger] rows@[row2])@.no_duplicates() by {
                        if row2 == target {
                            assert(rows@[row2]@ == before[row2]@.push(t));
                            assert forall|a: int, b: int| 0 <= a < b < rows@[row2]@.len() implies rows@[row2]@[a] != rows@[row2]@[b] by {
                                if b == before[row2]@.len() {
                                    assert(before[row2]@.contains(before[row2]@[a]));
                                }
                            }
                        } else {
                            assert(rows@[row2] == before[row2]);
                        }
                    }
                }
            } else {
                proof {
                    assert(e.old_sample_i == j);
                    assert forall|row2: int, t2: DotTerm|
                        0 <= row2 < n_rows implies (#[trigger] rows@[row2]@.contains(t2) <==> (
                        is_term(lhs@, rhs@, row2, t2) && (t2.old_lhs < i || (t2.old_lhs == i
                            && t2.old_rhs < j + 1)))) by {
                        if t2.old_lhs == i && t2.old_rhs == j {
                            assert(!is_term(lhs@, rhs@, row2, t2));
                        }
                    }
                }
            }
            j = j + 1;
        }
        i = i + 1;
    }
    rows
}

/// Options of a kernel between two descriptors.
pub struct DotOptions<'a> {
    /// Sample variables to move to the features before the product: only
    /// rows with the same values on them are multiplied together.
    pub reduce_across: &'a [&'a str],
    /// Divide each entry by the norms of its row and column.
    pub normalize: bool,
    /// Also compute the kernel between the left gradients and the right
    /// values.
    pub gradients: bool,
}

impl<'a> Default for DotOptions<'a> {
    fn default() -> (r: DotOptions<'a>)
        ensures
            r.reduce_across@.len() == 0,
            !r.normalize,
            !r.gradients,
    {
        DotOptions { reduce_across: &[], normalize: false, gradients: false }
    }
}

/// How to compute a kernel between two descriptors: the index tables of the
/// result and, for each of its entries, the products of rows to add up.
pub struct KernelPlan {
    /// The reduced left samples: one row of the kernel for each.
    pub samples: Indexes,
    /// The reduced right samples: one column of the kernel for each.
    pub features: Indexes,
    /// The reduced left gradient samples, when gradients are asked for.
    pub gradients_samples: Option<Indexes>,
    /// For each row of the kernel, the products of left and right values
    /// to add to its entries.
    pub rows: Vec<Vec<DotTerm>>,
    /// For each gradient row, the products of left gradients and right
    /// values to add to its entries.
    pub gradient_rows: Option<Vec<Vec<DotTerm>>>,
    /// With normalization, the products of left values whose sum is the
    /// squared norm of each row.
    pub lhs_norms: Option<Vec<Vec<DotTerm>>>,
    /// With normalization, the products of right values whose sum is the
    /// squared norm of each column.
    pub rhs_norms: Option<Vec<Vec<DotTerm>>>,
    /// With normalization and gradients, the row of the kernel that owns
    /// each gradient row, found from all its columns but the last two.
    pub gradient_owners: Option<Vec<usize>>,
}

/// `t` contributes to the kernel entry of row `row`: its left row reduces to
/// the sample of that row, the two rows have the same block key, and the
/// column is the one of the right row's reduced sample.
pub open spec fn kernel_term(
    lhs: Seq<(Seq<IndexValue>, Seq<IndexValue>)>,
    rhs: Seq<(Seq<IndexValue>, Seq<IndexValue>)>,
    samples: Seq<Seq<IndexValue>>,
    features: Seq<Seq<IndexValue>>,
    row: int,
    t: DotTerm,
) -> bool {
    &&& t.old_lhs < lhs.len()
    &&& t.old_rhs < rhs.len()
    &&& lhs[t.old_lhs as int].0 == samples[row]
    &&& lhs[t.old_lhs as int].1 == rhs[t.old_rhs as int].1
    &&& t.new_rhs < features.len()
    &&& features[t.new_rhs as int] == rhs[t.old_rhs as int].0
}

/// The terms of each row are exactly the kernel terms, each once.
pub open spec fn terms_spec(
    rows: Seq<Vec<DotTerm>>,
    lhs: Seq<(Seq<IndexValue>, Seq<IndexValue>)>,
    rhs: Seq<(Seq<IndexValue>, Seq<IndexValue>)>,
    samples: Seq<Seq<IndexValue>>,
    features: Seq<Seq<IndexValue>>,
) -> bool {
    &&& rows.len() == samples.len()
    &&& forall|row: int| 0 <= row < rows.len() ==> (#[trigger] rows[row])@.no_duplicates()
    &&& forall|row: int, t: DotTerm|
        0 <= row < rows.len() ==> (#[trigger] rows[row]@.contains(t) <==> kernel_term(
            lhs,
            rhs,
            samples,
            features,
            row,
            t,
        ))
}

/// The terms of each row that fall on the diagonal are exactly the kernel
/// terms of the descriptor with itself on that diagonal entry, each once.
pub open spec fn diagonal_spec(
    rows: Seq<Vec<DotTerm>>,
    origins: Seq<(Seq<IndexValue>, Seq<IndexValue>)>,
    samples: Seq<Seq<IndexValue>>,
) -> bool {
    &&& rows.len() == samples.len()
    &&& forall|row: int| 0 <= row < rows.len() ==> (#[trigger] rows[row])@.no_duplicates()
    &&& forall|row: int, t: DotTerm|
        0 <= row < rows.len() ==> (#[trigger] rows[row]@.contains(t) <==> (kernel_term(
            origins,
            origins,
            samples,
            samples,
            row,
            t,
        ) && t.new_rhs == row))
}

/// The kernel between `lhs` and `rhs` is refused.
pub open spec fn dot_fails<T>(
    lhs: Descriptor<T>,
    rhs: Descriptor<T>,
    variables: Seq<Seq<char>>,
    gradients: bool,
) -> bool {
    ||| lhs.features.spec_names() != rhs.features.spec_names()
    ||| lhs.features.spec_rows() != rhs.features.spec_rows()
    ||| reduction_fails(lhs.samples, variables)
    ||| reduction_fails(rhs.samples, variables)
    ||| (gradients && lhs.gradients_samples is None)
    ||| (gradients && (lhs.gradients_samples matches Some(g) && reduction_fails(g, variables)))
}

/// The columns of a gradient row that identify the sample it belongs to.
pub open spec fn owner_prefix(row: Seq<IndexValue>) -> Seq<IndexValue> {
    row.take(row.len() - 2)
}

/// The facts that make the block ids of a mapping stand for its keys.
pub open spec fn entries_match(
    entries: Seq<BlockEntry>,
    origins: Seq<(Seq<IndexValue>, Seq<IndexValue>)>,
    samples: Seq<Seq<IndexValue>>,
    ids: Seq<Seq<IndexValue>>,
) -> bool {
    &&& entries.len() == origins.len()
    &&& indexed_by_old(entries)
    &&& forall|o: int|
        0 <= o < entries.len() ==> {
            let e = #[trigger] entries[o];
            &&& e.new_sample_i < samples.len()
            &&& samples[e.new_sample_i as int] == origins[o].0
            &&& e.block_id < ids.len()
            &&& ids[e.block_id as int] == origins[o].1
        }
}

proof fn lemma_terms(
    lhs: Seq<BlockEntry>,
    rhs: Seq<BlockEntry>,
    lo: Seq<(Seq<IndexValue>, Seq<IndexValue>)>,
    ro: Seq<(Seq<IndexValue>, Seq<IndexValue>)>,
    samples: Seq<Seq<IndexValue>>,
    features: Seq<Seq<IndexValue>>,
    ids: Seq<Seq<IndexValue>>,
    row: int,
    t: DotTerm,
)
    requires
        entries_match(lhs, lo, samples, ids),
        entries_match(rhs, ro, features, ids),
        samples.no_duplicates(),
        features.no_duplicates(),
        ids.no_duplicates(),
        0 <= row < samples.len(),
    ensures
        is_term(lhs, rhs, row, t) <==> kernel_term(lo, ro, samples, features, row, t),
{
    if t.old_lhs < lhs.len() && t.old_rhs < rhs.len() {
        let l = lhs[t.old_lhs as int];
        let r = rhs[t.old_rhs as int];
        assert(samples[l.new_sample_i as int] == lo[t.old_lhs as int].0);
        assert(features[r.new_sample_i as int] == ro[t.old_rhs as int].0);
        assert(ids[l.block_id as int] == lo[t.old_lhs as int].1);
        assert(ids[r.block_id as int] == ro[t.old_rhs as int].1);
    }
}

/// Keep the terms of each row that fall in the column of the same index.
fn diagonal(rows: Vec<Vec<DotTerm>>) -> (r: Vec<Vec<DotTerm>>)
    requires
        forall|row: int| 0 <= row < rows.len() ==> (#[trigger] rows@[row])@.no_duplicates(),
    ensures
        r.len() == rows.len(),
        forall|row: int| 0 <= row < rows.len() ==> (#[trigger] r@[row])@.no_duplicates(),
        forall|row: int, t: DotTerm|
            0 <= row < rows.len() ==> (#[trigger] r@[row]@.contains(t) <==> (rows@[row]@.contains(t)
                && t.new_rhs == row)),
{
    let mut r: Vec<Vec<DotTerm>> = Vec::new();
    let mut i: usize = 0;
    while i < rows.len()
        invariant
            i <= rows.len(),
            r.len() == i,
            forall|row: int| 0 <= row < rows.len() ==> (#[trigger] rows@[row])@.no_duplicates(),
            forall|row: int| 0 <= row < i ==> (#[trigger] r@[row])@.no_duplicates(),
            forall|row: int, t: DotTerm|
                0 <= row < i ==> (#[trigger] r@[row]@.contains(t) <==> (rows@[row]@.contains(t)
                    && t.new_rhs == row)),
        decreases rows.len() - i,
    {
        let ghost src = rows@[i as int]@;
        let mut kept: Vec<DotTerm> = Vec::new();
        let mut j: usize = 0;
        while j < rows[i].len()
            invariant
                i < rows.len(),
                src == rows@[i as int]@,
                j <= src.len(),
                forall|t: DotTerm| #[trigger] kept@.contains(t) <==> (src.take(j as int).contains(t) && t.new_rhs == i),
                src.no_duplicates() ==> kept@.no_duplicates(),
            decreases src.len() - j,
        {
            let t = rows[i][j];
            let ghost before = kept@;
            proof {
                assert(src.take(j + 1) =~= src.take(j as int).push(t));
                assert forall|x: DotTerm| src.take(j + 1).contains(x) <==> (src.take(j as int).contains(x) || x == t) by {
                    if src.take(j + 1).contains(x) {
                        let w = choose|w: int| 0 <= w < j + 1 && #[trigger] src.take(j + 1)[w] == x;
                        if w < j {
                            assert(src.take(j as int)[w] == x);
                        }
                    }
                    if src.take(j as int).contains(x) {
                        let w = choose|w: int| 0 <= w < j && #[trigger] src.take(j as int)[w] == x;
                        assert(src.take(j + 1)[w] == x);
                    }
                    if x == t {
                        assert(src.take(j + 1)[j as int] == x);
                    }
                }
            }
            if t.new_rhs == i {
                kept.push(t);
                proof {
                    assert forall|x: DotTerm| #[trigger] kept@.contains(x) <==> (before.contains(x) || x == t) by {
                        if kept@.contains(x) {
                            let w = choose|w: int| 0 <= w < kept@.len() && kept@[w] == x;
                            if w < before.len() {
                                assert(before[w] == x);
                            }
                        }
                        if before.contains(x) {
                            let w = choose|w: int| 0 <= w < before.len() && before[w] == x;
                            assert(kept@[w] == x);
                        }
                        if x == t {
                            assert(kept@[before.len() as int] == x);
                        }
                    }
                    if src.no_duplicates() {
                        if src.take(j as int).contains(t) {
                            let w = choose|w: int| 0 <= w < j && #[trigger] src.take(j as int)[w] == t;
                            assert(src[w] == src[j as int]);
                        }
                        assert forall|a: int, b: int| 0 <= a < b < kept@.len() implies kept@[a] != kept@[b] by {
                            if b == before.len() {
                                assert(before.contains(before[a]));
                            }
                        }
                    }
                }
            }
            proof {
                assert forall|x: DotTerm| #[trigger] kept@.contains(x) <==> (src.take(j + 1).contains(x)
                    && x.new_rhs == i) by {
                    if t.new_rhs != i {
                        assert(kept@ == before);
                    }
                }
            }
            j = j + 1;
        }
        proof {
            assert(src.take(j as int) =~= src);
        }
        r.push(kept);
        i = i + 1;
    }
    r
}

/// The row of `samples` that a gradient row belongs to, if any.
pub open spec fn owner_of(samples: Seq<Seq<IndexValue>>, row: Seq<IndexValue>) -> Option<int> {
    if row.len() >= 2 {
        first_index_of(samples, owner_prefix(row))
    } else {
        None
    }
}

/// Every reduced gradient row of `lhs` has two more columns than a reduced
/// sample, and belongs to a reduced sample.
pub open spec fn gradients_owned<T>(lhs: Descriptor<T>, variables: Seq<Seq<char>>) -> bool {
    match lhs.gradients_samples {
        Some(g) => {
            &&& reduced_names(g, variables).len() == reduced_names(lhs.samples, variables).len() + 2
            &&& forall|i: int|
                0 <= i < reduced_rows(g, variables).len() ==> (#[trigger] owner_of(
                    reduced_rows(lhs.samples, variables),
                    reduced_rows(g, variables)[i],
                )) is Some
        },
        None => true,
    }
}

/// What `kernel_plan` asks of its arguments: the reductions leave a column
/// in tables that have rows, and, with normalized gradients, every gradient
/// row belongs to a sample.
pub open spec fn kernel_allowed<T>(
    lhs: Descriptor<T>,
    rhs: Descriptor<T>,
    variables: Seq<Seq<char>>,
    gradients: bool,
    normalize: bool,
) -> bool {
    &&& !removes_every_column(lhs.samples, variables)
    &&& !removes_every_column(rhs.samples, variables)
    &&& gradients ==> (lhs.gradients_samples matches Some(g) ==> !removes_every_column(g, variables))
    &&& gradients && normalize && !dot_fails(lhs, rhs, variables, gradients) ==> gradients_owned(
        lhs,
        variables,
    )
}

/// What `lhs.kernel_plan(rhs, options)` gives on success.
pub open spec fn kernel_plan_spec<T>(
    lhs: Descriptor<T>,
    rhs: Descriptor<T>,
    variables: Seq<Seq<char>>,
    gradients: bool,
    normalize: bool,
    p: KernelPlan,
) -> bool {
    let lo = index_origins(lhs.samples, variables);
    let ro = index_origins(rhs.samples, variables);
    let samples = reduced_rows(lhs.samples, variables);
    let features = reduced_rows(rhs.samples, variables);
    &&& p.samples.spec_names() == reduced_names(lhs.samples, variables)
    &&& p.samples.spec_rows() == samples
    &&& p.features.spec_names() == reduced_names(rhs.samples, variables)
    &&& p.features.spec_rows() == features
    &&& terms_spec(p.rows@, lo, ro, samples, features)
    &&& gradients ==> {
        let g = lhs.gradients_samples->Some_0;
        let gsamples = reduced_rows(g, variables);
        &&& p.gradients_samples matches Some(gs) && gs.spec_names() == reduced_names(g, variables)
            && gs.spec_rows() == gsamples
        &&& p.gradient_rows matches Some(gr) && terms_spec(
            gr@,
            index_origins(g, variables),
            ro,
            gsamples,
            features,
        )
        &&& normalize ==> (p.gradient_owners matches Some(ow) && ow.len() == gsamples.len() && forall|
            i: int,
        | 0 <= i < ow.len() ==> Some(#[trigger] ow@[i] as int) == owner_of(samples, gsamples[i]))
    }
    &&& !gradients ==> p.gradients_samples is None && p.gradient_rows is None
    &&& !(gradients && normalize) ==> p.gradient_owners is None
    &&& normalize ==> (p.lhs_norms matches Some(ln) && diagonal_spec(ln@, lo, samples))
    &&& normalize ==> (p.rhs_norms matches Some(rn) && diagonal_spec(rn@, ro, features))
    &&& !normalize ==> p.lhs_norms is None && p.rhs_norms is None
}

proof fn lemma_entries_match(
    entries: Seq<BlockEntry>,
    idx: Indexes,
    variables: Seq<Seq<char>>,
    removed: RemovedSamples,
    ids_then: Seq<Seq<IndexValue>>,
    ids: Seq<Seq<IndexValue>>,
)
    requires
        removed_samples_spec(idx, variables, removed),
        ids_of_keys(entries, removed.mapping@, ids_then),
        ids_then.is_prefix_of(ids),
    ensures
        entries_match(entries, index_origins(idx, variables), removed.samples.spec_rows(), ids),
{
    assert forall|o: int| 0 <= o < entries.len() implies (#[trigger] entries[o]).old_sample_i == o by {
        assert(removed.mapping@[o].old_sample_i == o);
    }
    assert forall|o: int| 0 <= o < entries.len() implies {
        let e = #[trigger] entries[o];
        &&& e.new_sample_i < removed.samples.spec_rows().len()
        &&& removed.samples.spec_rows()[e.new_sample_i as int] == index_origins(idx, variables)[o].0
        &&& e.block_id < ids.len()
        &&& ids[e.block_id as int] == index_origins(idx, variables)[o].1
    } by {
        let m = removed.mapping@[o];
        assert(ids_then[entries[o].block_id as int] == ids[entries[o].block_id as int]);
    }
}

proof fn lemma_plan_terms(
    rows: Seq<Vec<DotTerm>>,
    lhs: Seq<BlockEntry>,
    rhs: Seq<BlockEntry>,
    lo: Seq<(Seq<IndexValue>, Seq<IndexValue>)>,
    ro: Seq<(Seq<IndexValue>, Seq<IndexValue>)>,
    samples: Seq<Seq<IndexValue>>,
    features: Seq<Seq<IndexValue>>,
    ids: Seq<Seq<IndexValue>>,
)
    requires
        entries_match(lhs, lo, samples, ids),
        entries_match(rhs, ro, features, ids),
        samples.no_duplicates(),
        features.no_duplicates(),
        ids.no_duplicates(),
        rows.len() == samples.len(),
        forall|row: int| 0 <= row < rows.len() ==> (#[trigger] rows[row])@.no_duplicates(),
        forall|row: int, t: DotTerm|
            0 <= row < rows.len() ==> (#[trigger] rows[row]@.contains(t) <==> is_term(
                lhs,
                rhs,
                row,
                t,
            )),
    ensures
        terms_spec(rows, lo, ro, samples, features),
{
    assert forall|row: int, t: DotTerm| 0 <= row < rows.len() implies (
    #[trigger] rows[row]@.contains(t) <==> kernel_term(lo, ro, samples, features, row, t)) by {
        lemma_terms(lhs, rhs, lo, ro, samples, features, ids, row, t);
    }
}

proof fn lemma_plan_diagonal(
    rows: Seq<Vec<DotTerm>>,
    entries: Seq<BlockEntry>,
    origins: Seq<(Seq<IndexValue>, Seq<IndexValue>)>,
    samples: Seq<Seq<IndexValue>>,
    ids: Seq<Seq<IndexValue>>,
)
    requires
        entries_match(entries, origins, samples, ids),
        samples.no_duplicates(),
        ids.no_duplicates(),
        rows.len() == samples.len(),
        forall|row: int| 0 <= row < rows.len() ==> (#[trigger] rows[row])@.no_duplicates(),
        forall|row: int, t: DotTerm|
            0 <= row < rows.len() ==> (#[trigger] rows[row]@.contains(t) <==> (is_term(
                entries,
                entries,
                row,
                t,
            ) && t.new_rhs == row)),
    ensures
        diagonal_spec(rows, origins, samples),
{
    assert forall|row: int, t: DotTerm| 0 <= row < rows.len() implies (
    #[trigger] rows[row]@.contains(t) <==> (kernel_term(origins, origins, samples, samples, row, t)
        && t.new_rhs == row)) by {
        lemma_terms(entries, entries, origins, origins, samples, samples, ids, row, t);
    }
}

impl<T: Copy> Descriptor<T> {
    /// Plan the kernel between `self` and `other`: the product that
    /// densifying both along `options.reduce_across` and multiplying the
    /// values of `self` with the transposed values of `other` would give,
    /// without building the dense matrices. Entry `(row, col)` of the kernel
    /// is the sum, over the terms of `row` going to `col`, of the products of
    /// a row of `self` with a row of `other` that have the same values on
    /// the reduced variables.
    pub fn kernel_plan(&self, other: &Descriptor<T>, options: &DotOptions) -> (r: Result<
        KernelPlan,
        Error,
    >)
        requires
            kernel_allowed(
                *self,
                *other,
                view_names(options.reduce_across@),
                options.gradients,
                options.normalize,
            ),
        ensures
            r is Err <==> dot_fails(
                *self,
                *other,
                view_names(options.reduce_across@),
                options.gradients,
            ),
            r matches Ok(p) ==> kernel_plan_spec(
                *self,
                *other,
                view_names(options.reduce_across@),
                options.gradients,
                options.normalize,
                p,
            ),
    {
        let ghost vars = view_names(options.reduce_across@);
        if !self.features.eq(&other.features) {
            return Err(
                Error::InvalidParameter(
                    "descriptors have different features, the dot product between them is not well defined".to_owned(),
                ),
            );
        }
        let removed_rhs = match remove_from_samples(&other.samples, options.reduce_across) {
            Ok(removed) => removed,
            Err(e) => {
                return Err(e);
            },
        };
        let removed_lhs = match remove_from_samples(&self.samples, options.reduce_across) {
            Ok(removed) => removed,
            Err(e) => {
                return Err(e);
            },
        };
        let removed_grad = if options.gradients {
            match &self.gradients_samples {
                Some(g) => {
                    match remove_from_samples(g, options.reduce_across) {
                        Ok(removed) => Some(removed),
                        Err(e) => {
                            return Err(e);
                        },
                    }
                },
                None => {
                    return Err(
                        Error::InvalidParameter(
                            "the left hand side descriptor does not contain gradient data, but the dot product requested it".to_owned(),
                        ),
                    );
                },
            }
        } else {
            None
        };

        // give each block key a numeric id, shared by all the mappings
        let mut ids = row_set_new();
        assert(row_set_items(ids).no_duplicates());
        let ghost ids0 = row_set_items(ids);
        let lhs_entries = assign_block_ids(&mut ids, &removed_lhs.mapping);
        let ghost ids1 = row_set_items(ids);
        let rhs_entries = assign_block_ids(&mut ids, &removed_rhs.mapping);
        let ghost ids2 = row_set_items(ids);
        let grad_entries = match &removed_grad {
            Some(rg) => Some(assign_block_ids(&mut ids, &rg.mapping)),
            None => None,
        };
        let ghost all_ids = row_set_items(ids);
        let ghost lo = index_origins(self.samples, vars);
        let ghost ro = index_origins(other.samples, vars);
        proof {
            assert(ids1.is_prefix_of(all_ids));
            assert(ids2.is_prefix_of(all_ids));
            lemma_entries_match(lhs_entries@, self.samples, vars, removed_lhs, ids1, all_ids);
            lemma_entries_match(rhs_entries@, other.samples, vars, removed_rhs, ids2, all_ids);
        }

        let n_rows = removed_lhs.samples.count();
        let n_cols = removed_rhs.samples.count();
        let rows = dot_terms(&lhs_entries, &rhs_entries, n_rows);
        proof {
            lemma_plan_terms(
                rows@,
                lhs_entries@,
                rhs_entries@,
                lo,
                ro,
                removed_lhs.samples.spec_rows(),
                removed_rhs.samples.spec_rows(),
                all_ids,
            );
        }
        let (lhs_norms, rhs_norms) = if options.normalize {
            let l = diagonal(dot_terms(&lhs_entries, &lhs_entries, n_rows));
            let r = diagonal(dot_terms(&rhs_entries, &rhs_entries, n_cols));
            proof {
                lemma_plan_diagonal(l@, lhs_entries@, lo, removed_lhs.samples.spec_rows(), all_ids);
                lemma_plan_diagonal(r@, rhs_entries@, ro, removed_rhs.samples.spec_rows(), all_ids);
            }
            (Some(l), Some(r))
        } else {
            (None, None)
        };
        let RemovedSamples { samples: new_lhs_samples, new_features: _, mapping: _ } = removed_lhs;
        let RemovedSamples { samples: new_rhs_samples, new_features: _, mapping: _ } = removed_rhs;

        let (gradients_samples, gradient_rows, gradient_owners) = match removed_grad {
            Some(rg) => {
                let ghost g = self.gradients_samples->Some_0;
                let entries = match grad_entries {
                    Some(e) => e,
                    None => Vec::new(),
                };
                proof {
                    lemma_entries_match(entries@, g, vars, rg, all_ids, all_ids);
                }
                let n_grad = rg.samples.count();
                let grows = dot_terms(&entries, &rhs_entries, n_grad);
                proof {
                    lemma_plan_terms(
                        grows@,
                        entries@,
                        rhs_entries@,
                        index_origins(g, vars),
                        ro,
                        rg.samples.spec_rows(),
                        new_rhs_samples.spec_rows(),
                        all_ids,
                    );
                }
                let owners = if options.normalize {
                    Some(owned_rows(gradient_owner_rows(&new_lhs_samples, &rg.samples)))
                } else {
                    None
                };
                let RemovedSamples { samples: new_grad_samples, new_features: _, mapping: _ } = rg;
                (Some(new_grad_samples), Some(grows), owners)
            },
            None => (None, None, None),
        };
        Ok(
            KernelPlan {
                samples: new_lhs_samples,
                features: new_rhs_samples,
                gradients_samples,
                rows,
                gradient_rows,
                lhs_norms,
                rhs_norms,
                gradient_owners,
            },
        )
    }
}

/// The positions of owners that are all known.
fn owned_rows(owners: Vec<Option<usize>>) -> (r: Vec<usize>)
    requires
        forall|i: int| 0 <= i < owners.len() ==> (#[trigger] owners@[i]) is Some,
    ensures
        r.len() == owners.len(),
        forall|i: int| 0 <= i < r.len() ==> Some(#[trigger] r@[i]) == owners@[i],
{
    let mut r: Vec<usize> = Vec::new();
    let mut i: usize = 0;
    while i < owners.len()
        invariant
            i <= owners.len(),
            r.len() == i,
            forall|j: int| 0 <= j < owners.len() ==> (#[trigger] owners@[j]) is Some,
            forall|j: int| 0 <= j < i ==> Some(#[trigger] r@[j]) == owners@[j],
        decreases owners.len() - i,
    {
        match owners[i] {
            Some(o) => r.push(o),
            None => r.push(unreached()),
        }
        i = i + 1;
    }
    r
}

/// For each row of `gradients`, the row of `samples` it belongs to: the
/// first one equal to the gradient row without its last two columns.
pub fn gradient_owner_rows(samples: &Indexes, gradients: &Indexes) -> (r: Vec<Option<usize>>)
    ensures
        r.len() == gradients.spec_rows().len(),
        forall|i: int|
            0 <= i < r.len() ==> as_opt_int(#[trigger] r@[i]) == owner_of(
                samples.spec_rows(),
                gradients.spec_rows()[i],
            ),
{
    let mut r: Vec<Option<usize>> = Vec::new();
    let mut i: usize = 0;
    while i < gradients.count()
        invariant
            i <= gradients.spec_rows().len(),
            r.len() == i,
            forall|j: int|
                0 <= j < i ==> as_opt_int(#[trigger] r@[j]) == owner_of(
                    samples.spec_rows(),
                    gradients.spec_rows()[j],
                ),
        decreases gradients.spec_rows().len() - i,
    {
        let row = gradients.value(i);
        if row.len() >= 2 {
            let prefix = vstd::slice::slice_subrange(row, 0, row.len() - 2);
            assert(prefix@ =~= owner_prefix(row@));
            r.push(samples.position(prefix));
        } else {
            r.push(None);
        }
        i = i + 1;
    }
    r
}

/// Rows of a kernel only combine rows with the same block key: every product
/// in the plan pairs a left row and a right row that take the same values on
/// the reduced variables, so rows with different values never meet.
pub proof fn lemma_kernel_terms_share_keys<T>(
    lhs: Descriptor<T>,
    rhs: Descriptor<T>,
    variables: Seq<Seq<char>>,
    gradients: bool,
    normalize: bool,
    p: KernelPlan,
    row: int,
    t: DotTerm,
)
    requires
        kernel_plan_spec(lhs, rhs, variables, gradients, normalize, p),
        0 <= row < p.rows.len(),
        p.rows@[row]@.contains(t),
    ensures
        t.old_lhs < lhs.samples.spec_rows().len(),
        t.old_rhs < rhs.samples.spec_rows().len(),
        select(
            lhs.samples.spec_rows()[t.old_lhs as int],
            variable_positions(lhs.samples.spec_names(), variables),
        ) == select(
            rhs.samples.spec_rows()[t.old_rhs as int],
            variable_positions(rhs.samples.spec_names(), variables),
        ),
{
}

/// With nothing to reduce across, and samples without repeated rows, the
/// kernel is the plain product of the left values with the transposed right
/// values: entry `(i, j)` is the product of left row `i` with right row `j`
/// and nothing else.
pub proof fn lemma_kernel_plain_product<T>(
    lhs: Descriptor<T>,
    rhs: Descriptor<T>,
    gradients: bool,
    normalize: bool,
    p: KernelPlan,
    row: int,
    t: DotTerm,
)
    requires
        kernel_plan_spec(lhs, rhs, Seq::empty(), gradients, normalize, p),
        lhs.samples.inv(),
        rhs.samples.inv(),
        lhs.samples.spec_rows().no_duplicates(),
        rhs.samples.spec_rows().no_duplicates(),
        0 <= row < p.rows.len(),
    ensures
        p.samples.spec_rows() == lhs.samples.spec_rows(),
        p.features.spec_rows() == rhs.samples.spec_rows(),
        p.rows@[row]@.contains(t) <==> (t.old_lhs == row && t.old_rhs
            < rhs.samples.spec_rows().len() && t.new_rhs == t.old_rhs),
{
    lemma_no_reduction(lhs.samples);
    lemma_no_reduction(rhs.samples);
    lemma_first_seen_distinct(lhs.samples.spec_rows());
    lemma_first_seen_distinct(rhs.samples.spec_rows());
    let lo = index_origins(lhs.samples, Seq::empty());
    let ro = index_origins(rhs.samples, Seq::empty());
    let ls = lhs.samples.spec_rows();
    let rs = rhs.samples.spec_rows();
    assert(p.rows@[row]@.contains(t) <==> kernel_term(lo, ro, ls, rs, row, t));
    if t.old_lhs < ls.len() && t.old_rhs < rs.len() {
        assert(lo[t.old_lhs as int].0 == ls[t.old_lhs as int]);
        assert(ro[t.old_rhs as int].0 == rs[t.old_rhs as int]);
        assert(lo[t.old_lhs as int].1 =~= ro[t.old_rhs as int].1);
    }
}

/// Removing no variable keeps every row as it is.
proof fn lemma_no_reduction(idx: Indexes)
    requires
        idx.inv(),
    ensures
        select_rows(
            idx.spec_rows(),
            remaining_columns(idx.spec_names(), Seq::empty()),
        ) == idx.spec_rows(),
        forall|o: int|
            0 <= o < idx.spec_rows().len() ==> (#[trigger] index_origins(idx, Seq::empty())[o]).0
                == idx.spec_rows()[o],
{
    let n = idx.spec_names().len();
    assert(variable_positions(idx.spec_names(), Seq::empty()) =~= Seq::<int>::empty());
    lemma_kept_columns_all(n);
    let rows = idx.spec_rows();
    assert forall|o: int| 0 <= o < rows.len() implies select(rows[o], Seq::new(n, |i: int| i))
        == rows[o] by {
        assert(select(rows[o], Seq::new(n, |i: int| i)) =~= rows[o]);
    }
    assert(select_rows(rows, Seq::new(n, |i: int| i)) =~= rows);
}

/// The products that give the squared norm of a row of a kernel of a
/// descriptor with itself are exactly the products of its diagonal entry:
/// once normalized, the diagonal of such a kernel is one.
pub proof fn lemma_self_kernel_diagonal<T>(
    d: Descriptor<T>,
    variables: Seq<Seq<char>>,
    gradients: bool,
    p: KernelPlan,
    row: int,
    t: DotTerm,
)
    requires
        kernel_plan_spec(d, d, variables, gradients, true, p),
        0 <= row < p.rows.len(),
    ensures
        p.lhs_norms matches Some(ln) && (ln@[row]@.contains(t) <==> (p.rows@[row]@.contains(t)
            && t.new_rhs == row)),
        p.rhs_norms matches Some(rn) && (rn@[row]@.contains(t) <==> (p.rows@[row]@.contains(t)
            && t.new_rhs == row)),
{
}

} // verus!
