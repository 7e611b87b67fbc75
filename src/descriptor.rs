use vstd::prelude::*;

use crate::densify::{
    block_feature_rows, block_features, densified_block, densified_rows, has_shape,
    lemma_block_features_shape, lemma_densified_total, lemma_flatten_alt_len,
    lemma_last_index_of_bounds, lemma_sorted_keys, origins, relocate, sorted_keys, sorted_rows,
    total_weight, view_matrix, zero_matrix, zero_rows,
};
use crate::error::Error;
use crate::indexes::{
    lemma_first_index_of_spec, valid_ident, view_rows, view_strings, IndexValue, Indexes,
};
use crate::order::strictly_sorted;
use crate::reduce::{
    all_present, first_seen, lemma_first_seen_contains, lemma_first_seen_distinct_elements,
    lemma_kept_columns_complete, remaining_columns, remove_from_samples, removes_every_column, select, select_rows,
    variable_positions, view_names, RemovedSamples,
};

verus! {

/// The name of the last column of gradient samples.
pub open spec fn spatial() -> Seq<char> {
    seq!['s', 'p', 'a', 't', 'i', 'a', 'l']
}

/// The last column of `gradients` is named `spatial`.
pub open spec fn spatial_last(gradients: Indexes) -> bool {
    &&& gradients.spec_names().len() > 0
    &&& gradients.spec_names().last() == spatial()
}

/// Removing `variables` from `idx` is refused: one of them is not a column.
pub open spec fn reduction_fails(idx: Indexes, variables: Seq<Seq<char>>) -> bool {
    !all_present(idx.spec_names(), variables)
}

/// What `densify(variables, ..)` asks of a descriptor when it has work to
/// do: the samples and gradient samples take the same values on the
/// variables, and the variables leave a column in tables that have rows.
pub open spec fn densify_allowed<T>(d: Descriptor<T>, variables: Seq<Seq<char>>) -> bool {
    !densify_trivial(d, variables) ==> {
        &&& gradient_keys_consistent(d, variables)
        &&& !removes_every_column(d.samples, variables)
        &&& d.gradients_samples matches Some(g) ==> !removes_every_column(g, variables)
    }
}

/// The values the rows of `idx` take on `variables`.
pub open spec fn key_set(idx: Indexes, variables: Seq<Seq<char>>) -> Set<Seq<IndexValue>> {
    select_rows(idx.spec_rows(), variable_positions(idx.spec_names(), variables)).to_set()
}

/// The names left once `variables` are removed from `idx`.
pub open spec fn reduced_names(idx: Indexes, variables: Seq<Seq<char>>) -> Seq<Seq<char>> {
    select(idx.spec_names(), remaining_columns(idx.spec_names(), variables))
}

/// The distinct rows of `idx` without `variables`, in order of first occurrence.
pub open spec fn reduced_rows(idx: Indexes, variables: Seq<Seq<char>>) -> Seq<Seq<IndexValue>> {
    first_seen(select_rows(idx.spec_rows(), remaining_columns(idx.spec_names(), variables)))
}

/// For each row of `idx`: its reduced row and its values on `variables`.
pub open spec fn index_origins(idx: Indexes, variables: Seq<Seq<char>>) -> Seq<
    (Seq<IndexValue>, Seq<IndexValue>),
> {
    origins(
        idx.spec_rows(),
        remaining_columns(idx.spec_names(), variables),
        variable_positions(idx.spec_names(), variables),
    )
}

/// The rows of an optional table of requested block keys.
pub open spec fn requested_view(requested: Option<&Vec<Vec<IndexValue>>>) -> Option<
    Seq<Seq<IndexValue>>,
> {
    match requested {
        Some(q) => Some(view_rows(q@)),
        None => None,
    }
}

/// A table of requested keys with a row that does not have one value per
/// variable.
pub open spec fn malformed_request(requested: Option<Seq<Seq<IndexValue>>>, n: nat) -> bool {
    match requested {
        Some(q) => has_row_not_of_len(q, n),
        None => false,
    }
}

/// One of the rows does not have `n` values.
pub open spec fn has_row_not_of_len(rows: Seq<Seq<IndexValue>>, n: nat) -> bool {
    exists|i: int| 0 <= i < rows.len() && (#[trigger] rows[i]).len() != n
}

/// The block keys of a densified descriptor: the requested ones if any,
/// else the ones the samples take.
pub open spec fn wanted_keys(
    samples: Indexes,
    variables: Seq<Seq<char>>,
    requested: Option<Seq<Seq<IndexValue>>>,
) -> Set<Seq<IndexValue>> {
    match requested {
        Some(q) => q.to_set(),
        None => key_set(samples, variables),
    }
}

/// The block keys of a densified descriptor, sorted.
pub open spec fn densify_keys(
    samples: Indexes,
    variables: Seq<Seq<char>>,
    requested: Option<Seq<Seq<IndexValue>>>,
) -> Seq<Seq<IndexValue>> {
    sorted_keys(wanted_keys(samples, variables, requested))
}

/// `densify(variables, ..)` has nothing to do.
pub open spec fn densify_trivial<T>(d: Descriptor<T>, variables: Seq<Seq<char>>) -> bool {
    variables.len() == 0 || d.features.spec_names().len() == 0
}

/// `densify(variables, requested, ..)` is refused.
pub open spec fn densify_fails<T>(
    d: Descriptor<T>,
    variables: Seq<Seq<char>>,
    requested: Option<Seq<Seq<IndexValue>>>,
) -> bool {
    &&& !densify_trivial(d, variables)
    &&& {
        ||| malformed_request(requested, variables.len())
        ||| reduction_fails(d.samples, variables)
        ||| (d.gradients_samples matches Some(g) && reduction_fails(g, variables))
    }
}

/// Samples and gradient samples take the same values on `variables`.
pub open spec fn gradient_keys_consistent<T>(d: Descriptor<T>, variables: Seq<Seq<char>>) -> bool {
    match d.gradients_samples {
        Some(g) => !reduction_fails(d.samples, variables) && !reduction_fails(g, variables)
            ==> key_set(g, variables) == key_set(d.samples, variables),
        None => true,
    }
}

/// `new` is `old` densified along `variables`, with `zero` where no value
/// comes from `old`.
pub open spec fn densified<T>(
    old: Descriptor<T>,
    new: Descriptor<T>,
    variables: Seq<Seq<char>>,
    requested: Option<Seq<Seq<IndexValue>>>,
    zero: T,
) -> bool {
    let keys = densify_keys(old.samples, variables, requested);
    let width = old.features.spec_rows().len();
    &&& strictly_sorted(keys)
    &&& keys.to_set() == wanted_keys(old.samples, variables, requested)
    &&& new.samples.spec_names() == reduced_names(old.samples, variables)
    &&& new.samples.spec_rows() == reduced_rows(old.samples, variables)
    &&& new.features.spec_names() == variables + old.features.spec_names()
    &&& new.features.spec_rows() == block_features(keys, old.features.spec_rows())
    &&& view_matrix(new.values@) == densified_rows(
        view_matrix(old.values@),
        index_origins(old.samples, variables),
        reduced_rows(old.samples, variables),
        keys,
        width,
        zero,
    )
    &&& old.gradients_samples is None ==> new.gradients is None && new.gradients_samples is None
    &&& old.gradients_samples matches Some(g) ==> {
        &&& new.gradients_samples matches Some(ng) && ng.spec_names() == reduced_names(g, variables)
            && ng.spec_rows() == reduced_rows(g, variables)
        &&& new.gradients matches Some(nv) && view_matrix(nv@) == densified_rows(
            view_matrix(old.gradients->Some_0@),
            index_origins(g, variables),
            reduced_rows(g, variables),
            keys,
            width,
            zero,
        )
    }
}

/// The densified matrix has one row per reduced row and one block of
/// `width` values per key.
pub proof fn lemma_densified_shape<T>(
    old: Seq<Seq<T>>,
    origins: Seq<(Seq<IndexValue>, Seq<IndexValue>)>,
    samples: Seq<Seq<IndexValue>>,
    keys: Seq<Seq<IndexValue>>,
    width: nat,
    zero: T,
)
    requires
        origins.len() == old.len(),
        forall|o: int| 0 <= o < old.len() ==> (#[trigger] old[o]).len() == width,
    ensures
        has_shape(
            densified_rows(old, origins, samples, keys, width, zero),
            samples.len(),
            keys.len() * width,
        ),
{
    let m = densified_rows(old, origins, samples, keys, width, zero);
    assert forall|r: int| 0 <= r < m.len() implies (#[trigger] m[r]).len() == keys.len() * width by {
        let blocks = Seq::new(
            keys.len(),
            |b: int| densified_block(old, origins, samples[r], keys[b], width, zero),
        );
        assert forall|b: int| 0 <= b < blocks.len() implies (#[trigger] blocks[b]).len() == width by {
            lemma_last_index_of_bounds(origins, (samples[r], keys[b]));
        }
        lemma_flatten_alt_len(blocks, width);
    }
}

/// Whether `m` has `rows` rows of `cols` entries.
fn has_shape_exec<T>(m: &Vec<Vec<T>>, rows: usize, cols: usize) -> (r: bool)
    ensures
        r == has_shape(view_matrix(m@), rows as nat, cols as nat),
{
    if m.len() != rows {
        return false;
    }
    let mut i: usize = 0;
    while i < m.len()
        invariant
            i <= m.len(),
            forall|j: int| 0 <= j < i ==> (#[trigger] m@[j])@.len() == cols,
        decreases m.len() - i,
    {
        if m[i].len() != cols {
            assert(view_matrix(m@)[i as int].len() != cols);
            return false;
        }
        i = i + 1;
    }
    assert forall|j: int| 0 <= j < view_matrix(m@).len() implies (#[trigger] view_matrix(m@)[j]).len()
        == cols by {
        assert(view_matrix(m@)[j] == m@[j]@);
    }
    true
}

/// Values and index tables of a set of samples, with optional gradients.
#[derive(Debug)]
pub struct Descriptor<T> {
    /// One row per sample, one column per feature.
    pub values: Vec<Vec<T>>,
    pub samples: Indexes,
    pub features: Indexes,
    /// One row per gradient sample, one column per feature.
    pub gradients: Option<Vec<Vec<T>>>,
    pub gradients_samples: Option<Indexes>,
}

impl<T: Copy> Descriptor<T> {
    /// The matrices have the shapes their index tables give, and gradients
    /// come with their gradient samples.
    pub open spec fn wf(&self) -> bool {
        &&& has_shape(
            view_matrix(self.values@),
            self.samples.spec_rows().len(),
            self.features.spec_rows().len(),
        )
        &&& (self.gradients is Some <==> self.gradients_samples is Some)
        &&& self.gradients matches Some(g) ==> has_shape(
            view_matrix(g@),
            self.gradients_samples->Some_0.spec_rows().len(),
            self.features.spec_rows().len(),
        )
    }

    /// Check that the matrices have the shapes their index tables give.
    pub fn is_well_formed(&self) -> (r: bool)
        ensures
            r == self.wf(),
    {
        let n_features = self.features.count();
        if !has_shape_exec(&self.values, self.samples.count(), n_features) {
            return false;
        }
        match (&self.gradients, &self.gradients_samples) {
            (Some(g), Some(gs)) => has_shape_exec(g, gs.count(), n_features),
            (None, None) => true,
            _ => false,
        }
    }

    /// An empty descriptor.
    pub fn new() -> (r: Descriptor<T>)
        ensures
            r.wf(),
            r.values@.len() == 0,
            r.samples.spec_names().len() == 0,
            r.samples.spec_rows().len() == 0,
            r.features.spec_names().len() == 0,
            r.features.spec_rows().len() == 0,
            r.gradients is None,
            r.gradients_samples is None,
    {
        Descriptor {
            values: Vec::new(),
            samples: Indexes::empty(),
            features: Indexes::empty(),
            gradients: None,
            gradients_samples: None,
        }
    }

    /// Set the samples and features, reset the values to `zero`, and drop
    /// any gradient.
    pub fn prepare(&mut self, samples: Indexes, features: Indexes, zero: T)
        ensures
            final(self).wf(),
            final(self).samples == samples,
            final(self).features == features,
            view_matrix(final(self).values@) == zero_rows(
                samples.spec_rows().len(),
                features.spec_rows().len(),
                zero,
            ),
            final(self).gradients is None,
            final(self).gradients_samples is None,
    {
        let values = zero_matrix(samples.count(), features.count(), zero);
        self.samples = samples;
        self.features = features;
        self.values = values;
        self.gradients = None;
        self.gradients_samples = None;
    }

    /// Set the samples, gradient samples and features, and reset values and
    /// gradients to `zero`. The last column of the gradient samples must be
    /// named `spatial`.
    pub fn prepare_gradients(
        &mut self,
        samples: Indexes,
        gradients: Indexes,
        features: Indexes,
        zero: T,
    )
        requires
            spatial_last(gradients),
        ensures
            final(self).wf(),
            final(self).samples == samples,
            final(self).features == features,
            final(self).gradients_samples == Some(gradients),
            view_matrix(final(self).values@) == zero_rows(
                samples.spec_rows().len(),
                features.spec_rows().len(),
                zero,
            ),
            final(self).gradients matches Some(g) && view_matrix(g@) == zero_rows(
                gradients.spec_rows().len(),
                features.spec_rows().len(),
                zero,
            ),
    {
        let values = zero_matrix(samples.count(), features.count(), zero);
        let gradient_values = zero_matrix(gradients.count(), features.count(), zero);
        self.samples = samples;
        self.features = features;
        self.values = values;
        self.gradients = Some(gradient_values);
        self.gradients_samples = Some(gradients);
    }

    /// Move `variables` from the samples to the features: the samples lose
    /// these columns and keep one row per distinct reduced row, in order of
    /// first occurrence; the features gain one block per block key, in
    /// sorted order, holding the values of the sample that had this key, or
    /// `zero`. The block keys are the requested ones, if any, else the values
    /// the samples take on `variables`. Gradients go the same way.
    pub fn densify(
        &mut self,
        variables: &[&str],
        requested: Option<&Vec<Vec<IndexValue>>>,
        zero: T,
    ) -> (r: Result<(), Error>)
        requires
            old(self).wf(),
            densify_allowed(*old(self), view_names(variables@)),
        ensures
            final(self).wf(),
            r is Err <==> densify_fails(*old(self), view_names(variables@), requested_view(requested)),
            r is Err ==> *final(self) == *old(self),
            densify_trivial(*old(self), view_names(variables@)) ==> *final(self) == *old(self),
            r is Ok && !densify_trivial(*old(self), view_names(variables@)) ==> densified(
                *old(self),
                *final(self),
                view_names(variables@),
                requested_view(requested),
                zero,
            ),
    {
        let ghost vars = view_names(variables@);
        if variables.len() == 0 || self.features.size() == 0 {
            return Ok(());
        }
        proof {
            use_type_invariant(&self.samples);
            use_type_invariant(&self.features);
        }
        if let Some(q) = requested {
            let mut i: usize = 0;
            while i < q.len()
                invariant
                    i <= q.len(),
                    *self == *old(self),
                    old(self).wf(),
                    variables@.len() > 0,
                    self.features.spec_names().len() > 0,
                    requested == Some(q),
                    vars == view_names(variables@),
                    forall|j: int| 0 <= j < i ==> (#[trigger] q@[j])@.len() == variables@.len(),
                decreases q.len() - i,
            {
                if q[i].len() != variables.len() {
                    proof {
                        assert(view_rows(q@)[i as int].len() != vars.len());
                    }
                    return Err(
                        Error::InvalidParameter(
                            "requested values must have one column per variable".to_owned(),
                        ),
                    );
                }
                i = i + 1;
            }
            proof {
                assert forall|j: int| 0 <= j < view_rows(q@).len() implies (#[trigger] view_rows(
                    q@,
                )[j]).len() == vars.len() by {
                    assert(view_rows(q@)[j] == q@[j]@);
                }
            }
        }
        let removed = match remove_from_samples(&self.samples, variables) {
            Ok(removed) => removed,
            Err(e) => {
                return Err(e);
            },
        };
        let removed_gradients = match &self.gradients_samples {
            Some(g) => {
                match remove_from_samples(g, variables) {
                    Ok(removed) => Some(removed),
                    Err(e) => {
                        return Err(e);
                    },
                }
            },
            None => None,
        };
        let RemovedSamples { samples: new_samples, new_features: data_keys, mapping } = removed;
        let keys = match requested {
            Some(q) => sorted_rows(q),
            None => data_keys,
        };
        let ghost ks = view_rows(keys@);
        proof {
            assert(ks == densify_keys(self.samples, vars, requested_view(requested)) && strictly_sorted(ks)
                && ks.to_set() == wanted_keys(self.samples, vars, requested_view(requested))
                && forall|i: int| 0 <= i < ks.len() ==> (#[trigger] ks[i]).len() == vars.len()) by {
                assert(ks.to_set().len() >= 0);
                match requested {
                    Some(q) => {
                        assert forall|i: int| 0 <= i < ks.len() implies (#[trigger] ks[i]).len()
                            == vars.len() by {
                            assert(ks.to_set().contains(ks[i]));
                            assert(view_rows(q@).to_set().contains(ks[i]));
                            let j = choose|j: int| 0 <= j < view_rows(q@).len() && view_rows(q@)[j] == ks[i];
                        }
                    },
                    None => {
                        lemma_sorted_keys(ks);
                        let positions = variable_positions(self.samples.spec_names(), vars);
                        let all_keys = select_rows(self.samples.spec_rows(), positions);
                        assert forall|i: int| 0 <= i < ks.len() implies (#[trigger] ks[i]).len()
                            == vars.len() by {
                            assert(ks.to_set().contains(ks[i]));
                            assert(all_keys.to_set().contains(ks[i]));
                            let j = choose|j: int| 0 <= j < all_keys.len() && all_keys[j] == ks[i];
                        }
                    },
                }
            }
        }

        // the new features: the variables, then the old feature columns
        let mut names: Vec<String> = Vec::new();
        let mut k: usize = 0;
        while k < variables.len()
            invariant
                k <= variables.len(),
                vars == view_names(variables@),
                view_strings(names@) == vars.take(k as int),
            decreases variables.len() - k,
        {
            let ghost prev = view_strings(names@);
            names.push(variables[k].to_owned());
            assert(view_strings(names@) =~= prev.push(vars[k as int]));
            assert(vars.take(k + 1) =~= vars.take(k as int).push(vars[k as int]));
            k = k + 1;
        }
        let old_names = self.features.names();
        let mut k: usize = 0;
        let ghost prefix = view_strings(names@);
        assert(prefix =~= vars);
        while k < old_names.len()
            invariant
                k <= old_names.len(),
                view_strings(names@) == prefix + view_strings(old_names@).take(k as int),
            decreases old_names.len() - k,
        {
            let ghost prev = view_strings(names@);
            names.push(old_names[k].clone());
            assert(view_strings(names@) =~= prev.push(view_strings(old_names@)[k as int]));
            assert(view_strings(old_names@).take(k + 1) =~= view_strings(old_names@).take(
                k as int,
            ).push(view_strings(old_names@)[k as int]));
            k = k + 1;
        }
        assert(view_strings(old_names@).take(k as int) =~= view_strings(old_names@));
        let feature_rows = block_feature_rows(&keys, self.features.rows());
        proof {
            lemma_block_features_shape(
                ks,
                self.features.spec_rows(),
                vars.len(),
                self.features.spec_names().len(),
            );
            assert forall|i: int| 0 <= i < view_strings(names@).len() implies valid_ident(
                #[trigger] view_strings(names@)[i],
            ) by {
                if i < vars.len() {
                    assert(self.samples.spec_names().contains(vars[i]));
                    let j = choose|j: int|
                        0 <= j < self.samples.spec_names().len() && self.samples.spec_names()[j]
                            == vars[i];
                } else {
                    assert(view_strings(names@)[i] == self.features.spec_names()[i - vars.len()]);
                }
            }
        }
        let new_features = Indexes::from_parts(names, feature_rows);
        let width = self.features.count();
        proof {
            assert forall|o: int| 0 <= o < self.values.len() implies (
            #[trigger] self.values@[o])@.len() == width by {
                assert(view_matrix(self.values@)[o] == self.values@[o]@);
            }
            if self.gradients is Some {
                let gv = self.gradients->Some_0;
                assert forall|o: int| 0 <= o < gv.len() implies (#[trigger] gv@[o])@.len()
                    == width by {
                    assert(view_matrix(gv@)[o] == gv@[o]@);
                }
            }
        }
        let new_values = relocate(
            &self.values,
            &mapping,
            Ghost(new_samples.spec_rows()),
            Ghost(index_origins(self.samples, vars)),
            new_samples.count(),
            &keys,
            width,
            zero,
        );
        proof {
            lemma_densified_shape(
                view_matrix(self.values@),
                index_origins(self.samples, vars),
                new_samples.spec_rows(),
                ks,
                width as nat,
                zero,
            );
        }
        match removed_gradients {
            Some(removed_gradients) => {
                let RemovedSamples {
                    samples: new_gradient_samples,
                    new_features: _,
                    mapping: gradient_mapping,
                } = removed_gradients;
                let ghost g = self.gradients_samples->Some_0;
                match &self.gradients {
                    Some(gradients) => {
                        let new_gradients = relocate(
                            gradients,
                            &gradient_mapping,
                            Ghost(new_gradient_samples.spec_rows()),
                            Ghost(index_origins(g, vars)),
                            new_gradient_samples.count(),
                            &keys,
                            width,
                            zero,
                        );
                        proof {
                            lemma_densified_shape(
                                view_matrix(gradients@),
                                index_origins(g, vars),
                                new_gradient_samples.spec_rows(),
                                ks,
                                width as nat,
                                zero,
                            );
                        }
                        self.gradients = Some(new_gradients);
                        self.gradients_samples = Some(new_gradient_samples);
                    },
                    None => {},
                }
            },
            None => {},
        }
        self.samples = new_samples;
        self.features = new_features;
        self.values = new_values;
        Ok(())
    }
}

/// Densifying moves values without adding or losing any: when no two
/// samples are equal and every block key the samples take is kept, the
/// values after densifying add up to the same total as before, for any
/// weight of the values that gives nothing to `zero` (for numbers, the
/// value itself).
pub proof fn lemma_densify_keeps_total<T: Copy>(
    old: Descriptor<T>,
    new: Descriptor<T>,
    variables: Seq<Seq<char>>,
    requested: Option<Seq<Seq<IndexValue>>>,
    zero: T,
    w: spec_fn(T) -> int,
)
    requires
        old.wf(),
        old.samples.inv(),
        !reduction_fails(old.samples, variables),
        densified(old, new, variables, requested, zero),
        old.samples.spec_rows().no_duplicates(),
        requested matches Some(q) ==> key_set(old.samples, variables).subset_of(q.to_set()),
        w(zero) == 0,
    ensures
        total_weight(view_matrix(new.values@), w) == total_weight(view_matrix(old.values@), w),
{
    let names = old.samples.spec_names();
    let rows = old.samples.spec_rows();
    let n = names.len();
    let pos = variable_positions(names, variables);
    let kept = remaining_columns(names, variables);
    let origins = index_origins(old.samples, variables);
    let samples = reduced_rows(old.samples, variables);
    let keys = densify_keys(old.samples, variables, requested);
    lemma_first_seen_distinct_elements(select_rows(rows, kept));
        assert forall|k: int| 0 <= k < pos.len() implies 0 <= #[trigger] pos[k] < n by {
        assert(names.contains(variables[k]));
        lemma_first_index_of_spec(names, variables[k]);
    }
    assert forall|a: int, b: int| 0 <= a < b < origins.len() implies origins[a] != origins[b] by {
        if origins[a] == origins[b] {
            assert(rows[a] =~= rows[b]) by {
                assert forall|c: int| 0 <= c < n implies rows[a][c] == rows[b][c] by {
                    if pos.contains(c) {
                        let k = choose|k: int| 0 <= k < pos.len() && pos[k] == c;
                        assert(select(rows[a], pos)[k] == select(rows[b], pos)[k]);
                    } else {
                        lemma_kept_columns_complete(n, pos, c);
                        let k = choose|k: int| 0 <= k < kept.len() && kept[k] == c;
                        assert(select(rows[a], kept)[k] == select(rows[b], kept)[k]);
                    }
                }
            }
        }
    }
    assert forall|o: int| 0 <= o < origins.len() implies samples.contains((#[trigger] origins[o]).0)
        && keys.contains(origins[o].1) by {
        lemma_first_seen_contains(select_rows(rows, kept), o);
        let key = select_rows(rows, pos)[o];
        assert(select_rows(rows, pos).contains(key));
        assert(keys.to_set().contains(key));
    }
    assert forall|a: int, b: int| 0 <= a < b < keys.len() implies keys[a] != keys[b] by {
        crate::order::lemma_lex_irreflexive(keys[a]);
    }
    assert(view_matrix(old.values@).len() == origins.len());
    lemma_densified_total(
        view_matrix(old.values@),
        origins,
        samples,
        keys,
        old.features.spec_rows().len(),
        zero,
        w,
    );
}

} // verus!
