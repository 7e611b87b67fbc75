use vstd::prelude::*;
use vstd::string::StringExecFns;

use crate::error::Error;
use crate::indexes::{well_shaped, first_index_of, lemma_first_index_of, lemma_first_index_of_absent, lemma_first_index_of_spec, valid_ident, valid_names, view_rows, view_strings, IndexValue, Indexes};
use crate::order::{insert_sorted, strictly_sorted};
use crate::row_set::{row_set_insert, row_set_into_vec, row_set_items, row_set_new};

verus! {

/// Every variable is the name of a column.
pub open spec fn all_present(names: Seq<Seq<char>>, variables: Seq<Seq<char>>) -> bool {
    forall|k: int| 0 <= k < variables.len() ==> names.contains(#[trigger] variables[k])
}

/// The column of each variable: the first column with that name.
pub open spec fn variable_positions(names: Seq<Seq<char>>, variables: Seq<Seq<char>>) -> Seq<int> {
    Seq::new(
        variables.len(),
        |k: int|
            match first_index_of(names, variables[k]) {
                Some(i) => i,
                None => -1,
            },
    )
}

/// The columns below `n` that are not `removed`, in increasing order.
pub open spec fn kept_columns(n: nat, removed: Seq<int>) -> Seq<int>
    decreases n,
{
    if n == 0 {
        Seq::empty()
    } else {
        let prefix = kept_columns((n - 1) as nat, removed);
        if removed.contains(n - 1) {
            prefix
        } else {
            prefix.push(n - 1)
        }
    }
}

/// The entries of `s` at the given positions.
pub open spec fn select<A>(s: Seq<A>, columns: Seq<int>) -> Seq<A> {
    Seq::new(columns.len(), |k: int| s[columns[k]])
}

/// The distinct elements of `s`, in the order of their first occurrence.
pub open spec fn first_seen<A>(s: Seq<A>) -> Seq<A>
    decreases s.len(),
{
    if s.len() == 0 {
        Seq::empty()
    } else {
        let prefix = first_seen(s.drop_last());
        if prefix.contains(s.last()) {
            prefix
        } else {
            prefix.push(s.last())
        }
    }
}

/// Each row restricted to the given columns.
pub open spec fn select_rows(rows: Seq<Seq<IndexValue>>, columns: Seq<int>) -> Seq<
    Seq<IndexValue>,
> {
    rows.map_values(|r: Seq<IndexValue>| select(r, columns))
}

/// The columns that remain once `variables` are removed from `names`.
pub open spec fn remaining_columns(names: Seq<Seq<char>>, variables: Seq<Seq<char>>) -> Seq<int> {
    kept_columns(names.len(), variable_positions(names, variables))
}

/// The entries of a vector of positions, as integers.
pub open spec fn as_ints(v: Seq<usize>) -> Seq<int> {
    v.map_values(|c: usize| c as int)
}

/// The views of a slice of names.
pub open spec fn view_names(v: Seq<&str>) -> Seq<Seq<char>> {
    v.map_values(|s: &str| s@)
}

/// Where the values of one row of the initial index go.
pub struct DensifiedIndex {
    /// Position of the row in the initial index.
    pub old_sample_i: usize,
    /// Position of the reduced row in the new index.
    pub new_sample_i: usize,
    /// Values the row takes on the removed variables.
    pub variables: Vec<IndexValue>,
}

/// The result of removing a set of variables from an index.
pub struct RemovedSamples {
    /// The distinct reduced rows, in order of first occurrence.
    pub samples: Indexes,
    /// The distinct values taken by the removed variables, sorted.
    pub new_features: Vec<Vec<IndexValue>>,
    /// One entry for each row of the initial index, in order.
    pub mapping: Vec<DensifiedIndex>,
}

/// What `remove_from_samples(samples, variables)` returns on success.
pub open spec fn removed_samples_spec(
    samples: Indexes,
    variables: Seq<Seq<char>>,
    r: RemovedSamples,
) -> bool {
    let names = samples.spec_names();
    let rows = samples.spec_rows();
    let positions = variable_positions(names, variables);
    let kept = remaining_columns(names, variables);
    let reduced = select_rows(rows, kept);
    let keys = select_rows(rows, positions);
    &&& r.samples.spec_names() == select(names, kept)
    &&& r.samples.spec_rows() == first_seen(reduced)
    &&& r.samples.spec_rows().no_duplicates()
    &&& r.mapping.len() == rows.len()
    &&& forall|i: int|
        0 <= i < rows.len() ==> {
            let m = #[trigger] r.mapping@[i];
            &&& m.old_sample_i == i
            &&& m.variables@ == keys[i]
            &&& m.new_sample_i < r.samples.spec_rows().len()
            &&& r.samples.spec_rows()[m.new_sample_i as int] == reduced[i]
        }
    &&& strictly_sorted(view_rows(r.new_features@))
    &&& view_rows(r.new_features@).to_set() == keys.to_set()
}

/// Removing `variables` from `idx` would leave no column while `idx` has
/// rows.
pub open spec fn removes_every_column(idx: Indexes, variables: Seq<Seq<char>>) -> bool {
    &&& all_present(idx.spec_names(), variables)
    &&& remaining_columns(idx.spec_names(), variables).len() == 0
    &&& idx.spec_rows().len() > 0
}

/// The message for a variable that is not among the `names` of the samples.
fn missing_variable_message(variable: &str, names: &Vec<String>) -> String {
    let mut message = "can not densify along '".to_owned();
    message.append(variable);
    message.append("' which is not present in the samples: [");
    let mut i: usize = 0;
    while i < names.len()
        decreases names.len() - i,
    {
        if i > 0 {
            message.append(", ");
        }
        message.append(names[i].as_str());
        i = i + 1;
    }
    message.append("]");
    message
}

/// Compare two strings.
pub fn str_equal(a: &str, b: &str) -> (r: bool)
    ensures
        r == (a@ == b@),
{
    let n = a.unicode_len();
    if n != b.unicode_len() {
        return false;
    }
    let mut i: usize = 0;
    while i < n
        invariant
            n == a@.len(),
            n == b@.len(),
            i <= n,
            forall|j: int| 0 <= j < i ==> a@[j] == b@[j],
        decreases n - i,
    {
        if a.get_char(i) != b.get_char(i) {
            return false;
        }
        i = i + 1;
    }
    assert(a@ =~= b@);
    true
}

/// Position of the first name equal to `name`, if any.
pub fn name_position(names: &Vec<String>, name: &str) -> (r: Option<usize>)
    ensures
        r matches Some(i) ==> first_index_of(view_strings(names@), name@) == Some(
            i as int,
        ),
        r is None ==> first_index_of(view_strings(names@), name@) is None,
{
    let ghost views = view_strings(names@);
    let mut i: usize = 0;
    while i < names.len()
        invariant
            i <= names.len(),
            views == view_strings(names@),
            forall|j: int| 0 <= j < i ==> views[j] != name@,
        decreases names.len() - i,
    {
        if str_equal(names[i].as_str(), name) {
            proof {
                lemma_first_index_of(views, name@, i as int);
            }
            return Some(i);
        }
        i = i + 1;
    }
    proof {
        lemma_first_index_of_absent(views, name@);
    }
    None
}

fn contains_usize(v: &Vec<usize>, x: usize) -> (r: bool)
    ensures
        r == as_ints(v@).contains(x as int),
{
    let ghost w = as_ints(v@);
    let mut i: usize = 0;
    while i < v.len()
        invariant
            i <= v.len(),
            w == as_ints(v@),
            forall|j: int| 0 <= j < i ==> w[j] != x as int,
        decreases v.len() - i,
    {
        if v[i] == x {
            assert(w[i as int] == x as int);
            return true;
        }
        i = i + 1;
    }
    false
}

/// The entries of `row` at the given columns.
fn select_values(row: &[IndexValue], columns: &Vec<usize>) -> (r: Vec<IndexValue>)
    requires
        forall|k: int| 0 <= k < columns.len() ==> #[trigger] columns@[k] < row@.len(),
    ensures
        r@ == select(row@, as_ints(columns@)),
{
    let mut r: Vec<IndexValue> = Vec::new();
    let mut k: usize = 0;
    while k < columns.len()
        invariant
            k <= columns.len(),
            forall|j: int| 0 <= j < columns.len() ==> #[trigger] columns@[j] < row@.len(),
            r@ == select(row@, as_ints(columns@).take(k as int)),
        decreases columns.len() - k,
    {
        r.push(row[columns[k]]);
        k = k + 1;
        assert(r@ =~= select(row@, as_ints(columns@).take(k as int)));
    }
    assert(as_ints(columns@).take(k as int) =~= as_ints(columns@));
    r
}

proof fn lemma_kept_columns_bounds(n: nat, removed: Seq<int>)
    ensures
        forall|k: int|
            0 <= k < kept_columns(n, removed).len() ==> 0 <= #[trigger] kept_columns(
                n,
                removed,
            )[k] < n && !removed.contains(kept_columns(n, removed)[k]),
    decreases n,
{
    if n > 0 {
        lemma_kept_columns_bounds((n - 1) as nat, removed);
        let prefix = kept_columns((n - 1) as nat, removed);
        assert forall|k: int| 0 <= k < prefix.len() implies 0 <= #[trigger] prefix[k] < n
            && !removed.contains(prefix[k]) by {
            assert(0 <= kept_columns((n - 1) as nat, removed)[k] < n - 1);
        }
    }
}

/// Remove the given `variables` from the rows of `samples`: each row is split
/// into the values it takes on the variables and the reduced row made of the
/// other columns.
///
/// Removing every column of a table that has rows would leave rows with
/// nothing to tell them apart, and is left out.
pub fn remove_from_samples(samples: &Indexes, variables: &[&str]) -> (r: Result<
    RemovedSamples,
    Error,
>)
    requires
        !removes_every_column(*samples, view_names(variables@)),
    ensures
        r is Err <==> !all_present(samples.spec_names(), view_names(variables@)),
        r matches Ok(removed) ==> removed_samples_spec(*samples, view_names(variables@), removed),
{
    proof {
        use_type_invariant(samples);
    }
    let ghost vars = view_names(variables@);
    let names = samples.names();
    let ghost name_views = samples.spec_names();
    let n = names.len();

    let mut positions: Vec<usize> = Vec::new();
    let mut k: usize = 0;
    while k < variables.len()
        invariant
            k <= variables.len(),
            vars == view_names(variables@),
            name_views == view_strings(names@),
            name_views == samples.spec_names(),
            n == names.len(),
            as_ints(positions@) == variable_positions(name_views, vars).take(
                k as int,
            ),
            forall|j: int| 0 <= j < k ==> name_views.contains(#[trigger] vars[j]),
            forall|j: int| 0 <= j < k ==> #[trigger] positions@[j] < n,
        decreases variables.len() - k,
    {
        match name_position(&names, variables[k]) {
            Some(p) => {
                proof {
                    assert(vars[k as int] == variables@[k as int]@);
                    lemma_first_index_of_spec(name_views, vars[k as int]);
                }
                let ghost old_positions = positions@;
                positions.push(p);
                proof {
                    let vp = variable_positions(name_views, vars);
                    assert(as_ints(positions@) =~= as_ints(old_positions).push(p as int));
                    assert(vp.take(k + 1) =~= vp.take(k as int).push(vp[k as int]));
                }
                k = k + 1;
            },
            None => {
                proof {
                    assert(vars[k as int] == variables@[k as int]@);
                    lemma_first_index_of_spec(name_views, vars[k as int]);
                    assert(!name_views.contains(vars[k as int]));
                    assert(!samples.spec_names().contains(view_names(variables@)[k as int]));
                }
                return Err(Error::InvalidParameter(missing_variable_message(variables[k], &names)));
            },
        }
    }
    let ghost pos = variable_positions(name_views, vars);
    assert(as_ints(positions@) =~= pos);

    let mut kept: Vec<usize> = Vec::new();
    let mut new_names: Vec<String> = Vec::new();
    let mut c: usize = 0;
    while c < n
        invariant
            c <= n,
            n == names.len(),
            name_views == view_strings(names@),
            as_ints(positions@) == pos,
            as_ints(kept@) == kept_columns(c as nat, pos),
            view_strings(new_names@) == select(name_views, kept_columns(c as nat, pos)),
            forall|j: int| 0 <= j < kept.len() ==> #[trigger] kept@[j] < c,
        decreases n - c,
    {
        let ghost prev = kept_columns(c as nat, pos);
        if !contains_usize(&positions, c) {
            kept.push(c);
            new_names.push(names[c].clone());
            assert(select(name_views, prev.push(c as int)) =~= select(name_views, prev).push(
                name_views[c as int],
            ));
        }
        c = c + 1;
        assert(as_ints(kept@) =~= kept_columns(c as nat, pos));
        assert(view_strings(new_names@) =~= select(
            name_views,
            kept_columns(c as nat, pos),
        ));
    }
    let ghost kept_view = kept_columns(n as nat, pos);
    proof {
        assert(all_present(name_views, vars));
        assert(kept.len() == 0 ==> samples.spec_rows().len() == 0);
        lemma_kept_columns_bounds(n as nat, pos);
        assert forall|k: int| 0 <= k < kept_view.len() implies valid_ident(
            #[trigger] select(name_views, kept_view)[k],
        ) by {
            assert(0 <= kept_view[k] < n);
        }
        assert(valid_names(view_strings(new_names@)));
    }

    let ghost rows = samples.spec_rows();
    let ghost reduced = select_rows(rows, kept_view);
    let ghost keys = select_rows(rows, pos);
    let mut set = row_set_new();
    let mut new_features: Vec<Vec<IndexValue>> = Vec::new();
    let mut mapping: Vec<DensifiedIndex> = Vec::new();
    let count = samples.count();
    let mut i: usize = 0;
    assert(reduced.take(0) =~= Seq::<Seq<IndexValue>>::empty());
    assert(keys.take(0) =~= Seq::<Seq<IndexValue>>::empty());
    assert(view_rows(new_features@) =~= Seq::<Seq<IndexValue>>::empty());
    while i < count
        invariant
            i <= count,
            count == rows.len(),
            rows == samples.spec_rows(),
            keys == select_rows(rows, pos),
            reduced == select_rows(rows, kept_view),
            well_shaped(rows, n as nat),
            as_ints(positions@) == pos,
            as_ints(kept@) == kept_view,
            forall|j: int| 0 <= j < positions.len() ==> #[trigger] positions@[j] < n,
            forall|j: int| 0 <= j < kept.len() ==> #[trigger] kept@[j] < n,
            row_set_items(set) == first_seen(reduced.take(i as int)),
            row_set_items(set).no_duplicates(),
            forall|k: int|
                0 <= k < row_set_items(set).len() ==> (#[trigger] row_set_items(set)[k]).len()
                    == kept.len(),
            mapping.len() == i,
            forall|j: int|
                0 <= j < i ==> {
                    let m = #[trigger] mapping@[j];
                    &&& m.old_sample_i == j
                    &&& m.variables@ == keys[j]
                    &&& m.new_sample_i < row_set_items(set).len()
                    &&& row_set_items(set)[m.new_sample_i as int] == reduced[j]
                },
            strictly_sorted(view_rows(new_features@)),
            view_rows(new_features@).to_set() == keys.take(i as int).to_set(),
        decreases count - i,
    {
        let row = samples.value(i);
        let key = select_values(row, &positions);
        let reduced_row = select_values(row, &kept);
        assert(key@ == keys[i as int]);
        assert(reduced_row@ == reduced[i as int]);
        insert_sorted(&mut new_features, key.as_slice());
        let ghost before = row_set_items(set);
        let new_i = row_set_insert(&mut set, reduced_row);
        proof {
            assert(reduced.take(i + 1).drop_last() =~= reduced.take(i as int));
            assert(keys.take(i + 1) =~= keys.take(i as int).push(keys[i as int]));
            keys.take(i as int).lemma_push_to_set_commute(keys[i as int]);
            if !before.contains(reduced[i as int]) {
                assert forall|a: int, b: int|
                    0 <= a < b < row_set_items(set).len() implies row_set_items(set)[a]
                    != row_set_items(set)[b] by {
                    if b == before.len() {
                        assert(before[a] == row_set_items(set)[a]);
                    }
                }
            }
        }
        mapping.push(DensifiedIndex { old_sample_i: i, new_sample_i: new_i, variables: key });
        i = i + 1;
    }
    assert(reduced.take(count as int) =~= reduced);
    assert(keys.take(count as int) =~= keys);
    let new_rows = row_set_into_vec(set);
    let new_samples = Indexes::from_parts(new_names, new_rows);
    Ok(RemovedSamples { samples: new_samples, new_features, mapping })
}

/// With nothing removed, every column is kept, in order.
pub proof fn lemma_kept_columns_all(n: nat)
    ensures
        kept_columns(n, Seq::empty()) == Seq::new(n, |i: int| i),
    decreases n,
{
    if n > 0 {
        lemma_kept_columns_all((n - 1) as nat);
        assert(kept_columns(n, Seq::empty()) =~= Seq::new(n, |i: int| i));
    } else {
        assert(kept_columns(n, Seq::empty()) =~= Seq::new(n, |i: int| i));
    }
}

/// A sequence without repeated elements is its own first-seen sequence.
pub proof fn lemma_first_seen_distinct<A>(s: Seq<A>)
    requires
        s.no_duplicates(),
    ensures
        first_seen(s) == s,
    decreases s.len(),
{
    if s.len() > 0 {
        let prefix = s.drop_last();
        assert(prefix.no_duplicates());
        lemma_first_seen_distinct(prefix);
        assert(!prefix.contains(s.last()));
        assert(prefix.push(s.last()) =~= s);
    }
}

/// Every column below `n` that is not removed is kept.
pub proof fn lemma_kept_columns_complete(n: nat, removed: Seq<int>, c: int)
    requires
        0 <= c < n,
        !removed.contains(c),
    ensures
        kept_columns(n, removed).contains(c),
    decreases n,
{
    if c < n - 1 {
        lemma_kept_columns_complete((n - 1) as nat, removed, c);
        let prefix = kept_columns((n - 1) as nat, removed);
        let i = choose|i: int| 0 <= i < prefix.len() && prefix[i] == c;
        if !removed.contains(n - 1) {
            assert(prefix.push(n - 1)[i] == c);
        }
    } else {
        let prefix = kept_columns((n - 1) as nat, removed);
        assert(prefix.push(n - 1)[prefix.len() as int] == c);
    }
}

/// Every element of `s` is among its first-seen elements.
pub proof fn lemma_first_seen_contains<A>(s: Seq<A>, i: int)
    requires
        0 <= i < s.len(),
    ensures
        first_seen(s).contains(s[i]),
    decreases s.len(),
{
    let prefix = first_seen(s.drop_last());
    if i < s.len() - 1 {
        lemma_first_seen_contains(s.drop_last(), i);
        assert(s.drop_last()[i] == s[i]);
        if !prefix.contains(s.last()) {
            let k = choose|k: int| 0 <= k < prefix.len() && prefix[k] == s[i];
            assert(prefix.push(s.last())[k] == s[i]);
        }
    } else if !prefix.contains(s.last()) {
        assert(prefix.push(s.last())[prefix.len() as int] == s[i]);
    }
}

/// First-seen elements are all different.
pub proof fn lemma_first_seen_distinct_elements<A>(s: Seq<A>)
    ensures
        first_seen(s).no_duplicates(),
    decreases s.len(),
{
    if s.len() > 0 {
        lemma_first_seen_distinct_elements(s.drop_last());
    }
}

} // verus!
