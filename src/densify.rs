use vstd::prelude::*;

use crate::indexes::{first_index_of, lemma_first_index_of, lemma_first_index_of_absent, lemma_first_index_of_spec, view_rows, IndexValue};
use crate::order::{insert_sorted, lemma_lex_asymmetric, lemma_lex_irreflexive, strictly_sorted};
use crate::reduce::{select, DensifiedIndex};

verus! {

/// The views of the rows of a matrix.
pub open spec fn view_matrix<T>(m: Seq<Vec<T>>) -> Seq<Seq<T>> {
    m.map_values(|r: Vec<T>| r@)
}

/// A matrix with `rows` rows of `cols` entries.
pub open spec fn has_shape<T>(m: Seq<Seq<T>>, rows: nat, cols: nat) -> bool {
    &&& m.len() == rows
    &&& forall|i: int| 0 <= i < m.len() ==> (#[trigger] m[i]).len() == cols
}

/// `n` copies of `zero`.
pub open spec fn zeros<T>(n: nat, zero: T) -> Seq<T> {
    Seq::new(n, |_j: int| zero)
}

/// A matrix of `rows` rows of `cols` copies of `zero`.
pub open spec fn zero_rows<T>(rows: nat, cols: nat, zero: T) -> Seq<Seq<T>> {
    Seq::new(rows, |_i: int| zeros(cols, zero))
}

/// Index of the last occurrence of `x` in `s`, if any.
pub open spec fn last_index_of<A>(s: Seq<A>, x: A) -> Option<int>
    decreases s.len(),
{
    if s.len() == 0 {
        None
    } else if s.last() == x {
        Some(s.len() - 1)
    } else {
        last_index_of(s.drop_last(), x)
    }
}

/// The unique strictly sorted sequence of rows holding the rows of `s`.
pub open spec fn sorted_keys(s: Set<Seq<IndexValue>>) -> Seq<Seq<IndexValue>> {
    choose|k: Seq<Seq<IndexValue>>| strictly_sorted(k) && k.to_set() == s
}

/// For each initial row, the reduced row it belongs to and its block key.
pub open spec fn origins(
    rows: Seq<Seq<IndexValue>>,
    kept: Seq<int>,
    positions: Seq<int>,
) -> Seq<(Seq<IndexValue>, Seq<IndexValue>)> {
    Seq::new(rows.len(), |o: int| (select(rows[o], kept), select(rows[o], positions)))
}

/// The block of a densified row for the reduced row `sample` and the block
/// key `key`: the values of the last initial row that has both, or zeros.
pub open spec fn densified_block<T>(
    old: Seq<Seq<T>>,
    origins: Seq<(Seq<IndexValue>, Seq<IndexValue>)>,
    sample: Seq<IndexValue>,
    key: Seq<IndexValue>,
    width: nat,
    zero: T,
) -> Seq<T> {
    match last_index_of(origins, (sample, key)) {
        Some(o) => old[o],
        None => zeros(width, zero),
    }
}

/// The densified matrix: one row per reduced row, made of one block per
/// block key, in the order of `keys`.
pub open spec fn densified_rows<T>(
    old: Seq<Seq<T>>,
    origins: Seq<(Seq<IndexValue>, Seq<IndexValue>)>,
    samples: Seq<Seq<IndexValue>>,
    keys: Seq<Seq<IndexValue>>,
    width: nat,
    zero: T,
) -> Seq<Seq<T>> {
    Seq::new(
        samples.len(),
        |r: int|
            Seq::new(
                keys.len(),
                |b: int| densified_block(old, origins, samples[r], keys[b], width, zero),
            ).flatten_alt(),
    )
}

/// The feature rows of a densified descriptor: for each block key in order,
/// the key followed by each initial feature row in order.
pub open spec fn block_features(
    keys: Seq<Seq<IndexValue>>,
    features: Seq<Seq<IndexValue>>,
) -> Seq<Seq<IndexValue>> {
    Seq::new(
        keys.len(),
        |b: int| Seq::new(features.len(), |f: int| keys[b] + features[f]),
    ).flatten_alt()
}

/// Concatenating `s.len()` sequences of length `n`.
pub proof fn lemma_flatten_alt_len<A>(s: Seq<Seq<A>>, n: nat)
    requires
        forall|i: int| 0 <= i < s.len() ==> (#[trigger] s[i]).len() == n,
    ensures
        s.flatten_alt().len() == s.len() * n,
    decreases s.len(),
{
    if s.len() > 0 {
        lemma_flatten_alt_len(s.drop_last(), n);
        assert((s.len() - 1) * n + n == s.len() * n) by (nonlinear_arith);
    }
}

/// Every feature row of a densified descriptor is a key followed by one of
/// the initial feature rows.
pub proof fn lemma_block_features_shape(
    keys: Seq<Seq<IndexValue>>,
    features: Seq<Seq<IndexValue>>,
    a: nat,
    c: nat,
)
    requires
        forall|i: int| 0 <= i < keys.len() ==> (#[trigger] keys[i]).len() == a,
        forall|i: int| 0 <= i < features.len() ==> (#[trigger] features[i]).len() == c,
    ensures
        block_features(keys, features).len() == keys.len() * features.len(),
        forall|i: int|
            0 <= i < block_features(keys, features).len() ==> (#[trigger] block_features(
                keys,
                features,
            )[i]).len() == a + c,
    decreases keys.len(),
{
    if keys.len() == 0 {
        assert(keys.len() * features.len() == 0);
    } else {
        let prefix = keys.drop_last();
        lemma_block_features_shape(prefix, features, a, c);
        let blocks = Seq::new(
            keys.len(),
            |b: int| Seq::new(features.len(), |f: int| keys[b] + features[f]),
        );
        assert(blocks.drop_last() =~= Seq::new(
            prefix.len(),
            |b: int| Seq::new(features.len(), |f: int| prefix[b] + features[f]),
        ));
        assert((keys.len() - 1) * features.len() + features.len() == keys.len() * features.len())
            by (nonlinear_arith);
        let p = block_features(prefix, features);
        assert(block_features(keys, features) == p + blocks.last());
        assert forall|i: int| 0 <= i < block_features(keys, features).len() implies (
        #[trigger] block_features(keys, features)[i]).len() == a + c by {
            if i >= p.len() {
                assert(block_features(keys, features)[i] == blocks.last()[i - p.len()]);
            } else {
                assert(block_features(keys, features)[i] == p[i]);
            }
        }
    }
}

/// Two strictly sorted sequences with the same elements are equal.
pub proof fn lemma_sorted_unique(a: Seq<Seq<IndexValue>>, b: Seq<Seq<IndexValue>>)
    requires
        strictly_sorted(a),
        strictly_sorted(b),
        a.to_set() == b.to_set(),
    ensures
        a == b,
    decreases a.len(),
{
    if a.len() == 0 {
        if b.len() > 0 {
            assert(b.to_set().contains(b[0]));
        }
        assert(a =~= b);
    } else {
        assert(a.to_set().contains(a[0]));
        assert(b.to_set().contains(a[0]));
        assert(b.len() > 0);
        assert(a.to_set().contains(b[0]));
        let i = choose|i: int| 0 <= i < a.len() && a[i] == b[0];
        let j = choose|j: int| 0 <= j < b.len() && b[j] == a[0];
        if a[0] != b[0] {
            assert(i > 0 && j > 0);
            assert(lex_lt_of(a, 0, i));
            assert(lex_lt_of(b, 0, j));
            lemma_lex_asymmetric(a[0], b[0]);
        }
        let a1 = a.drop_first();
        let b1 = b.drop_first();
        assert forall|x: Seq<IndexValue>| a1.to_set().contains(x) == b1.to_set().contains(x) by {
            if a1.contains(x) {
                let k = choose|k: int| 0 <= k < a1.len() && a1[k] == x;
                assert(a[k + 1] == x);
                assert(lex_lt_of(a, 0, k + 1));
                lemma_lex_irreflexive(x);
                assert(b.to_set().contains(x));
                let l = choose|l: int| 0 <= l < b.len() && b[l] == x;
                assert(l != 0);
                assert(b1[l - 1] == x);
            }
            if b1.contains(x) {
                let k = choose|k: int| 0 <= k < b1.len() && b1[k] == x;
                assert(b[k + 1] == x);
                assert(lex_lt_of(b, 0, k + 1));
                lemma_lex_irreflexive(x);
                assert(a.to_set().contains(x));
                let l = choose|l: int| 0 <= l < a.len() && a[l] == x;
                assert(l != 0);
                assert(a1[l - 1] == x);
            }
        }
        assert(a1.to_set() =~= b1.to_set());
        lemma_sorted_unique(a1, b1);
        assert(a =~= b) by {
            assert forall|k: int| 0 <= k < a.len() implies a[k] == b[k] by {
                if k > 0 {
                    assert(a[k] == a1[k - 1]);
                    assert(b[k] == b1[k - 1]);
                }
            }
        }
    }
}

spec fn lex_lt_of(s: Seq<Seq<IndexValue>>, i: int, j: int) -> bool {
    crate::order::lex_lt(s[i], s[j])
}

/// A strictly sorted sequence is the one `sorted_keys` describes.
pub proof fn lemma_sorted_keys(k: Seq<Seq<IndexValue>>)
    requires
        strictly_sorted(k),
    ensures
        sorted_keys(k.to_set()) == k,
{
    let c = sorted_keys(k.to_set());
    lemma_sorted_unique(c, k);
}

/// The distinct rows of `rows`, sorted.
pub fn sorted_rows(rows: &Vec<Vec<IndexValue>>) -> (r: Vec<Vec<IndexValue>>)
    ensures
        strictly_sorted(view_rows(r@)),
        view_rows(r@).to_set() == view_rows(rows@).to_set(),
        view_rows(r@) == sorted_keys(view_rows(rows@).to_set()),
{
    let mut r: Vec<Vec<IndexValue>> = Vec::new();
    let mut i: usize = 0;
    assert(view_rows(r@) =~= Seq::<Seq<IndexValue>>::empty());
    assert(view_rows(rows@).take(0) =~= Seq::<Seq<IndexValue>>::empty());
    while i < rows.len()
        invariant
            i <= rows.len(),
            strictly_sorted(view_rows(r@)),
            view_rows(r@).to_set() == view_rows(rows@).take(i as int).to_set(),
        decreases rows.len() - i,
    {
        insert_sorted(&mut r, rows[i].as_slice());
        proof {
            assert(view_rows(rows@).take(i + 1) =~= view_rows(rows@).take(i as int).push(
                rows@[i as int]@,
            ));
            view_rows(rows@).take(i as int).lemma_push_to_set_commute(rows@[i as int]@);
        }
        i = i + 1;
    }
    proof {
        assert(view_rows(rows@).take(i as int) =~= view_rows(rows@));
        lemma_sorted_keys(view_rows(r@));
    }
    r
}

/// Position of `key` among `keys`, if it is there.
pub fn key_position(keys: &Vec<Vec<IndexValue>>, key: &[IndexValue]) -> (r: Option<usize>)
    ensures
        r matches Some(i) ==> first_index_of(view_rows(keys@), key@) == Some(i as int),
        r is None ==> first_index_of(view_rows(keys@), key@) is None,
{
    let mut i: usize = 0;
    while i < keys.len()
        invariant
            i <= keys.len(),
            forall|j: int| 0 <= j < i ==> view_rows(keys@)[j] != key@,
        decreases keys.len() - i,
    {
        if crate::indexes::slices_equal(keys[i].as_slice(), key) {
            proof {
                lemma_first_index_of(view_rows(keys@), key@, i as int);
            }
            return Some(i);
        }
        i = i + 1;
    }
    proof {
        lemma_first_index_of_absent(view_rows(keys@), key@);
    }
    None
}

/// A matrix of `rows` rows of `cols` copies of `zero`.
pub fn zero_matrix<T: Copy>(rows: usize, cols: usize, zero: T) -> (r: Vec<Vec<T>>)
    ensures
        view_matrix(r@) == zero_rows(rows as nat, cols as nat, zero),
{
    let mut r: Vec<Vec<T>> = Vec::new();
    let mut i: usize = 0;
    while i < rows
        invariant
            i <= rows,
            view_matrix(r@) == zero_rows(i as nat, cols as nat, zero),
        decreases rows - i,
    {
        let mut row: Vec<T> = Vec::new();
        let mut j: usize = 0;
        while j < cols
            invariant
                j <= cols,
                row@ == zeros(j as nat, zero),
            decreases cols - j,
        {
            row.push(zero);
            j = j + 1;
            assert(row@ =~= zeros(j as nat, zero));
        }
        let ghost prev = view_matrix(r@);
        r.push(row);
        i = i + 1;
        assert(view_matrix(r@) =~= prev.push(zeros(cols as nat, zero)));
        assert(view_matrix(r@) =~= zero_rows(i as nat, cols as nat, zero));
    }
    r
}

/// The feature rows of a densified descriptor.
pub fn block_feature_rows(keys: &Vec<Vec<IndexValue>>, features: &Vec<Vec<IndexValue>>) -> (r: Vec<
    Vec<IndexValue>,
>)
    ensures
        view_rows(r@) == block_features(view_rows(keys@), view_rows(features@)),
{
    let ghost k = view_rows(keys@);
    let ghost f = view_rows(features@);
    let mut r: Vec<Vec<IndexValue>> = Vec::new();
    let mut b: usize = 0;
    assert(block_features(k.take(0), f) =~= Seq::<Seq<IndexValue>>::empty());
    while b < keys.len()
        invariant
            b <= keys.len(),
            k == view_rows(keys@),
            f == view_rows(features@),
            view_rows(r@) == block_features(k.take(b as int), f),
        decreases keys.len() - b,
    {
        let ghost start = view_rows(r@);
        let mut j: usize = 0;
        while j < features.len()
            invariant
                b < keys.len(),
                j <= features.len(),
                k == view_rows(keys@),
                f == view_rows(features@),
                view_rows(r@) == start + Seq::new(j as nat, |x: int| k[b as int] + f[x]),
            decreases features.len() - j,
        {
            let mut row: Vec<IndexValue> = vstd::slice::slice_to_vec(keys[b].as_slice());
            let mut x: usize = 0;
            while x < features[j].len()
                invariant
                    x <= features@[j as int]@.len(),
                    row@ == k[b as int] + f[j as int].take(x as int),
                    k == view_rows(keys@),
                    f == view_rows(features@),
                    b < keys.len(),
                    j < features.len(),
                decreases features[j as int]@.len() - x,
            {
                row.push(features[j][x]);
                x = x + 1;
                assert(row@ =~= k[b as int] + f[j as int].take(x as int));
            }
            assert(f[j as int].take(x as int) =~= f[j as int]);
            let ghost prev = view_rows(r@);
            r.push(row);
            assert(view_rows(r@) =~= prev.push(k[b as int] + f[j as int]));
            j = j + 1;
            assert(view_rows(r@) =~= start + Seq::new(j as nat, |x: int| k[b as int] + f[x]));
        }
        proof {
            let blocks = Seq::new(
                (b + 1) as nat,
                |c: int| Seq::new(f.len(), |x: int| k.take(b + 1)[c] + f[x]),
            );
            assert(blocks.drop_last() =~= Seq::new(
                b as nat,
                |c: int| Seq::new(f.len(), |x: int| k.take(b as int)[c] + f[x]),
            ));
            assert(blocks.last() =~= Seq::new(j as nat, |x: int| k[b as int] + f[x]));
        }
        b = b + 1;
    }
    assert(k.take(b as int) =~= k);
    r
}

/// Build the densified matrix from the rows of `old`: row `o` of `old` goes
/// to the reduced row `mapping[o].new_sample_i`, in the block of its key.
pub(crate) fn relocate<T: Copy>(
    old: &Vec<Vec<T>>,
    mapping: &Vec<DensifiedIndex>,
    samples: Ghost<Seq<Seq<IndexValue>>>,
    origins: Ghost<Seq<(Seq<IndexValue>, Seq<IndexValue>)>>,
    new_count: usize,
    keys: &Vec<Vec<IndexValue>>,
    width: usize,
    zero: T,
) -> (r: Vec<Vec<T>>)
    requires
        new_count == samples@.len(),
        samples@.no_duplicates(),
        strictly_sorted(view_rows(keys@)),
        mapping.len() == old.len(),
        origins@.len() == old.len(),
        forall|o: int| 0 <= o < old.len() ==> (#[trigger] old@[o])@.len() == width,
        forall|o: int|
            0 <= o < mapping.len() ==> {
                let m = #[trigger] mapping@[o];
                &&& m.new_sample_i < new_count
                &&& samples@[m.new_sample_i as int] == origins@[o].0
                &&& m.variables@ == origins@[o].1
            },
    ensures
        view_matrix(r@) == densified_rows(
            view_matrix(old@),
            origins@,
            samples@,
            view_rows(keys@),
            width as nat,
            zero,
        ),
{
    let ghost ks = view_rows(keys@);
    let n_keys = keys.len();
    // which initial row fills each block of each new row
    let mut source: Vec<Vec<Option<usize>>> = Vec::new();
    let mut r: usize = 0;
    while r < new_count
        invariant
            r <= new_count,
            n_keys == keys.len(),
            source.len() == r,
            forall|i: int| 0 <= i < r ==> (#[trigger] source@[i])@ == Seq::new(
                n_keys as nat,
                |_b: int| None::<usize>,
            ),
        decreases new_count - r,
    {
        let mut row: Vec<Option<usize>> = Vec::new();
        let mut b: usize = 0;
        while b < n_keys
            invariant
                b <= n_keys,
                row@ == Seq::new(b as nat, |_b: int| None::<usize>),
            decreases n_keys - b,
        {
            row.push(None);
            b = b + 1;
            assert(row@ =~= Seq::new(b as nat, |_b: int| None::<usize>));
        }
        source.push(row);
        r = r + 1;
    }
    let mut o: usize = 0;
    while o < mapping.len()
        invariant
            o <= mapping.len(),
            mapping.len() == old.len(),
            origins@.len() == old.len(),
            n_keys == keys.len(),
            ks == view_rows(keys@),
            strictly_sorted(ks),
            samples@.no_duplicates(),
            new_count == samples@.len(),
            source.len() == new_count,
            forall|o2: int|
                0 <= o2 < mapping.len() ==> {
                    let m = #[trigger] mapping@[o2];
                    &&& m.new_sample_i < new_count
                    &&& samples@[m.new_sample_i as int] == origins@[o2].0
                    &&& m.variables@ == origins@[o2].1
                },
            forall|i: int| 0 <= i < new_count ==> (#[trigger] source@[i])@.len() == n_keys,
            forall|i: int, b: int|
                0 <= i < new_count && 0 <= b < n_keys ==> as_opt_int(
                    #[trigger] source@[i]@[b],
                ) == last_index_of(origins@.take(o as int), (samples@[i], ks[b])),
        decreases mapping.len() - o,
    {
        let m = &mapping[o];
        let ghost taken = origins@.take(o as int);
        proof {
            assert(origins@.take(o + 1).drop_last() =~= taken);
            assert(origins@.take(o + 1).last() == origins@[o as int]);
        }
        match key_position(keys, m.variables.as_slice()) {
            Some(b) => {
                proof {
                    lemma_first_index_of_spec(ks, m.variables@);
                }
                let i = m.new_sample_i;
                let ghost before = source@;
                let row = &mut source[i];
                row.set(b, Some(o));
                proof {
                    assert forall|i2: int, b2: int|
                        0 <= i2 < new_count && 0 <= b2 < n_keys implies as_opt_int(
                        #[trigger] source@[i2]@[b2],
                    ) == last_index_of(origins@.take(o + 1), (samples@[i2], ks[b2])) by {
                        if i2 == i && b2 == b {
                        } else {
                            assert(source@[i2]@[b2] == before[i2]@[b2]);
                            if origins@[o as int] == (samples@[i2], ks[b2]) {
                                if i2 != i {
                                    assert(samples@[i2] == samples@[i as int]);
                                } else {
                                    assert(ks[b2] == ks[b as int]);
                                    if b2 < b {
                                        assert(crate::order::lex_lt(ks[b2], ks[b as int]));
                                    } else {
                                        assert(crate::order::lex_lt(ks[b as int], ks[b2]));
                                    }
                                    lemma_lex_irreflexive(ks[b2]);
                                }
                            }
                        }
                    }
                }
            },
            None => {
                proof {
                    lemma_first_index_of_spec(ks, m.variables@);
                    assert forall|i2: int, b2: int|
                        0 <= i2 < new_count && 0 <= b2 < n_keys implies as_opt_int(
                        #[trigger] source@[i2]@[b2],
                    ) == last_index_of(origins@.take(o + 1), (samples@[i2], ks[b2])) by {
                        if origins@[o as int] == (samples@[i2], ks[b2]) {
                            assert(ks[b2] == m.variables@);
                        }
                    }
                }
            },
        }
        o = o + 1;
    }
    assert(origins@.take(o as int) =~= origins@);

    let ghost om = view_matrix(old@);
    let mut result: Vec<Vec<T>> = Vec::new();
    let mut r: usize = 0;
    while r < new_count
        invariant
            r <= new_count,
            source.len() == new_count,
            n_keys == keys.len(),
            ks == view_rows(keys@),
            new_count == samples@.len(),
            om == view_matrix(old@),
            origins@.len() == old.len(),
            forall|o2: int| 0 <= o2 < old.len() ==> (#[trigger] old@[o2])@.len() == width,
            forall|i: int| 0 <= i < new_count ==> (#[trigger] source@[i])@.len() == n_keys,
            forall|i: int, b: int|
                0 <= i < new_count && 0 <= b < n_keys ==> as_opt_int(
                    #[trigger] source@[i]@[b],
                ) == last_index_of(origins@, (samples@[i], ks[b])),
            view_matrix(result@) == densified_rows(om, origins@, samples@, ks, width as nat, zero).take(
                r as int,
            ),
        decreases new_count - r,
    {
        let mut row: Vec<T> = Vec::new();
        let mut b: usize = 0;
        let ghost blocks = Seq::new(
            n_keys as nat,
            |c: int| densified_block(om, origins@, samples@[r as int], ks[c], width as nat, zero),
        );
        assert(blocks.take(0).flatten_alt() =~= Seq::<T>::empty());
        while b < n_keys
            invariant
                b <= n_keys,
                r < new_count,
                source.len() == new_count,
                n_keys == keys.len(),
                om == view_matrix(old@),
                origins@.len() == old.len(),
                forall|o2: int| 0 <= o2 < old.len() ==> (#[trigger] old@[o2])@.len() == width,
                forall|i: int| 0 <= i < new_count ==> (#[trigger] source@[i])@.len() == n_keys,
                forall|i: int, c: int|
                    0 <= i < new_count && 0 <= c < n_keys ==> as_opt_int(
                        #[trigger] source@[i]@[c],
                    ) == last_index_of(origins@, (samples@[i], ks[c])),
                blocks == Seq::new(
                    n_keys as nat,
                    |c: int| densified_block(om, origins@, samples@[r as int], ks[c], width as nat, zero),
                ),
                row@ == blocks.take(b as int).flatten_alt(),
            decreases n_keys - b,
        {
            let ghost start = row@;
            proof {
                lemma_last_index_of_bounds(origins@, (samples@[r as int], ks[b as int]));
            }
            match source[r][b] {
                Some(o) => {
                    let mut j: usize = 0;
                    while j < width
                        invariant
                            j <= width,
                            o < old.len(),
                            old@[o as int]@.len() == width,
                            row@ == start + old@[o as int]@.take(j as int),
                        decreases width - j,
                    {
                        row.push(old[o][j]);
                        j = j + 1;
                        assert(row@ =~= start + old@[o as int]@.take(j as int));
                    }
                    assert(old@[o as int]@.take(j as int) =~= old@[o as int]@);
                },
                None => {
                    let mut j: usize = 0;
                    while j < width
                        invariant
                            j <= width,
                            row@ == start + zeros(j as nat, zero),
                        decreases width - j,
                    {
                        row.push(zero);
                        j = j + 1;
                        assert(row@ =~= start + zeros(j as nat, zero));
                    }
                },
            }
            proof {
                assert(blocks.take(b + 1).drop_last() =~= blocks.take(b as int));
            }
            b = b + 1;
        }
        assert(blocks.take(b as int) =~= blocks);
        let ghost prev = view_matrix(result@);
        result.push(row);
        assert(view_matrix(result@) =~= prev.push(blocks.flatten_alt()));
        r = r + 1;
        assert(view_matrix(result@) =~= densified_rows(
            om,
            origins@,
            samples@,
            ks,
            width as nat,
            zero,
        ).take(r as int));
    }
    assert(densified_rows(om, origins@, samples@, ks, width as nat, zero).take(r as int)
        =~= densified_rows(om, origins@, samples@, ks, width as nat, zero));
    result
}

/// An optional position, as an optional integer.
pub open spec fn as_opt_int(x: Option<usize>) -> Option<int> {
    match x {
        Some(i) => Some(i as int),
        None => None,
    }
}

pub proof fn lemma_last_index_of_bounds<A>(s: Seq<A>, x: A)
    ensures
        last_index_of(s, x) matches Some(i) ==> 0 <= i < s.len() && s[i] == x,
    decreases s.len(),
{
    if s.len() > 0 && s.last() != x {
        lemma_last_index_of_bounds(s.drop_last(), x);
    }
}

/// The sum of the weights of the entries of `s`.
pub open spec fn weight<T>(s: Seq<T>, w: spec_fn(T) -> int) -> int
    decreases s.len(),
{
    if s.len() == 0 {
        0
    } else {
        weight(s.drop_last(), w) + w(s.last())
    }
}

/// The sum of the weights of all the entries of a matrix.
pub open spec fn total_weight<T>(m: Seq<Seq<T>>, w: spec_fn(T) -> int) -> int
    decreases m.len(),
{
    if m.len() == 0 {
        0
    } else {
        total_weight(m.drop_last(), w) + weight(m.last(), w)
    }
}

proof fn lemma_weight_concat<T>(a: Seq<T>, b: Seq<T>, w: spec_fn(T) -> int)
    ensures
        weight(a + b, w) == weight(a, w) + weight(b, w),
    decreases b.len(),
{
    if b.len() > 0 {
        assert((a + b).drop_last() =~= a + b.drop_last());
        lemma_weight_concat(a, b.drop_last(), w);
    } else {
        assert(a + b =~= a);
    }
}

proof fn lemma_weight_flatten<T>(m: Seq<Seq<T>>, w: spec_fn(T) -> int)
    ensures
        weight(m.flatten_alt(), w) == total_weight(m, w),
    decreases m.len(),
{
    if m.len() > 0 {
        lemma_weight_flatten(m.drop_last(), w);
        lemma_weight_concat(m.drop_last().flatten_alt(), m.last(), w);
    }
}

proof fn lemma_weight_zeros<T>(n: nat, zero: T, w: spec_fn(T) -> int)
    requires
        w(zero) == 0,
    ensures
        weight(zeros(n, zero), w) == 0,
    decreases n,
{
    if n > 0 {
        assert(zeros(n, zero).drop_last() =~= zeros((n - 1) as nat, zero));
        lemma_weight_zeros((n - 1) as nat, zero, w);
    }
}

proof fn lemma_total_weight_update<T>(m: Seq<Seq<T>>, k: int, x: Seq<T>, w: spec_fn(T) -> int)
    requires
        0 <= k < m.len(),
    ensures
        total_weight(m.update(k, x), w) == total_weight(m, w) - weight(m[k], w) + weight(x, w),
    decreases m.len(),
{
    if k < m.len() - 1 {
        assert(m.update(k, x).drop_last() =~= m.drop_last().update(k, x));
        lemma_total_weight_update(m.drop_last(), k, x, w);
    } else {
        assert(m.update(k, x).drop_last() =~= m.drop_last());
    }
}

/// Densifying moves values without adding or losing any: when the origins
/// are all different, each with its reduced row among `samples` and its key
/// among `keys`, the densified rows carry the same total weight as the
/// initial ones, for any weight that gives nothing to `zero`.
pub proof fn lemma_densified_total<T>(
    old: Seq<Seq<T>>,
    origins: Seq<(Seq<IndexValue>, Seq<IndexValue>)>,
    samples: Seq<Seq<IndexValue>>,
    keys: Seq<Seq<IndexValue>>,
    width: nat,
    zero: T,
    w: spec_fn(T) -> int,
)
    requires
        origins.len() == old.len(),
        origins.no_duplicates(),
        samples.no_duplicates(),
        keys.no_duplicates(),
        forall|o: int|
            0 <= o < origins.len() ==> samples.contains((#[trigger] origins[o]).0) && keys.contains(
                origins[o].1,
            ),
        w(zero) == 0,
    ensures
        total_weight(densified_rows(old, origins, samples, keys, width, zero), w) == total_weight(
            old,
            w,
        ),
    decreases old.len(),
{
    let d = densified_rows(old, origins, samples, keys, width, zero);
    if old.len() == 0 {
        assert forall|r: int| 0 <= r < d.len() implies weight(#[trigger] d[r], w) == 0 by {
            let blocks = Seq::new(
                keys.len(),
                |b: int| densified_block(old, origins, samples[r], keys[b], width, zero),
            );
            lemma_weight_flatten(blocks, w);
            lemma_total_weight_blocks_zero(blocks, width, zero, w);
        }
        lemma_total_weight_zero_rows(d, w);
    } else {
        let n = old.len() - 1;
        let old1 = old.drop_last();
        let origins1 = origins.drop_last();
        assert forall|a: int, b: int| 0 <= a < b < origins1.len() implies origins1[a] != origins1[b] by {
            assert(origins[a] != origins[b]);
        }
        assert forall|o: int| 0 <= o < origins1.len() implies samples.contains(
            (#[trigger] origins1[o]).0,
        ) && keys.contains(origins1[o].1) by {
            assert(origins1[o] == origins[o]);
        }
        lemma_densified_total(old1, origins1, samples, keys, width, zero, w);
        let d1 = densified_rows(old1, origins1, samples, keys, width, zero);
        let target = origins[n];
        let rs = choose|r: int| 0 <= r < samples.len() && samples[r] == target.0;
        let bs = choose|b: int| 0 <= b < keys.len() && keys[b] == target.1;
        assert(!origins1.contains(target)) by {
            if origins1.contains(target) {
                let o = choose|o: int| 0 <= o < origins1.len() && origins1[o] == target;
                assert(origins[o] == origins[n]);
            }
        }
        lemma_last_index_of_absent(origins1, target);
        let blocks1 = Seq::new(
            keys.len(),
            |b: int| densified_block(old1, origins1, samples[rs], keys[b], width, zero),
        );
        let blocks = Seq::new(
            keys.len(),
            |b: int| densified_block(old, origins, samples[rs], keys[b], width, zero),
        );
        assert(blocks =~= blocks1.update(bs, old[n])) by {
            assert forall|b: int| 0 <= b < keys.len() && b != bs implies blocks[b] == blocks1[b] by {
                assert(keys[b] != keys[bs]);
                lemma_last_index_of_prefix(origins, (samples[rs], keys[b]));
                lemma_last_index_of_bounds(origins1, (samples[rs], keys[b]));
            }
        }
        assert(d =~= d1.update(rs, blocks.flatten_alt())) by {
            assert forall|r: int| 0 <= r < samples.len() && r != rs implies d[r] == d1[r] by {
                assert(samples[r] != samples[rs]);
                let br = Seq::new(
                    keys.len(),
                    |b: int| densified_block(old, origins, samples[r], keys[b], width, zero),
                );
                let br1 = Seq::new(
                    keys.len(),
                    |b: int| densified_block(old1, origins1, samples[r], keys[b], width, zero),
                );
                assert forall|b: int| 0 <= b < keys.len() implies br[b] == br1[b] by {
                    lemma_last_index_of_prefix(origins, (samples[r], keys[b]));
                    lemma_last_index_of_bounds(origins1, (samples[r], keys[b]));
                }
                assert(br =~= br1);
            }
        }
        lemma_total_weight_update(d1, rs, blocks.flatten_alt(), w);
        lemma_weight_flatten(blocks, w);
        lemma_weight_flatten(blocks1, w);
        lemma_total_weight_update(blocks1, bs, old[n], w);
        lemma_weight_zeros(width, zero, w);
    }
}

proof fn lemma_total_weight_blocks_zero<T>(
    blocks: Seq<Seq<T>>,
    width: nat,
    zero: T,
    w: spec_fn(T) -> int,
)
    requires
        w(zero) == 0,
        forall|b: int| 0 <= b < blocks.len() ==> #[trigger] blocks[b] == zeros(width, zero),
    ensures
        total_weight(blocks, w) == 0,
    decreases blocks.len(),
{
    if blocks.len() > 0 {
        lemma_total_weight_blocks_zero(blocks.drop_last(), width, zero, w);
        lemma_weight_zeros(width, zero, w);
    }
}

proof fn lemma_total_weight_zero_rows<T>(m: Seq<Seq<T>>, w: spec_fn(T) -> int)
    requires
        forall|r: int| 0 <= r < m.len() ==> weight(#[trigger] m[r], w) == 0,
    ensures
        total_weight(m, w) == 0,
    decreases m.len(),
{
    if m.len() > 0 {
        lemma_total_weight_zero_rows(m.drop_last(), w);
    }
}

proof fn lemma_last_index_of_absent<A>(s: Seq<A>, x: A)
    requires
        !s.contains(x),
    ensures
        last_index_of(s, x) is None,
    decreases s.len(),
{
    if s.len() > 0 {
        assert(s.last() != x);
        if s.drop_last().contains(x) {
            let i = choose|i: int| 0 <= i < s.drop_last().len() && s.drop_last()[i] == x;
            assert(s[i] == x);
        }
        lemma_last_index_of_absent(s.drop_last(), x);
    }
}

/// When `x` is not the last element, its last occurrence is in the prefix.
proof fn lemma_last_index_of_prefix<A>(s: Seq<A>, x: A)
    requires
        s.len() > 0,
        s.last() != x,
    ensures
        last_index_of(s, x) == last_index_of(s.drop_last(), x),
{
}

/// The keys of `keys` that are not among `requested`, in order.
pub open spec fn unrequested(
    keys: Seq<Seq<IndexValue>>,
    requested: Seq<Seq<IndexValue>>,
) -> Seq<Seq<IndexValue>>
    decreases keys.len(),
{
    if keys.len() == 0 {
        Seq::empty()
    } else {
        let prefix = unrequested(keys.drop_last(), requested);
        if requested.contains(keys.last()) {
            prefix
        } else {
            prefix.push(keys.last())
        }
    }
}

/// The keys of `keys` that are not among `requested`, in order: the block
/// keys that a densification with `requested` keys leaves out.
pub fn unrequested_keys(keys: &Vec<Vec<IndexValue>>, requested: &Vec<Vec<IndexValue>>) -> (r: Vec<
    Vec<IndexValue>,
>)
    ensures
        view_rows(r@) == unrequested(view_rows(keys@), view_rows(requested@)),
{
    let ghost ks = view_rows(keys@);
    let mut r: Vec<Vec<IndexValue>> = Vec::new();
    let mut i: usize = 0;
    assert(ks.take(0) =~= Seq::<Seq<IndexValue>>::empty());
    while i < keys.len()
        invariant
            i <= keys.len(),
            ks == view_rows(keys@),
            view_rows(r@) == unrequested(ks.take(i as int), view_rows(requested@)),
        decreases keys.len() - i,
    {
        proof {
            assert(ks.take(i + 1).drop_last() =~= ks.take(i as int));
            lemma_first_index_of_spec(view_rows(requested@), ks[i as int]);
        }
        if key_position(requested, keys[i].as_slice()).is_none() {
            let ghost prev = view_rows(r@);
            r.push(vstd::slice::slice_to_vec(keys[i].as_slice()));
            assert(view_rows(r@) =~= prev.push(ks[i as int]));
        }
        i = i + 1;
    }
    assert(ks.take(i as int) =~= ks);
    r
}

} // verus!
