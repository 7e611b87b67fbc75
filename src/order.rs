use vstd::prelude::*;

use crate::indexes::{view_rows, IndexValue};

verus! {

/// Lexicographic order on rows of index values: the first differing value
/// decides, and a proper prefix comes first.
pub open spec fn lex_lt(a: Seq<IndexValue>, b: Seq<IndexValue>) -> bool
    decreases a.len(),
{
    if a.len() == 0 {
        b.len() > 0
    } else if b.len() == 0 {
        false
    } else if a[0] < b[0] {
        true
    } else if a[0] > b[0] {
        false
    } else {
        lex_lt(a.drop_first(), b.drop_first())
    }
}

/// Rows in strictly increasing lexicographic order, hence all distinct.
pub open spec fn strictly_sorted(s: Seq<Seq<IndexValue>>) -> bool {
    forall|i: int, j: int| 0 <= i < j < s.len() ==> lex_lt(#[trigger] s[i], #[trigger] s[j])
}

pub proof fn lemma_lex_irreflexive(a: Seq<IndexValue>)
    ensures
        !lex_lt(a, a),
    decreases a.len(),
{
    if a.len() > 0 {
        lemma_lex_irreflexive(a.drop_first());
    }
}

pub proof fn lemma_lex_transitive(a: Seq<IndexValue>, b: Seq<IndexValue>, c: Seq<IndexValue>)
    requires
        lex_lt(a, b),
        lex_lt(b, c),
    ensures
        lex_lt(a, c),
    decreases a.len(),
{
    if a.len() > 0 && b.len() > 0 && c.len() > 0 && a[0] == b[0] && b[0] == c[0] {
        lemma_lex_transitive(a.drop_first(), b.drop_first(), c.drop_first());
    }
}

pub proof fn lemma_lex_total(a: Seq<IndexValue>, b: Seq<IndexValue>)
    requires
        a != b,
    ensures
        lex_lt(a, b) || lex_lt(b, a),
    decreases a.len(),
{
    if a.len() > 0 && b.len() > 0 && a[0] == b[0] {
        if a.drop_first() == b.drop_first() {
            assert(a =~= seq![a[0]] + a.drop_first());
            assert(b =~= seq![b[0]] + b.drop_first());
        }
        lemma_lex_total(a.drop_first(), b.drop_first());
    } else if a.len() == 0 && b.len() == 0 {
        assert(a =~= b);
    }
}

pub proof fn lemma_lex_asymmetric(a: Seq<IndexValue>, b: Seq<IndexValue>)
    requires
        lex_lt(a, b),
    ensures
        !lex_lt(b, a),
{
    if lex_lt(b, a) {
        lemma_lex_transitive(a, b, a);
        lemma_lex_irreflexive(a);
    }
}

/// Compare two rows lexicographically.
pub fn lex_less(a: &[IndexValue], b: &[IndexValue]) -> (r: bool)
    ensures
        r == lex_lt(a@, b@),
{
    let mut i: usize = 0;
    assert(a@.skip(0) =~= a@);
    assert(b@.skip(0) =~= b@);
    while i < a.len() && i < b.len()
        invariant
            i <= a@.len(),
            i <= b@.len(),
            lex_lt(a@, b@) == lex_lt(a@.skip(i as int), b@.skip(i as int)),
        decreases a.len() - i,
    {
        if a[i] < b[i] {
            return true;
        }
        if a[i] > b[i] {
            return false;
        }
        assert(a@.skip(i as int).drop_first() =~= a@.skip(i + 1 as int));
        assert(b@.skip(i as int).drop_first() =~= b@.skip(i + 1 as int));
        i = i + 1;
    }
    i < b.len()
}

/// Add `key` to a strictly sorted vector of rows, keeping it strictly
/// sorted; nothing changes when the key is already there.
pub fn insert_sorted(keys: &mut Vec<Vec<IndexValue>>, key: &[IndexValue])
    requires
        strictly_sorted(view_rows(old(keys)@)),
    ensures
        strictly_sorted(view_rows(final(keys)@)),
        view_rows(final(keys)@).to_set() == view_rows(old(keys)@).to_set().insert(key@),
{
    let ghost old_rows = view_rows(keys@);
    let mut p: usize = 0;
    while p < keys.len() && lex_less(keys[p].as_slice(), key)
        invariant
            p <= keys@.len(),
            keys@ == old(keys)@,
            old_rows == view_rows(keys@),
            forall|i: int| 0 <= i < p ==> lex_lt(#[trigger] old_rows[i], key@),
        decreases keys.len() - p,
    {
        p = p + 1;
    }
    if p < keys.len() && !lex_less(key, keys[p].as_slice()) {
        proof {
            if old_rows[p as int] != key@ {
                lemma_lex_total(old_rows[p as int], key@);
            }
            assert(old_rows[p as int] == key@);
            assert(old_rows.to_set().insert(key@) =~= old_rows.to_set());
        }
        return;
    }
    proof {
        if p < old_rows.len() {
            assert(lex_lt(key@, old_rows[p as int]));
        }
    }
    keys.insert(p, vstd::slice::slice_to_vec(key));
    let ghost new_rows = view_rows(keys@);
    proof {
        assert(new_rows =~= old_rows.insert(p as int, key@));
        assert forall|i: int, j: int| 0 <= i < j < new_rows.len() implies lex_lt(
            #[trigger] new_rows[i],
            #[trigger] new_rows[j],
        ) by {
            if j < p {
                assert(lex_lt(old_rows[i], old_rows[j]));
            } else if j == p {
            } else if i < p {
                assert(lex_lt(old_rows[i], key@));
                assert(lex_lt(key@, old_rows[p as int]));
                if j - 1 > p {
                    assert(lex_lt(old_rows[p as int], old_rows[j - 1]));
                    lemma_lex_transitive(key@, old_rows[p as int], old_rows[j - 1]);
                }
                lemma_lex_transitive(old_rows[i], key@, old_rows[j - 1]);
            } else if i == p {
                if j - 1 > p {
                    assert(lex_lt(old_rows[p as int], old_rows[j - 1]));
                    lemma_lex_transitive(key@, old_rows[p as int], old_rows[j - 1]);
                }
            } else {
                assert(lex_lt(old_rows[i - 1], old_rows[j - 1]));
            }
        }
        assert forall|x: Seq<IndexValue>| new_rows.to_set().contains(x) == old_rows.to_set().insert(
            key@,
        ).contains(x) by {
            if new_rows.contains(x) {
                let k = choose|k: int| 0 <= k < new_rows.len() && new_rows[k] == x;
                if k < p {
                    assert(old_rows[k] == x);
                } else if k > p {
                    assert(old_rows[k - 1] == x);
                }
            }
            if old_rows.contains(x) {
                let k = choose|k: int| 0 <= k < old_rows.len() && old_rows[k] == x;
                if k < p {
                    assert(new_rows[k] == x);
                } else {
                    assert(new_rows[k + 1] == x);
                }
            }
            if x == key@ {
                assert(new_rows[p as int] == x);
            }
        }
        assert(new_rows.to_set() =~= old_rows.to_set().insert(key@));
    }
}

} // verus!
