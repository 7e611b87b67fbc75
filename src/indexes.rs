use vstd::prelude::*;

verus! {

/// The value taken by one column of an index row.
pub type IndexValue = i32;

/// The views of a vector of rows.
pub open spec fn view_rows(v: Seq<Vec<IndexValue>>) -> Seq<Seq<IndexValue>> {
    v.map_values(|r: Vec<IndexValue>| r@)
}

/// The views of a vector of strings.
pub open spec fn view_strings(v: Seq<String>) -> Seq<Seq<char>> {
    v.map_values(|s: String| s@)
}

/// An ASCII decimal digit.
pub open spec fn is_digit_char(c: char) -> bool {
    '0' <= c && c <= '9'
}

/// A character allowed anywhere in an identifier.
pub open spec fn is_ident_char(c: char) -> bool {
    is_digit_char(c) || ('a' <= c && c <= 'z') || ('A' <= c && c <= 'Z') || c == '_'
}

/// Identifiers are non-empty, do not start with a digit, and only contain
/// ASCII letters, digits and underscores.
pub open spec fn valid_ident(s: Seq<char>) -> bool {
    &&& s.len() > 0
    &&& !is_digit_char(s[0])
    &&& forall|i: int| 0 <= i < s.len() ==> is_ident_char(#[trigger] s[i])
}

/// All the names are valid identifiers.
pub open spec fn valid_names(names: Seq<Seq<char>>) -> bool {
    forall|i: int| 0 <= i < names.len() ==> valid_ident(#[trigger] names[i])
}

/// Rows that all have `size` values, with no row at all when `size` is zero.
pub open spec fn well_shaped(rows: Seq<Seq<IndexValue>>, size: nat) -> bool {
    &&& forall|i: int| 0 <= i < rows.len() ==> (#[trigger] rows[i]).len() == size
    &&& size == 0 ==> rows.len() == 0
}

/// Index of the first occurrence of `x` in `s`, if any.
pub open spec fn first_index_of<A>(s: Seq<A>, x: A) -> Option<int>
    decreases s.len(),
{
    if s.len() == 0 {
        None
    } else if s[0] == x {
        Some(0)
    } else {
        match first_index_of(s.drop_first(), x) {
            Some(i) => Some(i + 1),
            None => None,
        }
    }
}

/// Check whether `name` is a valid identifier.
pub fn is_valid_ident(name: &str) -> (r: bool)
    ensures
        r == valid_ident(name@),
{
    let n = name.unicode_len();
    if n == 0 {
        return false;
    }
    let first = name.get_char(0);
    if '0' <= first && first <= '9' {
        return false;
    }
    let mut i: usize = 0;
    while i < n
        invariant
            n == name@.len(),
            i <= n,
            forall|j: int| 0 <= j < i ==> is_ident_char(#[trigger] name@[j]),
        decreases n - i,
    {
        let c = name.get_char(i);
        let ok = ('0' <= c && c <= '9') || ('a' <= c && c <= 'z') || ('A' <= c && c <= 'Z')
            || c == '_';
        if !ok {
            return false;
        }
        i = i + 1;
    }
    true
}

fn copy_names(names: &Vec<String>) -> (r: Vec<String>)
    ensures
        view_strings(r@) == view_strings(names@),
{
    let mut r: Vec<String> = Vec::new();
    let mut i: usize = 0;
    while i < names.len()
        invariant
            i <= names.len(),
            r.len() == i,
            forall|j: int| 0 <= j < i ==> (#[trigger] r@[j])@ == names@[j]@,
        decreases names.len() - i,
    {
        r.push(names[i].clone());
        i = i + 1;
    }
    assert(view_strings(r@) =~= view_strings(names@));
    r
}

/// Incremental construction of an `Indexes`: rows are appended one after
/// the other, then the builder is sealed with `finish`.
pub struct IndexesBuilder {
    names: Vec<String>,
    values: Vec<Vec<IndexValue>>,
}

impl IndexesBuilder {
    /// Valid column names, and rows of the right size.
    pub open spec fn wf(&self) -> bool {
        &&& valid_names(self.spec_names())
        &&& well_shaped(self.spec_rows(), self.spec_names().len())
    }

    /// Names of the columns.
    pub closed spec fn spec_names(&self) -> Seq<Seq<char>> {
        view_strings(self.names@)
    }

    /// Rows added so far, in insertion order.
    pub closed spec fn spec_rows(&self) -> Seq<Seq<IndexValue>> {
        view_rows(self.values@)
    }

    /// Create a new empty builder with the given column `names`, all of
    /// which must be valid identifiers.
    pub fn new(names: Vec<&str>) -> (r: IndexesBuilder)
        requires
            forall|i: int| 0 <= i < names.len() ==> valid_ident(#[trigger] names@[i]@),
        ensures
            r.wf(),
            r.spec_names() == names@.map_values(|s: &str| s@),
            r.spec_rows() == Seq::<Seq<IndexValue>>::empty(),
    {
        let mut owned: Vec<String> = Vec::new();
        let mut i: usize = 0;
        while i < names.len()
            invariant
                i <= names.len(),
                owned.len() == i,
                forall|j: int| 0 <= j < i ==> (#[trigger] owned@[j])@ == names@[j]@,
            decreases names.len() - i,
        {
            owned.push(names[i].to_owned());
            i = i + 1;
        }
        assert(view_strings(owned@) =~= names@.map_values(|s: &str| s@));
        let r = IndexesBuilder { names: owned, values: Vec::new() };
        assert(r.spec_rows() =~= Seq::<Seq<IndexValue>>::empty());
        r
    }

    /// Number of columns of a single row.
    pub fn size(&self) -> (r: usize)
        ensures
            r == self.spec_names().len(),
    {
        self.names.len()
    }

    /// Append a row, which must have one value per column. With no column
    /// at all, there is nothing to record.
    pub fn add(&mut self, values: &[IndexValue])
        requires
            old(self).wf(),
            values@.len() == old(self).spec_names().len(),
        ensures
            final(self).wf(),
            final(self).spec_names() == old(self).spec_names(),
            final(self).spec_rows() == if values@.len() == 0 {
                old(self).spec_rows()
            } else {
                old(self).spec_rows().push(values@)
            },
    {
        if values.len() > 0 {
            let row = vstd::slice::slice_to_vec(values);
            self.values.push(row);
            assert(self.spec_rows() =~= old(self).spec_rows().push(values@));
        }
    }

    /// Seal the builder.
    pub fn finish(self) -> (r: Indexes)
        requires
            self.wf(),
        ensures
            r.spec_names() == self.spec_names(),
            r.spec_rows() == self.spec_rows(),
    {
        Indexes { names: self.names, values: self.values }
    }
}

/// An immutable table of index rows with named columns. Rows keep the order
/// in which they were added and need not be unique.
#[derive(Debug)]
pub struct Indexes {
    names: Vec<String>,
    values: Vec<Vec<IndexValue>>,
}

impl Indexes {
    /// Every `Indexes` has valid column names and rows of the right size.
    #[verifier::type_invariant]
    pub open spec fn inv(self) -> bool {
        &&& valid_names(self.spec_names())
        &&& well_shaped(self.spec_rows(), self.spec_names().len())
    }

    /// Names of the columns.
    pub closed spec fn spec_names(&self) -> Seq<Seq<char>> {
        view_strings(self.names@)
    }

    /// The rows, in insertion order.
    pub closed spec fn spec_rows(&self) -> Seq<Seq<IndexValue>> {
        view_rows(self.values@)
    }

    /// An index table with no column and no row.
    pub fn empty() -> (r: Indexes)
        ensures
            r.spec_names() == Seq::<Seq<char>>::empty(),
            r.spec_rows() == Seq::<Seq<IndexValue>>::empty(),
    {
        let r = Indexes { names: Vec::new(), values: Vec::new() };
        assert(r.spec_names() =~= Seq::<Seq<char>>::empty());
        assert(r.spec_rows() =~= Seq::<Seq<IndexValue>>::empty());
        r
    }

    /// Build an index table from its names and rows.
    pub(crate) fn from_parts(names: Vec<String>, values: Vec<Vec<IndexValue>>) -> (r: Indexes)
        requires
            valid_names(view_strings(names@)),
            well_shaped(view_rows(values@), names.len() as nat),
        ensures
            r.spec_names() == view_strings(names@),
            r.spec_rows() == view_rows(values@),
    {
        Indexes { names, values }
    }

    /// Number of columns.
    pub fn size(&self) -> (r: usize)
        ensures
            r == self.spec_names().len(),
    {
        self.names.len()
    }

    /// All the rows.
    pub(crate) fn rows(&self) -> (r: &Vec<Vec<IndexValue>>)
        ensures
            view_rows(r@) == self.spec_rows(),
    {
        &self.values
    }

    /// Number of rows.
    pub fn count(&self) -> (r: usize)
        ensures
            r == self.spec_rows().len(),
    {
        self.values.len()
    }

    /// Names of the columns.
    pub fn names(&self) -> (r: Vec<String>)
        ensures
            view_strings(r@) == self.spec_names(),
    {
        copy_names(&self.names)
    }

    /// The row at position `linear`.
    pub fn value(&self, linear: usize) -> (r: &[IndexValue])
        requires
            linear < self.spec_rows().len(),
        ensures
            r@ == self.spec_rows()[linear as int],
    {
        self.values[linear].as_slice()
    }

    /// Position of the first row equal to `row`, if any.
    pub fn position(&self, row: &[IndexValue]) -> (r: Option<usize>)
        ensures
            r matches Some(i) ==> first_index_of(self.spec_rows(), row@) == Some(i as int),
            r is None ==> first_index_of(self.spec_rows(), row@) is None,
    {
        let mut i: usize = 0;
        while i < self.values.len()
            invariant
                i <= self.values.len(),
                forall|j: int| 0 <= j < i ==> self.spec_rows()[j] != row@,
            decreases self.values.len() - i,
        {
            if slices_equal(self.values[i].as_slice(), row) {
                proof {
                    lemma_first_index_of(self.spec_rows(), row@, i as int);
                }
                return Some(i);
            }
            i = i + 1;
        }
        proof {
            lemma_first_index_of_absent(self.spec_rows(), row@);
        }
        None
    }

    /// Iterate over the rows, in insertion order.
    pub fn iter(&self) -> (r: Iter<'_>)
        ensures
            r.remaining() == self.spec_rows(),
    {
        let r = Iter { indexes: self, next: 0 };
        assert(r.remaining() =~= self.spec_rows());
        r
    }
}

impl PartialEq for Indexes {
    fn eq(&self, other: &Indexes) -> (r: bool)
        ensures
            r == (self.spec_names() == other.spec_names() && self.spec_rows()
                == other.spec_rows()),
    {
        names_equal(&self.names, &other.names) && rows_equal(&self.values, &other.values)
    }
}

impl vstd::std_specs::cmp::PartialEqSpecImpl for Indexes {
    open spec fn obeys_eq_spec() -> bool {
        true
    }

    open spec fn eq_spec(&self, other: &Indexes) -> bool {
        self.spec_names() == other.spec_names() && self.spec_rows() == other.spec_rows()
    }
}

/// Position `i` holds the first occurrence of `x` in `s`.
pub proof fn lemma_first_index_of<A>(s: Seq<A>, x: A, i: int)
    requires
        0 <= i < s.len(),
        s[i] == x,
        forall|j: int| 0 <= j < i ==> s[j] != x,
    ensures
        first_index_of(s, x) == Some(i),
    decreases s.len(),
{
    if i > 0 {
        assert forall|j: int| 0 <= j < i - 1 implies s.drop_first()[j] != x by {
            assert(s.drop_first()[j] == s[j + 1]);
        }
        lemma_first_index_of(s.drop_first(), x, i - 1);
    }
}

/// `x` has no first occurrence when it does not occur.
pub proof fn lemma_first_index_of_absent<A>(s: Seq<A>, x: A)
    requires
        forall|j: int| 0 <= j < s.len() ==> s[j] != x,
    ensures
        first_index_of(s, x) is None,
    decreases s.len(),
{
    if s.len() > 0 {
        assert forall|j: int| 0 <= j < s.len() - 1 implies s.drop_first()[j] != x by {
            assert(s.drop_first()[j] == s[j + 1]);
        }
        lemma_first_index_of_absent(s.drop_first(), x);
    }
}

/// What a first occurrence is.
pub proof fn lemma_first_index_of_spec<A>(s: Seq<A>, x: A)
    ensures
        first_index_of(s, x) matches Some(i) ==> 0 <= i < s.len() && s[i] == x && forall|j: int|
            0 <= j < i ==> s[j] != x,
        first_index_of(s, x) is None ==> !s.contains(x),
    decreases s.len(),
{
    if s.len() > 0 {
        lemma_first_index_of_spec(s.drop_first(), x);
        if s[0] != x {
            if first_index_of(s, x) is None {
                assert forall|j: int| 0 <= j < s.len() implies s[j] != x by {
                    if j > 0 {
                        assert(s.drop_first()[j - 1] == s[j]);
                        assert(!s.drop_first().contains(x));
                    }
                }
            } else {
                let i = first_index_of(s, x)->Some_0;
                assert forall|j: int| 0 <= j < i implies s[j] != x by {
                    if j > 0 {
                        assert(s.drop_first()[j - 1] == s[j]);
                    }
                }
            }
        }
    }
}

pub(crate) fn slices_equal(a: &[IndexValue], b: &[IndexValue]) -> (r: bool)
    ensures
        r == (a@ == b@),
{
    if a.len() != b.len() {
        return false;
    }
    let mut i: usize = 0;
    while i < a.len()
        invariant
            a@.len() == b@.len(),
            i <= a.len(),
            forall|j: int| 0 <= j < i ==> a@[j] == b@[j],
        decreases a.len() - i,
    {
        if a[i] != b[i] {
            return false;
        }
        i = i + 1;
    }
    assert(a@ =~= b@);
    true
}

fn names_equal(a: &Vec<String>, b: &Vec<String>) -> (r: bool)
    ensures
        r == (view_strings(a@) == view_strings(b@)),
{
    if a.len() != b.len() {
        assert(view_strings(a@).len() != view_strings(b@).len());
        return false;
    }
    let mut i: usize = 0;
    while i < a.len()
        invariant
            a.len() == b.len(),
            i <= a.len(),
            forall|j: int| 0 <= j < i ==> a@[j]@ == b@[j]@,
        decreases a.len() - i,
    {
        if a[i] != b[i] {
            assert(view_strings(a@)[i as int] != view_strings(b@)[i as int]);
            return false;
        }
        i = i + 1;
    }
    assert(view_strings(a@) =~= view_strings(b@));
    true
}

fn rows_equal(a: &Vec<Vec<IndexValue>>, b: &Vec<Vec<IndexValue>>) -> (r: bool)
    ensures
        r == (view_rows(a@) == view_rows(b@)),
{
    if a.len() != b.len() {
        assert(view_rows(a@).len() != view_rows(b@).len());
        return false;
    }
    let mut i: usize = 0;
    while i < a.len()
        invariant
            a.len() == b.len(),
            i <= a.len(),
            forall|j: int| 0 <= j < i ==> a@[j]@ == b@[j]@,
        decreases a.len() - i,
    {
        if !slices_equal(a[i].as_slice(), b[i].as_slice()) {
            assert(view_rows(a@)[i as int] != view_rows(b@)[i as int]);
            return false;
        }
        i = i + 1;
    }
    assert(view_rows(a@) =~= view_rows(b@));
    true
}

/// Walks the rows of an `Indexes` in order.
pub struct Iter<'a> {
    indexes: &'a Indexes,
    next: usize,
}

impl<'a> Iter<'a> {
    #[verifier::type_invariant]
    spec fn inv(self) -> bool {
        self.next <= self.indexes.spec_rows().len()
    }

    /// The rows not yet produced.
    pub closed spec fn remaining(&self) -> Seq<Seq<IndexValue>> {
        self.indexes.spec_rows().subrange(self.next as int, self.indexes.spec_rows().len() as int)
    }

    /// The next row, if any is left.
    pub fn next(&mut self) -> (r: Option<&'a [IndexValue]>)
        ensures
            old(self).remaining().len() == 0 ==> r is None && final(self).remaining()
                == old(self).remaining(),
            old(self).remaining().len() > 0 ==> (r matches Some(row) && row@ == old(
                self,
            ).remaining()[0] && final(self).remaining() == old(self).remaining().drop_first()),
    {
        proof {
            use_type_invariant(&*self);
        }
        if self.next < self.indexes.values.len() {
            let row = self.indexes.values[self.next].as_slice();
            self.next = self.next + 1;
            assert(self.remaining() =~= old(self).remaining().drop_first());
            Some(row)
        } else {
            None
        }
    }

    /// Number of rows not yet produced.
    pub fn len(&self) -> (r: usize)
        ensures
            r == self.remaining().len(),
    {
        proof {
            use_type_invariant(self);
        }
        self.indexes.values.len() - self.next
    }
}

} // verus!
