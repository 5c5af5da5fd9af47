//! What every tabular source offers, whatever the format behind it.

use vstd::prelude::*;

verus! {

/// Why a read of a column could not be done.
#[derive(Clone, Copy, Debug, PartialEq, Eq, Structural)]
pub enum ReadError {
    /// The source, or one of its batches, has no column of that name.
    ColumnNotFound,
    /// The source does not offer this kind of read.
    Unsupported,
    /// The column's values are not stored as the type that was asked for.
    TypeMismatch,
    /// The index column is not declared as microseconds in UTC.
    IndexTypeMismatch,
    /// The index column has no value at this row, counted from zero over the
    /// whole source.
    IndexNullEncountered { row: usize },
    /// The source declares `expected` rows and the read yielded `found`.
    RowCountMismatch { expected: usize, found: usize },
}

/// Why a source could not be made from its input.
#[derive(Clone, Copy, Debug, PartialEq, Eq, Structural)]
pub enum LoadError {
    /// The text has no line to take the header from.
    EmptyInput,
    /// The row counts in a file's footer are negative, too large, or do not
    /// add up to the file's total.
    CorruptFooter,
}

/// Whether `i` is the first position of `names` that holds `name`.
pub open spec fn is_first_at(names: Seq<Seq<char>>, name: Seq<char>, i: int) -> bool {
    &&& 0 <= i < names.len()
    &&& names[i] == name
    &&& forall|j: int| 0 <= j < i ==> names[j] != name
}

/// The first position of `names` that holds `name`, if any does.
pub open spec fn first_index(names: Seq<Seq<char>>, name: Seq<char>) -> Option<int> {
    if exists|i: int| is_first_at(names, name, i) {
        Some(choose|i: int| is_first_at(names, name, i))
    } else {
        None
    }
}

/// A name has a first position exactly if it occurs, and that position is
/// the only one that holds it first.
pub proof fn lemma_first_index(names: Seq<Seq<char>>, name: Seq<char>)
    ensures
        first_index(names, name) is Some <==> names.contains(name),
        forall|i: int| is_first_at(names, name, i) ==> first_index(names, name) == Some(i),
        first_index(names, name) matches Some(i) ==> is_first_at(names, name, i),
{
    if names.contains(name) {
        lemma_first_occurrence(names, name, names.len() as int);
    }
    assert forall|i: int| is_first_at(names, name, i) implies first_index(names, name) == Some(
        i,
    ) by {
        let c = choose|c: int| is_first_at(names, name, c);
        assert(is_first_at(names, name, c));
        if c < i {
            assert(names[c] != name);
        } else if i < c {
            assert(names[i] != name);
        }
    }
}

/// A name that occurs before position `n` has a first position.
proof fn lemma_first_occurrence(names: Seq<Seq<char>>, name: Seq<char>, n: int)
    requires
        0 <= n <= names.len(),
        exists|i: int| 0 <= i < n && names[i] == name,
    ensures
        exists|i: int| is_first_at(names, name, i),
    decreases n,
{
    if exists|i: int| 0 <= i < n - 1 && names[i] == name {
        lemma_first_occurrence(names, name, n - 1);
    } else {
        assert(is_first_at(names, name, n - 1));
    }
}

/// The first position among `names` of a string that reads `name`.
pub fn find_name(names: &Vec<String>, name: &str) -> (r: Option<usize>)
    ensures
        match r {
            Some(i) => i < names.len() && first_index(names.deep_view(), name@) == Some(i as int),
            None => first_index(names.deep_view(), name@) is None,
        },
{
    let wanted = name.to_owned();
    let mut i: usize = 0;
    while i < names.len()
        invariant
            i <= names.len(),
            wanted@ == name@,
            forall|j: int| 0 <= j < i ==> names.deep_view()[j] != name@,
        decreases names.len() - i,
    {
        if names[i] == wanted {
            proof {
                assert(names.deep_view()[i as int] == name@);
                assert(is_first_at(names.deep_view(), name@, i as int));
                lemma_first_index(names.deep_view(), name@);
            }
            return Some(i);
        }
        i += 1;
    }
    proof {
        lemma_first_index(names.deep_view(), name@);
        if names.deep_view().contains(name@) {
            let k = choose|k: int| 0 <= k < names.deep_view().len() && names.deep_view()[k] == name@;
            assert(names.deep_view()[k] != name@);
        }
    }
    None
}

/// A tabular source: a number of rows, and columns with a name and a type
/// each.
pub trait DataFrame {
    /// The names of the columns, in the order of the schema.
    spec fn names(&self) -> Seq<Seq<char>>;

    /// The number of rows.
    spec fn rows(&self) -> nat;

    /// Each column's name with a description of its type.
    spec fn types(&self) -> Seq<(Seq<char>, Seq<char>)>;

    /// The number of rows and the number of columns.
    fn shape(&self) -> (r: (usize, usize))
        ensures
            r.0 == self.rows(),
            r.1 == self.names().len(),
    ;

    /// The names of the columns, in the order of the schema.
    fn column_names(&self) -> (r: Vec<String>)
        ensures
            r.deep_view() == self.names(),
    ;

    /// Each column's name with a description of its type.
    fn column_types(&self) -> (r: Vec<(String, String)>)
        ensures
            r.deep_view() == self.types(),
    ;
}

} // verus!
