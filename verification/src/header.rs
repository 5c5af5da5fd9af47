//! Column names: filling in the missing ones and telling duplicates apart.

use crate::decimal::{digits, lemma_digits_injective, push_decimal};
use crate::text::{chars_of, is_blank, lemma_blank, string_of, strip_range, CharClass};
use vstd::prelude::*;
use vstd::set_lib::lemma_len_subset;

verus! {

/// The name given to a column without one, from its position counted from
/// zero: `col1` for the first column.
pub open spec fn generated_name(i: nat) -> Seq<char> {
    seq!['c', 'o', 'l'] + digits(i + 1)
}

/// The name `raw` of the column at position `i`, or the generated name where
/// `raw` is blank.
pub open spec fn filled_name(raw: Seq<char>, i: nat) -> Seq<char> {
    if is_blank(raw) {
        generated_name(i)
    } else {
        raw
    }
}

/// `base`, an underscore, and `k` in decimal notation.
pub open spec fn suffixed(base: Seq<char>, k: nat) -> Seq<char> {
    base.push('_') + digits(k)
}

/// Whether `k` is the first number from 2 on whose suffixed name is not
/// among `taken`.
pub open spec fn is_first_free(taken: Seq<Seq<char>>, base: Seq<char>, k: nat) -> bool {
    &&& k >= 2
    &&& !taken.contains(suffixed(base, k))
    &&& forall|j: nat| 2 <= j < k ==> taken.contains(#[trigger] suffixed(base, j))
}

/// The first number from 2 on whose suffixed name is not among `taken`.
pub open spec fn first_free(taken: Seq<Seq<char>>, base: Seq<char>) -> nat {
    choose|k: nat| is_first_free(taken, base, k)
}

/// A name that is not among `taken`: `base` itself where it is free, else
/// `base` with the first free suffix `_2`, `_3`, and so on.
pub open spec fn unique_name(taken: Seq<Seq<char>>, base: Seq<char>) -> Seq<char> {
    if taken.contains(base) {
        suffixed(base, first_free(taken, base))
    } else {
        base
    }
}

/// The names of a header made usable: blank names replaced by generated
/// ones, and each name that repeats an earlier one told apart by a suffix.
pub open spec fn normalized(raw: Seq<Seq<char>>) -> Seq<Seq<char>>
    decreases raw.len(),
{
    if raw.len() == 0 {
        Seq::<Seq<char>>::empty()
    } else {
        let before = normalized(raw.drop_last());
        before.push(unique_name(before, filled_name(raw.last(), (raw.len() - 1) as nat)))
    }
}

/// Whether no name occurs twice in `names`.
pub open spec fn distinct(names: Seq<Seq<char>>) -> bool {
    forall|i: int, j: int| 0 <= i < j < names.len() ==> names[i] != names[j]
}

/// Names with different suffixes differ.
pub proof fn lemma_suffixed_injective(base: Seq<char>, j: nat, k: nat)
    requires
        suffixed(base, j) == suffixed(base, k),
    ensures
        j == k,
{
    let head = base.push('_');
    assert((head + digits(j)).subrange(head.len() as int, (head + digits(j)).len() as int)
        =~= digits(j));
    assert((head + digits(k)).subrange(head.len() as int, (head + digits(k)).len() as int)
        =~= digits(k));
    lemma_digits_injective(j, k);
}

/// The names suffixed with 2 up to, but not including, `k`, and `base` itself.
spec fn tried_names(base: Seq<char>, k: nat) -> Set<Seq<char>> {
    Set::new(|x: Seq<char>| x == base || exists|j: nat| 2 <= j < k && x == suffixed(base, j))
}

proof fn lemma_tried_names(base: Seq<char>, k: nat)
    requires
        k >= 2,
    ensures
        tried_names(base, k).finite(),
        tried_names(base, k).len() == k - 1,
    decreases k,
{
    if k == 2 {
        assert(tried_names(base, k) =~= set![base]);
    } else {
        let j = (k - 1) as nat;
        lemma_tried_names(base, j);
        let name = suffixed(base, j);
        assert(name.len() > base.len());
        if tried_names(base, j).contains(name) {
            let i = choose|i: nat| 2 <= i < j && name == suffixed(base, i);
            lemma_suffixed_injective(base, i, j);
        }
        assert(tried_names(base, k) =~= tried_names(base, j).insert(name));
    }
}

/// Searching from `k` on finds a free suffix no later than at the number of
/// the taken names plus one.
proof fn lemma_search(taken: Seq<Seq<char>>, base: Seq<char>, k: nat)
    requires
        k >= 2,
        taken.contains(base),
        forall|j: nat| 2 <= j < k ==> taken.contains(#[trigger] suffixed(base, j)),
    ensures
        exists|m: nat| is_first_free(taken, base, m) && m <= taken.len() + 1,
    decreases taken.len() + 1 - k,
{
    lemma_tried_names(base, k);
    assert(tried_names(base, k).subset_of(taken.to_set()));
    vstd::seq_lib::seq_to_set_is_finite(taken);
    lemma_len_subset(tried_names(base, k), taken.to_set());
    taken.lemma_cardinality_of_set();
    if taken.contains(suffixed(base, k)) {
        lemma_tried_names(base, k + 1);
        assert(tried_names(base, k + 1).subset_of(taken.to_set()));
        lemma_len_subset(tried_names(base, k + 1), taken.to_set());
        lemma_search(taken, base, k + 1);
    } else {
        assert(is_first_free(taken, base, k));
    }
}

/// Where `base` is taken, a first free suffix exists, and it is at most the
/// number of taken names plus one.
pub proof fn lemma_first_free(taken: Seq<Seq<char>>, base: Seq<char>)
    requires
        taken.contains(base),
    ensures
        is_first_free(taken, base, first_free(taken, base)),
        first_free(taken, base) <= taken.len() + 1,
{
    lemma_search(taken, base, 2);
    let m = choose|m: nat| is_first_free(taken, base, m) && m <= taken.len() + 1;
    let k = first_free(taken, base);
    assert(is_first_free(taken, base, k));
    if k < m {
        assert(taken.contains(suffixed(base, k)));
    } else if m < k {
        assert(taken.contains(suffixed(base, m)));
    }
}

/// The name that `unique_name` picks is not among the taken ones.
pub proof fn lemma_unique_name_is_free(taken: Seq<Seq<char>>, base: Seq<char>)
    ensures
        !taken.contains(unique_name(taken, base)),
{
    if taken.contains(base) {
        lemma_first_free(taken, base);
    }
}

/// A normalized header is as long as the raw one and holds no name twice.
pub proof fn lemma_normalized_distinct(raw: Seq<Seq<char>>)
    ensures
        normalized(raw).len() == raw.len(),
        distinct(normalized(raw)),
    decreases raw.len(),
{
    if raw.len() > 0 {
        let before = normalized(raw.drop_last());
        lemma_normalized_distinct(raw.drop_last());
        lemma_unique_name_is_free(before, filled_name(raw.last(), (raw.len() - 1) as nat));
        assert forall|i: int, j: int| 0 <= i < j < normalized(raw).len() implies normalized(
            raw,
        )[i] != normalized(raw)[j] by {
            if j == before.len() {
                assert(before.contains(before[i]));
            } else {
                assert(normalized(raw)[i] == before[i]);
                assert(normalized(raw)[j] == before[j]);
            }
        }
    }
}

/// Whether no name of `names` is blank.
pub open spec fn all_named(names: Seq<Seq<char>>) -> bool {
    forall|i: int| 0 <= i < names.len() ==> !is_blank(#[trigger] names[i])
}

/// No name of a normalized header is blank.
pub proof fn lemma_normalized_named(raw: Seq<Seq<char>>)
    ensures
        all_named(normalized(raw)),
    decreases raw.len(),
{
    if raw.len() > 0 {
        let before = normalized(raw.drop_last());
        lemma_normalized_named(raw.drop_last());
        let i = (raw.len() - 1) as nat;
        let base = filled_name(raw.last(), i);
        let name = unique_name(before, base);
        assert(!is_blank(name)) by {
            lemma_blank(name);
            if before.contains(base) {
                assert(name[base.len() as int] == '_');
            } else if is_blank(raw.last()) {
                assert(name[0] == 'c');
            }
        }
        assert forall|j: int| 0 <= j < normalized(raw).len() implies !is_blank(
            #[trigger] normalized(raw)[j],
        ) by {
            if j < before.len() {
                assert(normalized(raw)[j] == before[j]);
            }
        }
    }
}

/// A header that names every column, and none twice, is left as it is.
pub proof fn lemma_normalized_keeps(raw: Seq<Seq<char>>)
    requires
        all_named(raw),
        distinct(raw),
    ensures
        normalized(raw) == raw,
    decreases raw.len(),
{
    if raw.len() > 0 {
        let front = raw.drop_last();
        lemma_normalized_keeps(front);
        if front.contains(raw.last()) {
            let j = choose|j: int| 0 <= j < front.len() && front[j] == raw.last();
            assert(raw[j] == raw[raw.len() - 1]);
        }
        assert(normalized(raw) =~= raw);
    } else {
        assert(normalized(raw) =~= raw);
    }
}

/// Normalizing a header that is normalized changes nothing.
pub proof fn lemma_normalized_twice(raw: Seq<Seq<char>>)
    ensures
        normalized(normalized(raw)) == normalized(raw),
{
    lemma_normalized_named(raw);
    lemma_normalized_distinct(raw);
    lemma_normalized_keeps(normalized(raw));
}

/// A longer raw header is normalized by going on from the shorter one: the
/// names that were there keep the names they had.
pub proof fn lemma_normalized_prefix(raw: Seq<Seq<char>>, n: int)
    requires
        0 <= n <= raw.len(),
    ensures
        normalized(raw.take(n)) == normalized(raw).take(n),
    decreases raw.len() - n,
{
    if n == raw.len() {
        lemma_normalized_distinct(raw);
        assert(raw.take(n) =~= raw);
        assert(normalized(raw).take(n) =~= normalized(raw));
    } else {
        lemma_normalized_prefix(raw.drop_last(), n);
        lemma_normalized_distinct(raw.drop_last());
        assert(raw.drop_last().take(n) =~= raw.take(n));
        assert(normalized(raw).take(n) =~= normalized(raw.drop_last()).take(n));
    }
}

/// Whether `s` holds nothing but white space.
pub fn blank(s: &str) -> (b: bool)
    ensures
        b == is_blank(s@),
{
    let v = chars_of(s);
    let (lo, hi) = strip_range(&v, 0, v.len(), CharClass::Whitespace);
    assert(v@.subrange(0, v.len() as int) =~= v@);
    lo == hi
}

/// The generated name of the column at position `i`, counted from zero. The
/// number in the name is `i + 1`, which has to fit.
pub fn generated(i: usize) -> (s: String)
    requires
        i < usize::MAX,
    ensures
        s@ == generated_name(i as nat),
{
    let mut v: Vec<char> = Vec::new();
    v.push('c');
    v.push('o');
    v.push('l');
    push_decimal(&mut v, i + 1);
    assert(v@ =~= generated_name(i as nat));
    let s = string_of(&v, 0, v.len());
    assert(v@.subrange(0, v.len() as int) =~= v@);
    s
}

/// `base`, an underscore, and `k` in decimal notation.
pub fn with_suffix(base: &str, k: usize) -> (s: String)
    ensures
        s@ == suffixed(base@, k as nat),
{
    let mut v = chars_of(base);
    v.push('_');
    push_decimal(&mut v, k);
    let s = string_of(&v, 0, v.len());
    assert(v@.subrange(0, v.len() as int) =~= v@);
    s
}

/// The texts of the first `n` strings of `names`.
pub open spec fn texts(names: Seq<String>, n: int) -> Seq<Seq<char>> {
    Seq::new(n as nat, |i: int| names[i]@)
}

/// Whether `name` is among the first `n` of `names`.
pub fn occurs(names: &Vec<String>, n: usize, name: &String) -> (b: bool)
    requires
        n <= names.len(),
    ensures
        b == texts(names@, n as int).contains(name@),
{
    let mut i: usize = 0;
    while i < n
        invariant
            i <= n <= names.len(),
            forall|j: int| 0 <= j < i ==> names@[j]@ != name@,
        decreases n - i,
    {
        if names[i] == *name {
            assert(texts(names@, n as int)[i as int] == name@);
            return true;
        }
        i += 1;
    }
    false
}

/// A name for the column at position `n` that is not among the `n` names
/// before it: `base`, with a suffix where it is taken.
pub fn unique_among(names: &Vec<String>, n: usize, base: String) -> (r: String)
    requires
        n < names.len(),
    ensures
        r@ == unique_name(texts(names@, n as int), base@),
{
    if !occurs(names, n, &base) {
        return base;
    }
    let ghost taken = texts(names@, n as int);
    proof {
        lemma_first_free(taken, base@);
    }
    let mut k: usize = 2;
    loop
        invariant
            2 <= k <= first_free(taken, base@) <= n + 1,
            n < names.len(),
            taken == texts(names@, n as int),
            is_first_free(taken, base@, first_free(taken, base@)),
            taken.contains(base@),
            forall|j: nat| 2 <= j < k ==> taken.contains(#[trigger] suffixed(base@, j)),
        decreases first_free(taken, base@) - k,
    {
        let name = with_suffix(base.as_str(), k);
        if !occurs(names, n, &name) {
            assert(k == first_free(taken, base@)) by {
                if k < first_free(taken, base@) {
                    assert(taken.contains(suffixed(base@, k as nat)));
                }
            }
            return name;
        }
        k += 1;
    }
}

/// Normalizes the header `names` in place.
pub fn normalize_names(names: &mut Vec<String>)
    ensures
        final(names).deep_view() == normalized(old(names).deep_view()),
{
    let ghost raw = texts(names@, names@.len() as int);
    assert(raw =~= names.deep_view());
    let n = names.len();
    let mut i: usize = 0;
    assert(raw.take(0) =~= Seq::<Seq<char>>::empty());
    assert(texts(names@, 0) =~= Seq::<Seq<char>>::empty());
    while i < n
        invariant
            i <= n == names.len() == raw.len(),
            texts(names@, i as int) == normalized(raw.take(i as int)),
            forall|j: int| i <= j < n ==> names@[j]@ == raw[j],
        decreases n - i,
    {
        let base = if blank(names[i].as_str()) {
            generated(i)
        } else {
            names[i].clone()
        };
        let name = unique_among(names, i, base);
        let ghost before = texts(names@, i as int);
        names.set(i, name);
        proof {
            assert(raw.take(i + 1).drop_last() =~= raw.take(i as int));
            assert(raw.take(i + 1).last() == raw[i as int]);
            assert(texts(names@, i + 1) =~= before.push(name@));
        }
        i += 1;
    }
    assert(raw.take(n as int) =~= raw);
    assert(texts(names@, n as int) =~= names.deep_view());
}

} // verus!
