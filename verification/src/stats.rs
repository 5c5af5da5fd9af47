//! Samples of numbers, made ready for statistics: what is not a number
//! taken out, and the rest put in ascending order.

use crate::bits::{is_nan, is_nan_bits, order_key, order_key_of};
use vstd::prelude::*;

verus! {

/// The numbers among `values`, in their order: what is not a number is
/// left out.
pub open spec fn numbers(values: Seq<u64>) -> Seq<u64>
    decreases values.len(),
{
    if values.len() == 0 {
        values
    } else if is_nan_bits(values.last()) {
        numbers(values.drop_last())
    } else {
        numbers(values.drop_last()).push(values.last())
    }
}

/// The numbers among `values` are numbers, no more of them than there are
/// values, and all of the values where each is a number.
pub proof fn lemma_numbers(values: Seq<u64>)
    ensures
        numbers(values).len() <= values.len(),
        forall|i: int| 0 <= i < numbers(values).len() ==> !is_nan_bits(#[trigger] numbers(values)[i]),
        (forall|i: int| 0 <= i < values.len() ==> !is_nan_bits(values[i])) ==> numbers(values)
            == values,
        (forall|i: int| 0 <= i < values.len() ==> is_nan_bits(values[i])) ==> numbers(
            values,
        ).len() == 0,
    decreases values.len(),
{
    if values.len() > 0 {
        let front = values.drop_last();
        lemma_numbers(front);
        if forall|i: int| 0 <= i < values.len() ==> !is_nan_bits(values[i]) {
            assert forall|i: int| 0 <= i < front.len() implies !is_nan_bits(front[i]) by {
                assert(front[i] == values[i]);
            }
            assert(front.push(values.last()) =~= values);
        }
        if forall|i: int| 0 <= i < values.len() ==> is_nan_bits(values[i]) {
            assert forall|i: int| 0 <= i < front.len() implies is_nan_bits(front[i]) by {
                assert(front[i] == values[i]);
            }
        }
    }
}

/// The numbers among `values`, in their order.
pub fn numbers_of(values: &Vec<u64>) -> (r: Vec<u64>)
    ensures
        r@ == numbers(values@),
{
    let mut r: Vec<u64> = Vec::new();
    let mut i: usize = 0;
    assert(values@.take(0) =~= Seq::<u64>::empty());
    while i < values.len()
        invariant
            i <= values.len(),
            r@ == numbers(values@.take(i as int)),
        decreases values.len() - i,
    {
        assert(values@.take(i + 1).drop_last() =~= values@.take(i as int));
        if !is_nan(values[i]) {
            r.push(values[i]);
        }
        i += 1;
    }
    assert(values@.take(values.len() as int) =~= values@);
    r
}

/// The pairs of the first `n` values of `x` and of `y`, taken position by
/// position, of which both sides are numbers.
pub open spec fn number_pairs_up_to(x: Seq<u64>, y: Seq<u64>, n: int) -> Seq<(u64, u64)>
    decreases n,
{
    if n <= 0 {
        Seq::<(u64, u64)>::empty()
    } else if is_nan_bits(x[n - 1]) || is_nan_bits(y[n - 1]) {
        number_pairs_up_to(x, y, n - 1)
    } else {
        number_pairs_up_to(x, y, n - 1).push((x[n - 1], y[n - 1]))
    }
}

/// The pairs of values of `x` and `y`, taken position by position as far as
/// the shorter goes, of which both sides are numbers.
pub open spec fn number_pairs(x: Seq<u64>, y: Seq<u64>) -> Seq<(u64, u64)> {
    number_pairs_up_to(x, y, if x.len() <= y.len() { x.len() as int } else { y.len() as int })
}

/// The pairs of values of `x` and `y` of which both sides are numbers.
pub fn number_pairs_of(x: &Vec<u64>, y: &Vec<u64>) -> (r: Vec<(u64, u64)>)
    ensures
        r@ == number_pairs(x@, y@),
{
    let n = if x.len() <= y.len() { x.len() } else { y.len() };
    let mut r: Vec<(u64, u64)> = Vec::new();
    let mut i: usize = 0;
    while i < n
        invariant
            i <= n,
            n <= x.len(),
            n <= y.len(),
            r@ == number_pairs_up_to(x@, y@, i as int),
        decreases n - i,
    {
        if !is_nan(x[i]) && !is_nan(y[i]) {
            r.push((x[i], y[i]));
        }
        i += 1;
    }
    r
}

/// Whether the numbers of `s` stand in ascending order.
pub open spec fn is_ascending(s: Seq<u64>) -> bool {
    forall|i: int, j: int| 0 <= i <= j < s.len() ==> order_key(s[i]) <= order_key(s[j])
}

/// The numbers of `s` whose key is `key`, in their order.
pub open spec fn with_key(s: Seq<u64>, key: int) -> Seq<u64>
    decreases s.len(),
{
    if s.len() == 0 {
        s
    } else if order_key(s.last()) == key {
        with_key(s.drop_last(), key).push(s.last())
    } else {
        with_key(s.drop_last(), key)
    }
}

/// Whether `sorted` is `s` put in ascending order, numbers that are equal
/// left in the order they had: the same numbers as often, ascending, and
/// those of each key in the order of `s`.
pub open spec fn is_stable_sort_of(sorted: Seq<u64>, s: Seq<u64>) -> bool {
    &&& sorted.to_multiset() == s.to_multiset()
    &&& is_ascending(sorted)
    &&& forall|key: int| #[trigger] with_key(sorted, key) == with_key(s, key)
}

/// The numbers of a key are those of `s` that have it, and `s` has one of
/// them wherever there is any.
pub proof fn lemma_with_key(s: Seq<u64>, key: int)
    ensures
        with_key(s, key).len() <= s.len(),
        forall|i: int|
            0 <= i < with_key(s, key).len() ==> order_key(#[trigger] with_key(s, key)[i]) == key,
        with_key(s, key).len() > 0 <==> exists|i: int| 0 <= i < s.len() && order_key(s[i]) == key,
    decreases s.len(),
{
    if s.len() > 0 {
        let front = s.drop_last();
        lemma_with_key(front, key);
        if with_key(front, key).len() > 0 {
            let i = choose|i: int| 0 <= i < front.len() && order_key(front[i]) == key;
            assert(order_key(s[i]) == key);
        }
        if order_key(s.last()) == key {
            assert(order_key(s[s.len() - 1]) == key);
        } else if exists|i: int| 0 <= i < s.len() && order_key(s[i]) == key {
            let i = choose|i: int| 0 <= i < s.len() && order_key(s[i]) == key;
            assert(order_key(front[i]) == key);
        }
    }
}

/// Only one order of the same numbers is ascending and keeps the numbers of
/// each key in their order: two that do are the same.
pub proof fn lemma_stable_sort_unique(a: Seq<u64>, b: Seq<u64>)
    requires
        is_ascending(a),
        is_ascending(b),
        forall|key: int| #[trigger] with_key(a, key) == with_key(b, key),
    ensures
        a == b,
    decreases a.len() + b.len(),
{
    if a.len() == 0 && b.len() == 0 {
        assert(a =~= b);
    } else if a.len() == 0 || b.len() == 0 {
        let c = if a.len() == 0 { b } else { a };
        let key = order_key(c.last());
        lemma_with_key(a, key);
        lemma_with_key(b, key);
        assert(order_key(c[c.len() - 1]) == key);
        assert(with_key(a, key) == with_key(b, key));
    } else {
        let ka = order_key(a.last());
        let kb = order_key(b.last());
        lemma_with_key(a, ka);
        lemma_with_key(b, ka);
        lemma_with_key(a, kb);
        lemma_with_key(b, kb);
        assert(order_key(a[a.len() - 1]) == ka);
        assert(order_key(b[b.len() - 1]) == kb);
        assert(with_key(a, ka) == with_key(b, ka));
        assert(with_key(a, kb) == with_key(b, kb));
        assert(ka <= kb) by {
            let i = choose|i: int| 0 <= i < b.len() && order_key(b[i]) == ka;
            assert(order_key(b[i]) <= order_key(b[b.len() - 1]));
        }
        assert(kb <= ka) by {
            let i = choose|i: int| 0 <= i < a.len() && order_key(a[i]) == kb;
            assert(order_key(a[i]) <= order_key(a[a.len() - 1]));
        }
        assert(a.last() == with_key(a, ka).last());
        assert(b.last() == with_key(b, ka).last());
        let fa = a.drop_last();
        let fb = b.drop_last();
        assert forall|key: int| #[trigger] with_key(fa, key) == with_key(fb, key) by {
            assert(with_key(a, key) == with_key(b, key));
            if key == ka {
                assert(with_key(fa, key) =~= with_key(a, key).drop_last());
                assert(with_key(fb, key) =~= with_key(b, key).drop_last());
            }
        }
        assert(is_ascending(fa)) by {
            assert forall|i: int, j: int| 0 <= i <= j < fa.len() implies order_key(fa[i])
                <= order_key(fa[j]) by {
                assert(order_key(a[i]) <= order_key(a[j]));
            }
        }
        assert(is_ascending(fb)) by {
            assert forall|i: int, j: int| 0 <= i <= j < fb.len() implies order_key(fb[i])
                <= order_key(fb[j]) by {
                assert(order_key(b[i]) <= order_key(b[j]));
            }
        }
        lemma_stable_sort_unique(fa, fb);
        assert(a =~= fa.push(a.last()));
        assert(b =~= fb.push(b.last()));
    }
}

/// Sorts `v` with `sort_by_key` of the standard library, by the key of each
/// number. That sort is documented as ascending and stable; its body is not
/// verified here.
#[verifier::external_body]
fn sort_by_order_key(v: &mut Vec<u64>)
    ensures
        is_stable_sort_of(final(v)@, old(v)@),
{
    v.sort_by_key(|bits| order_key_of(*bits));
}

/// The numbers among `values` in ascending order, numbers that are equal
/// left in the order they had.
pub fn sorted_numbers(values: &Vec<u64>) -> (r: Vec<u64>)
    ensures
        is_stable_sort_of(r@, numbers(values@)),
        r@.len() == numbers(values@).len(),
{
    let mut r = numbers_of(values);
    let ghost unsorted = r@;
    sort_by_order_key(&mut r);
    proof {
        r@.to_multiset_ensures();
        unsorted.to_multiset_ensures();
    }
    r
}

} // verus!
