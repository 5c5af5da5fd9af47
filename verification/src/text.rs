//! Character-level text operations over `Seq<char>` models: classes of
//! characters, stripping at both ends, and splitting at a separator.

use vstd::prelude::*;

verus! {

/// Appending one character to a `String` appends it to the string's view.
/// This is `String::push` of the standard library, whose body is not verified here.
pub assume_specification[ String::push ](s: &mut String, c: char)
    ensures
        final(s)@ == old(s)@.push(c),
;

/// The characters of `s`, in order.
pub fn chars_of(s: &str) -> (v: Vec<char>)
    ensures
        v@ == s@,
{
    let mut v: Vec<char> = Vec::new();
    for c in iter: s.chars()
        invariant
            iter.seq() == s@,
            v@ == s@.take(iter.index()),
    {
        v.push(c);
        assert(s@.take(iter.index() + 1) =~= s@.take(iter.index()).push(c));
    }
    assert(s@.take(s@.len() as int) =~= s@);
    v
}

/// The string whose characters are those of `v[lo..hi]`.
pub fn string_of(v: &Vec<char>, lo: usize, hi: usize) -> (s: String)
    requires
        lo <= hi <= v.len(),
    ensures
        s@ == v@.subrange(lo as int, hi as int),
{
    let mut s = String::new();
    let mut i: usize = lo;
    while i < hi
        invariant
            lo <= i <= hi <= v.len(),
            s@ == v@.subrange(lo as int, i as int),
        decreases hi - i,
    {
        s.push(v[i]);
        i += 1;
        assert(v@.subrange(lo as int, i as int) =~= v@.subrange(lo as int, i - 1).push(v@[i - 1]));
    }
    s
}

/// Whether `c` is white space: the code points that carry the Unicode
/// property `White_Space`, which is what the standard `trim` removes.
pub open spec fn is_whitespace(c: char) -> bool {
    let u = c as u32;
    ||| 0x09 <= u <= 0x0D
    ||| u == 0x20
    ||| u == 0x85
    ||| u == 0xA0
    ||| u == 0x1680
    ||| 0x2000 <= u <= 0x200A
    ||| u == 0x2028
    ||| u == 0x2029
    ||| u == 0x202F
    ||| u == 0x205F
    ||| u == 0x3000
}

/// A class of characters that can be stripped from the ends of a text.
#[derive(Clone, Copy, Debug, PartialEq, Eq)]
pub enum CharClass {
    /// White space, as `is_whitespace` defines it.
    Whitespace,
    /// The double quote `"`.
    Quote,
}

impl CharClass {
    /// Whether `c` belongs to the class.
    pub open spec fn holds(self, c: char) -> bool {
        match self {
            CharClass::Whitespace => is_whitespace(c),
            CharClass::Quote => c == '"',
        }
    }

    /// Tests whether `c` belongs to the class.
    pub fn test(self, c: char) -> (b: bool)
        ensures
            b == self.holds(c),
    {
        match self {
            CharClass::Whitespace => {
                let u: u32 = c as u32;
                (0x09 <= u && u <= 0x0D) || u == 0x20 || u == 0x85 || u == 0xA0 || u == 0x1680
                    || (0x2000 <= u && u <= 0x200A) || u == 0x2028 || u == 0x2029 || u == 0x202F
                    || u == 0x205F || u == 0x3000
            },
            CharClass::Quote => c == '"',
        }
    }
}

/// `s` without its longest prefix of characters of class `k`.
pub open spec fn strip_start(s: Seq<char>, k: CharClass) -> Seq<char>
    decreases s.len(),
{
    if s.len() > 0 && k.holds(s[0]) {
        strip_start(s.drop_first(), k)
    } else {
        s
    }
}

/// `s` without its longest suffix of characters of class `k`.
pub open spec fn strip_end(s: Seq<char>, k: CharClass) -> Seq<char>
    decreases s.len(),
{
    if s.len() > 0 && k.holds(s.last()) {
        strip_end(s.drop_last(), k)
    } else {
        s
    }
}

/// `s` without the characters of class `k` at both ends.
pub open spec fn strip(s: Seq<char>, k: CharClass) -> Seq<char> {
    strip_end(strip_start(s, k), k)
}

/// `s` without white space at both ends.
pub open spec fn trim(s: Seq<char>) -> Seq<char> {
    strip(s, CharClass::Whitespace)
}

/// Whether `s` holds nothing but white space.
pub open spec fn is_blank(s: Seq<char>) -> bool {
    trim(s).len() == 0
}

/// Stripping at the start drops characters of the class and nothing else,
/// and stops at the first character that is not of the class.
pub proof fn lemma_strip_start(s: Seq<char>, k: CharClass)
    ensures
        strip_start(s, k).len() <= s.len(),
        strip_start(s, k) == s.skip(s.len() - strip_start(s, k).len()),
        forall|i: int| 0 <= i < s.len() - strip_start(s, k).len() ==> k.holds(s[i]),
        strip_start(s, k).len() > 0 ==> !k.holds(strip_start(s, k)[0]),
    decreases s.len(),
{
    if s.len() > 0 && k.holds(s[0]) {
        let rest = s.drop_first();
        lemma_strip_start(rest, k);
        let n = rest.len() - strip_start(rest, k).len();
        assert(rest.skip(n) =~= s.skip(n + 1));
        assert forall|i: int| 0 <= i < n + 1 implies k.holds(s[i]) by {
            if i > 0 {
                assert(s[i] == rest[i - 1]);
            }
        }
    } else {
        assert(s.skip(0) =~= s);
    }
}

/// Stripping at the end drops characters of the class and nothing else, and
/// stops at the last character that is not of the class.
pub proof fn lemma_strip_end(s: Seq<char>, k: CharClass)
    ensures
        strip_end(s, k).len() <= s.len(),
        strip_end(s, k) == s.take(strip_end(s, k).len() as int),
        forall|i: int| strip_end(s, k).len() <= i < s.len() ==> k.holds(s[i]),
        strip_end(s, k).len() > 0 ==> !k.holds(strip_end(s, k).last()),
    decreases s.len(),
{
    if s.len() > 0 && k.holds(s.last()) {
        let rest = s.drop_last();
        lemma_strip_end(rest, k);
        let n = strip_end(rest, k).len() as int;
        assert(rest.take(n) =~= s.take(n));
        assert forall|i: int| n <= i < s.len() implies k.holds(s[i]) by {
            if i < s.len() - 1 {
                assert(s[i] == rest[i]);
            }
        }
    } else {
        assert(s.take(s.len() as int) =~= s);
    }
}

/// What is left of a text that was stripped at both ends neither starts nor
/// ends with a character of the class, and stripping it again changes
/// nothing.
pub proof fn lemma_strip(s: Seq<char>, k: CharClass)
    ensures
        strip(s, k).len() <= s.len(),
        strip(s, k).len() > 0 ==> !k.holds(strip(s, k)[0]) && !k.holds(strip(s, k).last()),
        strip(strip(s, k), k) == strip(s, k),
{
    let a = strip_start(s, k);
    let b = strip_end(a, k);
    lemma_strip_start(s, k);
    lemma_strip_end(a, k);
    if b.len() > 0 {
        assert(b[0] == a[0]);
        assert(strip_start(b, k) == b);
        assert(strip_end(b, k) == b);
    }
}

/// A text that holds a character which is not white space is not blank, and
/// a blank text holds white space only.
pub proof fn lemma_blank(s: Seq<char>)
    ensures
        is_blank(s) <==> forall|i: int| 0 <= i < s.len() ==> is_whitespace(s[i]),
{
    let k = CharClass::Whitespace;
    let a = strip_start(s, k);
    let n = s.len() - a.len();
    lemma_strip_start(s, k);
    lemma_strip_end(a, k);
    if is_blank(s) {
        assert forall|i: int| 0 <= i < s.len() implies is_whitespace(s[i]) by {
            if i >= n {
                assert(a[i - n] == s[i]);
                assert(k.holds(a[i - n]));
            } else {
                assert(k.holds(s[i]));
            }
        }
    } else {
        let b = strip_end(a, k);
        assert(b[0] == a[0]);
        assert(a[0] == s[n]);
        assert(!k.holds(s[n]));
    }
}

/// The bounds of `strip(v[lo..hi], k)` within `v`.
pub fn strip_range(v: &Vec<char>, lo: usize, hi: usize, k: CharClass) -> (r: (usize, usize))
    requires
        lo <= hi <= v.len(),
    ensures
        lo <= r.0 <= r.1 <= hi,
        v@.subrange(r.0 as int, r.1 as int) == strip(v@.subrange(lo as int, hi as int), k),
{
    let mut i: usize = lo;
    while i < hi && k.test(v[i])
        invariant
            lo <= i <= hi <= v.len(),
            strip_start(v@.subrange(lo as int, hi as int), k) == strip_start(
                v@.subrange(i as int, hi as int),
                k,
            ),
        decreases hi - i,
    {
        assert(v@.subrange(i as int, hi as int).drop_first() =~= v@.subrange(i + 1, hi as int));
        i += 1;
    }
    assert(strip_start(v@.subrange(i as int, hi as int), k) == v@.subrange(i as int, hi as int));
    let mut j: usize = hi;
    while i < j && k.test(v[j - 1])
        invariant
            i <= j <= hi <= v.len(),
            strip_end(v@.subrange(i as int, hi as int), k) == strip_end(
                v@.subrange(i as int, j as int),
                k,
            ),
        decreases j - i,
    {
        assert(v@.subrange(i as int, j as int).drop_last() =~= v@.subrange(i as int, j - 1));
        j -= 1;
    }
    assert(strip_end(v@.subrange(i as int, j as int), k) == v@.subrange(i as int, j as int));
    (i, j)
}

/// The pieces of `s` between occurrences of `sep`: one more piece than `s`
/// holds separators, the empty ones included.
pub open spec fn split(s: Seq<char>, sep: char) -> Seq<Seq<char>>
    decreases s.len(),
{
    if s.len() == 0 {
        seq![Seq::<char>::empty()]
    } else {
        let before = split(s.drop_last(), sep);
        if s.last() == sep {
            before.push(Seq::<char>::empty())
        } else {
            before.drop_last().push(before.last().push(s.last()))
        }
    }
}

/// The number of occurrences of `c` in `s`.
pub open spec fn count(s: Seq<char>, c: char) -> nat
    decreases s.len(),
{
    if s.len() == 0 {
        0
    } else {
        count(s.drop_last(), c) + if s.last() == c { 1nat } else { 0nat }
    }
}

/// The pieces in order, with `sep` between each two neighbours.
pub open spec fn join(pieces: Seq<Seq<char>>, sep: char) -> Seq<char>
    decreases pieces.len(),
{
    if pieces.len() == 0 {
        Seq::<char>::empty()
    } else if pieces.len() == 1 {
        pieces[0]
    } else {
        join(pieces.drop_last(), sep).push(sep) + pieces.last()
    }
}

/// Splitting yields one piece more than there are separators, no piece holds
/// the separator, and joining the pieces gives the text back.
pub proof fn lemma_split(s: Seq<char>, sep: char)
    ensures
        split(s, sep).len() == count(s, sep) + 1,
        forall|k: int| 0 <= k < split(s, sep).len() ==> !(#[trigger] split(s, sep)[k]).contains(sep),
        join(split(s, sep), sep) == s,
    decreases s.len(),
{
    if s.len() == 0 {
        assert(join(split(s, sep), sep) =~= s);
    } else {
        let front = s.drop_last();
        let before = split(front, sep);
        lemma_split(front, sep);
        let now = split(s, sep);
        if s.last() == sep {
            assert(now.drop_last() =~= before);
            assert(join(now, sep) =~= s);
        } else {
            let grown = before.last().push(s.last());
            assert forall|k: int| 0 <= k < now.len() implies !(#[trigger] now[k]).contains(sep) by {
                if k == now.len() - 1 {
                    assert(now[k] == grown);
                    if grown.contains(sep) {
                        let i = choose|i: int| 0 <= i < grown.len() && grown[i] == sep;
                        assert(before.last()[i] == sep);
                        assert(before[before.len() - 1].contains(sep));
                    }
                } else {
                    assert(now[k] == before[k]);
                }
            }
            assert(front.push(s.last()) =~= s);
            assert(now.last() == grown);
            if before.len() == 1 {
                assert(join(before, sep) == before[0]);
                assert(join(now, sep) == now[0]);
            } else {
                assert(now.drop_last() =~= before.drop_last());
                let head = join(before.drop_last(), sep).push(sep);
                assert(join(before, sep) == head + before.last());
                assert(join(now, sep) == head + grown);
                assert(head + grown =~= (head + before.last()).push(s.last()));
            }
        }
    }
}

/// The bounds within `v` of the pieces of `v[lo..hi]` split at `sep`.
pub fn split_ranges(v: &Vec<char>, lo: usize, hi: usize, sep: char) -> (r: Vec<(usize, usize)>)
    requires
        lo <= hi <= v.len(),
    ensures
        r@.len() == split(v@.subrange(lo as int, hi as int), sep).len(),
        forall|k: int|
            0 <= k < r@.len() ==> lo <= (#[trigger] r@[k]).0 <= r@[k].1 <= hi && v@.subrange(
                r@[k].0 as int,
                r@[k].1 as int,
            ) == split(v@.subrange(lo as int, hi as int), sep)[k],
{
    let mut r: Vec<(usize, usize)> = Vec::new();
    let mut start: usize = lo;
    let mut i: usize = lo;
    assert(v@.subrange(lo as int, lo as int) =~= Seq::<char>::empty());
    while i < hi
        invariant
            lo <= start <= i <= hi <= v.len(),
            r@.len() + 1 == split(v@.subrange(lo as int, i as int), sep).len(),
            split(v@.subrange(lo as int, i as int), sep).last() == v@.subrange(
                start as int,
                i as int,
            ),
            forall|k: int|
                0 <= k < r@.len() ==> lo <= (#[trigger] r@[k]).0 <= r@[k].1 <= hi && v@.subrange(
                    r@[k].0 as int,
                    r@[k].1 as int,
                ) == split(v@.subrange(lo as int, i as int), sep)[k],
        decreases hi - i,
    {
        let ghost before = split(v@.subrange(lo as int, i as int), sep);
        assert(v@.subrange(lo as int, i + 1).drop_last() =~= v@.subrange(lo as int, i as int));
        assert(v@.subrange(lo as int, i + 1).last() == v@[i as int]);
        if v[i] == sep {
            r.push((start, i));
            start = i + 1;
            assert(v@.subrange(start as int, start as int) =~= Seq::<char>::empty());
        } else {
            assert(v@.subrange(start as int, i + 1) =~= v@.subrange(start as int, i as int).push(
                v@[i as int],
            ));
        }
        i += 1;
    }
    r.push((start, hi));
    r
}

/// `s` without any occurrence of `c`.
pub open spec fn without(s: Seq<char>, c: char) -> Seq<char>
    decreases s.len(),
{
    if s.len() == 0 {
        s
    } else if s.last() == c {
        without(s.drop_last(), c)
    } else {
        without(s.drop_last(), c).push(s.last())
    }
}

/// Taking a character out leaves none of it, and leaves a text without it
/// as it is.
pub proof fn lemma_without(s: Seq<char>, c: char)
    ensures
        !without(s, c).contains(c),
        without(s, c).len() + count(s, c) == s.len(),
        !s.contains(c) ==> without(s, c) == s,
    decreases s.len(),
{
    if s.len() > 0 {
        let front = s.drop_last();
        lemma_without(front, c);
        let t = without(s, c);
        if t.contains(c) {
            let i = choose|i: int| 0 <= i < t.len() && t[i] == c;
            if i < without(front, c).len() {
                assert(without(front, c)[i] == c);
                assert(without(front, c).contains(c));
            }
        }
        if !s.contains(c) {
            if front.contains(c) {
                let i = choose|i: int| 0 <= i < front.len() && front[i] == c;
                assert(s[i] == c);
            }
            assert(s.last() != c) by {
                if s.last() == c {
                    assert(s[s.len() - 1] == c);
                }
            }
            assert(front.push(s.last()) =~= s);
        }
    }
}

/// `s` with every occurrence of `from` turned into `to`.
pub open spec fn replaced(s: Seq<char>, from: char, to: char) -> Seq<char> {
    Seq::new(s.len(), |i: int| if s[i] == from { to } else { s[i] })
}

/// The characters of `v[lo..hi]` that are not `c`, in order.
pub fn without_char(v: &Vec<char>, lo: usize, hi: usize, c: char) -> (r: Vec<char>)
    requires
        lo <= hi <= v.len(),
    ensures
        r@ == without(v@.subrange(lo as int, hi as int), c),
{
    let mut r: Vec<char> = Vec::new();
    let mut i: usize = lo;
    assert(v@.subrange(lo as int, lo as int) =~= Seq::<char>::empty());
    while i < hi
        invariant
            lo <= i <= hi <= v.len(),
            r@ == without(v@.subrange(lo as int, i as int), c),
        decreases hi - i,
    {
        assert(v@.subrange(lo as int, i + 1).drop_last() =~= v@.subrange(lo as int, i as int));
        if v[i] != c {
            r.push(v[i]);
        }
        i += 1;
    }
    r
}

/// The characters of `v[lo..hi]`, each `from` among them turned into `to`.
pub fn replace_char(v: &Vec<char>, lo: usize, hi: usize, from: char, to: char) -> (r: Vec<char>)
    requires
        lo <= hi <= v.len(),
    ensures
        r@ == replaced(v@.subrange(lo as int, hi as int), from, to),
{
    let mut r: Vec<char> = Vec::new();
    let mut i: usize = lo;
    while i < hi
        invariant
            lo <= i <= hi <= v.len(),
            r@ == replaced(v@.subrange(lo as int, i as int), from, to),
        decreases hi - i,
    {
        let c = v[i];
        r.push(if c == from { to } else { c });
        i += 1;
        assert(r@ =~= replaced(v@.subrange(lo as int, i as int), from, to));
    }
    r
}

} // verus!
