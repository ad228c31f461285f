//! Text primitives of the header grammar: finding a delimiter, splitting on
//! it, and trimming white space.
//!
//! Every primitive is defined as a spec function over `Seq<char>` and has an
//! executable counterpart on `&str` that is proved against it.

use vstd::prelude::*;
use vstd::string::StrSliceExecFns;

verus! {

/// Position of the first `x` in `s`, or `s.len()` where `s` holds none.
pub open spec fn first_index_of<T>(s: Seq<T>, x: T) -> int
    decreases s.len(),
{
    if s.len() == 0 || s[0] == x {
        0
    } else {
        1 + first_index_of(s.drop_first(), x)
    }
}

/// The pieces of `s` between occurrences of `sep`, in order. There is always
/// at least one piece, and a piece may be empty.
pub open spec fn split(s: Seq<char>, sep: char) -> Seq<Seq<char>>
    decreases s.len(),
{
    let i = first_index_of(s, sep);
    if 0 <= i < s.len() {
        seq![s.take(i)] + split(s.skip(i + 1), sep)
    } else {
        seq![s]
    }
}

/// The two sides of the first `sep` in `s`, or `None` where `s` holds none.
pub open spec fn split_once(s: Seq<char>, sep: char) -> Option<(Seq<char>, Seq<char>)> {
    let i = first_index_of(s, sep);
    if 0 <= i < s.len() {
        Some((s.take(i), s.skip(i + 1)))
    } else {
        None
    }
}

/// Whether `c` is white space as Unicode defines it (`White_Space`).
pub open spec fn whitespace(c: char) -> bool {
    let u = c as u32;
    ||| 0x09 <= u <= 0x0D
    ||| u == 0x20
    ||| u == 0x85
    ||| u == 0xA0
    ||| u == 0x1680
    ||| 0x2000 <= u <= 0x200A
    ||| u == 0x2028
    ||| u == 0x2029
    ||| u == 0x202F
    ||| u == 0x205F
    ||| u == 0x3000
}

/// `s` without its leading white space.
pub open spec fn trim_start(s: Seq<char>) -> Seq<char>
    decreases s.len(),
{
    if s.len() > 0 && whitespace(s.first()) {
        trim_start(s.drop_first())
    } else {
        s
    }
}

/// `s` without its trailing white space.
pub open spec fn trim_end(s: Seq<char>) -> Seq<char>
    decreases s.len(),
{
    if s.len() > 0 && whitespace(s.last()) {
        trim_end(s.drop_last())
    } else {
        s
    }
}

/// `s` without white space at either end.
pub open spec fn trim(s: Seq<char>) -> Seq<char> {
    trim_end(trim_start(s))
}

/// The view of each string slice of `v`.
pub open spec fn views(v: Seq<&str>) -> Seq<Seq<char>> {
    v.map_values(|p: &str| p@)
}

/// `first_index_of` is in range, points at `x` unless it is the length, and
/// has no `x` before it.
pub proof fn lemma_first_index_of<T>(s: Seq<T>, x: T)
    ensures
        0 <= first_index_of(s, x) <= s.len(),
        first_index_of(s, x) < s.len() ==> s[first_index_of(s, x)] == x,
        forall|j: int| 0 <= j < first_index_of(s, x) ==> s[j] != x,
    decreases s.len(),
{
    if s.len() == 0 || s[0] == x {
    } else {
        let rest = s.drop_first();
        lemma_first_index_of(rest, x);
        assert forall|j: int| 0 <= j < 1 + first_index_of(rest, x) implies s[j] != x by {
            if j > 0 {
                assert(rest[j - 1] == s[j]);
            }
        }
    }
}

/// A position that is in range, points at `x` unless it is the length, and
/// has no `x` before it is `first_index_of`.
pub proof fn lemma_first_index_is<T>(s: Seq<T>, x: T, i: int)
    requires
        0 <= i <= s.len(),
        i < s.len() ==> s[i] == x,
        forall|j: int| 0 <= j < i ==> s[j] != x,
    ensures
        first_index_of(s, x) == i,
{
    lemma_first_index_of(s, x);
}

/// Whether `s` holds no `c`.
pub open spec fn free_of(s: Seq<char>, c: char) -> bool {
    forall|i: int| 0 <= i < s.len() ==> s[i] != c
}

/// Whether `s` neither begins nor ends with white space.
pub open spec fn trimmed(s: Seq<char>) -> bool {
    s.len() > 0 ==> !whitespace(s.first()) && !whitespace(s.last())
}

/// A text that holds no separator is its own single piece.
pub proof fn lemma_split_free(s: Seq<char>, sep: char)
    requires
        free_of(s, sep),
    ensures
        split(s, sep) == seq![s],
        split_once(s, sep) is None,
{
    lemma_first_index_is(s, sep, s.len() as int);
}

/// The first separator of `a + sep + b`, where `a` holds none, is the one in
/// the middle.
pub proof fn lemma_split_once_concat(a: Seq<char>, b: Seq<char>, sep: char)
    requires
        free_of(a, sep),
    ensures
        split_once(a + seq![sep] + b, sep) == Some((a, b)),
{
    let s = a + seq![sep] + b;
    lemma_first_index_is(s, sep, a.len() as int);
    assert(s.take(a.len() as int) =~= a);
    assert(s.skip(a.len() as int + 1) =~= b);
}

/// A piece without separator, added behind a separator, is one more piece.
pub proof fn lemma_split_push(a: Seq<char>, b: Seq<char>, sep: char)
    requires
        free_of(b, sep),
    ensures
        split(a + seq![sep] + b, sep) == split(a, sep).push(b),
    decreases a.len(),
{
    let s = a + seq![sep] + b;
    let i = first_index_of(a, sep);
    lemma_first_index_of(a, sep);
    if i < a.len() {
        lemma_first_index_is(s, sep, i);
        assert(s.take(i) =~= a.take(i));
        assert(s.skip(i + 1) =~= a.skip(i + 1) + seq![sep] + b);
        lemma_split_push(a.skip(i + 1), b, sep);
        assert(split(s, sep) =~= split(a, sep).push(b));
    } else {
        lemma_split_once_concat(a, b, sep);
        lemma_first_index_is(s, sep, a.len() as int);
        assert(s.take(a.len() as int) =~= a);
        assert(s.skip(a.len() as int + 1) =~= b);
        lemma_split_free(b, sep);
        assert(split(s, sep) =~= split(a, sep).push(b));
    }
}

/// Trimming removes one leading white space character from a text that is
/// otherwise trimmed.
pub proof fn lemma_trim_leading(c: char, s: Seq<char>)
    requires
        whitespace(c),
        trimmed(s),
    ensures
        trim(seq![c] + s) == s,
{
    let t = seq![c] + s;
    assert(t.drop_first() =~= s);
    assert(trim_start(t) == trim_start(s));
}

/// The characters of `s`, in order.
pub fn chars_of(s: &str) -> (chars: Vec<char>)
    ensures
        chars@ == s@,
{
    let mut chars: Vec<char> = Vec::new();
    for c in it: s.chars()
        invariant
            chars@ == it.seq().take(it.index()),
            it.seq() == s@,
    {
        chars.push(c);
    }
    chars
}

/// Finds the first `c` at or after `start`; the length where there is none.
pub(crate) fn find_char(chars: &Vec<char>, start: usize, c: char) -> (i: usize)
    requires
        start <= chars.len(),
    ensures
        start <= i <= chars.len(),
        i - start == first_index_of(chars@.skip(start as int), c),
{
    let n = chars.len();
    let mut i: usize = start;
    while i < n && chars[i] != c
        invariant
            n == chars.len(),
            start <= i <= n,
            forall|j: int| start <= j < i ==> chars@[j] != c,
        decreases n - i,
    {
        i += 1;
    }
    proof {
        lemma_first_index_is(chars@.skip(start as int), c, i - start);
    }
    i
}

/// Splits `s` on every `sep`.
pub fn split_str<'a>(s: &'a str, sep: char) -> (pieces: Vec<&'a str>)
    ensures
        views(pieces@) == split(s@, sep),
{
    let chars = chars_of(s);
    let n = chars.len();
    let mut pieces: Vec<&'a str> = Vec::new();
    let mut start: usize = 0;
    assert(s@.skip(0) =~= s@);
    assert(views(pieces@) =~= Seq::<Seq<char>>::empty());
    loop
        invariant
            chars@ == s@,
            n == chars.len(),
            start <= n,
            split(s@, sep) == views(pieces@) + split(s@.skip(start as int), sep),
        decreases n - start,
    {
        let i = find_char(&chars, start, sep);
        let piece = s.substring_char(start, i);
        let ghost before = views(pieces@);
        let ghost rest = s@.skip(start as int);
        pieces.push(piece);
        proof {
            assert(views(pieces@) =~= before.push(piece@));
            assert(rest.take(i - start) =~= s@.subrange(start as int, i as int));
        }
        if i == n {
            assert(rest.take(i - start) =~= rest);
            assert(split(rest, sep) =~= seq![rest]);
            assert(views(pieces@) =~= before + seq![rest]);
            return pieces;
        }
        proof {
            assert(rest.skip(i - start + 1) =~= s@.skip(i + 1));
            assert(before + (seq![rest.take(i - start)] + split(s@.skip(i + 1), sep))
                =~= before.push(piece@) + split(s@.skip(i + 1), sep));
        }
        start = i + 1;
    }
}

/// Splits `s` at its first `sep`.
pub fn split_once_str<'a>(s: &'a str, sep: char) -> (sides: Option<(&'a str, &'a str)>)
    ensures
        match sides {
            Some((left, right)) => split_once(s@, sep) == Some((left@, right@)),
            None => split_once(s@, sep) is None,
        },
{
    let chars = chars_of(s);
    let n = chars.len();
    let i = find_char(&chars, 0, sep);
    assert(s@.skip(0) =~= s@);
    if i < n {
        let left = s.substring_char(0, i);
        let right = s.substring_char(i + 1, n);
        Some((left, right))
    } else {
        None
    }
}

/// Whether `c` is white space.
pub fn is_whitespace(c: char) -> (r: bool)
    ensures
        r == whitespace(c),
{
    let u: u32 = c as u32;
    (0x09 <= u && u <= 0x0D) || u == 0x20 || u == 0x85 || u == 0xA0 || u == 0x1680 || (0x2000 <= u
        && u <= 0x200A) || u == 0x2028 || u == 0x2029 || u == 0x202F || u == 0x205F || u == 0x3000
}

/// Removes the white space at both ends of `s`.
pub fn trim_str<'a>(s: &'a str) -> (t: &'a str)
    ensures
        t@ == trim(s@),
{
    let chars = chars_of(s);
    let n = chars.len();
    let mut a: usize = 0;
    assert(s@.skip(0) =~= s@);
    while a < n && is_whitespace(chars[a])
        invariant
            chars@ == s@,
            n == chars.len(),
            a <= n,
            trim_start(s@) == trim_start(s@.skip(a as int)),
        decreases n - a,
    {
        assert(s@.skip(a as int).drop_first() =~= s@.skip(a + 1));
        a += 1;
    }
    let mut b: usize = n;
    assert(s@.skip(a as int) =~= s@.subrange(a as int, n as int));
    while b > a && is_whitespace(chars[b - 1])
        invariant
            chars@ == s@,
            n == chars.len(),
            a <= b <= n,
            trim_end(s@.skip(a as int)) == trim_end(s@.subrange(a as int, b as int)),
        decreases b,
    {
        assert(s@.subrange(a as int, b as int).drop_last() =~= s@.subrange(a as int, b - 1));
        b -= 1;
    }
    s.substring_char(a, b)
}

} // verus!
