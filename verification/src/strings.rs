//! Text as sequences of characters: the order on keys and the splitting of paths.

use vstd::prelude::*;

verus! {

/// The views of a list of strings, one for one.
pub open spec fn texts(list: Seq<String>) -> Seq<Seq<char>> {
    Seq::new(list.len(), |i: int| list[i]@)
}

/// Whether `a` comes before `b` when the two are compared character by character
/// from position `i` on: at the first difference the smaller code point decides,
/// and a text that ends first comes first.
pub open spec fn text_lt_from(a: Seq<char>, b: Seq<char>, i: int) -> bool
    decreases a.len() - i,
{
    if i >= b.len() {
        false
    } else if i >= a.len() {
        true
    } else if a[i] != b[i] {
        (a[i] as int) < (b[i] as int)
    } else {
        text_lt_from(a, b, i + 1)
    }
}

/// The lexicographic order on texts, by code point.
pub open spec fn text_lt(a: Seq<char>, b: Seq<char>) -> bool {
    text_lt_from(a, b, 0)
}

/// The order from a position on, where the texts agree before it.
proof fn lemma_text_order_from(a: Seq<char>, b: Seq<char>, i: int)
    requires
        0 <= i <= a.len(),
        i <= b.len(),
        a.take(i) == b.take(i),
    ensures
        !(text_lt_from(a, b, i) && text_lt_from(b, a, i)),
        text_lt_from(a, b, i) || text_lt_from(b, a, i) || a == b,
        a == b ==> !text_lt_from(a, b, i),
    decreases a.len() - i,
{
    if i >= a.len() || i >= b.len() {
        if i >= a.len() && i >= b.len() {
            assert(a.take(i) =~= a);
            assert(b.take(i) =~= b);
        } else if i >= a.len() {
            assert(a.len() != b.len());
        } else {
            assert(a.len() != b.len());
        }
    } else if a[i] != b[i] {
    } else {
        assert(a.take(i + 1) =~= a.take(i).push(a[i]));
        assert(b.take(i + 1) =~= b.take(i).push(b[i]));
        lemma_text_order_from(a, b, i + 1);
    }
}

/// Of two texts exactly one holds: they are equal, the first comes before the
/// second, or the second before the first.
pub proof fn lemma_text_order_total(a: Seq<char>, b: Seq<char>)
    ensures
        !(text_lt(a, b) && text_lt(b, a)),
        text_lt(a, b) || text_lt(b, a) || a == b,
        a == b ==> !text_lt(a, b),
{
    assert(a.take(0) =~= b.take(0));
    lemma_text_order_from(a, b, 0);
}

/// The order from a position on is transitive.
proof fn lemma_text_order_chain(a: Seq<char>, b: Seq<char>, c: Seq<char>, i: int)
    requires
        0 <= i,
        text_lt_from(a, b, i),
        text_lt_from(b, c, i),
    ensures
        text_lt_from(a, c, i),
    decreases a.len() - i,
{
    if i < a.len() && i < b.len() && i < c.len() && a[i] == b[i] && b[i] == c[i] {
        lemma_text_order_chain(a, b, c, i + 1);
    }
}

/// The order on texts is transitive.
pub proof fn lemma_text_order_transitive(a: Seq<char>, b: Seq<char>, c: Seq<char>)
    requires
        text_lt(a, b),
        text_lt(b, c),
    ensures
        text_lt(a, c),
{
    lemma_text_order_chain(a, b, c, 0);
}

/// The characters of a string, in order.
pub fn chars_of(s: &str) -> (r: Vec<char>)
    ensures
        r@ == s@,
{
    let mut out: Vec<char> = Vec::new();
    for c in it: s.chars()
        invariant
            it.seq() == s@,
            out@ == s@.take(it.index() as int),
    {
        out.push(c);
    }
    out
}

/// Whether `a` comes before `b` in the order on texts.
pub fn text_less(a: &str, b: &str) -> (r: bool)
    ensures
        r == text_lt(a@, b@),
{
    let x: Vec<char> = chars_of(a);
    let y: Vec<char> = chars_of(b);
    let mut i: usize = 0;
    while i < x.len() && i < y.len()
        invariant
            x@ == a@,
            y@ == b@,
            i <= x.len(),
            i <= y.len(),
            text_lt(a@, b@) == text_lt_from(a@, b@, i as int),
        decreases x.len() - i,
    {
        let c: char = x[i];
        let d: char = y[i];
        if c != d {
            return c < d;
        }
        i = i + 1;
    }
    i < y.len()
}

/// Whether a string is the one character `c`.
pub fn is_char(s: &str, c: char) -> (r: bool)
    ensures
        r == (s@ == seq![c]),
{
    let cs: Vec<char> = chars_of(s);
    let r: bool = cs.len() == 1 && cs[0] == c;
    proof {
        if r {
            assert(s@ =~= seq![c]);
        }
    }
    r
}

/// The segments of `s` from position `start` on, where no `.` stands between
/// `start` and `i`: each `.` ends one segment and begins the next.
pub open spec fn split_from(s: Seq<char>, start: int, i: int) -> Seq<Seq<char>>
    decreases s.len() - i,
{
    if i >= s.len() {
        seq![s.subrange(start, s.len() as int)]
    } else if s[i] == '.' {
        seq![s.subrange(start, i)] + split_from(s, i + 1, i + 1)
    } else {
        split_from(s, start, i + 1)
    }
}

/// The segments of a dotted path. A path without a `.` is one segment, the
/// empty path too; no character escapes a `.`.
pub open spec fn path_segments(s: Seq<char>) -> Seq<Seq<char>> {
    split_from(s, 0, 0)
}

/// A path has at least one segment.
pub proof fn lemma_path_has_segment(s: Seq<char>)
    ensures
        path_segments(s).len() >= 1,
{
    lemma_split_has_segment(s, 0, 0);
}

/// Splitting from a position on gives at least one segment.
proof fn lemma_split_has_segment(s: Seq<char>, start: int, i: int)
    ensures
        split_from(s, start, i).len() >= 1,
    decreases s.len() - i,
{
    if i < s.len() && s[i] != '.' {
        lemma_split_has_segment(s, start, i + 1);
    }
}

/// Splits a dotted path into its segments.
pub fn split_path(path: &str) -> (r: Vec<String>)
    ensures
        texts(r@) == path_segments(path@),
{
    let cs: Vec<char> = chars_of(path);
    let n: usize = cs.len();
    let mut out: Vec<String> = Vec::new();
    let mut start: usize = 0;
    let mut i: usize = 0;
    while i < n
        invariant
            cs@ == path@,
            n == cs.len(),
            start <= i <= n,
            path_segments(path@) == texts(out@) + split_from(path@, start as int, i as int),
        decreases n - i,
    {
        if cs[i] == '.' {
            let piece: &str = path.substring_char(start, i);
            let ghost before = texts(out@);
            out.push(piece.to_owned());
            assert(texts(out@) =~= before.push(path@.subrange(start as int, i as int)));
            assert(texts(out@) + split_from(path@, i + 1, i + 1) =~= before + split_from(
                path@,
                start as int,
                i as int,
            ));
            start = i + 1;
        }
        i = i + 1;
    }
    let piece: &str = path.substring_char(start, n);
    let ghost before = texts(out@);
    out.push(piece.to_owned());
    assert(texts(out@) =~= before.push(path@.subrange(start as int, n as int)));
    out
}

} // verus!
