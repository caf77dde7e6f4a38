//! Character sequences: conversion between `str`/`String` and `Vec<char>`,
//! searching, and the whitespace and case rules shared by the parsers.

use vstd::prelude::*;
use crate::chars::spec_ascii_lower;

verus! {

broadcast use vstd::string::group_string_axioms;

/// The characters of `s`, in order.
pub fn chars_of(s: &str) -> (r: Vec<char>)
    ensures
        r@ == s@,
{
    let mut v: Vec<char> = Vec::new();
    for c in it: s.chars()
        invariant
            v@ == it.seq().take(it.index()),
    {
        v.push(c);
    }
    v
}


/// `String::push`: appends `c` at the end of `s`.
#[verifier::external_body]
pub(crate) fn push_char(s: &mut String, c: char)
    ensures
        final(s)@ == old(s)@.push(c),
{
    s.push(c);
}

/// A new `String` holding `v[lo..hi]`.
pub fn string_from_range(v: &Vec<char>, lo: usize, hi: usize) -> (r: String)
    requires
        lo <= hi <= v@.len(),
    ensures
        r@ == v@.subrange(lo as int, hi as int),
{
    let mut r = String::new();
    let mut i = lo;
    while i < hi
        invariant
            lo <= i <= hi <= v@.len(),
            r@ == v@.subrange(lo as int, i as int),
        decreases hi - i,
    {
        push_char(&mut r, v[i]);
        assert(v@.subrange(lo as int, i + 1) == v@.subrange(lo as int, i as int).push(v@[i as int]));
        i = i + 1;
    }
    r
}

/// `i` is the position of the first `c` in `s`.
pub open spec fn is_first_index(s: Seq<char>, c: char, i: int) -> bool {
    &&& 0 <= i < s.len()
    &&& s[i] == c
    &&& forall|k: int| 0 <= k < i ==> s[k] != c
}

/// `s` cut at its first `c` (which is dropped), or `None` when `s` holds no `c`.
pub open spec fn split_once(s: Seq<char>, c: char) -> Option<(Seq<char>, Seq<char>)> {
    if s.contains(c) {
        let i = choose|i: int| is_first_index(s, c, i);
        Some((s.take(i), s.skip(i + 1)))
    } else {
        None
    }
}

/// Cutting at the first `c` loses nothing but that `c`.
pub proof fn lemma_split_once_rejoin(s: Seq<char>, c: char)
    requires
        split_once(s, c) is Some,
    ensures
        ({
            let parts = split_once(s, c)->0;
            s == parts.0 + seq![c] + parts.1 && !parts.0.contains(c)
        }),
{
    let i = choose|i: int| is_first_index(s, c, i);
    assert(s.contains(c));
    let k = choose|k: int| 0 <= k < s.len() && s[k] == c;
    lemma_first_index_exists(s, c, k);
    assert(is_first_index(s, c, i));
    assert(s =~= s.take(i) + seq![c] + s.skip(i + 1));
    assert(!s.take(i).contains(c)) by {
        if s.take(i).contains(c) {
            let j = choose|j: int| 0 <= j < s.take(i).len() && s.take(i)[j] == c;
            assert(s[j] == c);
        }
    }
}

/// A text made of a part without `c`, then `c`, then anything, is cut
/// right after that part.
pub proof fn lemma_split_once_concat(a: Seq<char>, c: char, b: Seq<char>)
    requires
        !a.contains(c),
    ensures
        split_once(a + seq![c] + b, c) == Some((a, b)),
{
    let s = a + seq![c] + b;
    let i = a.len() as int;
    assert(s[i] == c);
    assert forall|k: int| 0 <= k < i implies s[k] != c by {
        assert(s[k] == a[k]);
        if s[k] == c {
            assert(a.contains(c));
        }
    }
    assert(is_first_index(s, c, i));
    lemma_split_once_at(s, c, i);
    assert(s.take(i) =~= a);
    assert(s.skip(i + 1) =~= b);
}

/// An occurrence of `c` at `k` means there is a first one.
pub proof fn lemma_first_index_exists(s: Seq<char>, c: char, k: int)
    requires
        0 <= k < s.len(),
        s[k] == c,
    ensures
        exists|i: int| is_first_index(s, c, i),
    decreases k,
{
    if forall|j: int| 0 <= j < k ==> s[j] != c {
        assert(is_first_index(s, c, k));
    } else {
        let j = choose|j: int| 0 <= j < k && s[j] == c;
        lemma_first_index_exists(s, c, j);
    }
}

/// The first occurrence is unique, so `split_once` cuts there.
pub proof fn lemma_split_once_at(s: Seq<char>, c: char, i: int)
    requires
        is_first_index(s, c, i),
    ensures
        split_once(s, c) == Some((s.take(i), s.skip(i + 1))),
{
    assert(s.contains(c)) by {
        assert(s[i] == c);
    }
    let j = choose|j: int| is_first_index(s, c, j);
    assert(is_first_index(s, c, j));
    if j < i {
        assert(s[j] != c);
    }
    if i < j {
        assert(s[i] != c);
    }
    assert(j == i);
}

/// The first position in `v[lo..hi]` that holds `c`, if any.
pub fn find_char(v: &Vec<char>, lo: usize, hi: usize, c: char) -> (r: Option<usize>)
    requires
        lo <= hi <= v@.len(),
    ensures
        match r {
            Some(i) => lo <= i < hi && v@[i as int] == c && forall|k: int| lo <= k < i ==> v@[k] != c,
            None => forall|k: int| lo <= k < hi ==> v@[k] != c,
        },
{
    let mut i = lo;
    while i < hi
        invariant
            lo <= i <= hi <= v@.len(),
            forall|k: int| lo <= k < i ==> v@[k] != c,
        decreases hi - i,
    {
        if v[i] == c {
            return Some(i);
        }
        i = i + 1;
    }
    None
}

/// Cuts `v[lo..hi]` at its first `c`: the position of that `c`, if any, with
/// its meaning stated over `split_once`.
pub fn split_once_at(v: &Vec<char>, lo: usize, hi: usize, c: char) -> (r: Option<usize>)
    requires
        lo <= hi <= v@.len(),
    ensures
        match r {
            Some(i) => lo <= i < hi && split_once(v@.subrange(lo as int, hi as int), c) == Some(
                (v@.subrange(lo as int, i as int), v@.subrange(i + 1, hi as int)),
            ),
            None => split_once(v@.subrange(lo as int, hi as int), c) is None,
        },
{
    let ghost s = v@.subrange(lo as int, hi as int);
    let r = find_char(v, lo, hi, c);
    match r {
        Some(i) => {
            proof {
                lemma_split_once_at(s, c, i - lo);
                assert(s.take(i - lo) == v@.subrange(lo as int, i as int));
                assert(s.skip(i - lo + 1) == v@.subrange(i + 1, hi as int));
            }
        },
        None => {
            assert(!s.contains(c)) by {
                if s.contains(c) {
                    let k = choose|k: int| 0 <= k < s.len() && s[k] == c;
                    assert(v@[lo + k] == c);
                }
            }
        },
    }
    r
}


/// Unicode `White_Space` characters, the ones `char::is_whitespace` accepts.
pub open spec fn is_whitespace(c: char) -> bool {
    ||| ('\u{9}' <= c && c <= '\u{d}')
    ||| c == ' '
    ||| c == '\u{85}'
    ||| c == '\u{a0}'
    ||| c == '\u{1680}'
    ||| ('\u{2000}' <= c && c <= '\u{200a}')
    ||| c == '\u{2028}'
    ||| c == '\u{2029}'
    ||| c == '\u{202f}'
    ||| c == '\u{205f}'
    ||| c == '\u{3000}'
}

/// Whether `c` is a Unicode whitespace character.
pub fn is_whitespace_char(c: char) -> (r: bool)
    ensures
        r == is_whitespace(c),
{
    ('\u{9}' <= c && c <= '\u{d}') || c == ' ' || c == '\u{85}' || c == '\u{a0}' || c == '\u{1680}'
        || ('\u{2000}' <= c && c <= '\u{200a}') || c == '\u{2028}' || c == '\u{2029}' || c
        == '\u{202f}' || c == '\u{205f}' || c == '\u{3000}'
}

/// Where a text is cut into pieces.
#[derive(Clone, Copy)]
pub enum Separator {
    /// At every occurrence of this character.
    Char(char),
    /// At every whitespace character.
    Whitespace,
}

impl Separator {
    /// Whether `c` is a cutting point.
    pub open spec fn cuts_at(self, c: char) -> bool {
        match self {
            Separator::Char(x) => c == x,
            Separator::Whitespace => is_whitespace(c),
        }
    }

    /// Whether `c` is a cutting point.
    pub fn cuts(&self, c: char) -> (r: bool)
        ensures
            r == self.cuts_at(c),
    {
        match self {
            Separator::Char(x) => c == *x,
            Separator::Whitespace => is_whitespace_char(c),
        }
    }
}

/// The pieces of `s` between cutting points, in order, empty pieces kept:
/// there is always one piece more than there are cutting points.
pub open spec fn split_pieces(s: Seq<char>, sep: Separator) -> Seq<Seq<char>>
    decreases s.len(),
{
    if s.len() == 0 {
        seq![Seq::<char>::empty()]
    } else {
        let before = split_pieces(s.drop_last(), sep);
        if sep.cuts_at(s.last()) {
            before.push(Seq::<char>::empty())
        } else {
            before.update(before.len() - 1, before.last().push(s.last()))
        }
    }
}

/// The pieces of `ws` joined with `sep` between consecutive pieces.
pub open spec fn join(ws: Seq<Seq<char>>, sep: Seq<char>) -> Seq<char>
    decreases ws.len(),
{
    if ws.len() == 0 {
        Seq::empty()
    } else if ws.len() == 1 {
        ws[0]
    } else {
        join(ws.drop_last(), sep) + sep + ws.last()
    }
}

/// Joining the pieces with the cutting character gives back the text.
pub proof fn lemma_split_join(s: Seq<char>, c: char)
    ensures
        join(split_pieces(s, Separator::Char(c)), seq![c]) == s,
    decreases s.len(),
{
    let sep = Separator::Char(c);
    if s.len() == 0 {
        assert(split_pieces(s, sep) =~= seq![Seq::<char>::empty()]);
        assert(s =~= Seq::<char>::empty());
    } else {
        let t = s.drop_last();
        lemma_split_join(t, c);
        lemma_split_pieces_nonempty(t, sep);
        let before = split_pieces(t, sep);
        let x = s.last();
        if x == c {
            let ps = before.push(Seq::<char>::empty());
            assert(ps.drop_last() =~= before);
            assert(join(ps, seq![c]) == join(before, seq![c]) + seq![c] + Seq::<char>::empty());
            assert(s =~= t + seq![c] + Seq::<char>::empty());
        } else {
            let ps = before.update(before.len() - 1, before.last().push(x));
            if before.len() == 1 {
                assert(join(ps, seq![c]) == ps[0]);
                assert(join(before, seq![c]) == before[0]);
                assert(s =~= t.push(x));
            } else {
                assert(ps.drop_last() =~= before.drop_last());
                assert(join(ps, seq![c]) == join(before.drop_last(), seq![c]) + seq![c] + before.last().push(x));
                assert(join(before, seq![c]) == join(before.drop_last(), seq![c]) + seq![c] + before.last());
                assert(s =~= t.push(x));
                assert(join(ps, seq![c]) =~= join(before, seq![c]).push(x));
            }
        }
    }
}

/// There is always at least one piece.
pub proof fn lemma_split_pieces_nonempty(s: Seq<char>, sep: Separator)
    ensures
        split_pieces(s, sep).len() >= 1,
    decreases s.len(),
{
    if s.len() > 0 {
        lemma_split_pieces_nonempty(s.drop_last(), sep);
    }
}

/// The test that keeps a piece among the words: it is not empty.
pub open spec fn nonempty_piece() -> spec_fn(Seq<char>) -> bool {
    |w: Seq<char>| w.len() > 0
}

/// The words of `s`: its pieces between whitespace, empty ones dropped.
pub open spec fn words(s: Seq<char>) -> Seq<Seq<char>> {
    split_pieces(s, Separator::Whitespace).filter(nonempty_piece())
}

/// The pieces that a list of ranges of `s` designates.
pub open spec fn ranges_text(s: Seq<char>, r: Seq<(usize, usize)>) -> Seq<Seq<char>> {
    r.map_values(|p: (usize, usize)| s.subrange(p.0 as int, p.1 as int))
}

/// Every range of `r` lies within `0..=len` and is ordered.
pub open spec fn ranges_within(r: Seq<(usize, usize)>, len: nat) -> bool {
    forall|k: int| 0 <= k < r.len() ==> #[trigger] r[k].0 <= r[k].1 && r[k].1 <= len
}

/// The pieces of `v[lo..hi]`, as ranges of positions in `v`.
pub fn split_ranges(v: &Vec<char>, lo: usize, hi: usize, sep: Separator) -> (r: Vec<(usize, usize)>)
    requires
        lo <= hi <= v@.len(),
    ensures
        ranges_within(r@, v@.len()),
        ranges_text(v@, r@) == split_pieces(v@.subrange(lo as int, hi as int), sep),
{
    let ghost s = v@.subrange(lo as int, hi as int);
    let mut r: Vec<(usize, usize)> = Vec::new();
    let mut start: usize = lo;
    let mut i: usize = lo;
    assert(s.take(0) =~= Seq::<char>::empty());
    assert(v@.subrange(lo as int, lo as int) =~= Seq::<char>::empty());
    assert(ranges_text(v@, r@).push(v@.subrange(lo as int, lo as int)) =~= seq![Seq::<char>::empty()]);
    while i < hi
        invariant
            lo <= start <= i <= hi <= v@.len(),
            s == v@.subrange(lo as int, hi as int),
            ranges_within(r@, v@.len()),
            split_pieces(s.take(i - lo), sep) == ranges_text(v@, r@).push(
                v@.subrange(start as int, i as int),
            ),
        decreases hi - i,
    {
        let ghost before = split_pieces(s.take(i - lo), sep);
        assert(s.take(i - lo + 1).drop_last() == s.take(i - lo));
        assert(s.take(i - lo + 1).last() == v@[i as int]);
        let ghost r0 = r@;
        if sep.cuts(v[i]) {
            r.push((start, i));
            assert(r@ == r0.push((start, i)));
            assert(ranges_within(r@, v@.len())) by {
                assert forall|k: int| 0 <= k < r@.len() implies #[trigger] r@[k].0 <= r@[k].1 && r@[k].1 <= v@.len() by {
                    if k < r0.len() {
                        assert(r@[k] == r0[k]);
                    }
                }
            }
            assert(ranges_text(v@, r@) =~= ranges_text(v@, r0).push(v@.subrange(start as int, i as int)));
            start = i + 1;
            assert(v@.subrange(start as int, i + 1) =~= Seq::<char>::empty());
            assert(split_pieces(s.take(i - lo + 1), sep) == before.push(Seq::<char>::empty()));
        } else {
            assert(v@.subrange(start as int, i + 1) == v@.subrange(start as int, i as int).push(v@[i as int]));
            assert(split_pieces(s.take(i - lo + 1), sep) =~= ranges_text(v@, r@).push(v@.subrange(start as int, i + 1)));
        }
        i = i + 1;
    }
    r.push((start, hi));
    assert(s.take(hi - lo) == s);
    assert(ranges_text(v@, r@) =~= split_pieces(s, sep));
    r
}

/// The words of `v[lo..hi]`, as ranges of positions in `v`.
pub fn word_ranges(v: &Vec<char>, lo: usize, hi: usize) -> (r: Vec<(usize, usize)>)
    requires
        lo <= hi <= v@.len(),
    ensures
        ranges_within(r@, v@.len()),
        ranges_text(v@, r@) == words(v@.subrange(lo as int, hi as int)),
{
    let pieces = split_ranges(v, lo, hi, Separator::Whitespace);
    let ghost all = ranges_text(v@, pieces@);
    let ghost nonempty = nonempty_piece();
    let mut r: Vec<(usize, usize)> = Vec::new();
    let mut k: usize = 0;
    assert(all.take(0) =~= Seq::<Seq<char>>::empty());
    assert(ranges_text(v@, r@) =~= Seq::<Seq<char>>::empty());
    assert(all.take(0).filter(nonempty) =~= Seq::<Seq<char>>::empty()) by {
        reveal(Seq::filter);
    }
    while k < pieces.len()
        invariant
            k <= pieces@.len(),
            all == ranges_text(v@, pieces@),
            all == split_pieces(v@.subrange(lo as int, hi as int), Separator::Whitespace),
            nonempty == nonempty_piece(),
            ranges_within(pieces@, v@.len()),
            ranges_within(r@, v@.len()),
            ranges_text(v@, r@) == all.take(k as int).filter(nonempty),
        decreases pieces@.len() - k,
    {
        let p = pieces[k];
        let ghost r0 = r@;
        assert(all.take(k + 1).drop_last() =~= all.take(k as int));
        assert(all.take(k + 1).last() == v@.subrange(p.0 as int, p.1 as int));
        assert(p == pieces@[k as int]);
        assert(p.0 <= p.1 <= v@.len());
        let ghost t = all.take(k + 1);
        assert(all.len() == pieces@.len());
        assert(t.len() == k + 1);
        assert(t.last().len() == p.1 - p.0);
        if p.0 < p.1 {
            assert(t.filter(nonempty) == t.drop_last().filter(nonempty).push(t.last())) by {
                reveal(Seq::filter);
                assert(nonempty(t.last()));
            }
            r.push(p);
            assert(ranges_text(v@, r@) =~= ranges_text(v@, r0).push(v@.subrange(p.0 as int, p.1 as int)));
        } else {
            assert(t.filter(nonempty) == t.drop_last().filter(nonempty)) by {
                reveal(Seq::filter);
                assert(!nonempty(t.last()));
            }
            assert(ranges_text(v@, r@) =~= ranges_text(v@, r0));
        }
        k = k + 1;
    }
    assert(all.take(pieces@.len() as int) =~= all);
    r
}

/// `s` without its leading whitespace.
pub open spec fn trim_start(s: Seq<char>) -> Seq<char>
    decreases s.len(),
{
    if s.len() > 0 && is_whitespace(s[0]) {
        trim_start(s.drop_first())
    } else {
        s
    }
}

/// `s` without its trailing whitespace.
pub open spec fn trim_end(s: Seq<char>) -> Seq<char>
    decreases s.len(),
{
    if s.len() > 0 && is_whitespace(s.last()) {
        trim_end(s.drop_last())
    } else {
        s
    }
}

/// `s` without leading and trailing whitespace, as `str::trim` gives it.
pub open spec fn trim(s: Seq<char>) -> Seq<char> {
    trim_end(trim_start(s))
}

/// A cutting character in front of a text adds one empty piece in front.
proof fn lemma_split_pieces_cut_prepended(c: char, s: Seq<char>, sep: Separator)
    requires
        sep.cuts_at(c),
    ensures
        split_pieces(seq![c] + s, sep) == seq![Seq::<char>::empty()] + split_pieces(s, sep),
    decreases s.len(),
{
    let t = seq![c] + s;
    if s.len() == 0 {
        assert(t.drop_last() =~= Seq::<char>::empty());
        assert(t.last() == c);
        assert(split_pieces(t.drop_last(), sep) =~= seq![Seq::<char>::empty()]);
        assert(split_pieces(s, sep) =~= seq![Seq::<char>::empty()]);
        assert(split_pieces(t, sep) =~= seq![Seq::<char>::empty()] + split_pieces(s, sep));
    } else {
        lemma_split_pieces_cut_prepended(c, s.drop_last(), sep);
        lemma_split_pieces_nonempty(s.drop_last(), sep);
        assert(t.drop_last() =~= seq![c] + s.drop_last());
        assert(t.last() == s.last());
        let before = split_pieces(s.drop_last(), sep);
        let front = seq![Seq::<char>::empty()] + before;
        assert(split_pieces(t.drop_last(), sep) == front);
        if sep.cuts_at(s.last()) {
            assert(front.push(Seq::<char>::empty()) =~= seq![Seq::<char>::empty()] + before.push(Seq::<char>::empty()));
        } else {
            assert(front.last() == before.last());
            assert(front.update(front.len() - 1, front.last().push(s.last())) =~= seq![Seq::<char>::empty()]
                + before.update(before.len() - 1, before.last().push(s.last())));
        }
        assert(split_pieces(t, sep) =~= seq![Seq::<char>::empty()] + split_pieces(s, sep));
    }
}

/// Leading whitespace adds no word.
proof fn lemma_words_trim_start(s: Seq<char>)
    ensures
        words(trim_start(s)) == words(s),
    decreases s.len(),
{
    if s.len() > 0 && is_whitespace(s[0]) {
        let t = s.drop_first();
        lemma_words_trim_start(t);
        assert(s =~= seq![s[0]] + t);
        lemma_split_pieces_cut_prepended(s[0], t, Separator::Whitespace);
        let ps = split_pieces(t, Separator::Whitespace);
        ps.lemma_filter_prepend(Seq::<char>::empty(), nonempty_piece());
        assert(words(s) =~= Seq::<Seq<char>>::empty() + ps.filter(nonempty_piece()));
    }
}

/// Trailing whitespace adds no word.
proof fn lemma_words_trim_end(s: Seq<char>)
    ensures
        words(trim_end(s)) == words(s),
    decreases s.len(),
{
    if s.len() > 0 && is_whitespace(s.last()) {
        let t = s.drop_last();
        lemma_words_trim_end(t);
        let ps = split_pieces(s, Separator::Whitespace);
        assert(ps == split_pieces(t, Separator::Whitespace).push(Seq::<char>::empty()));
        assert(ps.drop_last() =~= split_pieces(t, Separator::Whitespace));
        reveal(Seq::filter);
        assert(words(s) == words(t));
    }
}

/// Trimming a text changes none of its words.
pub proof fn lemma_words_trim(s: Seq<char>)
    ensures
        words(trim(s)) == words(s),
{
    lemma_words_trim_end(trim_start(s));
    lemma_words_trim_start(s);
}

proof fn lemma_trim_start_skip(s: Seq<char>, k: int)
    requires
        0 <= k <= s.len(),
        forall|j: int| 0 <= j < k ==> is_whitespace(#[trigger] s[j]),
        k == s.len() || !is_whitespace(s[k]),
    ensures
        trim_start(s) == s.skip(k),
    decreases k,
{
    if k == 0 {
        assert(s.skip(0) =~= s);
    } else {
        assert(is_whitespace(s[0]));
        let t = s.drop_first();
        assert forall|j: int| 0 <= j < k - 1 implies is_whitespace(#[trigger] t[j]) by {
            assert(t[j] == s[j + 1]);
        }
        lemma_trim_start_skip(t, k - 1);
        assert(t.skip(k - 1) =~= s.skip(k));
    }
}

proof fn lemma_trim_end_take(s: Seq<char>, k: int)
    requires
        0 <= k <= s.len(),
        forall|j: int| k <= j < s.len() ==> is_whitespace(#[trigger] s[j]),
        k == 0 || !is_whitespace(s[k - 1]),
    ensures
        trim_end(s) == s.take(k),
    decreases s.len() - k,
{
    if k == s.len() {
        assert(s.take(k) =~= s);
    } else {
        assert(is_whitespace(s.last()));
        let t = s.drop_last();
        lemma_trim_end_take(t, k);
        assert(t.take(k) =~= s.take(k));
    }
}

/// The bounds of `v[lo..hi]` once trimmed of whitespace at both ends.
pub fn trim_bounds(v: &Vec<char>, lo: usize, hi: usize) -> (r: (usize, usize))
    requires
        lo <= hi <= v@.len(),
    ensures
        lo <= r.0 <= r.1 <= hi,
        v@.subrange(r.0 as int, r.1 as int) == trim(v@.subrange(lo as int, hi as int)),
{
    let ghost s = v@.subrange(lo as int, hi as int);
    let mut a = lo;
    while a < hi && is_whitespace_char(v[a])
        invariant
            lo <= a <= hi <= v@.len(),
            forall|j: int| lo <= j < a ==> is_whitespace(#[trigger] v@[j]),
        decreases hi - a,
    {
        a = a + 1;
    }
    proof {
        assert forall|j: int| 0 <= j < a - lo implies is_whitespace(#[trigger] s[j]) by {
            assert(s[j] == v@[lo + j]);
        }
        lemma_trim_start_skip(s, a - lo);
    }
    let ghost t = s.skip(a - lo);
    assert(t =~= v@.subrange(a as int, hi as int));
    let mut b = hi;
    while b > a && is_whitespace_char(v[b - 1])
        invariant
            lo <= a <= b <= hi <= v@.len(),
            forall|j: int| b <= j < hi ==> is_whitespace(#[trigger] v@[j]),
        decreases b - a,
    {
        b = b - 1;
    }
    proof {
        assert forall|j: int| b - a <= j < t.len() implies is_whitespace(#[trigger] t[j]) by {
            assert(t[j] == v@[a + j]);
        }
        lemma_trim_end_take(t, b - a);
        assert(t.take(b - a) =~= v@.subrange(a as int, b as int));
    }
    (a, b)
}


/// `a` and `b` are equal once ASCII letters are folded to lower case.
pub open spec fn eq_ignore_ascii_case(a: Seq<char>, b: Seq<char>) -> bool {
    a.len() == b.len() && forall|i: int| 0 <= i < a.len() ==> spec_ascii_lower(#[trigger] a[i]) == spec_ascii_lower(b[i])
}

/// ASCII lower-casing of one character.
pub fn ascii_lower(c: char) -> (r: char)
    ensures
        r == spec_ascii_lower(c),
{
    if 'A' <= c && c <= 'Z' {
        let code: u8 = c as u8;
        (code + 32) as char
    } else {
        c
    }
}

/// Whether `input`, trimmed of whitespace, is `keyword` up to ASCII case
/// (how the console commands `yes`, `no`, `help` and `end` are recognised).
pub fn matches_keyword(input: &str, keyword: &str) -> (r: bool)
    ensures
        r == eq_ignore_ascii_case(trim(input@), keyword@),
{
    let v = chars_of(input);
    let w = chars_of(keyword);
    let (a, b) = trim_bounds(&v, 0, v.len());
    assert(v@.subrange(0, v@.len() as int) =~= v@);
    let ghost t = v@.subrange(a as int, b as int);
    if b - a != w.len() {
        return false;
    }
    let mut i: usize = 0;
    while i < w.len()
        invariant
            a <= b <= v@.len(),
            b - a == w@.len(),
            t == v@.subrange(a as int, b as int),
            t == trim(input@),
            w@ == keyword@,
            i <= w@.len(),
            forall|k: int| 0 <= k < i ==> spec_ascii_lower(#[trigger] t[k]) == spec_ascii_lower(w@[k]),
        decreases w@.len() - i,
    {
        if ascii_lower(v[a + i]) != ascii_lower(w[i]) {
            assert(t[i as int] == v@[a + i]);
            assert(!eq_ignore_ascii_case(t, w@)) by {
                assert(spec_ascii_lower(t[i as int]) != spec_ascii_lower(w@[i as int]));
            }
            return false;
        }
        assert(t[i as int] == v@[a + i]);
        i = i + 1;
    }
    true
}

/// Whether `v[lo..hi]` spells `word`.
pub fn range_is(v: &Vec<char>, lo: usize, hi: usize, word: &str) -> (r: bool)
    requires
        lo <= hi <= v@.len(),
    ensures
        r == (v@.subrange(lo as int, hi as int) == word@),
{
    let w = chars_of(word);
    if hi - lo != w.len() {
        return false;
    }
    let mut i: usize = 0;
    while i < w.len()
        invariant
            lo <= hi <= v@.len(),
            hi - lo == w@.len(),
            w@ == word@,
            i <= w@.len(),
            forall|k: int| 0 <= k < i ==> v@[lo + k] == w@[k],
        decreases w@.len() - i,
    {
        if v[lo + i] != w[i] {
            assert(v@.subrange(lo as int, hi as int)[i as int] != w@[i as int]);
            return false;
        }
        i = i + 1;
    }
    assert(v@.subrange(lo as int, hi as int) =~= w@);
    true
}

} // verus!
