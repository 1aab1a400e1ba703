//! Lazy, zero-copy splitting of borrowed text on a delimiter.
//!
//! A [`StrSplit`] holds the unconsumed suffix of an input string and a
//! delimiter matcher; each call to [`StrSplit::next`] yields the segment
//! before the next delimiter occurrence and advances past it.  Matching is
//! abstracted by the [`Delimiter`] trait, implemented for literal `&str`
//! patterns and for single characters.  All positions are character indices
//! into the string's character sequence, so multi-byte characters are
//! handled soundly.

use vstd::prelude::*;

verus! {

/// True when the delimiter `d` occurs in `s` starting at character index `i`.
pub open spec fn match_at(s: Seq<char>, d: Seq<char>, i: int) -> bool {
    &&& 0 <= i
    &&& i + d.len() <= s.len()
    &&& forall|k: int| 0 <= k < d.len() ==> s[i + k] == d[k]
}

/// Character index of the first occurrence of `d` in `s` at position `i` or
/// later, or `None` when `d` does not occur there.
pub open spec fn find_from(s: Seq<char>, d: Seq<char>, i: int) -> Option<int>
    decreases s.len() - i,
{
    if i < 0 || i + d.len() > s.len() {
        None
    } else if match_at(s, d, i) {
        Some(i)
    } else {
        find_from(s, d, i + 1)
    }
}

/// `find_from(s, d, i)` returns exactly the first match position at or after
/// `i`, and `None` exactly when no such position exists.
pub proof fn lemma_find_from(s: Seq<char>, d: Seq<char>, i: int)
    requires
        0 <= i,
    ensures
        match find_from(s, d, i) {
            Some(j) => {
                &&& i <= j
                &&& match_at(s, d, j)
                &&& forall|k: int| i <= k < j ==> !match_at(s, d, k)
            },
            None => forall|k: int| i <= k ==> !match_at(s, d, k),
        },
    decreases s.len() - i,
{
    if i + d.len() > s.len() {
        assert forall|k: int| i <= k implies !match_at(s, d, k) by {
            assert(k + d.len() > s.len());
        }
    } else if match_at(s, d, i) {
    } else {
        lemma_find_from(s, d, i + 1);
    }
}

/// The sequence of segments that splitting `s` on the non-empty delimiter
/// `d` produces: the text before each occurrence of `d`, in order, and
/// finally the tail after the last occurrence.  Splitting always produces at
/// least one segment; an empty `s` gives one empty segment.
pub open spec fn split_of(s: Seq<char>, d: Seq<char>) -> Seq<Seq<char>>
    recommends
        d.len() > 0,
    decreases s.len(),
        when d.len() > 0
        via split_of_decreases
{
    match find_from(s, d, 0) {
        Some(i) => seq![s.subrange(0, i)] + split_of(s.subrange(i + d.len(), s.len() as int), d),
        None => seq![s],
    }
}

#[via_fn]
proof fn split_of_decreases(s: Seq<char>, d: Seq<char>) {
    lemma_find_from(s, d, 0);
}

/// The segments re-joined with the delimiter `d` put back between each pair
/// of consecutive segments.
pub open spec fn join_with(parts: Seq<Seq<char>>, d: Seq<char>) -> Seq<char>
    decreases parts.len(),
{
    if parts.len() == 0 {
        Seq::empty()
    } else if parts.len() == 1 {
        parts[0]
    } else {
        parts[0] + d + join_with(parts.drop_first(), d)
    }
}

/// Splitting yields at least one segment, whatever the input.
pub proof fn lemma_split_nonempty(s: Seq<char>, d: Seq<char>)
    requires
        d.len() > 0,
    ensures
        split_of(s, d).len() >= 1,
{
}

/// A delimiter that does not occur in the text splits it into exactly one
/// segment: the whole text.
pub proof fn lemma_split_absent(s: Seq<char>, d: Seq<char>)
    requires
        d.len() > 0,
        forall|i: int| !match_at(s, d, i),
    ensures
        split_of(s, d) == seq![s],
{
    lemma_find_from(s, d, 0);
    match find_from(s, d, 0) {
        Some(i) => {
            assert(match_at(s, d, i));
        },
        None => {},
    }
}

/// Round trip: re-joining the segments with the delimiter reconstructs the
/// original text exactly.
pub proof fn lemma_split_round_trip(s: Seq<char>, d: Seq<char>)
    requires
        d.len() > 0,
    ensures
        join_with(split_of(s, d), d) == s,
    decreases s.len(),
{
    lemma_find_from(s, d, 0);
    match find_from(s, d, 0) {
        Some(i) => {
            let head = s.subrange(0, i);
            let tail = s.subrange(i + d.len(), s.len() as int);
            lemma_split_round_trip(tail, d);
            lemma_split_nonempty(tail, d);
            let parts = split_of(s, d);
            assert(parts == seq![head] + split_of(tail, d));
            assert(parts.len() >= 2 ==> parts.drop_first() =~= split_of(tail, d));
            assert(s.subrange(i, i + d.len() as int) =~= d);
            assert(s =~= head + s.subrange(i, i + d.len() as int) + tail);
        },
        None => {},
    }
}

/// The split is a function of the haystack's characters and the delimiter's
/// characters alone: two splitters built over equal text and equal
/// delimiters yield identical segment sequences.
pub proof fn lemma_split_deterministic(s1: Seq<char>, d1: Seq<char>, s2: Seq<char>, d2: Seq<char>)
    requires
        s1 == s2,
        d1 == d2,
    ensures
        split_of(s1, d1) == split_of(s2, d2),
{
}

/// A delimiter matcher: given a search text, finds the first occurrence of
/// the delimiter in it.  Positions are character indices.
pub trait Delimiter {
    /// The sequence of characters this matcher searches for.
    spec fn delim(&self) -> Seq<char>;

    /// Returns `Some((start, end))` where `start` is the character index of
    /// the first (leftmost) occurrence of the delimiter in `s` and `end` is
    /// the index just past it, or `None` when the delimiter does not occur.
    fn find_next(&self, s: &str) -> (r: Option<(usize, usize)>)
        ensures
            match r {
                Some(pos) => {
                    &&& match_at(s@, self.delim(), pos.0 as int)
                    &&& forall|j: int| 0 <= j < pos.0 ==> !match_at(s@, self.delim(), j)
                    &&& pos.1 == pos.0 + self.delim().len()
                },
                None => forall|j: int| !match_at(s@, self.delim(), j),
            },
    ;
}

impl<'d> Delimiter for &'d str {
    open spec fn delim(&self) -> Seq<char> {
        self@
    }

    /// Literal-substring search: scans every candidate start position in
    /// order and compares the pattern character by character.
    fn find_next(&self, s: &str) -> (r: Option<(usize, usize)>) {
        let n = s.unicode_len();
        let m = self.unicode_len();
        if m > n {
            return None;
        }
        let mut i: usize = 0;
        while i <= n - m
            invariant
                m == self.delim().len(),
                n == s@.len(),
                m <= n,
                i <= n - m + 1,
                forall|j: int| 0 <= j < i ==> !match_at(s@, self.delim(), j),
            decreases n - m - i + 1,
        {
            let mut k: usize = 0;
            let mut mismatch = false;
            while k < m && !mismatch
                invariant
                    m == self.delim().len(),
                    n == s@.len(),
                    i + m <= n,
                    k <= m,
                    !mismatch ==> forall|t: int| 0 <= t < k ==> s@[i + t] == self.delim()[t],
                    mismatch ==> !match_at(s@, self.delim(), i as int),
                decreases m - k + (if mismatch { 0int } else { 1int }),
            {
                if s.get_char(i + k) != self.get_char(k) {
                    mismatch = true;
                } else {
                    k = k + 1;
                }
            }
            if !mismatch {
                return Some((i, i + m));
            }
            i = i + 1;
        }
        proof {
            assert forall|j: int| !match_at(s@, self.delim(), j) by {
                if j >= i {
                    assert(j + m > n);
                }
            }
        }
        None
    }
}

impl Delimiter for char {
    open spec fn delim(&self) -> Seq<char> {
        seq![*self]
    }

    /// Single-character search: scans character positions in order; the
    /// match is one character wide.
    fn find_next(&self, s: &str) -> (r: Option<(usize, usize)>) {
        let n = s.unicode_len();
        let mut i: usize = 0;
        while i < n
            invariant
                n == s@.len(),
                i <= n,
                forall|j: int| 0 <= j < i ==> !match_at(s@, seq![*self], j),
            decreases n - i,
        {
            if s.get_char(i) == *self {
                return Some((i, i + 1));
            }
            proof {
                assert(seq![*self][0] == *self);
                assert(!match_at(s@, seq![*self], i as int));
            }
            i = i + 1;
        }
        None
    }
}

/// A lazy splitter over borrowed text.  `remainder` is the unconsumed
/// suffix of the original input; once it becomes `None`, iteration has
/// permanently ended.
pub struct StrSplit<'a, D> {
    remainder: Option<&'a str>,
    delimiter: D,
}

impl<'a, D> StrSplit<'a, D> {
    /// The characters of the unconsumed suffix, or `None` once iteration has
    /// ended.
    pub closed spec fn remainder_view(&self) -> Option<Seq<char>> {
        match self.remainder {
            Some(r) => Some(r@),
            None => None,
        }
    }

    /// The delimiter matcher this splitter was built with.
    pub closed spec fn delimiter_val(&self) -> D {
        self.delimiter
    }

    pub fn new(haystack: &'a str, delimiter: D) -> (r: Self)
        ensures
            r.remainder_view() == Some(haystack@),
            r.delimiter_val() == delimiter,
    {
        Self { remainder: Some(haystack), delimiter }
    }
}

impl<'a, D: Delimiter> StrSplit<'a, D> {
    /// The characters of the delimiter this splitter searches for.
    pub open spec fn delim_chars(&self) -> Seq<char> {
        self.delimiter_val().delim()
    }

    /// Yields the next segment, or `None` once the input is exhausted.
    ///
    /// While a remainder `r` is left: if the delimiter first occurs in `r`
    /// at character index `i`, the segment before it is yielded and the
    /// remainder advances past the occurrence; otherwise all of `r` is
    /// yielded as the final segment (even when empty) and iteration ends.
    pub fn next(&mut self) -> (r: Option<&'a str>)
        ensures
            final(self).delimiter_val() == old(self).delimiter_val(),
            match old(self).remainder_view() {
                None => r is None && final(self).remainder_view() is None,
                Some(rem) => match find_from(rem, old(self).delim_chars(), 0) {
                    Some(i) => {
                        &&& r matches Some(seg) && seg@ == rem.subrange(0, i)
                        &&& final(self).remainder_view() == Some(
                            rem.subrange(i + old(self).delim_chars().len(), rem.len() as int),
                        )
                    },
                    None => {
                        &&& r matches Some(seg) && seg@ == rem
                        &&& final(self).remainder_view() is None
                    },
                },
            },
    {
        match self.remainder {
            Some(rem) => {
                match self.delimiter.find_next(rem) {
                    Some((start, end)) => {
                        proof {
                            lemma_find_from(rem@, self.delim_chars(), 0);
                        }
                        let segment = rem.substring_char(0, start);
                        self.remainder = Some(rem.substring_char(end, rem.unicode_len()));
                        Some(segment)
                    },
                    None => {
                        proof {
                            lemma_find_from(rem@, self.delim_chars(), 0);
                        }
                        self.remainder = None;
                        Some(rem)
                    },
                }
            },
            None => None,
        }
    }
}

/// The prefix of `s` before the first occurrence of the character `c`, or
/// all of `s` when `c` does not occur in it.
pub open spec fn prefix_before(s: Seq<char>, c: char) -> Seq<char> {
    match find_from(s, seq![c], 0) {
        Some(i) => s.subrange(0, i),
        None => s,
    }
}

/// Returns the text up to (not including) the first occurrence of `c`, or
/// the whole text when `c` never occurs.  A splitter always yields at least
/// one segment, so taking the first one cannot fail.
pub fn until_char<'a>(s: &'a str, c: char) -> (r: &'a str)
    ensures
        r@ == prefix_before(s@, c),
{
    let mut splitter = StrSplit::new(s, c);
    match splitter.next() {
        Some(segment) => segment,
        None => unreached(),
    }
}

/// The characters of each segment, in order.
pub open spec fn views_of(segments: Seq<&str>) -> Seq<Seq<char>> {
    segments.map_values(|t: &str| t@)
}

/// Runs a splitter over `haystack` to exhaustion and collects every yielded
/// segment.  Two calls over equal text and equal delimiters return segment
/// sequences with identical contents, since the result is determined by
/// `split_of`.
pub fn split_all<'a, D: Delimiter>(haystack: &'a str, delimiter: D) -> (segments: Vec<&'a str>)
    requires
        delimiter.delim().len() > 0,
    ensures
        views_of(segments@) == split_of(haystack@, delimiter.delim()),
{
    let ghost d = delimiter.delim();
    let mut segments: Vec<&'a str> = Vec::new();
    let mut splitter = StrSplit::new(haystack, delimiter);
    loop
        invariant
            splitter.delim_chars() == d,
            d.len() > 0,
            match splitter.remainder_view() {
                Some(rem) => split_of(haystack@, d) == views_of(segments@) + split_of(rem, d),
                None => split_of(haystack@, d) == views_of(segments@),
            },
        ensures
            split_of(haystack@, d) == views_of(segments@),
        decreases (match splitter.remainder_view() {
            Some(rem) => rem.len() + 1,
            None => 0,
        }),
    {
        let ghost prev = splitter.remainder_view();
        let ghost before = segments@;
        match splitter.next() {
            Some(segment) => {
                segments.push(segment);
                proof {
                    let rem = prev->Some_0;
                    assert(views_of(segments@) =~= views_of(before) + seq![segment@]);
                    match find_from(rem, d, 0) {
                        Some(i) => {
                            lemma_find_from(rem, d, 0);
                            let tail = rem.subrange(i + d.len(), rem.len() as int);
                            assert(split_of(rem, d) == seq![rem.subrange(0, i)] + split_of(tail, d));
                            assert(split_of(haystack@, d) =~= views_of(segments@) + split_of(tail, d));
                        },
                        None => {
                            assert(split_of(rem, d) == seq![rem]);
                            assert(split_of(haystack@, d) =~= views_of(segments@));
                        },
                    }
                }
            },
            None => {
                break;
            },
        }
    }
    segments
}

} // verus!
