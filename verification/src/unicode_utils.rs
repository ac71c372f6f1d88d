//! Character-level utilities: conversion between strings and character
//! vectors, comparison helpers, and segmentation of text into extended
//! grapheme clusters.
//!
//! All match lengths in this crate count grapheme clusters, not code points,
//! because some keyboard layouts place tone marks in combining graphemes.

use unicode_segmentation::UnicodeSegmentation;
use vstd::prelude::*;
use vstd::string::StrSliceExecFns;

verus! {

/// The extended grapheme clusters of a character sequence, in order. The
/// clusters concatenate back to the input; what falls inside one cluster is
/// decided by the segmentation rules of Unicode text, which this crate does
/// not restate.
pub uninterp spec fn grapheme_split(s: Seq<char>) -> Seq<Seq<char>>;

/// Relies on unicode_segmentation::UnicodeSegmentation::graphemes: splits
/// text into extended grapheme clusters. The clusters concatenate back to
/// the input and none of them is empty; the split depends on the characters
/// alone.
#[verifier::external_body]
pub fn segment_chars(s: &Vec<char>) -> (r: Vec<Vec<char>>)
    ensures
        r.deep_view() == grapheme_split(s@),
        r.deep_view().flatten() == s@,
        forall|i: int| 0 <= i < r@.len() ==> #[trigger] r@[i]@.len() > 0,
{
    let st: String = s.iter().collect();
    st.graphemes(true).map(|g| g.chars().collect()).collect()
}

/// Relies on String::from_iter for char: collects the characters into a
/// string, in order.
#[verifier::external_body]
pub fn string_of(v: &Vec<char>) -> (r: String)
    ensures
        r@ == v@,
{
    v.iter().collect()
}

/// The characters of a string, as a vector.
pub fn chars_of(s: &str) -> (r: Vec<char>)
    ensures
        r@ == s@,
{
    let n = s.unicode_len();
    let mut r: Vec<char> = Vec::new();
    let mut i: usize = 0;
    while i < n
        invariant
            n == s@.len(),
            i <= n,
            r@ == s@.subrange(0, i as int),
        decreases n - i,
    {
        r.push(s.get_char(i));
        i = i + 1;
    }
    proof {
        assert(r@ =~= s@);
    }
    r
}

/// Copies a character vector.
pub fn copy_chars(v: &Vec<char>) -> (r: Vec<char>)
    ensures
        r@ == v@,
{
    let mut r: Vec<char> = Vec::new();
    let mut i: usize = 0;
    while i < v.len()
        invariant
            i <= v@.len(),
            r@ == v@.subrange(0, i as int),
        decreases v@.len() - i,
    {
        r.push(v[i]);
        proof {
            assert(r@ =~= v@.subrange(0, i + 1));
        }
        i = i + 1;
    }
    proof {
        assert(r@ =~= v@);
    }
    r
}

/// Character-for-character equality of two vectors.
pub fn chars_eq(a: &Vec<char>, b: &Vec<char>) -> (r: bool)
    ensures
        r == (a@ == b@),
{
    if a.len() != b.len() {
        proof {
            assert(a@.len() != b@.len());
        }
        return false;
    }
    let mut i: usize = 0;
    while i < a.len()
        invariant
            a@.len() == b@.len(),
            i <= a@.len(),
            forall|j: int| 0 <= j < i ==> a@[j] == b@[j],
        decreases a@.len() - i,
    {
        if a[i] != b[i] {
            return false;
        }
        i = i + 1;
    }
    proof {
        assert(a@ =~= b@);
    }
    true
}

/// Whether `p` is a prefix of `s`, character for character.
pub fn chars_prefix(s: &Vec<char>, p: &Vec<char>) -> (r: bool)
    ensures
        r == p@.is_prefix_of(s@),
{
    if p.len() > s.len() {
        proof {
            assert(!p@.is_prefix_of(s@));
        }
        return false;
    }
    let mut i: usize = 0;
    while i < p.len()
        invariant
            p@.len() <= s@.len(),
            i <= p@.len(),
            forall|j: int| 0 <= j < i ==> s@[j] == p@[j],
        decreases p@.len() - i,
    {
        if s[i] != p[i] {
            proof {
                assert(!p@.is_prefix_of(s@));
            }
            return false;
        }
        i = i + 1;
    }
    proof {
        assert(p@ =~= s@.subrange(0, p@.len() as int));
    }
    true
}

/// Whether `p` is a suffix of `s`, character for character.
pub fn chars_suffix(s: &Vec<char>, p: &Vec<char>) -> (r: bool)
    ensures
        r == p@.is_suffix_of(s@),
{
    if p.len() > s.len() {
        proof {
            assert(!p@.is_suffix_of(s@));
        }
        return false;
    }
    let base = s.len() - p.len();
    let mut i: usize = 0;
    while i < p.len()
        invariant
            p@.len() <= s@.len() <= usize::MAX,
            base == s@.len() - p@.len(),
            i <= p@.len(),
            forall|j: int| 0 <= j < i ==> s@[base + j] == p@[j],
        decreases p@.len() - i,
    {
        assert(base + i < s@.len());
        if s[base + i] != p[i] {
            proof {
                assert(s@.subrange(s@.len() - p@.len(), s@.len() as int)[i as int] != p@[i as int]);
            }
            return false;
        }
        i = i + 1;
    }
    proof {
        assert(p@ =~= s@.subrange(s@.len() - p@.len(), s@.len() as int));
    }
    true
}

/// Concatenates a range of grapheme clusters back into a flat vector.
pub fn flatten_range(gs: &Vec<Vec<char>>, from: usize, to: usize) -> (r: Vec<char>)
    requires
        from <= to <= gs@.len(),
    ensures
        r@ == gs.deep_view().subrange(from as int, to as int).flatten(),
{
    let mut r: Vec<char> = Vec::new();
    let mut i: usize = from;
    proof {
        assert(r@ =~= gs.deep_view().subrange(from as int, from as int).flatten());
    }
    while i < to
        invariant
            from <= i <= to <= gs@.len(),
            gs.deep_view().len() == gs@.len(),
            r@ == gs.deep_view().subrange(from as int, i as int).flatten(),
        decreases to - i,
    {
        let mut j: usize = 0;
        let g = &gs[i];
        proof {
            lemma_deep_view_chars(g);
            assert(gs.deep_view()[i as int] == gs@[i as int].deep_view());
        }
        while j < g.len()
            invariant
                from <= i < to <= gs@.len(),
                gs.deep_view().len() == gs@.len(),
                g == gs@[i as int],
                gs.deep_view()[i as int] == g@,
                j <= g@.len(),
                r@ == gs.deep_view().subrange(from as int, i as int).flatten() + g@.subrange(
                    0,
                    j as int,
                ),
            decreases g@.len() - j,
        {
            r.push(g[j]);
            proof {
                assert(g@.subrange(0, j + 1) =~= g@.subrange(0, j as int).push(g@[j as int]));
                assert(r@ =~= gs.deep_view().subrange(from as int, i as int).flatten()
                    + g@.subrange(0, j + 1));
            }
            j = j + 1;
        }
        proof {
            assert(g@.subrange(0, g@.len() as int) =~= g@);
            assert(gs.deep_view().subrange(from as int, i + 1) =~= gs.deep_view().subrange(
                from as int,
                i as int,
            ).push(g@));
            gs.deep_view().subrange(from as int, i as int).lemma_flatten_push(g@);
            assert(r@ =~= gs.deep_view().subrange(from as int, i + 1).flatten());
        }
        i = i + 1;
    }
    r
}

/// For a vector of characters the deep view and the plain view agree.
pub proof fn lemma_deep_view_chars(v: &Vec<char>)
    ensures
        v.deep_view() == v@,
{
    assert(v.deep_view() =~= v@);
}

/// The deep view of a vector of character vectors is the sequence of the
/// elements' views.
pub proof fn lemma_deep_view_vecs(v: &Vec<Vec<char>>)
    ensures
        v.deep_view().len() == v@.len(),
        forall|i: int| 0 <= i < v@.len() ==> #[trigger] v.deep_view()[i] == v@[i]@,
{
    assert forall|i: int| 0 <= i < v@.len() implies #[trigger] v.deep_view()[i] == v@[i]@ by {
        lemma_deep_view_chars(&v@[i]);
    }
}

} // verus!
