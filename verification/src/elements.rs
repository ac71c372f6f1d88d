//! Phonemes, pinyin syllables, and dictionary characters, together with
//! the specification of how each matches a query string.

use std::rc::Rc;
use vstd::prelude::*;

use crate::compressed::{bit32, merge_raw, IndexSet};
use crate::keyboard::Keyboard;
use crate::pinin::FuzzySettings;
use crate::unicode_utils::{
    chars_eq, chars_suffix, grapheme_split, lemma_deep_view_vecs, segment_chars,
};

verus! {

/// The whitespace characters of Unicode; a phoneme spelled only with
/// these never matches anything, and a source made only of these is
/// compared as plain text.
pub open spec fn spec_is_space(c: char) -> bool {
    c == ' ' || c == '\t' || c == '\n' || c == '\r' || c == '\u{b}' || c == '\u{c}' || c
        == '\u{85}' || c == '\u{a0}' || c == '\u{1680}' || ('\u{2000}' <= c && c <= '\u{200a}')
        || c == '\u{2028}' || c == '\u{2029}' || c == '\u{202f}' || c == '\u{205f}' || c
        == '\u{3000}'
}

/// Whether `c` is a whitespace character.
pub fn is_space_char(c: char) -> (r: bool)
    ensures
        r == spec_is_space(c),
{
    c == ' ' || c == '\t' || c == '\n' || c == '\r' || c == '\u{b}' || c == '\u{c}' || c
        == '\u{85}' || c == '\u{a0}' || c == '\u{1680}' || ('\u{2000}' <= c && c <= '\u{200a}')
        || c == '\u{2028}' || c == '\u{2029}' || c == '\u{202f}' || c == '\u{205f}' || c
        == '\u{3000}'
}

/// Whether every character of `s` is whitespace.
pub open spec fn all_space(s: Seq<char>) -> bool {
    forall|i: int| 0 <= i < s.len() ==> spec_is_space(#[trigger] s[i])
}

/// The longest common grapheme run of `a` (from `start`) and `b` (from its
/// beginning).
pub open spec fn cpl(a: Seq<Seq<char>>, b: Seq<Seq<char>>, start: int) -> int
    decreases b.len(),
{
    if start < 0 || start >= a.len() || b.len() == 0 {
        0
    } else if a[start] == b[0] {
        1 + cpl(a, b.drop_first(), start + 1)
    } else {
        0
    }
}

/// A scan that matched the first `k` graphemes and stopped at the end of
/// either side or at a mismatch has found the longest common run.
pub proof fn lemma_cpl_exact(a: Seq<Seq<char>>, b: Seq<Seq<char>>, start: int, k: int)
    requires
        0 <= start <= a.len(),
        0 <= k,
        k <= a.len() - start,
        k <= b.len(),
        forall|j: int| 0 <= j < k ==> a[start + j] == b[j],
        k == b.len() || k == a.len() - start || a[start + k] != b[k],
    ensures
        cpl(a, b, start) == k,
    decreases k,
{
    if k == 0 {
    } else {
        assert(a[start] == b[0]);
        lemma_cpl_exact(a, b.drop_first(), start + 1, k - 1);
    }
}

/// One alternative keystroke spelling of a phoneme, kept both flat and as
/// its grapheme clusters.
pub struct PhStr {
    pub flat: Vec<char>,
    pub gs: Vec<Vec<char>>,
}

impl PhStr {
    /// The clusters are exactly the segmentation of the flat spelling.
    pub open spec fn wf(self) -> bool {
        &&& self.gs.deep_view() == grapheme_split(self.flat@)
        &&& forall|i: int| 0 <= i < self.gs@.len() ==> #[trigger] self.gs@[i]@.len() > 0
    }

    pub fn new(flat: Vec<char>) -> (r: PhStr)
        ensures
            r.wf(),
            r.flat@ == flat@,
    {
        let gs = segment_chars(&flat);
        PhStr { flat, gs }
    }
}

/// One or more alternative keystroke spellings of a single phoneme. The
/// single form is chosen exactly when the fuzzy expansion produced one
/// alternative.
pub enum Phoneme {
    Single(PhStr),
    Multiple(Vec<PhStr>),
}

/// Inserts `x` unless already present: the deduplication step of the fuzzy
/// expansion.
pub open spec fn seq_insert(q: Seq<Seq<char>>, x: Seq<char>) -> Seq<Seq<char>> {
    if q.contains(x) {
        q
    } else {
        q.push(x)
    }
}

/// The fuzzy expansion of a raw phoneme `s`: the alternatives demanded by
/// the switched-on rules, deduplicated, in a fixed order starting with `s`
/// itself.
pub open spec fn fuzzy_alts(s: Seq<char>, f: FuzzySettings) -> Seq<Seq<char>> {
    let q0 = seq![s];
    let q1 = if s.len() > 0 && s[0] == 'c' && f.ch2c {
        seq_insert(seq_insert(q0, seq!['c']), seq!['c', 'h'])
    } else if s.len() > 0 && s[0] == 's' && f.sh2s {
        seq_insert(seq_insert(q0, seq!['s']), seq!['s', 'h'])
    } else if s.len() > 0 && s[0] == 'z' && f.zh2z {
        seq_insert(seq_insert(q0, seq!['z']), seq!['z', 'h'])
    } else if s.len() > 0 && s[0] == 'v' && f.u2v {
        seq_insert(q0, seq!['u'] + s.drop_first())
    } else {
        q0
    };
    let q2 = if (f.ang2an && seq!['a', 'n', 'g'].is_suffix_of(s)) || (f.eng2en && seq!['e', 'n', 'g'].is_suffix_of(s)) || (f.ing2in && seq!['i', 'n', 'g'].is_suffix_of(s)) {
        seq_insert(q1, s.drop_last())
    } else {
        q1
    };
    if (f.ang2an && seq!['a', 'n'].is_suffix_of(s)) || (f.eng2en && seq!['e', 'n'].is_suffix_of(s))
        || (f.ing2in && seq!['i', 'n'].is_suffix_of(s)) {
        seq_insert(q2, s.push('g'))
    } else {
        q2
    }
}

impl Phoneme {
    /// The flat spellings of the alternatives, in order.
    pub open spec fn alts(self) -> Seq<Seq<char>> {
        match self {
            Phoneme::Single(p) => seq![p.flat@],
            Phoneme::Multiple(v) => v@.map_values(|p: PhStr| p.flat@),
        }
    }

    /// The grapheme clusters of each alternative are stored and correct.
    pub open spec fn wf(self) -> bool {
        match self {
            Phoneme::Single(p) => p.wf(),
            Phoneme::Multiple(v) => forall|i: int| 0 <= i < v@.len() ==> (#[trigger] v@[i]).wf(),
        }
    }

    /// A single spelling made of whitespace alone: such a phoneme matches
    /// nothing.
    pub open spec fn spec_blank(self) -> bool {
        match self {
            Phoneme::Single(p) => all_space(p.flat@),
            Phoneme::Multiple(_) => false,
        }
    }

    /// The empty phoneme: a marker that the syllable has no such part.
    pub open spec fn spec_empty(self) -> bool {
        match self {
            Phoneme::Single(p) => p.flat@.len() == 0,
            Phoneme::Multiple(_) => false,
        }
    }

    /// Builds the phoneme for raw spelling `s`: the fuzzy alternatives are
    /// gathered, mapped through the keyboard's key table, and stored with
    /// their grapheme clusters.
    pub fn new(s: &Vec<char>, settings: &FuzzySettings, keyboard: &Keyboard) -> (r: Phoneme)
        ensures
            r.wf(),
            r.alts() == fuzzy_alts(s@, *settings).map_values(
                |x: Seq<char>| keyboard.spec_keys(x),
            ),
            (r matches Phoneme::Single(_)) == (fuzzy_alts(s@, *settings).len() == 1),
    {
        let mut raw: Vec<Vec<char>> = Vec::new();
        raw.push(s.clone());
        proof {
            assert(raw@.map_values(|x: Vec<char>| x@) =~= seq![s@]);
        }
        if s.len() > 0 && (s[0] == 'c' || s[0] == 's' || s[0] == 'z') {
            let c = s[0];
            let expand: bool = if c == 'c' {
                settings.ch2c
            } else if c == 's' {
                settings.sh2s
            } else {
                settings.zh2z
            };
            if expand {
                let mut short: Vec<char> = Vec::new();
                short.push(c);
                let mut long: Vec<char> = Vec::new();
                long.push(c);
                long.push('h');
                proof {
                    assert(short@ =~= seq![c]);
                    assert(long@ =~= seq![c, 'h']);
                }
                push_unique(&mut raw, short);
                push_unique(&mut raw, long);
            }
        } else if s.len() > 0 && s[0] == 'v' && settings.u2v {
            let mut alt: Vec<char> = Vec::new();
            alt.push('u');
            let mut i: usize = 1;
            while i < s.len()
                invariant
                    1 <= i <= s@.len(),
                    s@.len() > 0,
                    alt@ == seq!['u'] + s@.subrange(1, i as int),
                decreases s@.len() - i,
            {
                alt.push(s[i]);
                proof {
                    assert(alt@ =~= seq!['u'] + s@.subrange(1, i + 1));
                }
                i = i + 1;
            }
            proof {
                assert(s@.subrange(1, s@.len() as int) =~= s@.drop_first());
            }
            push_unique(&mut raw, alt);
        }
        let ang = lit3('a', 'n', 'g');
        let eng = lit3('e', 'n', 'g');
        let ing = lit3('i', 'n', 'g');
        let an = lit2('a', 'n');
        let en = lit2('e', 'n');
        let inn = lit2('i', 'n');
        if (settings.ang2an && chars_suffix(s, &ang)) || (settings.eng2en && chars_suffix(s, &eng))
            || (settings.ing2in && chars_suffix(s, &ing)) {
            let mut dropped = s.clone();
            proof {
                assert(s@.len() >= 3);
            }
            dropped.pop();
            proof {
                assert(dropped@ =~= s@.drop_last());
            }
            push_unique(&mut raw, dropped);
        }
        if (settings.ang2an && chars_suffix(s, &an)) || (settings.eng2en && chars_suffix(s, &en))
            || (settings.ing2in && chars_suffix(s, &inn)) {
            let mut pushed = s.clone();
            pushed.push('g');
            push_unique(&mut raw, pushed);
        }
        proof {
            assert(raw@.map_values(|x: Vec<char>| x@) =~= fuzzy_alts(s@, *settings));
        }
        if raw.len() == 1 {
            let mapped = keyboard.keys(&raw[0]);
            let r = Phoneme::Single(PhStr::new(mapped));
            proof {
                assert(r.alts() =~= fuzzy_alts(s@, *settings).map_values(
                    |x: Seq<char>| keyboard.spec_keys(x),
                ));
            }
            r
        } else {
            let mut out: Vec<PhStr> = Vec::new();
            let mut i: usize = 0;
            while i < raw.len()
                invariant
                    i <= raw@.len(),
                    out@.len() == i,
                    forall|j: int| 0 <= j < i ==> (#[trigger] out@[j]).wf(),
                    forall|j: int| 0 <= j < i ==> (#[trigger] out@[j]).flat@ == keyboard.spec_keys(
                        raw@[j]@,
                    ),
                decreases raw@.len() - i,
            {
                let mapped = keyboard.keys(&raw[i]);
                out.push(PhStr::new(mapped));
                i = i + 1;
            }
            let r = Phoneme::Multiple(out);
            proof {
                assert(r.alts() =~= fuzzy_alts(s@, *settings).map_values(
                    |x: Seq<char>| keyboard.spec_keys(x),
                ));
            }
            r
        }
    }

    /// Whether the phoneme is the empty marker.
    pub fn is_empty(&self) -> (r: bool)
        ensures
            r == self.spec_empty(),
    {
        match self {
            Phoneme::Single(p) => p.flat.len() == 0,
            Phoneme::Multiple(_) => false,
        }
    }

    /// Whether some alternative starts with the character `c`: the
    /// initial-letter sequence test.
    pub fn match_sequence(&self, c: char) -> (r: bool)
        ensures
            r == spec_match_sequence(*self, c),
    {
        match self {
            Phoneme::Single(p) => {
                let r = p.flat.len() > 0 && p.flat[0] == c;
                proof {
                    assert(self.alts()[0] == p.flat@);
                    if r {
                        assert(spec_match_sequence(*self, c));
                    }
                }
                r
            },
            Phoneme::Multiple(v) => {
                let mut i: usize = 0;
                let mut found = false;
                while i < v.len()
                    invariant
                        i <= v@.len(),
                        found == exists|k: int|
                            0 <= k < i && #[trigger] v@[k].flat@.len() > 0 && v@[k].flat@[0] == c,
                    decreases v@.len() - i,
                {
                    if v[i].flat.len() > 0 && v[i].flat[0] == c {
                        found = true;
                    }
                    i = i + 1;
                }
                proof {
                    assert(found == exists|k: int|
                        0 <= k < v@.len() && #[trigger] v@[k].flat@.len() > 0 && v@[k].flat@[0]
                            == c);
                    if found {
                        let k = choose|k: int|
                            0 <= k < v@.len() && #[trigger] v@[k].flat@.len() > 0 && v@[k].flat@[0]
                                == c;
                        assert(self.alts()[k] == v@[k].flat@);
                    } else {
                        assert forall|k: int|
                            0 <= k < self.alts().len() implies !(#[trigger] self.alts()[k].len()
                            > 0 && self.alts()[k][0] == c) by {
                            assert(self.alts()[k] == v@[k].flat@);
                        }
                    }
                }
                found
            },
        }
    }
}

/// Whether some alternative of `p` begins with `c`.
pub open spec fn spec_match_sequence(p: Phoneme, c: char) -> bool {
    exists|k: int| 0 <= k < p.alts().len() && #[trigger] p.alts()[k].len() > 0 && p.alts()[k][0]
        == c
}

/// Appends `x` unless an equal string is already present.
fn push_unique(raw: &mut Vec<Vec<char>>, x: Vec<char>)
    ensures
        final(raw)@.map_values(|v: Vec<char>| v@) == seq_insert(
            old(raw)@.map_values(|v: Vec<char>| v@),
            x@,
        ),
{
    let ghost pre = raw@.map_values(|v: Vec<char>| v@);
    let mut i: usize = 0;
    while i < raw.len()
        invariant
            i <= raw@.len(),
            pre == raw@.map_values(|v: Vec<char>| v@),
            forall|j: int| 0 <= j < i ==> pre[j] != x@,
        decreases raw@.len() - i,
    {
        if chars_eq(&raw[i], &x) {
            proof {
                assert(pre[i as int] == x@);
                assert(pre.contains(x@));
            }
            return ;
        }
        i = i + 1;
    }
    proof {
        assert(!pre.contains(x@));
    }
    raw.push(x);
    proof {
        assert(raw@.map_values(|v: Vec<char>| v@) =~= pre.push(x@));
    }
}

fn lit2(a: char, b: char) -> (r: Vec<char>)
    ensures
        r@ == seq![a, b],
{
    let mut v: Vec<char> = Vec::new();
    v.push(a);
    v.push(b);
    proof {
        assert(v@ =~= seq![a, b]);
    }
    v
}

fn lit3(a: char, b: char, c: char) -> (r: Vec<char>)
    ensures
        r@ == seq![a, b, c],
{
    let mut v: Vec<char> = Vec::new();
    v.push(a);
    v.push(b);
    v.push(c);
    proof {
        assert(v@ =~= seq![a, b, c]);
    }
    v
}


proof fn lemma_or_zero(x: i32)
    ensures
        x | 0i32 == x,
        0i32 | x == x,
{
    assert(x | 0i32 == x && 0i32 | x == x) by (bit_vector);
}

/// The longest common grapheme run, scanned from `a_start`.
pub fn strcmp(a: &Vec<Vec<char>>, b: &Vec<Vec<char>>, a_start: usize) -> (r: usize)
    requires
        a_start <= a@.len(),
    ensures
        r == cpl(a.deep_view(), b.deep_view(), a_start as int),
        r <= b@.len(),
        a_start + r <= a@.len(),
{
    proof {
        lemma_deep_view_vecs(a);
        lemma_deep_view_vecs(b);
    }
    let rem = a.len() - a_start;
    assert(a@.len() <= usize::MAX);
    let len = if rem < b.len() {
        rem
    } else {
        b.len()
    };
    let mut i: usize = 0;
    while i < len
        invariant
            a@.len() <= usize::MAX,
            a_start + len <= a@.len(),
            len <= b@.len(),
            len == if a@.len() - a_start < b@.len() {
                a@.len() - a_start
            } else {
                b@.len() as int
            },
            i <= len,
            a.deep_view().len() == a@.len(),
            b.deep_view().len() == b@.len(),
            forall|j: int| 0 <= j < a@.len() ==> #[trigger] a.deep_view()[j] == a@[j]@,
            forall|j: int| 0 <= j < b@.len() ==> #[trigger] b.deep_view()[j] == b@[j]@,
            forall|j: int| 0 <= j < i ==> a.deep_view()[a_start + j] == b.deep_view()[j],
        decreases len - i,
    {
        if !chars_eq(&a[a_start + i], &b[i]) {
            proof {
                lemma_cpl_exact(a.deep_view(), b.deep_view(), a_start as int, i as int);
            }
            return i;
        }
        i = i + 1;
    }
    proof {
        lemma_cpl_exact(a.deep_view(), b.deep_view(), a_start as int, len as int);
    }
    len
}

/// Whether every character of the vector is whitespace.
fn all_space_exec(v: &Vec<char>) -> (r: bool)
    ensures
        r == all_space(v@),
{
    let mut i: usize = 0;
    while i < v.len()
        invariant
            i <= v@.len(),
            forall|j: int| 0 <= j < i ==> spec_is_space(#[trigger] v@[j]),
        decreases v@.len() - i,
    {
        if !is_space_char(v[i]) {
            return false;
        }
        i = i + 1;
    }
    true
}

/// The bit that alternative `k` of phoneme `p` contributes when matched
/// against the clusters `sgs` from `start`: a full prefix match of the
/// whole alternative, or, when `partial` is allowed, a prefix match that
/// exhausts the source.
pub open spec fn alt_bit(p: Phoneme, sgs: Seq<Seq<char>>, start: int, partial: bool, k: int) -> i32 {
    let ags = grapheme_split(p.alts()[k]);
    let size = cpl(sgs, ags, start);
    if (size == ags.len() || (partial && start + size == sgs.len())) && size < 32 {
        1i32 << (size as u32)
    } else {
        0
    }
}

/// The union of the bits of the first `k` alternatives.
pub open spec fn alt_raw_up_to(
    p: Phoneme,
    sgs: Seq<Seq<char>>,
    start: int,
    partial: bool,
    k: int,
) -> i32
    decreases k,
{
    if k <= 0 {
        0
    } else {
        alt_raw_up_to(p, sgs, start, partial, k - 1) | alt_bit(p, sgs, start, partial, k - 1)
    }
}

/// The raw word that matching phoneme `p` against `src` from grapheme
/// position `start` yields: one bit per alternative that matches there. A
/// blank phoneme, or a start past the end of the source, yields nothing.
pub open spec fn phoneme_match_raw(p: Phoneme, src: Seq<char>, start: int, partial: bool) -> i32 {
    let sgs = grapheme_split(src);
    if p.spec_blank() || start > sgs.len() {
        0
    } else {
        alt_raw_up_to(p, sgs, start, partial, p.alts().len() as int)
    }
}

/// One step of composing a phoneme over an incoming index set: each member
/// `i` of the incoming set lets the phoneme match from `start + i`, and the
/// results, advanced by `i`, are merged in ascending order.
pub open spec fn idx_fold(
    p: Phoneme,
    src: Seq<char>,
    start: int,
    partial: bool,
    idxraw: i32,
    i: int,
    acc: i32,
) -> i32
    decreases 7 - i,
{
    if i < 0 || i >= 7 {
        acc
    } else {
        let acc2 = if bit32(idxraw, i) {
            merge_raw(acc, phoneme_match_raw(p, src, start + i, partial) << (i as u32))
        } else {
            acc
        };
        idx_fold(p, src, start, partial, idxraw, i + 1, acc2)
    }
}

/// The raw word of composing phoneme `p` over the incoming set `idxraw`.
/// The empty phoneme passes the incoming set through unchanged.
pub open spec fn phoneme_match_idx_raw(
    p: Phoneme,
    src: Seq<char>,
    start: int,
    partial: bool,
    idxraw: i32,
) -> i32 {
    if p.spec_empty() {
        idxraw
    } else {
        idx_fold(p, src, start, partial, idxraw, 0, 0)
    }
}

impl Phoneme {
    /// Matches this phoneme against the pre-segmented source from `start`.
    fn match_gs(&self, sgs: &Vec<Vec<char>>, start: usize, partial: bool) -> (r: IndexSet)
        requires
            self.wf(),
        ensures
            r.raw() == alt_match_raw_at(*self, sgs.deep_view(), start as int, partial),
    {
        let mut ret = IndexSet::none();
        proof {
            lemma_deep_view_vecs(sgs);
        }
        let n = sgs.len();
        assert(sgs@.len() <= usize::MAX);
        if start > n {
            return ret;
        }
        match self {
            Phoneme::Single(p) => {
                if all_space_exec(&p.flat) {
                    return ret;
                }
                let size = strcmp(sgs, &p.gs, start);
                proof {
                    lemma_deep_view_vecs(&p.gs);
                    assert(self.alts()[0] == p.flat@);
                }
                let cond = (partial && start + size == sgs.len()) || size == p.gs.len();
                if cond && size < 32 {
                    ret.set(size);
                }
                proof {
                    let dv = sgs.deep_view();
                    let st = start as int;
                    let ab = alt_bit(*self, dv, st, partial, 0);
                    let ags = grapheme_split(self.alts()[0]);
                    assert(ags == p.gs.deep_view());
                    assert(cpl(dv, ags, st) == size as int);
                    assert(ags.len() == p.gs@.len());
                    assert(dv.len() == sgs@.len());
                    if cond && size < 32 {
                        assert(size as int as u32 == size as u32);
                        assert(ab == 1i32 << (size as u32));
                    } else {
                        assert(ab == 0i32);
                    }
                    lemma_or_zero(ab);
                    assert(alt_raw_up_to(*self, dv, st, partial, 0) == 0i32);
                    assert(alt_raw_up_to(*self, dv, st, partial, 1) == 0i32 | ab);
                    assert(ret.raw() == alt_raw_up_to(*self, dv, st, partial, 1));
                }
                ret
            },
            Phoneme::Multiple(v) => {
                let mut k: usize = 0;
                while k < v.len()
                    invariant
                        self.wf(),
                        self matches Phoneme::Multiple(vv) && vv == v,
                        start <= sgs@.len(),
                        sgs@.len() <= usize::MAX,
                        sgs.deep_view().len() == sgs@.len(),
                        k <= v@.len(),
                        ret.raw() == alt_raw_up_to(
                            *self,
                            sgs.deep_view(),
                            start as int,
                            partial,
                            k as int,
                        ),
                    decreases v@.len() - k,
                {
                    let size = strcmp(sgs, &v[k].gs, start);
                    proof {
                        assert(v@[k as int].wf());
                        lemma_deep_view_vecs(&v@[k as int].gs);
                        assert(self.alts()[k as int] == v@[k as int].flat@);
                    }
                    if ((partial && start + size == sgs.len()) || size == v[k].gs.len()) && size
                        < 32 {
                        ret.set(size);
                    } else {
                        proof {
                            lemma_or_zero(ret.raw());
                        }
                    }
                    k = k + 1;
                }
                ret
            },
        }
    }

    /// Matches this phoneme against `source` from grapheme position
    /// `start`, optionally accepting a match cut short by the end of the
    /// source.
    pub fn match_string(&self, source: &str, start: usize, partial: bool) -> (r: IndexSet)
        requires
            self.wf(),
        ensures
            r.raw() == phoneme_match_raw(*self, source@, start as int, partial),
    {
        let sc = crate::unicode_utils::chars_of(source);
        let sgs = segment_chars(&sc);
        self.match_gs(&sgs, start, partial)
    }

    /// Composes this phoneme over an incoming index set: the result holds
    /// `i + j` whenever the incoming set holds `i` and the phoneme matches
    /// `j` graphemes from `start + i`. The empty phoneme passes the set
    /// through.
    pub fn match_string_idx(&self, source: &str, idx: IndexSet, start: usize, partial: bool) -> (r:
        IndexSet)
        requires
            self.wf(),
        ensures
            r.raw() == phoneme_match_idx_raw(*self, source@, start as int, partial, idx.raw()),
    {
        if self.is_empty() {
            return idx;
        }
        let sc = crate::unicode_utils::chars_of(source);
        let sgs = segment_chars(&sc);
        let ghost src = source@;
        let mut ret = IndexSet::none();
        let mut i: usize = 0;
        while i < 7
            invariant
                self.wf(),
                !self.spec_empty(),
                sgs.deep_view() == grapheme_split(src),
                sgs@.len() == grapheme_split(src).len(),
                i <= 7,
                idx_fold(*self, src, start as int, partial, idx.raw(), i as int, ret.raw())
                    == idx_fold(*self, src, start as int, partial, idx.raw(), 0, 0),
            decreases 7 - i,
        {
            if idx.get(i) {
                let mut set = IndexSet::none();
                let n = sgs.len();
                assert(sgs@.len() <= usize::MAX);
                if start <= usize::MAX - i {
                    set = self.match_gs(&sgs, start + i, partial);
                } else {
                    proof {
                        assert(start + i > sgs@.len());
                    }
                }
                set.offset(i as u32);
                ret.merge(set);
            }
            i = i + 1;
        }
        ret
    }
}

/// The raw word of a phoneme matched at a position, phrased over already
/// segmented source clusters.
pub open spec fn alt_match_raw_at(p: Phoneme, sgs: Seq<Seq<char>>, start: int, partial: bool) -> i32 {
    if p.spec_blank() || start > sgs.len() {
        0
    } else {
        alt_raw_up_to(p, sgs, start, partial, p.alts().len() as int)
    }
}


/// One syllable: its raw spelling, its interned id, the layout flags it
/// was built under, and its phonemes in order.
pub struct Pinyin {
    pub raw: Vec<char>,
    pub id: usize,
    pub duo: bool,
    pub sequence: bool,
    pub phonemes: Vec<Phoneme>,
}

/// Folding the phonemes of a non-double-pinyin syllable over the source:
/// each phoneme advances the active set, and every non-empty active set is
/// merged into the accumulator, so the result holds every prefix of the
/// phoneme sequence that matched. A later phoneme cannot match unless all
/// earlier ones did.
pub open spec fn pinyin_fold(
    phs: Seq<Phoneme>,
    src: Seq<char>,
    start: int,
    partial: bool,
    i: int,
    active: i32,
    acc: i32,
) -> i32
    decreases phs.len() - i,
{
    if i < 0 || i >= phs.len() {
        acc
    } else {
        let active2 = phoneme_match_idx_raw(phs[i], src, start, partial, active);
        let acc2 = if active2 == 0 {
            acc
        } else {
            merge_raw(acc, active2)
        };
        pinyin_fold(phs, src, start, partial, i + 1, active2, acc2)
    }
}

/// The raw word of matching a syllable against `src` from `start`. A
/// double-pinyin syllable composes its two or three keystroke phonemes in
/// turn; any other syllable folds its phonemes with the rule that earlier
/// phonemes are compulsory, and, under the sequence flag, also accepts the
/// single first character of the source when some alternative of the first
/// phoneme begins with it.
pub open spec fn pinyin_match_raw(p: Pinyin, src: Seq<char>, start: int, partial: bool) -> i32 {
    if p.duo {
        if p.phonemes@.len() < 2 {
            0
        } else {
            let r0 = phoneme_match_idx_raw(p.phonemes@[0], src, start, partial, 1);
            let r1 = phoneme_match_idx_raw(p.phonemes@[1], src, start, partial, r0);
            if p.phonemes@.len() == 3 {
                merge_raw(r1, phoneme_match_idx_raw(p.phonemes@[2], src, start, partial, r1))
            } else {
                r1
            }
        }
    } else {
        let folded = pinyin_fold(p.phonemes@, src, start, partial, 0, 1, 0);
        if p.sequence && p.phonemes@.len() > 0 && 0 <= start < src.len() && spec_match_sequence(
            p.phonemes@[0],
            src[start],
        ) {
            folded | 2
        } else {
            folded
        }
    }
}

impl Pinyin {
    pub open spec fn wf(self) -> bool {
        forall|i: int| 0 <= i < self.phonemes@.len() ==> (#[trigger] self.phonemes@[i]).wf()
    }

    /// Builds the syllable `s`: the keyboard splits it into phonemes and
    /// each phoneme is expanded under the fuzzy settings.
    pub fn new(s: &Vec<char>, settings: &FuzzySettings, keyboard: &Keyboard, id: usize) -> (r:
        Pinyin)
        ensures
            r.wf(),
            r.id == id,
            r.duo == keyboard.duo,
            r.sequence == keyboard.sequence,
            r.raw@ == s@,
            r.phonemes@.len() == keyboard.spec_split(s@).len(),
            forall|k: int| 0 <= k < r.phonemes@.len() ==> (#[trigger] r.phonemes@[k]).alts()
                == fuzzy_alts(keyboard.spec_split(s@)[k], *settings).map_values(
                |x: Seq<char>| keyboard.spec_keys(x),
            ),
    {
        let split = keyboard.split(s);
        proof {
            lemma_deep_view_vecs(&split);
        }
        let mut phonemes: Vec<Phoneme> = Vec::new();
        let mut i: usize = 0;
        while i < split.len()
            invariant
                split.deep_view() == keyboard.spec_split(s@),
                split.deep_view().len() == split@.len(),
                forall|j: int| 0 <= j < split@.len() ==> #[trigger] split.deep_view()[j]
                    == split@[j]@,
                i <= split@.len(),
                phonemes@.len() == i,
                forall|k: int| 0 <= k < i ==> (#[trigger] phonemes@[k]).wf(),
                forall|k: int| 0 <= k < i ==> (#[trigger] phonemes@[k]).alts() == fuzzy_alts(
                    keyboard.spec_split(s@)[k],
                    *settings,
                ).map_values(|x: Seq<char>| keyboard.spec_keys(x)),
            decreases split@.len() - i,
        {
            phonemes.push(Phoneme::new(&split[i], settings, keyboard));
            i = i + 1;
        }
        Pinyin {
            raw: s.clone(),
            id,
            duo: keyboard.duo,
            sequence: keyboard.sequence,
            phonemes,
        }
    }

    /// Matches this syllable against `s` from grapheme position `start`.
    pub fn match_string(&self, s: &str, start: usize, partial: bool) -> (r: IndexSet)
        requires
            self.wf(),
        ensures
            r.raw() == pinyin_match_raw(*self, s@, start as int, partial),
    {
        if self.duo {
            if self.phonemes.len() < 2 {
                return IndexSet::none();
            }
            let mut ret = IndexSet::zero();
            ret = self.phonemes[0].match_string_idx(s, ret, start, partial);
            ret = self.phonemes[1].match_string_idx(s, ret, start, partial);
            if self.phonemes.len() == 3 {
                let m = self.phonemes[2].match_string_idx(s, ret, start, partial);
                ret.merge(m);
            }
            ret
        } else {
            let ghost src = s@;
            let mut active = IndexSet::zero();
            let mut ret = IndexSet::none();
            let mut i: usize = 0;
            while i < self.phonemes.len()
                invariant
                    src == s@,
                    self.wf(),
                    i <= self.phonemes@.len(),
                    pinyin_fold(
                        self.phonemes@,
                        src,
                        start as int,
                        partial,
                        i as int,
                        active.raw(),
                        ret.raw(),
                    ) == pinyin_fold(self.phonemes@, src, start as int, partial, 0, 1, 0),
                decreases self.phonemes@.len() - i,
            {
                let ghost a0 = active.raw();
                let ghost r0 = ret.raw();
                active = self.phonemes[i].match_string_idx(s, active, start, partial);
                if active.raw_value() != 0 {
                    ret.merge(active);
                }
                proof {
                    assert(pinyin_fold(self.phonemes@, src, start as int, partial, i as int, a0, r0)
                        == pinyin_fold(
                        self.phonemes@,
                        src,
                        start as int,
                        partial,
                        i + 1,
                        active.raw(),
                        ret.raw(),
                    ));
                }
                i = i + 1;
            }
            if self.sequence && self.phonemes.len() > 0 {
                let sc = crate::unicode_utils::chars_of(s);
                if start < sc.len() && self.phonemes[0].match_sequence(sc[start]) {
                    proof {
                        assert(1i32 << 1u32 == 2i32) by (bit_vector);
                    }
                    ret.set(1);
                }
            }
            ret
        }
    }
}

/// Relies on std::rc::Rc::clone: the new handle shares the allocation, so
/// it carries the very same value.
#[verifier::external_body]
pub fn rc_dup<T>(v: &Rc<T>) -> (r: Rc<T>)
    ensures
        r == *v,
{
    v.clone()
}

/// A dictionary character: a code point and its syllable readings, shared
/// with the context that interned them.
pub struct Character {
    pub ch: char,
    pub pinyin: Vec<Rc<Pinyin>>,
}

/// Folds the readings of a character over the source, merging each
/// reading's match result.
pub open spec fn char_fold(
    ps: Seq<Rc<Pinyin>>,
    src: Seq<char>,
    start: int,
    partial: bool,
    i: int,
    acc: i32,
) -> i32
    decreases ps.len() - i,
{
    if i < 0 || i >= ps.len() {
        acc
    } else {
        char_fold(
            ps,
            src,
            start,
            partial,
            i + 1,
            merge_raw(acc, pinyin_match_raw(*ps[i], src, start, partial)),
        )
    }
}

/// The raw word of matching a character against `src` from `start`: the
/// single source character itself when it is this very code point, merged
/// with every reading's match.
pub open spec fn char_match_raw(c: Character, src: Seq<char>, start: int, partial: bool) -> i32 {
    let seed: i32 = if 0 <= start < src.len() && src[start] == c.ch {
        2
    } else {
        0
    };
    char_fold(c.pinyin@, src, start, partial, 0, seed)
}


pub proof fn lemma_char_fold_step(
    ps: Seq<Rc<Pinyin>>,
    src: Seq<char>,
    start: int,
    partial: bool,
    i: int,
    acc: i32,
)
    requires
        0 <= i < ps.len(),
    ensures
        char_fold(ps, src, start, partial, i, acc) == char_fold(
            ps,
            src,
            start,
            partial,
            i + 1,
            merge_raw(acc, pinyin_match_raw(*ps[i], src, start, partial)),
        ),
{
}

impl Character {
    pub open spec fn wf(self) -> bool {
        forall|i: int| 0 <= i < self.pinyin@.len() ==> (*#[trigger] self.pinyin@[i]).wf()
    }

    pub fn new(ch: char, pinyin: Vec<Rc<Pinyin>>) -> (r: Character)
        ensures
            r.ch == ch,
            r.pinyin == pinyin,
    {
        Character { ch, pinyin }
    }

    /// Matches this character against `s` from position `start`.
    pub fn match_str(&self, s: &str, start: usize, partial: bool) -> (r: IndexSet)
        requires
            self.wf(),
        ensures
            r.raw() == char_match_raw(*self, s@, start as int, partial),
    {
        let sc = crate::unicode_utils::chars_of(s);
        let mut ret = if start < sc.len() && sc[start] == self.ch {
            IndexSet::one()
        } else {
            IndexSet::none()
        };
        let ghost src = s@;
        let mut i: usize = 0;
        while i < self.pinyin.len()
            invariant
                src == s@,
                self.wf(),
                i <= self.pinyin@.len(),
                char_fold(self.pinyin@, src, start as int, partial, i as int, ret.raw())
                    == char_match_raw(*self, src, start as int, partial),
            decreases self.pinyin@.len() - i,
        {
            let ghost r0 = ret.raw();
            let py: &Rc<Pinyin> = &self.pinyin[i];
            proof {
                assert(*py == self.pinyin@[i as int]);
            }
            let m = py.match_string(s, start, partial);
            ret.merge(m);
            proof {
                lemma_char_fold_step(self.pinyin@, src, start as int, partial, i as int, r0);
                assert(m.raw() == pinyin_match_raw(**py, src, start as int, partial));
                assert(ret.raw() == merge_raw(r0, m.raw()));
                assert(char_fold(self.pinyin@, src, start as int, partial, i as int, r0)
                    == char_fold(self.pinyin@, src, start as int, partial, i + 1, ret.raw()));
            }
            i = i + 1;
        }
        ret
    }
}


/// Which consumption counts a phoneme's match holds: bit `j` is set
/// exactly when some alternative's longest common run with the source at
/// `k` has length `j` and either covers the whole alternative or, in
/// partial mode, reaches the end of the source. A blank phoneme, or a
/// start past the source, holds nothing.
pub proof fn lemma_phoneme_match_members(
    p: Phoneme,
    src: Seq<char>,
    k: int,
    partial: bool,
    j: int,
)
    requires
        0 <= j < 32,
    ensures
        bit32(phoneme_match_raw(p, src, k, partial), j) <==> (!p.spec_blank() && k <= grapheme_split(
            src,
        ).len() && exists|t: int|
            0 <= t < p.alts().len() && #[trigger] matches_alt_at(p, src, k, partial, t, j)),
{
    let sgs = grapheme_split(src);
    if p.spec_blank() || k > sgs.len() {
        crate::compressed::lemma_single_bit(0, j);
        assert(!bit32(0i32, j));
    } else {
        lemma_up_to_members(p, sgs, src, k, partial, p.alts().len() as int, j);
    }
}

/// Alternative `t` of `p` consumes exactly `j` graphemes of `src` at `k`.
pub open spec fn matches_alt_at(
    p: Phoneme,
    src: Seq<char>,
    k: int,
    partial: bool,
    t: int,
    j: int,
) -> bool {
    let ags = grapheme_split(p.alts()[t]);
    let size = cpl(grapheme_split(src), ags, k);
    j == size && (size == ags.len() || (partial && k + size == grapheme_split(src).len()))
}

proof fn lemma_up_to_members(
    p: Phoneme,
    sgs: Seq<Seq<char>>,
    src: Seq<char>,
    k: int,
    partial: bool,
    kk: int,
    j: int,
)
    requires
        0 <= j < 32,
        0 <= kk,
        sgs == grapheme_split(src),
    ensures
        bit32(alt_raw_up_to(p, sgs, k, partial, kk), j) <==> exists|t: int|
            0 <= t < kk && #[trigger] matches_alt_at(p, src, k, partial, t, j),
    decreases kk,
{
    if kk == 0 {
        crate::compressed::lemma_single_bit(0, j);
    } else {
        lemma_up_to_members(p, sgs, src, k, partial, kk - 1, j);
        let prev = alt_raw_up_to(p, sgs, k, partial, kk - 1);
        let ab = alt_bit(p, sgs, k, partial, kk - 1);
        crate::compressed::lemma_or_bits(prev, ab);
        let ags = grapheme_split(p.alts()[kk - 1]);
        let size = cpl(sgs, ags, k);
        if (size == ags.len() || (partial && k + size == sgs.len())) && size < 32 {
            crate::compressed::lemma_single_bit(size as u32, j);
            assert(bit32(ab, j) == (j == size));
        } else {
            crate::compressed::lemma_single_bit(0, j);
            assert(!bit32(ab, j));
            if bit32(prev | ab, j) {
                assert(bit32(prev, j));
            }
        }
        if bit32(alt_raw_up_to(p, sgs, k, partial, kk), j) {
            if bit32(ab, j) {
                assert(matches_alt_at(p, src, k, partial, kk - 1, j));
            } else {
                let t = choose|t: int|
                    0 <= t < kk - 1 && #[trigger] matches_alt_at(p, src, k, partial, t, j);
                assert(matches_alt_at(p, src, k, partial, t, j));
            }
        }
        if exists|t: int| 0 <= t < kk && #[trigger] matches_alt_at(p, src, k, partial, t, j) {
            let t = choose|t: int|
                0 <= t < kk && #[trigger] matches_alt_at(p, src, k, partial, t, j);
            if t < kk - 1 {
                assert(bit32(prev, j));
            } else {
                assert(j == cpl(sgs, ags, k));
                assert(j < 32);
                assert(bit32(ab, j));
            }
        }
    }
}
} // verus!
