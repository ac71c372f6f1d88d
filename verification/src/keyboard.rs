//! Keyboard layouts: phoneme-to-keystroke tables, the syllable splitter,
//! and per-layout matching flags.

use vstd::prelude::*;

use crate::unicode_utils::{chars_of, flatten_range, grapheme_split, lemma_deep_view_chars, lemma_deep_view_vecs, segment_chars};

verus! {

/// How a syllable is cut into phonemes.
#[derive(Copy, Clone, PartialEq, Eq, Structural, Debug)]
pub enum Cutter {
    /// Initial (one letter, or two when followed by `h`), finale, tone.
    Standard,
    /// The standard cut, then a two-piece result is split into two
    /// single-keystroke phonemes for double-pinyin layouts.
    Zero,
}

/// First-match lookup in an association table of character strings.
pub open spec fn table_lookup(t: Seq<(Vec<char>, Vec<char>)>, s: Seq<char>) -> Option<Seq<char>>
    decreases t.len(),
{
    if t.len() == 0 {
        None
    } else if t[0].0@ == s {
        Some(t[0].1@)
    } else {
        table_lookup(t.drop_first(), s)
    }
}

/// Whether `s` starts with an initial consonant: non-empty and its first
/// character is none of the six vowel letters.
pub open spec fn spec_has_initial(s: Seq<char>) -> bool {
    s.len() > 0 && s[0] != 'a' && s[0] != 'e' && s[0] != 'i' && s[0] != 'o' && s[0] != 'u' && s[0]
        != 'v'
}

/// The pieces of the standard cut of `s`: initial (when present), finale
/// (when present), and the final grapheme holding the tone. An empty
/// syllable cuts to no pieces.
pub open spec fn spec_standard_cut(s: Seq<char>) -> Seq<Seq<char>> {
    let gs = grapheme_split(s);
    if gs.len() == 0 {
        Seq::empty()
    } else {
        let cursor: int = if spec_has_initial(s) {
            if gs.len() > 2 && gs[1] == seq!['h'] {
                2
            } else {
                1
            }
        } else {
            0
        };
        let init: Seq<Seq<char>> = if cursor > 0 {
            seq![gs.subrange(0, cursor).flatten()]
        } else {
            Seq::empty()
        };
        let mid: Seq<Seq<char>> = if gs.len() >= cursor + 2 {
            seq![gs.subrange(cursor, gs.len() - 1).flatten()]
        } else {
            Seq::empty()
        };
        init + mid + seq![gs.last()]
    }
}

/// The zero cut: the standard cut, except that a two-piece result
/// `[f, tone]` becomes `[f[0], f[1]]` (or `[f[0], f]` for a one-letter
/// `f`), the double-pinyin convention.
pub open spec fn spec_zero_cut(s: Seq<char>) -> Seq<Seq<char>> {
    let ss = spec_standard_cut(s);
    if ss.len() != 2 {
        ss
    } else {
        let f = ss[0];
        seq![f.subrange(0, 1), if f.len() == 2 {
            f.subrange(1, 2)
        } else {
            f
        }]
    }
}

/// What a cutter yields on `s`.
pub open spec fn spec_cut(c: Cutter, s: Seq<char>) -> Seq<Seq<char>> {
    match c {
        Cutter::Standard => spec_standard_cut(s),
        Cutter::Zero => spec_zero_cut(s),
    }
}

/// A keyboard layout: an optional free-standing-syllable rewrite table, an
/// optional phoneme-to-keystroke table, a cutter, and the flags that drive
/// pinyin composition.
pub struct Keyboard {
    pub local: Option<Vec<(Vec<char>, Vec<char>)>>,
    pub keys: Option<Vec<(Vec<char>, Vec<char>)>>,
    pub cutter: Cutter,
    /// Double-pinyin: each phoneme is one keystroke.
    pub duo: bool,
    /// Whether the initial-letter sequence shortcut applies.
    pub sequence: bool,
}

impl Keyboard {
    pub open spec fn local_view(self) -> Option<Seq<(Vec<char>, Vec<char>)>> {
        match self.local {
            Some(t) => Some(t@),
            None => None,
        }
    }

    pub open spec fn keys_view(self) -> Option<Seq<(Vec<char>, Vec<char>)>> {
        match self.keys {
            Some(t) => Some(t@),
            None => None,
        }
    }

    pub open spec fn cutter_view(self) -> Cutter {
        self.cutter
    }

    /// The keystroke spelling of a phoneme: the table entry where one
    /// exists, the phoneme itself otherwise.
    pub open spec fn spec_keys(self, s: Seq<char>) -> Seq<char> {
        match self.keys_view() {
            None => s,
            Some(t) => match table_lookup(t, s) {
                Some(v) => v,
                None => s,
            },
        }
    }

    /// The phoneme pieces of the syllable `s` under this layout: the
    /// free-standing rewrite is spliced in before the tone when the table
    /// has one, then the layout's cutter is applied.
    pub open spec fn spec_split(self, s: Seq<char>) -> Seq<Seq<char>> {
        match self.local_view() {
            Some(l) => {
                let gs = grapheme_split(s);
                if gs.len() == 0 {
                    spec_cut(self.cutter_view(), s)
                } else {
                    let cut = gs.subrange(0, gs.len() - 1).flatten();
                    match table_lookup(l, cut) {
                        Some(alt) => spec_cut(self.cutter_view(), alt + gs.last()),
                        None => spec_cut(self.cutter_view(), s),
                    }
                }
            },
            None => spec_cut(self.cutter_view(), s),
        }
    }

    pub fn keys(&self, s: &Vec<char>) -> (r: Vec<char>)
        ensures
            r@ == self.spec_keys(s@),
    {
        match &self.keys {
            None => s.clone(),
            Some(t) => match lookup(t, s) {
                Some(v) => v,
                None => s.clone(),
            },
        }
    }

    pub fn split(&self, s: &Vec<char>) -> (r: Vec<Vec<char>>)
        ensures
            r.deep_view() == self.spec_split(s@),
    {
        match &self.local {
            None => cut(self.cutter, s),
            Some(l) => {
                let gs = segment_chars(s);
                if gs.len() == 0 {
                    cut(self.cutter, s)
                } else {
                    let cutted = flatten_range(&gs, 0, gs.len() - 1);
                    match lookup(l, &cutted) {
                        None => cut(self.cutter, s),
                        Some(alt) => {
                            let mut spliced = alt;
                            let last = &gs[gs.len() - 1];
                            let mut i: usize = 0;
                            while i < last.len()
                                invariant
                                    i <= last@.len(),
                                    spliced@ == alt@ + last@.subrange(0, i as int),
                                decreases last@.len() - i,
                            {
                                spliced.push(last[i]);
                                proof {
                                    assert(spliced@ =~= alt@ + last@.subrange(0, i + 1));
                                }
                                i = i + 1;
                            }
                            proof {
                                assert(last@.subrange(0, last@.len() as int) =~= last@);
                                assert(gs.deep_view().last() == last@);
                            }
                            cut(self.cutter, &spliced)
                        },
                    }
                }
            },
        }
    }

    /// The full-pinyin layout: no tables, standard cut, initial-letter
    /// sequence matching.
    pub fn quanpin() -> (r: Keyboard)
        ensures
            r.local_view() is None,
            r.keys_view() is None,
            r.cutter_view() == Cutter::Standard,
            !r.duo,
            r.sequence,
    {
        Keyboard { local: None, keys: None, cutter: Cutter::Standard, duo: false, sequence: true }
    }

    /// The Zhuyin layout typed on ASCII keys. Two queries are known not
    /// to match what they spell and are kept that way deliberately:
    /// `yj0` does not find 鑽石 and `j456` does not find 物質.
    pub fn daqian() -> (r: Keyboard)
        ensures
            r.local_view() is Some,
            r.keys_view() is Some,
            r.cutter_view() == Cutter::Standard,
            !r.duo,
            !r.sequence,
    {
        Keyboard {
            local: Some(phonetic_local_table()),
            keys: Some(daqian_table()),
            cutter: Cutter::Standard,
            duo: false,
            sequence: false,
        }
    }

    /// The Xiaohe double-pinyin layout.
    pub fn xiaohe() -> (r: Keyboard)
        ensures
            r.local_view() is None,
            r.keys_view() is Some,
            r.cutter_view() == Cutter::Zero,
            r.duo,
            !r.sequence,
    {
        Keyboard {
            local: None,
            keys: Some(xiaohe_table()),
            cutter: Cutter::Zero,
            duo: true,
            sequence: false,
        }
    }

    /// The Ziranma double-pinyin layout.
    pub fn ziranma() -> (r: Keyboard)
        ensures
            r.local_view() is None,
            r.keys_view() is Some,
            r.cutter_view() == Cutter::Zero,
            r.duo,
            !r.sequence,
    {
        Keyboard {
            local: None,
            keys: Some(ziranma_table()),
            cutter: Cutter::Zero,
            duo: true,
            sequence: false,
        }
    }
}

/// First-match lookup in an association table, as executable code.
fn lookup(t: &Vec<(Vec<char>, Vec<char>)>, s: &Vec<char>) -> (r: Option<Vec<char>>)
    ensures
        match r {
            Some(v) => table_lookup(t@, s@) == Some(v@),
            None => table_lookup(t@, s@) is None,
        },
{
    let mut i: usize = 0;
    proof {
        assert(t@.subrange(0, t@.len() as int) =~= t@);
    }
    while i < t.len()
        invariant
            i <= t@.len(),
            table_lookup(t@, s@) == table_lookup(t@.subrange(i as int, t@.len() as int), s@),
        decreases t@.len() - i,
    {
        proof {
            assert(t@.subrange(i as int, t@.len() as int).drop_first() =~= t@.subrange(
                i + 1,
                t@.len() as int,
            ));
            assert(t@.subrange(i as int, t@.len() as int)[0] == t@[i as int]);
        }
        if crate::unicode_utils::chars_eq(&t[i].0, s) {
            return Some(t[i].1.clone());
        }
        i = i + 1;
    }
    proof {
        assert(t@.subrange(t@.len() as int, t@.len() as int) =~= Seq::<(Vec<char>, Vec<
            char,
        >)>::empty());
    }
    None
}

/// Whether `s` starts with an initial consonant.
pub fn has_initial(s: &Vec<char>) -> (r: bool)
    ensures
        r == spec_has_initial(s@),
{
    if s.len() == 0 {
        return false;
    }
    let c = s[0];
    c != 'a' && c != 'e' && c != 'i' && c != 'o' && c != 'u' && c != 'v'
}

/// Applies a cutter to a flat syllable.
fn cut(c: Cutter, s: &Vec<char>) -> (r: Vec<Vec<char>>)
    ensures
        r.deep_view() == spec_cut(c, s@),
{
    match c {
        Cutter::Standard => standard_cutter(s),
        Cutter::Zero => zero_cutter(s),
    }
}

/// The standard cut of a flat syllable.
pub fn standard_cutter(s: &Vec<char>) -> (r: Vec<Vec<char>>)
    ensures
        r.deep_view() == spec_standard_cut(s@),
        forall|i: int| 0 <= i < r@.len() ==> #[trigger] r@[i]@.len() > 0,
{
    let gs = segment_chars(s);
    let mut r: Vec<Vec<char>> = Vec::new();
    if gs.len() == 0 {
        proof {
            lemma_deep_view_vecs(&r);
            assert(r.deep_view() =~= spec_standard_cut(s@));
        }
        return r;
    }
    let cursor: usize = if has_initial(s) {
        if gs.len() > 2 && gs[1].len() == 1 && gs[1][0] == 'h' {
            2
        } else {
            1
        }
    } else {
        0
    };
    proof {
        lemma_deep_view_vecs(&gs);
        if gs.len() > 2 {
            assert(gs.deep_view()[1] == gs@[1]@);
            if gs@[1]@.len() == 1 && gs@[1]@[0] == 'h' {
                assert(gs.deep_view()[1] =~= seq!['h']);
            }
        }
    }
    if cursor > 0 {
        let p = flatten_range(&gs, 0, cursor);
        proof {
            lemma_deep_view_chars(&p);
            let sub = gs.deep_view().subrange(0, cursor as int);
            sub.lemma_flatten_length_ge_single_element_length(0);
            assert(p@.len() > 0);
        }
        r.push(p);
    }
    if gs.len() >= cursor + 2 {
        let p = flatten_range(&gs, cursor, gs.len() - 1);
        proof {
            lemma_deep_view_chars(&p);
            let sub = gs.deep_view().subrange(cursor as int, gs.deep_view().len() - 1);
            sub.lemma_flatten_length_ge_single_element_length(0);
            assert(p@.len() > 0);
        }
        r.push(p);
    }
    let p = flatten_range(&gs, gs.len() - 1, gs.len());
    proof {
        lemma_deep_view_chars(&p);
        let gd = gs.deep_view();
        assert(gd.subrange(gd.len() - 1, gd.len() as int) =~= seq![gd.last()]);
        seq![gd.last()].lemma_flatten_singleton();
        assert(p@ == gd.last());
        assert(p@.len() > 0);
    }
    r.push(p);
    proof {
        lemma_deep_view_vecs(&r);
        assert(r.deep_view() =~= spec_standard_cut(s@));
    }
    r
}

/// The zero cut of a flat syllable.
pub fn zero_cutter(s: &Vec<char>) -> (r: Vec<Vec<char>>)
    ensures
        r.deep_view() == spec_zero_cut(s@),
{
    let mut ss = standard_cutter(s);
    if ss.len() != 2 {
        return ss;
    }
    let f = ss[0].clone();
    assert(f@.len() > 0);
    let mut first: Vec<char> = Vec::new();
    first.push(f[0]);
    proof {
        assert(first@ =~= f@.subrange(0, 1));
    }
    let second: Vec<char> = if f.len() == 2 {
        let mut v: Vec<char> = Vec::new();
        v.push(f[1]);
        proof {
            assert(v@ =~= f@.subrange(1, 2));
        }
        v
    } else {
        f.clone()
    };
    proof {
        lemma_deep_view_vecs(&ss);
        assert(ss.deep_view()[0] == f@);
    }
    ss.set(0, first);
    ss.set(1, second);
    proof {
        lemma_deep_view_vecs(&ss);
        assert(ss.deep_view() =~= spec_zero_cut(s@));
    }
    ss
}

fn push_entry(t: &mut Vec<(Vec<char>, Vec<char>)>, k: &str, v: &str) {
    let kc = chars_of(k);
    let vc = chars_of(v);
    t.push((kc, vc));
}

fn daqian_table() -> Vec<(Vec<char>, Vec<char>)> {
    let mut t: Vec<(Vec<char>, Vec<char>)> = Vec::new();
    push_entry(&mut t, "", "");
    push_entry(&mut t, "0", "");
    push_entry(&mut t, "1", " ");
    push_entry(&mut t, "2", "6");
    push_entry(&mut t, "3", "3");
    push_entry(&mut t, "4", "4");
    push_entry(&mut t, "a", "8");
    push_entry(&mut t, "ai", "9");
    push_entry(&mut t, "an", "0");
    push_entry(&mut t, "ang", ";");
    push_entry(&mut t, "ao", "l");
    push_entry(&mut t, "b", "1");
    push_entry(&mut t, "c", "h");
    push_entry(&mut t, "ch", "t");
    push_entry(&mut t, "d", "2");
    push_entry(&mut t, "e", "k");
    push_entry(&mut t, "ei", "o");
    push_entry(&mut t, "en", "p");
    push_entry(&mut t, "eng", "/");
    push_entry(&mut t, "er", "-");
    push_entry(&mut t, "f", "z");
    push_entry(&mut t, "g", "e");
    push_entry(&mut t, "h", "c");
    push_entry(&mut t, "i", "u");
    push_entry(&mut t, "ia", "u8");
    push_entry(&mut t, "ian", "u0");
    push_entry(&mut t, "iang", "u;");
    push_entry(&mut t, "iao", "ul");
    push_entry(&mut t, "ie", "u,");
    push_entry(&mut t, "in", "up");
    push_entry(&mut t, "ing", "u/");
    push_entry(&mut t, "iong", "m/");
    push_entry(&mut t, "iu", "u.");
    push_entry(&mut t, "j", "r");
    push_entry(&mut t, "k", "d");
    push_entry(&mut t, "l", "x");
    push_entry(&mut t, "m", "a");
    push_entry(&mut t, "n", "s");
    push_entry(&mut t, "o", "i");
    push_entry(&mut t, "ong", "j/");
    push_entry(&mut t, "ou", ".");
    push_entry(&mut t, "p", "q");
    push_entry(&mut t, "q", "f");
    push_entry(&mut t, "r", "b");
    push_entry(&mut t, "s", "n");
    push_entry(&mut t, "sh", "g");
    push_entry(&mut t, "t", "w");
    push_entry(&mut t, "u", "j");
    push_entry(&mut t, "ua", "j8");
    push_entry(&mut t, "uai", "j9");
    push_entry(&mut t, "uan", "j0");
    push_entry(&mut t, "uang", "j;");
    push_entry(&mut t, "uen", "mp");
    push_entry(&mut t, "ueng", "j/");
    push_entry(&mut t, "ui", "jo");
    push_entry(&mut t, "un", "jp");
    push_entry(&mut t, "uo", "ji");
    push_entry(&mut t, "v", "m");
    push_entry(&mut t, "van", "m0");
    push_entry(&mut t, "vang", "m;");
    push_entry(&mut t, "ve", "m,");
    push_entry(&mut t, "vn", "mp");
    push_entry(&mut t, "w", "j");
    push_entry(&mut t, "x", "v");
    push_entry(&mut t, "y", "u");
    t
}

fn xiaohe_table() -> Vec<(Vec<char>, Vec<char>)> {
    let mut t: Vec<(Vec<char>, Vec<char>)> = Vec::new();
    push_entry(&mut t, "ai", "d");
    push_entry(&mut t, "an", "j");
    push_entry(&mut t, "ang", "h");
    push_entry(&mut t, "ao", "c");
    push_entry(&mut t, "ch", "i");
    push_entry(&mut t, "ei", "w");
    push_entry(&mut t, "en", "f");
    push_entry(&mut t, "eng", "g");
    push_entry(&mut t, "ia", "x");
    push_entry(&mut t, "ian", "m");
    push_entry(&mut t, "iang", "l");
    push_entry(&mut t, "iao", "n");
    push_entry(&mut t, "ie", "p");
    push_entry(&mut t, "in", "b");
    push_entry(&mut t, "ing", "k");
    push_entry(&mut t, "iong", "s");
    push_entry(&mut t, "iu", "q");
    push_entry(&mut t, "ong", "s");
    push_entry(&mut t, "ou", "z");
    push_entry(&mut t, "sh", "u");
    push_entry(&mut t, "ua", "x");
    push_entry(&mut t, "uai", "k");
    push_entry(&mut t, "uan", "r");
    push_entry(&mut t, "uang", "l");
    push_entry(&mut t, "ui", "v");
    push_entry(&mut t, "un", "y");
    push_entry(&mut t, "uo", "o");
    push_entry(&mut t, "ve", "t");
    push_entry(&mut t, "ue", "t");
    push_entry(&mut t, "vn", "y");
    t
}

fn ziranma_table() -> Vec<(Vec<char>, Vec<char>)> {
    let mut t: Vec<(Vec<char>, Vec<char>)> = Vec::new();
    push_entry(&mut t, "ai", "l");
    push_entry(&mut t, "an", "j");
    push_entry(&mut t, "ang", "h");
    push_entry(&mut t, "ao", "k");
    push_entry(&mut t, "ch", "i");
    push_entry(&mut t, "ei", "z");
    push_entry(&mut t, "en", "f");
    push_entry(&mut t, "eng", "g");
    push_entry(&mut t, "ia", "w");
    push_entry(&mut t, "ian", "m");
    push_entry(&mut t, "iang", "d");
    push_entry(&mut t, "iao", "c");
    push_entry(&mut t, "ie", "x");
    push_entry(&mut t, "in", "n");
    push_entry(&mut t, "ing", "y");
    push_entry(&mut t, "iong", "s");
    push_entry(&mut t, "iu", "q");
    push_entry(&mut t, "ong", "s");
    push_entry(&mut t, "ou", "b");
    push_entry(&mut t, "sh", "u");
    push_entry(&mut t, "ua", "w");
    push_entry(&mut t, "uai", "y");
    push_entry(&mut t, "uan", "r");
    push_entry(&mut t, "uang", "d");
    push_entry(&mut t, "ui", "v");
    push_entry(&mut t, "un", "p");
    push_entry(&mut t, "uo", "o");
    push_entry(&mut t, "ve", "t");
    push_entry(&mut t, "ue", "t");
    push_entry(&mut t, "vn", "p");
    push_entry(&mut t, "zh", "v");
    t
}

pub fn phonetic_local_table() -> Vec<(Vec<char>, Vec<char>)> {
    let mut t: Vec<(Vec<char>, Vec<char>)> = Vec::new();
    push_entry(&mut t, "yi", "i");
    push_entry(&mut t, "you", "iu");
    push_entry(&mut t, "yin", "in");
    push_entry(&mut t, "ye", "ie");
    push_entry(&mut t, "ying", "ing");
    push_entry(&mut t, "wu", "u");
    push_entry(&mut t, "wen", "un");
    push_entry(&mut t, "yu", "v");
    push_entry(&mut t, "yue", "ve");
    push_entry(&mut t, "yuan", "van");
    push_entry(&mut t, "yun", "vn");
    push_entry(&mut t, "ju", "jv");
    push_entry(&mut t, "jue", "jve");
    push_entry(&mut t, "juan", "jvan");
    push_entry(&mut t, "jun", "jvn");
    push_entry(&mut t, "qu", "qv");
    push_entry(&mut t, "que", "qve");
    push_entry(&mut t, "quan", "qvan");
    push_entry(&mut t, "qun", "qvn");
    push_entry(&mut t, "xu", "xv");
    push_entry(&mut t, "xue", "xve");
    push_entry(&mut t, "xuan", "xvan");
    push_entry(&mut t, "xun", "xvn");
    push_entry(&mut t, "shi", "sh");
    push_entry(&mut t, "si", "s");
    push_entry(&mut t, "chi", "ch");
    push_entry(&mut t, "ci", "c");
    push_entry(&mut t, "zhi", "zh");
    push_entry(&mut t, "zi", "z");
    push_entry(&mut t, "ri", "r");
    t
}

} // verus!
