//! The matching context: fuzzy-rule settings, the character dictionary
//! with its interned syllables, and the entry points that match a query
//! against a source string.

use std::rc::Rc;
use vstd::prelude::*;

use crate::accelerator::{spec_check, spec_contains_from, Accelerator, CharProvider, StringProvider};
use crate::compressed::bit32;
use crate::elements::{char_match_raw, rc_dup, Character, Pinyin};
use crate::keyboard::Keyboard;
use crate::unicode_utils::{chars_eq, chars_of, chars_prefix};

verus! {

/// Which fuzzy equivalences are applied when a phoneme is expanded.
#[derive(Copy, Clone, PartialEq, Eq, Structural, Debug)]
pub struct FuzzySettings {
    pub zh2z: bool,
    pub sh2s: bool,
    pub ch2c: bool,
    pub ang2an: bool,
    pub ing2in: bool,
    pub eng2en: bool,
    pub u2v: bool,
}

impl Default for FuzzySettings {
    /// All fuzzy rules start switched off.
    fn default() -> (r: Self)
        ensures
            !r.zh2z && !r.sh2s && !r.ch2c && !r.ang2an && !r.ing2in && !r.eng2en && !r.u2v,
    {
        FuzzySettings {
            zh2z: false,
            sh2s: false,
            ch2c: false,
            ang2an: false,
            ing2in: false,
            eng2en: false,
            u2v: false,
        }
    }
}

/// Every reading of `c` is the very syllable interned under its id.
pub open spec fn linked(c: Character, by: Seq<Rc<Pinyin>>) -> bool {
    forall|j: int|
        0 <= j < c.pinyin@.len() ==> (*#[trigger] c.pinyin@[j]).id < by.len() && c.pinyin@[j] == by[(
        *c.pinyin@[j]).id as int]
}

/// The matching context. It owns the dictionary of characters, the
/// interned syllables keyed by their raw spelling, the active keyboard and
/// fuzzy settings, and one accelerator.
pub struct PinIn {
    pub chars: Vec<(char, Option<Character>)>,
    pub intern: Vec<(Vec<char>, usize)>,
    pub by_id: Vec<Rc<Pinyin>>,
    pub keyboard: Keyboard,
    pub fuzzy: FuzzySettings,
    pub accelerate: bool,
    pub accelerator: Option<Accelerator>,
}

/// First dictionary entry for `c`, if any.
pub open spec fn assoc_lookup(s: Seq<(char, Option<Character>)>, c: char) -> Option<
    Option<Character>,
>
    decreases s.len(),
{
    if s.len() == 0 {
        None
    } else if s[0].0 == c {
        Some(s[0].1)
    } else {
        assoc_lookup(s.drop_first(), c)
    }
}

/// The raw word of matching source character `c` against the query under
/// the given dictionary: its entry's match where one exists; otherwise
/// matching degenerates to exact code-point equality with the query
/// character at `offset`.
pub open spec fn dict_char_match_raw(
    dict: Seq<(char, Option<Character>)>,
    c: char,
    q: Seq<char>,
    offset: int,
    partial: bool,
) -> i32 {
    match assoc_lookup(dict, c) {
        Some(Some(ch)) => char_match_raw(ch, q, offset, partial),
        _ => if 0 <= offset < q.len() && q[offset] == c {
            2i32
        } else {
            0i32
        },
    }
}

/// A character value that matches exactly as the dictionary prescribes
/// for `c`: the entry's code point and readings, or a reading-less
/// placeholder.
pub open spec fn is_dict_character(
    r: Character,
    dict: Seq<(char, Option<Character>)>,
    c: char,
) -> bool {
    match assoc_lookup(dict, c) {
        Some(Some(ch)) => r.ch == ch.ch && r.pinyin@ == ch.pinyin@,
        _ => r.ch == c && r.pinyin@.len() == 0,
    }
}

/// Such a character's match result is the dictionary's.
pub proof fn lemma_dict_character_raw(
    r: Character,
    dict: Seq<(char, Option<Character>)>,
    c: char,
)
    requires
        is_dict_character(r, dict, c),
    ensures
        forall|q: Seq<char>, offset: int, partial: bool|
            #[trigger] char_match_raw(r, q, offset, partial) == dict_char_match_raw(
                dict,
                c,
                q,
                offset,
                partial,
            ),
{
    assert forall|q: Seq<char>, offset: int, partial: bool|
        #[trigger] char_match_raw(r, q, offset, partial) == dict_char_match_raw(
        dict,
        c,
        q,
        offset,
        partial,
    ) by {
        match assoc_lookup(dict, c) {
            Some(Some(ch)) => {
                assert(char_match_raw(r, q, offset, partial) == char_match_raw(
                    ch,
                    q,
                    offset,
                    partial,
                ));
            },
            _ => {
                assert(crate::elements::char_fold(r.pinyin@, q, offset, partial, 0, (if 0 <= offset
                    < q.len() && q[offset] == c {
                    2i32
                } else {
                    0i32
                })) == (if 0 <= offset < q.len() && q[offset] == c {
                    2i32
                } else {
                    0i32
                }));
            },
        }
    }
}

/// First interned id for the raw spelling `x`, if any.
pub open spec fn intern_lookup(intern: Seq<(Vec<char>, usize)>, x: Seq<char>) -> Option<usize>
    decreases intern.len(),
{
    if intern.len() == 0 {
        None
    } else if intern[0].0@ == x {
        Some(intern[0].1)
    } else {
        intern_lookup(intern.drop_first(), x)
    }
}

/// The direct, cache-free matcher: whether the query `s2` from `start2`
/// matches the source `s1` from `start1` under the given dictionary.
pub open spec fn spec_check_str(
    dict: Seq<(char, Option<Character>)>,
    s1: Seq<char>,
    start1: int,
    s2: Seq<char>,
    start2: int,
    partial: bool,
) -> bool
    decreases s1.len() - start1,
{
    if start2 == s2.len() {
        partial || start1 == s1.len()
    } else if start1 < 0 || start1 >= s1.len() {
        false
    } else {
        let sraw = dict_char_match_raw(dict, s1[start1], s2, start2, partial);
        if start1 == s1.len() - 1 {
            let i = s2.len() - start2;
            0 <= i < 32 && bit32(sraw, i)
        } else {
            exists|i: int|
                0 <= i < 7 && #[trigger] bit32(sraw, i) && spec_check_str(
                    dict,
                    s1,
                    start1 + 1,
                    s2,
                    start2 + i,
                    partial,
                )
        }
    }
}

/// A query offset past the end of the query never matches: the remaining
/// length is negative, so neither closing branch can succeed.
pub proof fn lemma_check_str_beyond_query(
    dict: Seq<(char, Option<Character>)>,
    s1: Seq<char>,
    start1: int,
    s2: Seq<char>,
    start2: int,
    partial: bool,
)
    requires
        start2 > s2.len(),
    ensures
        !spec_check_str(dict, s1, start1, s2, start2, partial),
    decreases s1.len() - start1,
{
    assert(start2 != s2.len());
    if start1 < 0 || start1 >= s1.len() {
    } else if start1 == s1.len() - 1 {
        assert(s2.len() - start2 < 0);
    } else {
        let sraw = dict_char_match_raw(dict, s1[start1], s2, start2, partial);
        if spec_check_str(dict, s1, start1, s2, start2, partial) {
            let i = choose|i: int|
                0 <= i < 7 && #[trigger] bit32(sraw, i) && spec_check_str(
                    dict,
                    s1,
                    start1 + 1,
                    s2,
                    start2 + i,
                    partial,
                );
            lemma_check_str_beyond_query(dict, s1, start1 + 1, s2, start2 + i, partial);
            assert(false);
        }
    }
}


/// Updating the first entry for `c` makes the lookup yield the new value
/// and leaves every other character's lookup unchanged.
proof fn lemma_assoc_update(s: Seq<(char, Option<Character>)>, k: int, c: char, ent: Option<Character>)
    requires
        0 <= k < s.len(),
        s[k].0 == c,
        forall|t: int| 0 <= t < k ==> (#[trigger] s[t]).0 != c,
    ensures
        assoc_lookup(s.update(k, (c, ent)), c) == Some(ent),
        forall|c2: char| c2 != c ==> assoc_lookup(s.update(k, (c, ent)), c2) == assoc_lookup(s, c2),
    decreases k,
{
    let s2 = s.update(k, (c, ent));
    assert(s2.len() == s.len());
    if k == 0 {
        assert(s2[0] == (c, ent));
        assert(s2[0].0 == c);
        assert(assoc_lookup(s2, c) == Some(s2[0].1));
        assert forall|c2: char| c2 != c implies assoc_lookup(s2, c2) == assoc_lookup(s, c2) by {
            assert(s2.drop_first() =~= s.drop_first());
            assert(s2[0].0 == c && s[0].0 == c);
        }
    } else {
        assert(s2.drop_first() =~= s.drop_first().update(k - 1, (c, ent)));
        assert forall|t: int| 0 <= t < k - 1 implies (#[trigger] s.drop_first()[t]).0 != c by {
            assert(s.drop_first()[t] == s[t + 1]);
        }
        assert(s.drop_first()[k - 1] == s[k]);
        lemma_assoc_update(s.drop_first(), k - 1, c, ent);
        assert(s2[0] == s[0]);
        assert(s[0].0 != c);
        assert(assoc_lookup(s2, c) == assoc_lookup(s2.drop_first(), c));
        assert(assoc_lookup(s2, c) == Some(ent));
        assert forall|c2: char| c2 != c implies assoc_lookup(s2, c2) == assoc_lookup(s, c2) by {
            if s[0].0 == c2 {
            } else {
                assert(assoc_lookup(s2, c2) == assoc_lookup(s2.drop_first(), c2));
                assert(assoc_lookup(s, c2) == assoc_lookup(s.drop_first(), c2));
            }
        }
    }
}

/// Appending an entry for an unseen character makes its lookup yield the
/// new value and leaves every other character's lookup unchanged.
proof fn lemma_assoc_push(s: Seq<(char, Option<Character>)>, c: char, ent: Option<Character>)
    requires
        forall|t: int| 0 <= t < s.len() ==> (#[trigger] s[t]).0 != c,
    ensures
        assoc_lookup(s.push((c, ent)), c) == Some(ent),
        forall|c2: char| c2 != c ==> assoc_lookup(s.push((c, ent)), c2) == assoc_lookup(s, c2),
    decreases s.len(),
{
    let s2 = s.push((c, ent));
    assert(s2.len() == s.len() + 1);
    if s.len() == 0 {
        assert(s2[0] == (c, ent));
        assert(s2[0].0 == c);
        assert(assoc_lookup(s2, c) == Some(s2[0].1));
        assert forall|c2: char| c2 != c implies assoc_lookup(s2, c2) == assoc_lookup(s, c2) by {
            assert(s2.drop_first() =~= Seq::<(char, Option<Character>)>::empty());
            assert(assoc_lookup(s2, c2) == assoc_lookup(s2.drop_first(), c2));
            assert(assoc_lookup(s2.drop_first(), c2) is None);
            assert(assoc_lookup(s, c2) is None);
        }
    } else {
        assert(s2[0] == s[0]);
        assert(s[0].0 != c);
        assert(s2.drop_first() =~= s.drop_first().push((c, ent)));
        assert forall|t: int| 0 <= t < s.drop_first().len() implies (
        #[trigger] s.drop_first()[t]).0 != c by {
            assert(s.drop_first()[t] == s[t + 1]);
        }
        lemma_assoc_push(s.drop_first(), c, ent);
        assert(assoc_lookup(s2, c) == assoc_lookup(s2.drop_first(), c));
        assert(assoc_lookup(s2, c) == Some(ent));
        assert forall|c2: char| c2 != c implies assoc_lookup(s2, c2) == assoc_lookup(s, c2) by {
            if s[0].0 == c2 {
            } else {
                assert(assoc_lookup(s2, c2) == assoc_lookup(s2.drop_first(), c2));
                assert(assoc_lookup(s, c2) == assoc_lookup(s.drop_first(), c2));
            }
        }
    }
}

/// The records of the last dictionary line for `c`, if any line names it:
/// later lines replace earlier ones.
pub open spec fn last_pair_for(pairs: Seq<(char, Seq<Seq<char>>)>, c: char) -> Option<
    Seq<Seq<char>>,
>
    decreases pairs.len(),
{
    if pairs.len() == 0 {
        None
    } else if pairs.last().0 == c {
        Some(pairs.last().1)
    } else {
        last_pair_for(pairs.drop_last(), c)
    }
}

/// A stored dictionary entry carries exactly the listed readings: one
/// interned syllable per record, in order, spelled as the record; an
/// empty list is stored as an untypable character.
pub open spec fn entry_matches(oe: Option<Character>, recs: Seq<Seq<char>>) -> bool {
    match oe {
        Some(ch) => ch.pinyin@.len() == recs.len() && forall|j: int|
            0 <= j < recs.len() ==> (*#[trigger] ch.pinyin@[j]).raw@ == recs[j],
        None => recs.len() == 0,
    }
}

impl PinIn {
    /// The interned syllables, in id order.
    pub open spec fn pinyin_by_id(self) -> Seq<Rc<Pinyin>> {
        self.by_id@
    }

    /// The dictionary as stored: a character occurs at most once.
    pub open spec fn dict(self) -> Seq<(char, Option<Character>)> {
        self.chars@
    }


    /// Interned syllables carry their own index as id and are well formed;
    /// every dictionary reading is the interned syllable of its id.
    pub open spec fn wf(self) -> bool {
        &&& forall|k: int|
            0 <= k < self.by_id@.len() ==> (*#[trigger] self.by_id@[k]).wf() && (*self.by_id@[k]).id
                == k
        &&& forall|i: int|
            0 <= i < self.chars@.len() ==> ((#[trigger] self.chars@[i]).1 matches Some(c) ==> c.wf()
                && c.ch == self.chars@[i].0 && linked(c, self.by_id@))
        &&& forall|t: int|
            0 <= t < self.intern@.len() ==> (#[trigger] self.intern@[t]).1 < self.by_id@.len() && (
            *self.by_id@[self.intern@[t].1 as int]).raw@ == self.intern@[t].0@
        &&& (self.accelerator matches Some(a) ==> a.strs_wf() && a.cache_wf(self.by_id@))
    }

    /// The dictionary entry a lookup yields is well formed and linked.
    pub proof fn lemma_lookup_linked(self, s: Seq<(char, Option<Character>)>, c: char)
        requires
            forall|i: int|
                0 <= i < s.len() ==> ((#[trigger] s[i]).1 matches Some(ch) ==> ch.wf() && ch.ch
                    == s[i].0 && linked(ch, self.pinyin_by_id())),
        ensures
            assoc_lookup(s, c) matches Some(e) ==> (e matches Some(ch) ==> ch.wf() && ch.ch == c
                && linked(ch, self.pinyin_by_id())),
        decreases s.len(),
    {
        if s.len() > 0 {
            if s[0].0 == c {
            } else {
                assert forall|i: int|
                    0 <= i < s.drop_first().len() implies ((#[trigger] s.drop_first()[i]).1 matches
                    Some(ch) ==> ch.wf() && ch.ch == s.drop_first()[i].0 && linked(
                    ch,
                    self.pinyin_by_id(),
                )) by {
                    assert(s.drop_first()[i] == s[i + 1]);
                }
                self.lemma_lookup_linked(s.drop_first(), c);
            }
        }
    }


    /// An interned syllable is well formed.
    pub proof fn lemma_by_id_wf(self, k: int)
        requires
            self.wf(),
            0 <= k < self.pinyin_by_id().len(),
        ensures
            (*self.pinyin_by_id()[k]).wf(),
            (*self.pinyin_by_id()[k]).id == k,
    {
    }

    pub fn new() -> (r: PinIn)
        ensures
            r.wf(),
            r.dict().len() == 0,
            r.pinyin_by_id().len() == 0,
            !r.accelerate,
            r.accelerator is Some,
            r.keyboard.keys_view() is None,
            !r.keyboard.duo,
            r.keyboard.sequence,
    {
        PinIn {
            chars: Vec::new(),
            intern: Vec::new(),
            by_id: Vec::new(),
            keyboard: Keyboard::quanpin(),
            fuzzy: FuzzySettings::default(),
            accelerate: false,
            accelerator: Some(Accelerator::new()),
        }
    }

    /// The interned syllable for raw spelling `x`: the one already held
    /// for that spelling, or a newly built one under the next id. Existing
    /// ids and dictionary entries stay untouched.
    pub fn get_or_insert_pinyin(&mut self, x: &Vec<char>) -> (r: Rc<Pinyin>)
        requires
            old(self).wf(),
        ensures
            final(self).wf(),
            old(self).by_id@.is_prefix_of(final(self).by_id@),
            final(self).chars@ == old(self).chars@,
            final(self).keyboard == old(self).keyboard,
            final(self).fuzzy == old(self).fuzzy,
            final(self).accelerate == old(self).accelerate,
            final(self).accelerator == old(self).accelerator,
            (*r).id < final(self).by_id@.len(),
            r == final(self).by_id@[(*r).id as int],
            (*r).raw@ == x@,
            match intern_lookup(old(self).intern@, x@) {
                Some(id0) => final(self).by_id@ == old(self).by_id@ && final(self).intern@ == old(
                    self,
                ).intern@ && r == old(self).by_id@[id0 as int],
                None => (*r).id == old(self).by_id@.len() && final(self).intern@.len() == old(
                    self,
                ).intern@.len() + 1,
            },
    {
        let mut i: usize = 0;
        proof {
            assert(self.intern@.subrange(0, self.intern@.len() as int) =~= self.intern@);
        }
        while i < self.intern.len()
            invariant
                self.wf(),
                i <= self.intern@.len(),
                intern_lookup(self.intern@, x@) == intern_lookup(
                    self.intern@.subrange(i as int, self.intern@.len() as int),
                    x@,
                ),
            decreases self.intern@.len() - i,
        {
            proof {
                assert(self.intern@.subrange(i as int, self.intern@.len() as int).drop_first()
                    =~= self.intern@.subrange(i + 1, self.intern@.len() as int));
                assert(self.intern@.subrange(i as int, self.intern@.len() as int)[0]
                    == self.intern@[i as int]);
            }
            if chars_eq(&self.intern[i].0, x) {
                let id = self.intern[i].1;
                proof {
                    assert(self.intern@[i as int].1 < self.by_id@.len());
                }
                proof {
                    assert(self.by_id@.is_prefix_of(self.by_id@));
                    assert(intern_lookup(self.intern@, x@) == Some(id));
                    assert((*self.by_id@[id as int]).raw@ == x@);
                }
                return rc_dup(&self.by_id[id]);
            }
            i = i + 1;
        }
        proof {
            assert(self.intern@.subrange(self.intern@.len() as int, self.intern@.len() as int)
                =~= Seq::<(Vec<char>, usize)>::empty());
            assert(intern_lookup(self.intern@, x@) is None);
        }
        let id = self.by_id.len();
        let p = Rc::new(Pinyin::new(x, &self.fuzzy, &self.keyboard, id));
        let ghost pre = self.by_id@;
        let ghost preintern = self.intern@;
        self.by_id.push(p);
        self.intern.push((crate::unicode_utils::copy_chars(x), id));
        proof {
            assert(pre.is_prefix_of(self.by_id@));
            assert forall|t: int|
                0 <= t < self.intern@.len() implies (#[trigger] self.intern@[t]).1
                < self.by_id@.len() && (*self.by_id@[self.intern@[t].1 as int]).raw@
                == self.intern@[t].0@ by {
                if t < preintern.len() {
                    assert(self.intern@[t] == preintern[t]);
                    assert(self.by_id@[preintern[t].1 as int] == pre[preintern[t].1 as int]);
                }
            }
            if self.accelerator is Some {
                let a = self.accelerator->Some_0;
                a.lemma_cache_wf_grow(pre, self.by_id@);
            }
            assert forall|k: int|
                0 <= k < self.by_id@.len() implies (*#[trigger] self.by_id@[k]).wf() && (
            *self.by_id@[k]).id == k by {
                if k < pre.len() {
                    assert(self.by_id@[k] == pre[k]);
                }
            }
            assert forall|i2: int|
                0 <= i2 < self.chars@.len() implies ((#[trigger] self.chars@[i2]).1 matches Some(c)
                ==> c.wf() && c.ch == self.chars@[i2].0 && linked(c, self.by_id@)) by {
                if self.chars@[i2].1 is Some {
                    let c = self.chars@[i2].1->Some_0;
                    assert(linked(c, pre));
                    assert forall|j: int|
                        0 <= j < c.pinyin@.len() implies (*#[trigger] c.pinyin@[j]).id
                        < self.by_id@.len() && c.pinyin@[j] == self.by_id@[(*c.pinyin@[j]).id as int] by {
                        assert((*c.pinyin@[j]).id < pre.len());
                        assert(self.by_id@[(*c.pinyin@[j]).id as int] == pre[(
                        *c.pinyin@[j]).id as int]);
                    }
                }
            }
        }
        rc_dup(&self.by_id[id])
    }

    /// Records `c` in the dictionary with the given readings, replacing
    /// any earlier entry for the same character.
    fn put_char(&mut self, c: char, ent: Option<Character>)
        requires
            old(self).wf(),
            ent matches Some(ch) ==> ch.wf() && ch.ch == c && linked(ch, old(self).by_id@),
        ensures
            final(self).wf(),
            final(self).by_id@ == old(self).by_id@,
            final(self).intern@ == old(self).intern@,
            final(self).keyboard == old(self).keyboard,
            final(self).fuzzy == old(self).fuzzy,
            final(self).accelerate == old(self).accelerate,
            final(self).accelerator == old(self).accelerator,
            assoc_lookup(final(self).chars@, c) == Some(ent),
            forall|c2: char|
                c2 != c ==> assoc_lookup(final(self).chars@, c2) == assoc_lookup(
                    old(self).chars@,
                    c2,
                ),
    {
        let mut i: usize = 0;
        while i < self.chars.len()
            invariant
                self.wf(),
                i <= self.chars@.len(),
                self.chars@ == old(self).chars@,
                self.intern@ == old(self).intern@,
                self.by_id@ == old(self).by_id@,
                self.keyboard == old(self).keyboard,
                self.fuzzy == old(self).fuzzy,
                self.accelerate == old(self).accelerate,
                self.accelerator == old(self).accelerator,
                forall|t: int| 0 <= t < i ==> (#[trigger] self.chars@[t]).0 != c,
                ent matches Some(ch) ==> ch.wf() && ch.ch == c && linked(ch, self.by_id@),
            decreases self.chars@.len() - i,
        {
            if self.chars[i].0 == c {
                let ghost pre = self.chars@;
                self.chars.set(i, (c, ent));
                proof {
                    lemma_assoc_update(pre, i as int, c, ent);
                }
                proof {
                    assert forall|k: int|
                        0 <= k < self.chars@.len() implies ((#[trigger] self.chars@[k]).1 matches
                        Some(ch) ==> ch.wf() && ch.ch == self.chars@[k].0 && linked(
                        ch,
                        self.by_id@,
                    )) by {
                        if k != i {
                            assert(self.chars@[k] == pre[k]);
                        }
                    }
                }
                return ;
            }
            i = i + 1;
        }
        proof {
            lemma_assoc_push(self.chars@, c, ent);
        }
        self.chars.push((c, ent));
    }

    /// Loads a dictionary text: each well-formed line holds one character,
    /// a separator, and its comma-separated toned syllables; malformed
    /// lines are skipped.
    /// Loads a dictionary text. For every character some well-formed line
    /// names, the dictionary afterwards maps it to the readings of the
    /// last such line, each interned as a syllable spelled exactly as
    /// listed; characters no line names keep their earlier entry.
    pub fn load_dict(&mut self, dict: &str)
        requires
            old(self).wf(),
        ensures
            final(self).wf(),
            old(self).by_id@.is_prefix_of(final(self).by_id@),
            final(self).keyboard == old(self).keyboard,
            final(self).fuzzy == old(self).fuzzy,
            final(self).accelerate == old(self).accelerate,
            final(self).accelerator == old(self).accelerator,
            forall|c: char|
                match last_pair_for(
                    crate::dict_loader::spec_dict_pairs(crate::dict_loader::spec_lines(dict@)),
                    c,
                ) {
                    Some(recs) => (#[trigger] assoc_lookup(final(self).chars@, c)) matches Some(oe)
                        && entry_matches(oe, recs),
                    None => assoc_lookup(final(self).chars@, c) == assoc_lookup(
                        old(self).chars@,
                        c,
                    ),
                },
    {
        let pairs = crate::dict_loader::parse_dict(dict);
        let ghost pview = crate::dict_loader::pairs_view(pairs@);
        let mut i: usize = 0;
        proof {
            assert(pview.take(0) =~= Seq::<(char, Seq<Seq<char>>)>::empty());
        }
        while i < pairs.len()
            invariant
                self.wf(),
                old(self).by_id@.is_prefix_of(self.by_id@),
                self.keyboard == old(self).keyboard,
                self.fuzzy == old(self).fuzzy,
                self.accelerate == old(self).accelerate,
                self.accelerator == old(self).accelerator,
                i <= pairs@.len(),
                pview == crate::dict_loader::pairs_view(pairs@),
                pview.len() == pairs@.len(),
                forall|c: char|
                    match last_pair_for(pview.take(i as int), c) {
                        Some(recs) => (#[trigger] assoc_lookup(self.chars@, c)) matches Some(oe)
                            && entry_matches(oe, recs),
                        None => assoc_lookup(self.chars@, c) == assoc_lookup(old(self).chars@, c),
                    },
            decreases pairs@.len() - i,
        {
            let (c, readings) = &pairs[i];
            let ghost prechars = self.chars@;
            let ghost recs = pview[i as int].1;
            proof {
                assert(pview[i as int] == (pairs@[i as int].0, pairs@[i as int].1.deep_view()));
                assert(recs == readings.deep_view());
                crate::unicode_utils::lemma_deep_view_vecs(readings);
            }
            if readings.len() == 0 {
                self.put_char(*c, None);
                proof {
                    assert(assoc_lookup(self.chars@, *c) == Some(None::<Character>));
                    assert(entry_matches(None::<Character>, recs));
                }
            } else {
                let mut py: Vec<Rc<Pinyin>> = Vec::new();
                let mut j: usize = 0;
                while j < readings.len()
                    invariant
                        self.wf(),
                        old(self).by_id@.is_prefix_of(self.by_id@),
                        self.chars@ == prechars,
                        self.keyboard == old(self).keyboard,
                        self.fuzzy == old(self).fuzzy,
                        self.accelerate == old(self).accelerate,
                        self.accelerator == old(self).accelerator,
                        j <= readings@.len(),
                        py@.len() == j,
                        recs.len() == readings@.len(),
                        forall|t: int| 0 <= t < readings@.len() ==> #[trigger] recs[t]
                            == readings@[t]@,
                        forall|k: int|
                            0 <= k < py@.len() ==> (*#[trigger] py@[k]).id < self.by_id@.len()
                                && py@[k] == self.by_id@[(*py@[k]).id as int],
                        forall|k: int| 0 <= k < py@.len() ==> (*#[trigger] py@[k]).raw@ == recs[k],
                    decreases readings@.len() - j,
                {
                    let ghost mid = self.by_id@;
                    let p = self.get_or_insert_pinyin(&readings[j]);
                    proof {
                        assert forall|k: int|
                            0 <= k < py@.len() implies (*#[trigger] py@[k]).id < self.by_id@.len()
                            && py@[k] == self.by_id@[(*py@[k]).id as int] by {
                            assert((*py@[k]).id < mid.len());
                            assert(self.by_id@[(*py@[k]).id as int] == mid[(*py@[k]).id as int]);
                        }
                        assert((*p).raw@ == readings@[j as int]@);
                    }
                    py.push(p);
                    j = j + 1;
                }
                let ent = Character::new(*c, py);
                proof {
                    assert(linked(ent, self.by_id@));
                    assert forall|k: int| 0 <= k < ent.pinyin@.len() implies (
                    *#[trigger] ent.pinyin@[k]).wf() by {
                        self.lemma_by_id_wf((*ent.pinyin@[k]).id as int);
                    }
                    assert(entry_matches(Some(ent), recs));
                }
                self.put_char(*c, Some(ent));
            }
            proof {
                assert(pview.take(i + 1).drop_last() =~= pview.take(i as int));
                assert(pview.take(i + 1).last() == pview[i as int]);
                assert forall|c2: char|
                    match last_pair_for(pview.take(i + 1), c2) {
                        Some(recs2) => (#[trigger] assoc_lookup(self.chars@, c2)) matches Some(oe)
                            && entry_matches(oe, recs2),
                        None => assoc_lookup(self.chars@, c2) == assoc_lookup(
                            old(self).chars@,
                            c2,
                        ),
                    } by {
                    if c2 == pview[i as int].0 {
                        assert(last_pair_for(pview.take(i + 1), c2) == Some(recs));
                    } else {
                        assert(last_pair_for(pview.take(i + 1), c2) == last_pair_for(
                            pview.take(i as int),
                            c2,
                        ));
                        assert(assoc_lookup(self.chars@, c2) == assoc_lookup(prechars, c2));
                    }
                }
            }
            i = i + 1;
        }
        proof {
            assert(pview.take(pview.len() as int) =~= pview);
        }
    }

    /// The character used for matching `c`: the dictionary entry, or a
    /// reading-less placeholder built on the fly.
    pub fn get_character(&self, c: char) -> (r: Character)
        requires
            self.wf(),
        ensures
            is_dict_character(r, self.dict(), c),
            r.ch == c,
            r.wf(),
            linked(r, self.pinyin_by_id()),
    {
        proof {
            self.lemma_lookup_linked(self.chars@, c);
        }
        let mut i: usize = 0;
        proof {
            assert(self.chars@.subrange(0, self.chars@.len() as int) =~= self.chars@);
        }
        while i < self.chars.len()
            invariant
                self.wf(),
                i <= self.chars@.len(),
                assoc_lookup(self.chars@, c) == assoc_lookup(
                    self.chars@.subrange(i as int, self.chars@.len() as int),
                    c,
                ),
            decreases self.chars@.len() - i,
        {
            proof {
                assert(self.chars@.subrange(i as int, self.chars@.len() as int).drop_first()
                    =~= self.chars@.subrange(i + 1, self.chars@.len() as int));
                assert(self.chars@.subrange(i as int, self.chars@.len() as int)[0]
                    == self.chars@[i as int]);
            }
            if self.chars[i].0 == c {
                match &self.chars[i].1 {
                    Some(ent) => {
                        let mut py: Vec<Rc<Pinyin>> = Vec::new();
                        let mut j: usize = 0;
                        while j < ent.pinyin.len()
                            invariant
                                j <= ent.pinyin@.len(),
                                py@.len() == j,
                                forall|k: int| 0 <= k < j ==> py@[k] == ent.pinyin@[k],
                            decreases ent.pinyin@.len() - j,
                        {
                            py.push(rc_dup(&ent.pinyin[j]));
                            j = j + 1;
                        }
                        proof {
                            assert(py@ =~= ent.pinyin@);
                        }
                        return Character { ch: ent.ch, pinyin: py };
                    },
                    None => {
                        return Character { ch: c, pinyin: Vec::new() };
                    },
                }
            }
            i = i + 1;
        }
        proof {
            assert(self.chars@.subrange(self.chars@.len() as int, self.chars@.len() as int)
                =~= Seq::<(char, Option<Character>)>::empty());
        }
        Character { ch: c, pinyin: Vec::new() }
    }

    /// The direct matcher, as executable code.
    pub fn check(&self, s1: &str, start1: usize, s2: &str, start2: usize, partial: bool) -> (r:
        bool)
        requires
            self.wf(),
        ensures
            r == spec_check_str(self.dict(), s1@, start1 as int, s2@, start2 as int, partial),
        decreases s1@.len() - start1 as int,
    {
        let c1 = chars_of(s1);
        let c2 = chars_of(s2);
        if start2 == c2.len() {
            return partial || start1 == c1.len();
        }
        if start2 > c2.len() {
            proof {
                lemma_check_str_beyond_query(
                    self.dict(),
                    s1@,
                    start1 as int,
                    s2@,
                    start2 as int,
                    partial,
                );
            }
            return false;
        }
        if start1 >= c1.len() {
            return false;
        }
        let r = self.get_character(c1[start1]);
        let s = r.match_str(s2, start2, partial);
        proof {
            lemma_dict_character_raw(r, self.dict(), c1@[start1 as int]);
        }
        if start1 == c1.len() - 1 {
            if c2.len() - start2 < 32 {
                return s.get(c2.len() - start2);
            }
            return false;
        }
        let ghost sraw = s.raw();
        let mut i: usize = 0;
        while i < 7
            invariant
                self.wf(),
                i <= 7,
                start2 < s2@.len(),
                s2@.len() <= usize::MAX,
                s1@.len() <= usize::MAX,
                start1 < s1@.len() - 1,
                sraw == s.raw(),
                sraw == dict_char_match_raw(
                    self.dict(),
                    s1@[start1 as int],
                    s2@,
                    start2 as int,
                    partial,
                ),
                forall|j: int|
                    0 <= j < i ==> !(#[trigger] bit32(sraw, j) && spec_check_str(
                        self.dict(),
                        s1@,
                        start1 + 1,
                        s2@,
                        start2 + j,
                        partial,
                    )),
            decreases 7 - i,
        {
            if s.get(i) {
                if start2 <= usize::MAX - i {
                    if self.check(s1, start1 + 1, s2, start2 + i, partial) {
                        proof {
                            assert(bit32(sraw, i as int));
                            assert(spec_check_str(
                                self.dict(),
                                s1@,
                                start1 as int,
                                s2@,
                                start2 as int,
                                partial,
                            ));
                        }
                        return true;
                    }
                } else {
                    proof {
                        lemma_check_str_beyond_query(
                            self.dict(),
                            s1@,
                            start1 + 1,
                            s2@,
                            start2 + i,
                            partial,
                        );
                    }
                }
            } else {
                proof {
                    assert(!bit32(sraw, i as int));
                }
            }
            i = i + 1;
        }
        false
    }

    /// Whether `sub` occurs in `s` as a contiguous run of characters.
    pub open spec fn spec_str_contains(s: Seq<char>, sub: Seq<char>) -> bool {
        exists|i: int| 0 <= i <= s.len() - sub.len() && #[trigger] s.subrange(i, i + sub.len())
            == sub
    }

    fn str_contains_chars(s: &Vec<char>, sub: &Vec<char>) -> (r: bool)
        ensures
            r == Self::spec_str_contains(s@, sub@),
    {
        if sub.len() > s.len() {
            return false;
        }
        let mut i: usize = 0;
        while i <= s.len() - sub.len()
            invariant
                sub@.len() <= s@.len(),
                s@.len() <= usize::MAX,
                i <= s@.len() - sub@.len() + 1,
                forall|j: int| 0 <= j < i ==> #[trigger] s@.subrange(j, j + sub@.len()) != sub@,
            decreases s@.len() - sub@.len() + 1 - i,
        {
            let mut j: usize = 0;
            let mut ok = true;
            while j < sub.len()
                invariant
                    sub@.len() <= s@.len(),
                    s@.len() <= usize::MAX,
                    i + sub@.len() <= s@.len(),
                    j <= sub@.len(),
                    ok == (forall|k: int| 0 <= k < j ==> s@[i + k] == sub@[k]),
                decreases sub@.len() - j,
            {
                if s[i + j] != sub[j] {
                    ok = false;
                    proof {
                        assert(!(forall|k: int| 0 <= k < j + 1 ==> s@[i + k] == sub@[k]));
                    }
                    j = sub.len();
                } else {
                    j = j + 1;
                }
            }
            if ok {
                proof {
                    assert(s@.subrange(i as int, i + sub@.len()) =~= sub@);
                }
                return true;
            } else {
                proof {
                    let k = choose|k: int| !(0 <= k < sub@.len() ==> s@[i + k] == sub@[k]);
                    assert(s@.subrange(i as int, i + sub@.len())[k] != sub@[k]);
                }
            }
            i = i + 1;
        }
        false
    }

    fn all_space_str(v: &Vec<char>) -> (r: bool)
        ensures
            r == crate::elements::all_space(v@),
    {
        let mut i: usize = 0;
        while i < v.len()
            invariant
                i <= v@.len(),
                forall|j: int| 0 <= j < i ==> crate::elements::spec_is_space(#[trigger] v@[j]),
            decreases v@.len() - i,
        {
            if !crate::elements::is_space_char(v[i]) {
                return false;
            }
            i = i + 1;
        }
        true
    }

    /// Whether the pinyin query `s2` occurs somewhere inside `s1`. A
    /// whitespace-only source is searched for the query as plain text.
    /// With acceleration on, the memoised evaluator answers instead and
    /// agrees with the direct matcher.
    pub fn contains(&mut self, s1: &str, s2: &str) -> (r: bool)
        requires
            old(self).wf(),
        ensures
            final(self).wf(),
            final(self).same_dict(*old(self)),
            r == spec_contains_result(*old(self), s1@, s2@),
            final(self).accelerator is Some <==> old(self).accelerator is Some,
    {
        if !self.accelerate || !self.has_accelerator() {
            let c1 = chars_of(s1);
            let c2 = chars_of(s2);
            if Self::all_space_str(&c1) {
                return Self::str_contains_chars(&c1, &c2);
            }
            let mut i: usize = 0;
            let mut found = false;
            while i < c1.len()
                invariant
                    self.wf(),
                    c1@ == s1@,
                    c2@ == s2@,
                    i <= c1@.len(),
                    found == exists|j: int|
                        0 <= j < i && #[trigger] spec_check_str(self.dict(), s1@, j, s2@, 0, true),
                decreases c1@.len() - i,
            {
                if self.check(s1, i, s2, 0, true) {
                    found = true;
                }
                i = i + 1;
            }
            return found;
        }
        let mut a = self.take_accelerator();
        let sp = StringProvider::new(s1);
        a.search(s2);
        let src = CharProvider::Str(&sp);
        let r = a.contains(self, &src, 0, 0);
        proof {
            lemma_provider_contains(self.dict(), src, s2@, 0, 0);
            assert(src.chars() == s1@);
        }
        self.accelerator = Some(a);
        r
    }

    /// Whether the pinyin query `s2` matches a prefix of `s1`. A
    /// whitespace-only source is compared as plain text.
    pub fn begins(&mut self, s1: &str, s2: &str) -> (r: bool)
        requires
            old(self).wf(),
        ensures
            final(self).wf(),
            final(self).same_dict(*old(self)),
            r == spec_begins_result(*old(self), s1@, s2@),
            final(self).accelerator is Some <==> old(self).accelerator is Some,
    {
        if !self.accelerate || !self.has_accelerator() {
            let c1 = chars_of(s1);
            let c2 = chars_of(s2);
            if Self::all_space_str(&c1) {
                return chars_prefix(&c1, &c2);
            }
            return self.check(s1, 0, s2, 0, true);
        }
        let mut a = self.take_accelerator();
        let sp = StringProvider::new(s1);
        a.search(s2);
        let src = CharProvider::Str(&sp);
        let r = a.begins(self, &src, 0, 0);
        proof {
            lemma_provider_check_agrees(self.dict(), src, s2@, 0, 0, true);
            assert(src.chars() == s1@);
        }
        self.accelerator = Some(a);
        r
    }

    /// Whether the pinyin query `s2` matches `s1` exactly: the check from
    /// the start of both, with no partial tail allowed. A whitespace-only
    /// source is compared as plain text.
    pub fn matches(&mut self, s1: &str, s2: &str) -> (r: bool)
        requires
            old(self).wf(),
        ensures
            final(self).wf(),
            final(self).same_dict(*old(self)),
            r == spec_matches_result(*old(self), s1@, s2@),
            final(self).accelerator is Some <==> old(self).accelerator is Some,
    {
        if !self.accelerate || !self.has_accelerator() {
            let c1 = chars_of(s1);
            let c2 = chars_of(s2);
            if Self::all_space_str(&c1) {
                return chars_eq(&c1, &c2);
            }
            return self.check(s1, 0, s2, 0, false);
        }
        let mut a = self.take_accelerator();
        let sp = StringProvider::new(s1);
        a.search(s2);
        let src = CharProvider::Str(&sp);
        let r = a.matches(self, &src, 0, 0);
        proof {
            lemma_provider_check_agrees(self.dict(), src, s2@, 0, 0, false);
            assert(src.chars() == s1@);
        }
        self.accelerator = Some(a);
        r
    }

    /// The dictionary, interned syllables, keyboard, and settings are the
    /// same; only the accelerator's cache may differ.
    pub open spec fn same_dict(self, other: PinIn) -> bool {
        &&& self.dict() == other.dict()
        &&& self.pinyin_by_id() == other.pinyin_by_id()
        &&& self.keyboard == other.keyboard
        &&& self.fuzzy == other.fuzzy
        &&& self.accelerate == other.accelerate
    }

    fn has_accelerator(&self) -> (r: bool)
        ensures
            r == (self.accelerator is Some),
    {
        match &self.accelerator {
            Some(_) => true,
            None => false,
        }
    }

    /// Takes the accelerator out for a query, leaving the context free to
    /// be read while the cache is consulted.
    fn take_accelerator(&mut self) -> (r: Accelerator)
        requires
            old(self).accelerator is Some,
        ensures
            r == old(self).accelerator->Some_0,
            final(self).accelerator is None,
            final(self).chars@ == old(self).chars@,
            final(self).intern@ == old(self).intern@,
            final(self).by_id@ == old(self).by_id@,
            final(self).keyboard == old(self).keyboard,
            final(self).fuzzy == old(self).fuzzy,
            final(self).accelerate == old(self).accelerate,
            old(self).wf() ==> final(self).wf(),
    {
        let a = self.accelerator.take();
        match a {
            Some(acc) => acc,
            None => {
                proof {
                    assert(false);
                }
                Accelerator::new()
            },
        }
    }
}

impl Default for PinIn {
    /// An empty context on the full-pinyin layout.
    fn default() -> (r: Self)
        ensures
            r.wf(),
            r.dict().len() == 0,
            !r.accelerate,
    {
        PinIn::new()
    }
}

/// What `contains` returns: without acceleration a whitespace-only source
/// is searched for the query as plain text, and any other source succeeds
/// exactly when the whole query checks at some position of it; with
/// acceleration the same check decides at every position, whitespace or
/// not.
pub open spec fn spec_contains_result(ctx: PinIn, s1: Seq<char>, s2: Seq<char>) -> bool {
    if !(ctx.accelerate && ctx.accelerator is Some) && crate::elements::all_space(s1) {
        PinIn::spec_str_contains(s1, s2)
    } else {
        exists|i: int|
            0 <= i < s1.len() && #[trigger] spec_check_str(ctx.dict(), s1, i, s2, 0, true)
    }
}

/// What `begins` returns: for a whitespace-only source without
/// acceleration, plain prefix comparison; otherwise a successful partial
/// check from the start of both strings.
pub open spec fn spec_begins_result(ctx: PinIn, s1: Seq<char>, s2: Seq<char>) -> bool {
    if !(ctx.accelerate && ctx.accelerator is Some) && crate::elements::all_space(s1) {
        s2.is_prefix_of(s1)
    } else {
        spec_check_str(ctx.dict(), s1, 0, s2, 0, true)
    }
}

/// What `matches` returns: for a whitespace-only source without
/// acceleration, plain equality; otherwise a successful full check, with
/// no partial tail allowed, from the start of both strings.
pub open spec fn spec_matches_result(ctx: PinIn, s1: Seq<char>, s2: Seq<char>) -> bool {
    if !(ctx.accelerate && ctx.accelerator is Some) && crate::elements::all_space(s1) {
        s1 == s2
    } else {
        spec_check_str(ctx.dict(), s1, 0, s2, 0, false)
    }
}

/// Over a plain string source the accelerator's memoised check agrees with
/// the direct matcher: they walk the same characters and consult the same
/// dictionary.
pub proof fn lemma_provider_check_agrees(
    dict: Seq<(char, Option<Character>)>,
    src: CharProvider<'_>,
    q: Seq<char>,
    offset: int,
    start: int,
    partial: bool,
)
    requires
        src matches CharProvider::Str(_),
        0 <= start <= src.chars().len(),
    ensures
        spec_check(dict, q, src, offset, start, partial) == spec_check_str(
            dict,
            src.chars(),
            start,
            q,
            offset,
            partial,
        ),
    decreases src.chars().len() - start,
{
    let s1 = src.chars();
    if offset == q.len() {
    } else if src.spec_stop(start) || start >= s1.len() {
    } else {
        if src.spec_stop(start + 1) {
        } else {
            let sraw = dict_char_match_raw(dict, s1[start], q, offset, partial);
            if spec_check(dict, q, src, offset, start, partial) {
                let i = choose|i: int|
                    0 <= i < 7 && #[trigger] bit32(sraw, i) && spec_check(
                        dict,
                        q,
                        src,
                        offset + i,
                        start + 1,
                        partial,
                    );
                lemma_provider_check_agrees(dict, src, q, offset + i, start + 1, partial);
                assert(spec_check_str(dict, s1, start + 1, q, offset + i, partial));
                assert(spec_check_str(dict, s1, start, q, offset, partial));
            }
            if spec_check_str(dict, s1, start, q, offset, partial) {
                let i = choose|i: int|
                    0 <= i < 7 && #[trigger] bit32(sraw, i) && spec_check_str(
                        dict,
                        s1,
                        start + 1,
                        q,
                        offset + i,
                        partial,
                    );
                lemma_provider_check_agrees(dict, src, q, offset + i, start + 1, partial);
                assert(spec_check(dict, q, src, offset + i, start + 1, partial));
                assert(spec_check(dict, q, src, offset, start, partial));
            }
        }
    }
}

/// Over a plain string source, searching every start position agrees with
/// the quantified form: the string never stops early.
pub proof fn lemma_provider_contains(
    dict: Seq<(char, Option<Character>)>,
    src: CharProvider<'_>,
    q: Seq<char>,
    offset: int,
    start: int,
)
    requires
        src matches CharProvider::Str(_),
        0 <= start,
    ensures
        spec_contains_from(dict, q, src, offset, start, true) == (exists|i: int|
            start <= i < src.chars().len() && #[trigger] spec_check_str(
                dict,
                src.chars(),
                i,
                q,
                offset,
                true,
            )),
    decreases src.chars().len() - start,
{
    let s1 = src.chars();
    if start >= s1.len() {
    } else {
        lemma_provider_check_agrees(dict, src, q, offset, start, true);
        lemma_provider_contains(dict, src, q, offset, start + 1);
        if spec_check(dict, q, src, offset, start, true) {
            assert(spec_check_str(dict, s1, start, q, offset, true));
        } else {
            if exists|i: int|
                start <= i < s1.len() && #[trigger] spec_check_str(dict, s1, i, q, offset, true) {
                let i = choose|i: int|
                    start <= i < s1.len() && #[trigger] spec_check_str(
                        dict,
                        s1,
                        i,
                        q,
                        offset,
                        true,
                    );
                assert(i != start);
                assert(start + 1 <= i < s1.len() && spec_check_str(dict, s1, i, q, offset, true));
            }
        }
    }
}


/// The direct matcher only looks at the source from its start position:
/// checking `s1` from `i + k` is checking the suffix `s1[i..]` from `k`.
pub proof fn lemma_check_str_suffix(
    dict: Seq<(char, Option<Character>)>,
    s1: Seq<char>,
    i: int,
    k: int,
    s2: Seq<char>,
    start2: int,
    partial: bool,
)
    requires
        0 <= i <= s1.len(),
        0 <= k,
    ensures
        spec_check_str(dict, s1, i + k, s2, start2, partial) == spec_check_str(
            dict,
            s1.skip(i),
            k,
            s2,
            start2,
            partial,
        ),
    decreases s1.len() - (i + k),
{
    let suf = s1.skip(i);
    assert(suf.len() == s1.len() - i);
    if start2 == s2.len() {
        assert((i + k == s1.len()) == (k == suf.len()));
    } else if i + k >= s1.len() {
    } else {
        assert(s1[i + k] == suf[k]);
        if i + k == s1.len() - 1 {
        } else {
            let sraw = dict_char_match_raw(dict, s1[i + k], s2, start2, partial);
            assert forall|t: int| 0 <= t < 7 implies (#[trigger] spec_check_str(
                dict,
                s1,
                i + k + 1,
                s2,
                start2 + t,
                partial,
            ) == spec_check_str(dict, suf, k + 1, s2, start2 + t, partial)) by {
                lemma_check_str_suffix(dict, s1, i, k + 1, s2, start2 + t, partial);
            }
            if spec_check_str(dict, s1, i + k, s2, start2, partial) {
                let t = choose|t: int|
                    0 <= t < 7 && #[trigger] bit32(sraw, t) && spec_check_str(
                        dict,
                        s1,
                        i + k + 1,
                        s2,
                        start2 + t,
                        partial,
                    );
                assert(spec_check_str(dict, suf, k + 1, s2, start2 + t, partial));
                assert(spec_check_str(dict, suf, k, s2, start2, partial));
            }
            if spec_check_str(dict, suf, k, s2, start2, partial) {
                let t = choose|t: int|
                    0 <= t < 7 && #[trigger] bit32(sraw, t) && spec_check_str(
                        dict,
                        suf,
                        k + 1,
                        s2,
                        start2 + t,
                        partial,
                    );
                assert(spec_check_str(dict, s1, i + k + 1, s2, start2 + t, partial));
                assert(spec_check_str(dict, s1, i + k, s2, start2, partial));
            }
        }
    }
}

/// Containment is a prefix match of some suffix: the query occurs inside
/// the source exactly when it begins some suffix of it.
pub proof fn lemma_contains_is_begins_of_suffix(
    dict: Seq<(char, Option<Character>)>,
    s1: Seq<char>,
    s2: Seq<char>,
)
    ensures
        (exists|i: int| 0 <= i < s1.len() && #[trigger] spec_check_str(dict, s1, i, s2, 0, true))
            <==> (exists|i: int|
            0 <= i < s1.len() && #[trigger] spec_check_str(dict, s1.skip(i), 0, s2, 0, true)),
{
    assert forall|i: int| 0 <= i < s1.len() implies (#[trigger] spec_check_str(
        dict,
        s1,
        i,
        s2,
        0,
        true,
    ) == spec_check_str(dict, s1.skip(i), 0, s2, 0, true)) by {
        lemma_check_str_suffix(dict, s1, i, 0, s2, 0, true);
    }
    if exists|i: int| 0 <= i < s1.len() && #[trigger] spec_check_str(dict, s1, i, s2, 0, true) {
        let i = choose|i: int|
            0 <= i < s1.len() && #[trigger] spec_check_str(dict, s1, i, s2, 0, true);
        assert(spec_check_str(dict, s1.skip(i), 0, s2, 0, true));
    }
    if exists|i: int|
        0 <= i < s1.len() && #[trigger] spec_check_str(dict, s1.skip(i), 0, s2, 0, true) {
        let i = choose|i: int|
            0 <= i < s1.len() && #[trigger] spec_check_str(dict, s1.skip(i), 0, s2, 0, true);
        assert(spec_check_str(dict, s1, i, s2, 0, true));
    }
}
} // verus!
