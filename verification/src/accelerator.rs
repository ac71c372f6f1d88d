//! The memoising incremental matcher: for a fixed query it caches, per
//! query offset and pinyin id, the index set of how many query graphemes a
//! syllable can consume there, and drives a character-by-character test
//! against a source.

use std::rc::Rc;
use vstd::prelude::*;

use crate::compressed::{bit32, Compressor, IndexSet, IndexSetStorage};
use crate::elements::{pinyin_match_raw, Character, Pinyin};
use crate::pinin::{dict_char_match_raw, is_dict_character, lemma_dict_character_raw, PinIn};
use crate::unicode_utils::chars_of;
use vstd::string::StringExecFns;

verus! {

/// A plain in-memory source: the characters of one string.
pub struct StringProvider {
    pub s: Vec<char>,
}

impl StringProvider {
    pub fn new(s: &str) -> (r: StringProvider)
        ensures
            r.s@ == s@,
    {
        StringProvider { s: chars_of(s) }
    }
}

/// Where the source characters come from: a plain string, or the trie's
/// character arena, whose NUL separators mark the end of each entry.
pub enum CharProvider<'a> {
    Str(&'a StringProvider),
    Comp(&'a Compressor),
}

impl CharProvider<'_> {
    /// The backing character sequence.
    pub open spec fn chars(self) -> Seq<char> {
        match self {
            CharProvider::Str(p) => p.s@,
            CharProvider::Comp(c) => c.chars_view(),
        }
    }

    /// Whether position `i` is the end of a source: past the characters of
    /// a plain string, or on a NUL separator (or past the arena) for the
    /// arena.
    pub open spec fn spec_stop(self, i: int) -> bool {
        match self {
            CharProvider::Str(p) => i >= p.s@.len(),
            CharProvider::Comp(c) => i >= c.chars_view().len() || c.chars_view()[i] == '\0',
        }
    }

    pub fn stop(&self, i: usize) -> (r: bool)
        ensures
            r == self.spec_stop(i as int),
    {
        match self {
            CharProvider::Str(p) => i >= p.s.len(),
            CharProvider::Comp(c) => c.end(i) || i >= c.len_of(),
        }
    }

    /// The character at `i`.
    pub fn at(&self, i: usize) -> (r: char)
        requires
            i < self.chars().len(),
        ensures
            r == self.chars()[i as int],
    {
        match self {
            CharProvider::Str(p) => p.s[i],
            CharProvider::Comp(c) => c.at(i),
        }
    }

    pub fn src_len(&self) -> (r: usize)
        ensures
            r == self.chars().len(),
    {
        match self {
            CharProvider::Str(p) => p.s.len(),
            CharProvider::Comp(c) => c.len_of(),
        }
    }
}

/// The incremental check of the query against a source, as a mathematical
/// function. At the end of the query, a full match demands the source be
/// exhausted too, while a partial one accepts anything; otherwise one
/// source character consumes some members' worth of query graphemes and
/// the check continues after it. At the last source character the whole
/// remaining query must be consumed at once.
pub open spec fn spec_check(
    dict: Seq<(char, Option<Character>)>,
    q: Seq<char>,
    src: CharProvider<'_>,
    offset: int,
    start: int,
    partial: bool,
) -> bool
    decreases src.chars().len() - start,
{
    if offset == q.len() {
        partial || src.spec_stop(start)
    } else if src.spec_stop(start) || start < 0 || start >= src.chars().len() {
        false
    } else {
        let sraw = dict_char_match_raw(dict, src.chars()[start], q, offset, partial);
        if src.spec_stop(start + 1) {
            let i = q.len() - offset;
            0 <= i < 32 && bit32(sraw, i)
        } else {
            exists|i: int|
                0 <= i < 7 && #[trigger] bit32(sraw, i) && spec_check(
                    dict,
                    q,
                    src,
                    offset + i,
                    start + 1,
                    partial,
                )
        }
    }
}

/// Whether the check succeeds from some starting position of the source at
/// or after `start`, walking forward until the source ends.
pub open spec fn spec_contains_from(
    dict: Seq<(char, Option<Character>)>,
    q: Seq<char>,
    src: CharProvider<'_>,
    offset: int,
    start: int,
    partial: bool,
) -> bool
    decreases src.chars().len() - start,
{
    if start < 0 || start >= src.chars().len() || src.spec_stop(start) {
        false
    } else if spec_check(dict, q, src, offset, start, partial) {
        true
    } else {
        spec_contains_from(dict, q, src, offset, start + 1, partial)
    }
}

/// The memoised evaluator. It owns the query, a per-offset cache of
/// per-pinyin-id index sets, and the flag saying whether partial matches
/// are accepted; the cache is valid only for the current query and flag
/// and is cleared whenever either changes.
pub struct Accelerator {
    cache: Vec<IndexSetStorage>,
    search_chars: Vec<char>,
    search_str: String,
    partial: bool,
}

impl Accelerator {
    /// The current query.
    pub closed spec fn query(self) -> Seq<char> {
        self.search_str@
    }

    /// Whether partial matches are currently accepted.
    pub closed spec fn spec_partial(self) -> bool {
        self.partial
    }

    /// The cached query characters agree with the query string.
    pub closed spec fn strs_wf(self) -> bool {
        self.search_chars@ == self.search_str@
    }

    /// Every recorded cache entry is exactly the match result of the
    /// syllable interned under its id, for the current query and flag.
    pub closed spec fn cache_wf(self, by: Seq<Rc<Pinyin>>) -> bool {
        &&& forall|o: int| 0 <= o < self.cache@.len() ==> (#[trigger] self.cache@[o]).wf()
        &&& forall|o: int, id: int|
            0 <= o < self.cache@.len() && (#[trigger] self.cache@[o].stored(id)) != -1 ==> 0 <= id
                < by.len() && self.cache@[o].stored(id) == pinyin_match_raw(
                *by[id],
                self.search_str@,
                o,
                self.partial,
            )
    }

    /// A valid cache stays valid when the interned syllables only grow.
    pub proof fn lemma_cache_wf_grow(self, by1: Seq<Rc<Pinyin>>, by2: Seq<Rc<Pinyin>>)
        requires
            self.cache_wf(by1),
            by1.is_prefix_of(by2),
        ensures
            self.cache_wf(by2),
    {
        assert forall|o: int, id: int|
            0 <= o < self.cache@.len() && (#[trigger] self.cache@[o].stored(id)) != -1 implies 0
            <= id < by2.len() && self.cache@[o].stored(id) == pinyin_match_raw(
            *by2[id],
            self.search_str@,
            o,
            self.partial,
        ) by {
            assert(id < by1.len());
            assert(by2[id] == by1[id]);
        }
    }

    pub fn new() -> (r: Accelerator)
        ensures
            r.query() == Seq::<char>::empty(),
            !r.spec_partial(),
            r.strs_wf(),
            forall|by: Seq<Rc<Pinyin>>| r.cache_wf(by),
    {
        Accelerator {
            cache: Vec::new(),
            search_chars: Vec::new(),
            search_str: String::new(),
            partial: false,
        }
    }

    /// The number of characters in the current query.
    pub fn query_len(&self) -> (r: usize)
        requires
            self.strs_wf(),
        ensures
            r == self.query().len(),
    {
        self.search_chars.len()
    }

    /// The query character at `i`.
    pub fn query_char_at(&self, i: usize) -> (r: char)
        requires
            self.strs_wf(),
            i < self.query().len(),
        ensures
            r == self.query()[i as int],
    {
        self.search_chars[i]
    }

    /// The current query as a string.
    pub fn query_str(&self) -> (r: &str)
        ensures
            r@ == self.query(),
    {
        self.search_str.as_str()
    }

    /// Clears the cache.
    pub fn reset(&mut self)
        ensures
            final(self).query() == old(self).query(),
            final(self).spec_partial() == old(self).spec_partial(),
            final(self).strs_wf() == old(self).strs_wf(),
            forall|by: Seq<Rc<Pinyin>>| final(self).cache_wf(by),
    {
        self.cache = Vec::new();
    }

    /// Installs the query `s`; a changed query clears the cache.
    pub fn search(&mut self, s: &str)
        requires
            old(self).strs_wf(),
        ensures
            final(self).query() == s@,
            final(self).spec_partial() == old(self).spec_partial(),
            final(self).strs_wf(),
            forall|by: Seq<Rc<Pinyin>>|
                old(self).cache_wf(by) ==> #[trigger] final(self).cache_wf(by),
    {
        let new_str = String::from_str(s);
        if !(self.search_str == new_str) {
            self.search_str = new_str;
            self.search_chars = chars_of(s);
            self.cache = Vec::new();
        } else {
            proof {
                assert(self.search_str@ == s@);
            }
        }
    }

    /// The match set of reading `p` of the current query at `offset`,
    /// computed once and then served from the cache: a second call with
    /// the same pinyin and offset returns the recorded set.
    pub fn get_pinyin(&mut self, ctx: &PinIn, p: &Rc<Pinyin>, offset: usize) -> (r: IndexSet)
        requires
            ctx.wf(),
            old(self).strs_wf(),
            old(self).cache_wf(ctx.pinyin_by_id()),
            (*p).id < ctx.pinyin_by_id().len(),
            *p == ctx.pinyin_by_id()[(*p).id as int],
        ensures
            final(self).strs_wf(),
            final(self).cache_wf(ctx.pinyin_by_id()),
            final(self).query() == old(self).query(),
            final(self).spec_partial() == old(self).spec_partial(),
            r.raw() == pinyin_match_raw(
                **p,
                old(self).query(),
                offset as int,
                old(self).spec_partial(),
            ),
    {
        proof {
            ctx.lemma_by_id_wf((*p).id as int);
        }
        while self.cache.len() <= offset
            invariant
                self.cache_wf(ctx.pinyin_by_id()),
                self.search_str@ == old(self).search_str@,
                self.search_chars@ == old(self).search_chars@,
                self.partial == old(self).partial,
            decreases offset + 1 - self.cache.len(),
        {
            let ghost pre = self.cache@;
            self.cache.push(IndexSetStorage::new());
            proof {
                assert forall|o: int| 0 <= o < self.cache@.len() implies (
                #[trigger] self.cache@[o]).wf() by {
                    if o < pre.len() {
                        assert(self.cache@[o] == pre[o]);
                    }
                }
                assert forall|o: int, id: int|
                    0 <= o < self.cache@.len() && (#[trigger] self.cache@[o].stored(id))
                        != -1 implies 0 <= id < ctx.pinyin_by_id().len() && self.cache@[o].stored(
                    id,
                ) == pinyin_match_raw(
                    *ctx.pinyin_by_id()[id],
                    self.search_str@,
                    o,
                    self.partial,
                ) by {
                    if o < pre.len() {
                        assert(self.cache@[o] == pre[o]);
                    }
                }
            }
        }
        let data = &self.cache[offset];
        let ret = data.get(p.id);
        if ret.raw_value() != -1 {
            return ret;
        }
        let set = p.match_string(self.search_str.as_str(), offset, self.partial);
        let ghost pre = self.cache@;
        proof {
            assert(pre[offset as int].wf());
        }
        let slot = &mut self.cache[offset];
        slot.set(set, p.id);
        proof {
            assert(self.cache@ == pre.update(offset as int, self.cache@[offset as int]));
            assert forall|o: int| 0 <= o < self.cache@.len() implies (
            #[trigger] self.cache@[o]).wf() by {
                if o != offset {
                    assert(self.cache@[o] == pre[o]);
                }
            }
            assert forall|o: int, id: int|
                0 <= o < self.cache@.len() && (#[trigger] self.cache@[o].stored(id))
                    != -1 implies 0 <= id < ctx.pinyin_by_id().len() && self.cache@[o].stored(id)
                == pinyin_match_raw(
                *ctx.pinyin_by_id()[id],
                self.search_str@,
                o,
                self.partial,
            ) by {
                if o != offset {
                    assert(self.cache@[o] == pre[o]);
                } else {
                    if id != (*p).id {
                        assert(self.cache@[o].stored(id) == pre[o].stored(id));
                    }
                }
            }
        }
        set
    }

    /// The index set of how many query graphemes the source character `ch`
    /// can consume at query offset `offset`: the single character itself
    /// when it equals the query character there, merged with every reading
    /// of `ch` in the dictionary.
    pub fn get(&mut self, ctx: &PinIn, ch: char, offset: usize) -> (r: IndexSet)
        requires
            ctx.wf(),
            old(self).strs_wf(),
            old(self).cache_wf(ctx.pinyin_by_id()),
        ensures
            final(self).strs_wf(),
            final(self).cache_wf(ctx.pinyin_by_id()),
            final(self).query() == old(self).query(),
            final(self).spec_partial() == old(self).spec_partial(),
            r.raw() == dict_char_match_raw(
                ctx.dict(),
                ch,
                old(self).query(),
                offset as int,
                old(self).spec_partial(),
            ),
    {
        let c = ctx.get_character(ch);
        let ghost q = self.search_str@;
        let mut ret = if offset < self.search_chars.len() && self.search_chars[offset] == ch {
            IndexSet::one()
        } else {
            IndexSet::none()
        };
        let mut i: usize = 0;
        proof {
            lemma_dict_character_raw(c, ctx.dict(), ch);
            assert(ret.raw() == (if 0 <= offset < q.len() && q[offset as int] == c.ch {
                2i32
            } else {
                0i32
            }));
        }
        while i < c.pinyin.len()
            invariant
                ctx.wf(),
                self.cache_wf(ctx.pinyin_by_id()),
                self.search_str@ == q,
                self.search_chars@ == q,
                self.partial == old(self).spec_partial(),
                c.ch == ch,
                c.wf(),
                crate::pinin::linked(c, ctx.pinyin_by_id()),
                is_dict_character(c, ctx.dict(), ch),
                i <= c.pinyin@.len(),
                crate::elements::char_fold(
                    c.pinyin@,
                    q,
                    offset as int,
                    self.partial,
                    i as int,
                    ret.raw(),
                ) == dict_char_match_raw(ctx.dict(), ch, q, offset as int, self.partial),
            decreases c.pinyin@.len() - i,
        {
            let ghost r0 = ret.raw();
            let py: &Rc<Pinyin> = &c.pinyin[i];
            let m = self.get_pinyin(ctx, py, offset);
            ret.merge(m);
            proof {
                crate::elements::lemma_char_fold_step(
                    c.pinyin@,
                    q,
                    offset as int,
                    self.partial,
                    i as int,
                    r0,
                );
            }
            i = i + 1;
        }
        ret
    }

    /// The recursive kernel: whether the query from `offset` matches the
    /// source from `start` under the current flag.
    pub fn check(&mut self, ctx: &PinIn, src: &CharProvider<'_>, offset: usize, start: usize) -> (r:
        bool)
        requires
            ctx.wf(),
            old(self).strs_wf(),
            old(self).cache_wf(ctx.pinyin_by_id()),
        ensures
            final(self).strs_wf(),
            final(self).cache_wf(ctx.pinyin_by_id()),
            final(self).query() == old(self).query(),
            final(self).spec_partial() == old(self).spec_partial(),
            r == spec_check(
                ctx.dict(),
                old(self).query(),
                *src,
                offset as int,
                start as int,
                old(self).spec_partial(),
            ),
        decreases src.chars().len() - start,
    {
        let ghost q = self.search_str@;
        let qlen = self.search_chars.len();
        if offset == qlen {
            return self.partial || src.stop(start);
        }
        if offset > qlen {
            proof {
                lemma_check_beyond_query(
                    ctx.dict(),
                    q,
                    *src,
                    offset as int,
                    start as int,
                    self.partial,
                );
            }
            return false;
        }
        if src.stop(start) {
            return false;
        }
        let n = src.src_len();
        if start >= n {
            return false;
        }
        let s = self.get(ctx, src.at(start), offset);
        if src.stop(start + 1) {
            if qlen - offset < 32 {
                return s.get(qlen - offset);
            }
            return false;
        }
        let ghost sraw = s.raw();
        let mut i: usize = 0;
        while i < 7
            invariant
                ctx.wf(),
                self.cache_wf(ctx.pinyin_by_id()),
                self.search_str@ == q,
                self.search_chars@ == q,
                self.partial == old(self).spec_partial(),
                q == old(self).query(),
                q.len() <= usize::MAX,
                offset < q.len(),
                start < src.chars().len(),
                src.chars().len() <= usize::MAX,
                !src.spec_stop(start as int),
                !src.spec_stop(start + 1),
                i <= 7,
                sraw == s.raw(),
                sraw == dict_char_match_raw(
                    ctx.dict(),
                    src.chars()[start as int],
                    q,
                    offset as int,
                    self.partial,
                ),
                forall|j: int|
                    0 <= j < i ==> !(#[trigger] bit32(sraw, j) && spec_check(
                        ctx.dict(),
                        q,
                        *src,
                        offset + j,
                        start + 1,
                        self.partial,
                    )),
            decreases 7 - i,
        {
            if s.get(i) {
                if offset <= usize::MAX - i {
                    if self.check(ctx, src, offset + i, start + 1) {
                        proof {
                            assert(bit32(sraw, i as int));
                            assert(spec_check(
                                ctx.dict(),
                                q,
                                *src,
                                offset as int,
                                start as int,
                                self.partial,
                            ));
                        }
                        return true;
                    }
                } else {
                    proof {
                        lemma_check_beyond_query(
                            ctx.dict(),
                            q,
                            *src,
                            offset + i,
                            start + 1,
                            self.partial,
                        );
                    }
                }
            } else {
                proof {
                    assert(!bit32(sraw, i as int));
                }
            }
            i = i + 1;
        }
        false
    }

    /// Full match: the query from `offset` must consume the source from
    /// `start` exactly. Entering this mode clears a cache built for
    /// partial matching.
    pub fn matches(&mut self, ctx: &PinIn, src: &CharProvider<'_>, offset: usize, start: usize) -> (
        r: bool)
        requires
            ctx.wf(),
            old(self).strs_wf(),
            old(self).cache_wf(ctx.pinyin_by_id()),
        ensures
            final(self).strs_wf(),
            final(self).cache_wf(ctx.pinyin_by_id()),
            final(self).query() == old(self).query(),
            !final(self).spec_partial(),
            r == spec_check(ctx.dict(), old(self).query(), *src, offset as int, start as int, false),
    {
        if self.partial {
            self.partial = false;
            self.reset();
        }
        self.check(ctx, src, offset, start)
    }

    /// Prefix match: the query may end in the middle of a syllable.
    /// Entering this mode clears a cache built for full matching.
    pub fn begins(&mut self, ctx: &PinIn, src: &CharProvider<'_>, offset: usize, start: usize) -> (
        r: bool)
        requires
            ctx.wf(),
            old(self).strs_wf(),
            old(self).cache_wf(ctx.pinyin_by_id()),
        ensures
            final(self).strs_wf(),
            final(self).cache_wf(ctx.pinyin_by_id()),
            final(self).query() == old(self).query(),
            final(self).spec_partial(),
            r == spec_check(ctx.dict(), old(self).query(), *src, offset as int, start as int, true),
    {
        if !self.partial {
            self.partial = true;
            self.reset();
        }
        self.check(ctx, src, offset, start)
    }

    /// Substring match: a prefix match from some source position at or
    /// after `start`.
    pub fn contains(&mut self, ctx: &PinIn, src: &CharProvider<'_>, offset: usize, start: usize) -> (
        r: bool)
        requires
            ctx.wf(),
            old(self).strs_wf(),
            old(self).cache_wf(ctx.pinyin_by_id()),
        ensures
            final(self).strs_wf(),
            final(self).cache_wf(ctx.pinyin_by_id()),
            final(self).query() == old(self).query(),
            final(self).spec_partial(),
            r == spec_contains_from(
                ctx.dict(),
                old(self).query(),
                *src,
                offset as int,
                start as int,
                true,
            ),
    {
        if !self.partial {
            self.partial = true;
            self.reset();
        }
        let ghost q = self.search_str@;
        let n = src.src_len();
        if start >= n {
            return false;
        }
        let mut i = start;
        while !self.stop_here(src, i)
            invariant
                ctx.wf(),
                self.cache_wf(ctx.pinyin_by_id()),
                self.search_str@ == q,
                self.search_chars@ == q,
                q == old(self).query(),
                self.partial,
                start <= i,
                i <= src.chars().len(),
                n == src.chars().len(),
                spec_contains_from(ctx.dict(), q, *src, offset as int, start as int, true)
                    == spec_contains_from(ctx.dict(), q, *src, offset as int, i as int, true),
            decreases src.chars().len() - i,
        {
            if self.check(ctx, src, offset, i) {
                proof {
                    assert(spec_contains_from(ctx.dict(), q, *src, offset as int, i as int, true));
                }
                return true;
            }
            i = i + 1;
        }
        false
    }

    /// One bounded step of the contains loop condition; also keeps `i`
    /// inside the source.
    fn stop_here(&self, src: &CharProvider<'_>, i: usize) -> (r: bool)
        ensures
            r == (src.spec_stop(i as int) || i >= src.chars().len()),
    {
        src.stop(i) || i >= src.src_len()
    }

    /// The length of the common run of two source positions, capped at
    /// `max` and stopped by a NUL terminator.
    pub fn common(&self, src: &CharProvider<'_>, s1: usize, s2: usize, max: usize) -> (r: usize)
        ensures
            r == spec_common(*src, s1 as int, s2 as int, max as int),
            r <= max,
    {
        let n = src.src_len();
        let mut i: usize = 0;
        while i < max
            invariant
                i <= max,
                n == src.chars().len(),
                spec_common(*src, s1 as int, s2 as int, max as int) == spec_common_from(
                    *src,
                    s1 as int,
                    s2 as int,
                    max as int,
                    i as int,
                ),
            decreases max - i,
        {
            if s1 >= n || i >= n - s1 {
                return i;
            }
            if s2 >= n || i >= n - s2 {
                return i;
            }
            let a = src.at(s1 + i);
            let b = src.at(s2 + i);
            if a != b || a == '\0' {
                return i;
            }
            i = i + 1;
        }
        max
    }
}

/// A cache hit changes nothing: any two reads for the same syllable and
/// offset, under one query and flag, yield the same index set, for each
/// is pinned to the syllable's match result there.
pub proof fn lemma_cache_hit_deterministic(
    r1: IndexSet,
    r2: IndexSet,
    p: Pinyin,
    q: Seq<char>,
    offset: int,
    partial: bool,
)
    requires
        r1.raw() == pinyin_match_raw(p, q, offset, partial),
        r2.raw() == pinyin_match_raw(p, q, offset, partial),
    ensures
        r1.raw() == r2.raw(),
{
}

impl Default for Accelerator {
    /// An evaluator with an empty query and a cold cache.
    fn default() -> (r: Self)
        ensures
            r.query() == Seq::<char>::empty(),
            !r.spec_partial(),
            r.strs_wf(),
            forall|by: Seq<Rc<Pinyin>>| r.cache_wf(by),
    {
        Accelerator::new()
    }
}

/// A query offset past the end of the query never checks: the remaining
/// length is negative, so neither the one-shot nor the stepwise branch can
/// close the match.
pub proof fn lemma_check_beyond_query(
    dict: Seq<(char, Option<Character>)>,
    q: Seq<char>,
    src: CharProvider<'_>,
    offset: int,
    start: int,
    partial: bool,
)
    requires
        offset > q.len(),
    ensures
        !spec_check(dict, q, src, offset, start, partial),
    decreases src.chars().len() - start,
{
    assert(offset != q.len());
    if src.spec_stop(start) || start < 0 || start >= src.chars().len() {
        assert(!spec_check(dict, q, src, offset, start, partial));
    } else if src.spec_stop(start + 1) {
        assert(q.len() - offset < 0);
        assert(!spec_check(dict, q, src, offset, start, partial));
    } else {
        if spec_check(dict, q, src, offset, start, partial) {
            let sraw = dict_char_match_raw(dict, src.chars()[start], q, offset, partial);
            let i = choose|i: int|
                0 <= i < 7 && #[trigger] bit32(sraw, i) && spec_check(
                    dict,
                    q,
                    src,
                    offset + i,
                    start + 1,
                    partial,
                );
            lemma_check_beyond_query(dict, q, src, offset + i, start + 1, partial);
            assert(false);
        }
    }
}

/// The common-run length from position `i` onwards: positions past the
/// source, a NUL, or a mismatch stop the run; `max` caps it.
pub open spec fn spec_common_from(
    src: CharProvider<'_>,
    s1: int,
    s2: int,
    max: int,
    i: int,
) -> int
    decreases max - i,
{
    if i >= max {
        max
    } else if s1 + i >= src.chars().len() || s2 + i >= src.chars().len() {
        i
    } else if src.chars()[s1 + i] != src.chars()[s2 + i] || src.chars()[s1 + i] == '\0' {
        i
    } else {
        spec_common_from(src, s1, s2, max, i + 1)
    }
}

/// The length of the common run of two source positions, capped at `max`.
pub open spec fn spec_common(src: CharProvider<'_>, s1: int, s2: int, max: int) -> int {
    spec_common_from(src, s1, s2, max, 0)
}

} // verus!
