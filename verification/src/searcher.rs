//! Corpus searchers: a linear scanner over the character arena, and the
//! adaptive trie whose nodes change shape as subtrees grow.

use std::rc::Rc;
use vstd::multiset::Multiset;
use vstd::prelude::*;

use crate::accelerator::{spec_check, spec_contains_from, Accelerator, CharProvider};
use crate::compressed::Compressor;
use crate::elements::{Character, Phoneme, Pinyin};
use crate::pinin::PinIn;

verus! {

/// What counts as a hit at the leaf of every search: the query must be a
/// prefix of the entry, occur inside it, or match it exactly.
#[derive(Copy, Clone, PartialEq, Eq, Structural, Debug)]
pub enum SearcherLogic {
    Begin,
    Contain,
    Equal,
}

/// The test a logic applies to the entry at `start` of the given source.
pub open spec fn spec_logic_test(
    logic: SearcherLogic,
    dict: Seq<(char, Option<Character>)>,
    q: Seq<char>,
    src: CharProvider<'_>,
    offset: int,
    start: int,
) -> bool {
    match logic {
        SearcherLogic::Begin => spec_check(dict, q, src, offset, start, true),
        SearcherLogic::Contain => spec_contains_from(dict, q, src, offset, start, true),
        SearcherLogic::Equal => spec_check(dict, q, src, offset, start, false),
    }
}

impl SearcherLogic {
    /// Applies this logic through the accelerator.
    pub fn test_accelerator(
        &self,
        a: &mut Accelerator,
        context: &PinIn,
        src: &CharProvider<'_>,
        offset: usize,
        start: usize,
    ) -> (r: bool)
        requires
            context.wf(),
            old(a).strs_wf(),
            old(a).cache_wf(context.pinyin_by_id()),
        ensures
            final(a).strs_wf(),
            final(a).cache_wf(context.pinyin_by_id()),
            final(a).query() == old(a).query(),
            final(a).spec_partial() == (*self != SearcherLogic::Equal),
            r == spec_logic_test(
                *self,
                context.dict(),
                old(a).query(),
                *src,
                offset as int,
                start as int,
            ),
    {
        match self {
            SearcherLogic::Begin => a.begins(context, src, offset, start),
            SearcherLogic::Contain => a.contains(context, src, offset, start),
            SearcherLogic::Equal => a.matches(context, src, offset, start),
        }
    }

    /// Applies this logic directly through the context.
    pub fn test_pinyin(&self, p: &mut PinIn, s1: &str, s2: &str) -> (r: bool)
        requires
            old(p).wf(),
        ensures
            final(p).wf(),
            final(p).same_dict(*old(p)),
            r == match *self {
                SearcherLogic::Begin => crate::pinin::spec_begins_result(*old(p), s1@, s2@),
                SearcherLogic::Contain => crate::pinin::spec_contains_result(*old(p), s1@, s2@),
                SearcherLogic::Equal => crate::pinin::spec_matches_result(*old(p), s1@, s2@),
            },
    {
        match self {
            SearcherLogic::Begin => p.begins(s1, s2),
            SearcherLogic::Contain => p.contains(s1, s2),
            SearcherLogic::Equal => p.matches(s1, s2),
        }
    }
}

/// The entry indices of `offsets`, in order, whose arena entry passes the
/// logic test for query `q`.
pub open spec fn matching_entries(
    logic: SearcherLogic,
    dict: Seq<(char, Option<Character>)>,
    q: Seq<char>,
    comp: Compressor,
    offsets: Seq<usize>,
    k: int,
) -> Seq<int>
    decreases k,
{
    if k <= 0 {
        Seq::empty()
    } else {
        let rest = matching_entries(logic, dict, q, comp, offsets, k - 1);
        if spec_logic_test(logic, dict, q, CharProvider::Comp(&comp), 0, offsets[k - 1] as int) {
            rest.push(k - 1)
        } else {
            rest
        }
    }
}

/// The linear fallback searcher: every entry is laid out in the arena and
/// tested one by one.
pub struct SimpleSearcher<T> {
    pub objects: Vec<T>,
    pub accelerator: Accelerator,
    pub compressor: Compressor,
    pub logic: SearcherLogic,
}

impl<T> SimpleSearcher<T> {
    pub open spec fn wf(self) -> bool {
        &&& self.compressor.wf()
        &&& self.accelerator.strs_wf()
        &&& self.objects@.len() == self.compressor.offsets_view().len()
    }

    /// The cache may hold results computed against earlier dictionaries,
    /// so it must validate against the context used for searching.
    pub open spec fn cache_ok(self, ctx: PinIn) -> bool {
        self.accelerator.cache_wf(ctx.pinyin_by_id())
    }

    pub open spec fn logic_view(self) -> SearcherLogic {
        self.logic
    }

    pub open spec fn objects_view(self) -> Seq<T> {
        self.objects@
    }

    pub open spec fn compressor_view(self) -> Compressor {
        self.compressor
    }

    pub fn new(logic: SearcherLogic) -> (r: SimpleSearcher<T>)
        ensures
            r.wf(),
            r.logic_view() == logic,
            r.objects_view() == Seq::<T>::empty(),
            forall|ctx: PinIn| r.cache_ok(ctx),
    {
        SimpleSearcher {
            objects: Vec::new(),
            accelerator: Accelerator::new(),
            compressor: Compressor::new(),
            logic,
        }
    }

    /// Adds an entry: its name goes into the arena, its object at the
    /// matching index.
    pub fn insert(&mut self, context: &PinIn, name: &str, id: T)
        requires
            old(self).wf(),
            context.wf(),
        ensures
            final(self).wf(),
            final(self).logic_view() == old(self).logic_view(),
            final(self).objects_view() == old(self).objects_view().push(id),
            final(self).compressor_view().offsets_view() == old(
                self,
            ).compressor_view().offsets_view().push(old(self).compressor_view().chars_view().len() as usize),
            final(self).compressor_view().chars_view() == old(self).compressor_view().chars_view()
                + name@ + seq!['\0'],
            forall|ctx: PinIn| old(self).cache_ok(ctx) ==> final(self).cache_ok(ctx),
    {
        self.compressor.push(name);
        let cs = crate::unicode_utils::chars_of(name);
        let mut i: usize = 0;
        while i < cs.len()
            invariant
                i <= cs@.len(),
                context.wf(),
            decreases cs@.len() - i,
        {
            let _warm = context.get_character(cs[i]);
            i = i + 1;
        }
        self.objects.push(id);
    }

    /// Returns a reference to each object whose entry passes the logic
    /// test: exactly the matching entries, in insertion order.
    pub fn search(&mut self, context: &PinIn, s: &str) -> (r: Vec<&T>)
        requires
            old(self).wf(),
            old(self).cache_ok(*context),
            context.wf(),
        ensures
            final(self).wf(),
            final(self).cache_ok(*context),
            final(self).logic_view() == old(self).logic_view(),
            final(self).objects_view() == old(self).objects_view(),
            final(self).compressor_view() == old(self).compressor_view(),
            ({
                let m = matching_entries(
                    old(self).logic_view(),
                    context.dict(),
                    s@,
                    old(self).compressor_view(),
                    old(self).compressor_view().offsets_view(),
                    old(self).compressor_view().offsets_view().len() as int,
                );
                &&& r@.len() == m.len()
                &&& forall|t: int|
                    0 <= t < m.len() ==> *#[trigger] r@[t] == old(self).objects_view()[m[t]]
            }),
    {
        self.accelerator.search(s);
        let ghost comp = self.compressor;
        let ghost offs = self.compressor.offsets_view();
        let mut r: Vec<&T> = Vec::new();
        let n = self.compressor.offsets_len();
        let mut i: usize = 0;
        while i < n
            invariant
                self.compressor == old(self).compressor,
                self.objects@ == old(self).objects@,
                self.logic == old(self).logic,
                self.compressor.wf(),
                self.accelerator.strs_wf(),
                self.accelerator.cache_wf(context.pinyin_by_id()),
                self.accelerator.query() == s@,
                context.wf(),
                comp == self.compressor,
                offs == self.compressor.offsets_view(),
                n == offs.len(),
                self.objects@.len() == offs.len(),
                i <= n,
                ({
                    let m = matching_entries(self.logic, context.dict(), s@, comp, offs, i as int);
                    &&& r@.len() == m.len()
                    &&& forall|t: int|
                        0 <= t < m.len() ==> *#[trigger] r@[t] == self.objects@[m[t]]
                }),
            decreases n - i,
        {
            let pos = self.compressor.offset_at(i);
            let logic = self.logic;
            let src = CharProvider::Comp(&self.compressor);
            let hit = logic.test_accelerator(&mut self.accelerator, context, &src, 0, pos);
            if hit {
                r.push(&self.objects[i]);
            }
            i = i + 1;
        }
        r
    }

    /// Clears the accelerator's cache.
    pub fn reset(&mut self, _context: &PinIn)
        requires
            old(self).wf(),
        ensures
            final(self).wf(),
            final(self).logic_view() == old(self).logic_view(),
            final(self).objects_view() == old(self).objects_view(),
            final(self).compressor_view() == old(self).compressor_view(),
            forall|ctx: PinIn| final(self).cache_ok(ctx),
    {
        self.accelerator.reset();
    }
}



/// The ids stored in a dense bucket's interleaved word vector: the odd
/// slots, as a multiset.
pub open spec fn dense_id_bag(data: Seq<usize>) -> Multiset<int>
    decreases data.len(),
{
    if data.len() < 2 {
        Multiset::empty()
    } else {
        dense_id_bag(data.take(data.len() - 2)).insert(data.last() as int)
    }
}

/// The ids of a leaf list, as a multiset.
pub open spec fn leaf_id_bag(leaves: Seq<usize>) -> Multiset<int>
    decreases leaves.len(),
{
    if leaves.len() == 0 {
        Multiset::empty()
    } else {
        leaf_id_bag(leaves.drop_last()).insert(leaves.last() as int)
    }
}

/// The ids reachable under every child of an interior node.
pub open spec fn children_id_bag(cs: Seq<(char, Node)>) -> Multiset<int>
    decreases cs,
{
    if cs.len() == 0 {
        Multiset::empty()
    } else {
        children_id_bag(cs.drop_last()).add(node_id_bag(cs.last().1))
    }
}

/// The multiset of object ids reachable under a node: what the subtree
/// stores, ignoring order and shape.
pub open spec fn node_id_bag(n: Node) -> Multiset<int>
    decreases n,
{
    match n {
        Node::NDense(d) => dense_id_bag(d.data@),
        Node::NMap(m) => leaf_id_bag(m.leaves@).add(children_id_bag(m.children@)),
        Node::NAcc(acc) => leaf_id_bag(acc.map.leaves@).add(children_id_bag(acc.map.children@)),
        Node::NSlice(sl) => node_id_bag(*sl.exit),
    }
}

/// Replacing one child changes the reachable ids by exactly that child's
/// bag.
proof fn lemma_children_bag_update(cs: Seq<(char, Node)>, k: int, p: (char, Node))
    requires
        0 <= k < cs.len(),
    ensures
        children_id_bag(cs.update(k, p)).add(node_id_bag(cs[k].1)) == children_id_bag(cs).add(
            node_id_bag(p.1),
        ),
    decreases cs.len(),
{
    broadcast use vstd::multiset::group_multiset_axioms;

    if k == cs.len() - 1 {
        assert(cs.update(k, p).drop_last() =~= cs.drop_last());
        assert(cs.update(k, p).last() == p);
        assert(children_id_bag(cs.update(k, p)) == children_id_bag(cs.drop_last()).add(
            node_id_bag(p.1),
        ));
        assert(children_id_bag(cs.update(k, p)).add(node_id_bag(cs[k].1))
            =~= children_id_bag(cs).add(node_id_bag(p.1)));
    } else {
        assert(cs.update(k, p).drop_last() =~= cs.drop_last().update(k, p));
        assert(cs.update(k, p).last() == cs.last());
        lemma_children_bag_update(cs.drop_last(), k, p);
        assert(cs.drop_last()[k] == cs[k]);
        assert(children_id_bag(cs.update(k, p)) == children_id_bag(
            cs.drop_last().update(k, p),
        ).add(node_id_bag(cs.last().1)));
        assert(children_id_bag(cs) == children_id_bag(cs.drop_last()).add(
            node_id_bag(cs.last().1),
        ));
        assert forall|x: int|
            #[trigger] children_id_bag(cs.update(k, p)).add(node_id_bag(cs[k].1)).count(x)
                == children_id_bag(cs).add(node_id_bag(p.1)).count(x) by {
            assert(children_id_bag(cs.drop_last().update(k, p)).add(
                node_id_bag(cs.drop_last()[k].1),
            ).count(x) == children_id_bag(cs.drop_last()).add(node_id_bag(p.1)).count(x));
        }
        assert(children_id_bag(cs.update(k, p)).add(node_id_bag(cs[k].1)) =~= children_id_bag(
            cs,
        ).add(node_id_bag(p.1)));
    }
}

/// Removing the child at `k` by swapping the last child into its place
/// and appending a replacement changes the reachable ids by exactly the
/// difference of the two nodes' bags.
proof fn lemma_children_bag_swap(cs: Seq<(char, Node)>, k: int, repl: (char, Node))
    requires
        0 <= k < cs.len(),
    ensures
        children_id_bag(cs.update(k, cs.last()).drop_last().push(repl)).add(node_id_bag(cs[k].1))
            == children_id_bag(cs).add(node_id_bag(repl.1)),
{
    broadcast use vstd::multiset::group_multiset_axioms;

    let swapped = cs.update(k, cs.last()).drop_last().push(repl);
    assert(children_id_bag(swapped) == children_id_bag(cs.update(k, cs.last()).drop_last()).add(
        node_id_bag(repl.1),
    )) by {
        assert(swapped.drop_last() =~= cs.update(k, cs.last()).drop_last());
        assert(swapped.last() == repl);
    }
    if k == cs.len() - 1 {
        assert(cs.update(k, cs.last()) =~= cs);
        assert(children_id_bag(swapped).add(node_id_bag(cs[k].1)) =~= children_id_bag(cs).add(
            node_id_bag(repl.1),
        ));
    } else {
        assert(cs.update(k, cs.last()).last() == cs.last());
        assert(cs.update(k, cs.last()).drop_last() =~= cs.drop_last().update(k, cs.last()));
        lemma_children_bag_update(cs.drop_last(), k, cs.last());
        assert(cs.drop_last()[k] == cs[k]);
        assert(children_id_bag(cs.drop_last().update(k, cs.last())).add(node_id_bag(cs[k].1))
            == children_id_bag(cs.drop_last()).add(node_id_bag(cs.last().1)));
        assert(children_id_bag(cs) == children_id_bag(cs.drop_last()).add(
            node_id_bag(cs.last().1),
        ));
        assert(children_id_bag(swapped).add(node_id_bag(cs[k].1)) =~= children_id_bag(cs).add(
            node_id_bag(repl.1),
        ));
    }
}


/// The first child position holding character `c`, if any.
pub open spec fn child_find(cs: Seq<(char, Node)>, c: char) -> Option<int>
    decreases cs.len(),
{
    if cs.len() == 0 {
        None
    } else if cs.first().0 == c {
        Some(0int)
    } else {
        match child_find(cs.drop_first(), c) {
            Some(t) => Some(t + 1),
            None => None,
        }
    }
}

/// A common run that stopped short of its cap, in bounds on both sides,
/// stopped at a disagreement or a separator.
pub proof fn lemma_common_stop(src: CharProvider<'_>, s1: int, s2: int, max: int)
    requires
        0 <= s1,
        0 <= s2,
        0 <= crate::accelerator::spec_common(src, s1, s2, max),
        crate::accelerator::spec_common(src, s1, s2, max) < max,
        s1 + crate::accelerator::spec_common(src, s1, s2, max) < src.chars().len(),
        s2 + crate::accelerator::spec_common(src, s1, s2, max) < src.chars().len(),
    ensures
        src.chars()[s1 + crate::accelerator::spec_common(src, s1, s2, max)] != src.chars()[s2
            + crate::accelerator::spec_common(src, s1, s2, max)] || src.chars()[s1
            + crate::accelerator::spec_common(src, s1, s2, max)] == '\0',
{
    assert(crate::accelerator::spec_common(src, s1, s2, max)
        == crate::accelerator::spec_common_from(src, s1, s2, max, 0));
    lemma_common_stop_from(src, s1, s2, max, 0);
}

proof fn lemma_common_stop_from(src: CharProvider<'_>, s1: int, s2: int, max: int, j: int)
    requires
        0 <= s1,
        0 <= s2,
        0 <= j <= crate::accelerator::spec_common_from(src, s1, s2, max, j),
        crate::accelerator::spec_common_from(src, s1, s2, max, j) < max,
        s1 + crate::accelerator::spec_common_from(src, s1, s2, max, j) < src.chars().len(),
        s2 + crate::accelerator::spec_common_from(src, s1, s2, max, j) < src.chars().len(),
    ensures
        src.chars()[s1 + crate::accelerator::spec_common_from(src, s1, s2, max, j)]
            != src.chars()[s2 + crate::accelerator::spec_common_from(src, s1, s2, max, j)]
            || src.chars()[s1 + crate::accelerator::spec_common_from(src, s1, s2, max, j)]
            == '\0',
    decreases max - j,
{
    let m = crate::accelerator::spec_common_from(src, s1, s2, max, j);
    if j < m {
        assert(crate::accelerator::spec_common_from(src, s1, s2, max, j + 1) == m);
        lemma_common_stop_from(src, s1, s2, max, j + 1);
    } else {
        assert(j == m);
        if !(src.chars()[s1 + j] != src.chars()[s2 + j] || src.chars()[s1 + j] == '\0') {
            lemma_common_from_lb(src, s1, s2, max, j + 1);
            assert(m == crate::accelerator::spec_common_from(src, s1, s2, max, j + 1));
            assert(false);
        }
    }
}

/// The common run never ends before the position it starts from.
proof fn lemma_common_from_lb(src: CharProvider<'_>, s1: int, s2: int, max: int, j: int)
    requires
        j <= max,
    ensures
        crate::accelerator::spec_common_from(src, s1, s2, max, j) >= j,
    decreases max - j,
{
    if j < max {
        lemma_common_from_lb(src, s1, s2, max, j + 1);
    }
}

/// The bag of a concatenation is the sum of the bags.
proof fn lemma_leaf_bag_concat(a: Seq<usize>, b: Seq<usize>)
    ensures
        leaf_id_bag(a + b) == leaf_id_bag(a).add(leaf_id_bag(b)),
    decreases b.len(),
{
    broadcast use vstd::multiset::group_multiset_axioms;

    if b.len() == 0 {
        assert(a + b =~= a);
        assert(leaf_id_bag(a + b).add(leaf_id_bag(b)) =~= leaf_id_bag(a).add(leaf_id_bag(b)));
        assert(leaf_id_bag(a + b) =~= leaf_id_bag(a).add(leaf_id_bag(b)));
    } else {
        lemma_leaf_bag_concat(a, b.drop_last());
        assert((a + b).drop_last() =~= a + b.drop_last());
        assert((a + b).last() == b.last());
        assert(leaf_id_bag(a + b) == leaf_id_bag(a + b.drop_last()).insert(b.last() as int));
        assert(leaf_id_bag(b) == leaf_id_bag(b.drop_last()).insert(b.last() as int));
        assert(leaf_id_bag(a + b) =~= leaf_id_bag(a).add(leaf_id_bag(b)));
    }
}

/// The promotion trigger: a dense bucket at or above this many stored
/// words (interleaved position and id) is rebuilt as a path-compressed
/// slice, and the same bound guides leaf-set growth.
pub const BTREE_THRESHOLD: usize = 256;

/// A leaf-like bucket of entries, stored as interleaved pairs of name
/// position and object id.
pub struct NDense {
    pub data: Vec<usize>,
}

impl NDense {
    pub fn new() -> (r: NDense)
        ensures
            r.data@ == Seq::<usize>::empty(),
    {
        NDense { data: Vec::new() }
    }
}

/// An interior node: one child per next character, plus the ids of entries
/// that end here.
pub struct NMap {
    pub children: Vec<(char, Node)>,
    pub leaves: Vec<usize>,
}

/// An interior node decorated with an index from leading phonemes to the
/// child characters they can spell, for accelerated lookup.
pub struct NAcc {
    pub map: NMap,
    pub index: Vec<(Phoneme, Vec<char>)>,
}

/// A path-compressed run of characters in the arena, from `start` to
/// `end`, ending in an exit node.
pub struct NSlice {
    pub exit: Box<Node>,
    pub start: usize,
    pub end: usize,
}

/// A trie node, in one of its four shapes.
pub enum Node {
    NDense(NDense),
    NMap(NMap),
    NAcc(NAcc),
    NSlice(NSlice),
}

/// The entries of a dense bucket are in range: name positions lie in the
/// arena and ids denote stored objects.
pub open spec fn dense_wf(d: NDense, clen: int, nobj: int) -> bool {
    &&& d.data@.len() % 2 == 0
    &&& forall|j: int|
        0 <= j < d.data@.len() ==> (#[trigger] d.data@[j]) < (if j % 2 == 0 {
            clen
        } else {
            nobj
        })
}

/// A node and everything under it is in range; slice bounds lie inside
/// the arena, and index phonemes are fit to be matched.
pub open spec fn node_wf(n: Node, clen: int, nobj: int) -> bool
    decreases n,
{
    match n {
        Node::NDense(d) => dense_wf(d, clen, nobj),
        Node::NMap(m) => nmap_wf(m, clen, nobj),
        Node::NAcc(acc) => nmap_wf(acc.map, clen, nobj) && forall|k: int|
            0 <= k < acc.index@.len() ==> (#[trigger] acc.index@[k]).0.wf(),
        Node::NSlice(sl) => sl.start <= sl.end <= clen && node_wf(*sl.exit, clen, nobj),
    }
}

/// The children and leaves of an interior node are in range.
pub open spec fn nmap_wf(m: NMap, clen: int, nobj: int) -> bool
    decreases m,
{
    &&& forall|j: int| 0 <= j < m.leaves@.len() ==> (#[trigger] m.leaves@[j]) < nobj
    &&& forall|k: int|
        0 <= k < m.children@.len() ==> node_wf((#[trigger] m.children@[k]).1, clen, nobj)
}

/// Every accelerated node's index covers its children: each child the
/// dictionary can spell stands in a bucket of one of its leading
/// phonemes. The state every index is in right after a rebuild.
pub open spec fn indexes_fresh(n: Node, dict: Seq<(char, Option<Character>)>) -> bool
    decreases n,
{
    match n {
        Node::NDense(_) => true,
        Node::NMap(m) => children_fresh(m.children@, dict),
        Node::NAcc(acc) => (forall|t: int|
            0 <= t < acc.map.children@.len() ==> char_needs_index(
                dict,
                (#[trigger] acc.map.children@[t]).0,
            ) ==> index_has(acc.index@, acc.map.children@[t].0)) && children_fresh(
            acc.map.children@,
            dict,
        ),
        Node::NSlice(sl) => indexes_fresh(*sl.exit, dict),
    }
}

/// Every child's subtree has fresh indexes.
pub open spec fn children_fresh(cs: Seq<(char, Node)>, dict: Seq<(char, Option<Character>)>) -> bool
    decreases cs,
{
    forall|k: int| 0 <= k < cs.len() ==> indexes_fresh((#[trigger] cs[k]).1, dict)
}

/// Well-formedness survives growth of the arena and of the object store.
pub proof fn lemma_node_wf_mono(n: Node, clen1: int, nobj1: int, clen2: int, nobj2: int)
    requires
        node_wf(n, clen1, nobj1),
        clen1 <= clen2,
        nobj1 <= nobj2,
    ensures
        node_wf(n, clen2, nobj2),
    decreases n,
{
    match n {
        Node::NDense(d) => {
            assert forall|j: int| 0 <= j < d.data@.len() implies (#[trigger] d.data@[j]) < (if j % 2
                == 0 {
                clen2
            } else {
                nobj2
            }) by {
                assert(d.data@[j] < (if j % 2 == 0 {
                    clen1
                } else {
                    nobj1
                }));
            }
        },
        Node::NMap(m) => {
            lemma_nmap_wf_mono(m, clen1, nobj1, clen2, nobj2);
        },
        Node::NAcc(acc) => {
            lemma_nmap_wf_mono(acc.map, clen1, nobj1, clen2, nobj2);
        },
        Node::NSlice(sl) => {
            lemma_node_wf_mono(*sl.exit, clen1, nobj1, clen2, nobj2);
        },
    }
}

proof fn lemma_nmap_wf_mono(m: NMap, clen1: int, nobj1: int, clen2: int, nobj2: int)
    requires
        nmap_wf(m, clen1, nobj1),
        clen1 <= clen2,
        nobj1 <= nobj2,
    ensures
        nmap_wf(m, clen2, nobj2),
    decreases m,
{
    assert forall|k: int| 0 <= k < m.children@.len() implies node_wf(
        (#[trigger] m.children@[k]).1,
        clen2,
        nobj2,
    ) by {
        lemma_node_wf_mono(m.children@[k].1, clen1, nobj1, clen2, nobj2);
    }
}

/// The count of characters before the next NUL separator.
pub open spec fn rem_to_nul(chars: Seq<char>, pos: int) -> nat
    decreases chars.len() - pos,
{
    if pos < 0 || pos >= chars.len() {
        0
    } else if chars[pos] == '\0' {
        0
    } else {
        1 + rem_to_nul(chars, pos + 1)
    }
}


/// Characters on a common run: for every position before the run's
/// length, the two sides agree, are not NUL, and lie inside the source.
pub proof fn lemma_common_prefix(src: CharProvider<'_>, s1: int, s2: int, max: int, i: int)
    requires
        0 <= s1,
        0 <= s2,
        0 <= i < crate::accelerator::spec_common(src, s1, s2, max),
    ensures
        s1 + i < src.chars().len(),
        s2 + i < src.chars().len(),
        src.chars()[s1 + i] == src.chars()[s2 + i],
        src.chars()[s1 + i] != '\0',
{
    lemma_common_prefix_from(src, s1, s2, max, 0, i);
}

proof fn lemma_common_prefix_from(src: CharProvider<'_>, s1: int, s2: int, max: int, j: int, i: int)
    requires
        0 <= s1,
        0 <= s2,
        0 <= j <= i,
        i < crate::accelerator::spec_common_from(src, s1, s2, max, j),
    ensures
        s1 + i < src.chars().len(),
        s2 + i < src.chars().len(),
        src.chars()[s1 + i] == src.chars()[s2 + i],
        src.chars()[s1 + i] != '\0',
    decreases i - j,
{
    assert(j < max);
    if j < i {
        lemma_common_prefix_from(src, s1, s2, max, j + 1, i);
    }
}

/// Walking a common run shortens the distance to the next separator by
/// exactly its length.
pub proof fn lemma_rem_common(src: CharProvider<'_>, s1: int, s2: int, max: int, k: int)
    requires
        0 <= s1,
        0 <= s2,
        0 <= k <= crate::accelerator::spec_common(src, s1, s2, max),
    ensures
        rem_to_nul(src.chars(), s2) == k + rem_to_nul(src.chars(), s2 + k),
{
    lemma_rem_common_from(src, s1, s2, max, 0, k);
}

proof fn lemma_rem_common_from(src: CharProvider<'_>, s1: int, s2: int, max: int, j: int, k: int)
    requires
        0 <= s1,
        0 <= s2,
        0 <= j <= k <= crate::accelerator::spec_common(src, s1, s2, max),
    ensures
        rem_to_nul(src.chars(), s2 + j) == (k - j) + rem_to_nul(src.chars(), s2 + k),
    decreases k - j,
{
    if j < k {
        lemma_common_prefix(src, s1, s2, max, j);
        lemma_rem_common_from(src, s1, s2, max, j + 1, k);
        assert(rem_to_nul(src.chars(), s2 + j) == 1 + rem_to_nul(src.chars(), s2 + j + 1));
    }
}

/// Rebuilds a phoneme with freshly segmented spellings; the copy has the
/// same alternatives and so matches the same strings.
fn clone_phoneme(p: &Phoneme) -> (r: Phoneme)
    ensures
        r.wf(),
        r.alts() == p.alts(),
        (r matches Phoneme::Single(_)) == (p matches Phoneme::Single(_)),
{
    match p {
        Phoneme::Single(ps) => {
            let r = Phoneme::Single(crate::elements::PhStr::new(crate::unicode_utils::copy_chars(&ps.flat)));
            proof {
                assert(r.alts() =~= p.alts());
            }
            r
        },
        Phoneme::Multiple(v) => {
            let mut out: Vec<crate::elements::PhStr> = Vec::new();
            let mut i: usize = 0;
            while i < v.len()
                invariant
                    i <= v@.len(),
                    out@.len() == i,
                    forall|k: int| 0 <= k < i ==> (#[trigger] out@[k]).wf(),
                    forall|k: int| 0 <= k < i ==> (#[trigger] out@[k]).flat@ == v@[k].flat@,
                decreases v@.len() - i,
            {
                out.push(crate::elements::PhStr::new(crate::unicode_utils::copy_chars(&v[i].flat)));
                i = i + 1;
            }
            let r = Phoneme::Multiple(out);
            proof {
                assert(r.alts() =~= p.alts());
            }
            r
        },
    }
}

/// Structural equality of two phonemes' spellings, used to merge index
/// buckets that would match identically.
fn phoneme_like(a: &Phoneme, b: &Phoneme) -> (r: bool) {
    match (a, b) {
        (Phoneme::Single(x), Phoneme::Single(y)) => crate::unicode_utils::chars_eq(&x.flat, &y.flat),
        (Phoneme::Multiple(xs), Phoneme::Multiple(ys)) => {
            if xs.len() != ys.len() {
                return false;
            }
            let mut i: usize = 0;
            while i < xs.len()
                invariant
                    xs@.len() == ys@.len(),
                    i <= xs@.len(),
                decreases xs@.len() - i,
            {
                if !crate::unicode_utils::chars_eq(&xs[i].flat, &ys[i].flat) {
                    return false;
                }
                i = i + 1;
            }
            true
        },
        _ => false,
    }
}

/// Whether `v` holds `c`.
fn chars_member(v: &Vec<char>, c: char) -> (r: bool)
    ensures
        r == v@.contains(c),
{
    let mut i: usize = 0;
    while i < v.len()
        invariant
            i <= v@.len(),
            forall|j: int| 0 <= j < i ==> v@[j] != c,
        decreases v@.len() - i,
    {
        if v[i] == c {
            return true;
        }
        i = i + 1;
    }
    false
}

/// Index phonemes are fit to be matched.
pub open spec fn index_wf(index: Seq<(Phoneme, Vec<char>)>) -> bool {
    forall|k: int| 0 <= k < index.len() ==> (#[trigger] index[k]).0.wf()
}

/// Some bucket of the index holds the character `c`.
pub open spec fn index_has(index: Seq<(Phoneme, Vec<char>)>, c: char) -> bool {
    exists|t: int| 0 <= t < index.len() && (#[trigger] index[t]).1@.contains(c)
}

/// Whether the dictionary gives `c` a reading with at least one phoneme:
/// exactly the characters an accelerated node must index.
pub open spec fn char_needs_index(dict: Seq<(char, Option<Character>)>, c: char) -> bool {
    match crate::pinin::assoc_lookup(dict, c) {
        Some(oe) => match oe {
            Some(ch) => exists|j: int|
                0 <= j < ch.pinyin@.len() && (*#[trigger] ch.pinyin@[j]).phonemes@.len() > 0,
            None => false,
        },
        None => false,
    }
}

/// Adds `c` to the bucket of the first phoneme of each of its readings.
fn acc_index_char(index: &mut Vec<(Phoneme, Vec<char>)>, context: &PinIn, c: char)
    requires
        context.wf(),
        index_wf(old(index)@),
    ensures
        index_wf(final(index)@),
        char_needs_index(context.dict(), c) ==> index_has(final(index)@, c),
        forall|c2: char| index_has(old(index)@, c2) ==> index_has(final(index)@, c2),
{
    let ch = context.get_character(c);
    proof {
        if char_needs_index(context.dict(), c) {
            assert(crate::pinin::is_dict_character(ch, context.dict(), c));
        }
    }
    let mut i: usize = 0;
    while i < ch.pinyin.len()
        invariant
            context.wf(),
            ch.wf(),
            crate::pinin::is_dict_character(ch, context.dict(), c),
            i <= ch.pinyin@.len(),
            index_wf(index@),
            forall|c2: char| index_has(old(index)@, c2) ==> index_has(index@, c2),
            (exists|jj: int|
                0 <= jj < i && (*#[trigger] ch.pinyin@[jj]).phonemes@.len() > 0) ==> index_has(
                index@,
                c,
            ),
        decreases ch.pinyin@.len() - i,
    {
        let py: &Rc<Pinyin> = &ch.pinyin[i];
        if py.phonemes.len() > 0 {
            proof {
                assert((*ch.pinyin@[i as int]).wf());
                assert((*ch.pinyin@[i as int]).phonemes@[0].wf());
            }
            let key: &Phoneme = &py.phonemes[0];
            let mut k: usize = 0;
            let mut found = false;
            while k < index.len()
                invariant
                    k <= index@.len(),
                    index_wf(index@),
                    key.wf(),
                    forall|c2: char| index_has(old(index)@, c2) ==> index_has(index@, c2),
                    found ==> index_has(index@, c),
                decreases index@.len() - k,
            {
                if phoneme_like(&index[k].0, key) {
                    if !chars_member(&index[k].1, c) {
                        let ghost pre = index@;
                        let slot = &mut index[k];
                        slot.1.push(c);
                        proof {
                            assert forall|t: int| 0 <= t < index@.len() implies (
                            #[trigger] index@[t]).0.wf() by {
                                if t != k {
                                    assert(index@[t] == pre[t]);
                                } else {
                                    assert(index@[t].0 == pre[t].0);
                                }
                            }
                            assert(index@[k as int].1@.last() == c);
                            assert(index@[k as int].1@.contains(c));
                            assert(index_has(index@, c));
                            assert forall|c2: char| index_has(pre, c2) implies index_has(
                                index@,
                                c2,
                            ) by {
                                let t = choose|t: int|
                                    0 <= t < pre.len() && (#[trigger] pre[t]).1@.contains(c2);
                                if t != k {
                                    assert(index@[t] == pre[t]);
                                } else {
                                    let u = choose|u: int|
                                        0 <= u < pre[t].1@.len() && pre[t].1@[u] == c2;
                                    assert(index@[t].1@[u] == c2);
                                    assert(index@[t].1@.contains(c2));
                                }
                            }
                        }
                    } else {
                        proof {
                            assert(index@[k as int].1@.contains(c));
                            assert(index_has(index@, c));
                        }
                    }
                    found = true;
                    k = index.len();
                } else {
                    k = k + 1;
                }
            }
            if !found {
                let mut bucket: Vec<char> = Vec::new();
                bucket.push(c);
                let ghost pre = index@;
                index.push((clone_phoneme(key), bucket));
                proof {
                    assert(index@.last().1@.contains(c)) by {
                        assert(index@.last().1@[0] == c);
                    }
                    assert(index_has(index@, c)) by {
                        assert(index@[index@.len() - 1].1@.contains(c));
                    }
                    assert forall|t: int| 0 <= t < index@.len() implies (
                    #[trigger] index@[t]).0.wf() by {
                        if t < pre.len() {
                            assert(index@[t] == pre[t]);
                        }
                    }
                    assert forall|c2: char| index_has(pre, c2) implies index_has(index@, c2) by {
                        let t = choose|t: int|
                            0 <= t < pre.len() && (#[trigger] pre[t]).1@.contains(c2);
                        assert(index@[t] == pre[t]);
                    }
                }
            }
        }
        i = i + 1;
    }
    proof {
        if char_needs_index(context.dict(), c) {
            assert(exists|j: int|
                0 <= j < ch.pinyin@.len() && (*#[trigger] ch.pinyin@[j]).phonemes@.len() > 0);
        }
    }
}

/// Rebuilds the index from every child character of the wrapped map:
/// afterwards every child the dictionary can spell stands in the bucket
/// of one of its leading phonemes.
fn acc_reload(index: &mut Vec<(Phoneme, Vec<char>)>, context: &PinIn, children: &Vec<(char, Node)>)
    requires
        context.wf(),
    ensures
        index_wf(final(index)@),
        forall|t: int|
            0 <= t < children@.len() ==> char_needs_index(
                context.dict(),
                (#[trigger] children@[t]).0,
            ) ==> index_has(final(index)@, children@[t].0),
{
    index.clear();
    let mut i: usize = 0;
    while i < children.len()
        invariant
            context.wf(),
            i <= children@.len(),
            index_wf(index@),
            forall|t: int|
                0 <= t < i ==> char_needs_index(context.dict(), (#[trigger] children@[t]).0)
                    ==> index_has(index@, children@[t].0),
        decreases children@.len() - i,
    {
        acc_index_char(index, context, children[i].0);
        i = i + 1;
    }
}


/// The length of the common prefix shared by every stored name of a dense
/// bucket, scanned character by character, stopping at the first
/// disagreement or separator. The result is maximal: at column `r` some
/// stored name disagrees with the first one, or the first name ends.
fn match_tree(data: &Vec<usize>, comp: &Compressor) -> (r: usize)
    requires
        comp.wf(),
        data@.len() >= 4,
        data@.len() % 2 == 0,
        forall|j: int| 0 <= j < data@.len() && j % 2 == 0 ==> (#[trigger] data@[j])
            < comp.chars_view().len(),
    ensures
        forall|j: int, i: int|
            0 <= j < data@.len() && j % 2 == 0 && 0 <= i < r ==> data@[j] + i
                < comp.chars_view().len() && #[trigger] comp.chars_view()[data@[j] + i]
                == comp.chars_view()[data@[0] + i] && comp.chars_view()[data@[0] + i] != '\0',
        forall|j: int|
            0 <= j < data@.len() && j % 2 == 0 ==> (#[trigger] data@[j]) + r
                < comp.chars_view().len(),
        exists|t: int|
            1 <= t < data@.len() / 2 && (#[trigger] comp.chars_view()[data@[2 * t] + r]
                != comp.chars_view()[data@[0] + r] || comp.chars_view()[data@[0] + r] == '\0'),
{
    let clen = comp.len_of();
    let _arena_entries = data.len();
    assert(data@.len() <= usize::MAX);
    let p0 = data[0];
    let mut i: usize = 0;
    loop
        invariant
            comp.wf(),
            data@.len() >= 4,
            data@.len() % 2 == 0,
            clen == comp.chars_view().len(),
            p0 == data@[0],
            data@.len() <= usize::MAX,
            forall|j: int| 0 <= j < data@.len() && j % 2 == 0 ==> (#[trigger] data@[j]) < clen,
            forall|j: int, ii: int|
                0 <= j < data@.len() && j % 2 == 0 && 0 <= ii < i ==> data@[j] + ii < clen
                    && #[trigger] comp.chars_view()[data@[j] + ii]
                    == comp.chars_view()[data@[0] + ii] && comp.chars_view()[data@[0] + ii]
                    != '\0',
            forall|j: int|
                0 <= j < data@.len() && j % 2 == 0 ==> (#[trigger] data@[j]) + i < clen,
            p0 + i < clen,
        decreases clen - p0 - i,
    {
        let a = comp.at(p0 + i);
        let pairs = data.len() / 2;
        let mut j: usize = 1;
        while j < pairs
            invariant
                comp.wf(),
                data@.len() >= 4,
                data@.len() % 2 == 0,
                pairs == data@.len() / 2,
                data@.len() <= usize::MAX,
                clen == comp.chars_view().len(),
                p0 == data@[0],
                p0 + i < clen,
                a == comp.chars_view()[p0 + i],
                1 <= j <= pairs,
                forall|jj: int, ii: int|
                    0 <= jj < data@.len() && jj % 2 == 0 && 0 <= ii < i ==> data@[jj] + ii < clen
                        && #[trigger] comp.chars_view()[data@[jj] + ii]
                        == comp.chars_view()[data@[0] + ii] && comp.chars_view()[data@[0] + ii]
                        != '\0',
                forall|t: int|
                    0 <= t < data@.len() && t % 2 == 0 ==> (#[trigger] data@[t]) + i < clen,
                forall|t: int|
                    1 <= t < j ==> #[trigger] comp.chars_view()[data@[2 * t] + i] == a,
                j > 1 ==> a != '\0',
            decreases pairs - j,
        {
            proof {
                assert((2 * j as int) % 2 == 0);
                assert(data@[2 * j as int] + i < clen);
            }
            let b = comp.at(data[2 * j] + i);
            if a != b || a == '\0' {
                proof {
                    assert forall|jj: int, ii: int|
                        0 <= jj < data@.len() && jj % 2 == 0 && 0 <= ii < i implies data@[jj] + ii
                        < clen && #[trigger] comp.chars_view()[data@[jj] + ii]
                        == comp.chars_view()[data@[0] + ii] && comp.chars_view()[data@[0] + ii]
                        != '\0' by {}
                    assert(comp.chars_view()[data@[2 * (j as int)] + i] != comp.chars_view()[data@[0]
                        + i] || comp.chars_view()[data@[0] + i] == '\0');
                }
                return i;
            }
            j = j + 1;
        }
        proof {
            assert(data@.len() / 2 >= 2);
            assert(comp.chars_view()[data@[2 * 1int] + i] == a);
            assert(a != '\0');
            assert forall|t: int|
                0 <= t < data@.len() && t % 2 == 0 implies #[trigger] comp.chars_view()[data@[t]
                    + i] == a by {
                if t / 2 >= 1 {
                    assert(comp.chars_view()[data@[2 * (t / 2)] + i] == a);
                    assert(t == 2 * (t / 2));
                } else {
                    assert(t == 0);
                }
            }
            assert forall|t: int|
                0 <= t < data@.len() && t % 2 == 0 implies data@[t] + (i + 1) < clen by {
                assert(comp.chars_view()[data@[t] + i] == a);
                comp.lemma_terminated(data@[t] + i);
            }
            assert forall|jj: int, ii: int|
                0 <= jj < data@.len() && jj % 2 == 0 && 0 <= ii < i + 1 implies data@[jj] + ii
                < clen && #[trigger] comp.chars_view()[data@[jj] + ii]
                == comp.chars_view()[data@[0] + ii] && comp.chars_view()[data@[0] + ii]
                != '\0' by {
                if ii == i {
                    assert(comp.chars_view()[data@[jj] + i] == a);
                    assert(comp.chars_view()[data@[0] + i] == a);
                }
            }
        }
        i = i + 1;
    }
}



/// All children of an interior node are dense buckets: the shape of an
/// exit map while a promoted bucket is rebuilt.
pub open spec fn all_dense(cs: Seq<(char, Node)>) -> bool {
    forall|t: int| 0 <= t < cs.len() ==> (#[trigger] cs[t]).1 is NDense
}

/// Whether a one-level map insertion stores the entry: it ends here as a
/// leaf, finds no child for its next character, or finds a dense bucket.
pub open spec fn shallow_lands(m: NMap, chars: Seq<char>, name: int) -> bool {
    chars[name] == '\0' || match child_find(m.children@, chars[name]) {
        None => true,
        Some(t) => m.children@[t].1 is NDense,
    }
}


/// A map whose children are all dense buckets stores any one-level
/// insertion.
proof fn lemma_all_dense_lands(node: Node, chars: Seq<char>, name: int)
    requires
        match node {
            Node::NMap(mm) => all_dense(mm.children@),
            Node::NAcc(aa) => all_dense(aa.map.children@),
            _ => false,
        },
    ensures
        node matches Node::NMap(mm) ==> shallow_lands(mm, chars, name),
        node matches Node::NAcc(aa) ==> shallow_lands(aa.map, chars, name),
{
    match node {
        Node::NMap(mm) => {
            lemma_all_dense_lands_map(mm, chars, name);
        },
        Node::NAcc(aa) => {
            lemma_all_dense_lands_map(aa.map, chars, name);
        },
        _ => {},
    }
}

proof fn lemma_all_dense_lands_map(m: NMap, chars: Seq<char>, name: int)
    requires
        all_dense(m.children@),
    ensures
        shallow_lands(m, chars, name),
{
    if chars[name] != '\0' {
        match child_find(m.children@, chars[name]) {
            Some(t) => {
                lemma_child_find_in_range(m.children@, chars[name]);
                assert(m.children@[t].1 is NDense);
            },
            None => {},
        }
    }
}

/// A found child position lies inside the child list.
proof fn lemma_child_find_in_range(cs: Seq<(char, Node)>, c: char)
    ensures
        child_find(cs, c) matches Some(t) ==> 0 <= t < cs.len(),
    decreases cs.len(),
{
    if cs.len() > 0 && cs.first().0 != c {
        lemma_child_find_in_range(cs.drop_first(), c);
    }
}

/// Cancelling a shared summand: if two bags extended by `a` and by `a`
/// plus one `id` agree, the originals differ by exactly that `id`.
proof fn lemma_bag_cancel(x: Multiset<int>, y: Multiset<int>, a: Multiset<int>, id: int)
    requires
        x.add(a) == y.add(a.insert(id)),
    ensures
        x == y.insert(id),
{
    broadcast use vstd::multiset::group_multiset_axioms;

    assert forall|v: int| #[trigger] x.count(v) == y.insert(id).count(v) by {
        assert(x.add(a).count(v) == y.add(a.insert(id)).count(v));
        assert(x.add(a).count(v) == x.count(v) + a.count(v));
        assert(y.add(a.insert(id)).count(v) == y.count(v) + a.insert(id).count(v));
        assert(a.insert(id).count(v) == a.count(v) + (if v == id {
            1nat
        } else {
            0nat
        }));
        assert(y.insert(id).count(v) == y.count(v) + (if v == id {
            1nat
        } else {
            0nat
        }));
    }
    assert(x =~= y.insert(id));
}

/// Inserting into the left summand or into the sum is the same bag.
proof fn lemma_bag_insert_add(l: Multiset<int>, c: Multiset<int>, id: int)
    ensures
        l.insert(id).add(c) == l.add(c).insert(id),
{
    broadcast use vstd::multiset::group_multiset_axioms;

    assert(l.insert(id).add(c) =~= l.add(c).insert(id));
}

/// The position of the first child for character `c`, if one exists.
fn find_child(children: &Vec<(char, Node)>, c: char) -> (r: Option<usize>)
    ensures
        match r {
            Some(k) => k < children@.len() && children@[k as int].0 == c && child_find(
                children@,
                c,
            ) == Some(k as int),
            None => child_find(children@, c) is None,
        },
{
    let mut k: usize = 0;
    while k < children.len()
        invariant
            k <= children@.len(),
            forall|t: int| 0 <= t < k ==> (#[trigger] children@[t]).0 != c,
        decreases children@.len() - k,
    {
        if children[k].0 == c {
            proof {
                lemma_child_find_at(children@, c, k as int);
            }
            return Some(k);
        }
        k = k + 1;
    }
    proof {
        lemma_child_find_none(children@, c);
    }
    None
}

/// A scan that matched at `k` after mismatches identifies the first
/// child.
proof fn lemma_child_find_at(cs: Seq<(char, Node)>, c: char, k: int)
    requires
        0 <= k < cs.len(),
        cs[k].0 == c,
        forall|t: int| 0 <= t < k ==> (#[trigger] cs[t]).0 != c,
    ensures
        child_find(cs, c) == Some(k),
    decreases k,
{
    if k == 0 {
    } else {
        assert forall|t: int| 0 <= t < k - 1 implies (#[trigger] cs.drop_first()[t]).0 != c by {
            assert(cs.drop_first()[t] == cs[t + 1]);
        }
        assert(cs.drop_first()[k - 1] == cs[k]);
        lemma_child_find_at(cs.drop_first(), c, k - 1);
    }
}

/// With no matching child anywhere, the search finds none.
proof fn lemma_child_find_none(cs: Seq<(char, Node)>, c: char)
    requires
        forall|t: int| 0 <= t < cs.len() ==> (#[trigger] cs[t]).0 != c,
    ensures
        child_find(cs, c) is None,
    decreases cs.len(),
{
    if cs.len() > 0 {
        assert forall|t: int| 0 <= t < cs.drop_first().len() implies (
        #[trigger] cs.drop_first()[t]).0 != c by {
            assert(cs.drop_first()[t] == cs[t + 1]);
        }
        lemma_child_find_none(cs.drop_first(), c);
    }
}

/// Appends one pair to a dense bucket, leaving any other shape unchanged.
fn dense_push(node: Node, pos: usize, id: usize, clen: Ghost<int>, nobj: Ghost<int>) -> (r: Node)
    requires
        node_wf(node, clen@, nobj@),
        pos < clen@,
        id < nobj@,
    ensures
        node_wf(r, clen@, nobj@),
        node matches Node::NDense(_) ==> r matches Node::NDense(_) && node_id_bag(r) == node_id_bag(
            node,
        ).insert(id as int),
        !(node matches Node::NDense(_)) ==> r == node,
{
    match node {
        Node::NDense(mut d) => {
            let ghost pre = d.data@;
            d.data.push(pos);
            d.data.push(id);
            proof {
                assert forall|j: int| 0 <= j < d.data@.len() implies (#[trigger] d.data@[j]) < (
                if j % 2 == 0 {
                    clen@
                } else {
                    nobj@
                }) by {
                    if j < pre.len() {
                        assert(d.data@[j] == pre[j]);
                    }
                }
                assert(d.data@.take(d.data@.len() - 2) =~= pre);
                assert(d.data@.last() == id);
                assert(dense_id_bag(d.data@) == dense_id_bag(pre).insert(id as int));
            }
            Node::NDense(d)
        },
        other => other,
    }
}

/// One level of map insertion: the entry either ends here as a leaf or
/// goes into the dense bucket of its next character, created on demand.
fn map_insert_shallow(m: &mut NMap, comp: &Compressor, name: usize, id: usize, nobj: Ghost<int>)
    requires
        comp.wf(),
        nmap_wf(*old(m), comp.chars_view().len() as int, nobj@),
        name < comp.chars_view().len(),
        id < nobj@,
    ensures
        nmap_wf(*final(m), comp.chars_view().len() as int, nobj@),
        leaf_id_bag(final(m).leaves@).add(children_id_bag(final(m).children@)) == (if shallow_lands(
            *old(m),
            comp.chars_view(),
            name as int,
        ) {
            leaf_id_bag(old(m).leaves@).add(children_id_bag(old(m).children@)).insert(id as int)
        } else {
            leaf_id_bag(old(m).leaves@).add(children_id_bag(old(m).children@))
        }),
        all_dense(old(m).children@) ==> all_dense(final(m).children@),
{
    let ghost clen = comp.chars_view().len() as int;
    let ghost oldbag = leaf_id_bag(old(m).leaves@).add(children_id_bag(old(m).children@));
    let _arena_len = comp.len_of();
    assert(clen <= usize::MAX);
    let c0 = comp.at(name);
    if c0 == '\0' {
        let ghost pre = m.leaves@;
        m.leaves.push(id);
        proof {
            assert forall|j: int| 0 <= j < m.leaves@.len() implies (#[trigger] m.leaves@[j])
                < nobj@ by {
                if j < pre.len() {
                    assert(m.leaves@[j] == pre[j]);
                }
            }
            assert(m.leaves@.drop_last() =~= pre);
            assert(m.leaves@.last() == id);
            assert(leaf_id_bag(m.leaves@) == leaf_id_bag(pre).insert(id as int));
            lemma_bag_insert_add(leaf_id_bag(pre), children_id_bag(m.children@), id as int);
        }
    } else {
        proof {
            comp.lemma_terminated(name as int);
        }
        match find_child(&m.children, c0) {
            Some(k) => {
                let ghost pre = m.children@;
                let (cc, child) = m.children.swap_remove(k);
                let child2 = dense_push(child, name + 1, id, Ghost(clen), nobj);
                m.children.push((cc, child2));
                proof {
                    assert forall|t: int| 0 <= t < m.children@.len() implies node_wf(
                        (#[trigger] m.children@[t]).1,
                        clen,
                        nobj@,
                    ) by {
                        if t < m.children@.len() - 1 {
                            if t == k {
                                assert(m.children@[t] == pre[pre.len() - 1]);
                            } else {
                                assert(m.children@[t] == pre[t]);
                            }
                        }
                    }
                    lemma_children_bag_swap(pre, k as int, (cc, child2));
                    assert(m.children@ == pre.update(k as int, pre.last()).drop_last().push(
                        (cc, child2),
                    ));
                    if pre[k as int].1 is NDense {
                        assert(node_id_bag(child2) == node_id_bag(pre[k as int].1).insert(
                            id as int,
                        ));
                        lemma_bag_cancel(
                            children_id_bag(m.children@),
                            children_id_bag(pre),
                            node_id_bag(pre[k as int].1),
                            id as int,
                        );
                        lemma_bag_insert_add(
                            children_id_bag(pre),
                            leaf_id_bag(m.leaves@),
                            id as int,
                        );
                        broadcast use vstd::multiset::group_multiset_axioms;

                        assert(leaf_id_bag(m.leaves@).add(children_id_bag(m.children@))
                            =~= oldbag.insert(id as int));
                    } else {
                        assert(child2 == pre[k as int].1);
                        broadcast use vstd::multiset::group_multiset_axioms;

                        assert forall|v: int| #[trigger]
                            children_id_bag(m.children@).count(v) == children_id_bag(pre).count(
                            v,
                        ) by {
                            assert(children_id_bag(m.children@).add(
                                node_id_bag(pre[k as int].1),
                            ).count(v) == children_id_bag(pre).add(node_id_bag(child2)).count(v));
                        }
                        assert(children_id_bag(m.children@) =~= children_id_bag(pre));
                    }
                    if all_dense(pre) {
                        assert forall|t: int| 0 <= t < m.children@.len() implies (
                        #[trigger] m.children@[t]).1 is NDense by {
                            if t < m.children@.len() - 1 {
                                if t == k {
                                    assert(m.children@[t] == pre[pre.len() - 1]);
                                } else {
                                    assert(m.children@[t] == pre[t]);
                                }
                            } else {
                                assert(m.children@[t].1 == child2);
                                assert(pre[k as int].1 is NDense);
                            }
                        }
                    }
                }
            },
            None => {
                let ghost pre = m.children@;
                let mut nd = NDense::new();
                nd.data.push(name + 1);
                nd.data.push(id);
                proof {
                    assert(dense_wf(nd, clen, nobj@));
                }
                m.children.push((c0, Node::NDense(nd)));
                proof {
                    assert forall|t: int| 0 <= t < m.children@.len() implies node_wf(
                        (#[trigger] m.children@[t]).1,
                        clen,
                        nobj@,
                    ) by {
                        if t < pre.len() {
                            assert(m.children@[t] == pre[t]);
                        }
                    }
                    assert(nd.data@.take(nd.data@.len() - 2) =~= Seq::<usize>::empty());
                    assert(nd.data@.last() == id);
                    assert(dense_id_bag(nd.data@.take(nd.data@.len() - 2))
                        == Multiset::<int>::empty());
                    assert(dense_id_bag(nd.data@) == Multiset::<int>::empty().insert(id as int));
                    assert(m.children@.drop_last() =~= pre);
                    assert(m.children@.last() == (c0, Node::NDense(nd)));
                    assert(children_id_bag(m.children@) == children_id_bag(pre).add(
                        node_id_bag(Node::NDense(nd)),
                    ));
                    broadcast use vstd::multiset::group_multiset_axioms;

                    assert(leaf_id_bag(m.leaves@).add(children_id_bag(m.children@))
                        =~= oldbag.insert(id as int));
                    if all_dense(pre) {
                        assert forall|t: int| 0 <= t < m.children@.len() implies (
                        #[trigger] m.children@[t]).1 is NDense by {
                            if t < pre.len() {
                                assert(m.children@[t] == pre[t]);
                            }
                        }
                    }
                }
            },
        }
    }
}

/// Inserts into an interior node, map or accelerated, without descending
/// further than the entry's own dense bucket: the shape used while a
/// promoted bucket is rebuilt. A nested bucket filled to the threshold
/// during a rebuild keeps its shape until the next insertion reaches it;
/// the promotion is merely deferred, the stored entries are the same.
/// Other shapes pass through unchanged.
fn shallow_put(
    node: Node,
    context: &PinIn,
    comp: &Compressor,
    name: usize,
    id: usize,
    nobj: Ghost<int>,
) -> (r: Node)
    requires
        context.wf(),
        comp.wf(),
        node_wf(node, comp.chars_view().len() as int, nobj@),
        name < comp.chars_view().len(),
        id < nobj@,
    ensures
        node_wf(r, comp.chars_view().len() as int, nobj@),
        (node matches Node::NMap(_) || node matches Node::NAcc(_)) ==> (r matches Node::NMap(_)
            || r matches Node::NAcc(_)),
        node matches Node::NMap(m0) ==> node_id_bag(r) == (if shallow_lands(
            m0,
            comp.chars_view(),
            name as int,
        ) {
            node_id_bag(node).insert(id as int)
        } else {
            node_id_bag(node)
        }) && (all_dense(m0.children@) ==> (match r {
            Node::NMap(m2) => all_dense(m2.children@),
            Node::NAcc(a2) => all_dense(a2.map.children@),
            _ => false,
        })),
        node matches Node::NAcc(a0) ==> node_id_bag(r) == (if shallow_lands(
            a0.map,
            comp.chars_view(),
            name as int,
        ) {
            node_id_bag(node).insert(id as int)
        } else {
            node_id_bag(node)
        }) && (all_dense(a0.map.children@) ==> (match r {
            Node::NMap(m2) => all_dense(m2.children@),
            Node::NAcc(a2) => all_dense(a2.map.children@),
            _ => false,
        })),
        !(node matches Node::NMap(_) || node matches Node::NAcc(_)) ==> r == node,
{
    match node {
        Node::NMap(mut m) => {
            map_insert_shallow(&mut m, comp, name, id, nobj);
            if m.children.len() > 32 {
                let mut index: Vec<(Phoneme, Vec<char>)> = Vec::new();
                acc_reload(&mut index, context, &m.children);
                Node::NAcc(NAcc { map: m, index })
            } else {
                Node::NMap(m)
            }
        },
        Node::NAcc(mut acc) => {
            map_insert_shallow(&mut acc.map, comp, name, id, nobj);
            acc_index_char(&mut acc.index, context, comp.at(name));
            Node::NAcc(acc)
        },
        other => other,
    }
}

impl Node {
    /// Inserts the entry starting at arena position `name` with object id
    /// `id`, returning the node that replaces this one: a dense bucket at
    /// the threshold is rebuilt as a path-compressed slice, and an
    /// interior node that exceeds 32 children gains the phoneme index.
    #[verifier::rlimit(80)]
    pub fn put(
        self,
        context: &PinIn,
        a: &Accelerator,
        comp: &Compressor,
        name: usize,
        id: usize,
        nobj: Ghost<int>,
    ) -> (r: Node)
        requires
            context.wf(),
            comp.wf(),
            node_wf(self, comp.chars_view().len() as int, nobj@),
            name < comp.chars_view().len(),
            id < nobj@,
        ensures
            node_wf(r, comp.chars_view().len() as int, nobj@),
            (self matches Node::NDense(d0) ==> ((r matches Node::NSlice(_)) <==> d0.data@.len()
                >= 256) && ((r matches Node::NDense(_)) <==> d0.data@.len() < 256)),
            (self matches Node::NMap(_) ==> (match r {
                Node::NAcc(a2) => a2.map.children@.len() > 32,
                Node::NMap(m2) => m2.children@.len() <= 32,
                _ => false,
            })),
            (self matches Node::NAcc(_) ==> r matches Node::NAcc(_)),
            node_id_bag(r) == node_id_bag(self).insert(id as int),
        decreases rem_to_nul(comp.chars_view(), name as int), self,
    {
        let ghost clen = comp.chars_view().len() as int;
        let _arena_len = comp.len_of();
        assert(clen <= usize::MAX);
        proof {
            reveal_with_fuel(node_wf, 3);
            reveal_with_fuel(nmap_wf, 3);
        }
        match self {
            Node::NDense(mut d) => {
                let ghost bag0 = dense_id_bag(d.data@);
                proof {
                    assert(dense_wf(d, clen, nobj@));
                    assert(node_id_bag(self) == bag0);
                }
                if d.data.len() >= BTREE_THRESHOLD {
                    proof {
                        assert(dense_wf(d, clen, nobj@));
                    }
                    let l = match_tree(&d.data, comp);
                    let pattern = d.data[0];
                    proof {
                        assert(d.data@[0int] + l < clen);
                        assert(pattern + l < clen);
                    }
                    let m0 = NMap { children: Vec::new(), leaves: Vec::new() };
                    proof {
                        assert(m0.children@.len() == 0);
                        assert(m0.leaves@.len() == 0);
                        assert(nmap_wf(m0, clen, nobj@));
                    }
                    let mut mnode: Node = Node::NMap(m0);
                    proof {
                        broadcast use vstd::multiset::group_multiset_axioms;

                        assert(node_wf(mnode, clen, nobj@));
                        assert(all_dense(m0.children@));
                        assert(d.data@.take(0) =~= Seq::<usize>::empty());
                        assert(dense_id_bag(d.data@.take(0)) == Multiset::<int>::empty());
                        assert(leaf_id_bag(m0.leaves@) == Multiset::<int>::empty());
                        assert(children_id_bag(m0.children@) == Multiset::<int>::empty());
                        assert(node_id_bag(mnode) =~= dense_id_bag(d.data@.take(0)));
                    }
                    let pairs = d.data.len() / 2;
                    let mut j: usize = 0;
                    while j < pairs
                        invariant
                            context.wf(),
                            comp.wf(),
                            clen == comp.chars_view().len(),
                            pairs == d.data@.len() / 2,
                            d.data@.len() <= usize::MAX,
                            clen <= usize::MAX,
                            dense_wf(d, clen, nobj@),
                            forall|t: int|
                                0 <= t < d.data@.len() && t % 2 == 0 ==> (#[trigger] d.data@[t]) + l
                                    < clen,
                            j <= pairs,
                            node_wf(mnode, clen, nobj@),
                            match mnode {
                                Node::NMap(mm) => all_dense(mm.children@),
                                Node::NAcc(aa) => all_dense(aa.map.children@),
                                _ => false,
                            },
                            node_id_bag(mnode) == dense_id_bag(d.data@.take(2 * (j as int))),
                        decreases pairs - j,
                    {
                        proof {
                            let jj: int = 2 * (j as int);
                            assert(jj % 2 == 0);
                            assert((jj + 1) % 2 == 1);
                            assert(d.data@[jj] + l < clen);
                            assert(d.data@[jj + 1] < nobj@);
                        }
                        let pos = d.data[2 * j];
                        let oid = d.data[2 * j + 1];
                        proof {
                            lemma_all_dense_lands(mnode, comp.chars_view(), pos + l);
                        }
                        mnode = shallow_put(mnode, context, comp, pos + l, oid, nobj);
                        proof {
                            let jj: int = 2 * (j as int);
                            assert(d.data@.take(jj + 2).take(d.data@.take(jj + 2).len() - 2)
                                =~= d.data@.take(jj));
                            assert(d.data@.take(jj + 2).last() == d.data@[jj + 1]);
                            assert(dense_id_bag(d.data@.take(jj + 2)) == dense_id_bag(
                                d.data@.take(jj),
                            ).insert(d.data@[jj + 1] as int));
                        }
                        j = j + 1;
                    }
                    proof {
                        assert(d.data@.take(2 * (pairs as int)) =~= d.data@);
                        assert(node_id_bag(mnode) == bag0);
                    }
                    let src = CharProvider::Comp(comp);
                    let m = a.common(&src, pattern, name, l);
                    if m >= l {
                        proof {
                            if l > 0 {
                                lemma_common_prefix(src, pattern as int, name as int, l as int, l - 1);
                                comp.lemma_terminated(name + l - 1);
                            }
                        }
                        proof {
                            lemma_all_dense_lands(mnode, comp.chars_view(), name + l);
                        }
                        let mnode2 = shallow_put(mnode, context, comp, name + l, id, nobj);
                        let r2 = Node::NSlice(
                            NSlice { exit: Box::new(mnode2), start: pattern, end: pattern + l },
                        );
                        proof {
                            assert(node_wf(r2, clen, nobj@));
                            assert(node_id_bag(r2) == node_id_bag(mnode2));
                            assert(node_id_bag(r2) == bag0.insert(id as int));
                        }
                        r2
                    } else {
                        let cutpos = pattern + m;
                        proof {
                            assert((pattern as int) % 2 == 0 ==> true);
                            assert(d.data@[0int] + l < clen);
                            if m > 0 {
                                lemma_common_prefix(src, pattern as int, name as int, l as int, m - 1);
                                comp.lemma_terminated(name + m - 1);
                            }
                        }
                        let inner: Node = if m + 1 == l {
                            mnode
                        } else {
                            Node::NSlice(
                                NSlice { exit: Box::new(mnode), start: cutpos + 1, end: pattern + l },
                            )
                        };
                        proof {
                            assert(node_wf(inner, clen, nobj@));
                        }
                        let mut ch2: Vec<(char, Node)> = Vec::new();
                        ch2.push((comp.at(cutpos), inner));
                        let m2 = NMap { children: ch2, leaves: Vec::new() };
                        proof {
                            assert forall|t: int|
                                0 <= t < m2.children@.len() implies node_wf(
                                (#[trigger] m2.children@[t]).1,
                                clen,
                                nobj@,
                            ) by {
                                assert(m2.children@[t].1 == inner);
                            }
                            assert(m2.leaves@.len() == 0);
                            assert(nmap_wf(m2, clen, nobj@));
                        }
                        let map2 = Node::NMap(m2);
                        proof {
                            broadcast use vstd::multiset::group_multiset_axioms;

                            assert(node_wf(map2, clen, nobj@));
                            assert(node_id_bag(inner) == bag0);
                            assert(m2.children@.drop_last()
                                =~= Seq::<(char, Node)>::empty());
                            assert(m2.children@.last().1 == inner);
                            assert(children_id_bag(m2.children@) == children_id_bag(
                                Seq::<(char, Node)>::empty(),
                            ).add(node_id_bag(inner)));
                            assert(node_id_bag(map2) =~= bag0);
                            lemma_common_stop(src, pattern as int, name as int, l as int);
                            if comp.chars_view()[name + m] != '\0' {
                                assert(comp.chars_view()[cutpos as int] != comp.chars_view()[name
                                    + m]);
                                assert forall|t: int|
                                    0 <= t < m2.children@.len() implies (
                                #[trigger] m2.children@[t]).0 != comp.chars_view()[name + m] by {
                                    assert(m2.children@[t].0 == comp.chars_view()[cutpos as int]);
                                }
                                lemma_child_find_none(
                                    m2.children@,
                                    comp.chars_view()[name + m],
                                );
                            }
                            assert(shallow_lands(m2, comp.chars_view(), name + m));
                        }
                        let newexit = shallow_put(map2, context, comp, name + m, id, nobj);
                        let r2 = Node::NSlice(
                            NSlice { exit: Box::new(newexit), start: pattern, end: cutpos },
                        );
                        proof {
                            assert(node_wf(r2, clen, nobj@));
                            assert(node_id_bag(r2) == node_id_bag(newexit));
                            assert(node_id_bag(r2) == bag0.insert(id as int));
                        }
                        r2
                    }
                } else {
                    let ghost pre = d.data@;
                    d.data.push(name);
                    d.data.push(id);
                    proof {
                        assert(d.data@.len() == pre.len() + 2);
                        assert forall|t: int| 0 <= t < d.data@.len() implies (
                        #[trigger] d.data@[t]) < (if t % 2 == 0 {
                            clen
                        } else {
                            nobj@
                        }) by {
                            if t < pre.len() {
                                assert(d.data@[t] == pre[t]);
                            }
                        }
                        assert(dense_wf(d, clen, nobj@));
                        assert(d.data@.take(d.data@.len() - 2) =~= pre);
                        assert(d.data@.last() == id);
                        assert(dense_id_bag(d.data@) == bag0.insert(id as int));
                    }
                    let r2 = Node::NDense(d);
                    proof {
                        assert(node_wf(r2, clen, nobj@));
                        assert(node_id_bag(r2) == bag0.insert(id as int));
                    }
                    r2
                }
            },
            Node::NMap(mut m) => {
                let ghost bagm = leaf_id_bag(m.leaves@).add(children_id_bag(m.children@));
                proof {
                    assert(nmap_wf(m, clen, nobj@));
                    assert(node_id_bag(self) == bagm);
                }
                let c0 = comp.at(name);
                if c0 == '\0' {
                    let ghost pre = m.leaves@;
                    m.leaves.push(id);
                    proof {
                        assert forall|t: int| 0 <= t < m.leaves@.len() implies (
                        #[trigger] m.leaves@[t]) < nobj@ by {
                            if t < pre.len() {
                                assert(m.leaves@[t] == pre[t]);
                            }
                        }
                        assert(m.leaves@.drop_last() =~= pre);
                        assert(m.leaves@.last() == id);
                        assert(leaf_id_bag(m.leaves@) == leaf_id_bag(pre).insert(id as int));
                        lemma_bag_insert_add(
                            leaf_id_bag(pre),
                            children_id_bag(m.children@),
                            id as int,
                        );
                        assert(leaf_id_bag(m.leaves@).add(children_id_bag(m.children@))
                            == bagm.insert(id as int));
                    }
                } else {
                    proof {
                        comp.lemma_terminated(name as int);
                    }
                    match find_child(&m.children, c0) {
                        Some(k) => {
                            let ghost pre = m.children@;
                            let (cc, child) = m.children.swap_remove(k);
                            proof {
                                assert(node_wf(pre[k as int].1, clen, nobj@));
                                assert(child == pre[k as int].1);
                                assert(rem_to_nul(comp.chars_view(), name as int) == 1
                                    + rem_to_nul(comp.chars_view(), name + 1));
                            }
                            let child2 = child.put(context, a, comp, name + 1, id, nobj);
                            m.children.push((cc, child2));
                            proof {
                                broadcast use vstd::multiset::group_multiset_axioms;

                                assert forall|t: int| 0 <= t < m.children@.len() implies node_wf(
                                    (#[trigger] m.children@[t]).1,
                                    clen,
                                    nobj@,
                                ) by {
                                    if t < m.children@.len() - 1 {
                                        if t == k {
                                            assert(m.children@[t] == pre[pre.len() - 1]);
                                        } else {
                                            assert(m.children@[t] == pre[t]);
                                        }
                                    }
                                }
                                lemma_children_bag_swap(pre, k as int, (cc, child2));
                                assert(m.children@ == pre.update(k as int, pre.last()).drop_last()
                                    .push((cc, child2)));
                                assert(node_id_bag(child2) == node_id_bag(pre[k as int].1).insert(
                                    id as int,
                                ));
                                lemma_bag_cancel(
                                    children_id_bag(m.children@),
                                    children_id_bag(pre),
                                    node_id_bag(pre[k as int].1),
                                    id as int,
                                );
                                lemma_bag_insert_add(
                                    children_id_bag(pre),
                                    leaf_id_bag(m.leaves@),
                                    id as int,
                                );
                                assert(leaf_id_bag(m.leaves@).add(children_id_bag(m.children@))
                                    =~= bagm.insert(id as int));
                            }
                        },
                        None => {
                            let fresh = Node::NDense(NDense::new());
                            let ghost pre = m.children@;
                            proof {
                                assert(node_wf(fresh, clen, nobj@));
                                assert(rem_to_nul(comp.chars_view(), name as int) == 1
                                    + rem_to_nul(comp.chars_view(), name + 1));
                                assert(fresh matches Node::NDense(fd) && fd.data@.len() == 0);
                                assert(node_id_bag(fresh) == Multiset::<int>::empty());
                            }
                            let child2 = fresh.put(context, a, comp, name + 1, id, nobj);
                            m.children.push((c0, child2));
                            proof {
                                broadcast use vstd::multiset::group_multiset_axioms;

                                assert forall|t: int| 0 <= t < m.children@.len() implies node_wf(
                                    (#[trigger] m.children@[t]).1,
                                    clen,
                                    nobj@,
                                ) by {
                                    if t < pre.len() {
                                        assert(m.children@[t] == pre[t]);
                                    }
                                }
                                assert(node_id_bag(child2) == Multiset::<int>::empty().insert(
                                    id as int,
                                ));
                                assert(m.children@.drop_last() =~= pre);
                                assert(m.children@.last() == (c0, child2));
                                assert(children_id_bag(m.children@) == children_id_bag(pre).add(
                                    node_id_bag(child2),
                                ));
                                assert(leaf_id_bag(m.leaves@).add(children_id_bag(m.children@))
                                    =~= bagm.insert(id as int));
                            }
                        },
                    }
                }
                proof {
                    assert(leaf_id_bag(m.leaves@).add(children_id_bag(m.children@))
                        == bagm.insert(id as int));
                }
                if m.children.len() > 32 {
                    let mut index: Vec<(Phoneme, Vec<char>)> = Vec::new();
                    acc_reload(&mut index, context, &m.children);
                    let r2 = Node::NAcc(NAcc { map: m, index });
                    proof {
                        assert(node_id_bag(r2) == bagm.insert(id as int));
                    }
                    r2
                } else {
                    let r2 = Node::NMap(m);
                    proof {
                        assert(node_id_bag(r2) == bagm.insert(id as int));
                    }
                    r2
                }
            },
            Node::NAcc(mut acc) => {
                let ghost bagm = leaf_id_bag(acc.map.leaves@).add(
                    children_id_bag(acc.map.children@),
                );
                proof {
                    assert(nmap_wf(acc.map, clen, nobj@));
                    assert(index_wf(acc.index@));
                    assert(node_id_bag(self) == bagm);
                }
                let c0 = comp.at(name);
                if c0 == '\0' {
                    let ghost pre = acc.map.leaves@;
                    acc.map.leaves.push(id);
                    proof {
                        assert forall|t: int| 0 <= t < acc.map.leaves@.len() implies (
                        #[trigger] acc.map.leaves@[t]) < nobj@ by {
                            if t < pre.len() {
                                assert(acc.map.leaves@[t] == pre[t]);
                            }
                        }
                        assert(acc.map.leaves@.drop_last() =~= pre);
                        assert(acc.map.leaves@.last() == id);
                        assert(leaf_id_bag(acc.map.leaves@) == leaf_id_bag(pre).insert(id as int));
                        lemma_bag_insert_add(
                            leaf_id_bag(pre),
                            children_id_bag(acc.map.children@),
                            id as int,
                        );
                        assert(leaf_id_bag(acc.map.leaves@).add(children_id_bag(acc.map.children@))
                            == bagm.insert(id as int));
                    }
                } else {
                    proof {
                        comp.lemma_terminated(name as int);
                    }
                    match find_child(&acc.map.children, c0) {
                        Some(k) => {
                            let ghost pre = acc.map.children@;
                            let (cc, child) = acc.map.children.swap_remove(k);
                            proof {
                                assert(node_wf(pre[k as int].1, clen, nobj@));
                                assert(child == pre[k as int].1);
                                assert(rem_to_nul(comp.chars_view(), name as int) == 1
                                    + rem_to_nul(comp.chars_view(), name + 1));
                            }
                            let child2 = child.put(context, a, comp, name + 1, id, nobj);
                            acc.map.children.push((cc, child2));
                            proof {
                                broadcast use vstd::multiset::group_multiset_axioms;

                                assert forall|t: int|
                                    0 <= t < acc.map.children@.len() implies node_wf(
                                    (#[trigger] acc.map.children@[t]).1,
                                    clen,
                                    nobj@,
                                ) by {
                                    if t < acc.map.children@.len() - 1 {
                                        if t == k {
                                            assert(acc.map.children@[t] == pre[pre.len() - 1]);
                                        } else {
                                            assert(acc.map.children@[t] == pre[t]);
                                        }
                                    }
                                }
                                lemma_children_bag_swap(pre, k as int, (cc, child2));
                                assert(acc.map.children@ == pre.update(k as int, pre.last())
                                    .drop_last().push((cc, child2)));
                                assert(node_id_bag(child2) == node_id_bag(pre[k as int].1).insert(
                                    id as int,
                                ));
                                lemma_bag_cancel(
                                    children_id_bag(acc.map.children@),
                                    children_id_bag(pre),
                                    node_id_bag(pre[k as int].1),
                                    id as int,
                                );
                                lemma_bag_insert_add(
                                    children_id_bag(pre),
                                    leaf_id_bag(acc.map.leaves@),
                                    id as int,
                                );
                                assert(leaf_id_bag(acc.map.leaves@).add(
                                    children_id_bag(acc.map.children@),
                                ) =~= bagm.insert(id as int));
                            }
                        },
                        None => {
                            let fresh = Node::NDense(NDense::new());
                            let ghost pre = acc.map.children@;
                            proof {
                                assert(node_wf(fresh, clen, nobj@));
                                assert(rem_to_nul(comp.chars_view(), name as int) == 1
                                    + rem_to_nul(comp.chars_view(), name + 1));
                                assert(fresh matches Node::NDense(fd) && fd.data@.len() == 0);
                                assert(node_id_bag(fresh) == Multiset::<int>::empty());
                            }
                            let child2 = fresh.put(context, a, comp, name + 1, id, nobj);
                            acc.map.children.push((c0, child2));
                            proof {
                                broadcast use vstd::multiset::group_multiset_axioms;

                                assert forall|t: int|
                                    0 <= t < acc.map.children@.len() implies node_wf(
                                    (#[trigger] acc.map.children@[t]).1,
                                    clen,
                                    nobj@,
                                ) by {
                                    if t < pre.len() {
                                        assert(acc.map.children@[t] == pre[t]);
                                    }
                                }
                                assert(node_id_bag(child2) == Multiset::<int>::empty().insert(
                                    id as int,
                                ));
                                assert(acc.map.children@.drop_last() =~= pre);
                                assert(acc.map.children@.last() == (c0, child2));
                                assert(children_id_bag(acc.map.children@) == children_id_bag(
                                    pre,
                                ).add(node_id_bag(child2)));
                                assert(leaf_id_bag(acc.map.leaves@).add(
                                    children_id_bag(acc.map.children@),
                                ) =~= bagm.insert(id as int));
                            }
                        },
                    }
                }
                acc_index_char(&mut acc.index, context, comp.at(name));
                let r2 = Node::NAcc(acc);
                proof {
                    assert(node_id_bag(r2) == bagm.insert(id as int));
                }
                r2
            },
            Node::NSlice(sl) => {
                let ghost bags = node_id_bag(*sl.exit);
                proof {
                    assert(sl.start <= sl.end <= clen);
                    assert(node_wf(*sl.exit, clen, nobj@));
                    assert(node_id_bag(self) == bags);
                }
                let NSlice { exit, start, end } = sl;
                let len = end - start;
                let src = CharProvider::Comp(comp);
                let matched = a.common(&src, start, name, len);
                let (newexit, newend): (Node, usize) = if matched >= len {
                    proof {
                        if len > 0 {
                            lemma_common_prefix(src, start as int, name as int, len as int, len - 1);
                            comp.lemma_terminated(name + len - 1);
                            lemma_rem_common(src, start as int, name as int, len as int, len as int);
                        }
                    }
                    let e: Node = *exit;
                    proof {
                        assert(node_wf(e, clen, nobj@));
                        assert(node_id_bag(e) == bags);
                    }
                    let e2 = e.put(context, a, comp, name + len, id, nobj);
                    proof {
                        assert(node_id_bag(e2) == bags.insert(id as int));
                    }
                    (e2, end)
                } else {
                    let cutpos = start + matched;
                    proof {
                        if matched > 0 {
                            lemma_common_prefix(src, start as int, name as int, len as int, matched - 1);
                            comp.lemma_terminated(name + matched - 1);
                        }
                    }
                    let inner: Node = if cutpos + 1 == end {
                        *exit
                    } else {
                        Node::NSlice(NSlice { exit, start: cutpos + 1, end })
                    };
                    proof {
                        assert(node_wf(inner, clen, nobj@));
                        assert(node_id_bag(inner) == bags);
                    }
                    let mut ch2: Vec<(char, Node)> = Vec::new();
                    ch2.push((comp.at(cutpos), inner));
                    let m2 = NMap { children: ch2, leaves: Vec::new() };
                    proof {
                        assert forall|t: int|
                            0 <= t < m2.children@.len() implies node_wf(
                            (#[trigger] m2.children@[t]).1,
                            clen,
                            nobj@,
                        ) by {
                            assert(m2.children@[t].1 == inner);
                        }
                        assert(m2.leaves@.len() == 0);
                        assert(nmap_wf(m2, clen, nobj@));
                    }
                    let map2 = Node::NMap(m2);
                    proof {
                        broadcast use vstd::multiset::group_multiset_axioms;

                        assert(node_wf(map2, clen, nobj@));
                        assert(m2.children@.drop_last() =~= Seq::<(char, Node)>::empty());
                        assert(m2.children@.last().1 == inner);
                        assert(children_id_bag(m2.children@) == children_id_bag(
                            Seq::<(char, Node)>::empty(),
                        ).add(node_id_bag(inner)));
                        assert(node_id_bag(map2) =~= bags);
                        lemma_common_stop(src, start as int, name as int, len as int);
                        if comp.chars_view()[name + matched] != '\0' {
                            assert(comp.chars_view()[cutpos as int] != comp.chars_view()[name
                                + matched]);
                            assert forall|t: int|
                                0 <= t < m2.children@.len() implies (#[trigger] m2.children@[t]).0
                                != comp.chars_view()[name + matched] by {
                                assert(m2.children@[t].0 == comp.chars_view()[cutpos as int]);
                            }
                            lemma_child_find_none(m2.children@, comp.chars_view()[name + matched]);
                        }
                        assert(shallow_lands(m2, comp.chars_view(), name + matched));
                    }
                    let ne = shallow_put(map2, context, comp, name + matched, id, nobj);
                    proof {
                        assert(node_id_bag(ne) == bags.insert(id as int));
                    }
                    (ne, cutpos)
                };
                proof {
                    assert(node_id_bag(newexit) == bags.insert(id as int));
                }
                if start == newend {
                    newexit
                } else {
                    let r2 = Node::NSlice(NSlice { exit: Box::new(newexit), start, end: newend });
                    proof {
                        assert(node_wf(r2, clen, nobj@));
                        assert(node_id_bag(r2) == bags.insert(id as int));
                    }
                    r2
                }
            },
        }
    }
}



/// The ids among the first `k` pairs of a dense bucket whose entry passes
/// the test of `logic` for query `q` at `offset`: an exact match for the
/// equality logic, a prefix match otherwise.
pub open spec fn dense_hits(
    data: Seq<usize>,
    dict: Seq<(char, Option<Character>)>,
    q: Seq<char>,
    comp: Compressor,
    logic: SearcherLogic,
    offset: int,
    k: int,
) -> Multiset<int>
    decreases k,
{
    if k <= 0 {
        Multiset::empty()
    } else {
        let rest = dense_hits(data, dict, q, comp, logic, offset, k - 1);
        let pos = data[2 * (k - 1)] as int;
        let hit = if logic == SearcherLogic::Equal {
            spec_check(dict, q, CharProvider::Comp(&comp), offset, pos, false)
        } else {
            spec_check(dict, q, CharProvider::Comp(&comp), offset, pos, true)
        };
        if hit {
            rest.insert(data[2 * (k - 1) + 1] as int)
        } else {
            rest
        }
    }
}

/// A bag built from a list is as large as the list.
proof fn lemma_leaf_bag_len(s: Seq<usize>)
    ensures
        leaf_id_bag(s).len() == s.len(),
    decreases s.len(),
{
    broadcast use vstd::multiset::group_multiset_axioms;

    if s.len() > 0 {
        lemma_leaf_bag_len(s.drop_last());
    }
}


/// Appended search results stay within the object store.
pub open spec fn ids_ok(pre: Seq<usize>, post: Seq<usize>, nobj: int) -> bool {
    &&& pre.is_prefix_of(post)
    &&& forall|t: int| pre.len() <= t < post.len() ==> (#[trigger] post[t]) < nobj
}

impl Node {
    /// Adds every id reachable under this node.
    pub fn get(&self, ret: &mut Vec<usize>, clen: Ghost<int>, nobj: Ghost<int>)
        requires
            node_wf(*self, clen@, nobj@),
        ensures
            ids_ok(old(ret)@, final(ret)@, nobj@),
            leaf_id_bag(final(ret)@.skip(old(ret)@.len() as int)) == node_id_bag(*self),
        decreases self,
    {
        proof {
            reveal_with_fuel(node_wf, 3);
            reveal_with_fuel(nmap_wf, 3);
        }
        let ghost base = ret@.len() as int;
        match self {
            Node::NDense(d) => {
                let mut j: usize = 0;
                let pairs = d.data.len() / 2;
                proof {
                    assert(ret@.skip(base) =~= Seq::<usize>::empty());
                    assert(d.data@.take(0) =~= Seq::<usize>::empty());
                }
                while j < pairs
                    invariant
                        pairs == d.data@.len() / 2,
                        d.data@.len() <= usize::MAX,
                        dense_wf(*d, clen@, nobj@),
                        j <= pairs,
                        base == old(ret)@.len(),
                        base <= ret@.len(),
                        ids_ok(old(ret)@, ret@, nobj@),
                        leaf_id_bag(ret@.skip(base)) == dense_id_bag(d.data@.take(2 * (j as int))),
                    decreases pairs - j,
                {
                    proof {
                        let jj: int = 2 * (j as int) + 1;
                        assert(jj % 2 == 1);
                        assert(d.data@[jj] < nobj@);
                    }
                    let ghost pre = ret@;
                    ret.push(d.data[2 * j + 1]);
                    proof {
                        lemma_ids_ok_push(old(ret)@, pre, ret@, nobj@);
                        let jj: int = 2 * (j as int);
                        assert(ret@.skip(base) =~= pre.skip(base).push(d.data@[jj + 1]));
                        assert(leaf_id_bag(ret@.skip(base)) == leaf_id_bag(pre.skip(base)).insert(
                            d.data@[jj + 1] as int,
                        )) by {
                            assert(ret@.skip(base).drop_last() =~= pre.skip(base));
                            assert(ret@.skip(base).last() == d.data@[jj + 1]);
                        }
                        assert(d.data@.take(jj + 2).take(d.data@.take(jj + 2).len() - 2)
                            =~= d.data@.take(jj));
                        assert(d.data@.take(jj + 2).last() == d.data@[jj + 1]);
                        assert(dense_id_bag(d.data@.take(jj + 2)) == dense_id_bag(
                            d.data@.take(jj),
                        ).insert(d.data@[jj + 1] as int));
                    }
                    j = j + 1;
                }
                proof {
                    assert(d.data@.take(2 * (pairs as int)) =~= d.data@);
                }
            },
            Node::NMap(m) => {
                nmap_get(m, ret, clen, nobj);
            },
            Node::NAcc(acc) => {
                nmap_get(&acc.map, ret, clen, nobj);
            },
            Node::NSlice(sl) => {
                sl.exit.get(ret, clen, nobj);
            },
        }
    }
}

/// Chaining one appended id keeps the results in range.
proof fn lemma_ids_ok_push(base: Seq<usize>, pre: Seq<usize>, post: Seq<usize>, nobj: int)
    requires
        ids_ok(base, pre, nobj),
        post == pre.push(post.last()),
        post.len() == pre.len() + 1,
        post.last() < nobj,
    ensures
        ids_ok(base, post, nobj),
{
    assert(base.is_prefix_of(post)) by {
        assert(base =~= post.subrange(0, base.len() as int));
    }
    assert forall|t: int| base.len() <= t < post.len() implies (#[trigger] post[t]) < nobj by {
        if t < pre.len() {
            assert(post[t] == pre[t]);
        }
    }
}

/// Two stages of appended results compose.
proof fn lemma_ids_ok_trans(base: Seq<usize>, mid: Seq<usize>, post: Seq<usize>, nobj: int)
    requires
        ids_ok(base, mid, nobj),
        ids_ok(mid, post, nobj),
    ensures
        ids_ok(base, post, nobj),
{
    assert(base.is_prefix_of(post)) by {
        assert(base =~= post.subrange(0, base.len() as int));
    }
    assert forall|t: int| base.len() <= t < post.len() implies (#[trigger] post[t]) < nobj by {
        if t < mid.len() {
            assert(post[t] == mid[t]);
        }
    }
}

/// Adds the leaves of an interior node and everything under its children.
fn nmap_get(m: &NMap, ret: &mut Vec<usize>, clen: Ghost<int>, nobj: Ghost<int>)
    requires
        nmap_wf(*m, clen@, nobj@),
    ensures
        ids_ok(old(ret)@, final(ret)@, nobj@),
        leaf_id_bag(final(ret)@.skip(old(ret)@.len() as int)) == leaf_id_bag(m.leaves@).add(
            children_id_bag(m.children@),
        ),
    decreases m,
{
    proof {
        reveal_with_fuel(node_wf, 3);
        reveal_with_fuel(nmap_wf, 3);
    }
    let ghost base = ret@.len() as int;
    let mut j: usize = 0;
    proof {
        assert(ret@.skip(base) =~= Seq::<usize>::empty());
        assert(m.leaves@.take(0) =~= Seq::<usize>::empty());
    }
    while j < m.leaves.len()
        invariant
            nmap_wf(*m, clen@, nobj@),
            j <= m.leaves@.len(),
            base == old(ret)@.len(),
            base <= ret@.len(),
            ids_ok(old(ret)@, ret@, nobj@),
            leaf_id_bag(ret@.skip(base)) == leaf_id_bag(m.leaves@.take(j as int)),
        decreases m.leaves@.len() - j,
    {
        let ghost pre = ret@;
        ret.push(m.leaves[j]);
        proof {
            lemma_ids_ok_push(old(ret)@, pre, ret@, nobj@);
            assert(ret@.skip(base) =~= pre.skip(base).push(m.leaves@[j as int]));
            assert(leaf_id_bag(ret@.skip(base)) == leaf_id_bag(pre.skip(base)).insert(
                m.leaves@[j as int] as int,
            )) by {
                assert(ret@.skip(base).drop_last() =~= pre.skip(base));
                assert(ret@.skip(base).last() == m.leaves@[j as int]);
            }
            assert(m.leaves@.take(j + 1).drop_last() =~= m.leaves@.take(j as int));
            assert(m.leaves@.take(j + 1).last() == m.leaves@[j as int]);
        }
        j = j + 1;
    }
    proof {
        assert(m.leaves@.take(m.leaves@.len() as int) =~= m.leaves@);
        assert(m.children@.take(0) =~= Seq::<(char, Node)>::empty());
        broadcast use vstd::multiset::group_multiset_axioms;

        assert(leaf_id_bag(ret@.skip(base)) =~= leaf_id_bag(m.leaves@).add(
            children_id_bag(m.children@.take(0)),
        ));
    }
    let mut k: usize = 0;
    while k < m.children.len()
        invariant
            nmap_wf(*m, clen@, nobj@),
            k <= m.children@.len(),
            base == old(ret)@.len(),
            base <= ret@.len(),
            ids_ok(old(ret)@, ret@, nobj@),
            leaf_id_bag(ret@.skip(base)) == leaf_id_bag(m.leaves@).add(
                children_id_bag(m.children@.take(k as int)),
            ),
        decreases m.children@.len() - k,
    {
        let ghost pre = ret@;
        let child = &m.children[k].1;
        proof {
            assert(node_wf(m.children@[k as int].1, clen@, nobj@));
        }
        child.get(ret, clen, nobj);
        proof {
            lemma_ids_ok_trans(old(ret)@, pre, ret@, nobj@);
            assert(ret@.skip(base) =~= pre.skip(base) + ret@.skip(pre.len() as int)) by {
                assert(pre.is_prefix_of(ret@));
            }
            lemma_leaf_bag_concat(pre.skip(base), ret@.skip(pre.len() as int));
            assert(m.children@.take(k + 1).drop_last() =~= m.children@.take(k as int));
            assert(m.children@.take(k + 1).last() == m.children@[k as int]);
            assert(children_id_bag(m.children@.take(k + 1)) == children_id_bag(
                m.children@.take(k as int),
            ).add(node_id_bag(m.children@[k as int].1)));
            broadcast use vstd::multiset::group_multiset_axioms;

            assert(leaf_id_bag(ret@.skip(base)) =~= leaf_id_bag(m.leaves@).add(
                children_id_bag(m.children@.take(k + 1)),
            ));
        }
        k = k + 1;
    }
    proof {
        assert(m.children@.take(m.children@.len() as int) =~= m.children@);
    }
}

impl Node {
    /// Adds every id reachable under this node that matches the query
    /// from `offset`, walking children by the index sets of how many query
    /// characters each source character can consume.
    pub fn get_offset(
        &self,
        context: &PinIn,
        a: &mut Accelerator,
        comp: &Compressor,
        logic: SearcherLogic,
        ret: &mut Vec<usize>,
        offset: usize,
        nobj: Ghost<int>,
    )
        requires
            context.wf(),
            comp.wf(),
            old(a).strs_wf(),
            old(a).cache_wf(context.pinyin_by_id()),
            node_wf(*self, comp.chars_view().len() as int, nobj@),
        ensures
            final(a).strs_wf(),
            final(a).cache_wf(context.pinyin_by_id()),
            final(a).query() == old(a).query(),
            ids_ok(old(ret)@, final(ret)@, nobj@),
            self matches Node::NDense(d) ==> !(logic == SearcherLogic::Equal && old(
                a,
            ).query().len() == offset) ==> leaf_id_bag(final(ret)@.skip(old(ret)@.len() as int))
                == dense_hits(
                d.data@,
                context.dict(),
                old(a).query(),
                *comp,
                logic,
                offset as int,
                d.data@.len() as int / 2,
            ),
        decreases *self, 1int, 0int,
    {
        let ghost clen = comp.chars_view().len() as int;
        proof {
            reveal_with_fuel(node_wf, 3);
            reveal_with_fuel(nmap_wf, 3);
        }
        match self {
            Node::NDense(d) => {
                let full = logic == SearcherLogic::Equal;
                if full && a.query_len() == offset {
                    self.get(ret, Ghost(clen), nobj);
                } else {
                    let ghost base = ret@.len() as int;
                    let ghost q = a.query();
                    let pairs = d.data.len() / 2;
                    let mut j: usize = 0;
                    proof {
                        assert(ret@.skip(base) =~= Seq::<usize>::empty());
                    }
                    while j < pairs
                        invariant
                            context.wf(),
                            comp.wf(),
                            clen == comp.chars_view().len(),
                            a.strs_wf(),
                            a.cache_wf(context.pinyin_by_id()),
                            a.query() == old(a).query(),
                            q == old(a).query(),
                            pairs == d.data@.len() / 2,
                            d.data@.len() <= usize::MAX,
                            dense_wf(*d, clen, nobj@),
                            full == (logic == SearcherLogic::Equal),
                            j <= pairs,
                            base == old(ret)@.len(),
                            base <= ret@.len(),
                            ids_ok(old(ret)@, ret@, nobj@),
                            leaf_id_bag(ret@.skip(base)) == dense_hits(
                                d.data@,
                                context.dict(),
                                q,
                                *comp,
                                logic,
                                offset as int,
                                j as int,
                            ),
                        decreases pairs - j,
                    {
                        proof {
                            let jj: int = 2 * (j as int);
                            assert(jj % 2 == 0);
                            assert((jj + 1) % 2 == 1);
                            assert(d.data@[jj] < clen);
                            assert(d.data@[jj + 1] < nobj@);
                        }
                        let pos = d.data[2 * j];
                        let src = CharProvider::Comp(comp);
                        let hit = if full {
                            a.matches(context, &src, offset, pos)
                        } else {
                            a.begins(context, &src, offset, pos)
                        };
                        proof {
                            assert(src == CharProvider::Comp(comp));
                        }
                        if hit {
                            let ghost pre = ret@;
                            ret.push(d.data[2 * j + 1]);
                            proof {
                                lemma_ids_ok_push(old(ret)@, pre, ret@, nobj@);
                                let jj: int = 2 * (j as int);
                                assert(ret@.skip(base) =~= pre.skip(base).push(d.data@[jj + 1]));
                                assert(leaf_id_bag(ret@.skip(base)) == leaf_id_bag(
                                    pre.skip(base),
                                ).insert(d.data@[jj + 1] as int)) by {
                                    assert(ret@.skip(base).drop_last() =~= pre.skip(base));
                                    assert(ret@.skip(base).last() == d.data@[jj + 1]);
                                }
                            }
                        }
                        j = j + 1;
                    }
                }
            },
            Node::NMap(m) => {
                if a.query_len() == offset {
                    if logic == SearcherLogic::Equal {
                        nmap_emit_leaves(m, ret, Ghost(clen), nobj);
                    }
                } else {
                    nmap_get_offset_children(m, context, a, comp, logic, ret, offset, nobj);
                }
            },
            Node::NAcc(acc) => {
                if a.query_len() == offset {
                    if logic == SearcherLogic::Equal {
                        nmap_emit_leaves(&acc.map, ret, Ghost(clen), nobj);
                    } else {
                        nmap_get(&acc.map, ret, Ghost(clen), nobj);
                    }
                } else {
                    if offset < a.query_len() {
                        let qc = a.query_char_at(offset);
                        match find_child(&acc.map.children, qc) {
                            Some(k) => {
                                let child = &acc.map.children[k].1;
                                proof {
                                    assert(node_wf(acc.map.children@[k as int].1, clen, nobj@));
                                    assert(decreases_to!(*self => *acc));
                                    assert(decreases_to!(*acc => acc.map));
                                    assert(decreases_to!(acc.map => acc.map.children));
                                    assert(decreases_to!(acc.map.children => acc.map.children[k as int]));
                                    assert(decreases_to!(acc.map.children[k as int] => acc.map.children[k as int].1));
                                }
                                if offset < usize::MAX {
                                    let ghost pre = ret@;
                                    child.get_offset(context, a, comp, logic, ret, offset + 1, nobj);
                                    proof {
                                        lemma_ids_ok_trans(old(ret)@, pre, ret@, nobj@);
                                    }
                                }
                            },
                            None => {
                            },
                        }
                    }
                    let mut b: usize = 0;
                    while b < acc.index.len()
                        invariant
                            context.wf(),
                            comp.wf(),
                            clen == comp.chars_view().len(),
                            a.strs_wf(),
                            a.cache_wf(context.pinyin_by_id()),
                            a.query() == old(a).query(),
                            nmap_wf(acc.map, clen, nobj@),
                            index_wf(acc.index@),
                            self == Node::NAcc(*acc),
                            b <= acc.index@.len(),
                            ids_ok(old(ret)@, ret@, nobj@),
                        decreases acc.index@.len() - b,
                    {
                        proof {
                            assert(acc.index@[b as int].0.wf());
                        }
                        let key = &acc.index[b].0;
                        let hit = key.match_string(a.query_str(), offset, true);
                        if hit.raw_value() != 0 {
                            let bucket = &acc.index[b].1;
                            let mut t: usize = 0;
                            while t < bucket.len()
                                invariant
                                    context.wf(),
                                    comp.wf(),
                                    clen == comp.chars_view().len(),
                                    a.strs_wf(),
                                    a.cache_wf(context.pinyin_by_id()),
                                    a.query() == old(a).query(),
                                    nmap_wf(acc.map, clen, nobj@),
                                    self == Node::NAcc(*acc),
                                    t <= bucket@.len(),
                                    ids_ok(old(ret)@, ret@, nobj@),
                                decreases bucket@.len() - t,
                            {
                                let c = bucket[t];
                                let s = a.get(context, c, offset);
                                let mut i: usize = 0;
                                while i < 7
                                    invariant
                                        context.wf(),
                                        comp.wf(),
                                        clen == comp.chars_view().len(),
                                        a.strs_wf(),
                                        a.cache_wf(context.pinyin_by_id()),
                                        a.query() == old(a).query(),
                                        nmap_wf(acc.map, clen, nobj@),
                                        self == Node::NAcc(*acc),
                                        i <= 7,
                                        ids_ok(old(ret)@, ret@, nobj@),
                                    decreases 7 - i,
                                {
                                    if s.get(i) && offset <= usize::MAX - i {
                                        match find_child(&acc.map.children, c) {
                                            Some(k) => {
                                                let child = &acc.map.children[k].1;
                                                proof {
                                                    assert(node_wf(
                                                        acc.map.children@[k as int].1,
                                                        clen,
                                                        nobj@,
                                                    ));
                                                    assert(*self == Node::NAcc(*acc));
                                                    assert(self->NAcc_0 == *acc);
                                                    assert(decreases_to!(*self => self->NAcc_0));
                                                    assert(decreases_to!(*self => *acc));
                                                    assert(decreases_to!(*acc => acc.map));
                                                    assert(decreases_to!(
                                                        acc.map => acc.map.children
                                                    ));
                                                    assert(decreases_to!(
                                                        acc.map.children => acc.map.children[k as int]
                                                    ));
                                                    assert(decreases_to!(
                                                        acc.map.children[k as int] => acc.map.children[k as int].1
                                                    ));
                                                }
                                                let ghost pre = ret@;
                                                child.get_offset(
                                                    context,
                                                    a,
                                                    comp,
                                                    logic,
                                                    ret,
                                                    offset + i,
                                                    nobj,
                                                );
                                                proof {
                                                    lemma_ids_ok_trans(
                                                        old(ret)@,
                                                        pre,
                                                        ret@,
                                                        nobj@,
                                                    );
                                                }
                                            },
                                            None => {
                                            },
                                        }
                                    }
                                    i = i + 1;
                                }
                                t = t + 1;
                            }
                        }
                        b = b + 1;
                    }
                }
            },
            Node::NSlice(sl) => {
                proof {
                    assert(sl.start <= sl.end <= clen);
                    assert(node_wf(*sl.exit, clen, nobj@));
                }
                slice_get_offset(sl, context, a, comp, logic, ret, offset, 0, nobj);
            },
        }
    }
}

/// Adds only the leaf ids of an interior node.
fn nmap_emit_leaves(m: &NMap, ret: &mut Vec<usize>, clen: Ghost<int>, nobj: Ghost<int>)
    requires
        nmap_wf(*m, clen@, nobj@),
    ensures
        ids_ok(old(ret)@, final(ret)@, nobj@),
{
    let mut j: usize = 0;
    while j < m.leaves.len()
        invariant
            nmap_wf(*m, clen@, nobj@),
            j <= m.leaves@.len(),
            ids_ok(old(ret)@, ret@, nobj@),
        decreases m.leaves@.len() - j,
    {
        let ghost pre = ret@;
        ret.push(m.leaves[j]);
        proof {
            lemma_ids_ok_push(old(ret)@, pre, ret@, nobj@);
        }
        j = j + 1;
    }
}

/// Walks every child of an interior node by its index set at `offset`.
fn nmap_get_offset_children(
    m: &NMap,
    context: &PinIn,
    a: &mut Accelerator,
    comp: &Compressor,
    logic: SearcherLogic,
    ret: &mut Vec<usize>,
    offset: usize,
    nobj: Ghost<int>,
)
    requires
        context.wf(),
        comp.wf(),
        old(a).strs_wf(),
        old(a).cache_wf(context.pinyin_by_id()),
        nmap_wf(*m, comp.chars_view().len() as int, nobj@),
    ensures
        final(a).strs_wf(),
        final(a).cache_wf(context.pinyin_by_id()),
        final(a).query() == old(a).query(),
        ids_ok(old(ret)@, final(ret)@, nobj@),
    decreases *m, 0int, 0int,
{
    let ghost clen = comp.chars_view().len() as int;
    let mut k: usize = 0;
    while k < m.children.len()
        invariant
            context.wf(),
            comp.wf(),
            clen == comp.chars_view().len(),
            a.strs_wf(),
            a.cache_wf(context.pinyin_by_id()),
            a.query() == old(a).query(),
            nmap_wf(*m, clen, nobj@),
            k <= m.children@.len(),
            ids_ok(old(ret)@, ret@, nobj@),
        decreases m.children@.len() - k,
    {
        let ch = m.children[k].0;
        let s = a.get(context, ch, offset);
        let mut i: usize = 0;
        while i < 7
            invariant
                context.wf(),
                comp.wf(),
                clen == comp.chars_view().len(),
                a.strs_wf(),
                a.cache_wf(context.pinyin_by_id()),
                a.query() == old(a).query(),
                nmap_wf(*m, clen, nobj@),
                k < m.children@.len(),
                i <= 7,
                ids_ok(old(ret)@, ret@, nobj@),
            decreases 7 - i,
        {
            if s.get(i) && offset <= usize::MAX - i {
                let child = &m.children[k].1;
                proof {
                    assert(node_wf(m.children@[k as int].1, clen, nobj@));
                }
                let ghost pre = ret@;
                child.get_offset(context, a, comp, logic, ret, offset + i, nobj);
                proof {
                    lemma_ids_ok_trans(old(ret)@, pre, ret@, nobj@);
                }
            }
            i = i + 1;
        }
        k = k + 1;
    }
}

/// Walks a path-compressed slice: each slice character consumes members
/// of its index set; when the slice is exhausted the walk continues in the
/// exit node, and a query exhausted mid-slice emits the whole subtree
/// unless an exact match was demanded.
fn slice_get_offset(
    sl: &NSlice,
    context: &PinIn,
    a: &mut Accelerator,
    comp: &Compressor,
    logic: SearcherLogic,
    ret: &mut Vec<usize>,
    offset: usize,
    pos: usize,
    nobj: Ghost<int>,
)
    requires
        context.wf(),
        comp.wf(),
        old(a).strs_wf(),
        old(a).cache_wf(context.pinyin_by_id()),
        sl.start <= sl.end <= comp.chars_view().len(),
        node_wf(*sl.exit, comp.chars_view().len() as int, nobj@),
        pos <= sl.end - sl.start,
    ensures
        final(a).strs_wf(),
        final(a).cache_wf(context.pinyin_by_id()),
        final(a).query() == old(a).query(),
        ids_ok(old(ret)@, final(ret)@, nobj@),
    decreases *sl, 0int, sl.end - sl.start - pos,
{
    let ghost clen = comp.chars_view().len() as int;
    if sl.start + pos == sl.end {
        sl.exit.get_offset(context, a, comp, logic, ret, offset, nobj);
    } else if offset == a.query_len() {
        if !(logic == SearcherLogic::Equal) {
            sl.exit.get(ret, Ghost(clen), nobj);
        }
    } else {
        let ch = comp.at(sl.start + pos);
        let s = a.get(context, ch, offset);
        let mut i: usize = 0;
        while i < 7
            invariant
                context.wf(),
                comp.wf(),
                clen == comp.chars_view().len(),
                a.strs_wf(),
                a.cache_wf(context.pinyin_by_id()),
                a.query() == old(a).query(),
                sl.start <= sl.end <= clen,
                node_wf(*sl.exit, clen, nobj@),
                pos < sl.end - sl.start,
                i <= 7,
                ids_ok(old(ret)@, ret@, nobj@),
            decreases 7 - i,
        {
            if s.get(i) && offset <= usize::MAX - i {
                let ghost pre = ret@;
                slice_get_offset(sl, context, a, comp, logic, ret, offset + i, pos + 1, nobj);
                proof {
                    lemma_ids_ok_trans(old(ret)@, pre, ret@, nobj@);
                }
            }
            i = i + 1;
        }
    }
}


/// Whether `v` holds `x`.
fn usize_member(v: &Vec<usize>, x: usize) -> (r: bool)
    ensures
        r == v@.contains(x),
{
    let mut i: usize = 0;
    while i < v.len()
        invariant
            i <= v@.len(),
            forall|j: int| 0 <= j < i ==> v@[j] != x,
        decreases v@.len() - i,
    {
        if v[i] == x {
            return true;
        }
        i = i + 1;
    }
    false
}

/// Copies a vector of word values.
fn copy_usizes(v: &Vec<usize>) -> (r: Vec<usize>)
    ensures
        r@ == v@,
{
    let mut r: Vec<usize> = Vec::new();
    let mut i: usize = 0;
    while i < v.len()
        invariant
            i <= v@.len(),
            r@ == v@.subrange(0, i as int),
        decreases v@.len() - i,
    {
        r.push(v[i]);
        proof {
            assert(r@ =~= v@.subrange(0, i + 1));
        }
        i = i + 1;
    }
    proof {
        assert(r@ =~= v@);
    }
    r
}

/// Rebuilds a subtree, refreshing the phoneme index of every accelerated
/// node from the current context.
fn node_reload(n: &Node, context: &PinIn, clen: Ghost<int>, nobj: Ghost<int>) -> (r: Node)
    requires
        context.wf(),
        node_wf(*n, clen@, nobj@),
    ensures
        node_wf(r, clen@, nobj@),
        node_id_bag(r) == node_id_bag(*n),
        indexes_fresh(r, context.dict()),
    decreases *n,
{
    proof {
        reveal_with_fuel(node_wf, 3);
        reveal_with_fuel(nmap_wf, 3);
        reveal_with_fuel(indexes_fresh, 3);
        reveal_with_fuel(children_fresh, 3);
    }
    match n {
        Node::NDense(d) => {
            let r2 = Node::NDense(NDense { data: copy_usizes(&d.data) });
            proof {
                assert(node_wf(r2, clen@, nobj@));
                assert(indexes_fresh(r2, context.dict()));
            }
            r2
        },
        Node::NMap(m) => {
            let m2 = map_reload_children(m, context, clen, nobj);
            let r2 = Node::NMap(m2);
            proof {
                assert(node_wf(r2, clen@, nobj@));
                assert(indexes_fresh(r2, context.dict()));
            }
            r2
        },
        Node::NAcc(acc) => {
            let m2 = map_reload_children(&acc.map, context, clen, nobj);
            let mut index: Vec<(Phoneme, Vec<char>)> = Vec::new();
            acc_reload(&mut index, context, &m2.children);
            let r2 = Node::NAcc(NAcc { map: m2, index });
            proof {
                assert(node_wf(r2, clen@, nobj@));
                assert(node_id_bag(r2) == node_id_bag(*n));
                assert(indexes_fresh(r2, context.dict()));
            }
            r2
        },
        Node::NSlice(sl) => {
            proof {
                assert(sl.start <= sl.end <= clen@);
                assert(node_wf(*sl.exit, clen@, nobj@));
            }
            let e2 = node_reload(&sl.exit, context, clen, nobj);
            let r2 = Node::NSlice(
                NSlice { exit: Box::new(e2), start: sl.start, end: sl.end },
            );
            proof {
                assert(node_wf(r2, clen@, nobj@));
                assert(node_id_bag(r2) == node_id_bag(*n));
                assert(indexes_fresh(r2, context.dict()));
            }
            r2
        },
    }
}

/// Rebuilds an interior node's children and leaves.
fn map_reload_children(m: &NMap, context: &PinIn, clen: Ghost<int>, nobj: Ghost<int>) -> (r: NMap)
    requires
        context.wf(),
        nmap_wf(*m, clen@, nobj@),
    ensures
        nmap_wf(r, clen@, nobj@),
        leaf_id_bag(r.leaves@).add(children_id_bag(r.children@)) == leaf_id_bag(m.leaves@).add(
            children_id_bag(m.children@),
        ),
        children_fresh(r.children@, context.dict()),
    decreases *m, 0int,
{
    proof {
        reveal_with_fuel(node_wf, 3);
        reveal_with_fuel(nmap_wf, 3);
    }
    let mut out: Vec<(char, Node)> = Vec::new();
    let mut k: usize = 0;
    proof {
        assert(m.children@.take(0) =~= Seq::<(char, Node)>::empty());
        assert(children_id_bag(out@) == children_id_bag(m.children@.take(0)));
    }
    while k < m.children.len()
        invariant
            context.wf(),
            nmap_wf(*m, clen@, nobj@),
            k <= m.children@.len(),
            forall|t: int| 0 <= t < out@.len() ==> node_wf((#[trigger] out@[t]).1, clen@, nobj@),
            children_id_bag(out@) == children_id_bag(m.children@.take(k as int)),
            forall|t: int|
                0 <= t < out@.len() ==> indexes_fresh((#[trigger] out@[t]).1, context.dict()),
        decreases m.children@.len() - k,
    {
        let child = &m.children[k].1;
        proof {
            assert(node_wf(m.children@[k as int].1, clen@, nobj@));
            assert(decreases_to!(*m => m.children));
            assert(decreases_to!(m.children => m.children[k as int]));
            assert(decreases_to!(m.children[k as int] => m.children[k as int].1));
        }
        let ch2 = node_reload(child, context, clen, nobj);
        let ghost preout = out@;
        out.push((m.children[k].0, ch2));
        proof {
            assert(out@.drop_last() =~= preout);
            assert(out@.last().1 == ch2);
            assert(children_id_bag(out@) == children_id_bag(preout).add(node_id_bag(ch2)));
            assert(m.children@.take(k + 1).drop_last() =~= m.children@.take(k as int));
            assert(m.children@.take(k + 1).last() == m.children@[k as int]);
            assert(children_id_bag(m.children@.take(k + 1)) == children_id_bag(
                m.children@.take(k as int),
            ).add(node_id_bag(m.children@[k as int].1)));
            assert forall|t: int| 0 <= t < out@.len() implies node_wf(
                (#[trigger] out@[t]).1,
                clen@,
                nobj@,
            ) by {
                if t < preout.len() {
                    assert(out@[t] == preout[t]);
                }
            }
            assert forall|t: int| 0 <= t < out@.len() implies indexes_fresh(
                (#[trigger] out@[t]).1,
                context.dict(),
            ) by {
                if t < preout.len() {
                    assert(out@[t] == preout[t]);
                } else {
                    assert(out@[t].1 == ch2);
                    assert(indexes_fresh(ch2, context.dict()));
                }
            }
        }
        k = k + 1;
    }
    let r = NMap { children: out, leaves: copy_usizes(&m.leaves) };
    proof {
        assert forall|t: int| 0 <= t < r.leaves@.len() implies (#[trigger] r.leaves@[t])
            < nobj@ by {
            assert(m.leaves@[t] < nobj@);
        }
        assert(nmap_wf(r, clen@, nobj@));
        assert(m.children@.take(m.children@.len() as int) =~= m.children@);
        assert(r.leaves@ == m.leaves@);
        assert(leaf_id_bag(r.leaves@).add(children_id_bag(r.children@)) == leaf_id_bag(
            m.leaves@,
        ).add(children_id_bag(m.children@)));
    }
    r
}

/// The adaptive trie searcher: entries live in the arena, objects in a
/// dense store, and the root node changes shape as the corpus grows.
pub struct TreeSearcher<T> {
    pub root: Node,
    pub objects: Vec<T>,
    pub accelerator: Accelerator,
    pub compressor: Compressor,
    pub logic: SearcherLogic,
}

impl<T> TreeSearcher<T> {
    pub open spec fn wf(self) -> bool {
        &&& self.compressor.wf()
        &&& self.accelerator.strs_wf()
        &&& node_wf(
            self.root,
            self.compressor.chars_view().len() as int,
            self.objects@.len() as int,
        )
    }

    /// The cache must validate against the context used for searching.
    pub open spec fn cache_ok(self, ctx: PinIn) -> bool {
        self.accelerator.cache_wf(ctx.pinyin_by_id())
    }

    pub fn new(logic: SearcherLogic, accelerator: Accelerator) -> (r: TreeSearcher<T>)
        requires
            accelerator.strs_wf(),
        ensures
            r.wf(),
            r.logic == logic,
            r.objects@ == Seq::<T>::empty(),
            forall|ctx: PinIn|
                accelerator.cache_wf(ctx.pinyin_by_id()) ==> #[trigger] r.cache_ok(ctx),
    {
        let r = TreeSearcher {
            root: Node::NDense(NDense::new()),
            objects: Vec::new(),
            accelerator,
            compressor: Compressor::new(),
            logic,
        };
        proof {
            reveal_with_fuel(node_wf, 2);
            assert(node_wf(
                r.root,
                r.compressor.chars_view().len() as int,
                r.objects@.len() as int,
            ));
        }
        r
    }

    /// Adds an entry. Under containment logic every suffix of the name is
    /// inserted, so that a match can start anywhere inside it.
    pub fn insert(&mut self, context: &PinIn, name: &str, id: T)
        requires
            old(self).wf(),
            context.wf(),
        ensures
            final(self).wf(),
            final(self).logic == old(self).logic,
            final(self).objects@ == old(self).objects@.push(id),
            final(self).compressor.chars_view() == old(self).compressor.chars_view() + name@
                + seq!['\0'],
            final(self).compressor.offsets_view() == old(self).compressor.offsets_view().push(
                old(self).compressor.chars_view().len() as usize,
            ),
            forall|x: int| #[trigger]
                node_id_bag(final(self).root).count(x) == node_id_bag(old(self).root).count(x) + (
                if x == old(self).objects@.len() {
                    (if old(self).logic == SearcherLogic::Contain {
                        name@.len()
                    } else {
                        1nat
                    })
                } else {
                    0nat
                }),
            forall|ctx: PinIn|
                old(self).cache_ok(ctx) ==> #[trigger] final(self).cache_ok(ctx),
    {
        let ghost oldclen = self.compressor.chars_view().len() as int;
        let pos = self.compressor.push(name);
        let ghost clen = self.compressor.chars_view().len() as int;
        let cs = crate::unicode_utils::chars_of(name);
        let end: usize = if self.logic == SearcherLogic::Contain {
            cs.len()
        } else {
            1
        };
        let nid = self.objects.len();
        let ghost nobj = self.objects@.len() + 1 as int;
        proof {
            lemma_node_wf_mono(self.root, oldclen, self.objects@.len() as int, clen, nobj);
            assert(cs@ == name@);
        }
        let cl = self.compressor.len_of();
        assert(clen <= usize::MAX);
        let mut i: usize = 0;
        proof {
            broadcast use vstd::multiset::group_multiset_axioms;

        }
        while i < end
            invariant
                context.wf(),
                self.compressor.wf(),
                self.compressor.chars_view() == old(self).compressor.chars_view() + name@
                    + seq!['\0'],
                self.compressor.offsets_view() == old(self).compressor.offsets_view().push(
                    old(self).compressor.chars_view().len() as usize,
                ),
                clen == self.compressor.chars_view().len(),
                clen <= usize::MAX,
                self.accelerator == old(self).accelerator,
                self.objects@ == old(self).objects@,
                self.logic == old(self).logic,
                nid == self.objects@.len(),
                nobj == self.objects@.len() + 1,
                node_wf(self.root, clen, nobj),
                i <= end,
                pos + end <= clen || end == 1,
                pos + 1 <= clen,
                end == 1 || pos + end <= clen,
                forall|x: int| #[trigger]
                    node_id_bag(self.root).count(x) == node_id_bag(old(self).root).count(x) + (
                    if x == nid {
                        i as nat
                    } else {
                        0nat
                    }),
            decreases end - i,
        {
            proof {
                assert(pos + i < clen);
            }
            let mut tmp = Node::NDense(NDense::new());
            core::mem::swap(&mut self.root, &mut tmp);
            let ghost prebag = node_id_bag(tmp);
            tmp = tmp.put(context, &self.accelerator, &self.compressor, pos + i, nid, Ghost(nobj));
            core::mem::swap(&mut self.root, &mut tmp);
            proof {
                broadcast use vstd::multiset::group_multiset_axioms;

                assert(node_id_bag(self.root) == prebag.insert(nid as int));
            }
            i = i + 1;
        }
        proof {
            assert(end == (if self.logic == SearcherLogic::Contain {
                name@.len()
            } else {
                1nat
            }));
        }
        self.objects.push(id);
    }

    /// Every matching id found from the root, deduplicated, mapped to its
    /// object; order within the result is not guaranteed. While the root
    /// is still one dense bucket — any corpus below the promotion
    /// threshold — the result is exactly the objects whose entry passes
    /// the logic's test for the query.
    pub fn search(&mut self, context: &PinIn, s: &str) -> (r: Vec<&T>)
        requires
            old(self).wf(),
            old(self).cache_ok(*context),
            context.wf(),
        ensures
            final(self).wf(),
            final(self).cache_ok(*context),
            final(self).objects@ == old(self).objects@,
            final(self).logic == old(self).logic,
            final(self).compressor == old(self).compressor,
            final(self).root == old(self).root,
            forall|t: int|
                0 <= t < r@.len() ==> old(self).objects@.contains(*#[trigger] r@[t]),
            old(self).root matches Node::NDense(d) ==> !(old(self).logic == SearcherLogic::Equal
                && s@.len() == 0) ==> ({
                let hits = dense_hits(
                    d.data@,
                    context.dict(),
                    s@,
                    old(self).compressor,
                    old(self).logic,
                    0,
                    d.data@.len() as int / 2,
                );
                &&& (r@.len() == 0 <==> hits.len() == 0)
                &&& r@.len() <= hits.len()
            }),
    {
        self.accelerator.search(s);
        let ghost nobj = self.objects@.len() as int;
        let ghost exact = self.root matches Node::NDense(_) && !(self.logic
            == SearcherLogic::Equal && s@.len() == 0);
        let ghost hits = (match &self.root {
            Node::NDense(d) => dense_hits(
                d.data@,
                context.dict(),
                s@,
                self.compressor,
                self.logic,
                0,
                d.data@.len() as int / 2,
            ),
            _ => Multiset::empty(),
        });
        let mut ids: Vec<usize> = Vec::new();
        self.root.get_offset(
            context,
            &mut self.accelerator,
            &self.compressor,
            self.logic,
            &mut ids,
            0,
            Ghost(nobj),
        );
        proof {
            assert(ids_ok(Seq::<usize>::empty(), ids@, nobj));
            if exact {
                assert(ids@.skip(0) =~= ids@);
                assert(leaf_id_bag(ids@) == hits);
            }
        }
        let mut uniq: Vec<usize> = Vec::new();
        let mut j: usize = 0;
        while j < ids.len()
            invariant
                self.objects@ == old(self).objects@,
                forall|t: int| 0 <= t < ids@.len() ==> (#[trigger] ids@[t]) < nobj,
                forall|t: int| 0 <= t < uniq@.len() ==> (#[trigger] uniq@[t]) < nobj,
                j <= ids@.len(),
                uniq@.len() <= j,
                forall|v: usize| uniq@.contains(v) ==> ids@.contains(v),
                forall|t: int| 0 <= t < j ==> uniq@.contains(#[trigger] ids@[t]),
            decreases ids@.len() - j,
        {
            let x = ids[j];
            if !usize_member(&uniq, x) {
                let ghost pre = uniq@;
                uniq.push(x);
                proof {
                    assert forall|t: int| 0 <= t < uniq@.len() implies (#[trigger] uniq@[t])
                        < nobj by {
                        if t < pre.len() {
                            assert(uniq@[t] == pre[t]);
                        }
                    }
                    assert forall|v: usize| uniq@.contains(v) implies ids@.contains(v) by {
                        if v != x {
                            assert(pre.contains(v));
                        } else {
                            assert(ids@[j as int] == x);
                        }
                    }
                    assert forall|t: int| 0 <= t < j + 1 implies uniq@.contains(
                        #[trigger] ids@[t],
                    ) by {
                        if t < j {
                            assert(pre.contains(ids@[t]));
                            let u = choose|u: int| 0 <= u < pre.len() && pre[u] == ids@[t];
                            assert(uniq@[u] == pre[u]);
                        } else {
                            assert(uniq@.last() == x);
                        }
                    }
                }
            } else {
                proof {
                    assert forall|t: int| 0 <= t < j + 1 implies uniq@.contains(
                        #[trigger] ids@[t],
                    ) by {}
                }
            }
            j = j + 1;
        }
        let mut out: Vec<&T> = Vec::new();
        let mut k: usize = 0;
        while k < uniq.len()
            invariant
                self.objects@ == old(self).objects@,
                nobj == self.objects@.len(),
                forall|t: int| 0 <= t < uniq@.len() ==> (#[trigger] uniq@[t]) < nobj,
                k <= uniq@.len(),
                out@.len() == k,
                forall|t: int|
                    0 <= t < k ==> *#[trigger] out@[t] == old(self).objects@[uniq@[t] as int],
            decreases uniq@.len() - k,
        {
            let idx = uniq[k];
            let ghost pre = out@;
            out.push(&self.objects[idx]);
            proof {
                assert forall|t: int| 0 <= t < out@.len() implies *#[trigger] out@[t] == old(
                    self,
                ).objects@[uniq@[t] as int] by {
                    if t < pre.len() {
                        assert(out@[t] == pre[t]);
                    }
                }
            }
            k = k + 1;
        }
        proof {
            assert forall|t: int| 0 <= t < out@.len() implies old(self).objects@.contains(
                *#[trigger] out@[t],
            ) by {
                assert(*out@[t] == old(self).objects@[uniq@[t] as int]);
            }
            if exact {
                lemma_leaf_bag_len(ids@);
                assert(hits.len() == ids@.len());
                assert(out@.len() <= ids@.len());
                if out@.len() == 0 {
                    assert(uniq@.len() == 0);
                    if ids@.len() > 0 {
                        assert(uniq@.contains(ids@[0]));
                        assert(false);
                    }
                    assert(hits.len() == 0);
                }
                if hits.len() == 0 {
                    assert(ids@.len() == 0);
                    assert(uniq@.len() == 0);
                }
            }
        }
        out
    }

    /// Rebuilds every accelerated node's phoneme index and clears the
    /// accelerator's cache: required after the context's fuzzy settings or
    /// keyboard change.
    pub fn reset(&mut self, context: &PinIn)
        requires
            old(self).wf(),
            context.wf(),
        ensures
            final(self).wf(),
            final(self).objects@ == old(self).objects@,
            final(self).logic == old(self).logic,
            final(self).compressor == old(self).compressor,
            node_id_bag(final(self).root) == node_id_bag(old(self).root),
            indexes_fresh(final(self).root, context.dict()),
            forall|ctx: PinIn| #[trigger] final(self).cache_ok(ctx),
    {
        let ghost clen = self.compressor.chars_view().len() as int;
        let ghost nobj = self.objects@.len() as int;
        let newroot = node_reload(&self.root, context, Ghost(clen), Ghost(nobj));
        self.root = newroot;
        self.accelerator.reset();
    }
}

} // verus!
