//! Compact index sets, their memoisation storage, and the character arena.

use vstd::prelude::*;

verus! {

/// Tests bit `i` of a 32-bit value.
pub open spec fn bit32(v: i32, i: int) -> bool {
    v & (1i32 << (i as u32)) != 0
}

/// A subset of the possible consumption counts after matching one unit,
/// stored in the low bits of a signed 32-bit word. The value -1 is a
/// distinguished "not yet computed" sentinel used by `IndexSetStorage`.
/// Only bits 0 to 6 are visited by `for_each` and `traverse`.
#[derive(Copy, Clone, PartialEq, Eq, Structural, Debug)]
pub struct IndexSet {
    value: i32,
}

impl IndexSet {
    /// The raw word backing the set.
    pub closed spec fn raw(self) -> i32 {
        self.value
    }

    /// Membership as observed by iteration: only bits 0 to 6 count.
    pub open spec fn has(self, i: int) -> bool {
        0 <= i < 7 && bit32(self.raw(), i)
    }

    pub fn new(value: i32) -> (r: Self)
        ensures
            r.raw() == value,
    {
        IndexSet { value }
    }

    /// The set holding only "matched zero characters".
    pub fn zero() -> (r: Self)
        ensures
            r.raw() == 1,
    {
        IndexSet { value: 1 }
    }

    /// The set holding only "matched one character".
    pub fn one() -> (r: Self)
        ensures
            r.raw() == 2,
    {
        IndexSet { value: 2 }
    }

    /// The empty set.
    pub fn none() -> (r: Self)
        ensures
            r.raw() == 0,
    {
        IndexSet { value: 0 }
    }

    /// The raw word, as a value.
    pub fn raw_value(&self) -> (r: i32)
        ensures
            r == self.raw(),
    {
        self.value
    }

    /// The "not yet computed" sentinel.
    pub fn null() -> (r: Self)
        ensures
            r.raw() == -1,
    {
        IndexSet { value: -1 }
    }

    pub fn set(&mut self, index: usize)
        requires
            index < 32,
        ensures
            final(self).raw() == old(self).raw() | (1i32 << (index as u32)),
            forall|j: int| 0 <= j < 32 ==> #[trigger] bit32(final(self).raw(), j) == (bit32(
                old(self).raw(),
                j,
            ) || j == index),
    {
        proof {
            lemma_set_bits(self.value, index as u32);
        }
        self.value = self.value | (1i32 << index as u32);
    }

    pub fn get(&self, index: usize) -> (r: bool)
        requires
            index < 32,
        ensures
            r == bit32(self.raw(), index as int),
    {
        self.value & (1i32 << index as u32) != 0
    }

    /// Advances every member by `i` places; bits pushed past the top word
    /// boundary are discarded.
    pub fn offset(&mut self, i: u32)
        requires
            i < 32,
        ensures
            final(self).raw() == old(self).raw() << i,
            forall|j: int| 0 <= j < 32 ==> #[trigger] bit32(final(self).raw(), j) == (i <= j && bit32(
                old(self).raw(),
                j - i,
            )),
    {
        proof {
            lemma_shift_bits(self.value, i);
        }
        self.value = self.value << i;
    }

    /// Union, except that a set holding exactly "matched zero" is replaced
    /// by the argument outright.
    pub fn merge(&mut self, s: Self)
        ensures
            final(self).raw() == merge_raw(old(self).raw(), s.raw()),
            forall|j: int| 0 <= j < 32 ==> #[trigger] bit32(final(self).raw(), j) == (if old(self).raw() == 1 {
                bit32(s.raw(), j)
            } else {
                bit32(old(self).raw(), j) || bit32(s.raw(), j)
            }),
    {
        proof {
            lemma_or_bits(self.value, s.value);
        }
        if self.value == 1 {
            self.value = s.value;
        } else {
            self.value = self.value | s.value;
        }
    }

    /// Calls `c` on each member, in ascending order.
    pub fn for_each<F: Fn(i32)>(&self, c: F)
        requires
            forall|i: i32| self.has(i as int) ==> call_requires(c, (i,)),
        ensures
            forall|i: i32| self.has(i as int) ==> call_ensures(c, (i,), ()),
    {
        let mut i: usize = 0;
        while i < 7
            invariant
                i <= 7,
                forall|j: i32| self.has(j as int) ==> call_requires(c, (j,)),
                forall|j: i32| 0 <= j < i && self.has(j as int) ==> call_ensures(c, (j,), ()),
            decreases 7 - i,
        {
            if self.get(i) {
                assert(self.has(i as int));
                c(i as i32);
            }
            i = i + 1;
        }
    }

    /// Calls `p` on each member in ascending order, stopping at the first
    /// call that returns true; the result says whether any did.
    pub fn traverse<F: Fn(i32) -> bool>(&self, p: F) -> (r: bool)
        requires
            forall|i: i32| self.has(i as int) ==> call_requires(p, (i,)),
        ensures
            r ==> exists|i: i32| self.has(i as int) && call_ensures(p, (i,), true),
            !r ==> forall|i: i32| self.has(i as int) ==> call_ensures(p, (i,), false),
    {
        let mut i: usize = 0;
        while i < 7
            invariant
                i <= 7,
                forall|j: i32| self.has(j as int) ==> call_requires(p, (j,)),
                forall|j: i32| 0 <= j < i && self.has(j as int) ==> call_ensures(p, (j,), false),
            decreases 7 - i,
        {
            if self.get(i) {
                assert(self.has(i as int));
                if p(i as i32) {
                    assert(self.has(i as i32 as int) && call_ensures(p, (i as i32,), true));
                    return true;
                }
            }
            i = i + 1;
        }
        false
    }
}

impl Default for IndexSet {
    /// The empty set.
    fn default() -> (r: Self)
        ensures
            r.raw() == 0,
    {
        IndexSet::none()
    }
}

impl Default for IndexSetStorage {
    /// A table with nothing recorded.
    fn default() -> (r: Self)
        ensures
            r.wf(),
            forall|i: int| r.stored(i) == -1,
    {
        IndexSetStorage::new()
    }
}

impl Default for Compressor {
    /// An empty arena.
    fn default() -> (r: Self)
        ensures
            r.wf(),
            r.chars_view() == Seq::<char>::empty(),
            r.offsets_view() == Seq::<usize>::empty(),
    {
        Compressor::new()
    }
}

/// What `merge` leaves in the raw word: a pure "matched zero" set is
/// replaced by the argument, anything else is bitwise union.
pub open spec fn merge_raw(a: i32, b: i32) -> i32 {
    if a == 1 {
        b
    } else {
        a | b
    }
}

/// No bit is set in an empty word, and a single-bit word holds exactly
/// its one position.
pub proof fn lemma_single_bit(n: u32, j: int)
    requires
        n < 32,
        0 <= j < 32,
    ensures
        bit32(1i32 << n, j) == (j == n),
        !bit32(0i32, j),
{
    let ju = j as u32;
    assert(((1i32 << n) & (1i32 << ju) != 0) == (ju == n)) by (bit_vector)
        requires
            n < 32 && ju < 32,
    ;
    assert((0i32 & (1i32 << ju) != 0) == false) by (bit_vector);
}

/// Every member that iteration can observe lies between 0 and 6.
pub proof fn lemma_members_bounded(s: IndexSet, i: int)
    requires
        s.has(i),
    ensures
        0 <= i <= 6,
{
}

proof fn lemma_set_bits(v: i32, i: u32)
    requires
        i < 32,
    ensures
        forall|j: int| 0 <= j < 32 ==> #[trigger] bit32(v | (1i32 << i), j) == (bit32(v, j) || j == i),
{
    assert forall|j: int| 0 <= j < 32 implies #[trigger] bit32(v | (1i32 << i), j) == (bit32(v, j) || j
        == i) by {
        let ju = j as u32;
        assert(((v | (1i32 << i)) & (1i32 << ju) != 0) == ((v & (1i32 << ju) != 0) || ju == i))
            by (bit_vector)
            requires
                i < 32 && ju < 32,
        ;
        assert((j == i) == (ju == i));
    }
}

pub proof fn lemma_or_bits(a: i32, b: i32)
    ensures
        forall|j: int| 0 <= j < 32 ==> #[trigger] bit32(a | b, j) == (bit32(a, j) || bit32(b, j)),
{
    assert forall|j: int| 0 <= j < 32 implies #[trigger] bit32(a | b, j) == (bit32(a, j) || bit32(b, j)) by {
        let ju = j as u32;
        assert(((a | b) & (1i32 << ju) != 0) == ((a & (1i32 << ju) != 0) || (b & (1i32 << ju)
            != 0))) by (bit_vector)
            requires
                ju < 32,
        ;
    }
}

pub proof fn lemma_shift_bits(v: i32, i: u32)
    requires
        i < 32,
    ensures
        forall|j: int| 0 <= j < 32 ==> #[trigger] bit32(v << i, j) == (i <= j && bit32(v, j - i)),
{
    assert forall|j: int| 0 <= j < 32 implies #[trigger] bit32(v << i, j) == (i <= j && bit32(v, j - i)) by {
        let ju = j as u32;
        if i <= j {
            let d = (j - i) as u32;
            assert(((v << i) & (1i32 << ju) != 0) == (v & (1i32 << d) != 0)) by (bit_vector)
                requires
                    i < 32 && ju < 32 && d == ju - i && i <= ju,
            ;
        } else {
            assert(((v << i) & (1i32 << ju) != 0) == false) by (bit_vector)
                requires
                    i < 32 && ju < 32 && ju < i,
            ;
        }
    }
}


/// Per-offset memoisation table for `IndexSet` results, indexed by pinyin
/// id. Entries are stored as the raw word plus one, so that zero encodes
/// "absent"; absent entries read back as the null sentinel.
pub struct IndexSetStorage {
    data: Vec<i64>,
}

impl IndexSetStorage {
    /// The raw word recorded at `i`, or -1 where nothing was recorded.
    pub closed spec fn stored(self, i: int) -> i32 {
        if 0 <= i < self.data@.len() && self.data@[i] != 0 {
            (self.data@[i] - 1) as i32
        } else {
            -1i32
        }
    }

    /// Every entry is a 32-bit word plus one.
    pub closed spec fn wf(self) -> bool {
        forall|i: int| 0 <= i < self.data@.len() ==> i32::MIN + 1 <= #[trigger] self.data@[i]
            <= i32::MAX as i64 + 1
    }

    pub fn new() -> (r: Self)
        ensures
            r.wf(),
            forall|i: int| r.stored(i) == -1,
    {
        let mut data: Vec<i64> = Vec::new();
        let mut i: usize = 0;
        while i < 16
            invariant
                i <= 16,
                data@.len() == i,
                forall|j: int| 0 <= j < i ==> data@[j] == 0,
            decreases 16 - i,
        {
            data.push(0);
            i = i + 1;
        }
        IndexSetStorage { data }
    }

    /// Records `set` under `index`, growing the table to the next power of
    /// two when the index lies beyond it. Indices in the top half of the
    /// address space are never recorded; such an entry stays absent.
    pub fn set(&mut self, set: IndexSet, index: usize)
        requires
            old(self).wf(),
        ensures
            final(self).wf(),
            index <= usize::MAX / 2 ==> final(self).stored(index as int) == set.raw(),
            index > usize::MAX / 2 ==> final(self).stored(index as int) == old(self).stored(
                index as int,
            ),
            forall|j: int| j != index ==> final(self).stored(j) == old(self).stored(j),
    {
        if index > usize::MAX / 2 {
            return;
        }
        if index >= self.data.len() {
            let mut newlen = self.data.len();
            if newlen == 0 {
                newlen = 1;
            }
            while newlen <= index
                invariant
                    1 <= newlen,
                    index <= usize::MAX / 2,
                decreases 2 * index - newlen,
            {
                newlen = newlen * 2;
            }
            let ghost olddata = self.data@;
            while self.data.len() < newlen
                invariant
                    olddata.len() <= self.data@.len(),
                    self.data@.subrange(0, olddata.len() as int) == olddata,
                    forall|j: int| olddata.len() <= j < self.data@.len() ==> self.data@[j] == 0,
                decreases newlen - self.data.len(),
            {
                self.data.push(0);
                proof {
                    assert(self.data@.subrange(0, olddata.len() as int) =~= olddata);
                }
            }
        }
        let ghost pre = self.data@;
        let v: i64 = set.value as i64 + 1;
        self.data.set(index, v);
        proof {
            assert forall|i: int| 0 <= i < self.data@.len() implies i32::MIN + 1
                <= #[trigger] self.data@[i] <= i32::MAX as i64 + 1 by {
                if i != index {
                    assert(self.data@[i] == pre[i]);
                    if i < old(self).data@.len() {
                        assert(pre[i] == old(self).data@.subrange(0, old(self).data@.len() as int)[i]);
                    }
                }
            }
            assert forall|j: int| j != index implies self.stored(j) == old(self).stored(j) by {
                if 0 <= j < old(self).data@.len() {
                    assert(pre[j] == old(self).data@.subrange(0, old(self).data@.len() as int)[j]);
                }
            }
        }
    }

    /// The set recorded under `index`, or the null sentinel where nothing
    /// was.
    pub fn get(&self, index: usize) -> (r: IndexSet)
        requires
            self.wf(),
        ensures
            r.raw() == self.stored(index as int),
    {
        if index < self.data.len() {
            let v = self.data[index];
            if v != 0 {
                return IndexSet::new((v - 1) as i32);
            }
        }
        IndexSet::null()
    }
}

/// An arena of character sequences separated by NUL characters. Each pushed
/// string is laid out contiguously, terminated by '\0', and identified by
/// its starting offset; the terminator doubles as the end-of-source marker
/// when the arena serves as a character provider.
pub struct Compressor {
    chars: Vec<char>,
    offsets: Vec<usize>,
}

impl Compressor {
    /// The stored characters.
    pub closed spec fn chars_view(self) -> Seq<char> {
        self.chars@
    }

    /// The starting offsets of the pushed strings, in push order.
    pub closed spec fn offsets_view(self) -> Seq<usize> {
        self.offsets@
    }

    /// The arena ends with a terminator, and every recorded offset lies
    /// inside it.
    pub closed spec fn wf(self) -> bool {
        &&& self.chars@.len() > 0 ==> self.chars@.last() == '\0'
        &&& forall|i: int| 0 <= i < self.offsets@.len() ==> #[trigger] self.offsets@[i]
            < self.chars@.len()
    }

    pub fn new() -> (r: Self)
        ensures
            r.wf(),
            r.chars_view() == Seq::<char>::empty(),
            r.offsets_view() == Seq::<usize>::empty(),
    {
        Compressor { chars: Vec::new(), offsets: Vec::new() }
    }

    /// Appends `s` and its terminator to the arena and returns the offset
    /// where it begins.
    pub fn push(&mut self, s: &str) -> (r: usize)
        requires
            old(self).wf(),
        ensures
            final(self).wf(),
            r == old(self).chars_view().len(),
            final(self).chars_view() == old(self).chars_view() + s@ + seq!['\0'],
            final(self).offsets_view() == old(self).offsets_view().push(r),
    {
        let r = self.chars.len();
        self.offsets.push(r);
        let cs = crate::unicode_utils::chars_of(s);
        let mut i: usize = 0;
        while i < cs.len()
            invariant
                i <= cs@.len(),
                r == old(self).chars@.len(),
                self.offsets@ == old(self).offsets@.push(r as usize),
                self.chars@ == old(self).chars@ + cs@.subrange(0, i as int),
                cs@ == s@,
            decreases cs@.len() - i,
        {
            self.chars.push(cs[i]);
            proof {
                assert(self.chars@ =~= old(self).chars@ + cs@.subrange(0, i + 1));
            }
            i = i + 1;
        }
        self.chars.push('\0');
        proof {
            assert(self.chars@ =~= old(self).chars@ + s@ + seq!['\0']);
            assert forall|i: int| 0 <= i < self.offsets@.len() implies #[trigger] self.offsets@[i]
                < self.chars@.len() by {
                if i < old(self).offsets@.len() {
                    assert(self.offsets@[i] == old(self).offsets@[i]);
                }
            }
        }
        r
    }

    /// Whether `index` sits on a terminator: the end-of-source test of the
    /// provider interface. Positions outside the arena are not terminators.
    pub fn end(&self, index: usize) -> (r: bool)
        ensures
            r == (index < self.chars_view().len() && self.chars_view()[index as int] == '\0'),
    {
        index < self.chars.len() && self.chars[index] == '\0'
    }

    /// In a well-formed arena a non-NUL character is never the last one:
    /// the arena ends with a terminator.
    pub proof fn lemma_terminated(self, pos: int)
        requires
            self.wf(),
            0 <= pos < self.chars_view().len(),
            self.chars_view()[pos] != '\0',
        ensures
            pos + 1 < self.chars_view().len(),
    {
        assert(self.chars@.last() == '\0');
    }

    /// The number of entries pushed so far.
    pub fn offsets_len(&self) -> (r: usize)
        ensures
            r == self.offsets_view().len(),
    {
        self.offsets.len()
    }

    /// The starting offset of entry `i`.
    pub fn offset_at(&self, i: usize) -> (r: usize)
        requires
            i < self.offsets_view().len(),
        ensures
            r == self.offsets_view()[i as int],
    {
        self.offsets[i]
    }

    /// The length of the arena.
    pub fn len_of(&self) -> (r: usize)
        ensures
            r == self.chars_view().len(),
    {
        self.chars.len()
    }

    /// The character at `index`.
    pub fn at(&self, index: usize) -> (r: char)
        requires
            index < self.chars_view().len(),
        ensures
            r == self.chars_view()[index as int],
    {
        self.chars[index]
    }
}

} // verus!
