//! Growable trie of word-sized slots.
//!
//! The trie maps an index to a slot that holds one machine word. Segments
//! are arrays of `2^L` slots; a slot of an inner segment holds a reference to
//! a child segment, a slot of a leaf segment holds the caller's word. The
//! height grows when an index is first touched that the current height
//! cannot address: the old root becomes child 0 of the new root, so every
//! slot keeps its place.
use vstd::arithmetic::div_mod::{lemma_basic_div, lemma_div_denominator};
use vstd::arithmetic::power2::{
    lemma2_to64_rest, lemma_pow2_adds, lemma_pow2_pos, lemma_pow2_strictly_increases, pow2,
};
use vstd::bits::lemma_u64_shr_is_div;
use vstd::prelude::*;
use vstd::set_lib::{lemma_int_range, set_int_range};

verus! {

/// Logarithm of the segment size that [`GrowableArray::new`] uses.
pub const SEGMENT_LOGSIZE: u64 = 10;

/// Largest logarithm of the segment size that a trie accepts.
pub const MAX_LOGSIZE: u64 = 31;

/// The place of one slot: the position of its segment in the arena and the
/// slot's offset within that segment.
#[derive(Clone, Copy, Debug, PartialEq, Eq, Structural)]
pub struct Slot {
    pub segment: usize,
    pub offset: usize,
}

/// Where a segment stands in the tree.
pub ghost struct Label {
    /// Distance from the leaves, counted from 1.
    pub level: nat,
    /// The digits that lead from the root's level down to this segment.
    pub prefix: u64,
    /// Arena position of the segment above (meaningful below the root).
    pub parent: int,
    /// Offset of the slot in the parent that refers to this segment.
    pub digit: int,
}

/// Number of slots in a segment.
pub open spec fn fanout(logsize: u64) -> nat {
    (1u64 << logsize) as nat
}

/// Largest index that a trie of the given height can address.
pub open spec fn max_key(logsize: u64, height: u64) -> u64 {
    if height == 0 {
        0
    } else if logsize * height >= 64 {
        u64::MAX
    } else {
        u64::MAX >> ((64 - logsize * height) as u64)
    }
}

/// Whether a trie of the given height has a slot position for `index`.
pub open spec fn addresses(logsize: u64, height: u64, index: u64) -> bool {
    height >= 1 && index <= max_key(logsize, height)
}

/// The height that a trie of height `height` has once `index` was touched.
pub open spec fn grown_height(logsize: u64, height: u64, index: u64) -> u64
    decreases 64 - height,
{
    if height >= 64 || addresses(logsize, height, index) {
        height
    } else {
        grown_height(logsize, (height + 1) as u64, index)
    }
}

/// The digits of `index` above the lowest `level` digits.
pub open spec fn prefix_of(logsize: u64, index: u64, level: nat) -> u64 {
    if logsize * level >= 64 {
        0
    } else {
        index >> ((logsize * level) as u64)
    }
}

/// The mask that keeps the lowest digit of a word.
pub open spec fn digit_mask(logsize: u64) -> u64 {
    ((1u64 << logsize) - 1) as u64
}

/// The lowest digit of a word is below the number of slots of a segment.
proof fn lemma_digit_bound(x: u64, l: u64)
    by (bit_vector)
    requires
        1 <= l <= 31,
    ensures
        (x & (((1u64 << l) - 1) as u64)) < (1u64 << l),
        1 < (1u64 << l) <= 0x8000_0000,
{
}

/// Dropping digits one after the other is dropping them at once.
proof fn lemma_drop_twice(index: u64, sh: u64, l: u64)
    requires
        1 <= l <= 31,
        sh < 64,
    ensures
        sh + l < 64 ==> (index >> sh) >> l == index >> ((sh + l) as u64),
        sh + l >= 64 ==> (index >> sh) >> l == 0,
{
    let upper = index >> sh;
    lemma_u64_shr_is_div(index, sh);
    lemma_u64_shr_is_div(upper, l);
    lemma_pow2_pos(sh as nat);
    lemma_pow2_pos(l as nat);
    lemma_pow2_adds(sh as nat, l as nat);
    lemma_div_denominator(index as int, pow2(sh as nat) as int, pow2(l as nat) as int);
    if sh + l < 64 {
        lemma_u64_shr_is_div(index, (sh + l) as u64);
    } else {
        lemma2_to64_rest();
        if sh + l > 64 {
            lemma_pow2_strictly_increases(64, (sh + l) as nat);
        }
        lemma_basic_div(index as int, pow2((sh + l) as nat) as int);
    }
}

/// A word is determined by its lowest digit and the digits above it.
proof fn lemma_digits_determine(i: u64, j: u64, l: u64)
    by (bit_vector)
    requires
        1 <= l <= 31,
        i >> l == j >> l,
        (i & (((1u64 << l) - 1) as u64)) == (j & (((1u64 << l) - 1) as u64)),
    ensures
        i == j,
{
}

/// An index within the range of `n` bits has nothing above them.
proof fn lemma_within_range(index: u64, n: u64)
    by (bit_vector)
    requires
        1 <= n < 64,
    ensures
        index <= (u64::MAX >> ((64 - n) as u64)) <==> index >> n == 0,
{
}

/// Whether a trie of the given height, with segments of `2^logsize` slots,
/// has a place for `index`.
pub fn can_address(logsize: u64, height: u64, index: u64) -> (yes: bool)
    requires
        1 <= logsize <= MAX_LOGSIZE,
    ensures
        yes == addresses(logsize, height, index),
{
    if height == 0 {
        return false;
    }
    if height >= 64 {
        assert(logsize * height >= 64) by (nonlinear_arith)
            requires
                1 <= logsize,
                height >= 64,
        ;
        return index <= u64::MAX;
    }
    assert(logsize * height <= 31 * 64) by (nonlinear_arith)
        requires
            1 <= logsize <= 31,
            height <= 64,
    ;
    let bits: u64 = logsize * height;
    if bits >= 64 {
        index <= u64::MAX
    } else {
        assert(bits >= 1) by (nonlinear_arith)
            requires
                bits == logsize * height,
                1 <= logsize,
                1 <= height,
        ;
        index <= (u64::MAX >> (64 - bits))
    }
}

/// The offset, within its segment at the given level, of the slot on the
/// way to `index`: digit number `level - 1` of the index.
pub fn digit(logsize: u64, index: u64, level: u64) -> (d: usize)
    requires
        1 <= logsize <= MAX_LOGSIZE,
        level >= 1,
        (level - 1) * logsize < 64,
    ensures
        d == (index >> (((level - 1) * logsize) as u64)) & digit_mask(logsize),
        d < fanout(logsize),
{
    proof {
        lemma_digit_bound(index >> (((level - 1) * logsize) as u64), logsize);
    }
    let shift: u64 = (level - 1) * logsize;
    let mask: u64 = (1u64 << logsize) - 1;
    ((index >> shift) & mask) as usize
}

/// Growable trie of word-sized slots, addressed by a 64-bit index.
pub struct GrowableArray {
    /// Logarithm of the number of slots in a segment.
    logsize: u64,
    /// Every segment that was ever linked, by arena position.
    segments: Vec<Vec<usize>>,
    /// Arena position of the root segment plus one; zero while there is none.
    root: usize,
    /// Number of segment levels between the root and the leaves.
    height: u64,
    /// The place of each segment in the tree.
    labels: Ghost<Seq<Label>>,
}

impl GrowableArray {
    /// Number of segments in the arena.
    pub closed spec fn segment_count(&self) -> nat {
        self.segments@.len()
    }

    /// The logarithm of the segment size.
    pub closed spec fn spec_logsize(&self) -> u64 {
        self.logsize
    }

    /// The current height.
    pub closed spec fn spec_height(&self) -> u64 {
        self.height
    }

    /// The slot of the parent refers to the segment, and the labels agree.
    spec fn linked_up(&self, i: int) -> bool {
        let lab = self.labels@[i];
        &&& 0 <= lab.parent < self.segments@.len()
        &&& 0 <= lab.digit < fanout(self.logsize)
        &&& self.labels@[lab.parent].level == lab.level + 1
        &&& self.labels@[lab.parent].prefix == lab.prefix >> self.logsize
        &&& lab.digit == lab.prefix & (((1u64 << self.logsize) - 1) as u64)
        &&& self.segments@[lab.parent]@[lab.digit] == i + 1
    }

    /// A slot of an inner segment is empty or refers to the child that
    /// belongs at that digit.
    spec fn linked_down(&self, i: int, d: int) -> bool {
        let w = self.segments@[i]@[d];
        w != 0 ==> {
            &&& w - 1 < self.segments@.len()
            &&& self.labels@[w - 1].level + 1 == self.labels@[i].level
            &&& self.labels@[w - 1].prefix >> self.logsize == self.labels@[i].prefix
            &&& self.labels@[w - 1].prefix & (((1u64 << self.logsize) - 1) as u64) == d
        }
    }

    /// What holds of each segment of the arena.
    spec fn segment_ok(&self, i: int) -> bool {
        let lab = self.labels@[i];
        &&& self.segments@[i]@.len() == fanout(self.logsize)
        &&& 1 <= lab.level <= self.height
        &&& lab.level == self.height ==> i == self.root - 1
        &&& lab.level == 1 ==> lab.prefix <= u64::MAX >> self.logsize
        &&& lab.level < self.height ==> self.linked_up(i)
        &&& lab.level > 1 ==> forall|d: int|
            0 <= d < fanout(self.logsize) ==> #[trigger] self.linked_down(i, d)
    }

    /// Two segments stand at the same place of the tree.
    spec fn same_place(&self, i: int, j: int) -> bool {
        self.labels@[i].level == self.labels@[j].level && self.labels@[i].prefix
            == self.labels@[j].prefix
    }

    /// The trie's invariant: the arena is a tree of segments below the root,
    /// in which each place is taken by at most one segment.
    pub closed spec fn wf(&self) -> bool {
        &&& 1 <= self.logsize <= MAX_LOGSIZE
        &&& self.labels@.len() == self.segments@.len()
        &&& self.segments@.len() <= usize::MAX
        &&& (self.root == 0) == (self.height == 0)
        &&& (self.height == 0) == (self.segments@.len() == 0)
        &&& self.height <= 64
        &&& self.height >= 1 ==> {
            &&& self.root - 1 < self.segments@.len()
            &&& self.labels@[self.root - 1].level == self.height
            &&& self.labels@[self.root - 1].prefix == 0
            &&& (self.height - 1) * self.logsize < 64
        }
        &&& forall|i: int| 0 <= i < self.segments@.len() ==> #[trigger] self.segment_ok(i)
        &&& forall|i: int, j: int|
            0 <= i < self.segments@.len() && 0 <= j < self.segments@.len()
                && #[trigger] self.same_place(i, j) ==> i == j
    }

    /// Whether `i` is the arena position of the leaf segment that holds the
    /// slot of `index`.
    spec fn is_leaf_for(&self, i: int, index: u64) -> bool {
        &&& 0 <= i < self.segments@.len()
        &&& self.labels@[i].level == 1
        &&& self.labels@[i].prefix == index >> self.logsize
    }

    /// Whether the slot of `index` exists.
    pub closed spec fn has_slot(&self, index: u64) -> bool {
        exists|i: int| self.is_leaf_for(i, index)
    }

    /// The place of the slot of `index`, where that slot exists.
    pub closed spec fn slot_at(&self, index: u64) -> Slot {
        Slot {
            segment: (choose|i: int| self.is_leaf_for(i, index)) as usize,
            offset: (index & digit_mask(self.logsize)) as usize,
        }
    }

    /// Whether `slot` is the place of a leaf slot of this trie.
    pub closed spec fn is_slot(&self, slot: Slot) -> bool {
        &&& slot.segment < self.segments@.len()
        &&& self.labels@[slot.segment as int].level == 1
        &&& slot.offset < fanout(self.logsize)
    }

    /// The index whose slot stands at `slot`, where `slot` is a place of
    /// this trie.
    pub closed spec fn index_of(&self, slot: Slot) -> u64 {
        (self.labels@[slot.segment as int].prefix << self.logsize) | (slot.offset as u64)
    }

    /// The word held at `slot`.
    spec fn content(&self, slot: Slot) -> usize {
        self.segments@[slot.segment as int]@[slot.offset as int]
    }

    /// The trie as a map from the indices whose slot exists to the words
    /// they hold.
    pub closed spec fn view(&self) -> Map<u64, usize> {
        Map::new(|index: u64| self.has_slot(index), |index: u64| self.content(self.slot_at(index)))
    }

    /// The places of the trie and the indices of its view correspond one to
    /// one: `slot_at` and `index_of` undo each other.
    pub proof fn lemma_slot_of_index(&self, index: u64)
        requires
            self.wf(),
            self@.contains_key(index),
        ensures
            self.is_slot(self.slot_at(index)),
            self.index_of(self.slot_at(index)) == index,
    {
        let i = choose|i: int| self.is_leaf_for(i, index);
        self.lemma_slot_at(index, i);
        lemma_digit_bound(index, self.logsize);
        lemma_rejoin(index, self.logsize);
        let slot = self.slot_at(index);
        assert(slot.segment == i);
        assert(slot.offset == index & digit_mask(self.logsize));
        assert(self.labels@[i].prefix == index >> self.logsize);
    }

    /// Each place of the trie is the place of the slot of its index.
    pub proof fn lemma_index_of_slot(&self, slot: Slot)
        requires
            self.wf(),
            self.is_slot(slot),
        ensures
            self@.contains_key(self.index_of(slot)),
            self.slot_at(self.index_of(slot)) == slot,
    {
        let i = slot.segment as int;
        assert(self.segment_ok(i));
        lemma_join(self.labels@[i].prefix, slot.offset as u64, self.logsize);
        assert(self.is_leaf_for(i, self.index_of(slot)));
        self.lemma_slot_at(self.index_of(slot), i);
    }

    /// Two indices with one slot are one index.
    pub proof fn lemma_slots_distinct(&self, i: u64, j: u64)
        requires
            self.wf(),
            self@.contains_key(i),
            self@.contains_key(j),
            i != j,
        ensures
            self.slot_at(i) != self.slot_at(j),
    {
        self.lemma_slot_of_index(i);
        self.lemma_slot_of_index(j);
    }

    /// A trie without segments, with segments of `2^SEGMENT_LOGSIZE` slots.
    pub fn new() -> (trie: Self)
        ensures
            trie.wf(),
            trie@ == Map::<u64, usize>::empty(),
            trie.spec_height() == 0,
            trie.spec_logsize() == SEGMENT_LOGSIZE,
            trie.segment_count() == 0,
    {
        Self::with_segment_logsize(SEGMENT_LOGSIZE)
    }

    /// A trie without segments, with segments of `2^logsize` slots.
    pub fn with_segment_logsize(logsize: u64) -> (trie: Self)
        requires
            1 <= logsize <= MAX_LOGSIZE,
        ensures
            trie.wf(),
            trie@ == Map::<u64, usize>::empty(),
            trie.spec_height() == 0,
            trie.spec_logsize() == logsize,
            trie.segment_count() == 0,
    {
        let trie = GrowableArray {
            logsize,
            segments: Vec::new(),
            root: 0,
            height: 0,
            labels: Ghost(Seq::empty()),
        };
        assert(trie@ =~= Map::<u64, usize>::empty());
        trie
    }

    /// The current height: the number of segment levels.
    pub fn height(&self) -> (h: u64)
        ensures
            h == self.spec_height(),
    {
        self.height
    }

    /// Returns the place of the slot of `index`. Raises the height until
    /// the index can be addressed, and links the segments that are missing
    /// on the way from the root to the slot.
    ///
    /// Every slot that existed keeps its place and its word; the slots of
    /// the segments that are new hold zero.
    pub fn get(&mut self, index: u64) -> (slot: Slot)
        requires
            old(self).wf(),
        ensures
            final(self).wf(),
            final(self).spec_logsize() == old(self).spec_logsize(),
            final(self).spec_height() == grown_height(
                old(self).spec_logsize(),
                old(self).spec_height(),
                index,
            ),
            final(self).spec_height() >= old(self).spec_height(),
            final(self).segment_count() >= old(self).segment_count(),
            final(self)@.contains_key(index),
            old(self)@.contains_key(index) ==> slot == old(self).slot_at(index),
            final(self).is_slot(slot),
            final(self).index_of(slot) == index,
            slot == final(self).slot_at(index),
            forall|s: Slot| #[trigger]
                old(self).is_slot(s)
                    ==> final(self).is_slot(s) && final(self).index_of(s) == old(self).index_of(s),
            forall|j: u64|
                #[trigger] final(self)@.contains_key(j)
                    <==> old(self)@.contains_key(j) || allocates(
                    old(self).spec_logsize(),
                    old(self).spec_height(),
                    index,
                    j,
                ),
            forall|j: u64|
                #[trigger] old(self)@.contains_key(j) ==> final(self)@[j] == old(self)@[j]
                    && final(self).slot_at(j) == old(self).slot_at(j),
            forall|j: u64|
                #[trigger] final(self)@.contains_key(j) && !old(self)@.contains_key(j) ==>
                    final(self)@[j] == 0,
    {
        let ghost pre = *self;
        proof {
            pre.lemma_keeps_itself();
        }
        while !self.can_address(index)
            invariant
                self.wf(),
                self.keeps(&pre),
                pre.wf(),
                grown_height(self.logsize, self.height, index) == grown_height(
                    pre.logsize,
                    pre.height,
                    index,
                ),
                forall|i: int|
                    pre.segments@.len() <= i < self.segments@.len() ==> #[trigger] self.grown_for(
                        i,
                        pre.height,
                        index,
                    ),
                pre.height == 0 && self.height >= 1 ==> self.has_slot(0),
            decreases 64 - self.height,
        {
            let ghost before = *self;
            self.grow();
            proof {
                self.lemma_keeps_chain(&before, &pre);
                if before.height == 0 {
                    assert(self.is_leaf_for(0, 0)) by {
                        lemma_zero_digits(self.logsize);
                    }
                } else if pre.height == 0 {
                    let i = choose|i: int| before.is_leaf_for(i, 0);
                    assert(self.keeps_segment(&before, i));
                    assert(self.is_leaf_for(i, 0));
                }
                assert forall|i: int|
                    pre.segments@.len() <= i < self.segments@.len()
                        implies #[trigger] self.grown_for(
                    i,
                    pre.height,
                    index,
                ) by {
                    if i < before.segments@.len() {
                        assert(before.grown_for(i, pre.height, index));
                        assert(self.keeps_segment(&before, i));
                    }
                }
            }
        }
        proof {
            lemma_digit_bound(index, self.logsize);
        }
        let mut node: usize = self.root - 1;
        let mut level: u64 = self.height;
        while level > 1
            invariant
                self.wf(),
                self.keeps(&pre),
                pre.wf(),
                self.height == grown_height(pre.logsize, pre.height, index),
                1 <= level <= self.height,
                node < self.segments@.len(),
                self.labels@[node as int].level == level,
                self.labels@[node as int].prefix == prefix_of(self.logsize, index, level as nat),
                forall|i: int|
                    pre.segments@.len() <= i < self.segments@.len() ==> #[trigger] self.grown_for(
                        i,
                        pre.height,
                        index,
                    ),
                pre.height == 0 ==> self.has_slot(0),
            decreases level,
        {
            proof {
                lemma_shift_bound(self.logsize, level, self.height);
                lemma_digit_bound(index >> (((level - 1) * self.logsize) as u64), self.logsize);
                lemma_drop_twice(index, ((level - 1) * self.logsize) as u64, self.logsize);
                assert(self.segment_ok(node as int));
            }
            let ghost shift: u64 = ((level - 1) * self.logsize) as u64;
            let d: usize = digit(self.logsize, index, level);
            let word = self.segments[node][d];
            let ghost before = *self;
            if word == 0 {
                proof {
                    if level == 2 {
                        assert(shift == self.logsize) by (nonlinear_arith)
                            requires
                                shift == (level - 1) * self.logsize,
                                level == 2,
                        ;
                        lemma_rejoin(index, self.logsize);
                    }
                }
                node = self.link_child(node, d, Ghost(index >> shift));
                proof {
                    self.lemma_keeps_chain(&before, &pre);
                    if pre.height == 0 {
                        let i = choose|i: int| before.is_leaf_for(i, 0);
                        assert(self.keeps_segment(&before, i));
                        assert(self.is_leaf_for(i, 0));
                    }
                    assert forall|i: int|
                        pre.segments@.len() <= i < self.segments@.len()
                            implies #[trigger] self.grown_for(
                        i,
                        pre.height,
                        index,
                    ) by {
                        if i < before.segments@.len() {
                            assert(before.grown_for(i, pre.height, index));
                            assert(self.keeps_segment(&before, i));
                        } else if level == 2 {
                            assert(shift == self.logsize) by (nonlinear_arith)
                                requires
                                    shift == (level - 1) * self.logsize,
                                    level == 2,
                            ;
                        }
                    }
                }
            } else {
                proof {
                    assert(self.linked_down(node as int, d as int));
                    lemma_digits_determine(
                        self.labels@[word - 1].prefix,
                        index >> shift,
                        self.logsize,
                    );
                }
                node = word - 1;
            }
            level = level - 1;
        }
        proof {
            lemma_digit_bound(index, self.logsize);
            assert(index >> 0 == index) by (bit_vector);
            assert((level - 1) * self.logsize == 0) by (nonlinear_arith)
                requires
                    level == 1,
            ;
        }
        let offset: usize = digit(self.logsize, index, level);
        let slot = Slot { segment: node, offset };
        proof {
            assert(self.is_leaf_for(node as int, index));
            self.lemma_slot_at(index, node as int);
            self.lemma_slot_of_index(index);
            self.lemma_view_grown(&pre, index);
            assert forall|s: Slot| #[trigger] pre.is_slot(s) implies self.is_slot(s)
                && self.index_of(s) == pre.index_of(s) by {
                assert(self.keeps_segment(&pre, s.segment as int));
            }
        }
        slot
    }

    /// The word in the slot at `slot`.
    pub fn load(&self, slot: Slot) -> (word: usize)
        requires
            self.wf(),
            self.is_slot(slot),
        ensures
            word == self@[self.index_of(slot)],
    {
        proof {
            self.lemma_index_of_slot(slot);
            assert(self.segment_ok(slot.segment as int));
        }
        self.segments[slot.segment][slot.offset]
    }

    /// Puts `new` into the slot at `slot` if the slot holds `current`, and
    /// says whether it did. Nothing else changes.
    pub fn compare_and_set(&mut self, slot: Slot, current: usize, new: usize) -> (swapped: bool)
        requires
            old(self).wf(),
            old(self).is_slot(slot),
        ensures
            final(self).wf(),
            final(self).spec_logsize() == old(self).spec_logsize(),
            final(self).spec_height() == old(self).spec_height(),
            final(self).segment_count() == old(self).segment_count(),
            swapped == (old(self)@[old(self).index_of(slot)] == current),
            swapped ==> final(self)@ == old(self)@.insert(old(self).index_of(slot), new),
            !swapped ==> final(self)@ == old(self)@,
            forall|j: u64|
                #[trigger] old(self)@.contains_key(j)
                    ==> final(self).slot_at(j) == old(self).slot_at(j),
            forall|s: Slot|
                final(self).is_slot(s) == old(self).is_slot(s)
                    && final(self).index_of(s) == old(self).index_of(s),
    {
        let ghost pre = *self;
        proof {
            self.lemma_index_of_slot(slot);
            assert(self.segment_ok(slot.segment as int));
        }
        if self.segments[slot.segment][slot.offset] != current {
            return false;
        }
        self.segments[slot.segment][slot.offset] = new;
        proof {
            assert forall|i: int| 0 <= i < self.segments@.len() implies #[trigger] self.segment_ok(
                i,
            ) by {
                assert(pre.segment_ok(i));
                let lab = self.labels@[i];
                if lab.level < pre.height {
                    assert(pre.linked_up(i));
                    assert(pre.segment_ok(lab.parent));
                    assert(self.linked_up(i));
                }
                if lab.level > 1 {
                    assert forall|e: int| 0 <= e < fanout(self.logsize)
                        implies #[trigger] self.linked_down(i, e) by {
                        assert(pre.linked_down(i, e));
                    }
                }
            }
            assert forall|i: int, j: int|
                0 <= i < self.segments@.len() && 0 <= j < self.segments@.len()
                    && #[trigger] self.same_place(i, j) implies i == j by {
                assert(pre.same_place(i, j));
            }
            assert forall|j: u64|
                self.has_slot(j) == pre.has_slot(j) && (pre.has_slot(j) ==> self.slot_at(j)
                    == pre.slot_at(j)) by {
                assert forall|i: int| self.is_leaf_for(i, j) == pre.is_leaf_for(i, j) by {}
                if pre.has_slot(j) {
                    let i = choose|i: int| pre.is_leaf_for(i, j);
                    assert(self.is_leaf_for(i, j));
                    self.lemma_slot_at(j, i);
                    pre.lemma_slot_at(j, i);
                } else if self.has_slot(j) {
                    let i = choose|i: int| self.is_leaf_for(i, j);
                    assert(pre.is_leaf_for(i, j));
                }
            }
            let at = pre.index_of(slot);
            assert forall|j: u64| pre@.contains_key(j) && j != at implies self@[j] == pre@[j] by {
                pre.lemma_slots_distinct(j, at);
                pre.lemma_slot_of_index(j);
            }
            assert(self@ =~= pre@.insert(at, new));
        }
        true
    }

    /// The arena positions of all segments, in the order of a depth-first
    /// walk from the root: the walk in which a trie would be taken apart.
    /// Every slot of an inner segment is followed, so that every segment is
    /// reached, each once; the words in the slots of a leaf are not
    /// followed.
    pub fn segments_depth_first(&self) -> (seen: Vec<usize>)
        requires
            self.wf(),
        ensures
            seen@.no_duplicates(),
            seen@.len() == self.segment_count(),
            forall|k: int| 0 <= k < seen@.len() ==> (#[trigger] seen@[k]) < self.segment_count(),
            forall|i: usize| i < self.segment_count() ==> seen@.contains(i),
    {
        let mut seen: Vec<usize> = Vec::new();
        let mut stack: Vec<(usize, u64)> = Vec::new();
        if self.root == 0 {
            return seen;
        }
        proof {
            lemma_digit_bound(0, self.logsize);
            lemma_int_range(0, self.segments@.len() as int);
        }
        let size: usize = (1u64 << self.logsize) as usize;
        stack.push((self.root - 1, self.height));
        let ghost mut rest: Set<int> = set_int_range(0, self.segments@.len() as int);
        proof {
            assert(stack@.len() == 1);
            assert forall|i: int| 0 <= i < self.segments@.len() implies #[trigger] self.accounted(
                i,
                seen@,
                stack@,
                0,
                size as int,
            ) by {
                assert(self.segment_ok(i));
                if self.labels@[i].level == self.height {
                    assert(stack@[0].0 == i);
                }
            }
        }
        while stack.len() > 0
            invariant
                self.wf(),
                size == fanout(self.logsize),
                self.walk_ok(seen@, stack@, seen@),
                forall|i: int|
                    0 <= i < self.segments@.len() ==> #[trigger] self.accounted(
                        i,
                        seen@,
                        stack@,
                        0,
                        size as int,
                    ),
                forall|i: int| rest.contains(i) ==> 0 <= i < self.segments@.len(),
                rest.finite(),
                rest.len() + seen@.len() == self.segments@.len(),
                forall|i: int|
                    0 <= i < self.segments@.len() ==> (rest.contains(i) <==> !seen@.contains(
                        i as usize,
                    )),
            decreases rest.len(),
        {
            let ghost seen0 = seen@;
            let ghost stack0 = stack@;
            let (node, level) = stack.pop().unwrap();
            seen.push(node);
            let ghost base = stack@.len();
            proof {
                assert(stack0[base as int] == (node, level));
                assert(stack@ =~= stack0.drop_last());
                assert(!seen0.contains(node));
                assert(rest.contains(node as int));
                rest = rest.remove(node as int);
                assert(self.segment_ok(node as int));
                assert forall|k: int| 0 <= k < seen@.len() implies (#[trigger] seen@[k])
                    < self.segments@.len() && self.parent_in(seen@[k] as int, seen0) by {
                    if k < seen0.len() {
                        assert(seen@[k] == seen0[k]);
                    }
                }
                assert forall|a: int, b: int|
                    0 <= a < seen@.len() && 0 <= b < stack@.len() implies (#[trigger] seen@[a]) != (
                #[trigger] stack@[b]).0 by {
                    assert(stack@[b] == stack0[b]);
                    if a < seen0.len() {
                        assert(seen@[a] == seen0[a]);
                    }
                }
                assert forall|i: int| 0 <= i < self.segments@.len()
                    implies #[trigger] self.accounted(
                    i,
                    seen@,
                    stack@,
                    node as int,
                    0,
                ) by {
                    assert(self.accounted(i, seen0, stack0, 0, size as int));
                    if seen0.contains(i as usize) {
                        let k = choose|k: int| 0 <= k < seen0.len() && seen0[k] == i as usize;
                        assert(seen@[k] == i as usize);
                    } else if exists|k: int| 0 <= k < stack0.len()
                        && (#[trigger] stack0[k]).0 == i {
                        let k = choose|k: int| 0 <= k < stack0.len()
                            && (#[trigger] stack0[k]).0 == i;
                        if k == base {
                            assert(seen@[seen0.len() as int] == node);
                        } else {
                            assert(stack@[k].0 == i);
                        }
                    } else {
                        assert(self.segment_ok(i));
                        let above = self.labels@[i].parent;
                        if above == node {
                        } else if seen@.contains(above as usize) {
                            let k = choose|k: int| 0 <= k < seen@.len()
                                && seen@[k] == above as usize;
                            if k < seen0.len() {
                                assert(seen0[k] == above as usize);
                            }
                        }
                    }
                }
                assert forall|i: int|
                    0 <= i < self.segments@.len() implies (rest.contains(i) <==> !seen@.contains(
                    i as usize,
                )) by {
                    if i == node {
                        assert(seen@[seen0.len() as int] == node);
                    } else if seen@.contains(i as usize) {
                        let k = choose|k: int| 0 <= k < seen@.len() && seen@[k] == i as usize;
                        assert(seen0[k] == i as usize);
                    } else if seen0.contains(i as usize) {
                        let k = choose|k: int| 0 <= k < seen0.len() && seen0[k] == i as usize;
                        assert(seen@[k] == i as usize);
                    }
                }
            }
            let mut d: usize = 0;
            if level == 1 {
                d = size;
                proof {
                    assert forall|i: int| 0 <= i < self.segments@.len()
                        implies #[trigger] self.accounted(
                        i,
                        seen@,
                        stack@,
                        node as int,
                        size as int,
                    ) by {
                        assert(self.accounted(i, seen@, stack@, node as int, 0));
                        assert(self.segment_ok(i));
                    }
                }
            }
            while d < size
                invariant
                    self.wf(),
                    size == fanout(self.logsize),
                    d <= size,
                    d < size ==> level > 1,
                    node < self.segments@.len(),
                    level == self.labels@[node as int].level,
                    stack@.len() >= base,
                    seen0.len() + 1 == seen@.len(),
                    seen@ == seen0.push(node),
                    !seen0.contains(node),
                    self.walk_ok(seen@, stack@, seen0),
                    forall|k: int| 0 <= k < base
                        ==> self.parent_in((#[trigger] stack@[k]).0 as int, seen0),
                    forall|k: int|
                        base <= k < stack@.len() ==> self.child_below(
                            (#[trigger] stack@[k]).0 as int,
                            node as int,
                            d as int,
                        ),
                    forall|i: int|
                        0 <= i < self.segments@.len() ==> #[trigger] self.accounted(
                            i,
                            seen@,
                            stack@,
                            node as int,
                            d as int,
                        ),
                decreases size - d,
            {
                proof {
                    assert(self.segment_ok(node as int));
                }
                let word = self.segments[node][d];
                let ghost stack1 = stack@;
                if word != 0 {
                    proof {
                        assert(self.linked_down(node as int, d as int));
                        self.lemma_child(node as int, d as int);
                    }
                    stack.push((word - 1, level - 1));
                    proof {
                        let child = (word - 1) as int;
                        assert(stack@[stack1.len() as int].0 == child);
                        assert forall|k: int| 0 <= k < seen@.len() implies seen@[k] != child by {
                            if k < seen0.len() {
                                assert(seen@[k] == seen0[k]);
                                assert(self.parent_in(seen@[k] as int, seen0));
                            }
                        }
                        assert forall|k: int| 0 <= k < stack1.len() implies (#[trigger] stack1[k]).0
                            != child by {
                            assert(stack@[k] == stack1[k]);
                            if k < base {
                                assert(self.parent_in(stack1[k].0 as int, seen0));
                            } else {
                                assert(self.child_below(stack1[k].0 as int, node as int, d as int));
                            }
                        }
                        assert forall|a: int, b: int| 0 <= a < b < stack@.len() implies (
                        #[trigger] stack@[a]).0 != (#[trigger] stack@[b]).0 by {
                            if b < stack1.len() {
                                assert(stack@[a] == stack1[a] && stack@[b] == stack1[b]);
                            } else {
                                assert(stack@[a] == stack1[a]);
                            }
                        }
                        assert forall|a: int, b: int|
                            0 <= a < seen@.len() && 0 <= b < stack@.len() implies (
                        #[trigger] seen@[a]) != (#[trigger] stack@[b]).0 by {
                            if b < stack1.len() {
                                assert(stack@[b] == stack1[b]);
                            }
                        }
                        assert forall|k: int| 0 <= k < stack@.len() implies (#[trigger] stack@[k]).0
                            < self.segments@.len()
                                && stack@[k].1 == self.labels@[stack@[k].0 as int].level by {
                            if k < stack1.len() {
                                assert(stack@[k] == stack1[k]);
                            }
                        }
                        assert forall|k: int| 0 <= k < base implies self.parent_in(
                            (#[trigger] stack@[k]).0 as int,
                            seen0,
                        ) by {
                            assert(stack@[k] == stack1[k]);
                        }
                        assert forall|k: int| base <= k < stack@.len() implies self.child_below(
                            (#[trigger] stack@[k]).0 as int,
                            node as int,
                            d + 1,
                        ) by {
                            if k < stack1.len() {
                                assert(stack@[k] == stack1[k]);
                                assert(self.child_below(stack1[k].0 as int, node as int, d as int));
                            }
                        }
                    }
                }
                proof {
                    assert forall|i: int| 0 <= i < self.segments@.len()
                        implies #[trigger] self.accounted(
                        i,
                        seen@,
                        stack@,
                        node as int,
                        d + 1,
                    ) by {
                        assert(self.accounted(i, seen@, stack1, node as int, d as int));
                        if exists|k: int| 0 <= k < stack1.len() && (#[trigger] stack1[k]).0 == i {
                            let k = choose|k: int| 0 <= k < stack1.len()
                                && (#[trigger] stack1[k]).0 == i;
                            assert(stack@[k] == stack1[k]);
                        } else if self.labels@[i].level < self.height {
                            assert(self.segment_ok(i));
                            assert(self.linked_up(i));
                            if self.labels@[i].parent == node && self.labels@[i].digit == d {
                                assert(word == i + 1);
                                assert(stack@[stack1.len() as int].0 == i);
                            }
                        }
                    }
                }
                d = d + 1;
            }
            proof {
                assert forall|i: int| 0 <= i < self.segments@.len()
                    implies #[trigger] self.accounted(
                    i,
                    seen@,
                    stack@,
                    0,
                    size as int,
                ) by {
                    assert(self.accounted(i, seen@, stack@, node as int, size as int));
                }
                assert forall|k: int| 0 <= k < seen@.len() implies self.parent_in(
                    (#[trigger] seen@[k]) as int,
                    seen@,
                ) by {
                    assert(self.parent_in(seen@[k] as int, seen0));
                    self.lemma_parent_in_more(seen@[k] as int, seen0, node);
                }
                assert forall|k: int| 0 <= k < stack@.len() implies self.parent_in(
                    (#[trigger] stack@[k]).0 as int,
                    seen@,
                ) by {
                    if k < base {
                        assert(self.parent_in(stack@[k].0 as int, seen0));
                        self.lemma_parent_in_more(stack@[k].0 as int, seen0, node);
                    } else {
                        assert(self.child_below(stack@[k].0 as int, node as int, size as int));
                        assert(seen@[seen0.len() as int] == node);
                    }
                }
            }
        }
        proof {
            assert forall|i: usize| i < self.segment_count() implies seen@.contains(i) by {
                self.lemma_all_seen(i as int, seen@, stack@);
            }
            assert(rest =~= Set::<int>::empty());
        }
        seen
    }

    /// Whether the trie, at its current height, has a place for `index`.
    fn can_address(&self, index: u64) -> (yes: bool)
        requires
            self.wf(),
        ensures
            yes == addresses(self.logsize, self.height, index),
            !yes && self.height >= 1 ==> self.logsize * self.height < 64,
            yes ==> prefix_of(self.logsize, index, self.height as nat) == 0,
    {
        proof {
            if self.height >= 1 && self.logsize * self.height < 64 {
                assert(self.logsize * self.height >= 1) by (nonlinear_arith)
                    requires
                        1 <= self.logsize,
                        1 <= self.height,
                ;
                lemma_within_range(index, (self.logsize * self.height) as u64);
            }
        }
        can_address(self.logsize, self.height, index)
    }

    /// Adds a segment of empty slots to the arena, with slot 0 holding
    /// `first`, and returns its position.
    fn push_segment(&mut self, first: usize) -> (id: usize)
        requires
            1 <= old(self).logsize <= MAX_LOGSIZE,
        ensures
            final(self).logsize == old(self).logsize,
            final(self).root == old(self).root,
            final(self).height == old(self).height,
            final(self).labels == old(self).labels,
            final(self).segments@.len() == old(self).segments@.len() + 1,
            forall|i: int|
                0 <= i < old(self).segments@.len()
                    ==> final(self).segments@[i] == old(self).segments@[i],
            id == old(self).segments@.len(),
            id < usize::MAX,
            final(self).segments@[id as int]@.len() == fanout(old(self).logsize),
            final(self).segments@[id as int]@[0] == first,
            forall|d: int|
                1 <= d < fanout(old(self).logsize) ==> final(self).segments@[id as int]@[d] == 0,
    {
        proof {
            lemma_digit_bound(0, self.logsize);
        }
        let size: u64 = 1u64 << self.logsize;
        let mut segment = vec![0usize; size as usize];
        segment[0] = first;
        self.segments.push(segment);
        self.segments.len() - 1
    }

    /// The segment at `i` stands in `self` where it stood in `pre`, and if
    /// it is a leaf, it holds the same words.
    spec fn keeps_segment(&self, pre: &Self, i: int) -> bool {
        &&& self.labels@[i].level == pre.labels@[i].level
        &&& self.labels@[i].prefix == pre.labels@[i].prefix
        &&& pre.labels@[i].level == 1 ==> self.segments@[i]@ == pre.segments@[i]@
    }

    /// The segment at `i`, if it is a leaf, holds only empty slots.
    spec fn empty_leaf(&self, i: int) -> bool {
        self.labels@[i].level == 1 ==> forall|d: int|
            0 <= d < fanout(self.logsize) ==> #[trigger] self.segments@[i]@[d] == 0
    }

    /// `self` came from `pre` by adding segments: what was there is kept,
    /// and new leaves are empty.
    spec fn keeps(&self, pre: &Self) -> bool {
        &&& self.logsize == pre.logsize
        &&& pre.segments@.len() <= self.segments@.len()
        &&& pre.height <= self.height
        &&& forall|i: int| 0 <= i < pre.segments@.len() ==> #[trigger] self.keeps_segment(pre, i)
        &&& forall|i: int|
            pre.segments@.len() <= i < self.segments@.len() ==> #[trigger] self.empty_leaf(i)
    }

    /// Raises the height by one: the old root becomes child 0 of a new root.
    fn grow(&mut self)
        requires
            old(self).wf(),
            old(self).height == 0 || old(self).logsize * old(self).height < 64,
        ensures
            final(self).wf(),
            final(self).keeps(old(self)),
            final(self).height == old(self).height + 1,
            final(self).segments@.len() == old(self).segments@.len() + 1,
            final(self).labels@[old(self).segments@.len() as int].level == old(self).height + 1,
            final(self).labels@[old(self).segments@.len() as int].prefix == 0,
    {
        let ghost pre = *self;
        let first = self.root;
        let id = self.push_segment(first);
        proof {
            let top = Label { level: (pre.height + 1) as nat, prefix: 0, parent: 0, digit: 0 };
            if pre.height >= 1 {
                let below = Label { parent: id as int, digit: 0, ..pre.labels@[pre.root - 1] };
                self.labels@ = pre.labels@.update(pre.root - 1, below).push(top);
            } else {
                self.labels@ = pre.labels@.push(top);
            }
        }
        self.root = id + 1;
        self.height = self.height + 1;
        proof {
            assert(self.segments@.len() == self.segments.len());
            lemma_zero_digits(self.logsize);
            lemma_digit_bound(0, self.logsize);
            assert(pre.height < 64) by (nonlinear_arith)
                requires
                    pre.height == 0 || pre.logsize * pre.height < 64,
                    1 <= pre.logsize,
            ;
            assert forall|i: int| 0 <= i < self.segments@.len() implies #[trigger] self.segment_ok(
                i,
            ) by {
                if i < pre.segments@.len() {
                    assert(pre.segment_ok(i));
                    let lab = self.labels@[i];
                    assert(self.segments@[i]@.len() == fanout(self.logsize));
                    assert(lab.level == pre.labels@[i].level);
                    assert(lab.prefix == pre.labels@[i].prefix);
                    assert(1 <= lab.level <= self.height);
                    if lab.level < pre.height {
                        assert(pre.linked_up(i));
                        assert(lab.parent == pre.labels@[i].parent);
                        assert(self.linked_up(i));
                    } else {
                        assert(i == pre.root - 1);
                        assert(lab.parent == id);
                        assert(lab.digit == 0);
                        assert(self.segments@[id as int]@[0] == first);
                        assert(self.linked_up(i));
                    }
                    if lab.level > 1 {
                        assert forall|d: int| 0 <= d < fanout(self.logsize)
                            implies #[trigger] self.linked_down(i, d) by {
                            assert(pre.linked_down(i, d));
                        }
                    }
                } else {
                    assert(i == id);
                    assert(self.labels@[i].level == self.height);
                    assert(self.segments@[i]@.len() == fanout(self.logsize));
                    if pre.height >= 1 {
                        assert forall|d: int| 0 <= d < fanout(self.logsize)
                            implies #[trigger] self.linked_down(i, d) by {
                            if d == 0 {
                                assert(pre.segment_ok(pre.root - 1));
                            }
                        }
                    }
                }
            }
            assert forall|i: int, j: int|
                0 <= i < self.segments@.len() && 0 <= j < self.segments@.len()
                    && #[trigger] self.same_place(i, j) implies i == j by {
                if i < pre.segments@.len() && j < pre.segments@.len() {
                    assert(pre.same_place(i, j));
                } else if i < pre.segments@.len() {
                    assert(pre.segment_ok(i));
                } else if j < pre.segments@.len() {
                    assert(pre.segment_ok(j));
                }
            }
            assert((self.height - 1) * self.logsize < 64) by (nonlinear_arith)
                requires
                    pre.height == 0 || pre.logsize * pre.height < 64,
                    self.height == pre.height + 1,
                    self.logsize == pre.logsize,
            ;
            assert(self.labels@.len() == self.segments@.len());
            assert(self.labels@[self.root - 1].level == self.height);
            assert(self.labels@[self.root - 1].prefix == 0);
            assert forall|i: int| 0 <= i < pre.segments@.len()
                implies #[trigger] self.keeps_segment(&pre, i) by {
            }
            assert forall|i: int|
                pre.segments@.len() <= i < self.segments@.len()
                    implies #[trigger] self.empty_leaf(i) by {
            }
        }
    }

    /// A segment that is new is no leaf, or is the leaf of `index`, or is
    /// the first segment of a trie that had none.
    spec fn grown_for(&self, i: int, height: u64, index: u64) -> bool {
        self.labels@[i].level == 1 ==> {
            ||| self.labels@[i].prefix == index >> self.logsize
            ||| height == 0 && self.labels@[i].prefix == 0
        }
    }

    /// A trie keeps itself.
    proof fn lemma_keeps_itself(&self)
        ensures
            self.keeps(self),
    {
        assert forall|i: int| 0 <= i < self.segments@.len() implies #[trigger] self.keeps_segment(
            self,
            i,
        ) by {}
    }

    /// What is kept over two steps is kept over both.
    proof fn lemma_keeps_chain(&self, mid: &Self, pre: &Self)
        requires
            self.keeps(mid),
            mid.keeps(pre),
        ensures
            self.keeps(pre),
    {
        assert forall|i: int| 0 <= i < pre.segments@.len() implies #[trigger] self.keeps_segment(
            pre,
            i,
        ) by {
            assert(mid.keeps_segment(pre, i));
            assert(self.keeps_segment(mid, i));
        }
        assert forall|i: int|
            pre.segments@.len() <= i < self.segments@.len() implies #[trigger] self.empty_leaf(
            i,
        ) by {
            if i < mid.segments@.len() {
                assert(mid.empty_leaf(i));
                assert(self.keeps_segment(mid, i));
            }
        }
    }

    /// The leaf segment of an index is the only one at its place.
    proof fn lemma_slot_at(&self, index: u64, i: int)
        requires
            self.wf(),
            self.is_leaf_for(i, index),
        ensures
            self.has_slot(index),
            self.slot_at(index).segment == i,
            self.slot_at(index).offset == index & digit_mask(self.logsize),
            self.is_slot(self.slot_at(index)),
            self@.contains_key(index),
            self@[index] == self.segments@[i]@[(index & digit_mask(self.logsize)) as int],
    {
        let c = choose|c: int| self.is_leaf_for(c, index);
        assert(self.same_place(c, i));
        lemma_digit_bound(index, self.logsize);
        assert(self.segment_ok(i));
        assert(self.segments@.len() == self.segments.len());
    }

    /// What adding segments on behalf of `index` does to the view.
    proof fn lemma_view_grown(&self, pre: &Self, index: u64)
        requires
            self.wf(),
            pre.wf(),
            self.keeps(pre),
            self.has_slot(index),
            pre.height == 0 ==> self.has_slot(0),
            forall|i: int|
                pre.segments@.len() <= i < self.segments@.len() ==> #[trigger] self.grown_for(
                    i,
                    pre.height,
                    index,
                ),
        ensures
            forall|j: u64|
                #[trigger] self@.contains_key(j) <==> pre@.contains_key(j) || allocates(
                    pre.logsize,
                    pre.height,
                    index,
                    j,
                ),
            forall|j: u64|
                #[trigger] pre@.contains_key(j) ==> self@[j] == pre@[j] && self.slot_at(j)
                    == pre.slot_at(j),
            forall|j: u64|
                #[trigger] self@.contains_key(j) && !pre@.contains_key(j) ==> self@[j] == 0,
    {
        let l = self.logsize;
        assert forall|j: u64| #[trigger] pre@.contains_key(j) implies self@.contains_key(j)
            && self@[j] == pre@[j] && self.slot_at(j) == pre.slot_at(j) by {
            let i = choose|i: int| pre.is_leaf_for(i, j);
            assert(self.keeps_segment(pre, i));
            assert(self.is_leaf_for(i, j));
            self.lemma_slot_at(j, i);
            pre.lemma_slot_at(j, i);
        }
        assert forall|j: u64| allocates(l, pre.height, index, j)
            implies #[trigger] self@.contains_key(
            j,
        ) by {
            if j >> l == index >> l {
                let i = choose|i: int| self.is_leaf_for(i, index);
                assert(self.is_leaf_for(i, j));
                self.lemma_slot_at(j, i);
            } else {
                let i = choose|i: int| self.is_leaf_for(i, 0);
                lemma_zero_digits(l);
                assert(self.is_leaf_for(i, j));
                self.lemma_slot_at(j, i);
            }
        }
        assert forall|j: u64| #[trigger] self@.contains_key(j) && !pre@.contains_key(j)
            implies self@[j]
            == 0 && allocates(l, pre.height, index, j) by {
            let i = choose|i: int| self.is_leaf_for(i, j);
            self.lemma_slot_at(j, i);
            lemma_digit_bound(j, l);
            if i < pre.segments@.len() {
                assert(self.keeps_segment(pre, i));
                assert(pre.is_leaf_for(i, j));
                pre.lemma_slot_at(j, i);
            } else {
                assert(self.grown_for(i, pre.height, index));
                assert(self.empty_leaf(i));
                lemma_zero_digits(l);
            }
        }
    }

    /// A segment below the root has its parent in `seen`.
    spec fn parent_in(&self, i: int, seen: Seq<usize>) -> bool {
        self.labels@[i].level < self.height ==> seen.contains(self.labels@[i].parent as usize)
    }

    /// The segment at `i` hangs at a slot before `d` of the segment `node`.
    spec fn child_below(&self, i: int, node: int, d: int) -> bool {
        &&& self.labels@[i].level < self.height
        &&& self.labels@[i].parent == node
        &&& self.labels@[i].digit < d
    }

    /// Where the segment at `i` is during a walk: it was walked, or it
    /// waits on the stack, or its parent was not walked yet, or it hangs
    /// at a slot of the segment in hand that was not read yet.
    spec fn accounted(
        &self,
        i: int,
        seen: Seq<usize>,
        stack: Seq<(usize, u64)>,
        node: int,
        d: int,
    ) -> bool {
        ||| seen.contains(i as usize)
        ||| exists|k: int| 0 <= k < stack.len() && (#[trigger] stack[k]).0 == i
        ||| self.labels@[i].level < self.height && !seen.contains(
            self.labels@[i].parent as usize,
        )
        ||| self.labels@[i].level < self.height && self.labels@[i].parent == node
            && self.labels@[i].digit >= d && d < fanout(self.logsize)
    }

    /// What holds of the segments walked and of those on the stack: they
    /// are segments, no two are the same, and the parent of each was
    /// walked before (`parents` being the segments walked before the one
    /// in hand).
    spec fn walk_ok(&self, seen: Seq<usize>, stack: Seq<(usize, u64)>,
        parents: Seq<usize>) -> bool {
        &&& seen.no_duplicates()
        &&& forall|a: int, b: int|
            0 <= a < b < stack.len() ==> (#[trigger] stack[a]).0 != (#[trigger] stack[b]).0
        &&& forall|a: int, b: int|
            0 <= a < seen.len() && 0 <= b < stack.len() ==> (#[trigger] seen[a]) != (
            #[trigger] stack[b]).0
        &&& forall|k: int|
            0 <= k < seen.len() ==> (#[trigger] seen[k]) < self.segments@.len() && self.parent_in(
                seen[k] as int,
                parents,
            )
        &&& forall|k: int|
            0 <= k < stack.len() ==> (#[trigger] stack[k]).0 < self.segments@.len() && stack[k].1
                == self.labels@[stack[k].0 as int].level
        &&& parents == seen ==> forall|k: int|
            0 <= k < stack.len() ==> self.parent_in((#[trigger] stack[k]).0 as int, seen)
    }

    /// A parent that was walked stays walked when the walk goes on.
    proof fn lemma_parent_in_more(&self, i: int, seen: Seq<usize>, node: usize)
        requires
            self.parent_in(i, seen),
        ensures
            self.parent_in(i, seen.push(node)),
    {
        if self.labels@[i].level < self.height {
            let above = self.labels@[i].parent as usize;
            let k = choose|k: int| 0 <= k < seen.len() && seen[k] == above;
            assert(seen.push(node)[k] == above);
        }
    }

    /// The segment that a slot of an inner segment refers to has that
    /// segment as its parent, at that slot.
    proof fn lemma_child(&self, node: int, d: int)
        requires
            self.wf(),
            0 <= node < self.segments@.len(),
            0 <= d < fanout(self.logsize),
            self.labels@[node].level > 1,
            self.segments@[node]@[d] != 0,
        ensures
            self.segments@[node]@[d] - 1 < self.segments@.len(),
            self.child_below(self.segments@[node]@[d] - 1, node, d + 1),
            self.labels@[self.segments@[node]@[d] - 1].digit == d,
            self.labels@[self.segments@[node]@[d] - 1].level + 1 == self.labels@[node].level,
    {
        assert(self.segment_ok(node));
        assert(self.linked_down(node, d));
        let child = self.segments@[node]@[d] - 1;
        assert(self.segment_ok(child));
        assert(self.linked_up(child));
        assert(self.same_place(self.labels@[child].parent, node));
    }

    /// When nothing waits on the stack, every segment was walked.
    proof fn lemma_all_seen(&self, i: int, seen: Seq<usize>, stack: Seq<(usize, u64)>)
        requires
            self.wf(),
            0 <= i < self.segments@.len(),
            stack.len() == 0,
            forall|j: int|
                0 <= j < self.segments@.len() ==> #[trigger] self.accounted(
                    j,
                    seen,
                    stack,
                    0,
                    fanout(self.logsize) as int,
                ),
        ensures
            seen.contains(i as usize),
        decreases self.height - self.labels@[i].level,
    {
        assert(self.accounted(i, seen, stack, 0, fanout(self.logsize) as int));
        assert(self.segment_ok(i));
        if self.labels@[i].level < self.height {
            assert(self.linked_up(i));
            self.lemma_all_seen(self.labels@[i].parent, seen, stack);
        }
    }

    /// Hangs a new segment of empty slots below the empty slot `d` of the
    /// inner segment `node`, and returns the new segment's position.
    fn link_child(&mut self, node: usize, d: usize, Ghost(prefix): Ghost<u64>) -> (child: usize)
        requires
            old(self).wf(),
            node < old(self).segments@.len(),
            d < fanout(old(self).logsize),
            old(self).labels@[node as int].level >= 2,
            old(self).segments@[node as int]@[d as int] == 0,
            prefix >> old(self).logsize == old(self).labels@[node as int].prefix,
            prefix & digit_mask(old(self).logsize) == d,
            old(self).labels@[node as int].level == 2 ==> prefix <= u64::MAX >> old(self).logsize,
        ensures
            final(self).wf(),
            final(self).keeps(old(self)),
            final(self).height == old(self).height,
            final(self).segments@.len() == old(self).segments@.len() + 1,
            child == old(self).segments@.len(),
            final(self).labels@[child as int].level + 1 == old(self).labels@[node as int].level,
            final(self).labels@[child as int].prefix == prefix,
    {
        let ghost pre = *self;
        proof {
            assert(pre.segment_ok(node as int));
        }
        let child = self.push_segment(0);
        self.segments[node][d] = child + 1;
        proof {
            let lab = Label {
                level: (pre.labels@[node as int].level - 1) as nat,
                prefix,
                parent: node as int,
                digit: d as int,
            };
            self.labels@ = pre.labels@.push(lab);
            assert(self.segments@.len() == self.segments.len());
            assert forall|i: int| 0 <= i < self.segments@.len() implies #[trigger] self.segment_ok(
                i,
            ) by {
                if i < pre.segments@.len() {
                    assert(pre.segment_ok(i));
                    let lab = self.labels@[i];
                    assert(self.segments@[i]@.len() == fanout(self.logsize));
                    if lab.level < pre.height {
                        assert(pre.linked_up(i));
                        assert(pre.segment_ok(lab.parent));
                        assert(self.linked_up(i));
                    }
                    if lab.level > 1 {
                        assert forall|e: int| 0 <= e < fanout(self.logsize)
                            implies #[trigger] self.linked_down(i, e) by {
                            assert(pre.linked_down(i, e));
                        }
                    }
                } else {
                    assert(i == child);
                    assert(self.linked_up(i));
                    assert forall|e: int| 0 <= e < fanout(self.logsize)
                        implies #[trigger] self.linked_down(i, e) by {
                        assert(self.segments@[i]@[e] == 0);
                    }
                }
            }
            assert forall|i: int, j: int|
                0 <= i < self.segments@.len() && 0 <= j < self.segments@.len()
                    && #[trigger] self.same_place(i, j) implies i == j by {
                if i < pre.segments@.len() && j < pre.segments@.len() {
                    assert(pre.same_place(i, j));
                } else if i < pre.segments@.len() {
                    pre.lemma_place_taken(i, node as int, d as int);
                } else if j < pre.segments@.len() {
                    pre.lemma_place_taken(j, node as int, d as int);
                }
            }
            assert forall|i: int| 0 <= i < pre.segments@.len()
                implies #[trigger] self.keeps_segment(&pre, i) by {
                assert(pre.segment_ok(i));
            }
            assert forall|i: int|
                pre.segments@.len() <= i < self.segments@.len()
                    implies #[trigger] self.empty_leaf(i) by {
            }
        }
        child
    }

    /// A segment that stands where the child at slot `d` of `node` belongs
    /// is referred to by that slot.
    proof fn lemma_place_taken(&self, i: int, node: int, d: int)
        requires
            self.wf(),
            0 <= i < self.segments@.len(),
            0 <= node < self.segments@.len(),
            self.labels@[i].level + 1 == self.labels@[node].level,
            self.labels@[i].prefix >> self.logsize == self.labels@[node].prefix,
            self.labels@[i].prefix & digit_mask(self.logsize) == d,
        ensures
            self.segments@[node]@[d] == i + 1,
    {
        assert(self.segment_ok(i));
        assert(self.segment_ok(node));
        assert(self.linked_up(i));
        let above = self.labels@[i].parent;
        assert(self.same_place(above, node));
    }
}

/// Whether touching `index` in a trie of the given height makes the slot
/// of `j` exist: the two share a leaf segment, or the trie had no segment
/// and `j` lies in the first one.
pub open spec fn allocates(logsize: u64, height: u64, index: u64, j: u64) -> bool {
    j >> logsize == index >> logsize || (height == 0 && j >> logsize == 0)
}

/// The shift that selects the digit of a level stays within the word.
proof fn lemma_shift_bound(l: u64, level: u64, height: u64)
    by (nonlinear_arith)
    requires
        1 <= level <= height,
        (height - 1) * l < 64,
        1 <= l,
    ensures
        0 <= (level - 1) * l < 64,
        (level - 1) * l + l == level * l,
        l * level == level * l,
        l * (level - 1) == (level - 1) * l,
{
}

/// The digits above the lowest one, put back over it, give the word.
proof fn lemma_rejoin(index: u64, l: u64)
    by (bit_vector)
    requires
        1 <= l <= 31,
    ensures
        (((index >> l) << l) | (index & (((1u64 << l) - 1) as u64))) == index,
        index >> l <= u64::MAX >> l,
{
}

/// A word put together from upper digits and a lowest digit has them.
proof fn lemma_join(upper: u64, d: u64, l: u64)
    by (bit_vector)
    requires
        1 <= l <= 31,
        upper <= u64::MAX >> l,
        d < (1u64 << l),
    ensures
        ((upper << l) | d) >> l == upper,
        (((upper << l) | d) & (((1u64 << l) - 1) as u64)) == d,
{
}

/// Zero has only zero digits.
proof fn lemma_zero_digits(l: u64)
    by (bit_vector)
    requires
        1 <= l <= 31,
    ensures
        0u64 >> l == 0,
        (0u64 & (((1u64 << l) - 1) as u64)) == 0,
{
}

impl Default for GrowableArray {
    /// A trie without segments, as [`GrowableArray::new`] makes it.
    fn default() -> (trie: Self)
        ensures
            trie.wf(),
            trie@ == Map::<u64, usize>::empty(),
            trie.spec_height() == 0,
            trie.spec_logsize() == SEGMENT_LOGSIZE,
            trie.segment_count() == 0,
    {
        Self::new()
    }
}

} // verus!
