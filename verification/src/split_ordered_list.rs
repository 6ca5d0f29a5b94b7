//! Split-ordered map.
//!
//! A map from keys below `2^63` to values. All entries stand in one list,
//! sorted by bit-reversed key; the buckets are shortcuts into that list.
//! Each bucket is a sentinel node whose reference is kept in a growable
//! trie. Doubling the number of buckets moves no entry: a new bucket's
//! sentinel is linked where the bucket begins, the first time the bucket is
//! used.
use crate::bits::{
    bucket_of, content_key, is_content_key, is_power_of_two, lemma_bucket_in_range,
    lemma_key_kinds, lemma_parent_smaller, lemma_reverse_bits_involution,
    lemma_sentinel_below_content, make_content_key, make_sentinel_key, parent_bucket, parent_of,
    reversed, sentinel_key, valid_key, HI_BIT,
};
use crate::growable_array::{GrowableArray, Slot};
use crate::list::{Cursor, List};
use vstd::prelude::*;

verus! {

/// The number of buckets is doubled when there are more than this many
/// entries per bucket.
pub const LOAD_FACTOR: u64 = 2;

/// Whether the keys of `s` increase strictly.
pub open spec fn sorted<V>(s: Seq<(u64, Option<V>)>) -> bool {
    forall|p: int, q: int| 0 <= p < q < s.len() ==> (#[trigger] s[p]).0 < (#[trigger] s[q]).0
}

/// Whether each node of `s` with an entry's key has a value, and each with
/// a sentinel's key has none.
pub open spec fn well_kinded<V>(s: Seq<(u64, Option<V>)>) -> bool {
    forall|p: int| 0 <= p < s.len() ==> is_content_key((#[trigger] s[p]).0) == (s[p].1 is Some)
}

/// Whether a node of `s` has the list key `list_key`.
pub open spec fn holds_key<V>(s: Seq<(u64, Option<V>)>, list_key: u64) -> bool {
    exists|p: int| 0 <= p < s.len() && (#[trigger] s[p]).0 == list_key
}

/// The place in `s` of the node with the list key `list_key`.
pub open spec fn place_of<V>(s: Seq<(u64, Option<V>)>, list_key: u64) -> int {
    choose|p: int| 0 <= p < s.len() && (#[trigger] s[p]).0 == list_key
}

/// The number of nodes of `s` that carry a value.
pub open spec fn data_count<V>(s: Seq<(u64, Option<V>)>) -> nat
    decreases s.len(),
{
    if s.len() == 0 {
        0
    } else {
        data_count(s.drop_last()) + if s.last().1 is Some {
            1nat
        } else {
            0nat
        }
    }
}

/// The map that the nodes of `s` stand for: each node with a value is an
/// entry, under the user key read off its list key.
pub open spec fn entries<V>(s: Seq<(u64, Option<V>)>) -> Map<u64, V> {
    Map::new(
        |key: u64| valid_key(key) && holds_key(s, content_key(key)),
        |key: u64| s[place_of(s, content_key(key))].1.unwrap(),
    )
}

/// A sequence has at most as many nodes with a value as it has nodes.
pub proof fn lemma_data_count_bound<V>(s: Seq<(u64, Option<V>)>)
    ensures
        data_count(s) <= s.len(),
    decreases s.len(),
{
    if s.len() > 0 {
        lemma_data_count_bound(s.drop_last());
    }
}

/// Linking a node adds one to the count if the node carries a value.
pub proof fn lemma_data_count_insert<V>(s: Seq<(u64, Option<V>)>, pos: int, e: (u64, Option<V>))
    requires
        0 <= pos <= s.len(),
    ensures
        data_count(s.insert(pos, e)) == data_count(s) + if e.1 is Some {
            1nat
        } else {
            0nat
        },
    decreases s.len(),
{
    let t = s.insert(pos, e);
    if pos == s.len() {
        assert(t.drop_last() =~= s);
    } else {
        assert(t.drop_last() =~= s.drop_last().insert(pos, e));
        assert(t.last() == s.last());
        lemma_data_count_insert(s.drop_last(), pos, e);
    }
}

/// Unlinking a node takes one from the count if the node carries a value.
pub proof fn lemma_data_count_remove<V>(s: Seq<(u64, Option<V>)>, pos: int)
    requires
        0 <= pos < s.len(),
    ensures
        data_count(s) == data_count(s.remove(pos)) + if s[pos].1 is Some {
            1nat
        } else {
            0nat
        },
    decreases s.len(),
{
    let t = s.remove(pos);
    if pos == s.len() - 1 {
        assert(t =~= s.drop_last());
    } else {
        assert(t.drop_last() =~= s.drop_last().remove(pos));
        assert(t.last() == s.last());
        lemma_data_count_remove(s.drop_last(), pos);
    }
}

/// In a sorted sequence a key stands at one place at most.
pub proof fn lemma_place_unique<V>(s: Seq<(u64, Option<V>)>, p: int)
    requires
        sorted(s),
        0 <= p < s.len(),
    ensures
        holds_key(s, s[p].0),
        place_of(s, s[p].0) == p,
{
    let q = place_of(s, s[p].0);
    if q < p {
        assert(s[q].0 < s[p].0);
    } else if p < q {
        assert(s[p].0 < s[q].0);
    }
}

/// Where a search for `list_key` ends decides whether the key is there: the
/// search went from `start` to `p` over smaller keys only, and `start` is
/// the head or a node with a smaller key.
pub proof fn lemma_search_decides<V>(s: Seq<(u64, Option<V>)>, start: int, p: int, list_key: u64)
    requires
        sorted(s),
        0 <= start <= p <= s.len(),
        start == 0 || (start < s.len() && s[start].0 < list_key),
        forall|q: int| start <= q < p ==> (#[trigger] s[q]).0 < list_key,
        p < s.len() ==> s[p].0 >= list_key,
    ensures
        holds_key(s, list_key) == (p < s.len() && s[p].0 == list_key),
        p > 0 ==> s[p - 1].0 < list_key,
{
    if holds_key(s, list_key) {
        let q = place_of(s, list_key);
        if q < start {
            assert(s[q].0 < s[start].0);
        } else if q > p {
            assert(s[p].0 < s[q].0);
        }
    }
}

/// Linking a node keeps every node that was there, at the place before or
/// behind the new one.
pub proof fn lemma_holds_insert<V>(
    s: Seq<(u64, Option<V>)>,
    pos: int,
    e: (u64, Option<V>),
    list_key: u64,
)
    requires
        0 <= pos <= s.len(),
        sorted(s.insert(pos, e)),
    ensures
        holds_key(s.insert(pos, e), list_key) == (holds_key(s, list_key) || e.0 == list_key),
        holds_key(s, list_key) ==> s.insert(pos, e)[place_of(s.insert(pos, e), list_key)]
            == s[place_of(s, list_key)],
        e.0 == list_key ==> s.insert(pos, e)[place_of(s.insert(pos, e), list_key)] == e,
{
    let t = s.insert(pos, e);
    s.insert_ensures(pos, e);
    if holds_key(s, list_key) {
        let q = place_of(s, list_key);
        let r = if q < pos {
            q
        } else {
            q + 1
        };
        assert(t[r] == s[q]);
        lemma_place_unique(t, r);
    }
    if e.0 == list_key {
        lemma_place_unique(t, pos);
    }
    if holds_key(t, list_key) && e.0 != list_key {
        let r = place_of(t, list_key);
        let q = if r < pos {
            r
        } else {
            r - 1
        };
        assert(s[q] == t[r]);
    }
}

/// Unlinking a node keeps every other node.
pub proof fn lemma_holds_remove<V>(s: Seq<(u64, Option<V>)>, pos: int, list_key: u64)
    requires
        0 <= pos < s.len(),
        sorted(s),
    ensures
        sorted(s.remove(pos)),
        holds_key(s.remove(pos), list_key) == (holds_key(s, list_key) && s[pos].0 != list_key),
        holds_key(s.remove(pos), list_key) ==> s.remove(pos)[place_of(s.remove(pos), list_key)]
            == s[place_of(s, list_key)],
{
    let t = s.remove(pos);
    s.remove_ensures(pos);
    assert forall|a: int, b: int| 0 <= a < b < t.len() implies (#[trigger] t[a]).0 < (
    #[trigger] t[b]).0 by {
        let a0 = if a < pos {
            a
        } else {
            a + 1
        };
        let b0 = if b < pos {
            b
        } else {
            b + 1
        };
        assert(s[a0].0 < s[b0].0);
    }
    if holds_key(s, list_key) && s[pos].0 != list_key {
        let q = place_of(s, list_key);
        let r = if q < pos {
            q
        } else {
            q - 1
        };
        assert(t[r] == s[q]);
        lemma_place_unique(t, r);
    }
    if holds_key(t, list_key) {
        let r = place_of(t, list_key);
        let q = if r < pos {
            r
        } else {
            r + 1
        };
        assert(s[q] == t[r]);
        lemma_place_unique(s, q);
        if s[pos].0 == list_key {
            lemma_place_unique(s, pos);
        }
    }
}

/// Linking a sentinel changes no entry.
pub proof fn lemma_entries_insert_sentinel<V>(s: Seq<(u64, Option<V>)>, pos: int, list_key: u64)
    requires
        0 <= pos <= s.len(),
        sorted(s.insert(pos, (list_key, None::<V>))),
        well_kinded(s),
        !is_content_key(list_key),
    ensures
        entries(s.insert(pos, (list_key, None::<V>))) == entries(s),
        well_kinded(s.insert(pos, (list_key, None::<V>))),
        data_count(s.insert(pos, (list_key, None::<V>))) == data_count(s),
{
    let e = (list_key, None::<V>);
    let t = s.insert(pos, e);
    s.insert_ensures(pos, e);
    lemma_data_count_insert(s, pos, e);
    assert forall|p: int| 0 <= p < t.len() implies is_content_key((#[trigger] t[p]).0) == (
    t[p].1 is Some) by {
        if p < pos {
            assert(t[p] == s[p]);
        } else if p > pos {
            assert(t[p] == s[p - 1]);
        }
    }
    assert forall|key: u64|
        (valid_key(key) && holds_key(t, content_key(key))) == (valid_key(key) && holds_key(
            s,
            content_key(key),
        )) && (valid_key(key) && holds_key(s, content_key(key)) ==> t[place_of(
            t,
            content_key(key),
        )].1 == s[place_of(s, content_key(key))].1) by {
        if valid_key(key) {
            lemma_key_kinds(key);
            lemma_holds_insert(s, pos, e, content_key(key));
        }
    }
    assert(entries(t) =~= entries(s));
}

/// Linking an entry's node adds the entry.
pub proof fn lemma_entries_insert_entry<V>(s: Seq<(u64, Option<V>)>, pos: int, key: u64, value: V)
    requires
        0 <= pos <= s.len(),
        sorted(s.insert(pos, (content_key(key), Some(value)))),
        well_kinded(s),
        valid_key(key),
    ensures
        entries(s.insert(pos, (content_key(key), Some(value)))) == entries(s).insert(key, value),
        well_kinded(s.insert(pos, (content_key(key), Some(value)))),
        data_count(s.insert(pos, (content_key(key), Some(value)))) == data_count(s) + 1,
{
    let e = (content_key(key), Some(value));
    let t = s.insert(pos, e);
    s.insert_ensures(pos, e);
    lemma_data_count_insert(s, pos, e);
    lemma_key_kinds(key);
    assert forall|p: int| 0 <= p < t.len() implies is_content_key((#[trigger] t[p]).0) == (
    t[p].1 is Some) by {
        if p < pos {
            assert(t[p] == s[p]);
        } else if p > pos {
            assert(t[p] == s[p - 1]);
        }
    }
    assert forall|other: u64| valid_key(other) implies holds_key(t, content_key(other)) == (
    holds_key(s, content_key(other)) || other == key) && (holds_key(s, content_key(other))
        && other != key ==> t[place_of(t, content_key(other))].1 == s[place_of(
        s,
        content_key(other),
    )].1) && (other == key ==> t[place_of(t, content_key(other))].1 == Some(value)) by {
        lemma_key_kinds(other);
        lemma_holds_insert(s, pos, e, content_key(other));
    }
    assert(entries(t) =~= entries(s).insert(key, value));
}

/// Unlinking an entry's node removes the entry.
pub proof fn lemma_entries_remove_entry<V>(s: Seq<(u64, Option<V>)>, pos: int, key: u64)
    requires
        0 <= pos < s.len(),
        sorted(s),
        well_kinded(s),
        valid_key(key),
        s[pos].0 == content_key(key),
    ensures
        entries(s.remove(pos)) == entries(s).remove(key),
        well_kinded(s.remove(pos)),
        sorted(s.remove(pos)),
        data_count(s.remove(pos)) + 1 == data_count(s),
{
    let t = s.remove(pos);
    s.remove_ensures(pos);
    lemma_data_count_remove(s, pos);
    lemma_key_kinds(key);
    lemma_holds_remove(s, pos, content_key(key));
    assert forall|p: int| 0 <= p < t.len() implies is_content_key((#[trigger] t[p]).0) == (
    t[p].1 is Some) by {
        if p < pos {
            assert(t[p] == s[p]);
        } else {
            assert(t[p] == s[p + 1]);
        }
    }
    assert forall|other: u64| valid_key(other) implies holds_key(t, content_key(other)) == (
    holds_key(s, content_key(other)) && other != key) && (holds_key(t, content_key(other))
        ==> t[place_of(t, content_key(other))].1 == s[place_of(s, content_key(other))].1) by {
        lemma_key_kinds(other);
        lemma_holds_remove(s, pos, content_key(other));
    }
    assert(entries(t) =~= entries(s).remove(key));
}

/// The entries of a sorted sequence are as many as its nodes with a value.
pub proof fn lemma_entries_len<V>(s: Seq<(u64, Option<V>)>)
    requires
        sorted(s),
        well_kinded(s),
    ensures
        entries(s).dom().finite(),
        entries(s).dom().len() == data_count(s),
    decreases s.len(),
{
    if s.len() == 0 {
        assert(entries(s).dom() =~= Set::<u64>::empty());
    } else {
        let t = s.drop_last();
        let e = s.last();
        assert(s =~= t.insert(t.len() as int, e));
        assert forall|p: int, q: int| 0 <= p < q < t.len() implies (#[trigger] t[p]).0 < (
        #[trigger] t[q]).0 by {
            assert(t[p] == s[p] && t[q] == s[q]);
        }
        assert forall|p: int| 0 <= p < t.len() implies is_content_key((#[trigger] t[p]).0) == (
        t[p].1 is Some) by {
            assert(t[p] == s[p]);
        }
        lemma_entries_len(t);
        assert(is_content_key(e.0) == (e.1 is Some));
        if e.1 is Some {
            let key = (reversed(e.0) & !HI_BIT) as u64;
            lemma_list_key_of_entry(e.0);
            lemma_entries_insert_entry(t, t.len() as int, key, e.1.unwrap());
            assert(!entries(t).dom().contains(key)) by {
                if holds_key(t, e.0) {
                    let p = place_of(t, e.0);
                    assert(s[p].0 < s[s.len() - 1].0);
                }
            }
            assert(entries(s).dom() =~= entries(t).dom().insert(key));
        } else {
            lemma_entries_insert_sentinel(t, t.len() as int, e.0);
        }
    }
}

/// An odd list key is the list key of the user key read off it.
proof fn lemma_list_key_of_entry(list_key: u64)
    by (bit_vector)
    requires
        list_key & 1 == 1,
    ensures
        (reversed(list_key) & !0x8000_0000_0000_0000u64) & 0x8000_0000_0000_0000u64 == 0,
        reversed((reversed(list_key) & !0x8000_0000_0000_0000u64) | 0x8000_0000_0000_0000u64)
            == list_key,
{
}

/// What `s` holds under a list key: nothing, a sentinel (`Some(None)`), or
/// an entry with its value.
pub open spec fn node_at<V>(s: Seq<(u64, Option<V>)>, list_key: u64) -> Option<Option<V>> {
    if holds_key(s, list_key) {
        Some(s[place_of(s, list_key)].1)
    } else {
        None
    }
}

/// Linking a node puts it under its key and leaves the other keys as they
/// are.
pub proof fn lemma_node_at_insert<V>(
    s: Seq<(u64, Option<V>)>,
    pos: int,
    e: (u64, Option<V>),
    list_key: u64,
)
    requires
        0 <= pos <= s.len(),
        sorted(s.insert(pos, e)),
    ensures
        node_at(s.insert(pos, e), list_key) == if list_key == e.0 {
            Some(e.1)
        } else {
            node_at(s, list_key)
        },
{
    lemma_holds_insert(s, pos, e, list_key);
    if list_key != e.0 && holds_key(s, list_key) {
    }
}

/// Unlinking a node empties its key and leaves the other keys as they are.
pub proof fn lemma_node_at_remove<V>(s: Seq<(u64, Option<V>)>, pos: int, list_key: u64)
    requires
        0 <= pos < s.len(),
        sorted(s),
    ensures
        node_at(s.remove(pos), list_key) == if list_key == s[pos].0 {
            None
        } else {
            node_at(s, list_key)
        },
{
    lemma_holds_remove(s, pos, list_key);
}

/// A sorted sequence holds, under the key of each of its nodes, that node.
pub proof fn lemma_node_at_place<V>(s: Seq<(u64, Option<V>)>, p: int)
    requires
        sorted(s),
        0 <= p < s.len(),
    ensures
        node_at(s, s[p].0) == Some(s[p].1),
{
    lemma_place_unique(s, p);
}

/// A bucket or user key below `2^63` has its most significant bit clear.
proof fn lemma_below_hi(x: u64)
    by (bit_vector)
    ensures
        x < 0x8000_0000_0000_0000u64 <==> x & 0x8000_0000_0000_0000u64 == 0,
{
}

/// Twice a power of two below `2^63` is a power of two.
proof fn lemma_double(size: u64)
    by (bit_vector)
    requires
        size != 0 && size & ((size - 1) as u64) == 0,
        size < 0x8000_0000_0000_0000u64,
    ensures
        size * 2 <= 0x8000_0000_0000_0000u64,
        (size * 2) as u64 != 0 && ((size * 2) as u64) & ((((size * 2) as u64) - 1) as u64) == 0,
{
}

/// The number of buckets after an entry was added to a table of `size`
/// buckets that held `count` entries: twice as many if there were more than
/// `LOAD_FACTOR` entries per bucket.
pub open spec fn size_after(count: usize, size: u64) -> int {
    if count > size * LOAD_FACTOR {
        size * 2
    } else {
        size as int
    }
}

/// The bucket of `key` in a table of `size` buckets.
pub fn bucket_index(key: u64, size: u64) -> (bucket: u64)
    requires
        is_power_of_two(size),
    ensures
        bucket == bucket_of(key, size),
        bucket < size,
{
    proof {
        lemma_bucket_in_range(key, size);
    }
    key & (size - 1)
}

/// The number of buckets after an entry was added to a table of `size`
/// buckets that held `count` entries.
pub fn grown_size(count: usize, size: u64) -> (new_size: u64)
    requires
        is_power_of_two(size),
        size <= HI_BIT,
    ensures
        new_size == size_after(count, size),
        is_power_of_two(new_size),
        size <= new_size <= HI_BIT,
{
    if size < HI_BIT && count as u64 > size * LOAD_FACTOR {
        proof {
            lemma_double(size);
        }
        size * 2
    } else {
        size
    }
}

/// One operation on a map.
pub enum Op<V> {
    /// Add the entry, if the key has none.
    Insert(u64, V),
    /// Remove the key's entry, if it has one.
    Delete(u64),
    /// Look the key up.
    Lookup(u64),
}

impl<V> Op<V> {
    /// The key that the operation is about.
    pub open spec fn key(self) -> u64 {
        match self {
            Op::Insert(key, _) => key,
            Op::Delete(key) => key,
            Op::Lookup(key) => key,
        }
    }
}

/// What one operation makes of a map.
pub open spec fn step<V>(m: Map<u64, V>, op: Op<V>) -> Map<u64, V> {
    match op {
        Op::Insert(key, value) => if m.contains_key(key) {
            m
        } else {
            m.insert(key, value)
        },
        Op::Delete(key) => m.remove(key),
        Op::Lookup(_) => m,
    }
}

/// What a sequence of operations, applied from the first to the last, makes
/// of a map.
pub open spec fn run<V>(m: Map<u64, V>, ops: Seq<Op<V>>) -> Map<u64, V>
    decreases ops.len(),
{
    if ops.len() == 0 {
        m
    } else {
        run(step(m, ops.first()), ops.drop_first())
    }
}

/// The number of buckets after one operation on a map with the entries `m`
/// and `size` buckets.
pub open spec fn step_size<V>(m: Map<u64, V>, size: u64, op: Op<V>) -> int {
    match op {
        Op::Insert(key, _) => if m.contains_key(key) {
            size as int
        } else {
            size_after(m.dom().len() as usize, size)
        },
        _ => size as int,
    }
}

/// The number of buckets after a sequence of operations on a map with the
/// entries `m` and `size` buckets.
pub open spec fn run_size<V>(m: Map<u64, V>, size: u64, ops: Seq<Op<V>>) -> int
    decreases ops.len(),
{
    if ops.len() == 0 {
        size as int
    } else {
        run_size(step(m, ops.first()), step_size(m, size, ops.first()) as u64, ops.drop_first())
    }
}

/// Map from keys below `2^63` to values.
pub struct SplitOrderedList<V> {
    /// All nodes, sentinels and entries, sorted by list key. A sentinel
    /// has no value.
    list: List<Option<V>>,
    /// For each bucket that was used, the reference to its sentinel, at the
    /// index that is the sentinel's list key.
    buckets: GrowableArray,
    /// Number of buckets.
    size: u64,
    /// Number of entries.
    count: usize,
}

impl<V> SplitOrderedList<V> {
    /// The nodes of the list, sentinels and entries, in list order.
    pub closed spec fn nodes(&self) -> Seq<(u64, Option<V>)> {
        self.list@
    }

    /// The number of buckets.
    pub closed spec fn spec_size(&self) -> u64 {
        self.size
    }

    /// The number of entries.
    pub closed spec fn spec_count(&self) -> usize {
        self.count
    }

    /// The height of the trie that holds the buckets.
    pub closed spec fn bucket_height(&self) -> u64 {
        self.buckets.spec_height()
    }

    /// The place in the list of the sentinel that the trie holds for
    /// `bucket`, if it holds one.
    pub closed spec fn sentinel_place(&self, bucket: u64) -> Option<int> {
        if self.is_set_up(bucket) {
            Some(self.list.position_of(self.buckets@[sentinel_key(bucket)]))
        } else {
            None
        }
    }

    /// Whether the trie holds the sentinel of `bucket`.
    pub closed spec fn is_set_up(&self, bucket: u64) -> bool {
        self.buckets@.contains_key(sentinel_key(bucket)) && self.buckets@[sentinel_key(bucket)]
            != 0
    }

    /// Whether a lookup of `bucket` sets up the bucket `other`: the trie
    /// does not hold `bucket`, and `other` is that bucket or is set up by
    /// the lookup of its parent.
    pub open spec fn sets_up(&self, bucket: u64, other: u64) -> bool
        decreases bucket,
    {
        !self.is_set_up(bucket) && (other == bucket || (bucket != 0 && parent_of(bucket) < bucket
            && self.sets_up(parent_of(bucket), other)))
    }

    /// What the list holds under a list key once `bucket` was looked up:
    /// what it held before, and a sentinel for each bucket that the lookup
    /// sets up.
    pub open spec fn node_after(&self, bucket: u64, list_key: u64) -> Option<Option<V>> {
        if holds_key(self.nodes(), list_key) {
            node_at(self.nodes(), list_key)
        } else if self.sets_up(bucket, reversed(list_key)) {
            Some(None)
        } else {
            None
        }
    }

    /// Whether `self` is what a lookup of `bucket` makes of the trie and
    /// the list of `pre`: the trie holds the buckets it held and those that
    /// the lookup sets up, and the list holds their sentinels besides what
    /// it held.
    pub open spec fn looked_up(&self, pre: &Self, bucket: u64) -> bool {
        &&& forall|other: u64| #[trigger]
            self.is_set_up(other) <==> pre.is_set_up(other) || pre.sets_up(bucket, other)
        &&& forall|list_key: u64| #[trigger]
            node_at(self.nodes(), list_key) == pre.node_after(bucket, list_key)
    }

    /// Which buckets a lookup sets up depends only on which buckets the
    /// trie holds.
    proof fn lemma_sets_up_same(&self, other_map: &Self, bucket: u64, other: u64)
        requires
            forall|b: u64| self.is_set_up(b) == other_map.is_set_up(b),
        ensures
            self.sets_up(bucket, other) == other_map.sets_up(bucket, other),
        decreases bucket,
    {
        if bucket != 0 && parent_of(bucket) < bucket {
            self.lemma_sets_up_same(other_map, parent_of(bucket), other);
        }
    }

    /// The word that the trie holds at `index`, if it is a reference, refers
    /// to the linked sentinel with that list key.
    spec fn bucket_ok(&self, index: u64) -> bool {
        let word = self.buckets@[index];
        word != 0 ==> {
            &&& self.list.is_linked(word)
            &&& self.list.key_of(word) == index
            &&& self.list.value_of(word) is None
        }
    }

    /// The map's invariant.
    pub closed spec fn wf(&self) -> bool {
        &&& self.list.wf()
        &&& self.buckets.wf()
        &&& is_power_of_two(self.size)
        &&& 2 <= self.size <= HI_BIT
        &&& well_kinded(self.list@)
        &&& self.count == data_count(self.list@)
        &&& forall|index: u64|
            self.buckets@.contains_key(index) ==> #[trigger] self.bucket_ok(index)
    }

    /// The map from user keys to values.
    pub closed spec fn view(&self) -> Map<u64, V> {
        entries(self.list@)
    }

    /// The list is sorted by list key, strictly; the entries are the nodes
    /// with a value, and their number is the count.
    pub proof fn lemma_list(&self)
        requires
            self.wf(),
        ensures
            sorted(self.nodes()),
            well_kinded(self.nodes()),
            self@ == entries(self.nodes()),
            self.spec_count() == data_count(self.nodes()),
            self@.dom().finite(),
            self.spec_count() == self@.dom().len(),
    {
        self.lemma_sorted();
        lemma_entries_len(self.list@);
    }

    /// The list is sorted by list key.
    proof fn lemma_sorted(&self)
        requires
            self.list.wf(),
        ensures
            sorted(self.list@),
    {
        assert forall|p: int, q: int| 0 <= p < q < self.list@.len() implies (
        #[trigger] self.list@[p]).0 < (#[trigger] self.list@[q]).0 by {
            self.list.lemma_sorted(p, q);
        }
    }

    /// The number of buckets is a power of two, at least two.
    pub proof fn lemma_size(&self)
        requires
            self.wf(),
        ensures
            is_power_of_two(self.spec_size()),
            2 <= self.spec_size() <= HI_BIT,
    {
    }

    /// The sentinel that the trie holds for a bucket is a node without a
    /// value whose list key is the bucket's number reversed.
    pub proof fn lemma_sentinel(&self, bucket: u64)
        requires
            self.wf(),
            self.is_set_up(bucket),
        ensures
            self.sentinel_place(bucket) is Some,
            node_at(self.nodes(), sentinel_key(bucket)) == Some(None::<V>),
            0 <= self.sentinel_place(bucket).unwrap() < self.nodes().len(),
            self.nodes()[self.sentinel_place(bucket).unwrap()] == (
                sentinel_key(bucket),
                None::<V>,
            ),
    {
        let word = self.buckets@[sentinel_key(bucket)];
        assert(self.bucket_ok(sentinel_key(bucket)));
        self.list.lemma_position_of(word);
        self.list.lemma_ref_at_place(self.list.position_of(word));
        self.lemma_sorted();
        lemma_node_at_place(self.list@, self.list.position_of(word));
    }

    /// A map without entries, with two buckets.
    pub fn new() -> (map: Self)
        ensures
            map.wf(),
            map@ == Map::<u64, V>::empty(),
            map.spec_size() == 2,
            map.spec_count() == 0,
            map.bucket_height() == 0,
            map.nodes() == Seq::<(u64, Option<V>)>::empty(),
            forall|bucket: u64| !map.is_set_up(bucket),
    {
        let map = SplitOrderedList {
            list: List::new(),
            buckets: GrowableArray::new(),
            size: 2,
            count: 0,
        };
        proof {
            assert(is_power_of_two(2)) by (bit_vector);
            assert(map@ =~= Map::<u64, V>::empty());
        }
        map
    }

    /// Returns a cursor at the sentinel of bucket `index`. A bucket that
    /// the trie does not know yet is set up first: its parent bucket is
    /// looked up in the same way, the sentinel is searched from there and
    /// linked if it is missing, and its reference is put into the trie.
    fn lookup_bucket(&mut self, index: u64) -> (cursor: Cursor)
        requires
            old(self).wf(),
            index < old(self).size,
        ensures
            final(self).wf(),
            final(self)@ == old(self)@,
            final(self).size == old(self).size,
            final(self).count == old(self).count,
            final(self).buckets.spec_height() >= old(self).buckets.spec_height(),
            final(self).list.anchors(&cursor),
            0 <= cursor.position() < final(self).list@.len(),
            final(self).list@[cursor.position()] == (sentinel_key(index), None::<V>),
            final(self).sentinel_place(index) == Some(cursor.position()),
            final(self).looked_up(old(self), index),
            forall|s: Slot| #[trigger]
                old(self).buckets.is_slot(s)
                    ==> final(self).buckets.is_slot(s)
                        && final(self).buckets.index_of(s) == old(self).buckets.index_of(s),
        decreases index,
    {
        let ghost pre = *self;
        proof {
            lemma_below_hi(index);
            lemma_key_kinds(index);
            lemma_reverse_bits_involution(index);
        }
        let reversed_key = make_sentinel_key(index);
        let slot = self.buckets.get(reversed_key);
        proof {
            assert forall|i: u64| self.buckets@.contains_key(i) implies #[trigger] self.bucket_ok(
                i,
            ) by {
                if pre.buckets@.contains_key(i) {
                    assert(pre.bucket_ok(i));
                }
            }
            assert forall|other: u64| self.is_set_up(other) == pre.is_set_up(other) by {
                let k = sentinel_key(other);
                if pre.buckets@.contains_key(k) {
                    assert(self.buckets@[k] == pre.buckets@[k]);
                } else if self.buckets@.contains_key(k) {
                    assert(self.buckets@[k] == 0);
                }
            }
        }
        let bucket = self.buckets.load(slot);
        if bucket != 0 {
            proof {
                assert(self.bucket_ok(reversed_key));
                self.list.lemma_position_of(bucket);
                self.list.lemma_ref_at_place(self.list.position_of(bucket));
                assert(self.is_set_up(index));
                assert forall|other: u64| #[trigger]
                    self.is_set_up(other) <==> pre.is_set_up(other) || pre.sets_up(
                        index,
                        other,
                    ) by {}
                assert forall|list_key: u64| #[trigger]
                    node_at(self.nodes(), list_key) == pre.node_after(index, list_key) by {}
            }
            return self.list.cursor_at(bucket);
        }
        let ghost touched = *self;
        proof {
            assert(!touched.is_set_up(index));
        }
        let mut cursor = if index == 0 {
            self.list.head()
        } else {
            proof {
                lemma_parent_smaller(index);
            }
            let parent = parent_bucket(index, self.size);
            self.lookup_bucket(parent)
        };
        let ghost mid = *self;
        let ghost start = cursor.position();
        proof {
            self.list.lemma_cursor(&cursor);
            // What the parent's lookup did, told of the map before.
            assert forall|other: u64| other != index implies (#[trigger] mid.is_set_up(other)
                <==> pre.is_set_up(other) || pre.sets_up(index, other)) by {
                if index != 0 {
                    touched.lemma_sets_up_same(&pre, parent_of(index), other);
                }
            }
            assert forall|list_key: u64| list_key != reversed_key implies #[trigger] node_at(
                mid.nodes(),
                list_key,
            ) == pre.node_after(index, list_key) by {
                lemma_reverse_bits_involution(list_key);
                if index != 0 {
                    touched.lemma_sets_up_same(&pre, parent_of(index), reversed(list_key));
                    assert(node_at(mid.nodes(), list_key) == touched.node_after(
                        parent_of(index),
                        list_key,
                    ));
                }
            }
        }
        let found = self.list.find_harris(&mut cursor, reversed_key);
        proof {
            self.lemma_sorted();
            lemma_search_decides(self.list@, start, cursor.position(), reversed_key);
        }
        if !found {
            let ghost pos = cursor.position();
            self.list.insert(&mut cursor, reversed_key, None);
            proof {
                self.lemma_sorted();
                lemma_entries_insert_sentinel(mid.list@, pos, reversed_key);
                assert forall|i: u64| self.buckets@.contains_key(i)
                    implies #[trigger] self.bucket_ok(
                    i,
                ) by {
                    assert(mid.bucket_ok(i));
                    if mid.buckets@[i] != 0 {
                        mid.list.lemma_linked_is_node(mid.buckets@[i]);
                    }
                }
                assert forall|list_key: u64| list_key != reversed_key implies #[trigger] node_at(
                    self.nodes(),
                    list_key,
                ) == node_at(mid.nodes(), list_key) by {
                    lemma_node_at_insert(mid.list@, pos, (reversed_key, None::<V>), list_key);
                }
            }
        }
        let ghost linked = *self;
        proof {
            lemma_node_at_place(self.list@, cursor.position());
        }
        let word = cursor.curr();
        proof {
            self.buckets.lemma_index_of_slot(slot);
            self.list.lemma_cursor(&cursor);
            self.list.lemma_ref_at_place(cursor.position());
        }
        let swapped = self.buckets.compare_and_set(slot, 0, word);
        proof {
            assert forall|i: u64| self.buckets@.contains_key(i) implies #[trigger] self.bucket_ok(
                i,
            ) by {
                if i != reversed_key || !swapped {
                    assert(linked.bucket_ok(i));
                }
            }
            if !swapped {
                let other = self.buckets@[reversed_key];
                assert(self.bucket_ok(reversed_key));
                self.list.lemma_position_of(other);
                self.list.lemma_ref_at_place(self.list.position_of(other));
                lemma_place_unique(self.list@, self.list.position_of(other));
                lemma_place_unique(self.list@, cursor.position());
            }
            assert forall|other: u64| #[trigger]
                self.is_set_up(other) <==> pre.is_set_up(other) || pre.sets_up(index, other) by {
                if other != index {
                    lemma_reverse_bits_involution(other);
                    assert(sentinel_key(other) != reversed_key);
                    assert(self.is_set_up(other) == mid.is_set_up(other));
                }
            }
            assert forall|list_key: u64| #[trigger]
                node_at(self.nodes(), list_key) == pre.node_after(index, list_key) by {
                if list_key != reversed_key {
                    assert(node_at(self.nodes(), list_key) == node_at(mid.nodes(), list_key));
                } else if holds_key(pre.nodes(), list_key) {
                    let p = place_of(pre.nodes(), list_key);
                    assert(is_content_key(pre.nodes()[p].0) == (pre.nodes()[p].1 is Some));
                }
            }
        }
        cursor
    }

    /// Moves a cursor from the sentinel of the key's bucket to the place of
    /// `key`. Returns the number of buckets, whether the key was found, and
    /// the cursor: at the key's node if it was found, else at the place
    /// where that node belongs.
    fn find(&mut self, key: u64) -> (r: (u64, bool, Cursor))
        requires
            old(self).wf(),
            valid_key(key),
        ensures
            final(self).wf(),
            final(self)@ == old(self)@,
            final(self).size == old(self).size,
            final(self).count == old(self).count,
            final(self).buckets.spec_height() >= old(self).buckets.spec_height(),
            r.0 == old(self).size,
            r.1 == old(self)@.contains_key(key),
            final(self).looked_up(old(self), bucket_of(key, old(self).size)),
            final(self).list.anchors(&r.2),
            final(self).list.holds(&r.2),
            0 <= r.2.position() <= final(self).list@.len(),
            r.1 ==> r.2.position() < final(self).list@.len() && final(self).list@[r.2.position()]
                == (content_key(key), Some(old(self)@[key])),
            !r.1 ==> (r.2.position() > 0 ==> final(self).list@[r.2.position() - 1].0
                < content_key(key)) && (r.2.position() < final(self).list@.len() ==> content_key(
                key,
            ) < final(self).list@[r.2.position()].0),
    {
        let size = self.size;
        proof {
            lemma_sentinel_below_content(key, size);
            lemma_key_kinds(key);
        }
        let bucket_key = bucket_index(key, size);
        let mut cursor = self.lookup_bucket(bucket_key);
        let list_key = make_content_key(key);
        let ghost start = cursor.position();
        let found = self.list.find_harris(&mut cursor, list_key);
        proof {
            self.lemma_sorted();
            lemma_search_decides(self.list@, start, cursor.position(), list_key);
            if found {
                lemma_place_unique(self.list@, cursor.position());
            }
        }
        (size, found, cursor)
    }

    /// The value of `key`, if the map has the key. The map holds the same
    /// entries afterwards; buckets that were not used before may have been
    /// set up.
    pub fn lookup(&mut self, key: u64) -> (value: Option<&V>)
        requires
            old(self).wf(),
            valid_key(key),
        ensures
            final(self).wf(),
            final(self)@ == old(self)@,
            final(self).spec_size() == old(self).spec_size(),
            final(self).spec_count() == old(self).spec_count(),
            final(self).bucket_height() >= old(self).bucket_height(),
            final(self).looked_up(old(self), bucket_of(key, old(self).spec_size())),
            old(self)@.contains_key(key) ==> value == Some(&old(self)@[key]),
            !old(self)@.contains_key(key) ==> value is None,
    {
        let (_, found, cursor) = self.find(key);
        if found {
            self.list.lookup(&cursor).unwrap().as_ref()
        } else {
            None
        }
    }

    /// Adds the entry `key`, `value` if the map has no entry for `key`;
    /// otherwise hands `value` back and changes no entry. After an entry
    /// was added, the number of buckets is doubled if the number of
    /// entries before it exceeded `LOAD_FACTOR` entries per bucket.
    pub fn insert(&mut self, key: u64, value: V) -> (r: Result<(), V>)
        requires
            old(self).wf(),
            valid_key(key),
        ensures
            final(self).wf(),
            final(self).bucket_height() >= old(self).bucket_height(),
            final(self).spec_size() >= old(self).spec_size(),
            forall|other: u64| #[trigger]
                final(self).is_set_up(other) <==> old(self).is_set_up(other) || old(self).sets_up(
                    bucket_of(key, old(self).spec_size()),
                    other,
                ),
            forall|list_key: u64| #[trigger]
                node_at(final(self).nodes(), list_key) == if list_key == content_key(key)
                    && !old(self)@.contains_key(key) {
                    Some(Some(value))
                } else {
                    old(self).node_after(bucket_of(key, old(self).spec_size()), list_key)
                },
            old(self)@.contains_key(key) ==> {
                &&& r == Err::<(), V>(value)
                &&& final(self)@ == old(self)@
                &&& final(self).spec_count() == old(self).spec_count()
                &&& final(self).spec_size() == old(self).spec_size()
            },
            !old(self)@.contains_key(key) ==> {
                &&& r == Ok::<(), V>(())
                &&& final(self)@ == old(self)@.insert(key, value)
                &&& final(self).spec_count() == old(self).spec_count() + 1
                &&& final(self).spec_size() == size_after(
                    old(self).spec_count(),
                    old(self).spec_size(),
                )
            },
    {
        let (size, found, mut cursor) = self.find(key);
        if found {
            return Err(value);
        }
        let ghost mid = *self;
        let ghost pos = cursor.position();
        let list_key = make_content_key(key);
        self.list.insert(&mut cursor, list_key, Some(value));
        proof {
            self.lemma_sorted();
            lemma_entries_insert_entry(mid.list@, pos, key, value);
            self.list.lemma_len_fits();
            lemma_data_count_bound(self.list@);
            assert forall|i: u64| self.buckets@.contains_key(i) implies #[trigger] self.bucket_ok(
                i,
            ) by {
                assert(mid.bucket_ok(i));
                if mid.buckets@[i] != 0 {
                    mid.list.lemma_linked_is_node(mid.buckets@[i]);
                }
            }
            assert forall|list_key: u64| #[trigger]
                node_at(self.nodes(), list_key) == if list_key == content_key(key) {
                    Some(Some(value))
                } else {
                    node_at(mid.nodes(), list_key)
                } by {
                lemma_node_at_insert(mid.list@, pos, (content_key(key), Some(value)), list_key);
            }
        }
        let ghost linked = *self;
        let count = self.count;
        self.count = count + 1;
        self.size = grown_size(count, size);
        proof {
            assert forall|i: u64| self.buckets@.contains_key(i) implies #[trigger] self.bucket_ok(
                i,
            ) by {
                assert(linked.bucket_ok(i));
            }
            assert forall|other: u64| #[trigger]
                self.is_set_up(other) <==> old(self).is_set_up(other) || old(self).sets_up(
                    bucket_of(key, old(self).spec_size()),
                    other,
                ) by {
                assert(self.is_set_up(other) == mid.is_set_up(other));
            }
            assert forall|list_key: u64| #[trigger]
                node_at(self.nodes(), list_key) == if list_key == content_key(key) {
                    Some(Some(value))
                } else {
                    old(self).node_after(bucket_of(key, old(self).spec_size()), list_key)
                } by {
                assert(node_at(self.nodes(), list_key) == node_at(linked.nodes(), list_key));
                if list_key != content_key(key) {
                    assert(node_at(mid.nodes(), list_key) == old(self).node_after(
                        bucket_of(key, old(self).spec_size()),
                        list_key,
                    ));
                }
            }
        }
        Ok(())
    }

    /// Removes the entry of `key` and returns its value, if the map has the
    /// key; otherwise changes no entry.
    pub fn delete(&mut self, key: u64) -> (r: Result<&V, ()>)
        requires
            old(self).wf(),
            valid_key(key),
        ensures
            final(self).wf(),
            final(self).spec_size() == old(self).spec_size(),
            final(self).bucket_height() >= old(self).bucket_height(),
            forall|other: u64| #[trigger]
                final(self).is_set_up(other) <==> old(self).is_set_up(other) || old(self).sets_up(
                    bucket_of(key, old(self).spec_size()),
                    other,
                ),
            forall|list_key: u64| #[trigger]
                node_at(final(self).nodes(), list_key) == if list_key == content_key(key)
                    && old(self)@.contains_key(key) {
                    None
                } else {
                    old(self).node_after(bucket_of(key, old(self).spec_size()), list_key)
                },
            old(self)@.contains_key(key) ==> {
                &&& r == Ok::<&V, ()>(&old(self)@[key])
                &&& final(self)@ == old(self)@.remove(key)
                &&& final(self).spec_count() == old(self).spec_count() - 1
            },
            !old(self)@.contains_key(key) ==> {
                &&& r is Err
                &&& final(self)@ == old(self)@
                &&& final(self).spec_count() == old(self).spec_count()
            },
    {
        let (_, found, mut cursor) = self.find(key);
        if !found {
            return Err(());
        }
        let ghost mid = *self;
        let ghost pos = cursor.position();
        proof {
            self.lemma_sorted();
            lemma_entries_remove_entry(self.list@, pos, key);
            self.list.lemma_cursor(&cursor);
            self.list.lemma_ref_at_place(pos);
        }
        let victim = cursor.curr();
        self.count = self.count - 1;
        self.list.delete(&mut cursor);
        proof {
            mid.list.lemma_linked_is_node(victim);
            assert forall|i: u64| self.buckets@.contains_key(i) implies #[trigger] self.bucket_ok(
                i,
            ) by {
                assert(mid.bucket_ok(i));
                if mid.buckets@[i] != 0 {
                    mid.list.lemma_linked_is_node(mid.buckets@[i]);
                }
            }
            assert forall|other: u64| #[trigger]
                self.is_set_up(other) <==> old(self).is_set_up(other) || old(self).sets_up(
                    bucket_of(key, old(self).spec_size()),
                    other,
                ) by {
                assert(self.is_set_up(other) == mid.is_set_up(other));
            }
            assert forall|list_key: u64| #[trigger]
                node_at(self.nodes(), list_key) == if list_key == content_key(key) {
                    None
                } else {
                    old(self).node_after(bucket_of(key, old(self).spec_size()), list_key)
                } by {
                lemma_node_at_remove(mid.list@, pos, list_key);
                if list_key != content_key(key) {
                    assert(node_at(mid.nodes(), list_key) == old(self).node_after(
                        bucket_of(key, old(self).spec_size()),
                        list_key,
                    ));
                }
            }
        }
        Ok(self.list.value(victim).as_ref().unwrap())
    }

    /// Applies one operation.
    pub fn apply(&mut self, op: Op<V>)
        requires
            old(self).wf(),
            valid_key(op.key()),
        ensures
            final(self).wf(),
            final(self)@ == step(old(self)@, op),
            final(self).spec_count() == final(self)@.dom().len(),
            final(self).spec_size() == step_size(old(self)@, old(self).spec_size(), op),
            final(self).spec_size() >= old(self).spec_size(),
            final(self).bucket_height() >= old(self).bucket_height(),
    {
        proof {
            self.lemma_list();
        }
        match op {
            Op::Insert(key, value) => {
                let _ = self.insert(key, value);
            },
            Op::Delete(key) => {
                let ghost before = self@;
                let _ = self.delete(key);
                proof {
                    if !before.contains_key(key) {
                        assert(before.remove(key) =~= before);
                    }
                }
            },
            Op::Lookup(key) => {
                let _ = self.lookup(key);
            },
        }
        proof {
            self.lemma_list();
        }
    }

    /// Applies a sequence of operations, from the first to the last. The
    /// map then holds what the operations make of a plain map with the
    /// same entries.
    pub fn replay(&mut self, ops: Vec<Op<V>>)
        requires
            old(self).wf(),
            forall|i: int| 0 <= i < ops@.len() ==> valid_key((#[trigger] ops@[i]).key()),
        ensures
            final(self).wf(),
            final(self)@ == run(old(self)@, ops@),
            final(self).spec_count() == final(self)@.dom().len(),
            final(self).spec_size() == run_size(old(self)@, old(self).spec_size(), ops@),
            final(self).spec_size() >= old(self).spec_size(),
            final(self).bucket_height() >= old(self).bucket_height(),
    {
        let mut ops = ops;
        let ghost all = ops@;
        proof {
            self.lemma_list();
        }
        while ops.len() > 0
            invariant
                self.wf(),
                run(self@, ops@) == run(old(self)@, all),
                run_size(self@, self.spec_size(), ops@) == run_size(
                    old(self)@,
                    old(self).spec_size(),
                    all,
                ),
                self.spec_count() == self@.dom().len(),
                forall|i: int| 0 <= i < ops@.len() ==> valid_key((#[trigger] ops@[i]).key()),
                self.spec_size() >= old(self).spec_size(),
                self.bucket_height() >= old(self).bucket_height(),
            decreases ops@.len(),
        {
            let ghost rest = ops@;
            let op = ops.remove(0);
            proof {
                assert(ops@ =~= rest.drop_first());
                assert(op == rest.first());
                assert forall|i: int| 0 <= i < ops@.len() implies valid_key(
                    (#[trigger] ops@[i]).key(),
                ) by {
                    assert(ops@[i] == rest[i + 1]);
                }
            }
            self.apply(op);
        }
    }

    /// The list keys of all nodes, sentinels and entries, in list order.
    pub fn list_keys(&self) -> (keys: Vec<u64>)
        requires
            self.wf(),
        ensures
            keys@.len() == self.nodes().len(),
            forall|p: int| 0 <= p < keys@.len() ==> keys@[p] == (#[trigger] self.nodes()[p]).0,
    {
        self.list.keys()
    }

    /// The height of the trie that holds the buckets.
    pub fn height(&self) -> (height: u64)
        ensures
            height == self.bucket_height(),
    {
        self.buckets.height()
    }

    /// The number of buckets.
    pub fn size(&self) -> (size: u64)
        ensures
            size == self.spec_size(),
    {
        self.size
    }

    /// The number of entries.
    pub fn count(&self) -> (count: usize)
        ensures
            count == self.spec_count(),
    {
        self.count
    }
}

impl<V> Default for SplitOrderedList<V> {
    /// A map without entries, as [`SplitOrderedList::new`] makes it.
    fn default() -> (map: Self)
        ensures
            map.wf(),
            map@ == Map::<u64, V>::empty(),
            map.spec_size() == 2,
            map.spec_count() == 0,
            map.bucket_height() == 0,
            map.nodes() == Seq::<(u64, Option<V>)>::empty(),
            forall|bucket: u64| !map.is_set_up(bucket),
    {
        Self::new()
    }
}

} // verus!
