//! Sorted set.
//!
//! The elements are kept in ascending order, each once. A search walks
//! from the smallest element to the first one that is not below the key.
use vstd::laws_cmp::{
    obeys_cmp, obeys_cmp_ord, obeys_cmp_partial_ord, obeys_partial_cmp_spec_properties,
};
use vstd::laws_eq::{obeys_concrete_eq, obeys_eq_spec_properties};
use vstd::prelude::*;
use vstd::std_specs::cmp::{OrdSpec, PartialEqSpec, PartialOrdIs, PartialOrdSpec};

verus! {

/// Whether the comparisons of `T` are a total order that the verifier
/// knows, and its `==` holds of equal values only.
pub open spec fn lawful<T: Ord>() -> bool {
    obeys_cmp::<T>() && obeys_concrete_eq::<T>()
}

/// Whether `a` is below `b`.
pub open spec fn below<T: Ord>(a: T, b: T) -> bool {
    a.is_lt(&b)
}

/// Whether the elements of `s` ascend strictly.
pub open spec fn ascending<T: Ord>(s: Seq<T>) -> bool {
    forall|i: int, j: int| 0 <= i < j < s.len() ==> below(#[trigger] s[i], #[trigger] s[j])
}

/// The number of elements at the front of `s` that are below `key`: the
/// place where `key` stands, or belongs, in an ascending `s`.
pub open spec fn rank<T: Ord>(s: Seq<T>, key: T) -> int
    decreases s.len(),
{
    if s.len() == 0 {
        0
    } else if below(s.first(), key) {
        1 + rank(s.drop_first(), key)
    } else {
        0
    }
}

/// Of two values exactly one holds: the first is below the second, they
/// are equal, or the second is below the first. "At most" is "below or
/// equal".
pub proof fn lemma_total<T: Ord>(a: T, b: T)
    requires
        lawful::<T>(),
    ensures
        below(a, b) || a == b || below(b, a),
        !(below(a, b) && a == b),
        !(below(a, b) && below(b, a)),
        !(a == b && below(b, a)),
        a.is_le(&b) == (below(a, b) || a == b),
        a.eq_spec(&b) == (a == b),
        T::obeys_partial_cmp_spec(),
        T::obeys_eq_spec(),
{
    reveal(obeys_cmp_ord);
    reveal(obeys_cmp_partial_ord);
    reveal(obeys_partial_cmp_spec_properties);
    reveal(obeys_concrete_eq);
    reveal(obeys_eq_spec_properties);
    assert(a.partial_cmp_spec(&b) == Some(a.cmp_spec(&b)));
    assert(b.partial_cmp_spec(&a) == Some(b.cmp_spec(&a)));
    assert(a.eq_spec(&b) <==> a == b);
    assert(b.eq_spec(&a) <==> b == a);
}

/// Being below is transitive.
pub proof fn lemma_below_chain<T: Ord>(a: T, b: T, c: T)
    requires
        lawful::<T>(),
        below(a, b),
        below(b, c),
    ensures
        below(a, c),
{
    reveal(obeys_partial_cmp_spec_properties);
}

/// In an ascending sequence the rank of a key is the place `p` before
/// which all elements are below the key, and at which none is.
pub proof fn lemma_rank<T: Ord>(s: Seq<T>, key: T, p: int)
    requires
        lawful::<T>(),
        0 <= p <= s.len(),
        forall|i: int| 0 <= i < p ==> below(#[trigger] s[i], key),
        p < s.len() ==> !below(s[p], key),
    ensures
        rank(s, key) == p,
    decreases s.len(),
{
    if s.len() > 0 && p > 0 {
        assert(below(s[0], key));
        let t = s.drop_first();
        assert forall|i: int| 0 <= i < p - 1 implies below(#[trigger] t[i], key) by {
            assert(t[i] == s[i + 1]);
        }
        lemma_rank(t, key, p - 1);
    }
}

/// Sorted set of values of an ordered type.
#[derive(Debug)]
pub struct OrderedListSet<T> {
    /// The elements, ascending.
    items: Vec<T>,
}

/// A place in the set: the number of elements before it.
struct Cursor {
    pos: usize,
}

impl Cursor {
    /// Moves the cursor forward to the first element, from its place on,
    /// that is not below `key`, and says whether that element is `key`.
    fn find<T: Ord>(&mut self, items: &Vec<T>, key: &T) -> (found: bool)
        requires
            lawful::<T>(),
            ascending(items@),
            old(self).pos <= items@.len(),
            forall|i: int| 0 <= i < old(self).pos ==> below(#[trigger] items@[i], *key),
        ensures
            final(self).pos == rank(items@, *key),
            final(self).pos <= items@.len(),
            found == items@.contains(*key),
            found ==> final(self).pos < items@.len() && items@[final(self).pos as int] == *key,
    {
        let mut found = false;
        let mut done = false;
        while !done
            invariant
                lawful::<T>(),
                ascending(items@),
                self.pos <= items@.len(),
                forall|i: int| 0 <= i < self.pos ==> below(#[trigger] items@[i], *key),
                !done ==> !found,
                done ==> (self.pos < items@.len() ==> !below(items@[self.pos as int], *key)),
                done ==> found == (self.pos < items@.len() && items@[self.pos as int] == *key),
            decreases items@.len() - self.pos + if done { 0int } else { 1int },
        {
            if self.pos == items.len() {
                done = true;
            } else {
                proof {
                    lemma_total(*key, items@[self.pos as int]);
                    lemma_total(items@[self.pos as int], *key);
                }
                if *key <= items[self.pos] {
                    found = *key == items[self.pos];
                    done = true;
                } else {
                    self.pos = self.pos + 1;
                }
            }
        }
        proof {
            lemma_rank(items@, *key, self.pos as int);
            if !found && items@.contains(*key) {
                let i = choose|i: int| 0 <= i < items@.len() && items@[i] == *key;
                lemma_total(items@[i], *key);
                if i > self.pos {
                    lemma_total(*key, items@[self.pos as int]);
                    lemma_below_chain(*key, items@[self.pos as int], items@[i]);
                }
            }
        }
        found
    }
}

impl<T> OrderedListSet<T> {
    /// The elements in ascending order.
    pub closed spec fn view(&self) -> Seq<T> {
        self.items@
    }

    /// A set without elements.
    pub fn new() -> (set: Self)
        ensures
            set@ == Seq::<T>::empty(),
    {
        OrderedListSet { items: Vec::new() }
    }

    /// A walk over the elements, in ascending order.
    pub fn iter(&self) -> (iter: Iter<'_, T>)
        ensures
            iter.remaining() == self@,
    {
        Iter { items: &self.items, pos: 0 }
    }
}

impl<T: Ord> OrderedListSet<T> {
    /// The set's invariant: the elements ascend strictly, so that none
    /// occurs twice.
    pub open spec fn wf(&self) -> bool {
        ascending(self@)
    }

    /// Searches `key`. Returns whether it is in the set, and its rank: the
    /// place where it stands or belongs.
    pub fn find(&self, key: &T) -> (r: (bool, usize))
        requires
            lawful::<T>(),
            self.wf(),
        ensures
            r.0 == self@.contains(*key),
            r.1 == rank(self@, *key),
            r.1 <= self@.len(),
            r.0 ==> r.1 < self@.len() && self@[r.1 as int] == *key,
    {
        let mut cursor = Cursor { pos: 0 };
        let result = cursor.find(&self.items, key);
        (result, cursor.pos)
    }

    /// Whether the set contains `key`.
    pub fn contains(&self, key: &T) -> (yes: bool)
        requires
            lawful::<T>(),
            self.wf(),
        ensures
            yes == self@.contains(*key),
    {
        let (result, _) = self.find(key);
        result
    }

    /// Adds `key` to the set. If the set has the key already, it is handed
    /// back and the set stays as it is.
    pub fn insert(&mut self, key: T) -> (r: Result<(), T>)
        requires
            lawful::<T>(),
            old(self).wf(),
        ensures
            final(self).wf(),
            old(self)@.contains(key) ==> r == Err::<(), T>(key) && final(self)@ == old(self)@,
            !old(self)@.contains(key) ==> r == Ok::<(), T>(()) && final(self)@ == old(self)@.insert(
                rank(old(self)@, key),
                key,
            ),
    {
        let (result, pos) = self.find(&key);
        if result {
            return Err(key);
        }
        let ghost pre = self.items@;
        proof {
            pre.insert_ensures(pos as int, key);
            lemma_rank_splits(pre, key);
            assert forall|i: int, j: int| 0 <= i < j < pre.len() + 1 implies below(
                #[trigger] pre.insert(pos as int, key)[i],
                #[trigger] pre.insert(pos as int, key)[j],
            ) by {
                let t = pre.insert(pos as int, key);
                if j < pos {
                    assert(t[i] == pre[i] && t[j] == pre[j]);
                } else if j == pos {
                    assert(t[i] == pre[i]);
                } else if i < pos {
                    assert(t[i] == pre[i] && t[j] == pre[j - 1]);
                } else if i == pos {
                    assert(t[j] == pre[j - 1]);
                    lemma_total(key, pre[pos as int]);
                    if j - 1 > pos {
                        lemma_below_chain(key, pre[pos as int], pre[j - 1]);
                    }
                } else {
                    assert(t[i] == pre[i - 1] && t[j] == pre[j - 1]);
                }
            }
        }
        self.items.insert(pos, key);
        Ok(())
    }

    /// Takes `key` out of the set and returns the element that was in it.
    pub fn remove(&mut self, key: &T) -> (r: Result<T, ()>)
        requires
            lawful::<T>(),
            old(self).wf(),
        ensures
            final(self).wf(),
            old(self)@.contains(*key)
                ==> r == Ok::<T, ()>(*key)
                    && final(self)@ == old(self)@.remove(rank(old(self)@, *key)),
            !old(self)@.contains(*key) ==> r == Err::<T, ()>(()) && final(self)@ == old(self)@,
    {
        let (result, pos) = self.find(key);
        if !result {
            return Err(());
        }
        let ghost pre = self.items@;
        proof {
            pre.remove_ensures(pos as int);
            assert forall|i: int, j: int| 0 <= i < j < pre.len() - 1 implies below(
                #[trigger] pre.remove(pos as int)[i],
                #[trigger] pre.remove(pos as int)[j],
            ) by {
                let a = if i < pos { i } else { i + 1 };
                let b = if j < pos { j } else { j + 1 };
                assert(below(pre[a], pre[b]));
            }
        }
        let removed = self.items.remove(pos);
        Ok(removed)
    }
}

/// What the rank of a key says of an ascending sequence: the elements
/// before it are below the key, and the element at it is not.
pub proof fn lemma_rank_splits<T: Ord>(s: Seq<T>, key: T)
    requires
        lawful::<T>(),
        ascending(s),
    ensures
        0 <= rank(s, key) <= s.len(),
        forall|i: int| 0 <= i < rank(s, key) ==> below(#[trigger] s[i], key),
        rank(s, key) < s.len() ==> !below(s[rank(s, key)], key),
    decreases s.len(),
{
    if s.len() > 0 && below(s.first(), key) {
        let t = s.drop_first();
        assert forall|i: int, j: int| 0 <= i < j < t.len() implies below(
            #[trigger] t[i],
            #[trigger] t[j],
        ) by {
            assert(t[i] == s[i + 1] && t[j] == s[j + 1]);
        }
        lemma_rank_splits(t, key);
        assert forall|i: int| 0 <= i < rank(s, key) implies below(#[trigger] s[i], key) by {
            if i > 0 {
                assert(s[i] == t[i - 1]);
            }
        }
    }
}

/// A walk over the elements of a set.
#[derive(Debug)]
pub struct Iter<'l, T> {
    items: &'l Vec<T>,
    pos: usize,
}

impl<'l, T> Iter<'l, T> {
    /// The elements that the walk has not yielded yet.
    pub closed spec fn remaining(&self) -> Seq<T> {
        if self.pos <= self.items@.len() {
            self.items@.subrange(self.pos as int, self.items@.len() as int)
        } else {
            Seq::empty()
        }
    }

    /// Yields the next element, if one is left.
    pub fn next(&mut self) -> (item: Option<&'l T>)
        ensures
            old(self).remaining().len() == 0
                ==> item is None && final(self).remaining() == old(self).remaining(),
            old(self).remaining().len() > 0
                ==> item == Some(&old(self).remaining()[0])
                    && final(self).remaining() == old(self).remaining().drop_first(),
    {
        if self.pos >= self.items.len() {
            return None;
        }
        let item = &self.items[self.pos];
        self.pos = self.pos + 1;
        proof {
            assert(self.remaining() =~= old(self).remaining().drop_first());
        }
        Some(item)
    }
}

impl<T> Default for OrderedListSet<T> {
    /// A set without elements, as [`OrderedListSet::new`] makes it.
    fn default() -> (set: Self)
        ensures
            set@ == Seq::<T>::empty(),
    {
        Self::new()
    }
}

} // verus!
