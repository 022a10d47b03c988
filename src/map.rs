//! A map from small integers to values, held as a vector of slots that are
//! empty where a key is absent.
use vstd::prelude::*;
use crate::vec::{count_true, results_of, VecUtils};

verus! {

/// Number of occupied slots of `s`.
pub open spec fn occupied<T>(s: Seq<Option<T>>) -> nat
    decreases s.len(),
{
    if s.len() == 0 {
        0
    } else {
        occupied(s.drop_last()) + if s.last() is Some { 1nat } else { 0nat }
    }
}

/// `s` followed by empty slots up to length `n`.
pub open spec fn pad_slots<T>(s: Seq<Option<T>>, n: nat) -> Seq<Option<T>> {
    s + Seq::new((n - s.len()) as nat, |_i: int| None::<T>)
}

proof fn lemma_count_occupied<T>(s: Seq<Option<T>>, bs: Seq<bool>)
    requires
        bs.len() == s.len(),
        forall|k: int| 0 <= k < s.len() ==> #[trigger] bs[k] == s[k] is Some,
    ensures
        count_true(bs) == occupied(s),
    decreases s.len(),
{
    if s.len() > 0 {
        lemma_count_occupied(s.drop_last(), bs.drop_last());
    }
}

/// Whether a slot is occupied.
fn is_occupied<T>(elt: &Option<T>) -> (b: bool)
    ensures
        b == elt is Some,
{
    elt.is_some()
}

/// A map from `usize` keys to values, one slot per key up to the largest
/// key that was made addressable.
#[derive(Clone, Debug, PartialEq, Eq, Hash)]
pub struct SmallIntMap<T> {
    v: Vec<Option<T>>,
}

impl<T> View for SmallIntMap<T> {
    type V = Seq<Option<T>>;

    closed spec fn view(&self) -> Seq<Option<T>> {
        self.v@
    }
}

impl<T> SmallIntMap<T> {
    /// A map with no slots.
    pub fn new() -> (r: SmallIntMap<T>)
        ensures
            r@ == Seq::<Option<T>>::empty(),
    {
        SmallIntMap { v: Vec::new() }
    }

    /// Appends an occupied slot holding `v`.
    pub fn push(&mut self, v: T)
        ensures
            final(self)@ == old(self)@.push(Some(v)),
    {
        self.v.push(Some(v));
    }

    /// Takes the value out of the slot at `key`, leaving it empty; `None`
    /// when the slot is empty or past the end.
    pub fn pop(&mut self, key: &usize) -> (r: Option<T>)
        ensures
            *key < old(self)@.len() ==> r == old(self)@[*key as int] && final(self)@ == old(
                self,
            )@.update(*key as int, None),
            *key >= old(self)@.len() ==> r is None && final(self)@ == old(self)@,
    {
        if *key >= self.v.len() {
            return None;
        }
        self.v[*key].take()
    }

    /// Whether no slot is occupied.
    pub fn is_empty(&self) -> (r: bool)
        ensures
            r == forall|k: int| 0 <= k < self@.len() ==> #[trigger] self@[k] is None,
    {
        let mut i: usize = 0;
        while i < self.v.len()
            invariant
                i <= self@.len(),
                forall|k: int| 0 <= k < i ==> #[trigger] self@[k] is None,
            decreases self@.len() - i,
        {
            if self.v[i].is_some() {
                return false;
            }
            i = i + 1;
        }
        true
    }

    /// Number of occupied slots.
    pub fn len(&self) -> (r: usize)
        ensures
            r == occupied(self@),
    {
        let f = is_occupied::<T>;
        let r = self.v.count(&f);
        proof {
            let bs = choose|bs: Seq<bool>| results_of(f, self@, bs) && r == count_true(bs);
            assert forall|k: int| 0 <= k < self@.len() implies #[trigger] bs[k] == self@[k] is Some by {
                assert(f.ensures((&self@[k],), bs[k]));
            }
            lemma_count_occupied(self@, bs);
        }
        r
    }

    /// Drops every slot.
    pub fn clear(&mut self)
        ensures
            final(self)@ == Seq::<Option<T>>::empty(),
    {
        self.v.clear();
    }

    /// Whether `key` has a value.
    pub open spec fn has_key(&self, key: usize) -> bool {
        key < self@.len() && self@[key as int] is Some
    }

    /// A mutable reference to the value at `key`, if there is one. Any slot
    /// of the vector is addressable, whatever the number of occupied ones.
    pub fn find_mut(&mut self, key: &usize) -> (r: Option<&mut T>)
        ensures
            r is Some == old(self).has_key(*key),
            r is Some ==> old(self)@[*key as int] == Some(*r->0) && final(self)@ == old(self)@.update(
                *key as int,
                Some(*final(r->0)),
            ),
            r is None ==> final(self)@ == old(self)@,
    {
        if *key < self.v.len() {
            self.v[*key].as_mut()
        } else {
            None
        }
    }

    /// The value at `key`, if there is one. Any slot of the vector is
    /// addressable, whatever the number of occupied ones.
    pub fn find(&self, key: &usize) -> (r: Option<&T>)
        ensures
            r is Some == self.has_key(*key),
            r is Some ==> self@[*key as int] == Some(*r->0),
    {
        if *key < self.v.len() {
            self.v[*key].as_ref()
        } else {
            None
        }
    }

    /// Whether `key` has a value.
    pub fn contains_key(&self, key: &usize) -> (r: bool)
        ensures
            r == self.has_key(*key),
    {
        self.find(key).is_some()
    }

    /// Stores `value` at `key`, first appending empty slots until `key` is
    /// addressable. Returns whether `key` had no value before.
    pub fn insert(&mut self, key: usize, value: T) -> (r: bool)
        requires
            key < usize::MAX,
        ensures
            r == !old(self).has_key(key),
            final(self)@ == if key < old(self)@.len() {
                old(self)@
            } else {
                pad_slots(old(self)@, (key + 1) as nat)
            }.update(key as int, Some(value)),
    {
        let exists = self.contains_key(&key);
        let len = self.v.len();
        if len <= key {
            while self.v.len() <= key
                invariant
                    self@ == pad_slots(old(self)@, self@.len()),
                    len == old(self)@.len(),
                    len <= self@.len() <= key + 1,
                    key < usize::MAX,
                decreases key + 1 - self@.len(),
            {
                self.v.push(None);
                assert(self@ =~= pad_slots(old(self)@, self@.len()));
            }
        } else {
            assert(self@ =~= old(self)@);
        }
        self.v[key] = Some(value);
        !exists
    }

    /// Removes the slot at `key`, so that every later slot moves down by one
    /// key. Returns whether it held a value; `false`, with nothing changed,
    /// when `key` is past the end.
    pub fn remove(&mut self, key: &usize) -> (r: bool)
        ensures
            r == old(self).has_key(*key),
            final(self)@ == if *key < old(self)@.len() {
                old(self)@.remove(*key as int)
            } else {
                old(self)@
            },
    {
        if *key >= self.v.len() {
            return false;
        }
        self.v.remove(*key).is_some()
    }

    /// The value at `key`, which must be present.
    pub fn get(&self, key: &usize) -> (r: &T)
        requires
            self.has_key(*key),
        ensures
            self@[*key as int] == Some(*r),
    {
        self.find(key).unwrap()
    }

    /// The slots themselves, to change values in place; the slice's own
    /// `iter_mut` walks them in key order, empty slots included.
    pub fn iter_mut(&mut self) -> (r: &mut [Option<T>])
        ensures
            r@ == old(self)@,
            final(self)@ == final(r)@,
    {
        self.v.as_mut_slice()
    }

    /// An iterator over the occupied slots, as key and value, in ascending
    /// key order.
    pub fn iter(&self) -> (r: SmallIntMapIterator<'_, T>)
        ensures
            r.slots() == self@,
            r.front() == 0,
            r.back() == self@.len(),
    {
        SmallIntMapIterator { map: self, front: 0, back: self.v.len() }
    }
}

/// A walk over the occupied slots of a map, from `front` up to `back`.
pub struct SmallIntMapIterator<'a, T> {
    map: &'a SmallIntMap<T>,
    front: usize,
    back: usize,
}

impl<'a, T> SmallIntMapIterator<'a, T> {
    /// The slots walked over.
    pub closed spec fn slots(&self) -> Seq<Option<T>> {
        self.map@
    }

    /// The next key to look at.
    pub closed spec fn front(&self) -> nat {
        self.front as nat
    }

    /// The key at which the walk ends.
    pub closed spec fn back(&self) -> nat {
        self.back as nat
    }

    /// The occupied slot with the least key from the front on, with its
    /// value; the front then moves past it. `None` when there is none.
    pub fn next(&mut self) -> (r: Option<(usize, &'a T)>)
        requires
            old(self).back() <= old(self).slots().len(),
        ensures
            final(self).slots() == old(self).slots(),
            final(self).back() == old(self).back(),
            final(self).back() <= final(self).slots().len(),
            old(self).front() <= old(self).back() ==> final(self).front() <= final(self).back(),
            match r {
                Some((k, v)) => {
                    &&& old(self).front() <= k < old(self).back()
                    &&& old(self).slots()[k as int] == Some(*v)
                    &&& forall|j: int|
                        old(self).front() <= j < k ==> #[trigger] old(self).slots()[j] is None
                    &&& final(self).front() == k + 1
                },
                None => {
                    &&& forall|j: int|
                        old(self).front() <= j < old(self).back() ==> #[trigger] old(
                            self,
                        ).slots()[j] is None
                    &&& final(self).front() == if old(self).front() <= old(self).back() {
                        old(self).back()
                    } else {
                        old(self).front()
                    }
                },
            },
    {
        while self.front < self.back
            invariant
                self.map == old(self).map,
                self.back == old(self).back,
                self.back <= self.map@.len(),
                old(self).front <= self.front,
                old(self).front <= old(self).back ==> self.front <= self.back,
                old(self).front > old(self).back ==> self.front == old(self).front,
                forall|j: int| old(self).front <= j < self.front ==> #[trigger] self.map@[j] is None,
            decreases self.back - self.front,
        {
            let index = self.front;
            self.front = self.front + 1;
            match self.map.v[index].as_ref() {
                Some(value) => {
                    return Some((index, value));
                },
                None => {},
            }
        }
        None
    }

    /// Bounds on the number of pairs left: none at least, and at most the
    /// number of slots left.
    pub fn size_hint(&self) -> (r: (usize, Option<usize>))
        requires
            self.front() <= self.back(),
        ensures
            r == (0usize, Some((self.back() - self.front()) as usize)),
    {
        (0, Some(self.back - self.front))
    }
}

} // verus!
