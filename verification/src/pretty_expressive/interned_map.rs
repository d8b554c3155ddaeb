use core::marker::PhantomData;
use vstd::prelude::*;

verus! {

/// What an arena needs of the values it interns: a test for equal contents
/// and a way to copy a value.
pub trait Interned: Sized + View {
    fn same(&self, other: &Self) -> (r: bool)
        ensures
            r == (self@ == other@),
    ;

    fn duplicate(&self) -> (r: Self)
        ensures
            r@ == self@,
    ;
}

/// The place of a value in an `InternedMap`. The view of a key is its
/// position.
pub struct InternedKey<T> {
    index: usize,
    generic: PhantomData<T>,
}

impl<T> View for InternedKey<T> {
    type V = nat;

    closed spec fn view(&self) -> nat {
        self.index as nat
    }
}

impl<T> Clone for InternedKey<T> {
    fn clone(&self) -> (r: Self)
        ensures
            r == *self,
    {
        InternedKey { index: self.index, generic: PhantomData }
    }
}

impl<T> Copy for InternedKey<T> {

}

impl<T> InternedKey<T> {
    /// The key of the value at `index`.
    pub fn at(index: usize) -> (key: Self)
        ensures
            key@ == index,
    {
        InternedKey { index, generic: PhantomData }
    }

    /// The position of the key in its arena.
    pub fn index(&self) -> (index: usize)
        ensures
            index == self@,
    {
        self.index
    }

    /// Keys with the same position are the same key.
    pub proof fn same_position_same_key(a: Self, b: Self)
        requires
            a@ == b@,
        ensures
            a == b,
    {
    }
}

/// An arena that gives equal contents equal keys. Its view is the sequence
/// of the views of its values, in the order in which they were first added.
pub struct InternedMap<T> {
    store: Vec<T>,
}

impl<T: Interned> View for InternedMap<T> {
    type V = Seq<T::V>;

    closed spec fn view(&self) -> Seq<T::V> {
        Seq::new(self.store@.len(), |i: int| self.store@[i]@)
    }
}

/// No two places of `contents` hold the same value.
pub open spec fn distinct<V>(contents: Seq<V>) -> bool {
    forall|i: int, j: int| 0 <= i < j < contents.len() ==> contents[i] != contents[j]
}

/// `later` is `earlier` with `value` interned in it: unchanged where `value`
/// was there already, and with `value` at its end otherwise.
pub open spec fn with_interned<V>(earlier: Seq<V>, value: V, later: Seq<V>) -> bool {
    if earlier.contains(value) {
        later == earlier
    } else {
        later == earlier.push(value)
    }
}

/// The key that interning `value` in `earlier` gives: its place in
/// `earlier`, or the end of `earlier`.
pub open spec fn interned_at<V>(earlier: Seq<V>, value: V) -> nat {
    if earlier.contains(value) {
        earlier.index_of(value) as nat
    } else {
        earlier.len()
    }
}

impl<T: Interned> InternedMap<T> {
    /// Equal contents have equal keys.
    pub open spec fn well_formed(&self) -> bool {
        distinct(self@)
    }

    /// An arena without values.
    pub fn new() -> (map: Self)
        ensures
            map@ == Seq::<T::V>::empty(),
            map.well_formed(),
    {
        InternedMap { store: Vec::new() }
    }

    /// The number of values of the arena.
    pub fn len(&self) -> (len: usize)
        ensures
            len == self@.len(),
    {
        self.store.len()
    }

    /// Interns `value`: returns the key of the equal value already in the
    /// arena, or puts `value` at the end of the arena and returns its key.
    pub fn add(&mut self, value: T) -> (key: InternedKey<T>)
        requires
            old(self).well_formed(),
        ensures
            final(self).well_formed(),
            with_interned(old(self)@, value@, final(self)@),
            key@ == interned_at(old(self)@, value@),
            key@ < final(self)@.len(),
            final(self)@[key@ as int] == value@,
    {
        let mut index: usize = 0;
        while index < self.store.len()
            invariant
                index <= self.store.len(),
                *self == *old(self),
                self.well_formed(),
                forall|i: int| 0 <= i < index ==> self@[i] != value@,
            decreases self.store.len() - index,
        {
            if self.store[index].same(&value) {
                proof {
                    assert(self@[index as int] == value@);
                    assert(self@.contains(value@));
                    let first = self@.index_of(value@);
                    assert(0 <= first < self@.len() && self@[first] == value@);
                    assert(first == index);
                }
                return InternedKey::at(index);
            }
            index += 1;
        }
        proof {
            if self@.contains(value@) {
                let at = choose|i: int| 0 <= i < self@.len() && self@[i] == value@;
                assert(false);
            }
        }
        let ghost before = self@;
        self.store.push(value);
        proof {
            assert(self@ =~= before.push(value@));
        }
        InternedKey::at(index)
    }

    /// The value that `key` stands for.
    pub fn get(&self, key: InternedKey<T>) -> (value: &T)
        requires
            key@ < self@.len(),
        ensures
            value@ == self@[key@ as int],
    {
        &self.store[key.index()]
    }

    /// The value that `key` stands for, or nothing where `key` is no key
    /// of this arena.
    pub fn lookup(&self, key: InternedKey<T>) -> (value: Option<&T>)
        ensures
            value is Some <==> key@ < self@.len(),
            value matches Some(found) ==> found@ == self@[key@ as int],
    {
        if key.index() < self.store.len() {
            Some(&self.store[key.index()])
        } else {
            None
        }
    }

    /// A walk over the arena from its first key on.
    pub fn iter(&self) -> (iter: InternedMapIter<'_, T>)
        ensures
            iter.position() == 0,
            iter.contents() == self@,
    {
        InternedMapIter { store: &self.store, next: 0 }
    }
}

/// A walk over an arena in key order.
pub struct InternedMapIter<'a, T> {
    store: &'a Vec<T>,
    next: usize,
}

impl<'a, T: Interned> InternedMapIter<'a, T> {
    /// How many values the walk has handed out.
    pub closed spec fn position(&self) -> nat {
        self.next as nat
    }

    /// The views of all the values of the arena that is walked.
    pub closed spec fn contents(&self) -> Seq<T::V> {
        Seq::new(self.store@.len(), |i: int| self.store@[i]@)
    }

    /// The next key with its value, or `None` at the end of the arena.
    pub fn next(&mut self) -> (item: Option<(InternedKey<T>, &'a T)>)
        ensures
            final(self).contents() == old(self).contents(),
            old(self).position() < old(self).contents().len() ==> item.is_some(),
            item.is_some() ==> final(self).position() == old(self).position() + 1,
            item.is_some() ==> item.unwrap().0@ == old(self).position(),
            item.is_some() ==> item.unwrap().1@ == old(self).contents()[old(self).position() as int],
            old(self).position() >= old(self).contents().len() ==> item.is_none(),
            item.is_none() ==> final(self).position() == old(self).position(),
    {
        if self.next >= self.store.len() {
            None
        } else {
            let index = self.next;
            let value = &self.store[index];
            self.next = index + 1;
            Some((InternedKey::at(index), value))
        }
    }
}

/// A side table that holds at most one value for each key of an arena. Its
/// view has one place for every key that the arena had when the table was
/// made; a place is `None` until a value is put there.
pub struct InternedInfoMap<T, V> {
    store: Vec<Option<V>>,
    _generic: PhantomData<T>,
}

impl<T, V> View for InternedInfoMap<InternedKey<T>, V> {
    type V = Seq<Option<V>>;

    closed spec fn view(&self) -> Seq<Option<V>> {
        self.store@
    }
}

impl<T: Interned, V> InternedInfoMap<InternedKey<T>, V> {
    /// An empty table with a place for every key of `backing_context`.
    pub fn aligned_with(backing_context: &InternedMap<T>) -> (table: Self)
        ensures
            table@.len() == backing_context@.len(),
            forall|i: int| 0 <= i < table@.len() ==> table@[i].is_none(),
    {
        let length = backing_context.len();
        let mut store: Vec<Option<V>> = Vec::new();
        while store.len() < length
            invariant
                store.len() <= length,
                forall|i: int| 0 <= i < store.len() ==> store@[i].is_none(),
            decreases length - store.len(),
        {
            store.push(None);
        }
        InternedInfoMap { store, _generic: PhantomData }
    }

    /// The number of places of the table.
    pub fn len(&self) -> (len: usize)
        ensures
            len == self@.len(),
    {
        self.store.len()
    }

    /// Puts `value` at `key`, in place of what was there.
    pub fn init(&mut self, key: InternedKey<T>, value: V)
        requires
            key@ < old(self)@.len(),
        ensures
            final(self)@ == old(self)@.update(key@ as int, Some(value)),
    {
        self.store[key.index()] = Some(value);
    }

    /// Whether the table holds a value at `key`. A key past the end of the
    /// table holds none.
    pub fn contains_key(&self, key: InternedKey<T>) -> (present: bool)
        ensures
            present == (key@ < self@.len() && self@[key@ as int].is_some()),
    {
        key.index() < self.store.len() && self.store[key.index()].is_some()
    }

    /// The value at `key`.
    pub fn get(&self, key: InternedKey<T>) -> (value: &V)
        requires
            key@ < self@.len(),
            self@[key@ as int].is_some(),
        ensures
            *value == self@[key@ as int].unwrap(),
    {
        self.store[key.index()].as_ref().unwrap()
    }
}

} // verus!
