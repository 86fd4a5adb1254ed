//! A map from small numbers, such as channel ids, to values.

use vstd::prelude::*;

verus! {

/// The map of the `smallmap` crate.
#[verifier::external_type_specification]
#[verifier::external_body]
#[verifier::reject_recursive_types(TKey)]
#[verifier::reject_recursive_types(TValue)]
pub struct ExSmallMap<TKey, TValue>(smallmap::Map<TKey, TValue>);

/// What a map holds.
pub uninterp spec fn contents(m: smallmap::Map<u8, usize>) -> Map<u8, usize>;

/// `smallmap::Map::new`: a map without entries.
#[verifier::external_body]
fn map_new() -> (r: smallmap::Map<u8, usize>)
    ensures
        forall|k: u8| !contents(r).contains_key(k),
{
    smallmap::Map::new()
}

/// `smallmap::Map::get`: the value of a key, if the map holds one for it.
#[verifier::external_body]
fn map_get(m: &smallmap::Map<u8, usize>, key: u8) -> (r: Option<usize>)
    ensures
        r == (if contents(*m).contains_key(key) {
            Some(contents(*m)[key])
        } else {
            None
        }),
{
    m.get(&key).copied()
}

/// `smallmap::Map::insert`: sets the value of a key, and gives back the one that it had.
#[verifier::external_body]
fn map_insert(m: &mut smallmap::Map<u8, usize>, key: u8, value: usize) -> (r: Option<usize>)
    ensures
        contents(*final(m)) == contents(*old(m)).insert(key, value),
        r == (if contents(*old(m)).contains_key(key) {
            Some(contents(*old(m))[key])
        } else {
            None
        }),
{
    m.insert(key, value)
}

/// A map from bytes to values of any kind. The values stand in a vector, and a small map says
/// where.
pub struct SmallMap<T> {
    index: smallmap::Map<u8, usize>,
    items: Vec<T>,
}

impl<T> View for SmallMap<T> {
    type V = Map<u8, T>;

    closed spec fn view(&self) -> Map<u8, T> {
        Map::new(
            |k: u8| contents(self.index).contains_key(k),
            |k: u8| self.items@[contents(self.index)[k] as int],
        )
    }
}

impl<T> SmallMap<T> {
    /// Every key has a place of its own.
    pub closed spec fn wf(&self) -> bool {
        let m = contents(self.index);
        &&& forall|k: u8| #[trigger] m.contains_key(k) ==> m[k] < self.items@.len()
        &&& forall|a: u8, b: u8| #[trigger]
            m.contains_key(a) && #[trigger] m.contains_key(b) && a != b ==> m[a] != m[b]
    }

    /// A map without entries.
    pub fn new() -> (r: Self)
        ensures
            r.wf(),
            r@ == Map::<u8, T>::empty(),
    {
        let r = SmallMap { index: map_new(), items: Vec::new() };
        assert(r@ =~= Map::<u8, T>::empty());
        r
    }

    /// The value of a key.
    pub fn get(&self, key: u8) -> (r: Option<&T>)
        requires
            self.wf(),
        ensures
            match r {
                Some(t) => self@.contains_key(key) && self@[key] == *t,
                None => !self@.contains_key(key),
            },
    {
        match map_get(&self.index, key) {
            Some(i) => Some(&self.items[i]),
            None => None,
        }
    }

    /// The value of a key, to be changed in place.
    pub fn get_mut(&mut self, key: u8) -> (r: Option<&mut T>)
        requires
            old(self).wf(),
        ensures
            final(self).wf(),
            match r {
                Some(t) => {
                    &&& old(self)@.contains_key(key)
                    &&& old(self)@[key] == *t
                    &&& final(self)@ == old(self)@.insert(key, *final(t))
                },
                None => {
                    &&& !old(self)@.contains_key(key)
                    &&& final(self)@ == old(self)@
                },
            },
    {
        match map_get(&self.index, key) {
            Some(i) => Some(&mut self.items[i]),
            None => None,
        }
    }

    /// Sets the value of a key.
    pub fn insert(&mut self, key: u8, value: T)
        requires
            old(self).wf(),
        ensures
            final(self).wf(),
            final(self)@ == old(self)@.insert(key, value),
    {
        match map_get(&self.index, key) {
            Some(i) => {
                self.items.set(i, value);
            },
            None => {
                let _ = map_insert(&mut self.index, key, self.items.len());
                self.items.push(value);
            },
        }
        assert(self@ =~= old(self)@.insert(key, value));
    }
}

} // verus!
