use vstd::prelude::*;
use crate::deser::DeSer;
use crate::skip_list::SkipList;
use crate::skip_map::SkipMap;

verus! {

/// An iterator over the keys of a list, in position order.
pub struct SkListIter<'a, T: DeSer> {
    pub list: &'a SkipList<T>,
    pub pos: usize,
}

impl<'a, T: DeSer> SkListIter<'a, T> {
    /// The next key, or `None` once every key has been given.
    pub fn next(&mut self) -> (r: Option<T>)
        ensures
            final(self).list == old(self).list,
            old(self).pos < old(self).list@.len() ==> r == Some(old(self).list@[old(self).pos as int])
                && final(self).pos == old(self).pos + 1,
            old(self).pos >= old(self).list@.len() ==> r is None && final(self).pos == old(self).pos,
    {
        if self.pos >= self.list.len() {
            return None;
        }
        let item = self.list.get(self.pos);
        self.pos = self.pos + 1;
        item
    }
}

/// An iterator over the pairs of a map, in position order.
pub struct SkMapIter<'a, T: DeSer, V: DeSer> {
    pub map: &'a SkipMap<T, V>,
    pub pos: usize,
}

impl<'a, T: DeSer, V: DeSer> SkMapIter<'a, T, V> {
    /// The next pair, or `None` once every pair has been given.
    pub fn next(&mut self) -> (r: Option<(T, V)>)
        ensures
            final(self).map == old(self).map,
            old(self).pos < old(self).map@.len() ==> r == Some(old(self).map@[old(self).pos as int])
                && final(self).pos == old(self).pos + 1,
            old(self).pos >= old(self).map@.len() ==> r is None && final(self).pos == old(self).pos,
    {
        if self.pos >= self.map.len() {
            return None;
        }
        let item = self.map.get(self.pos);
        self.pos = self.pos + 1;
        item
    }
}

} // verus!
