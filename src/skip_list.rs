use vstd::prelude::*;
use std::cmp::Ordering;
use crate::deser::{DeSer, Key};
use crate::iter::SkListIter;
use crate::skip_map::{
    SkipMap, absence_witnessed, outcomes_monotone, keys_sorted, snapshot_of, record_views,
};

verus! {

/// Each key paired with the unit value.
pub open spec fn with_units<T>(s: Seq<T>) -> Seq<(T, ())> {
    s.map_values(|k: T| (k, ()))
}

/// Keys in non-decreasing order.
pub open spec fn sorted<T: Key>(s: Seq<T>) -> bool {
    forall|i: int, j: int| 0 <= i <= j < s.len() ==> #[trigger] s[i].rank() <= #[trigger] s[j].rank()
}

/// An ordered index over a sorted sequence of keys: a map whose values are
/// all the unit value.
pub struct SkipList<T: DeSer> {
    map: SkipMap<T, ()>,
}

impl<T: DeSer> View for SkipList<T> {
    type V = Seq<T>;

    /// The keys held, in position order.
    closed spec fn view(&self) -> Seq<T> {
        self.map@.map_values(|p: (T, ())| p.0)
    }
}

impl<T: DeSer> SkipList<T> {
    /// The keys with their unit values, as the map beneath holds them.
    proof fn lemma_view(&self)
        ensures
            self.map@ == with_units(self@),
    {
        assert forall|i: int| 0 <= i < self.map@.len() implies #[trigger] self.map@[i] == with_units(
            self@,
        )[i] by {
            let (k, u) = self.map@[i];
            assert(u == ());
        }
        assert(self.map@ =~= with_units(self@));
    }

    /// Creates an empty list.
    pub fn new() -> (r: Self)
        ensures
            r@ == Seq::<T>::empty(),
    {
        let r = SkipList { map: SkipMap::new() };
        assert(r@ =~= Seq::<T>::empty());
        r
    }

    /// Returns the number of keys.
    pub fn len(&self) -> (r: usize)
        ensures
            r == self@.len(),
    {
        self.map.len()
    }

    /// Returns `true` if there is no key.
    pub fn is_empty(&self) -> (r: bool)
        ensures
            r == (self@.len() == 0),
    {
        self.map.is_empty()
    }

    /// The entry-point table: the positions where segments start.
    pub fn entries(&self) -> (r: &Vec<u32>)
        ensures
            crate::skip_map::is_entry_table(r@, self@.len() as int),
    {
        self.map.entries()
    }

    /// The encoded records, in position order, and the entry table: the
    /// whole of what a snapshot of the list holds.
    pub fn to_parts(&self) -> (r: (&Vec<Vec<u8>>, &Vec<u32>))
        ensures
            snapshot_of(with_units(self@), record_views(r.0@), r.1@),
    {
        proof {
            self.lemma_view();
        }
        self.map.to_parts()
    }

    /// Restores a list from encoded records and an entry table, as
    /// [`SkipList::to_parts`] gives them; `None` where they are the stored
    /// form of no sequence of keys.
    pub fn from_parts(records: Vec<Vec<u8>>, entries: Vec<u32>) -> (r: Option<Self>)
        ensures
            r matches Some(list) ==> snapshot_of(with_units(list@), record_views(records@), entries@),
            r is None ==> !exists|m: Seq<(T, ())>| snapshot_of(m, record_views(records@), entries@),
    {
        match SkipMap::from_parts(records, entries) {
            Some(map) => {
                let r = SkipList { map };
                proof {
                    r.lemma_view();
                }
                Some(r)
            },
            None => None,
        }
    }

    /// Returns an iterator over all keys in position order.
    pub fn iter(&self) -> (r: SkListIter<'_, T>)
        ensures
            r.list == self,
            r.pos == 0,
    {
        SkListIter { list: self, pos: 0 }
    }

    /// Gets the key at position `pos`; `None` past the end.
    pub fn get(&self, pos: usize) -> (r: Option<T>)
        ensures
            r == if pos < self@.len() {
                Some(self@[pos as int])
            } else {
                None
            },
    {
        match self.map.get(pos) {
            Some(p) => Some(p.0),
            None => None,
        }
    }

    /// All keys in position order.
    pub fn to_vec(&self) -> (r: Vec<T>)
        ensures
            r@ == self@,
    {
        let mut out: Vec<T> = Vec::new();
        let mut it = self.iter();
        loop
            invariant
                it.list == self,
                it.pos <= self@.len(),
                out@ == self@.subrange(0, it.pos as int),
            ensures
                out@ == self@,
            decreases self@.len() - it.pos,
        {
            match it.next() {
                Some(k) => {
                    out.push(k);
                    assert(out@ =~= self@.subrange(0, it.pos as int));
                },
                None => {
                    assert(out@ =~= self@);
                    break;
                },
            }
        }
        out
    }

    /// Finds a key by a comparator and returns its position; see
    /// [`SkipMap::find_by`] for what `f` answers.
    pub fn find_by<C: Fn(&T) -> Ordering>(&self, f: C) -> (r: Option<usize>)
        requires
            forall|k: &T| #[trigger] f.requires((k,)),
        ensures
            r matches Some(p) ==> p < self@.len() && f.ensures((&self@[p as int],), Ordering::Equal),
            r is None ==> absence_witnessed(with_units(self@), f),
            r is None && outcomes_monotone(with_units(self@), f) ==> forall|i: int, o: Ordering|
                0 <= i < self@.len() && #[trigger] f.ensures((&self@[i],), o) ==> o
                    != Ordering::Equal,
    {
        proof {
            self.lemma_view();
        }
        match self.map.find_by(f) {
            Some(x) => Some(x.0),
            None => {
                proof {
                    if outcomes_monotone(with_units(self@), f) {
                        assert forall|i: int, o: Ordering|
                            0 <= i < self@.len() && #[trigger] f.ensures(
                                (&self@[i],),
                                o,
                            ) implies o != Ordering::Equal by {
                            assert(self.map@[i].0 == self@[i]);
                        }
                    }
                }
                None
            },
        }
    }
}

impl<T: Key> SkipList<T> {
    /// Creates a list from keys in non-decreasing order. The order is not
    /// checked: on unsorted input, searching gives no useful answer.
    pub fn from_sorted_iter(list: Vec<T>) -> (r: Self)
        requires
            list@.len() <= u32::MAX,
        ensures
            r@ == list@,
    {
        let n = list.len();
        let mut src = list;
        let mut rev: Vec<T> = Vec::new();
        while src.len() > 0
            invariant
                n == list@.len(),
                src@ == list@.subrange(0, src@.len() as int),
                rev@.len() == n - src@.len(),
                forall|q: int| 0 <= q < rev@.len() ==> #[trigger] rev@[q] == list@[n - 1 - q],
            decreases src@.len(),
        {
            let x = src.pop().unwrap();
            assert(src@ =~= list@.subrange(0, src@.len() as int));
            rev.push(x);
        }
        let mut pairs: Vec<(T, ())> = Vec::new();
        while rev.len() > 0
            invariant
                n == list@.len(),
                rev@.len() == n - pairs@.len(),
                forall|q: int| 0 <= q < rev@.len() ==> #[trigger] rev@[q] == list@[n - 1 - q],
                forall|q: int| 0 <= q < pairs@.len() ==> #[trigger] pairs@[q] == (list@[q], ()),
            decreases rev@.len(),
        {
            let x = rev.pop().unwrap();
            pairs.push((x, ()));
        }
        let map = SkipMap::from_sorted_iter(pairs);
        let r = SkipList { map };
        assert forall|q: int| 0 <= q < n implies #[trigger] r@[q] == list@[q] by {
            assert(r.map@[q] == pairs@[q]);
        }
        assert(r@ =~= list@);
        r
    }

    /// Finds `key` and returns its position.
    pub fn find(&self, key: &T) -> (r: Option<usize>)
        ensures
            r matches Some(p) ==> p < self@.len() && self@[p as int] == *key,
            sorted(self@) ==> (r is Some <==> self@.contains(*key)),
    {
        proof {
            self.lemma_view();
            if sorted(self@) {
                assert(keys_sorted(self.map@));
            }
        }
        let r = self.map.find(key);
        proof {
            if r is Some {
                assert(self.map@[r->Some_0.0 as int].0 == self@[r->Some_0.0 as int]);
            }
            if self@.contains(*key) {
                let i = choose|i: int| 0 <= i < self@.len() && self@[i] == *key;
                assert(self.map@[i].0 == *key);
            }
        }
        match r {
            Some(x) => Some(x.0),
            None => None,
        }
    }
}

impl<T: DeSer> Default for SkipList<T> {
    fn default() -> (r: Self)
        ensures
            r@ == Seq::<T>::empty(),
    {
        Self::new()
    }
}

} // verus!
