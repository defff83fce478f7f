use vstd::prelude::*;
use vstd::arithmetic::power2::{pow2, lemma_pow2_pos, lemma_pow2_unfold};
use std::cmp::Ordering;
use crate::deser::{DeSer, Key, order_of};
use crate::iter::SkMapIter;
use crate::link::{ListItem, record_bytes, lemma_record_bytes_injective};
use crate::store::RecordStore;
use crate::utils::{is_pow2, is_power_of_two, lemma_pow2_between, lemma_pow2_order};

verus! {

/// The successor stored with position `p` among `n` records: `p + 1` inside a
/// segment, 0 at the last record of a segment.
pub open spec fn next_of(p: int, n: int) -> u32 {
    if p + 1 < n && !is_power_of_two(p + 2) {
        (p + 1) as u32
    } else {
        0
    }
}

/// `e` is the entry-point table for `n` records: entry `i` is `2^i - 1`, and
/// the table holds every such position below `n`.
pub open spec fn is_entry_table(e: Seq<u32>, n: int) -> bool {
    &&& forall|i: int| 0 <= i < e.len() ==> #[trigger] e[i] as int == pow2(i as nat) - 1
    &&& forall|i: int| 0 <= i < e.len() ==> #[trigger] pow2(i as nat) <= n
    &&& n < pow2(e.len())
}

/// `records` and `entries` are the stored form of the pairs `m`: record `p`
/// encodes pair `p` with its successor, and `entries` is the entry table.
pub open spec fn snapshot_of<T: DeSer, V: DeSer>(
    m: Seq<(T, V)>,
    records: Seq<Seq<u8>>,
    entries: Seq<u32>,
) -> bool {
    let n = m.len();
    &&& n <= u32::MAX
    &&& records.len() == n
    &&& forall|p: int|
        0 <= p < n ==> #[trigger] records[p] == record_bytes(m[p].0, m[p].1, next_of(p, n as int))
    &&& is_entry_table(entries, n as int)
}

/// The bytes of each record.
pub open spec fn record_views(records: Seq<Vec<u8>>) -> Seq<Seq<u8>> {
    records.map_values(|b: Vec<u8>| b@)
}

/// Whether `entries` is the entry table for `n` records.
fn entries_valid(entries: &Vec<u32>, n: usize) -> (r: bool)
    requires
        n <= u32::MAX,
    ensures
        r == is_entry_table(entries@, n as int),
{
    let mut pw: u64 = 1;
    let mut i: usize = 0;
    proof {
        assert(pow2(0) == 1) by {
            vstd::arithmetic::power2::lemma2_to64();
        }
    }
    while i < entries.len()
        invariant
            n <= u32::MAX,
            i <= entries@.len(),
            pw == pow2(i as nat),
            forall|j: int| 0 <= j < i ==> #[trigger] entries@[j] as int == pow2(j as nat) - 1,
            forall|j: int| 0 <= j < i ==> #[trigger] pow2(j as nat) <= n,
        decreases entries@.len() - i,
    {
        proof {
            lemma_pow2_pos(i as nat);
            let ii = i as int;
            assert(pow2(ii as nat) == pw);
        }
        if pw > n as u64 {
            return false;
        }
        if entries[i] as u64 != pw - 1 {
            return false;
        }
        proof {
            lemma_pow2_unfold((i + 1) as nat);
        }
        pw = pw * 2;
        i = i + 1;
    }
    (n as u64) < pw
}

/// Keys in non-decreasing order.
pub open spec fn keys_sorted<T: Key, V>(m: Seq<(T, V)>) -> bool {
    forall|i: int, j: int| 0 <= i <= j < m.len() ==> #[trigger] m[i].0.rank() <= #[trigger] m[j].0.rank()
}

/// Keys in strictly increasing order.
pub open spec fn keys_strictly_sorted<T: Key, V>(m: Seq<(T, V)>) -> bool {
    forall|i: int, j: int| 0 <= i < j < m.len() ==> #[trigger] m[i].0.rank() < #[trigger] m[j].0.rank()
}

/// Some record holds `key`.
pub open spec fn has_key<T, V>(m: Seq<(T, V)>, key: T) -> bool {
    exists|i: int| 0 <= i < m.len() && #[trigger] m[i].0 == key
}

/// The pair at `pos`, or `None` outside the sequence.
pub open spec fn pair_at<T, V>(m: Seq<(T, V)>, pos: int) -> Option<(T, V)> {
    if 0 <= pos < m.len() {
        Some(m[pos])
    } else {
        None
    }
}

/// What a search for `key` may answer: a position that holds `key`, with its
/// value; and on sorted keys, an answer exactly when `key` is held.
pub open spec fn find_result<T: Key, V>(m: Seq<(T, V)>, key: T, r: Option<(usize, V)>) -> bool {
    &&& r matches Some(x) ==> x.0 < m.len() && m[x.0 as int] == (key, x.1)
    &&& keys_sorted(m) ==> (r is Some <==> has_key(m, key))
}

/// The value of an outcome in the order `Less < Equal < Greater`.
pub open spec fn outcome_rank(o: Ordering) -> int {
    match o {
        Ordering::Less => -1,
        Ordering::Equal => 0,
        Ordering::Greater => 1,
    }
}

/// The outcomes `f` may give on the stored keys never go down along the
/// records: first `Less`, then `Equal`, then `Greater`.
pub open spec fn outcomes_monotone<T, V, C: Fn(&T) -> Ordering>(m: Seq<(T, V)>, f: C) -> bool {
    forall|i: int, j: int, a: Ordering, b: Ordering|
        0 <= i <= j < m.len() && #[trigger] f.ensures((&m[i].0,), a) && #[trigger] f.ensures(
            (&m[j].0,),
            b,
        ) ==> outcome_rank(a) <= outcome_rank(b)
}

/// What a search saw before it gave up: `f` answered `Less` at `lo - 1` and on
/// `[lo, hi)`, and `Greater` at `hi` unless `hi` is the end (`lo - 1 == hi`
/// where both were seen at one key).
pub open spec fn absence_seen<T, V, C: Fn(&T) -> Ordering>(
    m: Seq<(T, V)>,
    f: C,
    lo: int,
    hi: int,
) -> bool {
    &&& 0 <= lo <= hi + 1
    &&& 0 <= hi
    &&& lo <= m.len()
    &&& hi <= m.len()
    &&& lo > 0 ==> f.ensures((&m[lo - 1].0,), Ordering::Less)
    &&& forall|q: int| lo <= q < hi ==> #[trigger] f.ensures((&m[q].0,), Ordering::Less)
    &&& hi < m.len() ==> f.ensures((&m[hi].0,), Ordering::Greater)
}

/// Some pair of bounds witnesses that a search found nothing.
pub open spec fn absence_witnessed<T, V, C: Fn(&T) -> Ordering>(m: Seq<(T, V)>, f: C) -> bool {
    exists|lo: int, hi: int| absence_seen(m, f, lo, hi)
}

/// Where what a search saw shows no `Equal` and `f` is monotone, `f` answers
/// `Equal` on no stored key.
pub proof fn lemma_absence_monotone<T, V, C: Fn(&T) -> Ordering>(m: Seq<(T, V)>, f: C)
    requires
        absence_witnessed(m, f),
        outcomes_monotone(m, f),
    ensures
        forall|i: int, o: Ordering|
            0 <= i < m.len() && #[trigger] f.ensures((&m[i].0,), o) ==> o != Ordering::Equal,
{
    let (lo, hi) = choose|lo: int, hi: int| absence_seen(m, f, lo, hi);
    assert forall|i: int, o: Ordering|
        0 <= i < m.len() && #[trigger] f.ensures((&m[i].0,), o) implies o != Ordering::Equal by {
        if i < lo {
            assert(f.ensures((&m[lo - 1].0,), Ordering::Less));
            assert(outcome_rank(o) <= outcome_rank(Ordering::Less));
        } else if i < hi {
            assert(f.ensures((&m[i].0,), Ordering::Less));
            assert(outcome_rank(o) <= outcome_rank(Ordering::Less));
        } else {
            assert(f.ensures((&m[hi].0,), Ordering::Greater));
            assert(outcome_rank(Ordering::Greater) <= outcome_rank(o));
        }
    }
}

/// An ordered index over a sorted sequence of key/value pairs, kept as a flat
/// store of encoded linked records and a table of segment entry points.
pub struct SkipMap<T: DeSer, V: DeSer> {
    items: RecordStore,
    entries: Vec<u32>,
    pairs: Ghost<Seq<(T, V)>>,
}

impl<T: DeSer, V: DeSer> View for SkipMap<T, V> {
    type V = Seq<(T, V)>;

    /// The pairs held, in position order.
    closed spec fn view(&self) -> Seq<(T, V)> {
        self.pairs@
    }
}

impl<T: DeSer, V: DeSer> SkipMap<T, V> {
    /// Record `p` of the store encodes pair `p` with its successor, and the
    /// entry table matches the record count.
    #[verifier::type_invariant]
    spec fn inv(&self) -> bool {
        let n = self.pairs@.len();
        &&& n <= u32::MAX
        &&& self.items@.len() == n
        &&& forall|p: int|
            0 <= p < n ==> #[trigger] self.items@[p] == record_bytes(
                self.pairs@[p].0,
                self.pairs@[p].1,
                next_of(p, n as int),
            )
        &&& is_entry_table(self.entries@, n as int)
    }

    /// Returns the number of pairs.
    pub fn len(&self) -> (r: usize)
        ensures
            r == self@.len(),
    {
        proof {
            use_type_invariant(self);
        }
        self.items.len()
    }

    /// Returns `true` if there is no pair.
    pub fn is_empty(&self) -> (r: bool)
        ensures
            r == (self@.len() == 0),
    {
        self.len() == 0
    }

    /// Creates an empty map.
    pub fn new() -> (r: Self)
        ensures
            r@ == Seq::<(T, V)>::empty(),
    {
        proof {
            assert(pow2(0) == 1) by {
                vstd::arithmetic::power2::lemma2_to64();
            }
        }
        SkipMap { items: RecordStore::new(), entries: Vec::new(), pairs: Ghost(Seq::empty()) }
    }

    /// The entry-point table: the positions where segments start.
    pub fn entries(&self) -> (r: &Vec<u32>)
        ensures
            is_entry_table(r@, self@.len() as int),
    {
        proof {
            use_type_invariant(self);
        }
        &self.entries
    }

    /// The encoded records, in position order, and the entry table: the
    /// whole of what a snapshot of the map holds.
    pub fn to_parts(&self) -> (r: (&Vec<Vec<u8>>, &Vec<u32>))
        ensures
            snapshot_of(self@, record_views(r.0@), r.1@),
    {
        proof {
            use_type_invariant(self);
        }
        (self.items.records(), &self.entries)
    }

    /// Restores a map from encoded records and an entry table, as
    /// [`SkipMap::to_parts`] gives them; `None` where they are the stored form
    /// of no sequence of pairs.
    pub fn from_parts(records: Vec<Vec<u8>>, entries: Vec<u32>) -> (r: Option<Self>)
        ensures
            r matches Some(map) ==> snapshot_of(map@, record_views(records@), entries@),
            r is None ==> !exists|m: Seq<(T, V)>| snapshot_of(m, record_views(records@), entries@),
    {
        let ghost recs = record_views(records@);
        let n = records.len();
        if n > u32::MAX as usize {
            return None;
        }
        if !entries_valid(&entries, n) {
            return None;
        }
        let ghost mut model: Seq<(T, V)> = Seq::empty();
        let mut p: usize = 0;
        while p < n
            invariant
                n == records@.len() <= u32::MAX,
                recs == record_views(records@),
                p <= n,
                model.len() == p,
                forall|q: int|
                    0 <= q < p ==> #[trigger] recs[q] == record_bytes(
                        model[q].0,
                        model[q].1,
                        next_of(q, n as int),
                    ),
            decreases n - p,
        {
            let expected: u32 = if p + 1 < n && !is_pow2((p + 2) as u32) {
                (p + 1) as u32
            } else {
                0
            };
            proof {
                assert(recs[p as int] == records@[p as int]@);
                if exists|m: Seq<(T, V)>| snapshot_of(m, recs, entries@) {
                    let m = choose|m: Seq<(T, V)>| snapshot_of(m, recs, entries@);
                    assert(recs[p as int] == record_bytes(m[p as int].0, m[p as int].1, next_of(p as int, n as int)));
                }
            }
            match ListItem::<T, V>::decode(&records[p]) {
                Some(item) => {
                    if item.next != expected {
                        return None;
                    }
                    proof {
                        model = model.push((item.item, item.value));
                    }
                },
                None => {
                    return None;
                },
            }
            p = p + 1;
        }
        Some(SkipMap { items: RecordStore::from_records(records), entries, pairs: Ghost(model) })
    }

    /// Gets the record at `pos` with its successor.
    fn get_list_item(&self, pos: usize) -> (r: Option<ListItem<T, V>>)
        ensures
            r == if pos < self@.len() {
                Some(
                    ListItem {
                        item: self@[pos as int].0,
                        next: next_of(pos as int, self@.len() as int),
                        value: self@[pos as int].1,
                    },
                )
            } else {
                None
            },
    {
        proof {
            use_type_invariant(self);
        }
        match self.items.get(pos) {
            Some(enc) => {
                proof {
                    let n = self@.len() as int;
                    assert(record_bytes(self@[pos as int].0, self@[pos as int].1, next_of(pos as int, n))
                        == enc@);
                }
                ListItem::<T, V>::decode(enc)
            },
            None => None,
        }
    }

    /// Gets the key and value at position `pos`; `None` past the end.
    pub fn get(&self, pos: usize) -> (r: Option<(T, V)>)
        ensures
            r == pair_at(self@, pos as int),
    {
        match self.get_list_item(pos) {
            Some(item) => Some((item.item, item.value)),
            None => None,
        }
    }

    /// Returns an iterator over all pairs in position order.
    pub fn iter(&self) -> (r: SkMapIter<'_, T, V>)
        ensures
            r.map == self,
            r.pos == 0,
    {
        SkMapIter { map: self, pos: 0 }
    }

    /// All pairs in position order.
    pub fn to_vec(&self) -> (r: Vec<(T, V)>)
        ensures
            r@ == self@,
    {
        let mut out: Vec<(T, V)> = Vec::new();
        let mut it = self.iter();
        loop
            invariant
                it.map == self,
                it.pos <= self@.len(),
                out@ == self@.subrange(0, it.pos as int),
            ensures
                out@ == self@,
            decreases self@.len() - it.pos,
        {
            match it.next() {
                Some(p) => {
                    out.push(p);
                    assert(out@ =~= self@.subrange(0, it.pos as int));
                },
                None => {
                    assert(out@ =~= self@);
                    break;
                },
            }
        }
        out
    }

    /// Creates a map from pairs in non-decreasing key order. The order is not
    /// checked: on unsorted input, searching gives no useful answer.
    pub fn from_sorted_iter(list: Vec<(T, V)>) -> (r: Self)
        requires
            list@.len() <= u32::MAX,
        ensures
            r@ == list@,
    {
        let n = list.len();
        let mut entries: Vec<u32> = Vec::new();
        let mut nexts: Vec<u32> = Vec::new();
        let mut pos: usize = 0;
        proof {
            assert(pow2(0) == 1) by {
                vstd::arithmetic::power2::lemma2_to64();
            }
        }
        while pos < n
            invariant
                n == list@.len() <= u32::MAX,
                pos <= n,
                nexts@.len() == pos,
                forall|q: int| 0 <= q < pos - 1 ==> #[trigger] nexts@[q] == next_of(q, pos as int),
                pos > 0 ==> nexts@[pos - 1] == pos,
                forall|i: int|
                    0 <= i < entries@.len() ==> #[trigger] entries@[i] as int == pow2(i as nat) - 1,
                forall|i: int| 0 <= i < entries@.len() ==> #[trigger] pow2(i as nat) <= pos,
                entries@.len() == 0 || pow2((entries@.len() - 1) as nat) <= pos,
                pos + 1 <= pow2(entries@.len()),
            decreases n - pos,
        {
            let ghost k = entries@.len();
            proof {
                lemma_pow2_between(pos + 1, k);
                lemma_pow2_unfold(k + 1);
            }
            if is_pow2((pos + 1) as u32) {
                entries.push(pos as u32);
                if pos > 0 {
                    nexts.set(pos - 1, 0);
                }
            }
            nexts.push((pos + 1) as u32);
            pos = pos + 1;
        }
        if n > 0 {
            nexts.set(n - 1, 0);
        }
        assert(forall|q: int| 0 <= q < n ==> #[trigger] nexts@[q] == next_of(q, n as int));
        let mut items = RecordStore::new();
        let mut p: usize = 0;
        while p < n
            invariant
                n == list@.len() <= u32::MAX,
                nexts@.len() == n,
                forall|q: int| 0 <= q < n ==> #[trigger] nexts@[q] == next_of(q, n as int),
                p <= n,
                items@.len() == p,
                forall|q: int|
                    0 <= q < p ==> #[trigger] items@[q] == record_bytes(
                        list@[q].0,
                        list@[q].1,
                        next_of(q, n as int),
                    ),
            decreases n - p,
        {
            let bytes = ListItem::<T, V>::encode_parts(&list[p].0, &list[p].1, nexts[p]);
            items.insert(bytes);
            p = p + 1;
        }
        SkipMap { items, entries, pairs: Ghost(list@) }
    }

    /// Finds a record by a comparator and returns its position and value.
    ///
    /// `f` tells how the sought target relates to a stored key: `Less` where
    /// the target lies after it, `Equal` on a match, `Greater` where the target
    /// lies before it. The entry points are probed in order to pick a segment,
    /// which is then walked along its successor links.
    pub fn find_by<C: Fn(&T) -> Ordering>(&self, f: C) -> (r: Option<(usize, V)>)
        requires
            forall|k: &T| #[trigger] f.requires((k,)),
        ensures
            r matches Some(x) ==> x.0 < self@.len() && x.1 == self@[x.0 as int].1 && f.ensures(
                (&self@[x.0 as int].0,),
                Ordering::Equal,
            ),
            r is None ==> absence_witnessed(self@, f),
            r is None && outcomes_monotone(self@, f) ==> forall|i: int, o: Ordering|
                0 <= i < self@.len() && #[trigger] f.ensures((&self@[i].0,), o) ==> o
                    != Ordering::Equal,
    {
        proof {
            use_type_invariant(self);
        }
        let ghost m = self@;
        let ghost n = m.len() as int;
        let mut prev: Option<usize> = None;
        let mut i: usize = 0;
        let ghost mut hi: int = n;
        while i < self.entries.len()
            invariant_except_break
                hi == n,
            invariant
                m == self@,
                n == m.len(),
                is_entry_table(self.entries@, n),
                forall|k: &T| #[trigger] f.requires((k,)),
                i <= self.entries@.len(),
                prev is None <==> i == 0,
                prev matches Some(s) ==> s == self.entries@[i - 1] && f.ensures(
                    (&m[s as int].0,),
                    Ordering::Less,
                ),
            ensures
                m == self@,
                n == m.len(),
                i <= self.entries@.len(),
                prev is None <==> i == 0,
                prev matches Some(s) ==> s == self.entries@[i - 1] && f.ensures(
                    (&m[s as int].0,),
                    Ordering::Less,
                ),
                (hi == n && i == self.entries@.len()) || (i < self.entries@.len() && hi
                    == self.entries@[i as int] && f.ensures((&m[hi].0,), Ordering::Greater)),
            decreases self.entries@.len() - i,
        {
            let ep = self.entries[i] as usize;
            proof {
                lemma_pow2_order(i as nat, i as nat);
            }
            let item = match self.get_list_item(ep) {
                Some(it) => it,
                None => return None,
            };
            let cmp = f(&item.item);
            match cmp {
                Ordering::Greater => {
                    proof {
                        hi = ep as int;
                    }
                    break;
                },
                Ordering::Equal => {
                    return Some((ep, item.value));
                },
                Ordering::Less => {},
            }
            prev = Some(ep);
            i = i + 1;
        }
        let s = match prev {
            Some(s) => s,
            None => {
                proof {
                    assert(pow2(0) == 1) by {
                        vstd::arithmetic::power2::lemma2_to64();
                    }
                    if i < self.entries@.len() {
                        assert(self.entries@[0] as int == pow2(0) - 1);
                    } else {
                        assert(n < pow2(0));
                    }
                    assert(absence_seen(m, f, 0, hi));
                    if outcomes_monotone(m, f) {
                        lemma_absence_monotone(m, f);
                    }
                }
                return None;
            },
        };
        let ghost j: nat = (i - 1) as nat;
        proof {
            lemma_pow2_unfold(j + 1);
            lemma_pow2_pos(j);
            if i < self.entries@.len() {
                assert(self.entries@[i as int] as int == pow2(j + 1) - 1);
            } else {
                assert(n < pow2(j + 1));
            }
        }
        let mut p: usize = s;
        loop
            invariant
                m == self@,
                n == m.len(),
                n <= u32::MAX,
                forall|k: &T| #[trigger] f.requires((k,)),
                s as int == pow2(j) - 1,
                s <= p < hi <= n,
                hi <= pow2(j + 1) - 1,
                hi == n || hi == pow2(j + 1) - 1,
                hi < n ==> f.ensures((&m[hi].0,), Ordering::Greater),
                forall|q: int| s <= q < p ==> #[trigger] f.ensures((&m[q].0,), Ordering::Less),
                f.ensures((&m[s as int].0,), Ordering::Less),
            decreases hi - p,
        {
            let item = match self.get_list_item(p) {
                Some(it) => it,
                None => return None,
            };
            let cmp = f(&item.item);
            match cmp {
                Ordering::Equal => {
                    return Some((p, item.value));
                },
                Ordering::Greater => {
                    proof {
                        assert(absence_seen(m, f, s + 1, p as int));
                        if outcomes_monotone(m, f) {
                            lemma_absence_monotone(m, f);
                        }
                    }
                    return None;
                },
                Ordering::Less => {},
            }
            proof {
                assert(f.ensures((&m[p as int].0,), Ordering::Less));
                lemma_pow2_between(p + 2, j + 1);
                lemma_pow2_order(j, j + 1);
            }
            assert(item.next == next_of(p as int, n));
            if !item.has_next() {
                proof {
                    assert(absence_seen(m, f, s + 1, p + 1));
                    if outcomes_monotone(m, f) {
                        lemma_absence_monotone(m, f);
                    }
                }
                return None;
            }
            p = item.next as usize;
        }
    }
}

impl<T: Key, V: DeSer> SkipMap<T, V> {
    /// Finds `key` and returns its position and value.
    pub fn find(&self, key: &T) -> (r: Option<(usize, V)>)
        ensures
            find_result(self@, *key, r),
    {
        let cmp = |other: &T| -> (o: Ordering)
            ensures
                o == order_of(other.rank(), key.rank()),
            { other.compare(key) };
        let r = self.find_by(cmp);
        proof {
            let m = self@;
            if r is Some {
                let x = r->Some_0;
                T::lemma_rank_injective(m[x.0 as int].0, *key);
            } else {
                {
                    if keys_sorted(m) && has_key(m, *key) {
                        let i = choose|i: int| 0 <= i < m.len() && #[trigger] m[i].0 == *key;
                        let (lo, hi) = choose|lo: int, hi: int| absence_seen(m, cmp, lo, hi);
                        if i < lo {
                            assert(cmp.ensures((&m[lo - 1].0,), Ordering::Less));
                            assert(m[i].0.rank() <= m[lo - 1].0.rank());
                        } else if i < hi {
                            assert(cmp.ensures((&m[i].0,), Ordering::Less));
                        } else {
                            assert(cmp.ensures((&m[hi].0,), Ordering::Greater));
                            assert(m[hi].0.rank() <= m[i].0.rank());
                        }
                    }
                }
            }
        }
        r
    }

    /// Returns `true` if `key` is held.
    pub fn contains(&self, key: &T) -> (r: bool)
        ensures
            r ==> has_key(self@, *key),
            keys_sorted(self@) ==> (r <==> has_key(self@, *key)),
    {
        match self.find(key) {
            Some(x) => {
                assert(self@[x.0 as int].0 == *key);
                true
            },
            None => false,
        }
    }
}

impl<T: DeSer, V: DeSer> Default for SkipMap<T, V> {
    fn default() -> (r: Self)
        ensures
            r@ == Seq::<(T, V)>::empty(),
    {
        Self::new()
    }
}

} // verus!
