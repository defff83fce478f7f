use vstd::prelude::*;
use crate::deser::{DeSer, encodes_at};

verus! {

/// The bytes of a linked record: the key, the value, then the successor
/// position as a 32-bit number.
pub open spec fn record_bytes<T: DeSer, V: DeSer>(item: T, value: V, next: u32) -> Seq<u8> {
    item.enc() + value.enc() + next.enc()
}

/// Two records with the same bytes have the same key, value and successor.
pub proof fn lemma_record_bytes_injective<T: DeSer, V: DeSer>(
    k1: T,
    v1: V,
    n1: u32,
    k2: T,
    v2: V,
    n2: u32,
)
    requires
        record_bytes(k1, v1, n1) == record_bytes(k2, v2, n2),
    ensures
        k1 == k2,
        v1 == v2,
        n1 == n2,
{
    assert(record_bytes(k1, v1, n1) =~= k1.enc() + (v1.enc() + n1.enc()));
    assert(record_bytes(k2, v2, n2) =~= k2.enc() + (v2.enc() + n2.enc()));
    T::lemma_enc_prefix_free(k1, k2, v1.enc() + n1.enc(), v2.enc() + n2.enc());
    V::lemma_enc_prefix_free(v1, v2, n1.enc(), n2.enc());
    assert(n1.enc() + Seq::<u8>::empty() =~= n1.enc());
    assert(n2.enc() + Seq::<u8>::empty() =~= n2.enc());
    u32::lemma_enc_prefix_free(n1, n2, Seq::<u8>::empty(), Seq::<u8>::empty());
}

/// One record of the index: a key, its value, and the position of the next
/// record of its segment, where 0 ends the segment.
pub struct ListItem<T, V> {
    pub item: T,
    pub next: u32,
    pub value: V,
}

impl<T: DeSer, V: DeSer> ListItem<T, V> {
    /// The bytes that encode this record.
    pub open spec fn spec_encode(&self) -> Seq<u8> {
        record_bytes(self.item, self.value, self.next)
    }

    /// Creates a record with key and value that ends its segment.
    pub fn new(item: T, value: V) -> (r: Self)
        ensures
            r.item == item,
            r.value == value,
            r.next == 0,
    {
        ListItem { item, next: 0, value }
    }

    /// Creates a record with key, value and successor position.
    pub fn with_next(item: T, value: V, next: u32) -> (r: Self)
        ensures
            r.item == item,
            r.value == value,
            r.next == next,
    {
        ListItem { item, next, value }
    }

    /// Returns `true` if the record has a successor in its segment.
    pub fn has_next(&self) -> (r: bool)
        ensures
            r == (self.next != 0),
    {
        self.next != 0
    }

    /// Encodes a record from its parts, without taking them.
    pub fn encode_parts(item: &T, value: &V, next: u32) -> (r: Vec<u8>)
        ensures
            r@ == record_bytes(*item, *value, next),
    {
        let mut out: Vec<u8> = Vec::new();
        item.encode_into(&mut out);
        value.encode_into(&mut out);
        next.encode_into(&mut out);
        assert(out@ =~= record_bytes(*item, *value, next));
        out
    }

    /// Encodes this record.
    pub fn encode_vec(&self) -> (r: Vec<u8>)
        ensures
            r@ == self.spec_encode(),
    {
        Self::encode_parts(&self.item, &self.value, self.next)
    }

    /// Decodes a record; `None` where `data` is no record's encoding.
    pub fn decode(data: &Vec<u8>) -> (r: Option<Self>)
        ensures
            r matches Some(li) ==> li.spec_encode() == data@,
            forall|k: T, v: V, n: u32|
                #[trigger] record_bytes(k, v, n) == data@ ==> r == Some(
                    ListItem { item: k, next: n, value: v },
                ),
    {
        proof {
            assert forall|k: T, v: V, n: u32| #[trigger]
                record_bytes(k, v, n) == data@ implies encodes_at(data@, 0, k.enc())
                && encodes_at(data@, k.enc().len() as int, v.enc()) && encodes_at(
                data@,
                (k.enc().len() + v.enc().len()) as int,
                n.enc(),
            ) by {
                let s = data@;
                let a = k.enc().len() as int;
                let b = a + v.enc().len();
                assert(s.subrange(0, a) =~= k.enc());
                assert(s.subrange(a, b) =~= v.enc());
                assert(s.subrange(b, b + n.enc().len()) =~= n.enc());
            }
        }
        let (item, e1) = match T::decode_at(data, 0) {
            Some(p) => p,
            None => return None,
        };
        let (value, e2) = match V::decode_at(data, e1) {
            Some(p) => p,
            None => return None,
        };
        let (next, e3) = match u32::decode_at(data, e2) {
            Some(p) => p,
            None => return None,
        };
        if e3 != data.len() {
            return None;
        }
        proof {
            let s = data@;
            assert(s =~= s.subrange(0, e1 as int) + s.subrange(e1 as int, e2 as int) + s.subrange(
                e2 as int,
                e3 as int,
            ));
        }
        Some(ListItem { item, next, value })
    }
}

} // verus!
