use vstd::prelude::*;
use vstd::bytes::{
    spec_u32_to_le_bytes, spec_u32_from_le_bytes, lemma_auto_spec_u32_to_from_le_bytes,
    u32_from_le_bytes, u32_to_le_bytes, spec_u64_to_le_bytes, spec_u64_from_le_bytes,
    lemma_auto_spec_u64_to_from_le_bytes, u64_from_le_bytes, u64_to_le_bytes,
};
use vstd::utf8::{is_scalar, char_is_scalar, char_u32_cast};
use std::cmp::Ordering;

verus! {

/// `enc` stands in `data` starting at byte `at`.
pub open spec fn encodes_at(data: Seq<u8>, at: int, enc: Seq<u8>) -> bool {
    &&& 0 <= at
    &&& at + enc.len() <= data.len()
    &&& data.subrange(at, at + enc.len()) == enc
}

/// The three-way comparison of two ranks.
pub open spec fn order_of(a: int, b: int) -> Ordering {
    if a < b {
        Ordering::Less
    } else if a == b {
        Ordering::Equal
    } else {
        Ordering::Greater
    }
}

/// A value that can be written to bytes and read back.
///
/// Encodings are self-delimiting: a value is read back from any byte sequence
/// that holds its encoding at the given offset, whatever follows it.
pub trait DeSer: Sized {
    /// The bytes that encode `self`.
    spec fn enc(&self) -> Seq<u8>;

    /// No encoding is a proper prefix of another, and each value has one:
    /// where two encodings followed by some bytes agree, so do the values and
    /// the bytes that follow.
    proof fn lemma_enc_prefix_free(a: Self, b: Self, s: Seq<u8>, t: Seq<u8>)
        requires
            a.enc() + s == b.enc() + t,
        ensures
            a == b,
            s == t,
    ;

    /// Appends the encoding of `self` to `out`.
    fn encode_into(&self, out: &mut Vec<u8>)
        ensures
            final(out)@ == old(out)@ + self.enc(),
    ;

    /// Reads a value whose encoding starts at byte `at` of `data`, and returns
    /// it with the offset just past its encoding.
    fn decode_at(data: &Vec<u8>, at: usize) -> (r: Option<(Self, usize)>)
        ensures
            r matches Some(p) ==> encodes_at(data@, at as int, p.0.enc()) && p.1 == at
                + p.0.enc().len(),
            forall|x: Self|
                encodes_at(data@, at as int, #[trigger] x.enc()) ==> r == Some(
                    (x, (at + x.enc().len()) as usize),
                ),
    ;
}

/// A key of the index: a value with a codec and a total order, given by an
/// integer rank that tells keys apart.
pub trait Key: DeSer {
    /// The position of `self` in the key order.
    spec fn rank(&self) -> int;

    /// Keys of equal rank are equal.
    proof fn lemma_rank_injective(a: Self, b: Self)
        requires
            a.rank() == b.rank(),
        ensures
            a == b,
    ;

    /// How `self` relates to `other` in the key order.
    fn compare(&self, other: &Self) -> (r: Ordering)
        ensures
            r == order_of(self.rank(), other.rank()),
    ;
}

/// Reads the `len` bytes of `data` that start at `at`, if there are that many.
pub(crate) fn take_bytes(data: &Vec<u8>, at: usize, len: usize) -> (r: Option<Vec<u8>>)
    ensures
        r matches Some(b) ==> at + len <= data@.len() <= usize::MAX && b@ == data@.subrange(
            at as int,
            at + len,
        ),
        r is None ==> at + len > data@.len(),
{
    if at > data.len() || data.len() - at < len {
        return None;
    }
    let mut b: Vec<u8> = Vec::new();
    let mut i: usize = 0;
    while i < len
        invariant
            i <= len,
            at + len <= data@.len() <= usize::MAX,
            b@ == data@.subrange(at as int, at + i),
        decreases len - i,
    {
        b.push(data[at + i]);
        i = i + 1;
        assert(b@ =~= data@.subrange(at as int, at + i));
    }
    Some(b)
}

/// Appends every byte of `b` to `out`.
fn push_all(out: &mut Vec<u8>, b: &Vec<u8>)
    ensures
        final(out)@ == old(out)@ + b@,
{
    let mut i: usize = 0;
    while i < b.len()
        invariant
            i <= b@.len(),
            out@ == old(out)@ + b@.subrange(0, i as int),
        decreases b@.len() - i,
    {
        out.push(b[i]);
        i = i + 1;
        assert(out@ =~= old(out)@ + b@.subrange(0, i as int));
    }
    assert(b@.subrange(0, b@.len() as int) =~= b@);
}

/// Relies on `char::from_u32`: `Some` of the character with that scalar
/// value, `None` where `v` is no Unicode scalar value.
#[verifier::external_body]
fn char_from_u32(v: u32) -> (r: Option<char>)
    ensures
        r == if is_scalar(v) {
            Some(v as char)
        } else {
            None
        },
{
    char::from_u32(v)
}

impl DeSer for u32 {
    open spec fn enc(&self) -> Seq<u8> {
        spec_u32_to_le_bytes(*self)
    }

    proof fn lemma_enc_prefix_free(a: u32, b: u32, s: Seq<u8>, t: Seq<u8>) {
        lemma_auto_spec_u32_to_from_le_bytes();
        let x = a.enc() + s;
        assert(x.subrange(0, 4) =~= a.enc());
        assert((b.enc() + t).subrange(0, 4) =~= b.enc());
        assert(x.subrange(4, x.len() as int) =~= s);
        assert((b.enc() + t).subrange(4, x.len() as int) =~= t);
        assert(spec_u32_from_le_bytes(a.enc()) == spec_u32_from_le_bytes(b.enc()));
    }

    fn encode_into(&self, out: &mut Vec<u8>) {
        let b = u32_to_le_bytes(*self);
        push_all(out, &b);
    }

    fn decode_at(data: &Vec<u8>, at: usize) -> (r: Option<(u32, usize)>) {
        proof {
            lemma_auto_spec_u32_to_from_le_bytes();
        }
        match take_bytes(data, at, 4) {
            Some(b) => {
                let x = u32_from_le_bytes(b.as_slice());
                proof {
                    assert forall|y: u32| encodes_at(data@, at as int, #[trigger] y.enc()) implies y
                        == x by {
                        assert(b@ == spec_u32_to_le_bytes(y));
                    }
                }
                Some((x, at + 4))
            },
            None => None,
        }
    }
}

impl Key for u32 {
    open spec fn rank(&self) -> int {
        *self as int
    }

    proof fn lemma_rank_injective(a: u32, b: u32) {
    }

    fn compare(&self, other: &u32) -> (r: Ordering) {
        if *self < *other {
            Ordering::Less
        } else if *self == *other {
            Ordering::Equal
        } else {
            Ordering::Greater
        }
    }
}

impl DeSer for u64 {
    open spec fn enc(&self) -> Seq<u8> {
        spec_u64_to_le_bytes(*self)
    }

    proof fn lemma_enc_prefix_free(a: u64, b: u64, s: Seq<u8>, t: Seq<u8>) {
        lemma_auto_spec_u64_to_from_le_bytes();
        let x = a.enc() + s;
        assert(x.subrange(0, 8) =~= a.enc());
        assert((b.enc() + t).subrange(0, 8) =~= b.enc());
        assert(x.subrange(8, x.len() as int) =~= s);
        assert((b.enc() + t).subrange(8, x.len() as int) =~= t);
        assert(spec_u64_from_le_bytes(a.enc()) == spec_u64_from_le_bytes(b.enc()));
    }

    fn encode_into(&self, out: &mut Vec<u8>) {
        let b = u64_to_le_bytes(*self);
        push_all(out, &b);
    }

    fn decode_at(data: &Vec<u8>, at: usize) -> (r: Option<(u64, usize)>) {
        proof {
            lemma_auto_spec_u64_to_from_le_bytes();
        }
        match take_bytes(data, at, 8) {
            Some(b) => {
                let x = u64_from_le_bytes(b.as_slice());
                proof {
                    assert forall|y: u64| encodes_at(data@, at as int, #[trigger] y.enc()) implies y
                        == x by {
                        assert(b@ == spec_u64_to_le_bytes(y));
                    }
                }
                Some((x, at + 8))
            },
            None => None,
        }
    }
}

impl Key for u64 {
    open spec fn rank(&self) -> int {
        *self as int
    }

    proof fn lemma_rank_injective(a: u64, b: u64) {
    }

    fn compare(&self, other: &u64) -> (r: Ordering) {
        if *self < *other {
            Ordering::Less
        } else if *self == *other {
            Ordering::Equal
        } else {
            Ordering::Greater
        }
    }
}

impl DeSer for i32 {
    open spec fn enc(&self) -> Seq<u8> {
        spec_u32_to_le_bytes(#[verifier::truncate] (*self as u32))
    }

    proof fn lemma_enc_prefix_free(a: i32, b: i32, s: Seq<u8>, t: Seq<u8>) {
        lemma_auto_spec_u32_to_from_le_bytes();
        let x = a.enc() + s;
        assert(x.subrange(0, 4) =~= a.enc());
        assert((b.enc() + t).subrange(0, 4) =~= b.enc());
        assert(x.subrange(4, x.len() as int) =~= s);
        assert((b.enc() + t).subrange(4, x.len() as int) =~= t);
        let ua = #[verifier::truncate] (a as u32);
        let ub = #[verifier::truncate] (b as u32);
        assert(spec_u32_from_le_bytes(a.enc()) == spec_u32_from_le_bytes(b.enc()));
        assert(ua == ub);
        assert((#[verifier::truncate] (ua as i32)) == a) by (bit_vector)
            requires ua == #[verifier::truncate] (a as u32);
        assert((#[verifier::truncate] (ub as i32)) == b) by (bit_vector)
            requires ub == #[verifier::truncate] (b as u32);
    }

    fn encode_into(&self, out: &mut Vec<u8>) {
        let b = u32_to_le_bytes(#[verifier::truncate] (*self as u32));
        push_all(out, &b);
    }

    fn decode_at(data: &Vec<u8>, at: usize) -> (r: Option<(i32, usize)>) {
        proof {
            lemma_auto_spec_u32_to_from_le_bytes();
        }
        match take_bytes(data, at, 4) {
            Some(b) => {
                let v = u32_from_le_bytes(b.as_slice());
                let x = #[verifier::truncate] (v as i32);
                proof {
                    assert((v as i32) as u32 == v) by (bit_vector);
                    assert forall|y: i32| encodes_at(data@, at as int, #[trigger] y.enc()) implies y
                        == x by {
                        assert(b@ == spec_u32_to_le_bytes(#[verifier::truncate] (y as u32)));
                        assert(v == #[verifier::truncate] (y as u32));
                        assert(((y as u32) as i32) == y) by (bit_vector);
                    }
                }
                Some((x, at + 4))
            },
            None => None,
        }
    }
}

impl Key for i32 {
    open spec fn rank(&self) -> int {
        *self as int
    }

    proof fn lemma_rank_injective(a: i32, b: i32) {
    }

    fn compare(&self, other: &i32) -> (r: Ordering) {
        if *self < *other {
            Ordering::Less
        } else if *self == *other {
            Ordering::Equal
        } else {
            Ordering::Greater
        }
    }
}

impl DeSer for char {
    open spec fn enc(&self) -> Seq<u8> {
        spec_u32_to_le_bytes(*self as u32)
    }

    proof fn lemma_enc_prefix_free(a: char, b: char, s: Seq<u8>, t: Seq<u8>) {
        lemma_auto_spec_u32_to_from_le_bytes();
        let x = a.enc() + s;
        assert(x.subrange(0, 4) =~= a.enc());
        assert((b.enc() + t).subrange(0, 4) =~= b.enc());
        assert(x.subrange(4, x.len() as int) =~= s);
        assert((b.enc() + t).subrange(4, x.len() as int) =~= t);
        assert(spec_u32_from_le_bytes(a.enc()) == spec_u32_from_le_bytes(b.enc()));
        char_u32_cast(a, a as u32);
        char_u32_cast(b, b as u32);
    }

    fn encode_into(&self, out: &mut Vec<u8>) {
        let b = u32_to_le_bytes(*self as u32);
        push_all(out, &b);
    }

    fn decode_at(data: &Vec<u8>, at: usize) -> (r: Option<(char, usize)>) {
        proof {
            lemma_auto_spec_u32_to_from_le_bytes();
        }
        match take_bytes(data, at, 4) {
            Some(b) => {
                let v = u32_from_le_bytes(b.as_slice());
                proof {
                    assert forall|y: char| encodes_at(data@, at as int, #[trigger] y.enc()) implies (
                    v as char) == y && is_scalar(v) by {
                        assert(b@ == spec_u32_to_le_bytes(y as u32));
                        char_is_scalar(y);
                        char_u32_cast(y, v);
                    }
                }
                match char_from_u32(v) {
                    Some(x) => {
                        proof {
                            char_u32_cast(x, x as u32);
                            assert((x as u32) == v);
                        }
                        Some((x, at + 4))
                    },
                    None => None,
                }
            },
            None => None,
        }
    }
}

impl Key for char {
    open spec fn rank(&self) -> int {
        *self as int
    }

    proof fn lemma_rank_injective(a: char, b: char) {
    }

    fn compare(&self, other: &char) -> (r: Ordering) {
        if *self < *other {
            Ordering::Less
        } else if *self == *other {
            Ordering::Equal
        } else {
            Ordering::Greater
        }
    }
}

impl DeSer for () {
    open spec fn enc(&self) -> Seq<u8> {
        Seq::empty()
    }

    proof fn lemma_enc_prefix_free(a: (), b: (), s: Seq<u8>, t: Seq<u8>) {
        assert(a.enc() + s =~= s);
        assert(b.enc() + t =~= t);
    }

    fn encode_into(&self, out: &mut Vec<u8>) {
        assert(out@ + Seq::<u8>::empty() =~= out@);
    }

    fn decode_at(data: &Vec<u8>, at: usize) -> (r: Option<((), usize)>) {
        if at > data.len() {
            return None;
        }
        assert(data@.subrange(at as int, at as int) =~= Seq::<u8>::empty());
        Some(((), at))
    }
}

} // verus!
