use vstd::prelude::*;
use crate::deser::{DeSer, Key};
use crate::link::{lemma_record_bytes_injective, record_bytes};
use crate::skip_map::{
    find_result, has_key, is_entry_table, keys_sorted, keys_strictly_sorted, pair_at, snapshot_of,
    next_of,
};
use crate::utils::{is_power_of_two, lemma_pow2_order};
use vstd::arithmetic::power2::pow2;

verus! {

/// Every position of the input reads back as the pair given there: a map
/// built from `list` holds `list`, and `get(p)` answers `pair_at` of it.
pub proof fn lemma_round_trip<T, V>(list: Seq<(T, V)>, p: int)
    requires
        0 <= p < list.len(),
    ensures
        pair_at(list, p) == Some(list[p]),
{
}

/// On strictly increasing keys, a search for the key at position `p` answers
/// that position and its value.
pub proof fn lemma_exact_search<T: Key, V>(m: Seq<(T, V)>, p: int, r: Option<(usize, V)>)
    requires
        keys_strictly_sorted(m),
        0 <= p < m.len(),
        find_result(m, m[p].0, r),
    ensures
        r == Some((p as usize, m[p].1)),
{
    assert(keys_sorted(m));
    assert(has_key(m, m[p].0));
    let x = r->Some_0;
    if x.0 < p {
        assert(m[x.0 as int].0.rank() < m[p].0.rank());
    } else if x.0 > p {
        assert(m[p].0.rank() < m[x.0 as int].0.rank());
    }
}

/// On sorted keys, a search for a key that is not held answers `None`.
pub proof fn lemma_absent_search<T: Key, V>(m: Seq<(T, V)>, key: T, r: Option<(usize, V)>)
    requires
        keys_sorted(m),
        !has_key(m, key),
        find_result(m, key, r),
    ensures
        r is None,
{
}

/// Position `p` starts a segment: `p + 1` is a power of two.
pub open spec fn starts_segment(p: int) -> bool {
    is_power_of_two(p + 1)
}

/// The entry-point table of `n` records holds, in ascending order, exactly
/// the positions `p < n` that start a segment.
pub proof fn lemma_entry_placement(e: Seq<u32>, n: int)
    requires
        is_entry_table(e, n),
        n <= u32::MAX,
    ensures
        forall|i: int, j: int| 0 <= i < j < e.len() ==> e[i] < e[j],
        forall|i: int| 0 <= i < e.len() ==> e[i] < n,
        forall|p: int| 0 <= p < n ==> (#[trigger] starts_segment(p) <==> e.contains(p as u32)),
{
    assert forall|i: int, j: int| 0 <= i < j < e.len() implies e[i] < e[j] by {
        lemma_pow2_order(i as nat, j as nat);
    }
    assert forall|p: int| 0 <= p < n implies (#[trigger] starts_segment(p) <==> e.contains(
        p as u32,
    )) by {
        if starts_segment(p) {
            let k = choose|k: nat| pow2(k) == p + 1;
            lemma_pow2_order(k, e.len());
            assert(e[k as int] == p);
        }
        if e.contains(p as u32) {
            let i = choose|i: int| 0 <= i < e.len() && e[i] == p as u32;
            assert(pow2(i as nat) == p + 1);
        }
    }
}

/// On strictly increasing keys, two searches for one key answer alike.
pub proof fn lemma_find_repeatable<T: Key, V>(
    m: Seq<(T, V)>,
    key: T,
    r1: Option<(usize, V)>,
    r2: Option<(usize, V)>,
)
    requires
        keys_strictly_sorted(m),
        find_result(m, key, r1),
        find_result(m, key, r2),
    ensures
        r1 == r2,
{
    if has_key(m, key) {
        let p = choose|i: int| 0 <= i < m.len() && #[trigger] m[i].0 == key;
        lemma_exact_search(m, p, r1);
        lemma_exact_search(m, p, r2);
    } else {
        assert(keys_sorted(m));
    }
}

/// A snapshot determines its pairs: what `from_parts` restores from the parts
/// that `to_parts` gave holds the pairs of the map they came from.
pub proof fn lemma_snapshot_round_trip<T: DeSer, V: DeSer>(
    m1: Seq<(T, V)>,
    m2: Seq<(T, V)>,
    records: Seq<Seq<u8>>,
    entries: Seq<u32>,
)
    requires
        snapshot_of(m1, records, entries),
        snapshot_of(m2, records, entries),
    ensures
        m1 == m2,
{
    assert forall|p: int| 0 <= p < m1.len() implies m1[p] == m2[p] by {
        assert(records[p] == record_bytes(m1[p].0, m1[p].1, next_of(p, m1.len() as int)));
        lemma_record_bytes_injective(
            m1[p].0,
            m1[p].1,
            next_of(p, m1.len() as int),
            m2[p].0,
            m2[p].1,
            next_of(p, m2.len() as int),
        );
    }
    assert(m1 =~= m2);
}

} // verus!
