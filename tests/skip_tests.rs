use skip_index::deser::DeSer;
use skip_index::link::ListItem;
use skip_index::skip_list::SkipList;
use skip_index::skip_map::SkipMap;
use skip_index::store::RecordStore;
use skip_index::utils::is_pow2;
use std::cmp::Ordering;
use std::collections::HashSet;

fn collect_list<T: DeSer>(list: &SkipList<T>) -> Vec<T> {
    let mut out = Vec::new();
    let mut it = list.iter();
    while let Some(k) = it.next() {
        out.push(k);
    }
    out
}

#[test]
fn test_find() {
    let inp = ['A', 'B', 'C', 'D', 'E', 'F'];
    let skip_map = SkipList::from_sorted_iter(inp.to_vec());

    for (pos, i) in inp.iter().enumerate() {
        let found = skip_map.find(&i);
        assert_eq!(found, Some(pos));
    }
}

#[test]
fn test_find2() {
    let inp: Vec<_> = (0..5000).collect();
    let skip_map = SkipList::from_sorted_iter(inp.clone());

    for (pos, i) in inp.iter().enumerate() {
        let found = skip_map.find(&i);
        assert_eq!(found, Some(pos));
    }
}

#[test]
fn test_iter() {
    let inp: Vec<_> = (0..1000).step_by(2).collect();
    let skip_map = SkipList::from_sorted_iter(inp.clone());
    let collected: Vec<_> = collect_list(&skip_map);
    assert_eq!(collected, inp);
}

#[test]
fn test_find_id() {
    let inp: Vec<_> = (0..1000).step_by(10).collect();
    let skip_map = SkipList::from_sorted_iter(inp.clone());

    for i in collect_list(&skip_map) {
        let found = skip_map.find(&i).unwrap();
        let item = skip_map.get(found as usize).unwrap();
        assert!(inp.binary_search(&item).is_ok());
    }
}

#[test]
fn test_is_pow2() {
    let pows: HashSet<_> = (0..20).map(|i| 2u32.pow(i)).collect();
    let mut max = 0;
    for pow in &pows {
        assert!(is_pow2(*pow));
        max = *pow;
    }

    for i in (0..max).step_by(100) {
        if pows.contains(&i) {
            continue;
        }
        assert!(!is_pow2(i));
    }
}

#[test]
fn is_pow2_edges() {
    assert!(!is_pow2(0));
    assert!(is_pow2(1));
    assert!(is_pow2(2));
    assert!(!is_pow2(3));
    assert!(is_pow2(1 << 31));
    assert!(!is_pow2(u32::MAX));
}

#[test]
fn six_letters_entry_points_and_search() {
    let list = SkipList::from_sorted_iter(vec!['A', 'B', 'C', 'D', 'E', 'F']);
    assert_eq!(list.entries().clone(), vec![0u32, 1, 3]);
    assert_eq!(list.find(&'D'), Some(3));
    assert_eq!(list.find(&'Z'), None);
    assert_eq!(list.find(&'0'), None);
}

#[test]
fn entry_points_follow_powers_of_two() {
    let keys: Vec<u32> = (0..17).collect();
    let list = SkipList::from_sorted_iter(keys);
    assert_eq!(list.entries().clone(), vec![0u32, 1, 3, 7, 15]);
    let keys: Vec<u32> = (0..16).collect();
    let list = SkipList::from_sorted_iter(keys);
    assert_eq!(list.entries().clone(), vec![0u32, 1, 3, 7, 15]);
    let keys: Vec<u32> = (0..15).collect();
    let list = SkipList::from_sorted_iter(keys);
    assert_eq!(list.entries().clone(), vec![0u32, 1, 3, 7]);
    let list = SkipList::from_sorted_iter(vec![9u64]);
    assert_eq!(list.entries().clone(), vec![0u32]);
}

#[test]
fn empty_input() {
    let list: SkipList<i32> = SkipList::from_sorted_iter(Vec::new());
    assert!(list.entries().is_empty());
    assert_eq!(list.find(&0), None);
    assert_eq!(list.find(&-7), None);
    assert_eq!(collect_list(&list).len(), 0);
    assert!(list.is_empty());
    assert_eq!(list.len(), 0);
    assert_eq!(list.get(0), None);

    let map: SkipMap<u32, u64> = SkipMap::new();
    assert!(map.is_empty());
    assert_eq!(map.find(&3), None);
    assert!(map.to_vec().is_empty());
    let map: SkipMap<u32, u64> = SkipMap::default();
    assert_eq!(map.len(), 0);
    let list: SkipList<char> = SkipList::default();
    assert!(list.to_vec().is_empty());
}

#[test]
fn iterate_even_numbers() {
    let inp: Vec<i32> = (0..1000).step_by(2).collect();
    let list = SkipList::from_sorted_iter(inp.clone());
    assert_eq!(list.to_vec(), inp);
    assert_eq!(collect_list(&list).len(), 500);
}

#[test]
fn map_round_trip_and_search() {
    let pairs: Vec<(u32, u64)> = (0..300u32).map(|k| (k * 3 + 1, (k as u64) * 1000 + 7)).collect();
    let map = SkipMap::from_sorted_iter(pairs.clone());
    assert_eq!(map.len(), 300);
    for (p, (k, v)) in pairs.iter().enumerate() {
        assert_eq!(map.get(p), Some((*k, *v)));
        assert_eq!(map.find(k), Some((p, *v)));
        assert!(map.contains(k));
    }
    assert_eq!(map.get(300), None);
    assert_eq!(map.find(&0), None);
    assert_eq!(map.find(&2), None);
    assert_eq!(map.find(&901), None);
    assert!(!map.contains(&5));
    assert_eq!(map.to_vec(), pairs);
    let mut it = map.iter();
    let mut n = 0;
    while let Some(p) = it.next() {
        assert_eq!(p, pairs[n]);
        n += 1;
    }
    assert_eq!(n, 300);
    assert_eq!(it.next(), None);
}

#[test]
fn find_by_derived_field() {
    let pairs: Vec<(i32, u32)> = (-50..50).map(|k| (k * 2, (k + 50) as u32)).collect();
    let map = SkipMap::from_sorted_iter(pairs);
    assert_eq!(map.find_by(|k: &i32| k.cmp(&10)), Some((55, 55)));
    assert_eq!(map.find_by(|k: &i32| (k / 2).cmp(&-50)), Some((0, 0)));
    assert_eq!(map.find_by(|k: &i32| k.cmp(&11)), None);
    assert_eq!(map.find_by(|k: &i32| k.cmp(&-1000)), None);
    assert_eq!(map.find_by(|_k: &i32| Ordering::Less), None);
    let list = SkipList::from_sorted_iter(vec![1u64, 4, 9, 16, 25]);
    assert_eq!(list.find_by(|k: &u64| k.cmp(&16)), Some(3));
    assert_eq!(list.find_by(|k: &u64| k.cmp(&17)), None);
}

#[test]
fn repeated_calls_agree() {
    let list = SkipList::from_sorted_iter((0..100).map(|k| k * 10).collect::<Vec<i32>>());
    for k in [0, 10, 500, 990, 5, 1000] {
        assert_eq!(list.find(&k), list.find(&k));
    }
    assert_eq!(list.get(42), list.get(42));
    assert_eq!(list.to_vec(), list.to_vec());
    assert_eq!(list.find(&500), Some(50));
}

#[test]
fn duplicate_keys_found() {
    let list = SkipList::from_sorted_iter(vec![1u32, 1, 1, 2, 2, 3, 3, 3, 3]);
    let p = list.find(&3).unwrap();
    assert_eq!(list.get(p), Some(3));
    let p = list.find(&2).unwrap();
    assert_eq!(list.get(p), Some(2));
    assert_eq!(list.find(&4), None);
}

#[test]
fn list_item_encoding() {
    let item = ListItem::with_next(7u32, 'x', 5);
    assert!(item.has_next());
    let bytes = item.encode_vec();
    assert_eq!(bytes, vec![7, 0, 0, 0, b'x', 0, 0, 0, 5, 0, 0, 0]);
    let back = ListItem::<u32, char>::decode(&bytes).unwrap();
    assert_eq!((back.item, back.value, back.next), (7, 'x', 5));

    let item = ListItem::new(-2i32, ());
    assert!(!item.has_next());
    assert_eq!(item.next, 0);
    let bytes = item.encode_vec();
    assert_eq!(bytes, vec![0xfe, 0xff, 0xff, 0xff, 0, 0, 0, 0]);
    let back = ListItem::<i32, ()>::decode(&bytes).unwrap();
    assert_eq!(back.item, -2);

    let bytes = ListItem::encode_parts(&u64::MAX, &1u32, 0);
    assert_eq!(bytes.len(), 16);
    let back = ListItem::<u64, u32>::decode(&bytes).unwrap();
    assert_eq!((back.item, back.value, back.next), (u64::MAX, 1, 0));
}

#[test]
fn list_item_rejects_bad_bytes() {
    let bytes = ListItem::with_next(7u32, 'x', 5).encode_vec();
    assert!(ListItem::<u32, char>::decode(&bytes[..11].to_vec()).is_none());
    let mut longer = bytes.clone();
    longer.push(0);
    assert!(ListItem::<u32, char>::decode(&longer).is_none());
    let surrogate = vec![1, 0, 0, 0, 0x00, 0xd8, 0, 0, 0, 0, 0, 0];
    assert!(ListItem::<u32, char>::decode(&surrogate).is_none());
    let valid = vec![1, 0, 0, 0, 0xe9, 0, 0, 0, 0, 0, 0, 0];
    assert_eq!(ListItem::<u32, char>::decode(&valid).unwrap().value, '\u{e9}');
    assert!(ListItem::<u32, char>::decode(&Vec::new()).is_none());
}

#[test]
fn record_store_appends() {
    let mut store = RecordStore::new();
    assert_eq!(store.len(), 0);
    assert_eq!(store.insert(vec![1, 2]), 0);
    assert_eq!(store.insert(vec![]), 1);
    assert_eq!(store.insert(vec![9]), 2);
    assert_eq!(store.len(), 3);
    assert_eq!(store.get(0), Some(&vec![1, 2]));
    assert_eq!(store.get(1), Some(&vec![]));
    assert_eq!(store.get(3), None);
}

#[test]
fn snapshot_round_trip() {
    let pairs: Vec<(u32, i32)> = (0..40u32).map(|k| (k * 5, -(k as i32))).collect();
    let map = SkipMap::from_sorted_iter(pairs.clone());
    let (records, entries) = map.to_parts();
    assert_eq!(records.len(), 40);
    assert_eq!(entries.clone(), vec![0u32, 1, 3, 7, 15, 31]);
    let restored = SkipMap::<u32, i32>::from_parts(records.clone(), entries.clone()).unwrap();
    assert_eq!(restored.to_vec(), pairs);
    assert_eq!(restored.find(&35), Some((7, -7)));

    let list = SkipList::from_sorted_iter(vec!['a', 'b', 'c']);
    let (records, entries) = list.to_parts();
    let back = SkipList::<char>::from_parts(records.clone(), entries.clone()).unwrap();
    assert_eq!(back.to_vec(), vec!['a', 'b', 'c']);
    assert_eq!(back.find(&'c'), Some(2));
}

#[test]
fn snapshot_rejects_bad_parts() {
    let map = SkipMap::from_sorted_iter(vec![(1u32, 10u32), (2, 20), (3, 30)]);
    let (records, entries) = map.to_parts();
    let records = records.clone();
    let entries = entries.clone();

    assert!(SkipMap::<u32, u32>::from_parts(records.clone(), vec![0]).is_none());
    assert!(SkipMap::<u32, u32>::from_parts(records.clone(), vec![0, 2]).is_none());
    assert!(SkipMap::<u32, u32>::from_parts(records.clone(), vec![0, 1, 3]).is_none());

    let mut truncated = records.clone();
    truncated[1].pop();
    assert!(SkipMap::<u32, u32>::from_parts(truncated, entries.clone()).is_none());

    let mut relinked = records.clone();
    relinked[1] = ListItem::encode_parts(&2u32, &20u32, 0);
    assert!(SkipMap::<u32, u32>::from_parts(relinked, entries.clone()).is_none());

    let mut rewritten = records.clone();
    rewritten[2] = ListItem::encode_parts(&7u32, &70u32, 0);
    let changed = SkipMap::<u32, u32>::from_parts(rewritten, entries.clone()).unwrap();
    assert_eq!(changed.get(2), Some((7, 70)));

    let empty = SkipMap::<u32, u32>::from_parts(Vec::new(), Vec::new()).unwrap();
    assert!(empty.is_empty());
    assert!(SkipMap::<u32, u32>::from_parts(Vec::new(), vec![0]).is_none());
}
