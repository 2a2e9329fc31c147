use tokimo_kvdb::audit::is_sound;
use tokimo_kvdb::btree::BTree;
use tokimo_kvdb::node::{get_value_from_page, leaf_insert, write_header};
use tokimo_kvdb::pager::{Page, Pager};
use tokimo_kvdb::{KvdbError, NodeHeader, NodeType, ROOT_PAGE_ID};

fn setup() -> (Pager, BTree) {
    let pager = Pager::new(Vec::new()).unwrap();
    let btree = BTree::new(ROOT_PAGE_ID);
    (pager, btree)
}

#[test]
fn test_btree_basic_operations() {
    let (mut pager, mut btree) = setup();

    btree.insert(&mut pager, b"key1", b"value1").unwrap();
    btree.insert(&mut pager, b"key2", b"value2").unwrap();
    btree.insert(&mut pager, b"key3", b"value3").unwrap();

    assert_eq!(btree.search(&mut pager, b"key1").unwrap(), Some(b"value1".to_vec()));
    assert_eq!(btree.search(&mut pager, b"key2").unwrap(), Some(b"value2".to_vec()));
    assert_eq!(btree.search(&mut pager, b"key3").unwrap(), Some(b"value3".to_vec()));
    assert_eq!(btree.search(&mut pager, b"missing").unwrap(), None);
}

#[test]
fn test_btree_root_split() {
    let (mut pager, mut btree) = setup();

    // Insert enough entries to trigger a root split
    for i in 0..100u32 {
        let key = format!("key_{:04}", i);
        let val = format!("val_{:04}", i);
        btree.insert(&mut pager, key.as_bytes(), val.as_bytes()).unwrap();
    }

    // All entries should be findable
    for i in 0..100u32 {
        let key = format!("key_{:04}", i);
        let val = format!("val_{:04}", i);
        assert_eq!(btree.search(&mut pager, key.as_bytes()).unwrap(), Some(val.into_bytes()));
    }
}

#[test]
fn test_btree_iterator_sorted_order() {
    let (mut pager, mut btree) = setup();

    // Insert in random-ish order
    let keys = vec!["delta", "alpha", "charlie", "bravo", "echo"];
    for k in &keys {
        btree
            .insert(&mut pager, k.as_bytes(), format!("v_{}", k).as_bytes())
            .unwrap();
    }

    let entries = btree.iter_entries(&mut pager).unwrap();
    let collected_keys: Vec<String> = entries
        .iter()
        .map(|(k, _)| String::from_utf8(k.clone()).unwrap())
        .collect();
    assert_eq!(collected_keys, vec!["alpha", "bravo", "charlie", "delta", "echo"]);
    assert_eq!(entries[0].1, b"v_alpha".to_vec());
}

#[test]
fn test_btree_multi_level_search() {
    let (mut pager, mut btree) = setup();

    for i in 0..200u32 {
        let key = format!("k{:05}", i);
        let val = format!("v{:05}", i);
        btree.insert(&mut pager, key.as_bytes(), val.as_bytes()).unwrap();
    }

    for i in 0..200u32 {
        let key = format!("k{:05}", i);
        let val = format!("v{:05}", i);
        assert_eq!(
            btree.search(&mut pager, key.as_bytes()).unwrap(),
            Some(val.into_bytes()),
            "Failed to find {}",
            key
        );
    }
}

#[test]
fn test_btree_repeated_updates() {
    let (mut pager, mut btree) = setup();

    btree.insert(&mut pager, b"key", b"version1").unwrap();
    assert_eq!(btree.search(&mut pager, b"key").unwrap(), Some(b"version1".to_vec()));

    btree.insert(&mut pager, b"key", b"version2").unwrap();
    assert_eq!(btree.search(&mut pager, b"key").unwrap(), Some(b"version2".to_vec()));

    btree.insert(&mut pager, b"key", b"version3").unwrap();
    assert_eq!(btree.search(&mut pager, b"key").unwrap(), Some(b"version3".to_vec()));
}

#[test]
fn test_btree_delete() {
    let (mut pager, mut btree) = setup();

    btree.insert(&mut pager, b"a", b"1").unwrap();
    btree.insert(&mut pager, b"b", b"2").unwrap();
    btree.insert(&mut pager, b"c", b"3").unwrap();

    btree.delete(&mut pager, b"b").unwrap();
    assert_eq!(btree.search(&mut pager, b"b").unwrap(), None);
    assert_eq!(btree.search(&mut pager, b"a").unwrap(), Some(b"1".to_vec()));
    assert_eq!(btree.search(&mut pager, b"c").unwrap(), Some(b"3".to_vec()));
}

#[test]
fn test_btree_verify() {
    let (mut pager, mut btree) = setup();

    for i in 0..50u32 {
        let key = format!("key_{:04}", i);
        let val = format!("val_{:04}", i);
        btree.insert(&mut pager, key.as_bytes(), val.as_bytes()).unwrap();
    }

    let (pages, entries) = btree.verify(&mut pager).unwrap();
    assert!(pages > 0);
    assert_eq!(entries, 50);
}

#[test]
fn test_btree_inspect() {
    let (mut pager, mut btree) = setup();

    for i in 0..100u32 {
        let key = format!("key_{:04}", i);
        let val = format!("val_{:04}", i);
        btree.insert(&mut pager, key.as_bytes(), val.as_bytes()).unwrap();
    }

    let (height, nodes, leaves, internals, entries) = btree.inspect(&mut pager).unwrap();
    assert!(height >= 2);
    assert_eq!(entries, 100);
    assert!(leaves > 0);
    assert!(internals > 0);
    assert_eq!(nodes, leaves + internals);
}

#[test]
fn a_full_leaf_splits_in_the_middle() {
    let (mut pager, mut btree) = setup();
    for i in 0..64u32 {
        btree.insert(&mut pager, format!("{:03}", i).as_bytes(), b"x").unwrap();
    }
    assert_eq!(btree.root_page_id(), ROOT_PAGE_ID);
    assert_eq!(btree.inspect(&mut pager).unwrap(), (1, 1, 1, 0, 64));
    btree.insert(&mut pager, b"064", b"x").unwrap();
    // 65 pairs: 32 to the left, 33 to the right, and a new root above them.
    assert_eq!(btree.root_page_id(), 3);
    assert_eq!(btree.inspect(&mut pager).unwrap(), (2, 3, 2, 1, 65));
    // The separator is counted with the pairs.
    assert_eq!(btree.verify(&mut pager).unwrap(), (3, 66));
    assert_eq!(pager.read_metadata().unwrap().root_page, 3);
    assert_eq!(pager.read_metadata().unwrap().last_page_id, 3);
}

#[test]
fn a_leaf_splits_when_its_bytes_run_out() {
    let (mut pager, mut btree) = setup();
    let value = vec![7u8; 1000];
    for k in [b"a", b"b", b"c"] {
        btree.insert(&mut pager, k, &value).unwrap();
    }
    assert_eq!(btree.inspect(&mut pager).unwrap().1, 1);
    btree.insert(&mut pager, b"d", &value).unwrap();
    assert_eq!(btree.inspect(&mut pager).unwrap(), (2, 3, 2, 1, 4));
    for k in [b"a", b"b", b"c", b"d"] {
        assert_eq!(btree.search(&mut pager, k).unwrap(), Some(value.clone()));
    }
}

#[test]
fn the_tree_grows_to_three_levels() {
    let (mut pager, mut btree) = setup();
    let n = 6000u32;
    for i in 0..n {
        let k = format!("{:08}", (i * 7919) % n);
        btree.insert(&mut pager, k.as_bytes(), &i.to_le_bytes()).unwrap();
    }
    let (height, nodes, leaves, internals, entries) = btree.inspect(&mut pager).unwrap();
    assert_eq!(height, 3);
    assert_eq!(entries, n as u64);
    assert_eq!(nodes, leaves + internals);
    assert!(leaves >= 4);
    let (pages, keys) = btree.verify(&mut pager).unwrap();
    assert_eq!(pages, nodes);
    // Every child but the first of a node has a separator.
    assert_eq!(keys, entries + (nodes - 1) - internals);
    let listed = btree.iter_entries(&mut pager).unwrap();
    assert_eq!(listed.len(), n as usize);
    assert!(listed.windows(2).all(|w| w[0].0 < w[1].0));
    for i in 0..n {
        let k = format!("{:08}", (i * 7919) % n);
        assert_eq!(btree.search(&mut pager, k.as_bytes()).unwrap(), Some(i.to_le_bytes().to_vec()));
    }
}

#[test]
fn sizes_are_checked() {
    let (mut pager, mut btree) = setup();
    let wrong = Err(KvdbError::InvalidArgument("key or value size".to_string()));
    assert_eq!(btree.insert(&mut pager, b"", b"v"), wrong);
    assert_eq!(btree.insert(&mut pager, &vec![1u8; 1025], b"v"), wrong);
    assert_eq!(btree.insert(&mut pager, b"k", &vec![1u8; 2049]), wrong);
    assert_eq!(btree.insert(&mut pager, &vec![1u8; 1024], &vec![1u8; 2048]), Ok(()));
    assert_eq!(btree.search(&mut pager, &vec![1u8; 1024]).unwrap(), Some(vec![1u8; 2048]));
}

#[test]
fn a_leaf_below_the_root_keeps_its_last_pair() {
    let (mut pager, mut btree) = setup();
    for i in 0..65u32 {
        btree.insert(&mut pager, format!("{:03}", i).as_bytes(), b"x").unwrap();
    }
    // The left leaf holds 000 to 031.
    for i in 0..31u32 {
        btree.delete(&mut pager, format!("{:03}", i).as_bytes()).unwrap();
    }
    assert_eq!(btree.delete(&mut pager, b"031"), Err(KvdbError::NodeEmpty));
    assert_eq!(btree.search(&mut pager, b"031").unwrap(), Some(b"x".to_vec()));
    // A key that belongs in that leaf and is not there is answered in the same way.
    assert_eq!(btree.delete(&mut pager, b"000"), Err(KvdbError::NodeEmpty));
    assert_eq!(btree.delete(&mut pager, b"999"), Err(KvdbError::KeyNotFound));
}

#[test]
fn the_last_pair_of_the_root_can_go() {
    let (mut pager, mut btree) = setup();
    btree.insert(&mut pager, b"only", b"one").unwrap();
    assert_eq!(btree.delete(&mut pager, b"other"), Err(KvdbError::KeyNotFound));
    btree.delete(&mut pager, b"only").unwrap();
    assert_eq!(btree.iter_entries(&mut pager).unwrap(), vec![]);
    assert_eq!(btree.delete(&mut pager, b"only"), Err(KvdbError::KeyNotFound));
}

#[test]
fn the_scan_calls_for_each_pair() {
    let (mut pager, mut btree) = setup();
    for k in ["b", "a", "c"] {
        btree.insert(&mut pager, k.as_bytes(), format!("{}{}", k, k).as_bytes()).unwrap();
    }
    let mut seen: Vec<(Vec<u8>, Vec<u8>)> = Vec::new();
    let n = btree
        .for_each_entry(&mut pager, &mut |k: &[u8], v: &[u8]| seen.push((k.to_vec(), v.to_vec())))
        .unwrap();
    assert_eq!(n, 3);
    assert_eq!(
        seen,
        vec![
            (b"a".to_vec(), b"aa".to_vec()),
            (b"b".to_vec(), b"bb".to_vec()),
            (b"c".to_vec(), b"cc".to_vec()),
        ]
    );
}

#[test]
fn keys_compare_byte_by_byte() {
    let (mut pager, mut btree) = setup();
    let keys: Vec<Vec<u8>> = vec![vec![0xff], vec![0], vec![0, 0], vec![0x7f, 1], vec![0x80]];
    for k in &keys {
        btree.insert(&mut pager, k, b"v").unwrap();
    }
    let mut sorted = keys.clone();
    sorted.sort();
    let listed: Vec<Vec<u8>> =
        btree.iter_entries(&mut pager).unwrap().into_iter().map(|(k, _)| k).collect();
    assert_eq!(listed, sorted);
}

/// All pairs are found and listed in order, and the tree passes its own verification.
fn holds(pager: &mut Pager, btree: &BTree, pairs: &[(Vec<u8>, Vec<u8>)]) {
    for (k, v) in pairs {
        assert_eq!(btree.search(pager, k).unwrap(), Some(v.clone()));
    }
    let mut sorted = pairs.to_vec();
    sorted.sort();
    assert_eq!(btree.iter_entries(pager).unwrap(), sorted);
    assert!(btree.verify(pager).is_ok());
    assert_eq!(is_sound(pager, btree.root_page_id()), Ok(true));
}

#[test]
fn large_values_lie_side_by_side() {
    let (mut pager, mut btree) = setup();
    btree.insert(&mut pager, b"a", b"1").unwrap();
    btree.insert(&mut pager, b"c", &[7u8; 2048]).unwrap();
    assert_eq!(btree.can_insert(&mut pager, b"b", &[8u8; 2048]), Ok(true));
    btree.insert(&mut pager, b"b", &[8u8; 2048]).unwrap();
    let pairs = [
        (b"a".to_vec(), b"1".to_vec()),
        (b"b".to_vec(), vec![8u8; 2048]),
        (b"c".to_vec(), vec![7u8; 2048]),
    ];
    holds(&mut pager, &btree, &pairs);
    assert_eq!(btree.inspect(&mut pager).unwrap(), (2, 3, 2, 1, 3));
}

#[test]
fn a_pair_that_fits_on_neither_side_parts_the_leaf() {
    let (mut pager, mut btree) = setup();
    btree.insert(&mut pager, b"a", &[1u8; 1500]).unwrap();
    btree.insert(&mut pager, b"c", &[3u8; 1500]).unwrap();
    let key = vec![b'b'; 1024];
    btree.insert(&mut pager, &key, &[2u8; 2048]).unwrap();
    let pairs = [
        (b"a".to_vec(), vec![1u8; 1500]),
        (key.clone(), vec![2u8; 2048]),
        (b"c".to_vec(), vec![3u8; 1500]),
    ];
    holds(&mut pager, &btree, &pairs);
    assert_eq!(btree.inspect(&mut pager).unwrap(), (2, 4, 3, 1, 3));
}

#[test]
fn a_larger_value_for_a_key_in_the_middle_parts_the_leaf() {
    let (mut pager, mut btree) = setup();
    let key = vec![b'b'; 1024];
    btree.insert(&mut pager, b"a", &[1u8; 1000]).unwrap();
    btree.insert(&mut pager, &key, b"").unwrap();
    btree.insert(&mut pager, b"c", &[3u8; 1000]).unwrap();
    assert_eq!(btree.inspect(&mut pager).unwrap(), (1, 1, 1, 0, 3));
    btree.insert(&mut pager, &key, &[2u8; 2048]).unwrap();
    let pairs = [
        (b"a".to_vec(), vec![1u8; 1000]),
        (key.clone(), vec![2u8; 2048]),
        (b"c".to_vec(), vec![3u8; 1000]),
    ];
    holds(&mut pager, &btree, &pairs);
    assert_eq!(btree.inspect(&mut pager).unwrap(), (2, 4, 3, 1, 3));
}

#[test]
fn long_separators_leave_the_children_whole() {
    let (mut pager, mut btree) = setup();
    let mut pairs = Vec::new();
    for i in 1..=5u8 {
        btree.insert(&mut pager, &[i; 1020], b"").unwrap();
        pairs.push((vec![i; 1020], vec![]));
    }
    holds(&mut pager, &btree, &pairs);
    for i in 6..=60u8 {
        btree.insert(&mut pager, &[i; 1024], &[i; 2048]).unwrap();
        pairs.push((vec![i; 1024], vec![i; 2048]));
    }
    holds(&mut pager, &btree, &pairs);
    for i in (1..=5u8).rev() {
        btree.insert(&mut pager, &[i; 1020], &[i; 2048]).unwrap();
        pairs[i as usize - 1].1 = vec![i; 2048];
    }
    holds(&mut pager, &btree, &pairs);
}

#[test]
fn a_full_leaf_is_changed_value_by_value() {
    let (mut pager, mut btree) = setup();
    for i in 0..60u32 {
        btree.insert(&mut pager, format!("{:03}", i).as_bytes(), b"").unwrap();
    }
    let mut pairs = Vec::new();
    for i in 0..60u32 {
        let key = format!("{:03}", i).into_bytes();
        assert_eq!(btree.can_insert(&mut pager, &key, &[1u8; 2048]), Ok(true));
        btree.insert(&mut pager, &key, &[1u8; 2048]).unwrap();
        pairs.push((key, vec![1u8; 2048]));
    }
    holds(&mut pager, &btree, &pairs);
}

#[test]
fn free_pages_are_used_before_new_ones() {
    let (mut pager, mut btree) = setup();
    let p = pager.allocate_page().unwrap();
    let q = pager.allocate_page().unwrap();
    assert_eq!((p, q), (2, 3));
    pager.free_page(p).unwrap();
    pager.free_page(q).unwrap();
    assert_eq!(pager.count_freelist_pages().unwrap(), 2);
    for i in 0..65u32 {
        btree.insert(&mut pager, format!("{:03}", i).as_bytes(), b"x").unwrap();
    }
    // The right half goes to the page that was freed last, the new root to the other.
    assert_eq!(btree.root_page_id(), p);
    assert_eq!(pager.count_freelist_pages().unwrap(), 0);
    assert_eq!(pager.read_metadata().unwrap().last_page_id, 3);
    assert_eq!(btree.verify(&mut pager).unwrap(), (3, 66));
}

#[test]
fn a_full_leaf_page_is_left_as_it_is() {
    let mut page = Page::new(2);
    write_header(&mut page, &NodeHeader::new(NodeType::Leaf));
    page.write(3576, &[9u8; 520]);
    leaf_insert(&mut page, b"a", &[1u8; 2048]).unwrap();
    leaf_insert(&mut page, b"b", &[2u8; 1000]).unwrap();
    assert_eq!(page.bytes()[3576..], [9u8; 520]);
    let before = page.bytes().to_vec();
    assert_eq!(leaf_insert(&mut page, b"b", &[3u8; 2048]), Err(KvdbError::NodeFull));
    assert_eq!(leaf_insert(&mut page, b"c", &[3u8; 100]), Err(KvdbError::NodeFull));
    assert_eq!(page.bytes(), before);
    // A shorter value leaves zeros behind the pairs and nothing else changed.
    leaf_insert(&mut page, b"a", b"").unwrap();
    assert_eq!(get_value_from_page(&page, 0), b"".to_vec());
    assert_eq!(get_value_from_page(&page, 1), vec![2u8; 1000]);
    assert_eq!(page.bytes()[517 + 1002..3576], [0u8; 3576 - 517 - 1002]);
    assert_eq!(page.bytes()[3576..], [9u8; 520]);
}

#[test]
fn small_pairs_fan_out() {
    let (mut pager, mut btree) = setup();
    for i in 0..3000u32 {
        btree.insert(&mut pager, format!("{:05}", i).as_bytes(), &[1u8; 42]).unwrap();
    }
    let (height, nodes, leaves, internals, entries) = btree.inspect(&mut pager).unwrap();
    assert_eq!((height, entries), (3, 3000));
    assert_eq!(nodes, leaves + internals);
    assert!(entries >= 64 * 33);
}
