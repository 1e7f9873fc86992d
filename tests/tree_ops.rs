use rand::rngs::StdRng;
use rand::seq::SliceRandom;
use rand::SeedableRng;
use redblack::RbTree;

fn tree_of(keys: &[i32]) -> RbTree {
    let mut t = RbTree::new();
    for &k in keys {
        t.insert(k);
    }
    t
}

fn is_strictly_increasing(v: &[i32]) -> bool {
    v.windows(2).all(|w| w[0] < w[1])
}

#[test]
fn nine_keys_then_delete_middle() {
    let mut t = tree_of(&[1, 9, 2, 8, 3, 7, 4, 6, 5]);
    assert_eq!(t.enumerate(), vec![1, 2, 3, 4, 5, 6, 7, 8, 9]);
    assert_eq!(t.get(&5), Some(&5));
    t.delete(&5);
    assert_eq!(t.get(&5), None);
    assert_eq!(t.enumerate(), vec![1, 2, 3, 4, 6, 7, 8, 9]);
    assert_eq!(t.size(), 8);
}

#[test]
fn random_permutation_inserted_then_all_deleted() {
    let mut rng = StdRng::seed_from_u64(0x12345678);
    let mut keys: Vec<i32> = (0..200).collect();
    keys.shuffle(&mut rng);
    let mut t = tree_of(&keys);
    assert_eq!(t.size(), 200);
    assert_eq!(t.enumerate(), (0..200).collect::<Vec<i32>>());
    let mut order = keys.clone();
    order.shuffle(&mut rng);
    assert_ne!(order, keys);
    let mut left = 200;
    for &k in &order {
        t.delete(&k);
        left -= 1;
        assert_eq!(t.get(&k), None);
        assert_eq!(t.size(), left);
        let listed = t.enumerate();
        assert_eq!(listed.len(), left);
        assert!(is_strictly_increasing(&listed));
    }
    assert_eq!(t.size(), 0);
    assert!(t.enumerate().is_empty());
}

#[test]
fn listing_is_sorted_after_insertions() {
    let mut rng = StdRng::seed_from_u64(7);
    let mut keys: Vec<i32> = (0..100).map(|i| (i * 37) % 101 - 50).collect();
    keys.shuffle(&mut rng);
    let t = tree_of(&keys);
    let listed = t.enumerate();
    assert!(is_strictly_increasing(&listed));
    let mut expected = keys.clone();
    expected.sort();
    assert_eq!(listed, expected);
}

#[test]
fn size_matches_listing() {
    let mut t = tree_of(&[10, 20, 30, 20, 10, 40]);
    assert_eq!(t.size(), 4);
    assert_eq!(t.enumerate().len(), t.size());
    t.delete(&20);
    t.delete(&99);
    assert_eq!(t.size(), 3);
    assert_eq!(t.enumerate().len(), t.size());
}

#[test]
fn lookup_follows_inserts_and_deletes() {
    let mut t = tree_of(&[5, 3, 8, 1, 4]);
    t.delete(&3);
    t.insert(3);
    t.delete(&8);
    assert_eq!(t.get(&3), Some(&3));
    assert_eq!(t.get(&5), Some(&5));
    assert_eq!(t.get(&1), Some(&1));
    assert_eq!(t.get(&4), Some(&4));
    assert_eq!(t.get(&8), None);
    assert_eq!(t.get(&2), None);
    assert_eq!(t.get(&100), None);
}

#[test]
fn deleting_absent_key_changes_nothing() {
    let mut t = tree_of(&[4, 2, 6, 1, 3, 5, 7]);
    let before = t.enumerate();
    t.delete(&10);
    t.delete(&0);
    assert_eq!(t.enumerate(), before);
    assert_eq!(t.size(), 7);
}

#[test]
fn listing_independent_of_insertion_order() {
    let a = tree_of(&[3, 1, 4, 5, 9, 2, 6]);
    let b = tree_of(&[9, 6, 5, 4, 3, 2, 1]);
    let c = tree_of(&[1, 2, 3, 4, 5, 6, 9]);
    assert_eq!(a.enumerate(), vec![1, 2, 3, 4, 5, 6, 9]);
    assert_eq!(a.enumerate(), b.enumerate());
    assert_eq!(b.enumerate(), c.enumerate());
}

#[test]
fn empty_tree() {
    let mut t = RbTree::new();
    assert_eq!(t.size(), 0);
    assert_eq!(t.get(&0), None);
    assert!(t.enumerate().is_empty());
    t.delete(&0);
    assert_eq!(t.size(), 0);
}

#[test]
fn duplicate_insert_keeps_one_copy() {
    let mut t = tree_of(&[7, 7, 7]);
    assert_eq!(t.size(), 1);
    assert_eq!(t.enumerate(), vec![7]);
    t.delete(&7);
    assert_eq!(t.size(), 0);
    assert_eq!(t.get(&7), None);
}

#[test]
fn extreme_keys() {
    let mut t = tree_of(&[i32::MAX, 0, i32::MIN, -1, 1]);
    assert_eq!(t.enumerate(), vec![i32::MIN, -1, 0, 1, i32::MAX]);
    t.delete(&i32::MIN);
    assert_eq!(t.enumerate(), vec![-1, 0, 1, i32::MAX]);
    assert_eq!(t.get(&i32::MAX), Some(&i32::MAX));
}

#[test]
fn ascending_and_descending_runs() {
    let mut t = RbTree::new();
    for k in 0..1000 {
        t.insert(k);
    }
    for k in (1000..2000).rev() {
        t.insert(k);
    }
    assert_eq!(t.size(), 2000);
    assert_eq!(t.enumerate(), (0..2000).collect::<Vec<i32>>());
    for k in (0..2000).filter(|k| k % 2 == 0) {
        t.delete(&k);
    }
    assert_eq!(t.enumerate(), (0..2000).filter(|k| k % 2 == 1).collect::<Vec<i32>>());
    assert_eq!(t.get(&1999), Some(&1999));
    assert_eq!(t.get(&1998), None);
}
