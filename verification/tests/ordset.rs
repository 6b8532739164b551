use std::cmp::Ordering;
use std::collections::BTreeSet;

use sp_im::OrdSet;

// Empty set; insert 5, 3, 8 and a duplicate 3; length 3 and ordered
// iteration [3, 5, 8]; remove 3; length 2 and iteration [5, 8].
#[test]
fn insert_duplicate_remove_scenario() {
    let mut s = OrdSet::new();
    s.insert(5);
    s.insert(3);
    s.insert(8);
    s.insert(3);
    assert_eq!(s.len(), 3);
    assert_eq!(s.to_vec(), vec![3, 5, 8]);
    assert!(s.remove(3));
    assert_eq!(s.len(), 2);
    assert_eq!(s.to_vec(), vec![5, 8]);
    assert!(!s.remove(3));
    assert_eq!(s.to_vec(), vec![5, 8]);
}

#[test]
fn contains_and_from_vec() {
    let s = OrdSet::from_vec(&vec![4u64, 2, 9, 2, 4, 4]);
    assert_eq!(s.len(), 3);
    assert_eq!(s.to_vec(), vec![2, 4, 9]);
    assert!(s.contains(2));
    assert!(s.contains(4));
    assert!(s.contains(9));
    assert!(!s.contains(3));
}

// Insert/remove runs tracked against a reference sorted-set model.
#[test]
fn set_insert_remove_match_reference_model() {
    let mut s = OrdSet::new();
    let mut model: BTreeSet<u64> = BTreeSet::new();
    let mut x: u64 = 7;
    for step in 0u64..300 {
        x = x.wrapping_mul(2862933555777941757).wrapping_add(3037000493);
        let key = x % 30;
        if step % 3 == 2 {
            assert_eq!(s.remove(key), model.remove(&key));
        } else {
            s.insert(key);
            model.insert(key);
        }
        assert_eq!(s.len(), model.len());
        assert_eq!(s.to_vec(), model.iter().copied().collect::<Vec<u64>>());
    }
}

fn reference_sets() -> Vec<Vec<u64>> {
    vec![
        vec![],
        vec![1],
        vec![1, 2, 3],
        vec![2, 4, 6, 8],
        vec![1, 3, 5, 7, 9],
        (0..40).collect(),
        (20..60).map(|i| i * 2).collect(),
    ]
}

// Union, intersection and difference agree with the reference set algebra,
// including the empty-set identities.
#[test]
fn set_algebra_matches_reference() {
    let inputs = reference_sets();
    for a_items in &inputs {
        for b_items in &inputs {
            let a_ref: BTreeSet<u64> = a_items.iter().copied().collect();
            let b_ref: BTreeSet<u64> = b_items.iter().copied().collect();
            let a = OrdSet::from_vec(a_items);
            let b = OrdSet::from_vec(b_items);
            assert_eq!(
                a.union(&b).to_vec(),
                a_ref.union(&b_ref).copied().collect::<Vec<u64>>()
            );
            assert_eq!(
                a.intersection(&b).to_vec(),
                a_ref.intersection(&b_ref).copied().collect::<Vec<u64>>()
            );
            assert_eq!(
                a.difference(&b).to_vec(),
                a_ref.difference(&b_ref).copied().collect::<Vec<u64>>()
            );
        }
    }
}

#[test]
fn empty_set_identities() {
    let a = OrdSet::from_vec(&vec![1u64, 5, 9]);
    let empty = OrdSet::new();
    assert_eq!(a.union(&empty).to_vec(), a.to_vec());
    assert_eq!(empty.union(&a).to_vec(), a.to_vec());
    assert_eq!(a.intersection(&empty).to_vec(), Vec::<u64>::new());
    assert_eq!(empty.intersection(&a).to_vec(), Vec::<u64>::new());
    assert_eq!(a.difference(&empty).to_vec(), a.to_vec());
    assert_eq!(empty.difference(&a).to_vec(), Vec::<u64>::new());
}

#[test]
fn lexicographic_order_of_sets() {
    let empty = OrdSet::new();
    let a = OrdSet::from_vec(&vec![1u64, 2]);
    let b = OrdSet::from_vec(&vec![1u64, 2, 5]);
    let c = OrdSet::from_vec(&vec![2u64]);
    assert_eq!(empty.cmp_lex(&a), Ordering::Less);
    assert_eq!(a.cmp_lex(&empty), Ordering::Greater);
    assert_eq!(a.cmp_lex(&b), Ordering::Less);
    assert_eq!(b.cmp_lex(&a), Ordering::Greater);
    assert_eq!(a.cmp_lex(&c), Ordering::Less);
    assert_eq!(c.cmp_lex(&a), Ordering::Greater);
    assert_eq!(a.cmp_lex(&a.clone()), Ordering::Equal);
    assert_eq!(empty.cmp_lex(&OrdSet::new()), Ordering::Equal);
}

// Equality depends only on the elements, not on the insertion order that
// shaped the trees.
#[test]
fn equality_ignores_tree_shape() {
    let mut a = OrdSet::new();
    for k in [1u64, 2, 3, 4, 5, 6, 7, 8] {
        a.insert(k);
    }
    let mut b = OrdSet::new();
    for k in [8u64, 4, 2, 6, 1, 5, 7, 3, 4, 8] {
        b.insert(k);
    }
    assert!(a.equals(&b));
    assert!(b.equals(&a));
    b.remove(4);
    assert!(!a.equals(&b));
    b.insert(9);
    assert!(!a.equals(&b));
}

#[test]
fn set_clone_shares_until_mutation() {
    let mut s = OrdSet::from_vec(&(0..30u64).collect());
    assert_eq!(s.holders(), 1);
    let mut c = s.clone();
    assert_eq!(s.holders(), 2);
    c.insert(99);
    c.remove(0);
    assert_eq!(s.holders(), 1);
    assert_eq!(s.len(), 30);
    assert!(s.contains(0));
    assert!(!s.contains(99));
    assert_eq!(c.len(), 30);
    assert!(!c.contains(0));
    assert!(c.contains(99));
    s.remove(5);
    assert!(c.contains(5));
}
