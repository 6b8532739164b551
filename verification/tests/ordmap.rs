use std::collections::BTreeMap;

use sp_im::OrdMap;

#[test]
fn empty_map() {
    let m: OrdMap<u64> = OrdMap::new();
    assert_eq!(m.len(), 0);
    assert!(m.is_empty());
    assert_eq!(m.get(5), None);
    assert_eq!(m.keys(), Vec::<u64>::new());
}

#[test]
fn insert_lookup_replace_remove() {
    let mut m: OrdMap<u64> = OrdMap::new();
    m.insert(5, 50);
    m.insert(3, 30);
    m.insert(8, 80);
    assert_eq!(m.len(), 3);
    assert_eq!(m.get(3), Some(30));
    assert_eq!(m.get(5), Some(50));
    assert_eq!(m.get(8), Some(80));
    assert_eq!(m.get(4), None);
    m.insert(5, 55);
    assert_eq!(m.len(), 3);
    assert_eq!(m.get(5), Some(55));
    assert_eq!(m.remove(3), Some(30));
    assert_eq!(m.len(), 2);
    assert_eq!(m.remove(3), None);
    assert_eq!(m.len(), 2);
    assert_eq!(m.keys(), vec![5, 8]);
    assert_eq!(m.to_vec(), vec![(5, 55), (8, 80)]);
}

// Arbitrary insert/remove runs tracked against a reference sorted-map model:
// the in-order key sequence and the distinct-key count agree at every step.
#[test]
fn insert_remove_match_reference_model() {
    let mut m: OrdMap<u64> = OrdMap::new();
    let mut model: BTreeMap<u64, u64> = BTreeMap::new();
    let mut x: u64 = 9;
    for step in 0u64..300 {
        x = x.wrapping_mul(6364136223846793005).wrapping_add(1442695040888963407);
        let key = x % 40;
        if step % 3 == 2 {
            assert_eq!(m.remove(key), model.remove(&key));
        } else {
            m.insert(key, step);
            model.insert(key, step);
        }
        assert_eq!(m.len(), model.len());
        assert_eq!(m.keys(), model.keys().copied().collect::<Vec<u64>>());
        assert_eq!(
            m.to_vec(),
            model.iter().map(|(k, v)| (*k, *v)).collect::<Vec<(u64, u64)>>()
        );
        for probe in 0..40u64 {
            assert_eq!(m.get(probe), model.get(&probe).copied());
        }
    }
}

#[test]
fn from_vec_last_pair_wins() {
    let m = OrdMap::from_vec(&vec![(5u64, 1u64), (3, 2), (5, 7), (9, 4)]);
    assert_eq!(m.len(), 3);
    assert_eq!(m.to_vec(), vec![(3, 2), (5, 7), (9, 4)]);
    let e: OrdMap<u64> = OrdMap::from_vec(&Vec::new());
    assert_eq!(e.len(), 0);
}

#[test]
fn range_returns_window_in_order() {
    let m = OrdMap::from_vec(&vec![(1u64, 10u64), (3, 30), (5, 50), (7, 70), (9, 90)]);
    assert_eq!(m.range(3, 8), vec![(3, 30), (5, 50), (7, 70)]);
    assert_eq!(m.range(0, 100), m.to_vec());
    assert_eq!(m.range(1, 2), vec![(1, 10)]);
    assert_eq!(m.range(4, 5), Vec::new());
    assert_eq!(m.range(9, 9), Vec::new());
    assert_eq!(m.range(8, 2), Vec::new());
}

#[test]
fn range_rev_descends() {
    let m = OrdMap::from_vec(&vec![(1u64, 10u64), (3, 30), (5, 50), (7, 70), (9, 90)]);
    assert_eq!(m.range_rev(3, 8), vec![(7, 70), (5, 50), (3, 30)]);
    assert_eq!(m.range_rev(4, 4), Vec::new());
}

#[test]
fn keys_come_out_sorted() {
    let mut m: OrdMap<u64> = OrdMap::new();
    for key in [9u64, 1, 7, 3, 5, 3, 9, 0] {
        m.insert(key, key * 10);
    }
    assert_eq!(m.keys(), vec![0, 1, 3, 5, 7, 9]);
}

#[test]
fn map_clone_shares_until_mutation() {
    let mut m: OrdMap<u64> = OrdMap::new();
    for key in 0..50u64 {
        m.insert(key, key);
    }
    assert_eq!(m.holders(), 1);
    let mut c = m.clone();
    assert_eq!(m.holders(), 2);
    c.insert(100, 1);
    c.remove(0);
    assert_eq!(m.holders(), 1);
    assert_eq!(m.len(), 50);
    assert_eq!(m.get(0), Some(0));
    assert_eq!(m.get(100), None);
    assert_eq!(c.len(), 50);
    assert_eq!(c.get(0), None);
    assert_eq!(c.get(100), Some(1));
}
