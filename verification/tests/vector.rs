use sp_im::Error;
use sp_im::Vector;

#[test]
fn empty_vector() {
    let v: Vector<u64> = Vector::new();
    assert_eq!(v.len(), 0);
    assert!(v.is_empty());
    assert_eq!(v.get(0), Err(Error::IndexOutOfBounds));
    assert_eq!(v.to_vec(), Vec::<u64>::new());
}

#[test]
fn push_pop_both_ends() {
    let mut v: Vector<u64> = Vector::new();
    v.push_back(2);
    v.push_back(3);
    v.push_front(1);
    assert_eq!(v.to_vec(), vec![1, 2, 3]);
    assert_eq!(v.pop_front(), Ok(1));
    assert_eq!(v.pop_back(), Ok(3));
    assert_eq!(v.pop_back(), Ok(2));
    assert_eq!(v.pop_back(), Err(Error::Empty));
    assert_eq!(v.pop_front(), Err(Error::Empty));
}

// Interleaved pushes, pops, inserts and removals at either end tracked
// against a plain array model: length equals the net count of successful
// insertions and every index agrees with the model.
#[test]
fn interleaved_ops_match_reference_model() {
    let mut v: Vector<u64> = Vector::new();
    let mut model: Vec<u64> = Vec::new();
    for step in 0u64..200 {
        match step % 7 {
            0 | 3 => {
                v.push_back(step);
                model.push(step);
            }
            1 => {
                v.push_front(step);
                model.insert(0, step);
            }
            2 => {
                let got = v.pop_back();
                let want = model.pop();
                assert_eq!(got.ok(), want);
            }
            4 => {
                let got = v.pop_front();
                if model.is_empty() {
                    assert_eq!(got, Err(Error::Empty));
                } else {
                    assert_eq!(got, Ok(model.remove(0)));
                }
            }
            5 => {
                let at = (step as usize * 13) % (model.len() + 1);
                assert_eq!(v.insert(at, step), Ok(()));
                model.insert(at, step);
            }
            _ => {
                if model.is_empty() {
                    assert_eq!(v.remove(0), Err(Error::IndexOutOfBounds));
                } else {
                    let at = (step as usize * 11) % model.len();
                    assert_eq!(v.remove(at), Ok(model.remove(at)));
                }
            }
        }
        assert_eq!(v.len(), model.len());
        for i in 0..model.len() {
            assert_eq!(v.get(i), Ok(model[i]));
        }
        assert_eq!(v.get(model.len()), Err(Error::IndexOutOfBounds));
    }
}

// Pushing more elements than one chunk holds exercises the multi-chunk spine.
#[test]
fn grows_past_chunk_capacity() {
    let mut v: Vector<u64> = Vector::new();
    for i in 0..300u64 {
        v.push_back(i);
    }
    assert_eq!(v.len(), 300);
    for i in 0..300u64 {
        assert_eq!(v.get(i as usize), Ok(i));
    }
}

#[test]
fn reverse_iteration_mirrors_forward() {
    let items: Vec<u64> = (0..130).map(|i| i * 7).collect();
    let v = Vector::from_vec(&items);
    let mut rev = items.clone();
    rev.reverse();
    assert_eq!(v.to_vec_rev(), rev);
    let e: Vector<u64> = Vector::new();
    assert_eq!(e.to_vec_rev(), Vec::<u64>::new());
}

#[test]
fn set_updates_single_slot() {
    let mut v = Vector::from_vec(&vec![10u64, 20, 30]);
    assert_eq!(v.set(1, 99), Ok(()));
    assert_eq!(v.to_vec(), vec![10, 99, 30]);
    assert_eq!(v.set(3, 7), Err(Error::IndexOutOfBounds));
    assert_eq!(v.to_vec(), vec![10, 99, 30]);
}

// Push 1..=100, split at 40, inspect both halves, and check that
// concatenating them reproduces the original run.
#[test]
fn hundred_split_concat_round_trip() {
    let mut v: Vector<u64> = Vector::new();
    for i in 1..=100u64 {
        v.push_back(i);
    }
    let (a, b) = v.split_at(40).unwrap();
    assert_eq!(a.len(), 40);
    assert_eq!(b.len(), 60);
    assert_eq!(a.to_vec(), (1..=40).collect::<Vec<u64>>());
    assert_eq!(b.to_vec(), (41..=100).collect::<Vec<u64>>());
    let joined = a.concat(&b);
    assert_eq!(joined.to_vec(), (1..=100).collect::<Vec<u64>>());
}

#[test]
fn split_at_every_index_then_concat_is_identity() {
    let items: Vec<u64> = (0..150).map(|i| i * 3 + 1).collect();
    let v = Vector::from_vec(&items);
    for i in 0..=items.len() {
        let (a, b) = v.split_at(i).unwrap();
        assert_eq!(a.len(), i);
        assert_eq!(b.len(), items.len() - i);
        assert_eq!(a.concat(&b).to_vec(), items);
    }
    assert!(v.split_at(items.len() + 1).is_err());
}

#[test]
fn concat_is_associative() {
    let a = Vector::from_vec(&vec![1u64, 2, 3]);
    let b = Vector::from_vec(&vec![4u64, 5]);
    let c = Vector::from_vec(&(6..80u64).collect::<Vec<u64>>());
    let left = a.concat(&b).concat(&c);
    let right = a.concat(&b.concat(&c));
    assert_eq!(left.to_vec(), right.to_vec());
    assert_eq!(left.len(), a.len() + b.len() + c.len());
}

// Cloning is O(1) (observed through the root holder count, not timing) and
// mutating the clone never changes anything observable through the original.
#[test]
fn vector_clone_shares_until_mutation() {
    let mut v: Vector<u64> = Vector::new();
    for i in 0..100u64 {
        v.push_back(i);
    }
    assert_eq!(v.holders(), 1);
    let mut w = v.clone();
    assert_eq!(v.holders(), 2);
    assert_eq!(w.holders(), 2);
    w.push_back(777);
    w.set(0, 555).unwrap();
    assert_eq!(v.holders(), 1);
    assert_eq!(v.len(), 100);
    assert_eq!(v.get(0), Ok(0));
    assert_eq!(v.get(99), Ok(99));
    assert_eq!(w.len(), 101);
    assert_eq!(w.get(0), Ok(555));
    assert_eq!(w.get(100), Ok(777));
}
