use sp_im::CHUNK_SIZE;
use sp_im::Chunk;
use sp_im::Error;

#[test]
fn fills_to_capacity_then_reports_capacity() {
    let mut c: Chunk<u64> = Chunk::new();
    for i in 0..CHUNK_SIZE as u64 {
        assert_eq!(c.push_back(i), Ok(()));
    }
    assert_eq!(c.len(), CHUNK_SIZE);
    assert_eq!(c.push_back(0), Err(Error::Capacity));
    assert_eq!(c.push_front(0), Err(Error::Capacity));
    assert_eq!(c.insert(3, 0), Err(Error::Capacity));
    assert_eq!(c.len(), CHUNK_SIZE);
}

#[test]
fn insert_and_remove_shift_in_order() {
    let mut c: Chunk<u64> = Chunk::new();
    c.push_back(1).unwrap();
    c.push_back(3).unwrap();
    c.insert(1, 2).unwrap();
    c.push_front(0).unwrap();
    assert_eq!(c.len(), 4);
    for i in 0..4u64 {
        assert_eq!(*c.get(i as usize), i);
    }
    assert_eq!(c.remove(1), 1);
    assert_eq!(c.len(), 3);
    assert_eq!(*c.get(0), 0);
    assert_eq!(*c.get(1), 2);
    assert_eq!(*c.get(2), 3);
}

#[test]
fn split_halves_sum_to_whole() {
    let mut c: Chunk<u64> = Chunk::new();
    for i in 0..10u64 {
        c.push_back(i).unwrap();
    }
    let (a, b) = c.split_at(4);
    assert_eq!(a.len() + b.len(), 10);
    assert_eq!(*a.get(0), 0);
    assert_eq!(*a.get(3), 3);
    assert_eq!(*b.get(0), 4);
    assert_eq!(*b.get(5), 9);
}

#[test]
fn append_joins_or_reports_capacity() {
    let mut a: Chunk<u64> = Chunk::new();
    let mut b: Chunk<u64> = Chunk::new();
    for i in 0..40u64 {
        a.push_back(i).unwrap();
        b.push_back(100 + i).unwrap();
    }
    // combined 80 > CHUNK_SIZE: refused, both unchanged
    assert_eq!(a.append(&b), Err(Error::Capacity));
    assert_eq!(a.len(), 40);
    let (small, _) = b.split_at(10);
    assert_eq!(a.append(&small), Ok(()));
    assert_eq!(a.len(), 50);
    assert_eq!(*a.get(40), 100);
    assert_eq!(*a.get(49), 109);
}
