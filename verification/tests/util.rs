//! Bounded containers.
use tcp_sans_io::util::{BoundedQueue, BoundedVec};


#[test]
fn bounded_vec_basics() {
    let mut v: BoundedVec<u32, 3> = BoundedVec::new();
    assert!(v.is_empty());
    v.push(1).unwrap();
    v.push(3).unwrap();
    v.insert(1, 2).unwrap();
    assert_eq!(v.as_slice(), &[1, 2, 3]);
    assert!(v.is_full());
    assert_eq!(v.push(4), Err(4));
    assert_eq!(v.remove(0), Some(1));
    assert_eq!(v.as_slice(), &[2, 3]);
    v.retain(|&x| x != 3);
    assert_eq!(v.as_slice(), &[2]);
    v.clear();
    assert!(v.is_empty());
}

#[test]
fn bounded_queue_wraps() {
    let mut q: BoundedQueue<u8, 2> = BoundedQueue::new();
    q.push_back(1).unwrap();
    q.push_back(2).unwrap();
    assert_eq!(q.push_back(3), Err(3));
    assert_eq!(q.pop_front(), Some(1));
    q.push_back(3).unwrap();
    assert_eq!(q.pop_front(), Some(2));
    assert_eq!(q.pop_front(), Some(3));
    assert_eq!(q.pop_front(), None);
}
