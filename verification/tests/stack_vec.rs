use std::sync::atomic::{AtomicUsize, Ordering};
use std::sync::Arc;
use zhc::stack_vec::StackVec;

#[derive(Debug, Clone)]
struct DropTracker {
    id: usize,
    counter: Arc<AtomicUsize>,
}

impl DropTracker {
    fn new(id: usize, counter: Arc<AtomicUsize>) -> Self {
        counter.fetch_add(1, Ordering::Relaxed);
        DropTracker { id, counter }
    }
}

impl Drop for DropTracker {
    fn drop(&mut self) {
        self.counter.fetch_sub(1, Ordering::Relaxed);
    }
}

#[test]
fn test_basic_operations() {
    let mut vec = StackVec::new();
    assert_eq!(vec.len(), 0);
    assert!(vec.may_push());

    vec.push(42u32);
    assert_eq!(vec.len(), 1);
    assert_eq!(vec[0], 42);

    vec.push(84);
    assert_eq!(vec.len(), 2);
    assert_eq!(vec.as_slice(), &[42, 84]);
}

#[test]
fn test_capacity_different_sizes() {
    let small_vec: StackVec<u8> = StackVec::new();
    assert_eq!(small_vec.capacity(), 64);

    let medium_vec: StackVec<u32> = StackVec::new();
    assert_eq!(medium_vec.capacity(), 16);

    let large_vec: StackVec<u64> = StackVec::new();
    assert_eq!(large_vec.capacity(), 8);
}

#[test]
fn test_ownership_and_drops() {
    let counter = Arc::new(AtomicUsize::new(0));

    {
        let mut vec = StackVec::new();
        vec.push(DropTracker::new(1, counter.clone()));
        vec.push(DropTracker::new(2, counter.clone()));
        assert_eq!(counter.load(Ordering::Relaxed), 2);
    }

    assert_eq!(counter.load(Ordering::Relaxed), 0);
}

#[test]
fn test_into_iter_ownership() {
    let counter = Arc::new(AtomicUsize::new(0));

    {
        let mut vec = StackVec::new();
        vec.push(DropTracker::new(1, counter.clone()));
        vec.push(DropTracker::new(2, counter.clone()));
        assert_eq!(counter.load(Ordering::Relaxed), 2);

        let mut iter = vec.into_iter();
        let first = iter.next().unwrap();
        assert_eq!(first.id, 1);
        assert_eq!(counter.load(Ordering::Relaxed), 2);

        drop(first);
        assert_eq!(counter.load(Ordering::Relaxed), 1);
    }

    assert_eq!(counter.load(Ordering::Relaxed), 0);
}

#[test]
fn test_into_iter_partial_consumption() {
    let counter = Arc::new(AtomicUsize::new(0));

    {
        let mut vec = StackVec::new();
        for i in 0..4 {
            vec.push(DropTracker::new(i, counter.clone()));
        }
        assert_eq!(counter.load(Ordering::Relaxed), 4);

        let mut iter = vec.into_iter();
        let _ = iter.next();
        let _ = iter.next();
    }

    assert_eq!(counter.load(Ordering::Relaxed), 0);
}

#[test]
fn test_append_ownership() {
    let counter = Arc::new(AtomicUsize::new(0));

    let mut vec1 = StackVec::new();
    let mut vec2 = StackVec::new();

    vec1.push(DropTracker::new(1, counter.clone()));
    vec2.push(DropTracker::new(2, counter.clone()));
    vec2.push(DropTracker::new(3, counter.clone()));

    assert_eq!(counter.load(Ordering::Relaxed), 3);
    assert_eq!(vec2.len(), 2);

    vec1.append(&mut vec2);

    assert_eq!(vec1.len(), 3);
    assert_eq!(vec2.len(), 0);
    assert_eq!(counter.load(Ordering::Relaxed), 3);

    drop(vec1);
    drop(vec2);
    assert_eq!(counter.load(Ordering::Relaxed), 0);
}

#[test]
fn test_drain_to_vec() {
    let counter: Arc<AtomicUsize> = Arc::new(AtomicUsize::new(0));

    let mut stack_vec = StackVec::new();
    stack_vec.push(DropTracker::new(1, counter.clone()));
    stack_vec.push(DropTracker::new(2, counter.clone()));

    let mut heap_vec = Vec::new();
    stack_vec.drain_to_vec(&mut heap_vec);

    assert_eq!(stack_vec.len(), 0);
    assert_eq!(heap_vec.len(), 2);
    assert_eq!(counter.load(Ordering::Relaxed), 2);

    drop(heap_vec);
    assert_eq!(counter.load(Ordering::Relaxed), 0);
}

#[test]
fn stack_vec_test_clone() {
    let mut vec = StackVec::new();
    vec.push(42u32);
    vec.push(84);

    let cloned = vec.clone();
    assert_eq!(vec.as_slice(), cloned.as_slice());

    vec.as_mut_slice()[0] = 999;
    assert_ne!(vec[0], cloned[0]);
}

#[test]
fn test_iterators() {
    let mut vec = StackVec::new();
    vec.push(1u32);
    vec.push(2);
    vec.push(3);

    let collected: Vec<_> = vec.iter().copied().collect();
    assert_eq!(collected, vec![1, 2, 3]);

    for item in vec.iter_mut() {
        *item *= 2;
    }
    assert_eq!(vec.as_slice(), &[2, 4, 6]);

    let mut into_collected: Vec<u32> = Vec::new();
    let mut it = vec.into_iter();
    while let Some(x) = it.next() {
        into_collected.push(x);
    }
    assert_eq!(into_collected, vec![2, 4, 6]);
}

#[test]
fn test_from_iterator() {
    let vec: StackVec<u32> = StackVec::from_iter((1..=5).collect());
    assert_eq!(vec.len(), 5);
    assert_eq!(vec.as_slice(), &[1, 2, 3, 4, 5]);
}

#[test]
fn test_extend() {
    let mut vec = StackVec::new();
    vec.push(1u32);
    vec.extend(vec![2, 3, 4]);
    assert_eq!(vec.as_slice(), &[1, 2, 3, 4]);
}

#[test]
fn test_debug_format() {
    let mut vec = StackVec::new();
    vec.push(1u32);
    vec.push(2);
    let debug_str = format!("{:?}", vec.as_slice());
    assert_eq!(debug_str, "[1, 2]");
}

#[test]
fn test_partial_eq() {
    let mut vec1 = StackVec::new();
    let mut vec2 = StackVec::new();

    vec1.push(1u32);
    vec1.push(2);
    vec2.push(1u32);
    vec2.push(2);

    assert_eq!(vec1, vec2);

    vec2.push(3);
    assert_ne!(vec1, vec2);
}

#[test]
fn test_size_hint_iterator() {
    let mut vec = StackVec::new();
    vec.push(1u32);
    vec.push(2);
    vec.push(3);

    let iter = vec.into_iter();
    assert_eq!(iter.size_hint(), (3, Some(3)));
}

#[test]
fn may_push_and_may_append_at_the_limit() {
    let mut vec: StackVec<u64> = StackVec::new();
    assert_eq!(StackVec::<u64>::static_capacity(), 8);
    for i in 0..7u64 {
        vec.push(i);
    }
    assert!(vec.may_push());
    assert!(vec.may_append(1));
    assert!(!vec.may_append(2));
    vec.push(7);
    assert!(!vec.may_push());
    assert!(vec.may_append(0));
    assert_eq!(vec.into_vec(), vec![0, 1, 2, 3, 4, 5, 6, 7]);
}

#[test]
fn size_hint_shrinks_as_items_leave() {
    let vec: StackVec<u16> = StackVec::from_iter(vec![5, 6, 7]);
    let mut it = vec.into_iter();
    assert_eq!(it.next(), Some(5));
    assert_eq!(it.size_hint(), (2, Some(2)));
    assert_eq!(it.next(), Some(6));
    assert_eq!(it.next(), Some(7));
    assert_eq!(it.next(), None);
    assert_eq!(it.size_hint(), (0, Some(0)));
}
