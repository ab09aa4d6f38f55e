use std::sync::atomic::{AtomicUsize, Ordering};
use std::sync::Arc;
use zhc::small_vec::SmallVec;

#[derive(Debug, Clone)]
struct DropTracker {
    id: usize,
    counter: Arc<AtomicUsize>,
}

impl DropTracker {
    fn new(id: usize, counter: Arc<AtomicUsize>) -> Self {
        counter.fetch_add(1, Ordering::Relaxed);
        DropTracker { id, counter }
    }
}

impl Drop for DropTracker {
    fn drop(&mut self) {
        self.counter.fetch_sub(1, Ordering::Relaxed);
    }
}

/// Collects an iterator into a `SmallVec`, handing over the upper bound of its size hint.
fn collect<T, I: Iterator<Item = T>>(it: I) -> SmallVec<T> {
    let upper = it.size_hint().1;
    SmallVec::from_iter(it.collect(), upper)
}

/// Extends a `SmallVec` with an iterator, handing over the upper bound of its size hint.
fn extend<T, I: Iterator<Item = T>>(v: &mut SmallVec<T>, it: I) {
    let upper = it.size_hint().1;
    v.extend(it.collect(), upper);
}

/// Collects what the consuming iterator of `v` hands out.
fn drain<T>(v: SmallVec<T>) -> Vec<T> {
    let mut it = v.into_iter();
    let mut out = Vec::new();
    while let Some(x) = it.next() {
        out.push(x);
    }
    out
}

#[test]
fn test_empty_creation() {
    let vec: SmallVec<u32> = collect(std::iter::empty());
    assert!(matches!(vec, SmallVec::Stack(_)));
    assert_eq!(vec.len(), 0);
    assert_eq!(vec.as_slice(), &[]);
}

#[test]
fn test_small_creation_stays_stack() {
    let vec: SmallVec<u32> = collect(1..=5);
    assert!(matches!(vec, SmallVec::Stack(_)));
    assert_eq!(vec.len(), 5);
    assert_eq!(vec.as_slice(), &[1, 2, 3, 4, 5]);
}

#[test]
fn test_large_creation_uses_heap() {
    let large_iter = 1..=100;
    let vec: SmallVec<u32> = collect(large_iter);
    assert!(matches!(vec, SmallVec::Heap(_)));
    assert_eq!(vec.len(), 100);
}

#[test]
fn test_push_stack_to_heap_transition() {
    let mut vec: SmallVec<u64> = collect(std::iter::empty());
    assert!(matches!(vec, SmallVec::Stack(_)));

    // Fill to capacity (8 u64s in 64 bytes)
    for i in 0..8 {
        vec.push(i);
        assert!(matches!(vec, SmallVec::Stack(_)));
    }
    assert_eq!(vec.len(), 8);

    // This push moves the elements to the heap
    vec.push(8);
    assert!(matches!(vec, SmallVec::Heap(_)));
    assert_eq!(vec.len(), 9);
    assert_eq!(vec.as_slice(), &[0, 1, 2, 3, 4, 5, 6, 7, 8]);
}

#[test]
fn test_push_preserves_data_across_transition() {
    let counter = Arc::new(AtomicUsize::new(0));
    let mut vec: SmallVec<DropTracker> = collect(std::iter::empty());

    for i in 0..4 {
        vec.push(DropTracker::new(i, counter.clone()));
    }
    assert_eq!(counter.load(Ordering::Relaxed), 4);
    assert!(matches!(vec, SmallVec::Stack(_)));

    vec.push(DropTracker::new(4, counter.clone()));
    assert_eq!(counter.load(Ordering::Relaxed), 5);
    assert!(matches!(vec, SmallVec::Heap(_)));

    for (i, item) in vec.iter().enumerate() {
        assert_eq!(item.id, i);
    }

    drop(vec);
    assert_eq!(counter.load(Ordering::Relaxed), 0);
}

#[test]
fn test_append_stack_stack_fits() {
    let mut vec1: SmallVec<u32> = collect(1..=3);
    let mut vec2: SmallVec<u32> = collect(4..=6);

    assert!(matches!(vec1, SmallVec::Stack(_)));
    assert!(matches!(vec2, SmallVec::Stack(_)));

    vec1.append(&mut vec2);

    assert!(matches!(vec1, SmallVec::Stack(_)));
    assert_eq!(vec1.len(), 6);
    assert_eq!(vec2.len(), 0);
    assert_eq!(vec1.as_slice(), &[1, 2, 3, 4, 5, 6]);
}

#[test]
fn test_append_stack_stack_overflow() {
    let mut vec1: SmallVec<u64> = collect(0..5);
    let mut vec2: SmallVec<u64> = collect(5..10);

    assert!(matches!(vec1, SmallVec::Stack(_)));
    assert!(matches!(vec2, SmallVec::Stack(_)));

    vec1.append(&mut vec2);

    assert!(matches!(vec1, SmallVec::Heap(_)));
    assert_eq!(vec1.len(), 10);
    assert_eq!(vec2.len(), 0);
    assert_eq!(vec1.as_slice(), &[0, 1, 2, 3, 4, 5, 6, 7, 8, 9]);
}

#[test]
fn test_append_heap_stack() {
    let mut vec1: SmallVec<u32> = collect(1..=100);
    let mut vec2: SmallVec<u32> = collect(101..=105);

    assert!(matches!(vec1, SmallVec::Heap(_)));
    assert!(matches!(vec2, SmallVec::Stack(_)));

    let original_len = vec1.len();
    vec1.append(&mut vec2);

    assert!(matches!(vec1, SmallVec::Heap(_)));
    assert_eq!(vec1.len(), original_len + 5);
    assert_eq!(vec2.len(), 0);
}

#[test]
fn test_append_stack_heap() {
    let mut vec1: SmallVec<u32> = collect(1..=5);
    let mut vec2: SmallVec<u32> = collect(6..=100);

    assert!(matches!(vec1, SmallVec::Stack(_)));
    assert!(matches!(vec2, SmallVec::Heap(_)));

    vec1.append(&mut vec2);

    assert!(matches!(vec1, SmallVec::Heap(_)));
    assert_eq!(vec1.len(), 100);
    assert_eq!(vec2.len(), 0);
}

#[test]
fn test_append_heap_heap() {
    let mut vec1: SmallVec<u32> = collect(1..=50);
    let mut vec2: SmallVec<u32> = collect(51..=100);

    assert!(matches!(vec1, SmallVec::Heap(_)));
    assert!(matches!(vec2, SmallVec::Heap(_)));

    vec1.append(&mut vec2);

    assert!(matches!(vec1, SmallVec::Heap(_)));
    assert_eq!(vec1.len(), 100);
    assert_eq!(vec2.len(), 0);
}

#[test]
fn test_extend_within_stack_capacity() {
    let mut vec: SmallVec<u32> = collect(1..=3);
    assert!(matches!(vec, SmallVec::Stack(_)));

    extend(&mut vec, 4..=6);
    assert!(matches!(vec, SmallVec::Stack(_)));
    assert_eq!(vec.as_slice(), &[1, 2, 3, 4, 5, 6]);
}

#[test]
fn test_extend_forces_heap_transition() {
    let mut vec: SmallVec<u64> = collect(0..5);
    assert!(matches!(vec, SmallVec::Stack(_)));

    extend(&mut vec, 5..15);
    assert!(matches!(vec, SmallVec::Heap(_)));
    assert_eq!(vec.len(), 15);
}

#[test]
fn test_extend_unknown_size_hint() {
    let mut vec: SmallVec<u32> = collect(1..=3);
    assert!(matches!(vec, SmallVec::Stack(_)));

    // Iterator with no upper bound in its size hint
    let iter = (4..).take_while(|a| *a <= 13);
    extend(&mut vec, iter);

    // Moves to the heap, as the size is not known
    assert!(matches!(vec, SmallVec::Heap(_)));
    assert_eq!(vec.len(), 13);
}

#[test]
fn test_indexing() {
    let vec: SmallVec<u32> = collect(10..15);

    assert_eq!(vec[0], 10);
    assert_eq!(vec[4], 14);
}

#[test]
fn test_mutable_indexing() {
    let mut vec: SmallVec<u32> = collect(1..=5);

    vec.as_mut_slice()[2] = 99;
    assert_eq!(vec[2], 99);
    assert_eq!(vec.as_slice(), &[1, 2, 99, 4, 5]);
}

#[test]
fn test_iterators_stack() {
    let vec: SmallVec<u32> = collect(1..=5);
    assert!(matches!(vec, SmallVec::Stack(_)));

    let collected: Vec<_> = vec.iter().copied().collect();
    assert_eq!(collected, vec![1, 2, 3, 4, 5]);
}

#[test]
fn test_iterators_heap() {
    let vec: SmallVec<u32> = collect(1..=100);
    assert!(matches!(vec, SmallVec::Heap(_)));

    let sum: u32 = vec.iter().sum();
    assert_eq!(sum, 5050); // sum of 1..=100
}

#[test]
fn test_mutable_iterator() {
    let mut vec: SmallVec<u32> = collect(1..=5);

    for item in vec.iter_mut() {
        *item *= 2;
    }

    assert_eq!(vec.as_slice(), &[2, 4, 6, 8, 10]);
}

#[test]
fn test_into_iter_stack() {
    let counter = Arc::new(AtomicUsize::new(0));
    let vec: SmallVec<DropTracker> =
        collect((0..3).map(|i| DropTracker::new(i, counter.clone())));
    assert_eq!(counter.load(Ordering::Relaxed), 3);

    let collected: Vec<_> = drain(vec);
    assert_eq!(collected.len(), 3);
    assert_eq!(counter.load(Ordering::Relaxed), 3);

    drop(collected);
    assert_eq!(counter.load(Ordering::Relaxed), 0);
}

#[test]
fn test_into_iter_heap() {
    let counter = Arc::new(AtomicUsize::new(0));
    let vec: SmallVec<DropTracker> =
        collect((0..50).map(|i| DropTracker::new(i, counter.clone())));
    assert_eq!(counter.load(Ordering::Relaxed), 50);
    assert!(matches!(vec, SmallVec::Heap(_)));

    let collected: Vec<_> = drain(vec);
    assert_eq!(collected.len(), 50);
    assert_eq!(counter.load(Ordering::Relaxed), 50);

    drop(collected);
    assert_eq!(counter.load(Ordering::Relaxed), 0);
}

#[test]
fn test_equality() {
    let vec1: SmallVec<u32> = collect(1..=5);
    let vec2: SmallVec<u32> = collect(1..=5);
    let vec3: SmallVec<u32> = collect(1..=100);
    let vec4: SmallVec<u32> = collect(2..=6);

    assert_eq!(vec1, vec2);
    assert_ne!(vec1, vec3);
    assert_ne!(vec1, vec4);

    // Equality across the two variants (stack vs heap with the same content)
    let small: SmallVec<u32> = collect(1..=5);
    let mut large = collect(1..=5);
    extend(&mut large, 6..20);
    large.as_mut_slice()[5..].fill(0);
    match &mut large {
        SmallVec::Heap(v) => v.truncate(5),
        _ => unreachable!(),
    }
    assert_eq!(small, large);
}

#[test]
fn small_vec_test_clone() {
    let original: SmallVec<u32> = collect(1..=10);
    let cloned = original.clone();

    assert_eq!(original, cloned);

    let mut mutable_clone = cloned.clone();
    mutable_clone.push(999);
    assert_ne!(original, mutable_clone);
}

#[test]
fn test_svec_macro_empty() {
    let vec: SmallVec<u32> = collect(std::iter::empty());
    assert_eq!(vec.len(), 0);
    assert!(matches!(vec, SmallVec::Stack(_)));
}

#[test]
fn test_svec_macro_repeat() {
    let vec: SmallVec<u32> = collect(std::iter::repeat(42).take(5));
    assert_eq!(vec.len(), 5);
    assert_eq!(vec.as_slice(), &[42, 42, 42, 42, 42]);
    assert!(matches!(vec, SmallVec::Stack(_)));
}

#[test]
fn test_svec_macro_list() {
    let vec: SmallVec<u32> = collect([1, 2, 3, 4, 5].into_iter());
    assert_eq!(vec.len(), 5);
    assert_eq!(vec.as_slice(), &[1, 2, 3, 4, 5]);
    assert!(matches!(vec, SmallVec::Stack(_)));
}

#[test]
fn test_svec_macro_large_repeat() {
    let vec: SmallVec<u32> = collect(std::iter::repeat(1).take(100));
    assert_eq!(vec.len(), 100);
    assert!(matches!(vec, SmallVec::Heap(_)));
    assert!(vec.iter().all(|&x| x == 1));
}

#[test]
fn push_keeps_order_and_variant_rule() {
    // A u8 vector holds 64 elements on the stack; the 65th moves it.
    let mut vec: SmallVec<u8> = collect(0..64u8);
    assert!(matches!(vec, SmallVec::Stack(_)));
    vec.push(64);
    assert!(matches!(vec, SmallVec::Heap(_)));
    let expected: Vec<u8> = (0..=64).collect();
    assert_eq!(vec.as_slice(), expected.as_slice());
}

#[test]
fn from_iter_with_loose_bound_uses_heap() {
    // The bound decides, not the number of items.
    let vec: SmallVec<u64> = SmallVec::from_iter(vec![1, 2], Some(9));
    assert!(matches!(vec, SmallVec::Heap(_)));
    let vec: SmallVec<u64> = SmallVec::from_iter(vec![1, 2], Some(8));
    assert!(matches!(vec, SmallVec::Stack(_)));
    let vec: SmallVec<u64> = SmallVec::from_iter(vec![1, 2], None);
    assert!(matches!(vec, SmallVec::Heap(_)));
}

#[test]
fn extend_with_exact_room_stays_on_stack() {
    let mut vec: SmallVec<u64> = collect(0..5);
    vec.extend(vec![5, 6, 7], Some(3));
    assert!(matches!(vec, SmallVec::Stack(_)));
    assert_eq!(vec.as_slice(), &[0, 1, 2, 3, 4, 5, 6, 7]);
}
