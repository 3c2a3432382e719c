use minheap::heap::BinaryHeap;

#[test]
fn engine_starts_empty() {
    let h = BinaryHeap::new();
    assert_eq!(h.size(), 0);
    assert_eq!(h.peek(), None);
}

#[test]
fn engine_pop_empty_returns_none() {
    let mut h = BinaryHeap::new();
    assert_eq!(h.pop(), None);
    assert_eq!(h.size(), 0);
}

#[test]
fn engine_single_element() {
    let mut h = BinaryHeap::new();
    h.push(42);
    assert_eq!(h.size(), 1);
    assert_eq!(h.peek(), Some(42));
    assert_eq!(h.pop(), Some(42));
    assert_eq!(h.size(), 0);
    assert_eq!(h.pop(), None);
}

#[test]
fn engine_extraction_is_sorted() {
    let mut h = BinaryHeap::new();
    let scores: [i64; 9] = [12, -3, 7, 0, 7, -3, 100, 1, -50];
    for s in scores {
        h.push(s);
    }
    let mut out: Vec<i64> = Vec::new();
    while let Some(v) = h.pop() {
        out.push(v);
    }
    let mut expected: Vec<i64> = scores.to_vec();
    expected.sort();
    assert_eq!(out, expected);
}

#[test]
fn engine_peek_matches_pop() {
    let mut h = BinaryHeap::new();
    for s in [9, 4, 6, 4] {
        h.push(s);
    }
    while h.size() > 0 {
        let before = h.size();
        let seen = h.peek();
        let taken = h.pop();
        assert_eq!(seen, taken);
        assert_eq!(h.size(), before - 1);
    }
}

#[test]
fn engine_size_counts_pushes_and_pops() {
    let mut h = BinaryHeap::new();
    for s in 0..7 {
        h.push(s);
    }
    assert_eq!(h.size(), 7);
    for popped in 1..=3 {
        h.pop();
        assert_eq!(h.size(), 7 - popped);
    }
}

#[test]
fn engine_interleaved_operations() {
    let mut h = BinaryHeap::new();
    h.push(10);
    h.push(2);
    assert_eq!(h.pop(), Some(2));
    h.push(-1);
    h.push(5);
    assert_eq!(h.peek(), Some(-1));
    assert_eq!(h.pop(), Some(-1));
    assert_eq!(h.pop(), Some(5));
    assert_eq!(h.pop(), Some(10));
    assert_eq!(h.pop(), None);
}

#[test]
fn engine_equal_scores_all_come_out() {
    let mut h = BinaryHeap::new();
    for _ in 0..5 {
        h.push(3);
    }
    for _ in 0..5 {
        assert_eq!(h.pop(), Some(3));
    }
    assert_eq!(h.pop(), None);
}
