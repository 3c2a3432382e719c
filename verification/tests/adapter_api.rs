use minheap::adapter::HeapHandle;
use minheap::adapter::SENTINEL;

#[test]
fn scenario_five_three_eight_one() {
    let mut h = HeapHandle::new();
    h.init();
    h.push(5);
    h.push(3);
    h.push(8);
    h.push(1);
    assert_eq!(h.size(), 4);
    assert_eq!(h.peek(), 1);
    assert_eq!(h.pop(), 1);
    assert_eq!(h.size(), 3);
    assert_eq!(h.pop(), 3);
    assert_eq!(h.size(), 2);
    assert_eq!(h.pop(), 5);
    assert_eq!(h.size(), 1);
    assert_eq!(h.pop(), 8);
    assert_eq!(h.size(), 0);
    assert_eq!(h.pop(), SENTINEL);
}

#[test]
fn never_inited_defaults() {
    let mut h = HeapHandle::new();
    assert_eq!(h.size(), 0);
    assert_eq!(h.peek(), SENTINEL);
    assert_eq!(h.pop(), SENTINEL);
    // A push before `init` is absorbed silently.
    h.push(7);
    assert_eq!(h.size(), 0);
    assert_eq!(h.pop(), SENTINEL);
}

#[test]
fn freshly_inited_defaults() {
    let mut h = HeapHandle::new();
    h.init();
    assert_eq!(h.size(), 0);
    assert_eq!(h.peek(), SENTINEL);
    assert_eq!(h.pop(), SENTINEL);
}

#[test]
fn reinit_discards_state() {
    let mut h = HeapHandle::new();
    h.init();
    h.push(2);
    h.push(2);
    assert_eq!(h.size(), 2);
    h.init();
    assert_eq!(h.size(), 0);
    assert_eq!(h.pop(), SENTINEL);
}

#[test]
fn peek_then_pop_agree() {
    let mut h = HeapHandle::new();
    h.init();
    for s in [4, -9, 0, 4, 31] {
        h.push(s);
    }
    while h.size() > 0 {
        let before = h.size();
        let seen = h.peek();
        assert_eq!(h.pop(), seen);
        assert_eq!(h.size(), before - 1);
    }
}

#[test]
fn size_tracks_pushes_and_pops() {
    let mut h = HeapHandle::new();
    h.init();
    for s in 0..10 {
        h.push(s * 11 % 7);
    }
    assert_eq!(h.size(), 10);
    for popped in 1..=4 {
        h.pop();
        assert_eq!(h.size(), 10 - popped);
    }
}

#[test]
fn extraction_is_non_decreasing() {
    let mut h = HeapHandle::new();
    h.init();
    for s in [14, 3, 3, -2, 99, 0, 14, 8] {
        h.push(s);
    }
    let mut prev = i64::MIN;
    while h.size() > 0 {
        let v = h.pop();
        assert!(prev <= v);
        prev = v;
    }
}

#[test]
fn sentinel_score_is_ambiguous() {
    // Pushing the sentinel's own score is legal; popping it looks exactly
    // like popping from an empty heap, an accepted ambiguity of the boundary.
    let mut h = HeapHandle::new();
    h.init();
    h.push(-1);
    assert_eq!(h.size(), 1);
    assert_eq!(h.pop(), SENTINEL);
    assert_eq!(h.size(), 0);
    assert_eq!(h.pop(), SENTINEL);
}
