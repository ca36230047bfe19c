use flex_algo::dijkstra::DistanceComparator;
use flex_algo::priority_queue::MaxComparator;
use flex_algo::priority_queue::MinComparator;
use flex_algo::PriorityQueue;

#[test]
fn test_priority_queue_function() {
    let compare = MaxComparator;
    let mut pq: PriorityQueue<usize> = PriorityQueue::new();
    assert_eq!(pq.size(), 0);
    assert_eq!(pq._parent(1), 0);
    assert_eq!(pq._parent(2), 0);
    assert_eq!(pq._parent(3), 1);
    assert_eq!(pq._left_child(1), 3);
    assert_eq!(pq._right_child(1), 4);

    pq.push(&compare, 14);
    pq.push(&compare, 12);
    pq.push(&compare, 5);
    pq.push(&compare, 7);
    pq.push(&compare, 8);
    pq.push(&compare, 3);

    assert_eq!(pq.peek().unwrap(), &14);
    assert_eq!(pq.pop(&compare).unwrap(), 14);
}

#[test]
fn test_priority_queue_closure() {
    let distances = vec![1, 6, 14, 2, 7];
    let compare = DistanceComparator::new(distances);
    let mut pq: PriorityQueue<usize> = PriorityQueue::new();
    assert_eq!(pq.is_empty(), true);
    pq.push(&compare, 0);
    pq.push(&compare, 1);
    pq.push(&compare, 2);
    pq.push(&compare, 3);
    pq.push(&compare, 4);
    let value = pq.pop(&compare).unwrap();
    assert_eq!(value, 0);
}

#[test]
fn test_empty_queue_behavior() {
    let compare = MinComparator;
    let mut pq: PriorityQueue<usize> = PriorityQueue::new();
    assert!(pq.is_empty());
    assert_eq!(pq.size(), 0);
    assert!(pq.peek().is_none());
    assert!(pq.pop(&compare).is_none());
}

#[test]
fn test_peek_is_idempotent() {
    let compare = MinComparator;
    let mut pq: PriorityQueue<usize> = PriorityQueue::new();
    pq.push(&compare, 9);
    pq.push(&compare, 4);
    pq.push(&compare, 11);
    let first = *pq.peek().unwrap();
    let second = *pq.peek().unwrap();
    assert_eq!(first, second);
    assert_eq!(pq.size(), 3);
}

#[test]
fn test_pop_order_is_sorted() {
    let compare = MinComparator;
    let mut pq: PriorityQueue<usize> = PriorityQueue::new();
    for value in [31usize, 7, 19, 2, 2, 23, 5, 13, 41, 3] {
        pq.push(&compare, value);
    }
    let mut popped: Vec<usize> = Vec::new();
    while let Some(value) = pq.pop(&compare) {
        popped.push(value);
    }
    assert_eq!(popped, vec![2, 2, 3, 5, 7, 13, 19, 23, 31, 41]);
}

#[test]
fn test_push_reports_size() {
    let compare = MaxComparator;
    let mut pq: PriorityQueue<usize> = PriorityQueue::new();
    pq.push(&compare, 14);
    pq.push(&compare, 10);
    let len = pq.push(&compare, 12);
    assert_eq!(len, 3);
}
