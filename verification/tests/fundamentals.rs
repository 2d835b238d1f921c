use itualgs_rs::fundamentals::bag::Bag;
use itualgs_rs::fundamentals::queue::Queue;
use itualgs_rs::fundamentals::quick_find::QuickFind;
use itualgs_rs::fundamentals::stack::Stack;
use itualgs_rs::fundamentals::uf::QuickFindUF;
use itualgs_rs::fundamentals::uf::QuickUnionUF;
use itualgs_rs::fundamentals::uf::WeightedQuickUnionUF;

#[test]
fn test_bag() {
    let list = vec!['f', 'e', 'r', 'r', 'i', 's'];
    let bag = Bag::new_from_vec(&list);

    let mut to_list = bag.to_list();
    to_list.reverse();
    assert_eq!(&to_list, &list);
}

#[test]
fn bag_iterator_is_newest_first() {
    let mut bag: Bag<u8> = Bag::new();
    assert!(bag.is_empty());
    bag.add(1);
    bag.add(2);
    bag.add(3);
    assert_eq!(bag.size(), 3);
    assert_eq!(bag.iterator(), vec![3, 2, 1]);
    let copy = bag.clone();
    assert_eq!(copy.to_list(), vec![3, 2, 1]);
}

#[test]
fn queue_test_push() {
    let mut queue: Queue<u8> = Queue::new();
    queue.enqueue(20);
    queue.enqueue(30);
    assert!(queue.size() != 0);
}

#[test]
fn queue_test_pop() {
    let mut queue: Queue<u8> = Queue::new();
    queue.enqueue(20);
    queue.enqueue(30);
    let popped_value = queue.dequeue();
    assert_eq!(popped_value, Some(20));
}

#[test]
fn queue_test_peek() {
    let mut queue: Queue<u8> = Queue::new();
    queue.enqueue(20);
    queue.enqueue(30);

    assert_eq!(queue.peek(), Some(&20));
}

#[test]
fn queue_test_size() {
    let mut queue: Queue<u8> = Queue::new();
    queue.enqueue(20);
    queue.enqueue(30);

    assert_eq!(queue.size(), 2);
}

#[test]
fn queue_test_is_empty() {
    let mut queue: Queue<u8> = Queue::new();
    assert_eq!(queue.is_empty(), true);

    queue.enqueue(20);

    assert_eq!(queue.is_empty(), false);
}

#[test]
fn stack_test_push() {
    let mut stack: Stack<u8> = Stack::new();
    stack.push(20);
    stack.push(30);
    assert!(stack.size() != 0);
}

#[test]
fn stack_test_pop() {
    let mut stack: Stack<u8> = Stack::new();
    stack.push(20);
    stack.push(30);
    let popped_value = stack.pop();
    assert_eq!(popped_value, Some(30));
}

#[test]
fn stack_test_peek() {
    let mut stack: Stack<u8> = Stack::new();
    stack.push(20);
    stack.push(30);

    assert_eq!(stack.peek(), Some(&30));
}

#[test]
fn stack_test_size() {
    let mut stack: Stack<u8> = Stack::new();
    stack.push(20);
    stack.push(30);

    assert_eq!(stack.size(), 2);
}

#[test]
fn stack_test_is_empty() {
    let mut stack: Stack<u8> = Stack::new();
    assert_eq!(stack.is_empty(), true);

    stack.push(20);

    assert_eq!(stack.is_empty(), false);
}

// Test from [https://algs4.cs.princeton.edu/15uf/tinyUF.txt]
#[test]
pub fn tiny_uf_sedgewick() {
    let mut qu = QuickFind::new(10);
    qu.union(4, 3);
    qu.union(3, 8);
    qu.union(6, 5);
    qu.union(9, 4);
    qu.union(2, 1);
    qu.union(8, 9);
    qu.union(5, 0);
    qu.union(7, 2);
    qu.union(6, 1);
    qu.union(1, 0);
    qu.union(6, 7);

    assert!(qu.connected(1, 6) == true);
    assert!(qu.connected(7, 2) == true);
    assert!(qu.connected(6, 6) == true);
}

#[test]
pub fn quick_find_dynamic_connectivity_test() {
    let mut our_qu = QuickFind::new(5);
    our_qu.union(0, 2);
    our_qu.union(2, 4);

    // Check for reflexivity
    assert!(our_qu.connected(0, 0) == true);

    // Check for symmetry
    assert!(our_qu.connected(0, 2) == true);
    assert!(our_qu.connected(2, 0) == true);

    // Check for transitivity
    assert!(our_qu.connected(0, 4) == true);
}

#[test]
pub fn tiny_uf_sedgewick_qf() {
    let mut qu = QuickFindUF::new(10);
    qu.union(4, 3);
    qu.union(3, 8);
    qu.union(6, 5);
    qu.union(9, 4);
    qu.union(2, 1);
    qu.union(8, 9);
    qu.union(5, 0);
    qu.union(7, 2);
    qu.union(6, 1);
    qu.union(1, 0);
    qu.union(6, 7);

    assert!(qu.connected(1, 6) == true);
    assert!(qu.connected(7, 2) == true);
    assert!(qu.connected(6, 6) == true);
}

#[test]
pub fn uf_dynamic_connectivity_test() {
    let mut our_qu = QuickFindUF::new(5);
    our_qu.union(0, 2);
    our_qu.union(2, 4);

    // Check for reflexivity
    assert!(our_qu.connected(0, 0) == true);

    // Check for symmetry
    assert!(our_qu.connected(0, 2) == true);
    assert!(our_qu.connected(2, 0) == true);

    // Check for transitivity
    assert!(our_qu.connected(0, 4) == true);
}

#[test]
pub fn tiny_uf_sedgewick_qu() {
    let mut qu = QuickUnionUF::new(10);
    qu.union(4, 3);
    qu.union(3, 8);
    qu.union(6, 5);
    qu.union(9, 4);
    qu.union(2, 1);
    qu.union(8, 9);
    qu.union(5, 0);
    qu.union(7, 2);
    qu.union(6, 1);
    qu.union(1, 0);
    qu.union(6, 7);

    assert!(qu.connected(1, 6) == true);
    assert!(qu.connected(7, 2) == true);
    assert!(qu.connected(6, 6) == true);
}

#[test]
pub fn tiny_uf_sedgewick_wqu() {
    let mut qu = WeightedQuickUnionUF::new(10);
    qu.union(4, 3);
    qu.union(3, 8);
    qu.union(6, 5);
    qu.union(9, 4);
    qu.union(2, 1);
    qu.union(8, 9);
    qu.union(5, 0);
    qu.union(7, 2);
    qu.union(6, 1);
    qu.union(1, 0);
    qu.union(6, 7);

    assert!(qu.connected(1, 6) == true);
    assert!(qu.connected(7, 2) == true);
    assert!(qu.connected(6, 6) == true);
}

#[test]
fn uf_fresh_forest_counts_and_reflexivity() {
    let uf = WeightedQuickUnionUF::new(7);
    assert_eq!(uf.count(), 7);
    for i in 0..7 {
        assert!(uf.connected(i, i));
    }
}

#[test]
fn uf_union_is_idempotent_on_count() {
    let mut uf = WeightedQuickUnionUF::new(5);
    uf.union(0, 1);
    assert_eq!(uf.count(), 4);
    uf.union(1, 0);
    assert_eq!(uf.count(), 4);
    uf.union(1, 2);
    uf.union(0, 2);
    assert_eq!(uf.count(), 3);
}

#[test]
fn quick_find_union_keeps_q_class_id() {
    let mut qf = QuickFind::new(4);
    qf.union(0, 1);
    // every member of 0's class took 1's class id
    assert_eq!(qf.find(0), 1);
    assert_eq!(qf.find(1), 1);
    qf.union(2, 0);
    assert_eq!(qf.find(2), 1);
    let mut qfu = QuickFindUF::new(4);
    qfu.union(0, 1);
    assert_eq!(qfu.find(0), 1);
    assert_eq!(qfu.find(1), 1);
}

#[test]
fn find_returns_a_canonical_representative() {
    let mut uf = WeightedQuickUnionUF::new(6);
    uf.union(0, 1);
    uf.union(1, 2);
    uf.union(4, 5);
    for i in 0..6 {
        let r = uf.find(i);
        assert_eq!(uf.find(r), r);
        assert!(uf.connected(i, r));
    }
}

