use itualgs_rs::fundamentals;
use itualgs_rs::fundamentals::queue::Queue;
use itualgs_rs::searching::bst::BST;

#[test]
fn test_fundamentals_stack() {
    let mut stack: fundamentals::stack::Stack<u8> = fundamentals::stack::Stack::new();
    stack.push(30);
    stack.push(40);

    assert!(stack.size() == 2);
}

#[test]
fn test_string_result_queue() {
    let _haps: BST<i32, i32> = BST::new();
    let mut queue: Queue<String> = Queue::new();
    queue.enqueue("Bob".to_string());

    let dequeued = queue.dequeue();
    assert!(Some("Bob".to_string()) == dequeued);
}
