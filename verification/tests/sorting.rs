use itualgs_rs::sorting::index_min_pq::IndexMinPQ;
use itualgs_rs::sorting::quick::select;
use itualgs_rs::sorting::quick::select_shuffle;
use itualgs_rs::sorting::quick::sort;
use itualgs_rs::sorting::quick::sort_shuffle;

#[test]
fn test_sort() {
    let mut list = vec![4, 2, 4, 1];

    sort(&mut list);

    assert_eq!(list, vec![1, 2, 4, 4]);
}

#[test]
fn test_sort_char() {
    let mut list = vec!['f', 'e', 'r', 'r', 'i', 's'];

    sort(&mut list);

    assert_eq!(list, vec!['e', 'f', 'i', 'r', 'r', 's']);
}

#[test]
fn test_sort_string() {
    let mut list = vec!["does", "the", "bed", "bugs", "bite", "?"];

    sort(&mut list);

    assert_eq!(list, vec!["?", "bed", "bite", "bugs", "does", "the"]);
}

#[test]
fn test_select() {
    let mut list = vec!["does", "the", "bed", "bugs", "bite", "?"];

    let val = select(&mut list, 3);

    assert_eq!(val, "bugs");
}

#[test]
fn sort_shuffle_sorts() {
    let mut list = vec![9, 3, 7, 1, 1, 8, 0];
    sort_shuffle(&mut list);
    assert_eq!(list, vec![0, 1, 1, 3, 7, 8, 9]);
}

#[test]
fn select_shuffle_selects() {
    let mut list = vec![9, 3, 7, 1, 1, 8, 0];
    let val = select_shuffle(&mut list, 0);
    assert_eq!(val, 0);
    let val = select_shuffle(&mut list, 6);
    assert_eq!(val, 9);
}

#[test]
fn sort_empty_and_single() {
    let mut empty: Vec<i32> = vec![];
    sort(&mut empty);
    assert_eq!(empty, vec![]);
    let mut one = vec![5];
    sort(&mut one);
    assert_eq!(one, vec![5]);
}

#[test]
fn index_min_pq_hands_out_minima() {
    let mut pq = IndexMinPQ::new(5);
    assert!(pq.is_empty());
    pq.insert(&0, 30);
    pq.insert(&3, 10);
    pq.insert(&4, 20);
    assert!(pq.contains(3));
    assert!(!pq.contains(1));
    assert_eq!(pq.delete_min(), 3);
    pq.decrease_key(&0, 5);
    assert_eq!(pq.delete_min(), 0);
    assert_eq!(pq.delete_min(), 4);
    assert!(pq.is_empty());
}
