use itualgs_rs::searching::bst::BST;

#[test]
fn test_deletion() {
    let mut bst: BST<i32, &str> = BST::new();
    bst.put(24, "Ferris");
    bst.put(20, "John");
    bst.put(25, "Jane");
    assert_eq!(bst.get_root().unwrap(), &"Ferris");
    assert_eq!(bst.get(&20).unwrap(), &"John");
    assert_eq!(bst.get(&25).unwrap(), &"Jane");
    bst.delete(&25);
    assert_eq!(bst.get(&25).is_none(), true);
    assert_eq!(bst.get_root().unwrap(), &"Ferris");
    assert_eq!(bst.get(&20).unwrap(), &"John");
}

#[test]
fn test_deletion_2() {
    let mut bst: BST<i32, &str> = BST::new();
    bst.put(23, "Ferris");
    bst.put(20, "John");
    bst.put(25, "Jane");
    bst.put(30, "Doe");
    bst.put(24, "wut");
    assert_eq!(bst.get_root().unwrap(), &"Ferris");
    assert_eq!(bst.get(&20).unwrap(), &"John");
    assert_eq!(bst.get(&25).unwrap(), &"Jane");
    bst.delete(&25);
    assert_eq!(bst.get(&25).is_none(), true);
    assert_eq!(bst.get_root().unwrap(), &"Ferris");
    assert_eq!(bst.get(&20).unwrap(), &"John");
    assert_eq!(bst.get(&30).unwrap(), &"Doe");
}

#[test]
fn bst_delete_min_and_max() {
    let mut bst: BST<u8, &str> = BST::new();
    bst.put(4, "val4");
    bst.put(10, "val10");
    bst.put(2, "val2");
    bst.put(3, "val3");
    bst.put(11, "val11");

    assert_eq!(bst.get(&2).unwrap(), &"val2");
    bst.delete_min();
    assert!(bst.get(&2).is_none());
    assert_eq!(bst.get(&11).unwrap(), &"val11");
    bst.delete_max();
    assert!(bst.get(&11).is_none());
    assert!(bst.get(&3).is_some());
}

#[test]
fn bst_put_replaces_values() {
    let mut bst: BST<i32, i32> = BST::new();
    bst.put(1, 10);
    bst.put(1, 20);
    assert_eq!(bst.get(&1), Some(&20));
    bst.delete(&1);
    assert!(bst.get_root().is_none());
}
