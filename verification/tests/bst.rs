use binary_search_tree::BinarySearchTree;

fn prequel_tree() -> BinarySearchTree {
    let mut tree = BinarySearchTree::new();
    tree.insert(16);
    tree.insert(7);
    tree.insert(28);
    tree.insert(3);
    tree.insert(21);
    tree.insert(36);
    tree.insert(70);
    tree
}

#[test]
fn test_search() {
    let tree = prequel_tree();

    assert!(tree.search(&16));
    assert!(tree.search(&7));
    assert!(tree.search(&28));
    assert!(tree.search(&3));
    assert!(tree.search(&21));
    assert!(tree.search(&36));
    assert!(tree.search(&70));

    assert!(!tree.search(&1));
    assert!(!tree.search(&90));
}

#[test]
fn test_iterator() {
    let tree = prequel_tree();
    let mut iter = tree.iter();

    assert_eq!(iter.next(), Some(3));
    assert_eq!(iter.next(), Some(7));
    assert_eq!(iter.next(), Some(16));
    assert_eq!(iter.next(), Some(21));
    assert_eq!(iter.next(), Some(28));
    assert_eq!(iter.next(), Some(36));
    assert_eq!(iter.next(), Some(70));
    assert_eq!(iter.next(), None);
}

#[test]
fn test_empty_tree() {
    let tree = BinarySearchTree::new();

    assert!(!tree.search(&0));
    assert!(!tree.search(&17));
    assert!(!tree.search(&u64::MAX));
    assert_eq!(tree.min(), None);
    assert_eq!(tree.max(), None);

    let mut iter = tree.iter();
    assert_eq!(iter.next(), None);
    assert_eq!(iter.next(), None);
}

#[test]
fn test_default_is_empty() {
    let tree = BinarySearchTree::default();

    assert!(!tree.search(&3));
    assert_eq!(tree.min(), None);
    assert_eq!(tree.max(), None);
    assert_eq!(tree.iter().next(), None);
}

#[test]
fn test_min_max() {
    let tree = prequel_tree();

    assert_eq!(tree.min(), Some(3));
    assert_eq!(tree.max(), Some(70));
}

#[test]
fn test_single_element() {
    let mut tree = BinarySearchTree::new();
    tree.insert(42);

    assert!(tree.search(&42));
    assert!(!tree.search(&41));
    assert_eq!(tree.min(), Some(42));
    assert_eq!(tree.max(), Some(42));

    let mut iter = tree.iter();
    assert_eq!(iter.next(), Some(42));
    assert_eq!(iter.next(), None);
}

#[test]
fn test_duplicates_are_retained() {
    let mut tree = BinarySearchTree::new();
    tree.insert(5);
    tree.insert(5);
    tree.insert(3);
    tree.insert(5);

    assert!(tree.search(&5));
    assert!(tree.search(&3));
    assert_eq!(tree.min(), Some(3));
    assert_eq!(tree.max(), Some(5));

    let mut iter = tree.iter();
    assert_eq!(iter.next(), Some(3));
    assert_eq!(iter.next(), Some(5));
    assert_eq!(iter.next(), Some(5));
    assert_eq!(iter.next(), Some(5));
    assert_eq!(iter.next(), None);
}

#[test]
fn test_sorted_insertion_order() {
    let mut ascending = BinarySearchTree::new();
    let mut descending = BinarySearchTree::new();
    for v in 1u64..=6 {
        ascending.insert(v);
        descending.insert(7 - v);
    }

    for tree in [&ascending, &descending] {
        let mut iter = tree.iter();
        for v in 1u64..=6 {
            assert_eq!(iter.next(), Some(v));
        }
        assert_eq!(iter.next(), None);
    }
}

#[test]
fn test_queries_do_not_mutate() {
    let tree = prequel_tree();

    assert_eq!(tree.search(&21), tree.search(&21));
    assert_eq!(tree.search(&90), tree.search(&90));
    assert_eq!(tree.min(), tree.min());
    assert_eq!(tree.max(), tree.max());

    let mut first = tree.iter();
    let mut second = tree.iter();
    assert_eq!(first.next(), Some(3));
    assert_eq!(first.next(), Some(7));
    assert_eq!(second.next(), Some(3));
    assert_eq!(second.next(), Some(7));

    let mut again = tree.iter();
    assert_eq!(again.next(), Some(3));
}
