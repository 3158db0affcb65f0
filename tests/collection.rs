use mray::collection::GraphicObjects;

#[test]
fn push_and_extend_keep_insertion_order() {
    let mut a = GraphicObjects::new(vec![1, 2]);
    a.push(3);
    let b = GraphicObjects::new(vec![4, 5]);
    a.extend(b);
    assert_eq!(a.len(), 5);
    assert_eq!(*a.get(0), 1);
    assert_eq!(*a.get(4), 5);
    assert_eq!(a.clone().into_vec(), vec![1, 2, 3, 4, 5]);
}

#[test]
fn consuming_yields_reverse_insertion_order() {
    let mut a: GraphicObjects<&str> = GraphicObjects::empty();
    assert!(a.is_empty());
    a.push("first");
    a.push("second");
    a.push("third");
    assert_eq!(a.clone().into_reversed(), vec!["third", "second", "first"]);
    assert_eq!(a.pop(), Some("third"));
    assert_eq!(a.pop(), Some("second"));
    assert_eq!(a.pop(), Some("first"));
    assert_eq!(a.pop(), None);
}

#[test]
fn map_builds_a_new_collection_in_order() {
    let a = GraphicObjects::new(vec![1, 2, 3]);
    let b = a.map(|x: &i32| x * 10);
    assert_eq!(b.into_vec(), vec![10, 20, 30]);
    assert_eq!(a.into_vec(), vec![1, 2, 3]);
}
