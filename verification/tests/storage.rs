use bigsets::mem_storage::MemStorage;
use bigsets::storage::Storage;
use bigsets::types::{ActorId, Dot};
use bytes::Bytes;

fn b(s: &str) -> Bytes {
    Bytes::from(s.to_string())
}

fn dot(node: u16, counter: u64) -> Dot {
    Dot::new(ActorId::from_node_id(node), counter)
}

#[test]
fn add_elements_returns_displaced_dots() {
    let mut store = MemStorage::new();
    assert_eq!(store.add_elements("s", &[b("a"), b("b")], dot(1, 1)).unwrap(), vec![]);
    assert_eq!(store.get_elements("s").unwrap(), vec![b("a"), b("b")]);
    // a second add of "a" displaces its dot and leaves "b" alone
    assert_eq!(store.add_elements("s", &[b("a")], dot(1, 2)).unwrap(), vec![dot(1, 1)]);
    assert_eq!(store.get_elements("s").unwrap(), vec![b("a"), b("b")]);
    assert_eq!(store.count_elements("s").unwrap(), 2);
    assert_eq!(store.load_vv().unwrap().get(ActorId::from_node_id(1)), 2);
    // the remove returns what supports the elements now
    assert_eq!(
        store.remove_elements("s", &[b("a"), b("b")], dot(1, 3)).unwrap(),
        vec![dot(1, 2), dot(1, 1)]
    );
    assert_eq!(store.count_elements("s").unwrap(), 0);
}

#[test]
fn an_element_named_twice_displaces_the_new_dot() {
    let mut store = MemStorage::new();
    assert_eq!(store.add_elements("s", &[b("a"), b("a")], dot(1, 1)).unwrap(), vec![dot(1, 1)]);
    assert_eq!(store.get_elements("s").unwrap(), vec![b("a")]);
}

#[test]
fn add_then_get_contains_the_element() {
    let mut store = MemStorage::new();
    store.add_elements("s", &[b("x")], dot(1, 1)).unwrap();
    assert!(store.get_elements("s").unwrap().contains(&b("x")));
    assert!(store.is_member("s", &b("x")).unwrap());
    assert!(!store.is_member("t", &b("x")).unwrap());
    assert_eq!(store.are_members("s", &[b("y"), b("x")]).unwrap(), vec![false, true]);
    assert_eq!(store.are_members("t", &[b("x")]).unwrap(), vec![false]);
    assert_eq!(store.are_members("s", &[]).unwrap(), Vec::<bool>::new());
}

#[test]
fn add_then_remove_leaves_the_element_out() {
    let mut store = MemStorage::new();
    store.add_elements("s", &[b("x")], dot(1, 1)).unwrap();
    assert_eq!(store.remove_elements("s", &[b("x")], dot(1, 2)).unwrap(), vec![dot(1, 1)]);
    assert!(!store.get_elements("s").unwrap().contains(&b("x")));
    assert!(!store.is_member("s", &b("x")).unwrap());
    // an element that comes back goes to the end
    store.add_elements("s", &[b("y")], dot(1, 3)).unwrap();
    store.add_elements("s", &[b("x")], dot(1, 4)).unwrap();
    assert_eq!(store.get_elements("s").unwrap(), vec![b("y"), b("x")]);
}

#[test]
fn no_ops_leave_the_store_alone() {
    let mut store = MemStorage::new();
    assert_eq!(store.add_elements("s", &[], dot(1, 1)).unwrap(), vec![]);
    assert!(store.load_vv().unwrap().is_empty());
    assert_eq!(store.remove_elements("s", &[b("x")], dot(1, 1)).unwrap(), vec![]);
    assert!(store.load_vv().unwrap().is_empty());
    store.add_elements("s", &[b("x")], dot(1, 1)).unwrap();
    assert_eq!(store.remove_elements("s", &[], dot(1, 2)).unwrap(), vec![]);
    assert_eq!(store.load_vv().unwrap().get(ActorId::from_node_id(1)), 1);
    // a remove of an element that is not there still counts the dot
    assert_eq!(store.remove_elements("s", &[b("y")], dot(1, 2)).unwrap(), vec![]);
    assert_eq!(store.load_vv().unwrap().get(ActorId::from_node_id(1)), 2);
    assert_eq!(store.get_elements("s").unwrap(), vec![b("x")]);
}

#[test]
fn replicate_add_removes_the_listed_dots_only() {
    let mut store = MemStorage::new();
    store.add_elements("s", &[b("x")], dot(1, 1)).unwrap();
    store.replicate_add("s", &[b("x"), b("y")], &[dot(3, 9)], dot(2, 1)).unwrap();
    // "x" is supported by both dots now, in the order of their actors
    assert_eq!(store.remove_elements("s", &[b("x")], dot(1, 2)).unwrap(), vec![dot(1, 1), dot(2, 1)]);
    assert_eq!(store.get_elements("s").unwrap(), vec![b("y")]);
    store.replicate_add("s", &[b("y")], &[dot(2, 1)], dot(2, 2)).unwrap();
    assert_eq!(store.remove_elements("s", &[b("y")], dot(1, 3)).unwrap(), vec![dot(2, 2)]);
    let vv = store.load_vv().unwrap();
    assert_eq!(vv.get(ActorId::from_node_id(1)), 3);
    assert_eq!(vv.get(ActorId::from_node_id(2)), 2);
    assert_eq!(vv.get(ActorId::from_node_id(3)), 0);
}

#[test]
fn replicate_add_without_elements_counts_the_dot() {
    let mut store = MemStorage::new();
    store.replicate_add("s", &[], &[], dot(2, 4)).unwrap();
    assert_eq!(store.load_vv().unwrap().get(ActorId::from_node_id(2)), 4);
    assert_eq!(store.count_elements("s").unwrap(), 0);
}

#[test]
fn replicate_remove_keeps_an_element_with_a_dot_left() {
    let mut store = MemStorage::new();
    store.add_elements("s", &[b("x")], dot(1, 1)).unwrap();
    store.replicate_add("s", &[b("x")], &[], dot(2, 1)).unwrap();
    store.replicate_remove("s", &[b("x"), b("z")], &[dot(2, 1)], dot(3, 1)).unwrap();
    assert_eq!(store.get_elements("s").unwrap(), vec![b("x")]);
    store.replicate_remove("s", &[b("x")], &[dot(1, 1)], dot(3, 2)).unwrap();
    assert_eq!(store.get_elements("s").unwrap(), Vec::<Bytes>::new());
    // a set that is not there: the dot is counted all the same
    store.replicate_remove("t", &[b("x")], &[dot(1, 1)], dot(3, 3)).unwrap();
    assert_eq!(store.load_vv().unwrap().get(ActorId::from_node_id(3)), 3);
}

#[test]
fn version_vector_never_goes_back() {
    let mut store = MemStorage::new();
    store.add_elements("s", &[b("x")], dot(1, 5)).unwrap();
    store.replicate_add("s", &[b("y")], &[], dot(1, 3)).unwrap();
    assert_eq!(store.load_vv().unwrap().get(ActorId::from_node_id(1)), 5);
    store.check_rows();
}

#[test]
fn sets_are_kept_apart() {
    let mut store = MemStorage::new();
    store.add_elements("s", &[b("x")], dot(1, 1)).unwrap();
    store.add_elements("t", &[b("x"), b("y")], dot(1, 2)).unwrap();
    assert_eq!(store.remove_elements("s", &[b("x")], dot(1, 3)).unwrap(), vec![dot(1, 1)]);
    assert_eq!(store.get_elements("t").unwrap(), vec![b("x"), b("y")]);
    assert_eq!(store.count_elements("s").unwrap(), 0);
}
