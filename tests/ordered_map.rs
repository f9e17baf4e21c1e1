use tiny_runtime::id::{Id, IdGenerator};
use tiny_runtime::ordered_map::OrderedMap;

#[test]
fn ids_increase_by_one() {
    let mut ids = IdGenerator::new();
    assert_eq!(ids.peek(), 0);
    let a: Id<u8> = ids.next();
    let b: Id<u8> = ids.next();
    assert_eq!(a.value, 0);
    assert_eq!(b.value, 1);
    assert!(a != b);
    assert!(a == a.clone());
    assert!(Id::<u8>::from_value(1) == b);
    assert_eq!(ids.peek(), 2);
}

#[test]
fn empty_map_has_no_first_key() {
    let mut m: OrderedMap<u32> = OrderedMap::new();
    assert_eq!(m.len(), 0);
    assert_eq!(m.first_key(), None);
    assert_eq!(m.pop_first(), None);
}

#[test]
fn first_key_is_least_by_deadline_then_id() {
    let mut m: OrderedMap<&str> = OrderedMap::new();
    m.insert((30, 0), "c");
    m.insert((10, 5), "b");
    m.insert((10, 2), "a");
    assert_eq!(m.first_key(), Some((10, 2)));
    assert_eq!(m.len(), 3);
    assert_eq!(m.pop_first(), Some(((10, 2), "a")));
    assert_eq!(m.pop_first(), Some(((10, 5), "b")));
    assert_eq!(m.pop_first(), Some(((30, 0), "c")));
    assert_eq!(m.pop_first(), None);
}

#[test]
fn insert_overwrites_equal_key() {
    let mut m: OrderedMap<u32> = OrderedMap::new();
    m.insert((1, 1), 10);
    m.insert((1, 1), 20);
    assert_eq!(m.len(), 1);
    assert_eq!(m.pop_first(), Some(((1, 1), 20)));
}

#[test]
fn update_transforms_present_key_only() {
    let mut m: OrderedMap<u32> = OrderedMap::new();
    m.insert((5, 0), 7);
    m.update((5, 0), |v| v * 3);
    m.update((6, 0), |_| panic!("absent key must not be transformed"));
    assert_eq!(m.len(), 1);
    assert!(!m.contains_key(&(6, 0)));
    assert_eq!(m.pop_first(), Some(((5, 0), 21)));
}

#[test]
fn delete_and_remove() {
    let mut m: OrderedMap<u32> = OrderedMap::new();
    m.insert((2, 0), 1);
    m.insert((3, 0), 2);
    m.delete(&(2, 0));
    m.delete(&(9, 9));
    assert!(!m.contains_key(&(2, 0)));
    assert_eq!(m.remove(&(3, 0)), Some(2));
    assert_eq!(m.remove(&(3, 0)), None);
    assert_eq!(m.len(), 0);
}
