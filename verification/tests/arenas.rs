use diskscan::Arena;

#[test]
fn put_and_remove() {
    let mut arena: Arena<String> = Arena::default();
    let id1 = arena.put("test".to_string());
    let id2 = arena.put("test2".to_string());

    assert_eq!(arena.get(id1), "test");
    assert_eq!(arena.get(id2), "test2");

    assert_eq!(arena.remove(id1), Some("test".to_string()));

    let id3 = arena.put("test3".to_string());
    assert_eq!(arena.get(id3), "test3");

    // removed item should be reused
    assert_eq!(id3, id1);
}

#[test]
fn put_with_id() {
    let mut arena: Arena<String> = Arena::default();
    let mut actual = None;
    let id = arena.put_with_id(|id| {
        actual = Some(id);
        "test".to_string()
    });

    assert_eq!(Some(id), actual);
    assert_eq!(arena.get(id), "test");
    assert!(arena.contains(id));
}

#[test]
fn try_get_misses() {
    let mut arena: Arena<u64> = Arena::default();
    let id = arena.put(7);
    assert_eq!(arena.try_get(id), Some(&7));
    assert_eq!(arena.remove(id), Some(7));
    assert_eq!(arena.try_get(id), None);
    assert_eq!(arena.remove(id), None);
}
