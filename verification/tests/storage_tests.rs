use nodes_gui::storage::{Storage, ID};

#[test]
fn create_hands_out_increasing_ids() {
    let mut s: Storage<&str> = Storage::default();
    let (r, a) = s.create("a");
    assert_eq!(*r, "a");
    let (_, b) = s.create("b");
    let (_, c) = s.create("c");
    assert_eq!(a, ID(0));
    assert_eq!(b, ID(1));
    assert_eq!(c, ID(2));
    assert_eq!(s.len(), 3);
    assert_eq!(*s.get(b), "b");
}

#[test]
fn create_returns_reference_into_storage() {
    let mut s: Storage<u32> = Storage::default();
    let (r, a) = s.create(5);
    *r = 9;
    assert_eq!(*s.get(a), 9);
}

#[test]
fn removed_id_is_reused_last_freed_first() {
    let mut s: Storage<u32> = Storage::default();
    let (_, a) = s.create(1);
    let (_, b) = s.create(2);
    let (_, c) = s.create(3);
    s.remove(a);
    s.remove(c);
    assert!(!s.contains(a));
    assert!(!s.contains(c));
    assert!(s.contains(b));
    let (_, d) = s.create(4);
    assert_eq!(d, c);
    let (_, e) = s.create(5);
    assert_eq!(e, a);
    let (_, f) = s.create(6);
    assert_eq!(f, ID(3));
    assert_eq!(*s.get(b), 2);
    assert_eq!(*s.get(d), 4);
    assert_eq!(*s.get(e), 5);
    assert_eq!(*s.get(f), 6);
}

#[test]
fn remove_moves_last_object_into_hole() {
    let mut s: Storage<char> = Storage::default();
    let (_, a) = s.create('a');
    let (_, b) = s.create('b');
    let (_, c) = s.create('c');
    s.remove(a);
    assert_eq!(s.ids().clone(), vec![c, b]);
    let order: Vec<char> = s.iter().copied().collect();
    assert_eq!(order, vec!['c', 'b']);
    assert_eq!(*s.get(c), 'c');
    assert_eq!(*s.get(b), 'b');
}

#[test]
fn remove_last_object_keeps_order() {
    let mut s: Storage<char> = Storage::default();
    let (_, a) = s.create('a');
    let (_, b) = s.create('b');
    s.remove(b);
    assert_eq!(s.ids().clone(), vec![a]);
    assert_eq!(s.len(), 1);
}

#[test]
fn remove_undoes_create() {
    let mut s: Storage<u8> = Storage::default();
    let (_, a) = s.create(1);
    let (_, b) = s.create(2);
    let before: Vec<u8> = s.iter().copied().collect();
    let (_, c) = s.create(3);
    s.remove(c);
    let after: Vec<u8> = s.iter().copied().collect();
    assert_eq!(before, after);
    assert_eq!(s.ids().clone(), vec![a, b]);
}

#[test]
fn get_mut_changes_only_that_object() {
    let mut s: Storage<i64> = Storage::default();
    let (_, a) = s.create(10);
    let (_, b) = s.create(20);
    *s.get_mut(b) += 5;
    assert_eq!(*s.get(a), 10);
    assert_eq!(*s.get(b), 25);
}

#[test]
fn with_ids_lines_up_handles_and_objects() {
    let mut s: Storage<&str> = Storage::default();
    let (_, a) = s.create("x");
    let (_, b) = s.create("y");
    let (ids, objs) = s.with_ids();
    assert_eq!(ids, &[a, b]);
    assert_eq!(objs, &["x", "y"]);
}

#[test]
fn iter_mut_and_with_ids_mut_change_in_place() {
    let mut s: Storage<u32> = Storage::default();
    let (_, a) = s.create(1);
    let (_, b) = s.create(2);
    for v in s.iter_mut().iter_mut() {
        *v *= 10;
    }
    assert_eq!(*s.get(a), 10);
    let (ids, objs) = s.with_ids_mut();
    for (id, v) in ids.iter().zip(objs.iter_mut()) {
        if *id == b {
            *v += 1;
        }
    }
    assert_eq!(*s.get(b), 21);
}

#[test]
fn into_iter_yields_storage_order() {
    let mut s: Storage<u32> = Storage::default();
    let (_, a) = s.create(7);
    s.create(8);
    s.create(9);
    s.remove(a);
    let all: Vec<u32> = s.into_iter().collect();
    assert_eq!(all, vec![9, 8]);
}

#[test]
fn empty_storage_has_nothing() {
    let s: Storage<u32> = Storage::default();
    assert_eq!(s.len(), 0);
    assert!(!s.contains(ID(0)));
    assert!(s.ids().is_empty());
    assert_eq!(ID(4).index(), 4);
}

#[test]
fn clone_keeps_handles_and_objects() {
    let mut s: Storage<String> = Storage::default();
    let (_, a) = s.create("one".to_string());
    let (_, b) = s.create("two".to_string());
    s.remove(a);
    let mut c = s.clone();
    assert_eq!(c.ids().clone(), vec![b]);
    assert_eq!(c.get(b), "two");
    let (_, d) = c.create("three".to_string());
    assert_eq!(d, a);
    assert!(!s.contains(a));
}
