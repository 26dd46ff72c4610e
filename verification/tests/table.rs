use labs::table::Table;

#[test]
fn new_table_is_empty() {
    let t: Table<u32> = Table::new();
    assert_eq!(t.keys(), Vec::<usize>::new());
    assert_eq!(t.get(0), None);
    assert!(!t.contains(&7));
}

#[test]
fn default_table_is_empty() {
    let t: Table<u32> = Table::default();
    assert!(t.iter().is_empty());
}

#[test]
fn insert_hands_out_ids_in_order() {
    let mut t = Table::new();
    assert_eq!(t.insert("a"), 0);
    assert_eq!(t.insert("b"), 1);
    assert_eq!(t.insert("a"), 2);
    assert_eq!(t.get(0), Some(&"a"));
    assert_eq!(t.get(1), Some(&"b"));
    assert_eq!(t.get(2), Some(&"a"));
    assert_eq!(t.get(3), None);
}

#[test]
fn insert_unique_returns_the_first_equal_entry() {
    let mut t = Table::new();
    assert_eq!(t.insert_unique(10), 0);
    assert_eq!(t.insert_unique(20), 1);
    assert_eq!(t.insert_unique(10), 0);
    assert_eq!(t.insert(10), 2);
    assert_eq!(t.insert_unique(10), 0);
    assert_eq!(t.keys(), vec![0, 1, 2]);
}

#[test]
fn iteration_is_in_id_order() {
    let mut t = Table::new();
    t.insert('x');
    t.insert('y');
    t.insert('z');
    assert_eq!(t.keys(), vec![0, 1, 2]);
    assert_eq!(t.values(), vec![&'x', &'y', &'z']);
    assert_eq!(t.iter(), vec![(0, &'x'), (1, &'y'), (2, &'z')]);
}

#[test]
fn retain_removes_and_never_reuses_an_id() {
    let mut t = Table::new();
    for i in 0..6 {
        t.insert(i * 10);
    }
    t.retain(|k, _| k % 2 == 0);
    assert_eq!(t.keys(), vec![0, 2, 4]);
    assert_eq!(t.values(), vec![&0, &20, &40]);
    assert_eq!(t.get(1), None);
    assert_eq!(t.insert(99), 6);
    assert_eq!(t.keys(), vec![0, 2, 4, 6]);
}

#[test]
fn retain_by_value() {
    let mut t = Table::new();
    t.insert(5);
    t.insert(50);
    t.insert(7);
    t.retain(|_, v| *v < 10);
    assert_eq!(t.iter(), vec![(0, &5), (2, &7)]);
}

#[test]
fn find_key_and_contains() {
    let mut t = Table::new();
    t.insert("a".to_string());
    t.insert("b".to_string());
    t.insert("b".to_string());
    assert_eq!(t.find_key(&"b".to_string()), Some(1));
    assert_eq!(t.find_key(&"c".to_string()), None);
    assert!(t.contains(&"a".to_string()));
    assert!(!t.contains(&"c".to_string()));
}

#[test]
fn find_key_after_the_first_was_removed() {
    let mut t = Table::new();
    t.insert(1);
    t.insert(1);
    t.retain(|k, _| *k != 0);
    assert_eq!(t.find_key(&1), Some(1));
    assert_eq!(t.insert_unique(1), 1);
}

#[test]
fn clone_keeps_entries_and_next_id() {
    let mut t = Table::new();
    t.insert(1);
    t.insert(2);
    t.retain(|k, _| *k == 0);
    let mut c = t.clone();
    assert_eq!(c, t);
    assert_eq!(c.insert(3), 2);
    assert_eq!(t.keys(), vec![0]);
}
