use labs::rule_editor::list::{ApplyVecAction, VecAction};

#[test]
fn push_puts_a_new_item_last() {
    let mut v = vec![1, 2];
    VecAction::Push.apply(&mut v, || 9);
    assert_eq!(v, vec![1, 2, 9]);
}

#[test]
fn remove_takes_the_item_out() {
    let mut v = vec![1, 2, 3];
    VecAction::Remove(1).apply(&mut v, || 9);
    assert_eq!(v, vec![1, 3]);
    VecAction::Remove(1).apply(&mut v, || 9);
    assert_eq!(v, vec![1]);
    VecAction::Remove(0).apply(&mut v, || 9);
    assert!(v.is_empty());
}

#[test]
fn no_action_changes_nothing() {
    let mut v = vec![1, 2, 3];
    None::<VecAction>.apply(&mut v, || 9);
    assert_eq!(v, vec![1, 2, 3]);
}

#[test]
fn some_action_is_applied() {
    let mut v = vec!["a".to_string()];
    Some(VecAction::Push).apply(&mut v, || "b".to_string());
    assert_eq!(v, vec!["a".to_string(), "b".to_string()]);
    Some(VecAction::Remove(0)).apply_default(&mut v);
    assert_eq!(v, vec!["b".to_string()]);
}

#[test]
fn apply_default_pushes_the_default() {
    let mut v = vec![5u32];
    VecAction::Push.apply_default(&mut v);
    assert_eq!(v, vec![5, 0]);
}
