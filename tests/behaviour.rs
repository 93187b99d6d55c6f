use scoped_stack::ScopedStack;

fn depth(stack: &ScopedStack<u64, u64>) -> usize {
    let mut n = 1;
    let mut cur = stack.child();
    while let Some(c) = cur {
        n += 1;
        cur = c.child();
    }
    n
}

#[test]
fn insert_into_new_stack_is_seen() {
    let mut stack = ScopedStack::<u64, u64>::new();
    stack.insert(7, 70);
    assert_eq!(stack.get(&7), Some(&70));
    assert!(stack.has(&7));
}

#[test]
fn inner_binding_shadows_until_popped() {
    let mut stack = ScopedStack::<u64, u64>::new();
    stack.insert(1, 10);
    stack.push_scope();
    stack.insert(1, 20);
    assert_eq!(stack.get(&1), Some(&20));
    stack.pop_scope();
    assert_eq!(stack.get(&1), Some(&10));
}

#[test]
fn pop_on_single_scope_changes_nothing() {
    let mut stack = ScopedStack::<u64, u64>::new();
    stack.pop_scope();
    assert_eq!(stack, ScopedStack::new());
    assert_eq!(stack.values().len(), 0);
    assert!(stack.child().is_none());
    stack.insert(3, 30);
    stack.pop_scope();
    assert_eq!(stack.get(&3), Some(&30));
    assert_eq!(depth(&stack), 1);
}

#[test]
fn remove_touches_innermost_scope_only() {
    let mut stack = ScopedStack::<String, String>::new();
    stack.insert("k".to_string(), "outer".to_string());
    stack.push_scope();
    stack.insert("k".to_string(), "inner".to_string());
    assert_eq!(stack.remove(&"k".to_string()), Some("inner".to_string()));
    assert_eq!(stack.get(&"k".to_string()), Some(&"outer".to_string()));
    stack.pop_scope();
    assert_eq!(stack.get(&"k".to_string()), Some(&"outer".to_string()));
}

#[test]
fn remove_of_outer_only_key_is_absent() {
    let mut stack = ScopedStack::<u64, u64>::new();
    stack.insert(5, 50);
    stack.push_scope();
    assert_eq!(stack.remove(&5), None);
    assert!(!stack.has(&5));
    assert_eq!(stack.get(&5), Some(&50));
    assert_eq!(stack.remove(&6), None);
}

#[test]
fn has_sees_innermost_scope_only() {
    let mut stack = ScopedStack::<u64, u64>::new();
    stack.insert(4, 40);
    stack.push_scope();
    assert!(!stack.has(&4));
    assert_eq!(stack.get(&4), Some(&40));
}

#[test]
fn get_of_unbound_key_is_absent() {
    let mut stack = ScopedStack::<u64, u64>::new();
    assert_eq!(stack.get(&9), None);
    stack.push_scope();
    stack.insert(8, 80);
    assert_eq!(stack.get(&9), None);
}

#[test]
fn insert_existing_updates_outer_scope() {
    let mut stack = ScopedStack::<String, String>::new();
    stack.insert("k".to_string(), "outer".to_string());
    stack.push_scope();
    stack.insert_existing("k".to_string(), "updated".to_string());
    assert_eq!(stack.child().unwrap().values().len(), 0);
    stack.pop_scope();
    assert_eq!(stack.get(&"k".to_string()), Some(&"updated".to_string()));
    assert_eq!(stack.values().get("k"), Some(&"updated".to_string()));
    assert_eq!(stack.values().len(), 1);
}

#[test]
fn insert_existing_picks_innermost_defining_scope() {
    let mut stack = ScopedStack::<u64, u64>::new();
    stack.insert(1, 10);
    stack.push_scope();
    stack.insert(1, 11);
    stack.push_scope();
    stack.insert_existing(1, 12);
    let middle = stack.child().unwrap();
    assert_eq!(stack.values().get(&1), Some(&10));
    assert_eq!(middle.values().get(&1), Some(&12));
    assert_eq!(middle.child().unwrap().values().len(), 0);
    assert_eq!(stack.get(&1), Some(&12));
}

#[test]
fn insert_existing_in_innermost_defining_scope() {
    let mut stack = ScopedStack::<u64, u64>::new();
    stack.push_scope();
    stack.insert(2, 20);
    stack.insert_existing(2, 21);
    assert_eq!(stack.values().len(), 0);
    assert_eq!(stack.child().unwrap().values().get(&2), Some(&21));
}

#[test]
fn insert_existing_of_undefined_key_goes_to_root() {
    let mut stack = ScopedStack::<u64, u64>::new();
    stack.push_scope();
    stack.push_scope();
    stack.insert_existing(3, 30);
    assert_eq!(stack.values().get(&3), Some(&30));
    assert!(!stack.has(&3));
    assert_eq!(stack.get(&3), Some(&30));
    stack.pop_scope();
    stack.pop_scope();
    assert_eq!(stack.get(&3), Some(&30));
}

#[test]
fn push_then_pop_restores_structure() {
    let mut stack = ScopedStack::<u64, u64>::new();
    stack.insert(1, 1);
    stack.push_scope();
    stack.insert(2, 2);
    let mut before = ScopedStack::<u64, u64>::new();
    before.insert(1, 1);
    before.push_scope();
    before.insert(2, 2);
    stack.push_scope();
    assert_eq!(depth(&stack), 3);
    stack.pop_scope();
    assert_eq!(depth(&stack), 2);
    assert_eq!(stack, before);
}

#[test]
fn deepest_definition_wins_across_two_scopes() {
    let mut stack = ScopedStack::<String, u64>::new();
    stack.insert("x".to_string(), 1);
    stack.push_scope();
    stack.insert("x".to_string(), 2);
    stack.push_scope();
    assert_eq!(stack.get(&"x".to_string()), Some(&2));
    stack.pop_scope();
    stack.pop_scope();
    assert_eq!(stack.get(&"x".to_string()), Some(&1));
}

#[test]
fn insert_overwrites_within_a_scope() {
    let mut stack = ScopedStack::<u64, u64>::new();
    stack.insert(1, 1);
    stack.insert(1, 2);
    assert_eq!(stack.values().len(), 1);
    assert_eq!(stack.get(&1), Some(&2));
}

#[test]
fn clone_copies_every_scope() {
    let mut stack = ScopedStack::<u64, u64>::new();
    stack.insert(1, 10);
    stack.push_scope();
    stack.insert(1, 11);
    let copy = stack.clone();
    assert_eq!(copy, stack);
    stack.pop_scope();
    assert_eq!(copy.get(&1), Some(&11));
    assert_eq!(depth(&copy), 2);
    assert_eq!(stack.get(&1), Some(&10));
}
