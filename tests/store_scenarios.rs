use todo_list::store::TodoList;
use todo_list::task::Todo;

fn todo(id: usize, description: &str, done: bool) -> Todo {
    Todo { id, description: description.to_string(), done }
}

fn sample() -> TodoList {
    let mut list = TodoList::new();
    assert_eq!(list.add_task("Buy milk".to_string()), 1);
    assert_eq!(list.add_task("Call Alice".to_string()), 2);
    assert!(list.mark_done(2));
    list
}

#[test]
fn new_store_is_empty() {
    let list = TodoList::new();
    assert!(list.list_tasks().is_empty());
    assert_eq!(list.next_id(), 1);
}

#[test]
fn add_then_mark_done_lists_in_order() {
    let list = sample();
    assert_eq!(
        list.list_tasks().clone(),
        vec![todo(1, "Buy milk", false), todo(2, "Call Alice", true)]
    );
    assert_eq!(list.next_id(), 3);
}

#[test]
fn save_then_load_into_new_store() {
    let list = sample();
    let text = list.save_to_string();
    assert_eq!(text, "1, Buy milk, false\n2, Call Alice, true\n");
    let mut fresh = TodoList::new();
    fresh.load_from_str(Some(text.as_str()));
    assert_eq!(fresh.list_tasks().clone(), list.list_tasks().clone());
    assert_eq!(fresh.next_id(), 3);
}

#[test]
fn removed_id_is_not_reused() {
    let mut list = sample();
    assert!(list.remove_task(1));
    assert_eq!(list.add_task("Pay rent".to_string()), 3);
    assert_eq!(
        list.list_tasks().clone(),
        vec![todo(2, "Call Alice", true), todo(3, "Pay rent", false)]
    );
    assert_eq!(list.next_id(), 4);
}

#[test]
fn edit_unknown_id_reports_not_found() {
    let mut list = sample();
    let before = list.list_tasks().clone();
    assert!(!list.edit_task(99, "x".to_string()));
    assert_eq!(list.list_tasks().clone(), before);
    assert_eq!(list.next_id(), 3);
}

#[test]
fn load_skips_garbage_line() {
    let mut list = TodoList::new();
    list.load_from_str(Some("1, Buy milk, false\ngarbage,line\n"));
    assert_eq!(list.list_tasks().clone(), vec![todo(1, "Buy milk", false)]);
    assert_eq!(list.next_id(), 2);
}

#[test]
fn adds_number_from_one_upwards() {
    let mut list = TodoList::new();
    for k in 1..=5usize {
        assert_eq!(list.add_task(format!("task {}", k)), k);
    }
    let ids: Vec<usize> = list.list_tasks().iter().map(|t| t.id).collect();
    assert_eq!(ids, vec![1, 2, 3, 4, 5]);
    assert_eq!(list.next_id(), 6);
}

#[test]
fn next_id_does_not_drop_on_remove() {
    let mut list = sample();
    assert!(list.remove_task(2));
    assert!(list.remove_task(1));
    assert!(list.list_tasks().is_empty());
    assert_eq!(list.next_id(), 3);
    assert_eq!(list.add_task("again".to_string()), 3);
}

#[test]
fn malformed_line_among_good_ones() {
    let mut list = TodoList::new();
    list.load_from_str(Some("1, a, false\n7, b, maybe\n4, c, true\n"));
    assert_eq!(list.list_tasks().clone(), vec![todo(1, "a", false), todo(4, "c", true)]);
    assert_eq!(list.next_id(), 5);
}

#[test]
fn unknown_id_leaves_store_unchanged() {
    let mut list = sample();
    let before = list.list_tasks().clone();
    assert!(!list.mark_done(42));
    assert!(!list.remove_task(42));
    assert!(!list.edit_task(42, "y".to_string()));
    assert_eq!(list.list_tasks().clone(), before);
    assert_eq!(list.next_id(), 3);
}

#[test]
fn mark_done_twice_same_as_once() {
    let mut once = sample();
    assert!(once.mark_done(1));
    let mut twice = sample();
    assert!(twice.mark_done(1));
    assert!(twice.mark_done(1));
    assert_eq!(once.list_tasks().clone(), twice.list_tasks().clone());
    assert_eq!(once.next_id(), twice.next_id());
}

#[test]
fn edit_keeps_id_and_done() {
    let mut list = sample();
    assert!(list.edit_task(2, "Call Bob".to_string()));
    assert_eq!(
        list.list_tasks().clone(),
        vec![todo(1, "Buy milk", false), todo(2, "Call Bob", true)]
    );
}

#[test]
fn empty_description_is_accepted_and_round_trips() {
    let mut list = TodoList::new();
    assert_eq!(list.add_task(String::new()), 1);
    let text = list.save_to_string();
    assert_eq!(text, "1, , false\n");
    let mut fresh = TodoList::new();
    fresh.load_from_str(Some(text.as_str()));
    assert_eq!(fresh.list_tasks().clone(), vec![todo(1, "", false)]);
}

#[test]
fn load_without_file_empties_store_and_keeps_counter() {
    let mut list = sample();
    list.load_from_str(None);
    assert!(list.list_tasks().is_empty());
    assert_eq!(list.next_id(), 3);
}

#[test]
fn load_keeps_a_larger_counter() {
    let mut list = sample();
    list.add_task("x".to_string());
    list.add_task("y".to_string());
    assert_eq!(list.next_id(), 5);
    list.load_from_str(Some("2, b, false\n"));
    assert_eq!(list.list_tasks().clone(), vec![todo(2, "b", false)]);
    assert_eq!(list.next_id(), 5);
}

#[test]
fn load_of_empty_text_gives_no_tasks() {
    let mut list = TodoList::new();
    list.load_from_str(Some(""));
    assert!(list.list_tasks().is_empty());
    assert_eq!(list.next_id(), 1);
}

#[test]
fn duplicate_ids_in_file_are_kept_and_first_one_is_edited() {
    let mut list = TodoList::new();
    list.load_from_str(Some("3, a, false\n3, b, false\n"));
    assert_eq!(list.next_id(), 4);
    assert!(list.mark_done(3));
    assert_eq!(list.list_tasks().clone(), vec![todo(3, "a", true), todo(3, "b", false)]);
}
