use todolist::TaskList;

fn snapshot(list: &TaskList) -> Vec<(bool, u16, String, String)> {
    list.tasks()
        .iter()
        .map(|t| (t.complete, t.num, t.task.clone(), t.description.clone()))
        .collect()
}

#[test]
fn next_identifier_is_one_on_empty() {
    let list = TaskList::new();
    assert_eq!(list.next_identifier(), 1);
    assert_eq!(list.tasks().len(), 0);
}

#[test]
fn next_identifier_is_one_plus_max() {
    let mut list = TaskList::new();
    list.new_task("a", "");
    list.new_task("b", "");
    assert_eq!(list.next_identifier(), 3);
    list.new_task("c", "");
    assert_eq!(list.next_identifier(), 4);
}

#[test]
fn add_assigns_sequential_identifiers() {
    let mut list = TaskList::new();
    list.new_task("Buy milk", "");
    assert_eq!(list.tasks()[0].num, 1);
    assert!(!list.tasks()[0].complete);
    list.new_task("Walk dog", "daily");
    assert_eq!(list.tasks()[1].num, 2);
}

#[test]
fn complete_moves_task_after_incomplete_ones() {
    let mut list = TaskList::new();
    list.new_task("Buy milk", "");
    list.new_task("Walk dog", "daily");
    list.complete(1);
    let ts = list.tasks();
    assert_eq!(ts.len(), 2);
    assert_eq!(ts[0].num, 2);
    assert!(!ts[0].complete);
    assert_eq!(ts[1].num, 1);
    assert!(ts[1].complete);
}

#[test]
fn end_to_end_scenario_render_short() {
    let mut list = TaskList::new();
    list.new_task("Buy milk", "");
    list.new_task("Walk dog", "daily");
    list.complete(1);
    assert_eq!(list.to_short_string(), "  2: Walk dog\n  1: Buy milk\n");
}

#[test]
fn complete_of_absent_identifier_is_a_noop() {
    let mut list = TaskList::new();
    list.new_task("a", "x");
    list.new_task("b", "y");
    let before = snapshot(&list);
    list.complete(5);
    assert_eq!(snapshot(&list), before);
}

#[test]
fn complete_twice_is_a_noop() {
    let mut list = TaskList::new();
    list.new_task("a", "x");
    list.new_task("b", "y");
    list.complete(2);
    let before = snapshot(&list);
    list.complete(2);
    assert_eq!(snapshot(&list), before);
}

#[test]
fn delete_of_absent_identifier_is_a_noop() {
    let mut list = TaskList::new();
    list.new_task("a", "x");
    list.new_task("b", "y");
    let before = snapshot(&list);
    list.delete(7);
    assert_eq!(snapshot(&list), before);
}

#[test]
fn deleted_gap_is_not_reused() {
    let mut list = TaskList::new();
    list.new_task("a", "");
    list.new_task("b", "");
    list.delete(1);
    list.new_task("c", "");
    let nums: Vec<u16> = list.tasks().iter().map(|t| t.num).collect();
    assert_eq!(nums, vec![2, 3]);
}

#[test]
fn next_identifier_recomputed_from_contents() {
    let mut list = TaskList::new();
    list.new_task("a", "");
    list.new_task("b", "");
    list.delete(2);
    assert_eq!(list.next_identifier(), 2);
}

#[test]
fn delete_removes_exactly_one_task() {
    let mut list = TaskList::new();
    list.new_task("a", "");
    list.new_task("b", "");
    list.new_task("c", "");
    list.delete(2);
    let nums: Vec<u16> = list.tasks().iter().map(|t| t.num).collect();
    assert_eq!(nums, vec![1, 3]);
}

#[test]
fn clear_removes_everything() {
    let mut list = TaskList::new();
    list.new_task("a", "");
    list.new_task("b", "");
    list.clear();
    assert_eq!(list.tasks().len(), 0);
    assert_eq!(list.to_short_string(), "");
    assert_eq!(list.next_identifier(), 1);
}

#[test]
fn push_keeps_display_order() {
    let mut list = TaskList::new();
    list.push(todolist::Task::new(5, "late", ""));
    list.push(todolist::Task::new(2, "early", ""));
    let nums: Vec<u16> = list.tasks().iter().map(|t| t.num).collect();
    assert_eq!(nums, vec![2, 5]);
    list.new_task("next", "");
    assert_eq!(list.tasks()[2].num, 6);
}

#[test]
fn mutations_keep_incomplete_before_complete() {
    let mut list = TaskList::new();
    for name in ["a", "b", "c", "d"] {
        list.new_task(name, "");
    }
    list.complete(1);
    list.complete(3);
    list.delete(2);
    let ts = list.tasks();
    let flags: Vec<bool> = ts.iter().map(|t| t.complete).collect();
    let nums: Vec<u16> = ts.iter().map(|t| t.num).collect();
    assert_eq!(flags, vec![false, true, true]);
    assert_eq!(nums, vec![4, 1, 3]);
    assert!(list.is_well_formed());
}

#[test]
fn next_identifier_near_the_top_of_the_range() {
    let mut list = TaskList::new();
    list.push(todolist::Task::new(u16::MAX - 1, "near the top", ""));
    assert_eq!(list.next_identifier(), u16::MAX);
}
