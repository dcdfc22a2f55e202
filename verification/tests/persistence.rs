use todolist::codec::deserialize;
use todolist::TaskList;

fn snapshot(list: &TaskList) -> Vec<(bool, u16, String, String)> {
    list.tasks()
        .iter()
        .map(|t| (t.complete, t.num, t.task.clone(), t.description.clone()))
        .collect()
}

#[test]
fn serialize_one_task_exact_text() {
    let mut list = TaskList::new();
    list.new_task("a", "");
    assert_eq!(list.serialize(), "1 0 1 a 0 \n");
}

#[test]
fn serialize_then_deserialize_restores_the_tasks() {
    let mut list = TaskList::new();
    list.new_task("Buy milk", "");
    list.new_task("Walk dog", "daily walk\nwith a leash");
    list.complete(1);
    let text = list.serialize();
    let back = deserialize(&text).expect("an encoded list decodes");
    assert_eq!(snapshot(&back), snapshot(&list));
}

#[test]
fn round_trip_of_empty_list() {
    let list = TaskList::new();
    let text = list.serialize();
    assert_eq!(text, "");
    let back = deserialize(&text).expect("an empty encoding decodes");
    assert_eq!(back.tasks().len(), 0);
}

#[test]
fn round_trip_keeps_unusual_titles() {
    let mut list = TaskList::new();
    list.new_task("7 0 7", "digits and spaces");
    list.new_task("", "");
    list.new_task("newline\nin title", "ünïcödé");
    let text = list.serialize();
    let back = deserialize(&text).expect("an encoded list decodes");
    assert_eq!(snapshot(&back), snapshot(&list));
}

#[test]
fn deserialize_rejects_malformed_text() {
    assert!(deserialize("hello").is_none());
    assert!(deserialize("1 0 1 a 0").is_none());
    assert!(deserialize("1 2 1 a 0 \n").is_none());
    assert!(deserialize("99999 0 1 a 0 \n").is_none());
}

#[test]
fn deserialize_rejects_unordered_tasks() {
    assert!(deserialize("2 0 1 a 0 \n1 0 1 b 0 \n").is_none());
}

#[test]
fn deserialize_rejects_duplicate_identifiers() {
    assert!(deserialize("1 0 1 a 0 \n1 1 1 b 0 \n").is_none());
}

#[test]
fn deserialize_accepts_a_well_formed_encoding() {
    let back = deserialize("1 0 1 a 0 \n2 0 1 b 2 hi\n").expect("well-formed");
    let nums: Vec<u16> = back.tasks().iter().map(|t| t.num).collect();
    assert_eq!(nums, vec![1, 2]);
    assert_eq!(back.tasks()[1].description, "hi");
}
