use todolist::{Task, TaskList};

#[test]
fn short_rendering_pads_the_identifier() {
    assert_eq!(Task::new(1, "Buy milk", "").to_short_string(), "  1: Buy milk");
    assert_eq!(Task::new(12, "a", "").to_short_string(), " 12: a");
    assert_eq!(Task::new(123, "a", "").to_short_string(), "123: a");
    assert_eq!(Task::new(1234, "a", "").to_short_string(), "1234: a");
}

#[test]
fn full_rendering_empty_description() {
    assert_eq!(Task::new(1, "Buy milk", "").to_string(), "  1: Buy milk  ");
}

#[test]
fn full_rendering_one_character_description() {
    assert_eq!(Task::new(1, "Buy milk", "x").to_string(), "  1: Buy milk x ");
}

#[test]
fn full_rendering_two_character_description() {
    assert_eq!(
        Task::new(1, "Buy milk", "xy").to_string(),
        "  1: Buy milk \n      xy \n      "
    );
}

#[test]
fn short_colored_rendering_incomplete() {
    assert_eq!(
        Task::new(1, "Buy milk", "").to_short_colored(),
        "\u{1b}[1;31m  1\u{1b}[0m: \u{1b}[4;37mBuy milk\u{1b}[0m"
    );
}

#[test]
fn short_colored_rendering_complete() {
    let mut list = TaskList::new();
    list.new_task("Buy milk", "");
    list.complete(1);
    assert_eq!(
        list.to_short_colored(),
        "\u{1b}[1;32m  1\u{1b}[0m: \u{1b}[4;37mBuy milk\u{1b}[0m\n"
    );
}

#[test]
fn colored_rendering_matches_the_styling_crate() {
    let t = Task::new(1, "Buy milk", "");
    let expected = format!(
        "{}: {}",
        ansi_term::Colour::Red.bold().paint("  1"),
        ansi_term::Colour::White.underline().paint("Buy milk"),
    );
    assert_eq!(t.to_short_colored(), expected);
}

#[test]
fn full_colored_rendering_long_description() {
    assert_eq!(
        Task::new(1, "Buy milk", "xy").to_colored(),
        "\u{1b}[1;31m  1\u{1b}[0m: \u{1b}[4;37mBuy milk\u{1b}[0m \n      \u{1b}[37mxy\u{1b}[0m \n      "
    );
}

#[test]
fn full_colored_rendering_empty_description() {
    assert_eq!(
        Task::new(1, "Buy milk", "").to_colored(),
        "\u{1b}[1;31m  1\u{1b}[0m: \u{1b}[4;37mBuy milk\u{1b}[0m \u{1b}[37m\u{1b}[0m "
    );
}

#[test]
fn list_renderings_of_empty_list_are_empty() {
    let list = TaskList::new();
    assert_eq!(list.to_short_string(), "");
    assert_eq!(list.to_short_colored(), "");
    assert_eq!(list.to_string(), "");
    assert_eq!(list.to_colored(), "");
}

#[test]
fn list_full_rendering_concatenates_lines() {
    let mut list = TaskList::new();
    list.new_task("Buy milk", "");
    list.new_task("Walk dog", "daily");
    assert_eq!(
        list.to_string(),
        "  1: Buy milk  \n  2: Walk dog \n      daily \n      \n"
    );
}
