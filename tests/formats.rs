use todo_list::codec::{load_tasks, save_tasks};
use todo_list::date::Date;
use todo_list::input::{
    confirms, parse_due_date, parse_menu_choice, parse_position, parse_priority,
    push_description_line, MenuChoice,
};
use todo_list::json::{import_json, ImportProblem};
use todo_list::list::TaskError;
use todo_list::task::Task;
use todo_list::text::{decimal_text, matches_folded, trim};

#[test]
fn test_save_and_load() {
    let mut tasks = Vec::new();
    tasks.push(Task {
        description: "Test Save".to_string(),
        completed: false,
        priority: Some(1),
        due_date: None,
    });
    let text = save_tasks(&tasks);
    let loaded = load_tasks(Some(text.as_str()));
    assert_eq!(loaded.tasks.len(), 1);
    assert_eq!(loaded.tasks[0].description, "Test Save");
}

#[test]
fn save_writes_pipe_separated_lines() {
    let mut done = Task::new("two\nlines".to_string(), None, Some(Date { year: 2024, month: 3, day: 5 }));
    done.completed = true;
    let tasks = vec![Task::new("Buy milk".to_string(), Some(2), None), done];
    assert_eq!(save_tasks(&tasks), "Buy milk|0|2|\ntwo\\nlines|1||2024-03-05\n");
    assert_eq!(save_tasks(&Vec::new()), "");
}

#[test]
fn save_then_load_round_trips() {
    let mut a = Task::new("multi\nline task".to_string(), Some(5), Some(Date { year: 2024, month: 2, day: 29 }));
    a.completed = true;
    let b = Task::new("plain".to_string(), None, None);
    let c = Task::new("far".to_string(), Some(1), Some(Date { year: 12345, month: 1, day: 31 }));
    let tasks = vec![a, b, c];
    let loaded = load_tasks(Some(save_tasks(&tasks).as_str()));
    assert_eq!(loaded.skipped, 0);
    assert_eq!(loaded.tasks, tasks);
}

#[test]
fn load_of_missing_file_is_empty() {
    let loaded = load_tasks(None);
    assert!(loaded.tasks.is_empty());
    assert_eq!(loaded.skipped, 0);
}

#[test]
fn load_skips_short_lines_and_counts_them() {
    let text = "good|1|3|2024-01-02\nno fields here\n\nalso|0\r\nlast|0|x|not a date";
    let loaded = load_tasks(Some(text));
    assert_eq!(loaded.skipped, 2);
    assert_eq!(loaded.tasks.len(), 3);
    assert_eq!(loaded.tasks[0], Task {
        description: "good".to_string(),
        completed: true,
        priority: Some(3),
        due_date: Some(Date { year: 2024, month: 1, day: 2 }),
    });
    assert_eq!(loaded.tasks[1].description, "also");
    assert!(!loaded.tasks[1].completed);
    assert_eq!(loaded.tasks[2].priority, None);
    assert_eq!(loaded.tasks[2].due_date, None);
}

#[test]
fn load_drops_priorities_outside_range() {
    let loaded = load_tasks(Some("a|0|9|\nb|0|+4|\nc|0|0|\nd|0|300|\n"));
    let prios: Vec<Option<u8>> = loaded.tasks.iter().map(|t| t.priority).collect();
    assert_eq!(prios, vec![None, Some(4), None, None]);
}

#[test]
fn load_reads_only_exact_one_as_done() {
    let loaded = load_tasks(Some("a|1\nb|11\nc|yes\nd|\n"));
    let done: Vec<bool> = loaded.tasks.iter().map(|t| t.completed).collect();
    assert_eq!(done, vec![true, false, false, false]);
}

#[test]
fn load_of_empty_text_is_empty() {
    let loaded = load_tasks(Some(""));
    assert!(loaded.tasks.is_empty());
    assert_eq!(loaded.skipped, 0);
}

#[test]
fn import_keeps_a_well_formed_list() {
    let tasks = vec![
        Task::new("a".to_string(), Some(3), None),
        Task::new("b".to_string(), None, Some(Date { year: 2024, month: 1, day: 1 })),
    ];
    let imported = import_json(Ok(tasks.clone()));
    assert_eq!(imported.tasks, tasks);
    assert_eq!(imported.problem, None);
}

#[test]
fn import_problems_give_no_tasks() {
    let bad = vec![Task::new("a".to_string(), Some(7), None)];
    let imported = import_json(Ok(bad));
    assert!(imported.tasks.is_empty());
    assert_eq!(imported.problem, Some(ImportProblem::InvalidTask));
    let imported = import_json(Err(ImportProblem::Unparsable));
    assert!(imported.tasks.is_empty());
    assert_eq!(imported.problem, Some(ImportProblem::Unparsable));
    let imported = import_json(Err(ImportProblem::Unreadable));
    assert_eq!(imported.problem, Some(ImportProblem::Unreadable));
}

#[test]
fn menu_choices() {
    assert_eq!(parse_menu_choice("1\n"), Some(MenuChoice::Add));
    assert_eq!(parse_menu_choice("  13 "), Some(MenuChoice::Exit));
    assert_eq!(parse_menu_choice("11"), Some(MenuChoice::Undo));
    assert_eq!(parse_menu_choice("14"), None);
    assert_eq!(parse_menu_choice("0"), None);
    assert_eq!(parse_menu_choice("01"), None);
    assert_eq!(parse_menu_choice("+1"), None);
    assert_eq!(parse_menu_choice("add"), None);
    assert_eq!(parse_menu_choice(""), None);
    assert!(MenuChoice::Sort.takes_snapshot());
    assert!(MenuChoice::Add.takes_snapshot());
    assert!(!MenuChoice::View.takes_snapshot());
    assert!(!MenuChoice::Undo.takes_snapshot());
}

#[test]
fn positions_must_lie_in_range() {
    assert_eq!(parse_position(" 2\n", 3), Some(2));
    assert_eq!(parse_position("3", 3), Some(3));
    assert_eq!(parse_position("4", 3), None);
    assert_eq!(parse_position("0", 3), None);
    assert_eq!(parse_position("-1", 3), None);
    assert_eq!(parse_position("two", 3), None);
    assert_eq!(parse_position("99999999999999999999999", 3), None);
}

#[test]
fn priority_input() {
    assert_eq!(parse_priority(""), Ok(None));
    assert_eq!(parse_priority("  \n"), Ok(None));
    assert_eq!(parse_priority(" 3 "), Ok(Some(3)));
    assert_eq!(parse_priority("6"), Err(TaskError::PriorityOutOfRange));
    assert_eq!(parse_priority("0"), Err(TaskError::PriorityOutOfRange));
    assert_eq!(parse_priority("256"), Err(TaskError::NotANumber));
    assert_eq!(parse_priority("high"), Err(TaskError::NotANumber));
}

#[test]
fn due_date_input() {
    assert_eq!(parse_due_date(" \n"), Ok(None));
    assert_eq!(
        parse_due_date("2024-03-05\n"),
        Ok(Some(Date { year: 2024, month: 3, day: 5 }))
    );
    assert_eq!(parse_due_date("2023-02-29"), Err(TaskError::MalformedDate));
    assert_eq!(parse_due_date("2024-13-01"), Err(TaskError::MalformedDate));
    assert_eq!(parse_due_date("tomorrow"), Err(TaskError::MalformedDate));
}

#[test]
fn confirmation_answers() {
    assert!(confirms("y\n"));
    assert!(confirms(" Y "));
    assert!(!confirms("yes"));
    assert!(!confirms("n"));
    assert!(!confirms(""));
}

#[test]
fn multi_line_description_entry() {
    let mut d = String::new();
    assert!(!push_description_line(&mut d, "first line  \n"));
    assert!(!push_description_line(&mut d, "second"));
    assert!(push_description_line(&mut d, ".  \n"));
    assert_eq!(d, "first line\nsecond");
    let mut e = String::new();
    assert!(push_description_line(&mut e, "."));
    assert_eq!(e, "");
}

#[test]
fn dates_know_leap_years_and_ranges() {
    assert!(Date::new(2024, 2, 29).is_some());
    assert!(Date::new(2000, 2, 29).is_some());
    assert!(Date::new(1900, 2, 29).is_none());
    assert!(Date::new(2023, 2, 29).is_none());
    assert!(Date::new(2023, 4, 31).is_none());
    assert!(Date::new(2023, 12, 31).is_some());
    assert!(Date::new(2023, 0, 1).is_none());
    assert!(Date::new(2023, 13, 1).is_none());
    assert!(Date::new(-4, 2, 29).is_some());
    assert!(Date::new(262142, 12, 31).is_some());
    assert!(Date::new(262143, 1, 1).is_none());
    assert!(Date::new(-262143, 1, 1).is_some());
    assert!(Date::new(-262144, 12, 31).is_none());
    let a = Date { year: 2024, month: 1, day: 31 };
    let b = Date { year: 2024, month: 2, day: 1 };
    assert!(a.is_before(&b));
    assert!(!b.is_before(&a));
    assert!(!a.is_before(&a));
    assert_eq!(a.ordinal(), 20240131);
}

#[test]
fn text_helpers() {
    assert_eq!(decimal_text(0), "0");
    assert_eq!(decimal_text(255), "255");
    assert_eq!(decimal_text(u64::MAX), "18446744073709551615");
    assert_eq!(trim("\u{2003} a b \t\n"), "a b");
    assert!(matches_folded("buy milk", "milk"));
    assert!(!matches_folded("buy milk", "Milk"));
    assert!(matches_folded("abc", ""));
    assert!(!matches_folded("ab", "abc"));
}

#[test]
fn dates_at_the_ends_of_the_range_are_written() {
    let first = Task::new("a".to_string(), None, Some(Date { year: -262143, month: 1, day: 1 }));
    let last = Task::new("b".to_string(), None, Some(Date { year: 262142, month: 12, day: 31 }));
    let leap = Task::new("c".to_string(), None, Some(Date { year: -4, month: 2, day: 29 }));
    let text = save_tasks(&vec![first, last, leap]);
    assert_eq!(text, "a|0||-262143-01-01\nb|0||+262142-12-31\nc|0||-0004-02-29\n");
    let loaded = load_tasks(Some(text.as_str()));
    assert_eq!(loaded.tasks[0].due_date, Some(Date { year: -262143, month: 1, day: 1 }));
    assert_eq!(loaded.tasks[1].due_date, Some(Date { year: 262142, month: 12, day: 31 }));
    assert_eq!(loaded.tasks[2].due_date, Some(Date { year: -4, month: 2, day: 29 }));
}
