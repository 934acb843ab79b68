use todo_list::date::Date;
use todo_list::list::{SortKey, TaskError, TaskList, ViewFilter};
use todo_list::task::{line_text, Segment, Task, Tone};

fn today() -> Date {
    Date { year: 2024, month: 6, day: 15 }
}

fn lines(list: &TaskList, filter: ViewFilter) -> Vec<String> {
    list.view_tasks(filter, &today())
        .iter()
        .map(|segs| line_text(segs))
        .collect()
}

fn descriptions(list: &TaskList) -> Vec<String> {
    list.tasks().iter().map(|t| t.description.clone()).collect()
}

#[test]
fn test_add_and_mark_complete() {
    let mut tasks = Vec::new();
    tasks.push(Task {
        description: "Test".to_string(),
        completed: false,
        priority: Some(2),
        due_date: None,
    });
    assert_eq!(tasks.len(), 1);
    tasks[0].completed = true;
    assert!(tasks[0].completed);
}

#[test]
fn add_then_view_shows_one_pending_line() {
    let mut list = TaskList::new();
    assert_eq!(list.add_task("Buy milk", Some(2), None), Ok(()));
    let shown = lines(&list, ViewFilter::All);
    assert_eq!(shown, vec!["[ ] 1. Buy milk (Priority: 2)".to_string()]);
    assert!(!list.tasks()[0].completed);
}

#[test]
fn add_to_a_longer_list_adds_exactly_one_entry() {
    let mut list = TaskList::new();
    list.add_task("first", Some(1), None).unwrap();
    list.add_task("second", None, None).unwrap();
    let before = lines(&list, ViewFilter::All).len();
    list.add_task("  third  ", Some(5), None).unwrap();
    let after = lines(&list, ViewFilter::All);
    assert_eq!(after.len(), before + 1);
    assert_eq!(after[2], "[ ] 3. third (Priority: 5)");
    assert_eq!(list.positions(ViewFilter::Pending), vec![0, 1, 2]);
}

#[test]
fn add_trims_the_description() {
    let mut list = TaskList::new();
    list.add_task(" \t Buy milk \n", None, None).unwrap();
    assert_eq!(list.tasks()[0].description, "Buy milk");
}

#[test]
fn add_rejects_blank_description() {
    let mut list = TaskList::new();
    assert_eq!(list.add_task("   \n ", Some(2), None), Err(TaskError::EmptyDescription));
    assert_eq!(list.add_task("", None, None), Err(TaskError::EmptyDescription));
    assert!(list.is_empty());
}

#[test]
fn add_rejects_priority_out_of_range() {
    let mut list = TaskList::new();
    assert_eq!(list.add_task("a", Some(0), None), Err(TaskError::PriorityOutOfRange));
    assert_eq!(list.add_task("a", Some(6), None), Err(TaskError::PriorityOutOfRange));
    assert_eq!(list.len(), 0);
}

#[test]
fn add_rejects_a_date_that_does_not_exist() {
    let mut list = TaskList::new();
    let bad = Date { year: 2023, month: 2, day: 29 };
    assert_eq!(list.add_task("a", None, Some(bad)), Err(TaskError::InvalidDate));
    assert_eq!(list.len(), 0);
}

#[test]
fn add_unique_rejects_same_description_and_priority() {
    let mut list = TaskList::new();
    list.add_unique_task("Call mom", Some(3), None).unwrap();
    assert_eq!(list.add_unique_task(" Call mom ", Some(3), None), Err(TaskError::Duplicate));
    assert_eq!(list.add_unique_task("Call mom", Some(4), None), Ok(()));
    assert_eq!(list.len(), 2);
    assert_eq!(list.add_unique_task("  ", Some(3), None), Err(TaskError::EmptyDescription));
}

#[test]
fn remove_middle_of_three() {
    let mut list = TaskList::new();
    for d in ["A", "B", "C"] {
        list.add_task(d, None, None).unwrap();
    }
    let removed = list.remove_task(2).unwrap();
    assert_eq!(removed.description, "B");
    assert_eq!(descriptions(&list), vec!["A", "C"]);
    assert_eq!(
        lines(&list, ViewFilter::All),
        vec!["[ ] 1. A".to_string(), "[ ] 2. C".to_string()]
    );
}

#[test]
fn remove_shifts_later_tasks_down() {
    let mut list = TaskList::new();
    for d in ["a", "b", "c", "d", "e"] {
        list.add_task(d, None, None).unwrap();
    }
    list.remove_task(1).unwrap();
    assert_eq!(descriptions(&list), vec!["b", "c", "d", "e"]);
    list.remove_task(4).unwrap();
    assert_eq!(descriptions(&list), vec!["b", "c", "d"]);
}

#[test]
fn remove_rejects_out_of_range() {
    let mut list = TaskList::new();
    list.add_task("only", None, None).unwrap();
    assert_eq!(list.remove_task(0).unwrap_err(), TaskError::InvalidPosition);
    assert_eq!(list.remove_task(2).unwrap_err(), TaskError::InvalidPosition);
    assert_eq!(list.len(), 1);
    let mut empty = TaskList::new();
    assert_eq!(empty.remove_task(1).unwrap_err(), TaskError::InvalidPosition);
}

#[test]
fn toggle_twice_restores_state() {
    let mut list = TaskList::new();
    list.add_task("a", None, None).unwrap();
    list.add_task("b", Some(1), None).unwrap();
    assert_eq!(list.toggle_complete(2), Ok(true));
    assert!(list.tasks()[1].completed);
    assert_eq!(list.toggle_complete(2), Ok(false));
    assert!(!list.tasks()[1].completed);
    assert!(!list.tasks()[0].completed);
    assert_eq!(list.toggle_complete(3), Err(TaskError::InvalidPosition));
}

#[test]
fn mark_complete_sets_done() {
    let mut list = TaskList::new();
    list.add_task("a", None, None).unwrap();
    assert_eq!(list.mark_complete(1), Ok(()));
    assert_eq!(list.mark_complete(1), Ok(()));
    assert!(list.tasks()[0].completed);
    assert_eq!(list.mark_complete(0), Err(TaskError::InvalidPosition));
}

#[test]
fn edit_replaces_description_only() {
    let mut list = TaskList::new();
    list.add_task("old", Some(4), None).unwrap();
    assert_eq!(list.edit_task(1, "  new text "), Ok(()));
    assert_eq!(list.tasks()[0].description, "new text");
    assert_eq!(list.tasks()[0].priority, Some(4));
    assert_eq!(list.edit_task(1, "   "), Err(TaskError::EmptyDescription));
    assert_eq!(list.edit_task(2, "x"), Err(TaskError::InvalidPosition));
    assert_eq!(list.tasks()[0].description, "new text");
}

#[test]
fn change_priority_checks_position_then_range() {
    let mut list = TaskList::new();
    list.add_task("a", None, None).unwrap();
    assert_eq!(list.change_priority(1, 5), Ok(()));
    assert_eq!(list.tasks()[0].priority, Some(5));
    assert_eq!(list.change_priority(1, 0), Err(TaskError::PriorityOutOfRange));
    assert_eq!(list.change_priority(1, 6), Err(TaskError::PriorityOutOfRange));
    assert_eq!(list.change_priority(2, 9), Err(TaskError::InvalidPosition));
    assert_eq!(list.tasks()[0].priority, Some(5));
}

#[test]
fn sort_by_priority_orders_ascending() {
    let mut list = TaskList::new();
    list.add_task("three", Some(3), None).unwrap();
    list.add_task("one", Some(1), None).unwrap();
    list.add_task("five", Some(5), None).unwrap();
    list.sort_tasks(SortKey::Priority);
    let prios: Vec<Option<u8>> = list.tasks().iter().map(|t| t.priority).collect();
    assert_eq!(prios, vec![Some(1), Some(3), Some(5)]);
}

#[test]
fn sort_is_stable_and_puts_unset_last() {
    let mut list = TaskList::new();
    list.add_task("none-1", None, None).unwrap();
    list.add_task("two-a", Some(2), None).unwrap();
    list.add_task("one", Some(1), None).unwrap();
    list.add_task("two-b", Some(2), None).unwrap();
    list.add_task("none-2", None, None).unwrap();
    list.sort_tasks(SortKey::Priority);
    assert_eq!(descriptions(&list), vec!["one", "two-a", "two-b", "none-1", "none-2"]);
}

#[test]
fn sort_by_status_puts_pending_first() {
    let mut list = TaskList::new();
    for d in ["a", "b", "c", "d"] {
        list.add_task(d, None, None).unwrap();
    }
    list.toggle_complete(1).unwrap();
    list.toggle_complete(3).unwrap();
    list.sort_tasks(SortKey::Status);
    assert_eq!(descriptions(&list), vec!["b", "d", "a", "c"]);
}

#[test]
fn sort_by_due_date_puts_missing_dates_last() {
    let mut list = TaskList::new();
    list.add_task("none", None, None).unwrap();
    list.add_task("late", None, Some(Date { year: 2025, month: 1, day: 2 })).unwrap();
    list.add_task("early", None, Some(Date { year: 2024, month: 12, day: 31 })).unwrap();
    list.add_task("far", None, Some(Date { year: 10000, month: 1, day: 1 })).unwrap();
    list.add_task("last day", None, Some(Date { year: 9999, month: 12, day: 31 })).unwrap();
    list.sort_tasks(SortKey::DueDate);
    assert_eq!(descriptions(&list), vec!["early", "late", "last day", "far", "none"]);
}

#[test]
fn search_ignores_case_and_reports_positions() {
    let mut list = TaskList::new();
    list.add_task("Buy milk", None, None).unwrap();
    list.add_task("Walk dog", None, None).unwrap();
    list.add_task("MILKSHAKE", None, None).unwrap();
    assert_eq!(list.search_tasks("  MiLk "), vec![0, 2]);
    list.add_task("ÉCOLE", None, None).unwrap();
    assert_eq!(list.search_tasks("école"), vec![3]);
    assert_eq!(list.search_tasks("cat"), Vec::<usize>::new());
    assert_eq!(list.search_tasks(""), vec![0, 1, 2, 3]);
}

#[test]
fn view_filters_keep_whole_list_numbers() {
    let mut list = TaskList::new();
    for d in ["a", "b", "c"] {
        list.add_task(d, None, None).unwrap();
    }
    list.toggle_complete(2).unwrap();
    assert_eq!(lines(&list, ViewFilter::Completed), vec!["[x] 2. b".to_string()]);
    assert_eq!(
        lines(&list, ViewFilter::Pending),
        vec!["[ ] 1. a".to_string(), "[ ] 3. c".to_string()]
    );
}

#[test]
fn display_colours_and_due_dates() {
    let overdue = Task::new("pay".to_string(), Some(1), Some(Date { year: 2024, month: 3, day: 5 }));
    let segs = overdue.display(6, &today());
    assert_eq!(line_text(&segs), "[ ] 7. pay (Priority: 1) (Due: 2024-03-05)");
    let tones: Vec<Tone> = segs.iter().map(|s: &Segment| s.tone).collect();
    assert_eq!(
        tones,
        vec![Tone::Yellow, Tone::Normal, Tone::Normal, Tone::Red, Tone::Red]
    );
    let mut done = overdue.clone();
    done.completed = true;
    done.priority = Some(3);
    let segs = done.display(0, &today());
    let tones: Vec<Tone> = segs.iter().map(|s| s.tone).collect();
    assert_eq!(tones, vec![Tone::Green, Tone::Normal, Tone::Normal, Tone::Yellow, Tone::Cyan]);
    let later = Task::new("plan".to_string(), Some(4), Some(Date { year: 2024, month: 6, day: 15 }));
    let segs = later.display(0, &today());
    assert_eq!(segs[3].tone, Tone::Normal);
    assert_eq!(segs[4].tone, Tone::Cyan);
}

#[test]
fn display_writes_years_outside_four_digits_with_a_sign() {
    let far = Task::new("x".to_string(), None, Some(Date { year: 12345, month: 6, day: 7 }));
    assert_eq!(line_text(&far.display(0, &today())), "[ ] 1. x (Due: +12345-06-07)");
    let old = Task::new("y".to_string(), None, Some(Date { year: -1, month: 1, day: 1 }));
    assert_eq!(line_text(&old.display(0, &today())), "[ ] 1. y (Due: -0001-01-01)");
    let early = Task::new("z".to_string(), None, Some(Date { year: 33, month: 11, day: 9 }));
    assert_eq!(line_text(&early.display(0, &today())), "[ ] 1. z (Due: 0033-11-09)");
}

#[test]
fn undo_after_an_operation_restores_the_list() {
    let mut list = TaskList::new();
    list.add_task("keep", Some(2), None).unwrap();
    let before: Vec<Task> = list.tasks().clone();
    list.record();
    list.add_task("extra", None, None).unwrap();
    list.toggle_complete(1).unwrap();
    assert!(list.undo());
    assert_eq!(list.tasks(), &before);
    assert!(!list.can_undo());
}

#[test]
fn undo_with_empty_history_changes_nothing() {
    let mut list = TaskList::new();
    list.add_task("a", None, None).unwrap();
    assert!(!list.undo());
    assert_eq!(descriptions(&list), vec!["a"]);
}

#[test]
fn undo_goes_back_one_snapshot_at_a_time() {
    let mut list = TaskList::new();
    list.record();
    list.add_task("a", None, None).unwrap();
    list.record();
    list.remove_task(1).unwrap();
    assert!(list.undo());
    assert_eq!(descriptions(&list), vec!["a"]);
    assert!(list.undo());
    assert!(list.is_empty());
    assert!(!list.undo());
}

#[test]
fn replace_tasks_keeps_history() {
    let mut list = TaskList::new();
    list.add_task("a", None, None).unwrap();
    list.record();
    list.replace_tasks(vec![Task::new("b".to_string(), None, None)]);
    assert_eq!(descriptions(&list), vec!["b"]);
    assert!(list.undo());
    assert_eq!(descriptions(&list), vec!["a"]);
}

#[test]
fn from_tasks_starts_without_history() {
    let mut list = TaskList::from_tasks(vec![Task::new("a".to_string(), Some(1), None)]);
    assert_eq!(list.len(), 1);
    assert!(!list.undo());
}
