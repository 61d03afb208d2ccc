use todo_list::codec::{format_tasks, parse_tasks};
use todo_list::task::Todo;

fn todo(id: usize, description: &str, done: bool) -> Todo {
    Todo { id, description: description.to_string(), done }
}

#[test]
fn format_writes_one_line_per_task() {
    let tasks = vec![todo(10, "alpha", true), todo(205, "beta gamma", false)];
    assert_eq!(format_tasks(&tasks), "10, alpha, true\n205, beta gamma, false\n");
}

#[test]
fn format_of_no_tasks_is_empty() {
    assert_eq!(format_tasks(&Vec::new()), "");
}

#[test]
fn parse_trims_fields() {
    assert_eq!(parse_tasks("  12 ,   spaced out\t,  true  "), vec![todo(12, "spaced out", true)]);
}

#[test]
fn parse_accepts_plus_sign_and_leading_zeros() {
    assert_eq!(parse_tasks("+7, a, false\n007, b, true"), vec![todo(7, "a", false), todo(7, "b", true)]);
}

#[test]
fn parse_rejects_bad_numbers() {
    assert!(parse_tasks("-1, a, false").is_empty());
    assert!(parse_tasks("+, a, false").is_empty());
    assert!(parse_tasks(", a, false").is_empty());
    assert!(parse_tasks("1x, a, false").is_empty());
    assert!(parse_tasks("1 2, a, false").is_empty());
}

#[test]
fn parse_rejects_id_without_successor() {
    let max = format!("{}, a, false", usize::MAX);
    assert!(parse_tasks(&max).is_empty());
    let below = format!("{}, a, false", usize::MAX - 1);
    assert_eq!(parse_tasks(&below), vec![todo(usize::MAX - 1, "a", false)]);
    assert!(parse_tasks("99999999999999999999999999, a, false").is_empty());
}

#[test]
fn parse_flags_are_exact() {
    assert!(parse_tasks("1, a, True").is_empty());
    assert!(parse_tasks("1, a, yes").is_empty());
    assert!(parse_tasks("1, a, ").is_empty());
}

#[test]
fn description_with_comma_is_rejected() {
    assert!(parse_tasks("1, a, b, true").is_empty());
}

#[test]
fn parse_needs_three_fields() {
    assert!(parse_tasks("1, a").is_empty());
    assert!(parse_tasks("garbage,line").is_empty());
    assert!(parse_tasks("").is_empty());
    assert!(parse_tasks("\n\n").is_empty());
}

#[test]
fn parse_handles_crlf_line_ends() {
    assert_eq!(
        parse_tasks("1, a, false\r\n2, b, true\r\n"),
        vec![todo(1, "a", false), todo(2, "b", true)]
    );
}

#[test]
fn parse_keeps_non_ascii_text() {
    assert_eq!(parse_tasks("3,\u{3000}café ☕\u{a0}, true"), vec![todo(3, "café ☕", true)]);
}

#[test]
fn last_line_needs_no_newline() {
    assert_eq!(parse_tasks("1, a, false\n2, b, true"), vec![todo(1, "a", false), todo(2, "b", true)]);
}

#[test]
fn format_then_parse_round_trips() {
    let tasks = vec![todo(1, "x", false), todo(0, "zero id", true), todo(123456789, "big", false)];
    assert_eq!(parse_tasks(&format_tasks(&tasks)), tasks);
}
