use pair_mutations::history_handler::{build_log_update, format_date, parse_line_date, prune_cutoff, prune_log_lines, RETENTION_DAYS};

fn s(x: &str) -> String {
    x.to_string()
}

#[test]
fn parse_accepts_date_lines() {
    assert_eq!(parse_line_date("2024-01-03 A+B C"), Some(20240103));
    assert_eq!(parse_line_date("2024-01-03"), Some(20240103));
    assert_eq!(parse_line_date("0001-12-31 x"), Some(11231));
}

#[test]
fn parse_rejects_malformed_lines() {
    assert_eq!(parse_line_date(""), None);
    assert_eq!(parse_line_date("notadate A+B"), None);
    assert_eq!(parse_line_date("2024-1-03 A+B"), None);
    assert_eq!(parse_line_date("2024-13-03 A+B"), None);
    assert_eq!(parse_line_date("2024-12-32 A+B"), None);
    assert_eq!(parse_line_date("2024-00-10 A+B"), None);
    assert_eq!(parse_line_date("2024-01-00 A+B"), None);
    assert_eq!(parse_line_date("2024-01-03x A+B"), None);
    assert_eq!(parse_line_date("2024+01-03 A+B"), None);
}

#[test]
fn format_zero_pads() {
    assert_eq!(format_date(2024, 3, 7), "2024-03-07");
    assert_eq!(format_date(1, 12, 31), "0001-12-31");
}

#[test]
fn format_then_parse_round_trips() {
    let token = format_date(2026, 10, 11);
    assert_eq!(parse_line_date(&token), Some(20261011));
}

#[test]
fn cutoff_steps_over_month_boundary() {
    assert_eq!(prune_cutoff(2024, 3, 15, 30), Some(20240214));
}

#[test]
fn cutoff_honours_leap_february() {
    assert_eq!(prune_cutoff(2024, 3, 1, 30), Some(20240131));
    assert_eq!(prune_cutoff(2023, 3, 1, 30), Some(20230130));
}

#[test]
fn cutoff_rejects_invalid_date() {
    assert_eq!(prune_cutoff(2024, 13, 1, 30), None);
    assert_eq!(prune_cutoff(2023, 2, 29, 30), None);
}

#[test]
fn prune_keeps_recent_reports_malformed() {
    let lines = vec![
        s("2024-02-09 A+B"),
        s(""),
        s("garbled line"),
        s("2024-03-05 A+C B"),
    ];
    let (kept, malformed) = prune_log_lines(&lines, 20240214);
    assert_eq!(kept, vec![s("2024-03-05 A+C B")]);
    assert_eq!(malformed, vec![s("garbled line")]);
}

#[test]
fn log_pruning_scenario() {
    // Appending on day D = 2024-03-15 with lines dated D-35 and D-10 keeps
    // only the D-10 line, plus the new D line.
    let existing = vec![s("2024-02-09 A+B C+D"), s("2024-03-05 A+C B+D")];
    let update = build_log_update(&existing, 2024, 3, 15, "A+D B+C").unwrap();
    assert_eq!(update.retained, vec![s("2024-03-05 A+C B+D")]);
    assert!(update.malformed.is_empty());
    assert_eq!(update.new_line, "2024-03-15 A+D B+C");
}

#[test]
fn log_update_boundary_line_is_kept() {
    // A line exactly RETENTION_DAYS old sits on the cutoff and survives.
    assert_eq!(RETENTION_DAYS, 30);
    let existing = vec![s("2024-02-14 A+B"), s("2024-02-13 C+D")];
    let update = build_log_update(&existing, 2024, 3, 15, "A+C").unwrap();
    assert_eq!(update.retained, vec![s("2024-02-14 A+B")]);
}

#[test]
fn log_update_rejects_impossible_today() {
    let existing: Vec<String> = Vec::new();
    assert!(build_log_update(&existing, 2024, 2, 30, "A+B").is_none());
}
