use time_tracker::{
    get_available_months, get_monthly_report, Id, Ledger, Task, TimeEntry, Timestamp,
};

fn at(text: &str) -> Timestamp {
    Timestamp {
        micros: chrono::DateTime::parse_from_rfc3339(text).unwrap().timestamp_micros(),
    }
}

fn task(ledger: &mut Ledger, id: u128, name: &str, color: &str) {
    let mut t = Task::new(name.to_string(), None, Some(color.to_string()), None);
    t.id = Id { value: id };
    ledger.tasks.push(t);
}

fn entry(ledger: &mut Ledger, id: u128, task_id: Option<u128>, start: &str, end: Option<&str>) {
    let now = at("2025-01-01T00:00:00Z");
    ledger.entries.push(TimeEntry {
        id: Id { value: id },
        task_id: task_id.map(|value| Id { value }),
        started_at: at(start),
        ended_at: end.map(at),
        memo: None,
        created_at: now,
        updated_at: now,
    });
}

#[test]
fn empty_ledger_gives_empty_report() {
    let ledger = Ledger::new();

    let report = get_monthly_report(&ledger, 2024, 12).unwrap();

    assert_eq!(report.year, 2024);
    assert_eq!(report.month, 12);
    assert_eq!(report.total_seconds, 0);
    assert_eq!(report.total_entries, 0);
    assert!(report.task_summaries.is_empty());
    assert!(report.daily_summaries.is_empty());
}

#[test]
fn empty_month_reports_zero_working_days_and_average() {
    let mut ledger = Ledger::new();
    entry(&mut ledger, 1, None, "2024-11-15T09:00:00Z", Some("2024-11-15T10:00:00Z"));
    entry(&mut ledger, 2, None, "2024-12-15T09:00:00Z", None);

    let report = get_monthly_report(&ledger, 2024, 12).unwrap();

    assert_eq!(report.total_seconds, 0);
    assert_eq!(report.working_days, 0);
    assert_eq!(report.average_seconds_per_day, 0);
    assert!(report.task_summaries.is_empty());
    assert!(report.daily_summaries.is_empty());
}

#[test]
fn report_of_month_with_entries() {
    let mut ledger = Ledger::new();
    task(&mut ledger, 1, "テストタスク", "#ff0000");
    entry(&mut ledger, 1, Some(1), "2024-12-15T09:00:00Z", Some("2024-12-15T10:00:00Z"));

    let report = get_monthly_report(&ledger, 2024, 12).unwrap();

    assert_eq!(report.total_seconds, 3600);
    assert_eq!(report.total_entries, 1);
    assert_eq!(report.working_days, 1);
    assert_eq!(report.task_summaries.len(), 1);
    assert_eq!(report.task_summaries[0].task_name, "テストタスク");
}

#[test]
fn report_sums_by_task() {
    let mut ledger = Ledger::new();
    task(&mut ledger, 1, "タスクA", "#ff0000");
    task(&mut ledger, 2, "タスクB", "#00ff00");
    entry(&mut ledger, 1, Some(1), "2024-12-15T09:00:00Z", Some("2024-12-15T10:00:00Z"));
    entry(&mut ledger, 2, Some(1), "2024-12-15T11:00:00Z", Some("2024-12-15T12:00:00Z"));
    entry(&mut ledger, 3, Some(2), "2024-12-15T14:00:00Z", Some("2024-12-15T15:00:00Z"));

    let report = get_monthly_report(&ledger, 2024, 12).unwrap();

    assert_eq!(report.task_summaries.len(), 2);
    assert_eq!(report.task_summaries[0].task_name, "タスクA");
    assert_eq!(report.task_summaries[0].total_seconds, 7200);
    assert_eq!(report.task_summaries[0].entry_count, 2);
    assert_eq!(report.task_summaries[1].task_name, "タスクB");
    assert_eq!(report.task_summaries[1].total_seconds, 3600);
}

#[test]
fn december_example_gives_task_daily_and_monthly_figures() {
    let mut ledger = Ledger::new();
    task(&mut ledger, 1, "A", "#ff0000");
    task(&mut ledger, 2, "B", "#00ff00");
    entry(&mut ledger, 1, Some(2), "2024-12-15T14:00:00Z", Some("2024-12-15T15:00:00Z"));
    entry(&mut ledger, 2, Some(1), "2024-12-15T09:00:00Z", Some("2024-12-15T10:00:00Z"));
    entry(&mut ledger, 3, Some(1), "2024-12-15T11:00:00Z", Some("2024-12-15T12:00:00Z"));

    let report = get_monthly_report(&ledger, 2024, 12).unwrap();

    assert_eq!(report.task_summaries.len(), 2);
    assert_eq!(report.task_summaries[0].task_id, Some(Id { value: 1 }));
    assert_eq!(report.task_summaries[0].total_seconds, 7200);
    assert_eq!(report.task_summaries[0].entry_count, 2);
    assert_eq!(report.task_summaries[1].task_id, Some(Id { value: 2 }));
    assert_eq!(report.task_summaries[1].total_seconds, 3600);
    assert_eq!(report.task_summaries[1].entry_count, 1);
    assert_eq!(report.daily_summaries.len(), 1);
    assert_eq!(report.daily_summaries[0].date, "2024-12-15");
    assert_eq!(report.daily_summaries[0].total_seconds, 10800);
    assert_eq!(report.daily_summaries[0].entry_count, 3);
    assert_eq!(report.total_seconds, 10800);
    assert_eq!(report.total_entries, 3);
    assert_eq!(report.working_days, 1);
    assert_eq!(report.average_seconds_per_day, 10800);
}

#[test]
fn report_sums_by_day() {
    let mut ledger = Ledger::new();
    entry(&mut ledger, 1, None, "2024-12-15T09:00:00Z", Some("2024-12-15T10:00:00Z"));
    entry(&mut ledger, 2, None, "2024-12-16T09:00:00Z", Some("2024-12-16T11:00:00Z"));

    let report = get_monthly_report(&ledger, 2024, 12).unwrap();

    assert_eq!(report.daily_summaries.len(), 2);
    assert_eq!(report.daily_summaries[0].date, "2024-12-15");
    assert_eq!(report.daily_summaries[0].total_seconds, 3600);
    assert_eq!(report.daily_summaries[1].date, "2024-12-16");
    assert_eq!(report.daily_summaries[1].total_seconds, 7200);
}

#[test]
fn daily_rows_follow_dates_and_average_truncates() {
    let mut ledger = Ledger::new();
    entry(&mut ledger, 1, None, "2024-12-31T23:00:00Z", Some("2025-01-01T01:00:00Z"));
    entry(&mut ledger, 2, None, "2024-12-01T08:00:00Z", Some("2024-12-01T08:00:10Z"));
    entry(&mut ledger, 3, None, "2024-12-01T09:00:00Z", Some("2024-12-01T09:00:01Z"));

    let report = get_monthly_report(&ledger, 2024, 12).unwrap();

    assert_eq!(report.daily_summaries.len(), 2);
    assert_eq!(report.daily_summaries[0].date, "2024-12-01");
    assert_eq!(report.daily_summaries[0].total_seconds, 11);
    assert_eq!(report.daily_summaries[0].entry_count, 2);
    assert_eq!(report.daily_summaries[1].date, "2024-12-31");
    assert_eq!(report.daily_summaries[1].total_seconds, 7200);
    assert_eq!(report.total_seconds, 7211);
    assert_eq!(report.working_days, 2);
    assert_eq!(report.average_seconds_per_day, 3605);

    let january = get_monthly_report(&ledger, 2025, 1).unwrap();
    assert_eq!(january.total_entries, 0);
}

#[test]
fn report_sums_unclassified_entries() {
    let mut ledger = Ledger::new();
    entry(&mut ledger, 1, None, "2024-12-15T09:00:00Z", Some("2024-12-15T10:00:00Z"));

    let report = get_monthly_report(&ledger, 2024, 12).unwrap();

    assert_eq!(report.task_summaries.len(), 1);
    assert_eq!(report.task_summaries[0].task_name, "未分類");
}

#[test]
fn unclassified_row_uses_gray_and_counts_in_total() {
    let mut ledger = Ledger::new();
    task(&mut ledger, 1, "A", "#ff0000");
    entry(&mut ledger, 1, Some(1), "2024-12-15T09:00:00Z", Some("2024-12-15T10:00:00Z"));
    entry(&mut ledger, 2, None, "2024-12-16T09:00:00Z", Some("2024-12-16T09:30:00Z"));
    entry(&mut ledger, 3, Some(9), "2024-12-17T09:00:00Z", Some("2024-12-17T09:10:00Z"));

    let report = get_monthly_report(&ledger, 2024, 12).unwrap();

    let unclassified = report.task_summaries.iter().find(|t| t.task_id.is_none()).unwrap();
    assert_eq!(unclassified.task_name, "未分類");
    assert_eq!(unclassified.task_color, "#6b7280");
    assert_eq!(unclassified.total_seconds, 1800);
    let missing = report.task_summaries.iter().find(|t| t.task_id == Some(Id { value: 9 })).unwrap();
    assert_eq!(missing.task_name, "未分類");
    assert_eq!(missing.task_color, "#6b7280");
    assert_eq!(report.total_seconds, 3600 + 1800 + 600);
}

#[test]
fn available_months_are_listed() {
    let mut ledger = Ledger::new();
    entry(&mut ledger, 1, None, "2024-11-15T09:00:00Z", Some("2024-11-15T10:00:00Z"));
    entry(&mut ledger, 2, None, "2024-12-15T09:00:00Z", Some("2024-12-15T10:00:00Z"));

    let months = get_available_months(&ledger);

    assert_eq!(months.len(), 2);
    assert_eq!(months[0], (2024, 12));
    assert_eq!(months[1], (2024, 11));
}

#[test]
fn available_months_skip_running_and_repeat_once() {
    let mut ledger = Ledger::new();
    entry(&mut ledger, 1, None, "2023-12-15T09:00:00Z", Some("2023-12-15T10:00:00Z"));
    entry(&mut ledger, 2, None, "2024-02-01T09:00:00Z", Some("2024-02-01T10:00:00Z"));
    entry(&mut ledger, 3, None, "2024-02-11T09:00:00Z", Some("2024-02-11T10:00:00Z"));
    entry(&mut ledger, 4, None, "2024-05-11T09:00:00Z", None);
    entry(&mut ledger, 5, None, "2024-01-31T23:59:59Z", Some("2024-02-01T00:30:00Z"));

    let months = get_available_months(&ledger);

    assert_eq!(months, vec![(2024, 2), (2024, 1), (2023, 12)]);
}
