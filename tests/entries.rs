use time_tracker::{
    begin_entry, create_task, delete_entry, end_entry, entry_to_with_relations, get_running_entry,
    link_artifact, list_entries, start_entry, stop_entry, update_entry, AppError, Artifact,
    CreateTask, EntryFilter, Id, Ledger, TimeEntry, Timestamp, UpdateEntry,
};

fn text(id: Id) -> String {
    uuid::Uuid::from_u128(id.value).to_string()
}

fn at(text: &str) -> Timestamp {
    Timestamp {
        micros: chrono::DateTime::parse_from_rfc3339(text).unwrap().timestamp_micros(),
    }
}

fn running_count(ledger: &Ledger) -> usize {
    ledger.entries.iter().filter(|e| e.ended_at.is_none()).count()
}

fn ended_entry(memo: Option<&str>) -> TimeEntry {
    let mut entry = TimeEntry::start(None, memo.map(|m| m.to_string()));
    entry.ended_at = Some(Timestamp { micros: entry.started_at.micros + 1_000_000 });
    entry
}

fn add_task(ledger: &mut Ledger, name: &str, color: &str) -> Id {
    let task = create_task(
        ledger,
        CreateTask {
            name: name.to_string(),
            description: None,
            color: Some(color.to_string()),
            folder_id: None,
        },
    )
    .unwrap();
    task.id
}

#[test]
fn start_creates_running_entry() {
    let mut ledger = Ledger::new();

    let entry = start_entry(&mut ledger, None, None).unwrap();

    let fetched = ledger.entries.iter().find(|e| e.id == entry.id).unwrap();
    assert_eq!(fetched.id, entry.id);
    assert!(fetched.is_running());
}

#[test]
fn start_links_task() {
    let mut ledger = Ledger::new();
    let task_id = add_task(&mut ledger, "テスト", "#000000");

    let entry = start_entry(&mut ledger, Some(text(task_id)), None).unwrap();

    let fetched = ledger.entries.iter().find(|e| e.id == entry.id).unwrap();
    assert_eq!(fetched.task_id, Some(task_id));
}

#[test]
fn start_sets_memo() {
    let mut ledger = Ledger::new();

    let entry = start_entry(&mut ledger, None, Some("作業開始".to_string())).unwrap();

    let fetched = ledger.entries.iter().find(|e| e.id == entry.id).unwrap();
    assert_eq!(fetched.memo, Some("作業開始".to_string()));
}

#[test]
fn start_refused_while_running() {
    let mut ledger = Ledger::new();
    start_entry(&mut ledger, None, None).unwrap();

    let running = get_running_entry(&ledger).unwrap();
    assert!(running.is_some());

    let second = start_entry(&mut ledger, None, None);
    assert!(matches!(second, Err(AppError::AlreadyExists(_))));
    assert_eq!(ledger.entries.len(), 1);
}

#[test]
fn start_with_malformed_task_id_is_invalid_input() {
    let mut ledger = Ledger::new();

    let result = start_entry(&mut ledger, Some("not-a-uuid".to_string()), None);

    assert!(matches!(result, Err(AppError::InvalidInput(_))));
    assert!(ledger.entries.is_empty());
}

#[test]
fn start_conflicts_exactly_while_an_entry_runs() {
    let mut ledger = Ledger::new();
    let first = Id { value: 1 };
    let now = at("2024-12-15T09:00:00Z");

    let started = begin_entry(&mut ledger, None, None, first, now).unwrap();
    assert_eq!(started.started_at, now);
    assert_eq!(started.created_at, now);
    let conflict = begin_entry(&mut ledger, None, None, Id { value: 2 }, now);
    assert!(matches!(conflict, Err(AppError::AlreadyExists(_))));

    end_entry(&mut ledger, None, at("2024-12-15T10:00:00Z")).unwrap();
    let again = begin_entry(&mut ledger, None, None, Id { value: 2 }, at("2024-12-15T11:00:00Z"));
    assert!(again.is_ok());
}

#[test]
fn begin_with_taken_identifier_fails_without_change() {
    let mut ledger = Ledger::new();
    begin_entry(&mut ledger, None, None, Id { value: 7 }, at("2024-12-15T09:00:00Z")).unwrap();
    end_entry(&mut ledger, None, at("2024-12-15T10:00:00Z")).unwrap();

    let result = begin_entry(&mut ledger, None, None, Id { value: 7 }, at("2024-12-15T11:00:00Z"));

    assert!(matches!(result, Err(AppError::Database(_))));
    assert_eq!(ledger.entries.len(), 1);
}

#[test]
fn start_stop_sequences_never_leave_two_running() {
    let mut ledger = Ledger::new();
    let steps = [true, true, false, false, true, false, true, true, false];
    for (n, start) in steps.iter().enumerate() {
        let now = Timestamp { micros: 1_700_000_000_000_000 + n as i64 * 60_000_000 };
        if *start {
            let _ = begin_entry(&mut ledger, None, None, Id { value: n as u128 + 1 }, now);
        } else {
            let _ = end_entry(&mut ledger, None, now);
        }
        assert!(running_count(&ledger) <= 1);
    }
}

#[test]
fn stop_sets_end() {
    let mut ledger = Ledger::new();
    let entry = start_entry(&mut ledger, None, None).unwrap();

    stop_entry(&mut ledger, None).unwrap();

    let stopped = ledger.entries.iter().find(|e| e.id == entry.id).unwrap();
    assert!(!stopped.is_running());
    assert!(stopped.ended_at.is_some());
}

#[test]
fn stop_refused_for_ended_entry() {
    let mut ledger = Ledger::new();
    let entry = ended_entry(None);
    let ended_at = entry.ended_at;
    ledger.entries.push(entry.clone());

    let fetched = ledger.entries.iter().find(|e| e.id == entry.id).unwrap();
    assert!(!fetched.is_running());

    let result = stop_entry(&mut ledger, Some(text(entry.id)));
    assert!(matches!(result, Err(AppError::OperationFailed(_))));
    assert_eq!(ledger.entries[0].ended_at, ended_at);
}

#[test]
fn stop_without_running_entry_is_not_found() {
    let mut ledger = Ledger::new();

    let result = stop_entry(&mut ledger, None);

    assert!(matches!(result, Err(AppError::NotFound(_))));
}

#[test]
fn stop_of_unknown_entry_is_not_found() {
    let mut ledger = Ledger::new();

    let result = stop_entry(&mut ledger, Some(text(Id { value: 99 })));

    assert!(matches!(result, Err(AppError::NotFound(_))));
}

#[test]
fn stop_with_malformed_identifier_is_invalid_input() {
    let mut ledger = Ledger::new();
    start_entry(&mut ledger, None, None).unwrap();

    let result = stop_entry(&mut ledger, Some("xyz".to_string()));

    assert!(matches!(result, Err(AppError::InvalidInput(_))));
    assert!(ledger.entries[0].is_running());
}

#[test]
fn end_entry_sets_end_and_update_instant() {
    let mut ledger = Ledger::new();
    begin_entry(&mut ledger, None, None, Id { value: 3 }, at("2024-12-15T09:00:00Z")).unwrap();

    let stopped = end_entry(&mut ledger, Some(Id { value: 3 }), at("2024-12-15T10:30:00Z")).unwrap();

    assert_eq!(stopped.ended_at, Some(at("2024-12-15T10:30:00Z")));
    assert_eq!(stopped.updated_at, at("2024-12-15T10:30:00Z"));
    assert_eq!(stopped.duration_seconds(), Some(5400));
    assert_eq!(ledger.entries[0], stopped);
}

#[test]
fn no_running_entry_gives_none() {
    let ledger = Ledger::new();

    let result = get_running_entry(&ledger).unwrap();

    assert!(result.is_none());
}

#[test]
fn running_entry_is_returned() {
    let mut ledger = Ledger::new();
    let entry = start_entry(&mut ledger, None, Some("計測中".to_string())).unwrap();

    let running = get_running_entry(&ledger).unwrap();

    assert!(running.is_some());
    assert_eq!(running.unwrap().id, entry.id);
}

#[test]
fn empty_ledger_lists_no_entries() {
    let ledger = Ledger::new();

    let entries = list_entries(&ledger, &EntryFilter::default()).unwrap();

    assert!(entries.is_empty());
}

#[test]
fn created_entry_is_listed() {
    let mut ledger = Ledger::new();
    start_entry(&mut ledger, None, None).unwrap();

    let entries = list_entries(&ledger, &EntryFilter::default()).unwrap();

    assert_eq!(entries.len(), 1);
}

#[test]
fn entries_limit_caps_listing() {
    let mut ledger = Ledger::new();
    for _ in 0..5 {
        ledger.entries.push(ended_entry(None));
    }

    let filter = EntryFilter { limit: Some(3), ..Default::default() };
    let entries = list_entries(&ledger, &filter).unwrap();

    assert_eq!(entries.len(), 3);
}

#[test]
fn negative_limit_is_invalid_input() {
    let ledger = Ledger::new();

    let filter = EntryFilter { limit: Some(-1), ..Default::default() };

    assert!(matches!(list_entries(&ledger, &filter), Err(AppError::InvalidInput(_))));
}

#[test]
fn entries_filter_by_task() {
    let mut ledger = Ledger::new();
    let task_id = add_task(&mut ledger, "テスト", "#000000");

    let mut entry1 = ended_entry(None);
    entry1.task_id = Some(task_id);
    ledger.entries.push(entry1);
    ledger.entries.push(ended_entry(None));

    let filter = EntryFilter { task_id: Some(task_id), ..Default::default() };
    let entries = list_entries(&ledger, &filter).unwrap();
    assert_eq!(entries.len(), 1);
    assert_eq!(entries[0].task_id, Some(task_id));
}

#[test]
fn entries_listed_latest_start_first() {
    let mut ledger = Ledger::new();
    let mut entry1 = ended_entry(Some("1番目"));
    entry1.started_at = at("2024-12-15T09:00:00Z");
    ledger.entries.push(entry1);
    let mut entry2 = ended_entry(Some("2番目"));
    entry2.started_at = at("2024-12-15T09:00:01Z");
    ledger.entries.push(entry2);

    let entries = list_entries(&ledger, &EntryFilter::default()).unwrap();
    assert_eq!(entries.len(), 2);
    assert_eq!(entries[0].memo, Some("2番目".to_string()));
    assert_eq!(entries[1].memo, Some("1番目".to_string()));
}

#[test]
fn filter_by_start_bounds_is_inclusive() {
    let mut ledger = Ledger::new();
    for (n, start) in ["2024-12-01T00:00:00Z", "2024-12-10T00:00:00Z", "2024-12-20T00:00:00Z"].iter().enumerate() {
        let mut e = ended_entry(None);
        e.id = Id { value: n as u128 + 1 };
        e.started_at = at(start);
        ledger.entries.push(e);
    }

    let filter = EntryFilter {
        from: Some(at("2024-12-10T00:00:00Z")),
        to: Some(at("2024-12-20T00:00:00Z")),
        ..Default::default()
    };
    let entries = list_entries(&ledger, &filter).unwrap();

    assert_eq!(entries.len(), 2);
    assert_eq!(entries[0].id, Id { value: 3 });
    assert_eq!(entries[1].id, Id { value: 2 });
}

#[test]
fn update_changes_memo() {
    let mut ledger = Ledger::new();
    let entry = start_entry(&mut ledger, None, None).unwrap();

    let update = UpdateEntry { memo: Some("更新後のメモ".to_string()), ..Default::default() };
    update_entry(&mut ledger, text(entry.id), update).unwrap();

    let updated = ledger.entries.iter().find(|e| e.id == entry.id).unwrap();
    assert_eq!(updated.memo, Some("更新後のメモ".to_string()));
}

#[test]
fn update_changes_start() {
    let mut ledger = Ledger::new();
    let entry = start_entry(&mut ledger, None, None).unwrap();

    let new_start = Timestamp { micros: entry.started_at.micros - 3600 * 1_000_000 };
    let update = UpdateEntry { started_at: Some(new_start), ..Default::default() };
    update_entry(&mut ledger, text(entry.id), update).unwrap();

    let updated = ledger.entries.iter().find(|e| e.id == entry.id).unwrap();
    assert!(updated.started_at < entry.started_at);
}

#[test]
fn update_changes_task() {
    let mut ledger = Ledger::new();
    let new_task_id = add_task(&mut ledger, "テスト", "#000000");
    let entry = start_entry(&mut ledger, None, None).unwrap();

    let update = UpdateEntry { task_id: Some(Some(new_task_id)), ..Default::default() };
    update_entry(&mut ledger, text(entry.id), update).unwrap();

    let updated = ledger.entries.iter().find(|e| e.id == entry.id).unwrap();
    assert_eq!(updated.task_id, Some(new_task_id));
}

#[test]
fn update_can_clear_end_without_running_check() {
    let mut ledger = Ledger::new();
    start_entry(&mut ledger, None, None).unwrap();
    let entry = ended_entry(None);
    ledger.entries.push(entry.clone());

    let update = UpdateEntry { ended_at: Some(None), ..Default::default() };
    let updated = update_entry(&mut ledger, text(entry.id), update).unwrap();

    assert!(updated.is_running());
    assert_eq!(running_count(&ledger), 2);
}

#[test]
fn update_of_missing_entry_fails() {
    let mut ledger = Ledger::new();
    let non_existent_id = Id { value: uuid::Uuid::new_v4().as_u128() };

    let result = update_entry(&mut ledger, text(non_existent_id), UpdateEntry::default());

    assert!(result.is_err());
    assert!(matches!(result, Err(AppError::NotFound(_))));
}

#[test]
fn delete_removes_entry() {
    let mut ledger = Ledger::new();
    let entry = start_entry(&mut ledger, None, None).unwrap();

    delete_entry(&mut ledger, text(entry.id)).unwrap();

    assert!(ledger.entries.iter().find(|e| e.id == entry.id).is_none());
}

#[test]
fn deleting_an_entry_removes_its_links() {
    let mut ledger = Ledger::new();
    let entry = start_entry(&mut ledger, None, None).unwrap();
    let artifact = Artifact::new("テスト".to_string(), "document".to_string(), None, None);
    ledger.artifacts.push(artifact.clone());
    link_artifact(&mut ledger, text(entry.id), text(artifact.id)).unwrap();

    delete_entry(&mut ledger, text(entry.id)).unwrap();

    assert!(ledger.links.is_empty());
    assert_eq!(ledger.artifacts.len(), 1);
}

#[test]
fn delete_of_missing_entry_fails() {
    let mut ledger = Ledger::new();
    let non_existent_id = Id { value: uuid::Uuid::new_v4().as_u128() };

    let result = delete_entry(&mut ledger, text(non_existent_id));

    assert!(result.is_err());
}

#[test]
fn relations_include_task() {
    let mut ledger = Ledger::new();
    let task_id = add_task(&mut ledger, "テストタスク", "#ff0000");
    let entry = start_entry(&mut ledger, Some(text(task_id)), None).unwrap();

    let with_relations = entry_to_with_relations(&ledger, &entry);

    assert!(with_relations.task.is_some());
    assert_eq!(with_relations.task.unwrap().name, "テストタスク");
}

#[test]
fn relations_include_duration() {
    let mut ledger = Ledger::new();
    let mut entry = TimeEntry::start(None, None);
    entry.ended_at = Some(Timestamp { micros: entry.started_at.micros + 3600 * 1_000_000 });
    ledger.entries.push(entry.clone());

    let with_relations = entry_to_with_relations(&ledger, &entry);

    assert_eq!(with_relations.duration_seconds, Some(3600));
}

#[test]
fn relations_of_running_entry_have_no_duration() {
    let mut ledger = Ledger::new();
    let entry = start_entry(&mut ledger, None, None).unwrap();

    let with_relations = entry_to_with_relations(&ledger, &entry);

    assert!(with_relations.duration_seconds.is_none());
}

#[test]
fn running_entry_carries_linked_artifacts_in_link_order() {
    let mut ledger = Ledger::new();
    let entry = start_entry(&mut ledger, None, None).unwrap();
    let first = Artifact::new("a".to_string(), "document".to_string(), None, None);
    let second = Artifact::new("b".to_string(), "code".to_string(), None, None);
    ledger.artifacts.push(first.clone());
    ledger.artifacts.push(second.clone());
    link_artifact(&mut ledger, text(entry.id), text(second.id)).unwrap();
    link_artifact(&mut ledger, text(entry.id), text(first.id)).unwrap();

    let running = get_running_entry(&ledger).unwrap().unwrap();

    let names: Vec<String> = running.artifacts.iter().map(|a| a.name.clone()).collect();
    assert_eq!(names, vec!["b".to_string(), "a".to_string()]);
}
