use time_tracker::{AppError, Artifact, EntryArtifact, Id, Task, TimeEntry, Timestamp};

fn at(text: &str) -> Timestamp {
    Timestamp {
        micros: chrono::DateTime::parse_from_rfc3339(text).unwrap().timestamp_micros(),
    }
}

#[test]
fn new_task_gets_an_identifier() {
    let task = Task::new("テスト作業".to_string(), None, None, None);

    assert!(!task.id.is_nil());
    assert_eq!(task.name, "テスト作業");
}

#[test]
fn new_task_takes_optional_description() {
    let task = Task::new(
        "設計作業".to_string(),
        Some("システム設計を行う".to_string()),
        None,
        None,
    );

    assert_eq!(task.description, Some("システム設計を行う".to_string()));
}

#[test]
fn new_task_defaults_to_blue() {
    let task = Task::new("テスト".to_string(), None, None, None);

    assert_eq!(task.color, "#3b82f6");
}

#[test]
fn new_task_takes_custom_color() {
    let task = Task::new("テスト".to_string(), None, Some("#ff0000".to_string()), None);

    assert_eq!(task.color, "#ff0000");
}

#[test]
fn new_task_is_not_archived() {
    let task = Task::new("テスト".to_string(), None, None, None);

    assert!(!task.archived);
}

#[test]
fn new_task_created_equals_updated() {
    let task = Task::new("テスト".to_string(), None, None, None);

    assert_eq!(task.created_at, task.updated_at);
}

#[test]
fn new_task_takes_folder_id() {
    let folder_id = Id { value: uuid::Uuid::new_v4().as_u128() };
    let task = Task::new("テスト".to_string(), None, None, Some(folder_id));

    assert_eq!(task.folder_id, Some(folder_id));
}

#[test]
fn valid_colors_are_accepted() {
    assert!(Task::is_valid_color("#000000"));
    assert!(Task::is_valid_color("#ffffff"));
    assert!(Task::is_valid_color("#3b82f6"));
    assert!(Task::is_valid_color("#AABBCC"));
}

#[test]
fn invalid_colors_are_rejected() {
    assert!(!Task::is_valid_color(""));
    assert!(!Task::is_valid_color("000000"));
    assert!(!Task::is_valid_color("#00000"));
    assert!(!Task::is_valid_color("#0000000"));
    assert!(!Task::is_valid_color("#gggggg"));
    assert!(!Task::is_valid_color("red"));
}

#[test]
fn color_with_multibyte_characters_is_invalid() {
    assert!(!Task::is_valid_color("#ééé"));
    assert!(!Task::is_valid_color("#12345g"));
}

#[test]
fn started_entry_gets_an_identifier() {
    let entry = TimeEntry::start(None, None);

    assert!(!entry.id.is_nil());
}

#[test]
fn started_entry_takes_optional_task() {
    let task_id = Id { value: uuid::Uuid::new_v4().as_u128() };
    let entry = TimeEntry::start(Some(task_id), None);

    assert_eq!(entry.task_id, Some(task_id));
}

#[test]
fn started_entry_takes_optional_memo() {
    let entry = TimeEntry::start(None, Some("作業メモ".to_string()));

    assert_eq!(entry.memo, Some("作業メモ".to_string()));
}

#[test]
fn started_entry_has_no_end() {
    let entry = TimeEntry::start(None, None);

    assert!(entry.ended_at.is_none());
}

#[test]
fn running_entry_is_running() {
    let entry = TimeEntry::start(None, None);

    assert!(entry.is_running());
}

#[test]
fn stopped_entry_is_not_running() {
    let mut entry = TimeEntry::start(None, None);
    entry.ended_at = Some(Timestamp { micros: chrono::Utc::now().timestamp_micros() });

    assert!(!entry.is_running());
}

#[test]
fn running_entry_has_no_duration() {
    let entry = TimeEntry::start(None, None);

    assert!(entry.duration_seconds().is_none());
}

#[test]
fn stopped_entry_duration_is_elapsed_seconds() {
    let mut entry = TimeEntry::start(None, None);
    let start = entry.started_at;
    entry.ended_at = Some(Timestamp { micros: start.micros + 3600 * 1_000_000 });

    assert_eq!(entry.duration_seconds(), Some(3600));
}

#[test]
fn duration_truncates_partial_seconds() {
    let mut entry = TimeEntry::start(None, None);
    entry.started_at = at("2024-12-15T09:00:00Z");
    entry.ended_at = Some(Timestamp { micros: entry.started_at.micros + 1_999_999 });
    assert_eq!(entry.duration_seconds(), Some(1));

    entry.ended_at = Some(entry.started_at);
    assert_eq!(entry.duration_seconds(), Some(0));

    entry.ended_at = Some(Timestamp { micros: entry.started_at.micros - 1_500_000 });
    assert_eq!(entry.duration_seconds(), Some(-1));
}

#[test]
fn duration_spans_whole_day_exactly() {
    let mut entry = TimeEntry::start(None, None);
    entry.started_at = at("2024-12-31T23:30:00Z");
    entry.ended_at = Some(at("2025-01-01T00:15:30Z"));

    assert_eq!(entry.duration_seconds(), Some(2730));
}

#[test]
fn new_artifact_gets_an_identifier() {
    let artifact = Artifact::new("設計書.pdf".to_string(), "document".to_string(), None, None);

    assert!(!artifact.id.is_nil());
}

#[test]
fn new_artifact_takes_name_and_type() {
    let artifact = Artifact::new("設計書.pdf".to_string(), "document".to_string(), None, None);

    assert_eq!(artifact.name, "設計書.pdf");
    assert_eq!(artifact.artifact_type, "document");
}

#[test]
fn new_artifact_takes_reference() {
    let artifact = Artifact::new(
        "コード".to_string(),
        "code".to_string(),
        Some("https://github.com/example/repo".to_string()),
        None,
    );

    assert_eq!(artifact.reference, Some("https://github.com/example/repo".to_string()));
}

#[test]
fn new_artifact_takes_json_metadata() {
    let mut document = serde_json::Map::new();
    document.insert("size".to_string(), serde_json::Value::from(1024));
    document.insert("format".to_string(), serde_json::Value::from("pdf"));
    let metadata = serde_json::Value::Object(document).to_string();
    let artifact = Artifact::new(
        "ファイル".to_string(),
        "document".to_string(),
        None,
        Some(metadata.clone()),
    );

    assert_eq!(artifact.metadata, Some(metadata));
}

#[test]
fn link_holds_entry_and_artifact() {
    let entry_id = Id { value: uuid::Uuid::new_v4().as_u128() };
    let artifact_id = Id { value: uuid::Uuid::new_v4().as_u128() };
    let link = EntryArtifact { entry_id, artifact_id };

    assert_eq!(link.entry_id, entry_id);
    assert_eq!(link.artifact_id, artifact_id);
}

#[test]
fn invalid_input_error_message() {
    let error = AppError::InvalidInput("Invalid color format".to_string());

    assert!(error.message().contains("Invalid input"));
}

#[test]
fn already_exists_error_message() {
    let error = AppError::AlreadyExists("Entry already running".to_string());

    assert!(error.message().contains("Already exists"));
}

#[test]
fn operation_failed_error_message() {
    let error = AppError::OperationFailed("Cannot stop non-running entry".to_string());

    assert!(error.message().contains("Operation failed"));
}

#[test]
fn error_message_joins_heading_and_detail() {
    let error = AppError::NotFound("Task not found".to_string());

    assert_eq!(error.message(), "Not found: Task not found");
}
