use time_tracker::{
    add_artifact, add_folder, add_task,
    archive_task, create_artifact, create_folder, create_task, delete_artifact, delete_folder,
    link_artifact, list_artifacts, list_folders, list_tasks, start_entry, unlink_artifact,
    update_folder, update_task, AppError, Artifact, CreateArtifact, CreateFolder, CreateTask, Id,
    Ledger, Task, Timestamp, UpdateFolder, UpdateTask,
};

fn text(id: Id) -> String {
    uuid::Uuid::from_u128(id.value).to_string()
}

fn request(name: &str) -> CreateTask {
    CreateTask { name: name.to_string(), description: None, color: None, folder_id: None }
}

fn folder(name: &str, color: Option<&str>) -> CreateFolder {
    CreateFolder { name: name.to_string(), color: color.map(|c| c.to_string()) }
}

fn artifact_request(name: &str, kind: &str) -> CreateArtifact {
    CreateArtifact {
        name: name.to_string(),
        artifact_type: kind.to_string(),
        reference: None,
        metadata: None,
    }
}

#[test]
fn empty_ledger_lists_no_tasks() {
    let ledger = Ledger::new();

    let tasks = list_tasks(&ledger, false).unwrap();

    assert!(tasks.is_empty());
}

#[test]
fn created_task_is_listed() {
    let mut ledger = Ledger::new();
    create_task(&mut ledger, request("テスト作業")).unwrap();

    let tasks = list_tasks(&ledger, false).unwrap();

    assert_eq!(tasks.len(), 1);
    assert_eq!(tasks[0].name, "テスト作業");
}

#[test]
fn archived_tasks_hidden_by_default() {
    let mut ledger = Ledger::new();
    let mut task = Task::new("アーカイブ済み".to_string(), None, None, None);
    task.archived = true;
    ledger.tasks.push(task);

    let tasks = list_tasks(&ledger, false).unwrap();

    assert!(tasks.is_empty());
}

#[test]
fn archived_tasks_shown_on_request() {
    let mut ledger = Ledger::new();
    let mut task = Task::new("アーカイブ済み".to_string(), None, None, None);
    task.archived = true;
    ledger.tasks.push(task);

    let tasks = list_tasks(&ledger, true).unwrap();

    assert_eq!(tasks.len(), 1);
}

#[test]
fn tasks_listed_newest_first() {
    let mut ledger = Ledger::new();
    let mut task1 = Task::new("タスク1".to_string(), None, None, None);
    task1.created_at = Timestamp { micros: 1_000 };
    ledger.tasks.push(task1);
    let mut task2 = Task::new("タスク2".to_string(), None, None, None);
    task2.created_at = Timestamp { micros: 11_000 };
    ledger.tasks.push(task2);

    let tasks = list_tasks(&ledger, false).unwrap();

    assert_eq!(tasks.len(), 2);
    assert_eq!(tasks[0].name, "タスク2");
    assert_eq!(tasks[1].name, "タスク1");
}

#[test]
fn create_task_stores_task() {
    let mut ledger = Ledger::new();
    let task = create_task(
        &mut ledger,
        CreateTask {
            name: "新規タスク".to_string(),
            description: Some("説明".to_string()),
            color: None,
            folder_id: None,
        },
    )
    .unwrap();

    let fetched = ledger.tasks.iter().find(|t| t.id == task.id).unwrap();
    assert_eq!(fetched.name, "新規タスク");
    assert_eq!(fetched.description, Some("説明".to_string()));
    assert_eq!(fetched.color, "#3b82f6");
}

#[test]
fn empty_task_name_is_rejected() {
    let mut ledger = Ledger::new();
    let create_task_request = CreateTask {
        name: "".to_string(),
        description: None,
        color: None,
        folder_id: None,
    };

    match create_task(&mut ledger, create_task_request) {
        Err(AppError::InvalidInput(_)) => {}
        _ => panic!("Should have caught empty name"),
    }
    assert!(ledger.tasks.is_empty());
}

#[test]
fn blank_task_name_is_invalid_input() {
    let mut ledger = Ledger::new();

    let result = create_task(&mut ledger, request(" \t "));

    assert!(matches!(result, Err(AppError::InvalidInput(_))));
}

#[test]
fn invalid_task_color_is_rejected() {
    let invalid_color = "invalid";
    assert!(!Task::is_valid_color(invalid_color));

    let mut ledger = Ledger::new();
    let mut req = request("タスク");
    req.color = Some(invalid_color.to_string());
    assert!(matches!(create_task(&mut ledger, req), Err(AppError::InvalidInput(_))));
}

#[test]
fn update_task_changes_name() {
    let mut ledger = Ledger::new();
    let task = create_task(&mut ledger, request("元の名前")).unwrap();

    let update = UpdateTask { name: Some("新しい名前".to_string()), ..Default::default() };
    update_task(&mut ledger, text(task.id), update).unwrap();

    assert_eq!(ledger.tasks[0].name, "新しい名前");
}

#[test]
fn update_task_changes_description() {
    let mut ledger = Ledger::new();
    let task = create_task(&mut ledger, request("タスク")).unwrap();

    let update = UpdateTask { description: Some("新しい説明".to_string()), ..Default::default() };
    update_task(&mut ledger, text(task.id), update).unwrap();

    assert_eq!(ledger.tasks[0].description, Some("新しい説明".to_string()));
}

#[test]
fn update_task_changes_color() {
    let mut ledger = Ledger::new();
    let task = create_task(&mut ledger, request("タスク")).unwrap();

    let update = UpdateTask { color: Some("#ff0000".to_string()), ..Default::default() };
    update_task(&mut ledger, text(task.id), update).unwrap();

    assert_eq!(ledger.tasks[0].color, "#ff0000");
}

#[test]
fn update_rejects_bad_color_and_keeps_task() {
    let mut ledger = Ledger::new();
    let task = create_task(&mut ledger, request("タスク")).unwrap();

    let update = UpdateTask { color: Some("#12345".to_string()), ..Default::default() };
    let result = update_task(&mut ledger, text(task.id), update);

    assert!(matches!(result, Err(AppError::InvalidInput(_))));
    assert_eq!(ledger.tasks[0].color, "#3b82f6");
}

#[test]
fn update_of_missing_task_fails() {
    let mut ledger = Ledger::new();
    let non_existent_id = Id { value: uuid::Uuid::new_v4().as_u128() };

    let result = update_task(&mut ledger, text(non_existent_id), UpdateTask::default());

    assert!(result.is_err());
    assert!(matches!(result, Err(AppError::NotFound(_))));
}

#[test]
fn archive_task_sets_flag() {
    let mut ledger = Ledger::new();
    let task = create_task(&mut ledger, request("タスク")).unwrap();

    archive_task(&mut ledger, text(task.id), true).unwrap();

    assert!(ledger.tasks[0].archived);
}

#[test]
fn archive_task_restores() {
    let mut ledger = Ledger::new();
    let mut task = Task::new("タスク".to_string(), None, None, None);
    task.archived = true;
    let id = task.id;
    ledger.tasks.push(task);

    archive_task(&mut ledger, text(id), false).unwrap();

    assert!(!ledger.tasks[0].archived);
}

#[test]
fn archive_of_missing_task_fails() {
    let mut ledger = Ledger::new();
    let non_existent_id = Id { value: uuid::Uuid::new_v4().as_u128() };

    let result = archive_task(&mut ledger, text(non_existent_id), true);

    assert!(result.is_err());
}

#[test]
fn create_folder_stores_folder() {
    let mut ledger = Ledger::new();

    let created = create_folder(&mut ledger, folder("開発", Some("#ff0000"))).unwrap();

    assert_eq!(created.name, "開発");
    assert_eq!(created.color, "#ff0000");
}

#[test]
fn folder_name_is_trimmed_and_orders_increase() {
    let mut ledger = Ledger::new();

    let first = create_folder(&mut ledger, folder("  開発  ", None)).unwrap();
    let second = create_folder(&mut ledger, folder("運用", None)).unwrap();

    assert_eq!(first.name, "開発");
    assert_eq!(first.color, "#6b7280");
    assert_eq!(first.sort_order, 1);
    assert_eq!(second.sort_order, 2);
    assert!(matches!(create_folder(&mut ledger, folder("   ", None)), Err(AppError::InvalidInput(_))));
}

#[test]
fn folders_are_listed() {
    let mut ledger = Ledger::new();
    create_folder(&mut ledger, folder("フォルダ1", None)).unwrap();
    create_folder(&mut ledger, folder("フォルダ2", None)).unwrap();

    let folders = list_folders(&ledger).unwrap();

    assert_eq!(folders.len(), 2);
}

#[test]
fn folders_list_by_sort_order() {
    let mut ledger = Ledger::new();
    let a = create_folder(&mut ledger, folder("a", None)).unwrap();
    create_folder(&mut ledger, folder("b", None)).unwrap();
    let update = UpdateFolder { name: None, color: None, sort_order: Some(5) };
    update_folder(&mut ledger, text(a.id), update).unwrap();

    let folders = list_folders(&ledger).unwrap();

    assert_eq!(folders[0].name, "b");
    assert_eq!(folders[1].name, "a");
}

#[test]
fn update_folder_changes_name() {
    let mut ledger = Ledger::new();
    let created = create_folder(&mut ledger, folder("旧名", None)).unwrap();

    let updated = update_folder(
        &mut ledger,
        text(created.id),
        UpdateFolder { name: Some("新名".to_string()), color: None, sort_order: None },
    )
    .unwrap();

    assert_eq!(updated.name, "新名");
}

#[test]
fn delete_folder_removes_folder() {
    let mut ledger = Ledger::new();
    let created = create_folder(&mut ledger, folder("削除対象", None)).unwrap();

    delete_folder(&mut ledger, text(created.id)).unwrap();

    let folders = list_folders(&ledger).unwrap();
    assert!(folders.is_empty());
}

#[test]
fn deleting_a_folder_keeps_its_tasks_outside_any_folder() {
    let mut ledger = Ledger::new();
    let created = create_folder(&mut ledger, folder("f", None)).unwrap();
    let mut req = request("タスク");
    req.folder_id = Some(created.id);
    create_task(&mut ledger, req).unwrap();

    delete_folder(&mut ledger, text(created.id)).unwrap();

    assert_eq!(ledger.tasks.len(), 1);
    assert_eq!(ledger.tasks[0].folder_id, None);
    assert!(matches!(delete_folder(&mut ledger, text(created.id)), Err(AppError::NotFound(_))));
}

#[test]
fn create_artifact_stores_artifact() {
    let mut ledger = Ledger::new();
    let mut req = artifact_request("設計書.pdf", "document");
    req.reference = Some("/docs/design.pdf".to_string());

    let artifact = create_artifact(&mut ledger, req, None).unwrap();

    let fetched = ledger.artifacts.iter().find(|a| a.id == artifact.id).unwrap();
    assert_eq!(fetched.name, "設計書.pdf");
    assert_eq!(fetched.artifact_type, "document");
    assert_eq!(fetched.reference, Some("/docs/design.pdf".to_string()));
}

#[test]
fn empty_artifact_name_is_rejected() {
    let mut ledger = Ledger::new();
    let create_artifact_request = CreateArtifact {
        name: "".to_string(),
        artifact_type: "document".to_string(),
        reference: None,
        metadata: None,
    };

    assert!(create_artifact_request.name.trim().is_empty());
    let result = create_artifact(&mut ledger, create_artifact_request, None);
    assert!(matches!(result, Err(AppError::InvalidInput(_))));
}

#[test]
fn empty_artifact_type_is_rejected() {
    let mut ledger = Ledger::new();
    let create_artifact_request = CreateArtifact {
        name: "ファイル".to_string(),
        artifact_type: "".to_string(),
        reference: None,
        metadata: None,
    };

    assert!(create_artifact_request.artifact_type.trim().is_empty());
    let result = create_artifact(&mut ledger, create_artifact_request, None);
    assert!(matches!(result, Err(AppError::InvalidInput(_))));
}

#[test]
fn creating_an_artifact_for_an_entry_links_it() {
    let mut ledger = Ledger::new();
    let entry = start_entry(&mut ledger, None, None).unwrap();

    let artifact = create_artifact(&mut ledger, artifact_request("x", "code"), Some(text(entry.id))).unwrap();

    assert_eq!(ledger.links.len(), 1);
    assert_eq!(ledger.links[0].entry_id, entry.id);
    assert_eq!(ledger.links[0].artifact_id, artifact.id);

    let missing = create_artifact(&mut ledger, artifact_request("y", "code"), Some(text(Id { value: 5 })));
    assert!(matches!(missing, Err(AppError::NotFound(_))));
    assert_eq!(ledger.artifacts.len(), 1);
}

#[test]
fn empty_ledger_lists_no_artifacts() {
    let ledger = Ledger::new();

    let artifacts = list_artifacts(&ledger, None).unwrap();

    assert!(artifacts.is_empty());
}

#[test]
fn created_artifact_is_listed() {
    let mut ledger = Ledger::new();
    create_artifact(&mut ledger, artifact_request("テスト", "code"), None).unwrap();

    let artifacts = list_artifacts(&ledger, None).unwrap();

    assert_eq!(artifacts.len(), 1);
    assert_eq!(artifacts[0].name, "テスト");
}

#[test]
fn artifacts_limit_caps_listing() {
    let mut ledger = Ledger::new();
    for i in 0..5 {
        create_artifact(&mut ledger, artifact_request(&format!("成果物{}", i), "document"), None).unwrap();
    }

    let artifacts = list_artifacts(&ledger, Some(3)).unwrap();

    assert_eq!(artifacts.len(), 3);
}

#[test]
fn artifacts_listed_newest_first() {
    let mut ledger = Ledger::new();
    let mut artifact1 = Artifact::new("成果物1".to_string(), "document".to_string(), None, None);
    artifact1.created_at = Timestamp { micros: 10 };
    ledger.artifacts.push(artifact1);
    let mut artifact2 = Artifact::new("成果物2".to_string(), "document".to_string(), None, None);
    artifact2.created_at = Timestamp { micros: 10_010 };
    ledger.artifacts.push(artifact2);

    let artifacts = list_artifacts(&ledger, None).unwrap();

    assert_eq!(artifacts.len(), 2);
    assert_eq!(artifacts[0].name, "成果物2");
    assert_eq!(artifacts[1].name, "成果物1");
}

#[test]
fn link_artifact_to_entry() {
    let mut ledger = Ledger::new();
    let entry = start_entry(&mut ledger, None, None).unwrap();
    let artifact = create_artifact(&mut ledger, artifact_request("テスト", "document"), None).unwrap();

    link_artifact(&mut ledger, text(entry.id), text(artifact.id)).unwrap();

    let count = ledger
        .links
        .iter()
        .filter(|l| l.entry_id == entry.id && l.artifact_id == artifact.id)
        .count();
    assert_eq!(count, 1);
}

#[test]
fn duplicate_link_is_rejected() {
    let mut ledger = Ledger::new();
    let entry = start_entry(&mut ledger, None, None).unwrap();
    let artifact = create_artifact(&mut ledger, artifact_request("テスト", "document"), None).unwrap();
    link_artifact(&mut ledger, text(entry.id), text(artifact.id)).unwrap();

    let result = link_artifact(&mut ledger, text(entry.id), text(artifact.id));

    assert!(result.is_err());
    assert!(matches!(result, Err(AppError::AlreadyExists(_))));
    assert_eq!(ledger.links.len(), 1);
}

#[test]
fn linking_to_a_missing_artifact_is_not_found() {
    let mut ledger = Ledger::new();
    let entry = start_entry(&mut ledger, None, None).unwrap();

    let result = link_artifact(&mut ledger, text(entry.id), text(Id { value: 3 }));

    assert!(matches!(result, Err(AppError::NotFound(_))));
    let bad = link_artifact(&mut ledger, "bad".to_string(), text(Id { value: 3 }));
    assert!(matches!(bad, Err(AppError::InvalidInput(_))));
}

#[test]
fn unlink_artifact_from_entry() {
    let mut ledger = Ledger::new();
    let entry = start_entry(&mut ledger, None, None).unwrap();
    let artifact = create_artifact(&mut ledger, artifact_request("テスト", "document"), None).unwrap();
    link_artifact(&mut ledger, text(entry.id), text(artifact.id)).unwrap();

    unlink_artifact(&mut ledger, text(entry.id), text(artifact.id)).unwrap();

    let count = ledger
        .links
        .iter()
        .filter(|l| l.entry_id == entry.id && l.artifact_id == artifact.id)
        .count();
    assert_eq!(count, 0);
}

#[test]
fn unlink_of_missing_link_fails() {
    let mut ledger = Ledger::new();
    let entry_id = Id { value: uuid::Uuid::new_v4().as_u128() };
    let artifact_id = Id { value: uuid::Uuid::new_v4().as_u128() };

    let result = unlink_artifact(&mut ledger, text(entry_id), text(artifact_id));

    assert!(result.is_err());
    assert!(matches!(result, Err(AppError::NotFound(_))));
}

#[test]
fn delete_artifact_removes_artifact() {
    let mut ledger = Ledger::new();
    let artifact = create_artifact(&mut ledger, artifact_request("テスト", "document"), None).unwrap();

    delete_artifact(&mut ledger, text(artifact.id)).unwrap();

    assert!(ledger.artifacts.iter().find(|a| a.id == artifact.id).is_none());
}

#[test]
fn delete_artifact_removes_links() {
    let mut ledger = Ledger::new();
    let entry = start_entry(&mut ledger, None, None).unwrap();
    let artifact = create_artifact(&mut ledger, artifact_request("テスト", "document"), None).unwrap();
    link_artifact(&mut ledger, text(entry.id), text(artifact.id)).unwrap();

    delete_artifact(&mut ledger, text(artifact.id)).unwrap();

    let count = ledger.links.iter().filter(|l| l.artifact_id == artifact.id).count();
    assert_eq!(count, 0);
}

#[test]
fn delete_of_missing_artifact_fails() {
    let mut ledger = Ledger::new();
    let non_existent_id = Id { value: uuid::Uuid::new_v4().as_u128() };

    let result = delete_artifact(&mut ledger, text(non_existent_id));

    assert!(result.is_err());
}

#[test]
fn add_task_uses_given_identifier_and_instant() {
    let mut ledger = Ledger::new();
    let now = Timestamp { micros: 1_000_000 };

    let task = add_task(&mut ledger, request("a"), Id { value: 9 }, now).unwrap();
    assert_eq!(task.id, Id { value: 9 });
    assert_eq!(task.created_at, now);
    assert_eq!(task.updated_at, now);
    assert_eq!(task.color, "#3b82f6");

    let again = add_task(&mut ledger, request("b"), Id { value: 9 }, now);
    assert!(matches!(again, Err(AppError::Database(_))));
    assert_eq!(ledger.tasks.len(), 1);
}

#[test]
fn add_folder_uses_given_identifier_and_refuses_a_taken_one() {
    let mut ledger = Ledger::new();
    let now = Timestamp { micros: 5 };

    let created = add_folder(&mut ledger, folder(" x ", None), Id { value: 4 }, now).unwrap();
    assert_eq!(created.id, Id { value: 4 });
    assert_eq!(created.name, "x");
    assert_eq!(created.sort_order, 1);

    let again = add_folder(&mut ledger, folder("y", None), Id { value: 4 }, now);
    assert!(matches!(again, Err(AppError::Database(_))));
}

#[test]
fn add_artifact_links_to_target_entry() {
    let mut ledger = Ledger::new();
    let entry = start_entry(&mut ledger, None, None).unwrap();
    let now = Timestamp { micros: 7 };

    let artifact = add_artifact(&mut ledger, artifact_request("x", "code"), Some(entry.id), Id { value: 2 }, now).unwrap();
    assert_eq!(artifact.id, Id { value: 2 });
    assert_eq!(artifact.created_at, now);
    assert_eq!(ledger.links.len(), 1);
    assert_eq!(ledger.links[0].artifact_id, Id { value: 2 });

    let taken = add_artifact(&mut ledger, artifact_request("y", "code"), None, Id { value: 2 }, now);
    assert!(matches!(taken, Err(AppError::Database(_))));
    let missing = add_artifact(&mut ledger, artifact_request("y", "code"), Some(Id { value: 8 }), Id { value: 3 }, now);
    assert!(matches!(missing, Err(AppError::NotFound(_))));
    assert_eq!(ledger.artifacts.len(), 1);
}
