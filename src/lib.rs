pub mod artifacts;
pub mod catalog;
pub mod entries;
pub mod error;
pub mod ledger;
pub mod listing;
pub mod model;
pub mod ordering;
pub mod outside;
pub mod reports;
pub mod transfer;

pub use artifacts::{
    add_artifact, create_artifact, delete_artifact, entry_to_with_relations, get_running_entry, link_artifact,
    unlink_artifact,
};
pub use catalog::{add_folder, add_task, archive_task, create_folder, create_task, delete_folder, update_folder, update_task};
pub use entries::{
    begin_entry, delete_entry, end_entry, remove_entry, revise_entry, start_entry, stop_entry,
    update_entry,
};
pub use error::AppError;
pub use ledger::Ledger;
pub use listing::{list_artifacts, list_entries, list_folders, list_tasks};
pub use model::{
    Artifact, CreateArtifact, CreateFolder, CreateTask, EntryArtifact, EntryFilter, Folder, Id,
    Task, TimeEntry, TimeEntryWithRelations, Timestamp, UpdateEntry, UpdateFolder, UpdateTask,
};
pub use reports::{get_available_months, get_monthly_report, DailySummary, MonthlyReport, TaskSummary};
pub use transfer::{
    create_export_data, export_data, import_data, import_export_data, ExportData, ExportTimeEntry,
    ImportResult,
};
