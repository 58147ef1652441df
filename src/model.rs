use vstd::prelude::*;

use vstd::string::*;

use crate::outside::{current_time, random_id};

verus! {

/// Identifier of a record: the 128 bits of a UUID.
#[derive(Clone, Copy, Debug, PartialEq, Eq, Hash, Structural)]
pub struct Id {
    pub value: u128,
}

impl Id {
    /// Whether this is the all-zero identifier.
    pub fn is_nil(&self) -> (r: bool)
        ensures
            r == (self.value == 0),
    {
        self.value == 0
    }
}

/// An instant: microseconds since 1970-01-01T00:00:00 UTC.
#[derive(Clone, Copy, Debug, PartialEq, Eq, PartialOrd, Ord, Hash, Structural)]
pub struct Timestamp {
    pub micros: i64,
}

/// Microseconds in one second.
pub const MICROS_PER_SECOND: i64 = 1_000_000;

/// Whole seconds from `start` to `end` (both in microseconds), truncated toward zero.
pub open spec fn seconds_between(start: int, end: int) -> int {
    if end >= start {
        (end - start) / (MICROS_PER_SECOND as int)
    } else {
        -((start - end) / (MICROS_PER_SECOND as int))
    }
}

/// Whole seconds from `start` to `end`, truncated toward zero.
pub fn elapsed_seconds(start: Timestamp, end: Timestamp) -> (r: i64)
    ensures
        r == seconds_between(start.micros as int, end.micros as int),
{
    let s = start.micros as i128;
    let e = end.micros as i128;
    if e >= s {
        let d = ((e - s) / (MICROS_PER_SECOND as i128)) as i64;
        d
    } else {
        let d = ((s - e) / (MICROS_PER_SECOND as i128)) as i64;
        -d
    }
}

/// A copy of an optional text, equal to it.
pub fn copy_text(o: &Option<String>) -> (r: Option<String>)
    ensures
        r == *o,
{
    match o {
        Some(s) => Some(s.clone()),
        None => None,
    }
}

/// Color given to a task when none is chosen.
pub const DEFAULT_TASK_COLOR: &'static str = "#3b82f6";

/// Whether a byte is an ASCII hexadecimal digit.
pub open spec fn is_hex_byte(b: u8) -> bool {
    (48 <= b && b <= 57) || (65 <= b && b <= 70) || (97 <= b && b <= 102)
}

/// `#RRGGBB`: seven bytes, a `#` and six hexadecimal digits.
pub open spec fn valid_color(bytes: Seq<u8>) -> bool {
    &&& bytes.len() == 7
    &&& bytes[0] == 35
    &&& forall|i: int| 1 <= i < 7 ==> is_hex_byte(#[trigger] bytes[i])
}

/// A task that time is spent on.
#[derive(Clone, Debug, PartialEq)]
pub struct Task {
    pub id: Id,
    pub folder_id: Option<Id>,
    pub name: String,
    pub description: Option<String>,
    pub color: String,
    pub archived: bool,
    pub created_at: Timestamp,
    pub updated_at: Timestamp,
}

impl Task {
    /// A new task with a fresh identifier, created now; blue unless a color is given.
    pub fn new(
        name: String,
        description: Option<String>,
        color: Option<String>,
        folder_id: Option<Id>,
    ) -> (r: Task)
        ensures
            r.name == name,
            r.description == description,
            r.folder_id == folder_id,
            r.color@ == (match color {
                Some(c) => c@,
                None => DEFAULT_TASK_COLOR@,
            }),
            !r.archived,
            r.created_at == r.updated_at,
            r.id.value != 0,
    {
        let now = current_time();
        let color = match color {
            Some(c) => c,
            None => DEFAULT_TASK_COLOR.to_owned(),
        };
        Task {
            id: random_id(),
            folder_id,
            name,
            description,
            color,
            archived: false,
            created_at: now,
            updated_at: now,
        }
    }

    /// Whether `color` has the form `#RRGGBB`.
    pub fn is_valid_color(color: &str) -> (r: bool)
        ensures
            r == valid_color(color.spec_bytes()),
    {
        let bytes = color.as_bytes();
        if bytes.len() != 7 {
            return false;
        }
        if bytes[0] != 35u8 {
            return false;
        }
        let mut i: usize = 1;
        while i < 7
            invariant
                bytes@ == color.spec_bytes(),
                bytes@.len() == 7,
                1 <= i <= 7,
                forall|k: int| 1 <= k < i ==> is_hex_byte(#[trigger] bytes@[k]),
            decreases 7 - i,
        {
            let b = bytes[i];
            if !((48u8 <= b && b <= 57u8) || (65u8 <= b && b <= 70u8) || (97u8 <= b && b <= 102u8)) {
                return false;
            }
            i = i + 1;
        }
        true
    }

    /// A copy equal to the task.
    pub fn duplicate(&self) -> (r: Task)
        ensures
            r == *self,
    {
        Task {
            id: self.id,
            folder_id: self.folder_id,
            name: self.name.clone(),
            description: copy_text(&self.description),
            color: self.color.clone(),
            archived: self.archived,
            created_at: self.created_at,
            updated_at: self.updated_at,
        }
    }
}

/// What is needed to create a task.
#[derive(Clone, Debug)]
pub struct CreateTask {
    pub name: String,
    pub description: Option<String>,
    pub color: Option<String>,
    pub folder_id: Option<Id>,
}

/// A partial change of a task: each field present is replaced.
#[derive(Clone, Debug, Default)]
pub struct UpdateTask {
    pub name: Option<String>,
    pub description: Option<String>,
    pub color: Option<String>,
    pub folder_id: Option<Option<Id>>,
}

/// A piece of work produced while tracking time.
#[derive(Clone, Debug, PartialEq)]
pub struct Artifact {
    pub id: Id,
    pub name: String,
    pub artifact_type: String,
    pub reference: Option<String>,
    /// A JSON document, as text.
    pub metadata: Option<String>,
    pub created_at: Timestamp,
}

impl Artifact {
    /// A new artifact with a fresh identifier, created now.
    pub fn new(
        name: String,
        artifact_type: String,
        reference: Option<String>,
        metadata: Option<String>,
    ) -> (r: Artifact)
        ensures
            r.name == name,
            r.artifact_type == artifact_type,
            r.reference == reference,
            r.metadata == metadata,
            r.id.value != 0,
    {
        Artifact {
            id: random_id(),
            name,
            artifact_type,
            reference,
            metadata,
            created_at: current_time(),
        }
    }

    /// A copy equal to this artifact.
    pub fn duplicate(&self) -> (r: Artifact)
        ensures
            r == *self,
    {
        Artifact {
            id: self.id,
            name: self.name.clone(),
            artifact_type: self.artifact_type.clone(),
            reference: copy_text(&self.reference),
            metadata: copy_text(&self.metadata),
            created_at: self.created_at,
        }
    }
}

/// What is needed to create an artifact.
#[derive(Clone, Debug)]
pub struct CreateArtifact {
    pub name: String,
    pub artifact_type: String,
    pub reference: Option<String>,
    pub metadata: Option<String>,
}

/// One measured interval; running while `ended_at` is `None`.
#[derive(Clone, Debug, PartialEq)]
pub struct TimeEntry {
    pub id: Id,
    pub task_id: Option<Id>,
    pub started_at: Timestamp,
    pub ended_at: Option<Timestamp>,
    pub memo: Option<String>,
    pub created_at: Timestamp,
    pub updated_at: Timestamp,
}

/// Length of an entry in whole seconds; none while it runs.
pub open spec fn entry_duration(e: TimeEntry) -> Option<int> {
    match e.ended_at {
        Some(end) => Some(seconds_between(e.started_at.micros as int, end.micros as int)),
        None => None,
    }
}

impl TimeEntry {
    /// A running entry with a fresh identifier, started now.
    pub fn start(task_id: Option<Id>, memo: Option<String>) -> (r: TimeEntry)
        ensures
            r.task_id == task_id,
            r.memo == memo,
            r.ended_at.is_none(),
            r.created_at == r.started_at,
            r.updated_at == r.started_at,
            r.id.value != 0,
    {
        let now = current_time();
        TimeEntry {
            id: random_id(),
            task_id,
            started_at: now,
            ended_at: None,
            memo,
            created_at: now,
            updated_at: now,
        }
    }

    /// Whether the entry is still being measured.
    pub fn is_running(&self) -> (r: bool)
        ensures
            r == self.ended_at.is_none(),
    {
        self.ended_at.is_none()
    }

    /// Seconds from start to end, truncated; `None` while running.
    pub fn duration_seconds(&self) -> (r: Option<i64>)
        ensures
            match entry_duration(*self) {
                Some(d) => r == Some(d as i64),
                None => r.is_none(),
            },
    {
        match self.ended_at {
            Some(end) => Some(elapsed_seconds(self.started_at, end)),
            None => None,
        }
    }

    /// A copy equal to this entry.
    pub fn duplicate(&self) -> (r: TimeEntry)
        ensures
            r == *self,
    {
        TimeEntry {
            id: self.id,
            task_id: self.task_id,
            started_at: self.started_at,
            ended_at: self.ended_at,
            memo: copy_text(&self.memo),
            created_at: self.created_at,
            updated_at: self.updated_at,
        }
    }
}

/// An entry together with its task and the artifacts linked to it.
#[derive(Clone, Debug)]
pub struct TimeEntryWithRelations {
    pub id: Id,
    pub task_id: Option<Id>,
    pub task: Option<Task>,
    pub started_at: Timestamp,
    pub ended_at: Option<Timestamp>,
    pub duration_seconds: Option<i64>,
    pub memo: Option<String>,
    pub artifacts: Vec<Artifact>,
    pub created_at: Timestamp,
    pub updated_at: Timestamp,
}

/// A partial change of an entry. For `task_id` and `ended_at` the outer `Some` means
/// the field is given and the inner value may clear it.
#[derive(Clone, Debug, Default)]
pub struct UpdateEntry {
    pub task_id: Option<Option<Id>>,
    pub started_at: Option<Timestamp>,
    pub ended_at: Option<Option<Timestamp>>,
    pub memo: Option<String>,
}

/// Which entries a listing keeps.
#[derive(Clone, Debug, Default)]
pub struct EntryFilter {
    pub from: Option<Timestamp>,
    pub to: Option<Timestamp>,
    pub task_id: Option<Id>,
    pub limit: Option<i64>,
}

/// A link between an entry and an artifact.
#[derive(Clone, Copy, Debug, PartialEq, Eq, Hash, Structural)]
pub struct EntryArtifact {
    pub entry_id: Id,
    pub artifact_id: Id,
}

/// A group of tasks.
#[derive(Clone, Debug, PartialEq)]
pub struct Folder {
    pub id: Id,
    pub name: String,
    pub color: String,
    pub sort_order: i32,
    pub created_at: Timestamp,
    pub updated_at: Timestamp,
}

impl Folder {
    /// A copy equal to this folder.
    pub fn duplicate(&self) -> (r: Folder)
        ensures
            r == *self,
    {
        Folder {
            id: self.id,
            name: self.name.clone(),
            color: self.color.clone(),
            sort_order: self.sort_order,
            created_at: self.created_at,
            updated_at: self.updated_at,
        }
    }
}

/// What is needed to create a folder.
#[derive(Clone, Debug)]
pub struct CreateFolder {
    pub name: String,
    pub color: Option<String>,
}

/// A partial change of a folder.
#[derive(Clone, Debug, Default)]
pub struct UpdateFolder {
    pub name: Option<String>,
    pub color: Option<String>,
    pub sort_order: Option<i32>,
}

} // verus!
