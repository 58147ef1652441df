use vstd::prelude::*;

use crate::model::{Artifact, EntryArtifact, Folder, Id, Task, TimeEntry};

verus! {

/// All records of the time ledger: tasks, folders, artifacts, entries and the links
/// between entries and artifacts.
#[derive(Debug)]
pub struct Ledger {
    pub tasks: Vec<Task>,
    pub folders: Vec<Folder>,
    pub artifacts: Vec<Artifact>,
    pub entries: Vec<TimeEntry>,
    pub links: Vec<EntryArtifact>,
}

/// Whether an entry with this identifier is in the sequence.
pub open spec fn has_entry(s: Seq<TimeEntry>, id: Id) -> bool {
    exists|i: int| 0 <= i < s.len() && (#[trigger] s[i]).id == id
}

/// Whether a task with this identifier is in the sequence.
pub open spec fn has_task(s: Seq<Task>, id: Id) -> bool {
    exists|i: int| 0 <= i < s.len() && (#[trigger] s[i]).id == id
}

/// Whether an artifact with this identifier is in the sequence.
pub open spec fn has_artifact(s: Seq<Artifact>, id: Id) -> bool {
    exists|i: int| 0 <= i < s.len() && (#[trigger] s[i]).id == id
}

/// Whether a folder with this identifier is in the sequence.
pub open spec fn has_folder(s: Seq<Folder>, id: Id) -> bool {
    exists|i: int| 0 <= i < s.len() && (#[trigger] s[i]).id == id
}

/// Whether this link is in the sequence.
pub open spec fn has_link(s: Seq<EntryArtifact>, l: EntryArtifact) -> bool {
    exists|i: int| 0 <= i < s.len() && s[i] == l
}

/// Whether some entry of the sequence is running.
pub open spec fn has_running(s: Seq<TimeEntry>) -> bool {
    exists|i: int| 0 <= i < s.len() && (#[trigger] s[i]).ended_at.is_none()
}

/// No two entries of the sequence are running.
pub open spec fn at_most_one_running(s: Seq<TimeEntry>) -> bool {
    forall|i: int, j: int|
        0 <= i < s.len() && 0 <= j < s.len() && (#[trigger] s[i]).ended_at.is_none() && (
        #[trigger] s[j]).ended_at.is_none() ==> i == j
}

/// Entries carry distinct identifiers.
pub open spec fn distinct_entries(s: Seq<TimeEntry>) -> bool {
    forall|i: int, j: int|
        0 <= i < s.len() && 0 <= j < s.len() && i != j ==> (#[trigger] s[i]).id != (
        #[trigger] s[j]).id
}

/// Tasks carry distinct identifiers.
pub open spec fn distinct_tasks(s: Seq<Task>) -> bool {
    forall|i: int, j: int|
        0 <= i < s.len() && 0 <= j < s.len() && i != j ==> (#[trigger] s[i]).id != (
        #[trigger] s[j]).id
}

/// Artifacts carry distinct identifiers.
pub open spec fn distinct_artifacts(s: Seq<Artifact>) -> bool {
    forall|i: int, j: int|
        0 <= i < s.len() && 0 <= j < s.len() && i != j ==> (#[trigger] s[i]).id != (
        #[trigger] s[j]).id
}

/// Folders carry distinct identifiers.
pub open spec fn distinct_folders(s: Seq<Folder>) -> bool {
    forall|i: int, j: int|
        0 <= i < s.len() && 0 <= j < s.len() && i != j ==> (#[trigger] s[i]).id != (
        #[trigger] s[j]).id
}

/// No link is held twice.
pub open spec fn distinct_links(s: Seq<EntryArtifact>) -> bool {
    forall|i: int, j: int| 0 <= i < s.len() && 0 <= j < s.len() && i != j ==> s[i] != s[j]
}

/// Every link names an entry and an artifact of the sequences.
pub open spec fn links_resolve(
    links: Seq<EntryArtifact>,
    entries: Seq<TimeEntry>,
    artifacts: Seq<Artifact>,
) -> bool {
    forall|i: int|
        0 <= i < links.len() ==> has_entry(entries, (#[trigger] links[i]).entry_id) && has_artifact(
            artifacts,
            links[i].artifact_id,
        )
}

/// Links that resolve keep resolving when no entry and no artifact identifier is lost.
pub proof fn lemma_links_still_resolve(
    links: Seq<EntryArtifact>,
    e1: Seq<TimeEntry>,
    a1: Seq<Artifact>,
    e2: Seq<TimeEntry>,
    a2: Seq<Artifact>,
)
    requires
        links_resolve(links, e1, a1),
        forall|id: Id| has_entry(e1, id) ==> #[trigger] has_entry(e2, id),
        forall|id: Id| has_artifact(a1, id) ==> #[trigger] has_artifact(a2, id),
    ensures
        links_resolve(links, e2, a2),
{
    assert forall|i: int| 0 <= i < links.len() implies has_entry(e2, (#[trigger] links[i]).entry_id)
        && has_artifact(a2, links[i].artifact_id) by {
        assert(has_entry(e1, links[i].entry_id));
        assert(has_artifact(a1, links[i].artifact_id));
    }
}

/// Entries that keep the identifiers at each old position lose no identifier.
pub proof fn lemma_entry_ids_kept(s: Seq<TimeEntry>, t: Seq<TimeEntry>)
    requires
        s.len() <= t.len(),
        forall|k: int| 0 <= k < s.len() ==> (#[trigger] t[k]).id == s[k].id,
    ensures
        forall|id: Id| has_entry(s, id) ==> #[trigger] has_entry(t, id),
{
    assert forall|id: Id| has_entry(s, id) implies #[trigger] has_entry(t, id) by {
        let k = choose|k: int| 0 <= k < s.len() && (#[trigger] s[k]).id == id;
        assert(t[k].id == id);
    }
}

/// Artifacts that keep the identifiers at each old position lose no identifier.
pub proof fn lemma_artifact_ids_kept(s: Seq<Artifact>, t: Seq<Artifact>)
    requires
        s.len() <= t.len(),
        forall|k: int| 0 <= k < s.len() ==> (#[trigger] t[k]).id == s[k].id,
    ensures
        forall|id: Id| has_artifact(s, id) ==> #[trigger] has_artifact(t, id),
{
    assert forall|id: Id| has_artifact(s, id) implies #[trigger] has_artifact(t, id) by {
        let k = choose|k: int| 0 <= k < s.len() && (#[trigger] s[k]).id == id;
        assert(t[k].id == id);
    }
}

impl Ledger {
    /// Identifiers are unique in each table, no link is held twice, and every link names
    /// an entry and an artifact of the ledger.
    pub open spec fn wf(&self) -> bool {
        &&& distinct_tasks(self.tasks@)
        &&& distinct_folders(self.folders@)
        &&& distinct_artifacts(self.artifacts@)
        &&& distinct_entries(self.entries@)
        &&& distinct_links(self.links@)
        &&& links_resolve(self.links@, self.entries@, self.artifacts@)
    }

    /// The ledger with no records.
    pub fn new() -> (r: Ledger)
        ensures
            r.wf(),
            r.tasks@.len() == 0,
            r.folders@.len() == 0,
            r.artifacts@.len() == 0,
            r.entries@.len() == 0,
            r.links@.len() == 0,
    {
        Ledger {
            tasks: Vec::new(),
            folders: Vec::new(),
            artifacts: Vec::new(),
            entries: Vec::new(),
            links: Vec::new(),
        }
    }
}

/// Only the entries may differ between the two ledgers.
pub open spec fn same_but_entries(a: &Ledger, b: &Ledger) -> bool {
    &&& a.tasks@ == b.tasks@
    &&& a.folders@ == b.folders@
    &&& a.artifacts@ == b.artifacts@
    &&& a.links@ == b.links@
}

/// The two ledgers hold the same records.
pub open spec fn same_ledger(a: &Ledger, b: &Ledger) -> bool {
    &&& same_but_entries(a, b)
    &&& a.entries@ == b.entries@
}

/// Index of the entry with this identifier.
pub fn find_entry(entries: &Vec<TimeEntry>, id: Id) -> (r: Option<usize>)
    ensures
        match r {
            Some(k) => k < entries@.len() && entries@[k as int].id == id,
            None => !has_entry(entries@, id),
        },
{
    let mut i: usize = 0;
    while i < entries.len()
        invariant
            i <= entries@.len(),
            forall|k: int| 0 <= k < i ==> (#[trigger] entries@[k]).id != id,
        decreases entries@.len() - i,
    {
        if entries[i].id == id {
            return Some(i);
        }
        i = i + 1;
    }
    None
}

/// Index of the first running entry.
pub fn find_running(entries: &Vec<TimeEntry>) -> (r: Option<usize>)
    ensures
        match r {
            Some(k) => k < entries@.len() && entries@[k as int].ended_at.is_none() && forall|
                j: int,
            | 0 <= j < k ==> (#[trigger] entries@[j]).ended_at.is_some(),
            None => !has_running(entries@),
        },
{
    let mut i: usize = 0;
    while i < entries.len()
        invariant
            i <= entries@.len(),
            forall|k: int| 0 <= k < i ==> (#[trigger] entries@[k]).ended_at.is_some(),
        decreases entries@.len() - i,
    {
        if entries[i].ended_at.is_none() {
            return Some(i);
        }
        i = i + 1;
    }
    None
}

/// Index of the task with this identifier.
pub fn find_task(tasks: &Vec<Task>, id: Id) -> (r: Option<usize>)
    ensures
        match r {
            Some(k) => k < tasks@.len() && tasks@[k as int].id == id,
            None => !has_task(tasks@, id),
        },
{
    let mut i: usize = 0;
    while i < tasks.len()
        invariant
            i <= tasks@.len(),
            forall|k: int| 0 <= k < i ==> (#[trigger] tasks@[k]).id != id,
        decreases tasks@.len() - i,
    {
        if tasks[i].id == id {
            return Some(i);
        }
        i = i + 1;
    }
    None
}

/// Index of the artifact with this identifier.
pub fn find_artifact(artifacts: &Vec<Artifact>, id: Id) -> (r: Option<usize>)
    ensures
        match r {
            Some(k) => k < artifacts@.len() && artifacts@[k as int].id == id,
            None => !has_artifact(artifacts@, id),
        },
{
    let mut i: usize = 0;
    while i < artifacts.len()
        invariant
            i <= artifacts@.len(),
            forall|k: int| 0 <= k < i ==> (#[trigger] artifacts@[k]).id != id,
        decreases artifacts@.len() - i,
    {
        if artifacts[i].id == id {
            return Some(i);
        }
        i = i + 1;
    }
    None
}

/// Index of the folder with this identifier.
pub fn find_folder(folders: &Vec<Folder>, id: Id) -> (r: Option<usize>)
    ensures
        match r {
            Some(k) => k < folders@.len() && folders@[k as int].id == id,
            None => !has_folder(folders@, id),
        },
{
    let mut i: usize = 0;
    while i < folders.len()
        invariant
            i <= folders@.len(),
            forall|k: int| 0 <= k < i ==> (#[trigger] folders@[k]).id != id,
        decreases folders@.len() - i,
    {
        if folders[i].id == id {
            return Some(i);
        }
        i = i + 1;
    }
    None
}

/// Index of this link.
pub fn find_link(links: &Vec<EntryArtifact>, l: EntryArtifact) -> (r: Option<usize>)
    ensures
        match r {
            Some(k) => k < links@.len() && links@[k as int] == l,
            None => !has_link(links@, l),
        },
{
    let mut i: usize = 0;
    while i < links.len()
        invariant
            i <= links@.len(),
            forall|k: int| 0 <= k < i ==> links@[k] != l,
        decreases links@.len() - i,
    {
        if links[i] == l {
            return Some(i);
        }
        i = i + 1;
    }
    None
}

} // verus!
