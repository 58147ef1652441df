use vstd::prelude::*;

use crate::artifacts::{entry_to_with_relations, relations_match};
use crate::error::AppError;
use crate::ledger::Ledger;
use crate::model::{Artifact, EntryFilter, Folder, Task, TimeEntry, TimeEntryWithRelations};
use crate::ordering::{rank_positions, ranked_positions};

verus! {

/// How many of `n` records a listing with this limit shows; a negative limit is refused.
pub open spec fn limited(limit: Option<i64>, n: int) -> Option<int> {
    match limit {
        None => Some(n),
        Some(l) => if l < 0 {
            None
        } else if l < n {
            Some(l as int)
        } else {
            Some(n)
        },
    }
}

/// The number of records to show, or `InvalidInput` for a negative limit.
fn take_count(limit: Option<i64>, n: usize) -> (r: Result<usize, AppError>)
    ensures
        match limited(limit, n as int) {
            Some(k) => r is Ok && r->Ok_0 == k,
            None => r is Err && r->Err_0 is InvalidInput,
        },
{
    match limit {
        None => Ok(n),
        Some(l) => {
            if l < 0 {
                Err(AppError::InvalidInput("The limit cannot be negative".to_owned()))
            } else if (l as u64) < (n as u64) {
                Ok(l as usize)
            } else {
                Ok(n)
            }
        },
    }
}

/// Newest first: the key of a task is its creation instant.
pub open spec fn task_key(t: Task) -> (i128, i128) {
    (t.created_at.micros as i128, 0)
}

/// Newest first: the key of an artifact is its creation instant.
pub open spec fn artifact_key(a: Artifact) -> (i128, i128) {
    (a.created_at.micros as i128, 0)
}

/// Latest start first: the key of an entry is its start.
pub open spec fn entry_key(e: TimeEntry) -> (i128, i128) {
    (e.started_at.micros as i128, 0)
}

/// Smallest sort order first, then oldest: the key of a folder negates both.
pub open spec fn folder_key(f: Folder) -> (i128, i128) {
    ((-(f.sort_order as int)) as i128, (-(f.created_at.micros as int)) as i128)
}

/// The keys of the tasks, in their order.
pub open spec fn task_keys(s: Seq<Task>) -> Seq<(i128, i128)> {
    s.map_values(|t: Task| task_key(t))
}

/// The keys of the artifacts, in their order.
pub open spec fn artifact_keys(s: Seq<Artifact>) -> Seq<(i128, i128)> {
    s.map_values(|x: Artifact| artifact_key(x))
}

/// The keys of the entries, in their order.
pub open spec fn entry_keys(s: Seq<TimeEntry>) -> Seq<(i128, i128)> {
    s.map_values(|e: TimeEntry| entry_key(e))
}

/// The keys of the folders, in their order.
pub open spec fn folder_keys(s: Seq<Folder>) -> Seq<(i128, i128)> {
    s.map_values(|f: Folder| folder_key(f))
}

/// Whether a task is shown by a listing.
pub open spec fn task_shown(include_archived: bool) -> spec_fn(Task) -> bool {
    |t: Task| include_archived || !t.archived
}

/// Whether an entry passes the filter: started within the bounds given, on the task given.
pub open spec fn entry_passes(f: EntryFilter) -> spec_fn(TimeEntry) -> bool {
    |e: TimeEntry|
        (f.from.is_none() || f.from.unwrap().micros <= e.started_at.micros) && (f.to.is_none()
            || e.started_at.micros <= f.to.unwrap().micros) && (f.task_id.is_none() || e.task_id
            == f.task_id)
}

/// The tasks, newest first; archived ones only when asked for.
pub fn list_tasks(ledger: &Ledger, include_archived: bool) -> (r: Result<Vec<Task>, AppError>)
    ensures
        r is Ok,
        ({
            let kept = ledger.tasks@.filter(task_shown(include_archived));
            exists|idx: Seq<usize>|
                #[trigger] ranked_positions(task_keys(kept), idx)
                    && r->Ok_0@.len() == kept.len() && forall|a: int|
                    0 <= a < kept.len() ==> r->Ok_0@[a] == kept[#[trigger] idx[a] as int]
        }),
{
    let ghost pred = task_shown(include_archived);
    let mut kept: Vec<Task> = Vec::new();
    let mut i: usize = 0;
    while i < ledger.tasks.len()
        invariant
            i <= ledger.tasks@.len(),
            pred == task_shown(include_archived),
            kept@ == ledger.tasks@.subrange(0, i as int).filter(pred),
        decreases ledger.tasks@.len() - i,
    {
        proof {
            reveal(Seq::filter);
            assert(ledger.tasks@.subrange(0, i + 1).drop_last() == ledger.tasks@.subrange(0, i as int));
        }
        if include_archived || !ledger.tasks[i].archived {
            kept.push(ledger.tasks[i].duplicate());
        }
        i = i + 1;
    }
    proof {
        assert(ledger.tasks@.subrange(0, ledger.tasks@.len() as int) == ledger.tasks@);
    }
    let mut keys: Vec<(i128, i128)> = Vec::new();
    let mut i: usize = 0;
    while i < kept.len()
        invariant
            i <= kept@.len(),
            keys@ == kept@.subrange(0, i as int).map_values(|t: Task| task_key(t)),
        decreases kept@.len() - i,
    {
        keys.push((kept[i].created_at.micros as i128, 0));
        proof {
            assert(kept@.subrange(0, i + 1).map_values(|t: Task| task_key(t)) =~= kept@.subrange(
                0,
                i as int,
            ).map_values(|t: Task| task_key(t)).push(task_key(kept@[i as int])));
        }
        i = i + 1;
    }
    proof {
        assert(kept@.subrange(0, kept@.len() as int) == kept@);
    }
    let idx = rank_positions(&keys);
    let mut out: Vec<Task> = Vec::new();
    let mut a: usize = 0;
    while a < idx.len()
        invariant
            a <= idx@.len(),
            ranked_positions(keys@, idx@),
            keys@.len() == kept@.len(),
            out@.len() == a,
            forall|b: int| 0 <= b < a ==> out@[b] == kept@[#[trigger] idx@[b] as int],
        decreases idx@.len() - a,
    {
        out.push(kept[idx[a]].duplicate());
        a = a + 1;
    }
    proof {
        assert(keys@ == task_keys(kept@));
        assert(ranked_positions(task_keys(kept@), idx@));
    }
    Ok(out)
}

/// The artifacts, newest first, at most `limit` of them when one is given.
///
/// Fails with `InvalidInput` on a negative limit.
pub fn list_artifacts(ledger: &Ledger, limit: Option<i64>) -> (r: Result<Vec<Artifact>, AppError>)
    ensures
        limited(limit, ledger.artifacts@.len() as int) is None <==> r is Err,
        r is Err ==> r->Err_0 is InvalidInput,
        r is Ok ==> exists|idx: Seq<usize>|
            #[trigger] ranked_positions(artifact_keys(ledger.artifacts@), idx)
                && r->Ok_0@.len() == limited(limit, ledger.artifacts@.len() as int).unwrap()
                && forall|a: int|
                0 <= a < r->Ok_0@.len() ==> r->Ok_0@[a] == ledger.artifacts@[#[trigger] idx[a] as int],
{
    let all = &ledger.artifacts;
    let count = take_count(limit, all.len())?;
    let mut keys: Vec<(i128, i128)> = Vec::new();
    let mut i: usize = 0;
    while i < all.len()
        invariant
            i <= all@.len(),
            keys@ == all@.subrange(0, i as int).map_values(|x: Artifact| artifact_key(x)),
        decreases all@.len() - i,
    {
        keys.push((all[i].created_at.micros as i128, 0));
        proof {
            assert(all@.subrange(0, i + 1).map_values(|x: Artifact| artifact_key(x)) =~= all@.subrange(
                0,
                i as int,
            ).map_values(|x: Artifact| artifact_key(x)).push(artifact_key(all@[i as int])));
        }
        i = i + 1;
    }
    proof {
        assert(all@.subrange(0, all@.len() as int) == all@);
    }
    let idx = rank_positions(&keys);
    let mut out: Vec<Artifact> = Vec::new();
    let mut a: usize = 0;
    while a < count
        invariant
            a <= count <= idx@.len(),
            ranked_positions(keys@, idx@),
            keys@.len() == all@.len(),
            out@.len() == a,
            forall|b: int| 0 <= b < a ==> out@[b] == all@[#[trigger] idx@[b] as int],
        decreases count - a,
    {
        out.push(all[idx[a]].duplicate());
        a = a + 1;
    }
    proof {
        assert(keys@ == artifact_keys(all@));
        assert(ranked_positions(artifact_keys(all@), idx@));
    }
    Ok(out)
}

/// The folders, smallest sort order first and, within one order, oldest first.
pub fn list_folders(ledger: &Ledger) -> (r: Result<Vec<Folder>, AppError>)
    ensures
        r is Ok,
        exists|idx: Seq<usize>|
            #[trigger] ranked_positions(folder_keys(ledger.folders@), idx)
                && r->Ok_0@.len() == ledger.folders@.len() && forall|a: int|
                0 <= a < r->Ok_0@.len() ==> r->Ok_0@[a] == ledger.folders@[#[trigger] idx[a] as int],
{
    let all = &ledger.folders;
    let mut keys: Vec<(i128, i128)> = Vec::new();
    let mut i: usize = 0;
    while i < all.len()
        invariant
            i <= all@.len(),
            keys@ == all@.subrange(0, i as int).map_values(|f: Folder| folder_key(f)),
        decreases all@.len() - i,
    {
        keys.push((-(all[i].sort_order as i128), -(all[i].created_at.micros as i128)));
        proof {
            assert(all@.subrange(0, i + 1).map_values(|f: Folder| folder_key(f)) =~= all@.subrange(
                0,
                i as int,
            ).map_values(|f: Folder| folder_key(f)).push(folder_key(all@[i as int])));
        }
        i = i + 1;
    }
    proof {
        assert(all@.subrange(0, all@.len() as int) == all@);
    }
    let idx = rank_positions(&keys);
    let mut out: Vec<Folder> = Vec::new();
    let mut a: usize = 0;
    while a < idx.len()
        invariant
            a <= idx@.len(),
            ranked_positions(keys@, idx@),
            keys@.len() == all@.len(),
            out@.len() == a,
            forall|b: int| 0 <= b < a ==> out@[b] == all@[#[trigger] idx@[b] as int],
        decreases idx@.len() - a,
    {
        out.push(all[idx[a]].duplicate());
        a = a + 1;
    }
    proof {
        assert(keys@ == folder_keys(all@));
        assert(ranked_positions(folder_keys(all@), idx@));
    }
    Ok(out)
}

/// The entries that pass the filter, latest start first, at most `limit` of them when
/// one is given, each with its task and linked artifacts.
///
/// Fails with `InvalidInput` on a negative limit.
pub fn list_entries(ledger: &Ledger, filter: &EntryFilter) -> (r: Result<
    Vec<TimeEntryWithRelations>,
    AppError,
>)
    requires
        ledger.wf(),
    ensures
        ({
            let kept = ledger.entries@.filter(entry_passes(*filter));
            &&& limited(filter.limit, kept.len() as int) is None <==> r is Err
            &&& r is Err ==> r->Err_0 is InvalidInput
            &&& r is Ok ==> exists|idx: Seq<usize>|
                #[trigger] ranked_positions(entry_keys(kept), idx)
                    && r->Ok_0@.len() == limited(filter.limit, kept.len() as int).unwrap()
                    && forall|a: int|
                    0 <= a < r->Ok_0@.len() ==> relations_match(
                        *ledger,
                        kept[#[trigger] idx[a] as int],
                        r->Ok_0@[a],
                    )
        }),
{
    let ghost pred = entry_passes(*filter);
    let mut kept: Vec<TimeEntry> = Vec::new();
    let mut i: usize = 0;
    while i < ledger.entries.len()
        invariant
            i <= ledger.entries@.len(),
            pred == entry_passes(*filter),
            kept@ == ledger.entries@.subrange(0, i as int).filter(pred),
        decreases ledger.entries@.len() - i,
    {
        proof {
            reveal(Seq::filter);
            assert(ledger.entries@.subrange(0, i + 1).drop_last() == ledger.entries@.subrange(
                0,
                i as int,
            ));
        }
        let e = &ledger.entries[i];
        let after_from = match filter.from {
            Some(f) => f.micros <= e.started_at.micros,
            None => true,
        };
        let before_to = match filter.to {
            Some(t) => e.started_at.micros <= t.micros,
            None => true,
        };
        let on_task = match filter.task_id {
            Some(t) => match e.task_id {
                Some(x) => x == t,
                None => false,
            },
            None => true,
        };
        if after_from && before_to && on_task {
            kept.push(e.duplicate());
        }
        i = i + 1;
    }
    proof {
        assert(ledger.entries@.subrange(0, ledger.entries@.len() as int) == ledger.entries@);
    }
    let count = take_count(filter.limit, kept.len())?;
    let mut keys: Vec<(i128, i128)> = Vec::new();
    let mut i: usize = 0;
    while i < kept.len()
        invariant
            i <= kept@.len(),
            keys@ == kept@.subrange(0, i as int).map_values(|e: TimeEntry| entry_key(e)),
        decreases kept@.len() - i,
    {
        keys.push((kept[i].started_at.micros as i128, 0));
        proof {
            assert(kept@.subrange(0, i + 1).map_values(|e: TimeEntry| entry_key(e)) =~= kept@.subrange(
                0,
                i as int,
            ).map_values(|e: TimeEntry| entry_key(e)).push(entry_key(kept@[i as int])));
        }
        i = i + 1;
    }
    proof {
        assert(kept@.subrange(0, kept@.len() as int) == kept@);
    }
    let idx = rank_positions(&keys);
    let mut out: Vec<TimeEntryWithRelations> = Vec::new();
    let mut a: usize = 0;
    while a < count
        invariant
            ledger.wf(),
            a <= count <= idx@.len(),
            ranked_positions(keys@, idx@),
            keys@.len() == kept@.len(),
            out@.len() == a,
            forall|b: int| 0 <= b < a ==> relations_match(*ledger, kept@[#[trigger] idx@[b] as int], out@[b]),
        decreases count - a,
    {
        out.push(entry_to_with_relations(ledger, &kept[idx[a]]));
        a = a + 1;
    }
    proof {
        assert(keys@ == entry_keys(kept@));
        assert(ranked_positions(entry_keys(kept@), idx@));
    }
    Ok(out)
}

} // verus!
