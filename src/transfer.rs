use vstd::prelude::*;

use crate::error::AppError;
use crate::ledger::{
    lemma_artifact_ids_kept, lemma_entry_ids_kept, lemma_links_still_resolve, links_resolve,
    distinct_artifacts, distinct_entries, distinct_links, distinct_tasks, find_artifact,
    find_entry, find_link, find_task, has_artifact, has_entry, has_link, has_task, Ledger,
};
use crate::model::{copy_text, seconds_between, Artifact, EntryArtifact, Id, Task, TimeEntry, Timestamp};
use crate::ordering::{listed, rank_positions, ranked_positions};
use crate::outside::current_time;

verus! {

/// The snapshot format that this library writes and reads.
pub const EXPORT_VERSION: &'static str = "1.0";

/// An entry as a snapshot holds it, with its length in whole seconds once it has ended.
#[derive(Clone, Debug, PartialEq)]
pub struct ExportTimeEntry {
    pub id: Id,
    pub task_id: Option<Id>,
    pub started_at: Timestamp,
    pub ended_at: Option<Timestamp>,
    pub duration_seconds: Option<i64>,
    pub memo: Option<String>,
    pub created_at: Timestamp,
    pub updated_at: Timestamp,
}

/// A point-in-time copy of the tasks, artifacts, entries and links of a ledger.
#[derive(Clone, Debug)]
pub struct ExportData {
    pub version: String,
    pub exported_at: Timestamp,
    pub tasks: Vec<Task>,
    pub artifacts: Vec<Artifact>,
    pub time_entries: Vec<ExportTimeEntry>,
    pub entry_artifacts: Vec<EntryArtifact>,
}

/// How many records an import wrote.
#[derive(Clone, Copy, Debug, PartialEq, Eq, Structural)]
pub struct ImportResult {
    pub tasks_imported: usize,
    pub entries_imported: usize,
    pub artifacts_imported: usize,
}

/// The snapshot form of an entry.
pub open spec fn exported(e: TimeEntry) -> ExportTimeEntry {
    ExportTimeEntry {
        id: e.id,
        task_id: e.task_id,
        started_at: e.started_at,
        ended_at: e.ended_at,
        duration_seconds: match e.ended_at {
            Some(end) => Some(seconds_between(e.started_at.micros as int, end.micros as int) as i64),
            None => None,
        },
        memo: e.memo,
        created_at: e.created_at,
        updated_at: e.updated_at,
    }
}

/// The entry that a snapshot record stands for; its stored duration is not kept.
pub open spec fn imported(x: ExportTimeEntry) -> TimeEntry {
    TimeEntry {
        id: x.id,
        task_id: x.task_id,
        started_at: x.started_at,
        ended_at: x.ended_at,
        memo: x.memo,
        created_at: x.created_at,
        updated_at: x.updated_at,
    }
}

/// Snapshot entries carry distinct identifiers.
pub open spec fn distinct_exported(s: Seq<ExportTimeEntry>) -> bool {
    forall|i: int, j: int|
        0 <= i < s.len() && 0 <= j < s.len() && i != j ==> (#[trigger] s[i]).id != (
        #[trigger] s[j]).id
}

/// `existing` followed by each incoming task whose identifier is not yet there.
pub open spec fn merged_tasks(existing: Seq<Task>, incoming: Seq<Task>) -> Seq<Task>
    decreases incoming.len(),
{
    if incoming.len() == 0 {
        existing
    } else {
        let acc = merged_tasks(existing, incoming.drop_last());
        if has_task(acc, incoming.last().id) {
            acc
        } else {
            acc.push(incoming.last())
        }
    }
}

/// `existing` followed by each incoming artifact whose identifier is not yet there.
pub open spec fn merged_artifacts(existing: Seq<Artifact>, incoming: Seq<Artifact>) -> Seq<
    Artifact,
>
    decreases incoming.len(),
{
    if incoming.len() == 0 {
        existing
    } else {
        let acc = merged_artifacts(existing, incoming.drop_last());
        if has_artifact(acc, incoming.last().id) {
            acc
        } else {
            acc.push(incoming.last())
        }
    }
}

/// `existing` followed by each incoming entry whose identifier is not yet there.
pub open spec fn merged_entries(existing: Seq<TimeEntry>, incoming: Seq<ExportTimeEntry>) -> Seq<
    TimeEntry,
>
    decreases incoming.len(),
{
    if incoming.len() == 0 {
        existing
    } else {
        let acc = merged_entries(existing, incoming.drop_last());
        if has_entry(acc, incoming.last().id) {
            acc
        } else {
            acc.push(imported(incoming.last()))
        }
    }
}

/// `existing` followed by each incoming link that is new and whose entry and artifact
/// are both among `entries` and `artifacts`; the others are dropped.
pub open spec fn merged_links(
    existing: Seq<EntryArtifact>,
    incoming: Seq<EntryArtifact>,
    entries: Seq<TimeEntry>,
    artifacts: Seq<Artifact>,
) -> Seq<EntryArtifact>
    decreases incoming.len(),
{
    if incoming.len() == 0 {
        existing
    } else {
        let acc = merged_links(existing, incoming.drop_last(), entries, artifacts);
        let l = incoming.last();
        if has_link(acc, l) || !has_entry(entries, l.entry_id) || !has_artifact(
            artifacts,
            l.artifact_id,
        ) {
            acc
        } else {
            acc.push(l)
        }
    }
}

/// Oldest first: the key of a task is its creation instant, negated.
pub open spec fn task_created_key(t: Task) -> (i128, i128) {
    ((-(t.created_at.micros as int)) as i128, 0)
}

/// Oldest first: the key of an artifact is its creation instant, negated.
pub open spec fn artifact_created_key(x: Artifact) -> (i128, i128) {
    ((-(x.created_at.micros as int)) as i128, 0)
}

/// Earliest start first: the key of an entry is its start, negated.
pub open spec fn entry_started_key(e: TimeEntry) -> (i128, i128) {
    ((-(e.started_at.micros as int)) as i128, 0)
}

/// The keys of the tasks, in their order.
pub open spec fn task_created_keys(s: Seq<Task>) -> Seq<(i128, i128)> {
    s.map_values(|t: Task| task_created_key(t))
}

/// The keys of the artifacts, in their order.
pub open spec fn artifact_created_keys(s: Seq<Artifact>) -> Seq<(i128, i128)> {
    s.map_values(|x: Artifact| artifact_created_key(x))
}

/// The keys of the entries, in their order.
pub open spec fn entry_started_keys(s: Seq<TimeEntry>) -> Seq<(i128, i128)> {
    s.map_values(|e: TimeEntry| entry_started_key(e))
}

/// `out` holds the records of `source`, each once, in the order that ranks `keys`.
pub open spec fn arranged<T>(out: Seq<T>, source: Seq<T>, keys: Seq<(i128, i128)>) -> bool {
    exists|idx: Seq<usize>|
        #[trigger] ranked_positions(keys, idx) && out.len() == source.len() && forall|a: int|
            0 <= a < out.len() ==> out[a] == source[#[trigger] idx[a] as int]
}

/// A snapshot that a replacing import takes whole: distinct identifiers in each table,
/// no link twice, and every link naming an entry and an artifact of the snapshot.
pub open spec fn snapshot_ok(d: ExportData) -> bool {
    &&& replace_accepts(d)
    &&& distinct_links(d.entry_artifacts@)
    &&& links_resolve(
        d.entry_artifacts@,
        d.time_entries@.map_values(|x: ExportTimeEntry| imported(x)),
        d.artifacts@,
    )
}

/// A snapshot of the ledger taken at `now`: its tasks and artifacts oldest first, its
/// entries by start with their durations, and its links. The snapshot of a well-formed
/// ledger is one that a replacing import takes whole.
pub fn create_export_data(ledger: &Ledger, now: Timestamp) -> (r: ExportData)
    ensures
        r.version@ == EXPORT_VERSION@,
        r.exported_at == now,
        arranged(r.tasks@, ledger.tasks@, task_created_keys(ledger.tasks@)),
        arranged(r.artifacts@, ledger.artifacts@, artifact_created_keys(ledger.artifacts@)),
        arranged(
            r.time_entries@,
            ledger.entries@.map_values(|e: TimeEntry| exported(e)),
            entry_started_keys(ledger.entries@),
        ),
        r.entry_artifacts@ == ledger.links@,
        ledger.wf() ==> snapshot_ok(r),
{
    let ts = &ledger.tasks;
    let mut keys: Vec<(i128, i128)> = Vec::new();
    let mut i: usize = 0;
    while i < ts.len()
        invariant
            i <= ts@.len(),
            keys@ == ts@.subrange(0, i as int).map_values(|t: Task| task_created_key(t)),
        decreases ts@.len() - i,
    {
        keys.push((-(ts[i].created_at.micros as i128), 0));
        proof {
            assert(ts@.subrange(0, i + 1).map_values(|t: Task| task_created_key(t)) =~= ts@.subrange(
                0,
                i as int,
            ).map_values(|t: Task| task_created_key(t)).push(task_created_key(ts@[i as int])));
        }
        i = i + 1;
    }
    proof {
        assert(ts@.subrange(0, ts@.len() as int) == ts@);
    }
    let tidx = rank_positions(&keys);
    let mut tasks: Vec<Task> = Vec::new();
    let mut a: usize = 0;
    while a < tidx.len()
        invariant
            a <= tidx@.len(),
            ranked_positions(keys@, tidx@),
            keys@.len() == ts@.len(),
            tasks@.len() == a,
            forall|b: int| 0 <= b < a ==> tasks@[b] == ts@[#[trigger] tidx@[b] as int],
        decreases tidx@.len() - a,
    {
        tasks.push(ts[tidx[a]].duplicate());
        a = a + 1;
    }
    proof {
        assert(keys@ == task_created_keys(ts@));
        assert(ranked_positions(task_created_keys(ts@), tidx@));
    }

    let xs = &ledger.artifacts;
    let mut keys: Vec<(i128, i128)> = Vec::new();
    let mut i: usize = 0;
    while i < xs.len()
        invariant
            i <= xs@.len(),
            keys@ == xs@.subrange(0, i as int).map_values(|x: Artifact| artifact_created_key(x)),
        decreases xs@.len() - i,
    {
        keys.push((-(xs[i].created_at.micros as i128), 0));
        proof {
            assert(xs@.subrange(0, i + 1).map_values(|x: Artifact| artifact_created_key(x))
                =~= xs@.subrange(0, i as int).map_values(|x: Artifact| artifact_created_key(x)).push(
                artifact_created_key(xs@[i as int]),
            ));
        }
        i = i + 1;
    }
    proof {
        assert(xs@.subrange(0, xs@.len() as int) == xs@);
    }
    let aidx = rank_positions(&keys);
    let mut artifacts: Vec<Artifact> = Vec::new();
    let mut a: usize = 0;
    while a < aidx.len()
        invariant
            a <= aidx@.len(),
            ranked_positions(keys@, aidx@),
            keys@.len() == xs@.len(),
            artifacts@.len() == a,
            forall|b: int| 0 <= b < a ==> artifacts@[b] == xs@[#[trigger] aidx@[b] as int],
        decreases aidx@.len() - a,
    {
        artifacts.push(xs[aidx[a]].duplicate());
        a = a + 1;
    }
    proof {
        assert(keys@ == artifact_created_keys(xs@));
        assert(ranked_positions(artifact_created_keys(xs@), aidx@));
    }

    let es = &ledger.entries;
    let mut keys: Vec<(i128, i128)> = Vec::new();
    let mut i: usize = 0;
    while i < es.len()
        invariant
            i <= es@.len(),
            keys@ == es@.subrange(0, i as int).map_values(|e: TimeEntry| entry_started_key(e)),
        decreases es@.len() - i,
    {
        keys.push((-(es[i].started_at.micros as i128), 0));
        proof {
            assert(es@.subrange(0, i + 1).map_values(|e: TimeEntry| entry_started_key(e))
                =~= es@.subrange(0, i as int).map_values(|e: TimeEntry| entry_started_key(e)).push(
                entry_started_key(es@[i as int]),
            ));
        }
        i = i + 1;
    }
    proof {
        assert(es@.subrange(0, es@.len() as int) == es@);
    }
    let eidx = rank_positions(&keys);
    let mut entries: Vec<ExportTimeEntry> = Vec::new();
    let mut a: usize = 0;
    while a < eidx.len()
        invariant
            a <= eidx@.len(),
            ranked_positions(keys@, eidx@),
            keys@.len() == es@.len(),
            entries@.len() == a,
            forall|b: int| 0 <= b < a ==> entries@[b] == exported(es@[#[trigger] eidx@[b] as int]),
        decreases eidx@.len() - a,
    {
        let e = &es[eidx[a]];
        let x = ExportTimeEntry {
            id: e.id,
            task_id: e.task_id,
            started_at: e.started_at,
            ended_at: e.ended_at,
            duration_seconds: e.duration_seconds(),
            memo: copy_text(&e.memo),
            created_at: e.created_at,
            updated_at: e.updated_at,
        };
        entries.push(x);
        a = a + 1;
    }
    proof {
        assert(keys@ == entry_started_keys(es@));
        assert(ranked_positions(entry_started_keys(es@), eidx@));
        let src = es@.map_values(|e: TimeEntry| exported(e));
        assert forall|b: int| 0 <= b < entries@.len() implies entries@[b] == src[#[trigger] eidx@[b] as int] by {}
    }

    let mut links: Vec<EntryArtifact> = Vec::new();
    let mut i: usize = 0;
    while i < ledger.links.len()
        invariant
            i <= ledger.links@.len(),
            links@ == ledger.links@.subrange(0, i as int),
        decreases ledger.links@.len() - i,
    {
        links.push(ledger.links[i]);
        i = i + 1;
    }
    proof {
        assert(ledger.links@.subrange(0, ledger.links@.len() as int) == ledger.links@);
        if ledger.wf() {
            let t = tasks@;
            assert forall|p: int, q: int| 0 <= p < t.len() && 0 <= q < t.len() && p != q implies (
            #[trigger] t[p]).id != (#[trigger] t[q]).id by {
                assert(tidx@[p] != tidx@[q]);
            }
            let x = artifacts@;
            assert forall|p: int, q: int| 0 <= p < x.len() && 0 <= q < x.len() && p != q implies (
            #[trigger] x[p]).id != (#[trigger] x[q]).id by {
                assert(aidx@[p] != aidx@[q]);
            }
            let v = entries@;
            assert forall|p: int, q: int| 0 <= p < v.len() && 0 <= q < v.len() && p != q implies (
            #[trigger] v[p]).id != (#[trigger] v[q]).id by {
                assert(eidx@[p] != eidx@[q]);
            }
            let im = v.map_values(|y: ExportTimeEntry| imported(y));
            assert forall|id: Id| has_entry(es@, id) implies #[trigger] has_entry(im, id) by {
                let j = choose|j: int| 0 <= j < es@.len() && (#[trigger] es@[j]).id == id;
                assert(listed(eidx@, j));
                let p = choose|p: int| 0 <= p < eidx@.len() && eidx@[p] == j;
                assert(im[p].id == id);
            }
            assert forall|id: Id| has_artifact(xs@, id) implies #[trigger] has_artifact(x, id) by {
                let j = choose|j: int| 0 <= j < xs@.len() && (#[trigger] xs@[j]).id == id;
                assert(listed(aidx@, j));
                let p = choose|p: int| 0 <= p < aidx@.len() && aidx@[p] == j;
                assert(x[p].id == id);
            }
            lemma_links_still_resolve(ledger.links@, es@, xs@, im, x);
        }
    }
    ExportData {
        version: EXPORT_VERSION.to_owned(),
        exported_at: now,
        tasks,
        artifacts,
        time_entries: entries,
        entry_artifacts: links,
    }
}

/// A snapshot of the ledger taken now; see `create_export_data`.
pub fn export_data(ledger: &Ledger) -> (r: ExportData)
    ensures
        r.version@ == EXPORT_VERSION@,
        arranged(r.tasks@, ledger.tasks@, task_created_keys(ledger.tasks@)),
        arranged(r.artifacts@, ledger.artifacts@, artifact_created_keys(ledger.artifacts@)),
        arranged(
            r.time_entries@,
            ledger.entries@.map_values(|e: TimeEntry| exported(e)),
            entry_started_keys(ledger.entries@),
        ),
        r.entry_artifacts@ == ledger.links@,
        ledger.wf() ==> snapshot_ok(r),
{
    create_export_data(ledger, current_time())
}

/// Adds each task whose identifier is not yet in the ledger.
fn import_tasks(ledger: &mut Ledger, incoming: &Vec<Task>)
    requires
        old(ledger).wf(),
    ensures
        final(ledger).wf(),
        final(ledger).tasks@ == merged_tasks(old(ledger).tasks@, incoming@),
        final(ledger).tasks@.len() >= old(ledger).tasks@.len(),
        final(ledger).folders@ == old(ledger).folders@,
        final(ledger).artifacts@ == old(ledger).artifacts@,
        final(ledger).entries@ == old(ledger).entries@,
        final(ledger).links@ == old(ledger).links@,
{
    let mut i: usize = 0;
    while i < incoming.len()
        invariant
            i <= incoming@.len(),
            ledger.wf(),
            ledger.tasks@ == merged_tasks(old(ledger).tasks@, incoming@.subrange(0, i as int)),
            ledger.tasks@.len() >= old(ledger).tasks@.len(),
            ledger.folders@ == old(ledger).folders@,
            ledger.artifacts@ == old(ledger).artifacts@,
            ledger.entries@ == old(ledger).entries@,
            ledger.links@ == old(ledger).links@,
        decreases incoming@.len() - i,
    {
        proof {
            assert(incoming@.subrange(0, i + 1).drop_last() == incoming@.subrange(0, i as int));
            assert(incoming@.subrange(0, i + 1).last() == incoming@[i as int]);
        }
        let t = &incoming[i];
        match find_task(&ledger.tasks, t.id) {
            Some(_) => {},
            None => {
                let ghost before = ledger.tasks@;
                ledger.tasks.push(t.duplicate());
                proof {
                    let s = ledger.tasks@;
                    assert forall|a: int, b: int| 0 <= a < s.len() && 0 <= b < s.len() && a != b implies (
                    #[trigger] s[a]).id != (#[trigger] s[b]).id by {
                        if a < before.len() {
                            assert(s[a] == before[a]);
                        }
                        if b < before.len() {
                            assert(s[b] == before[b]);
                        }
                    }
                }
            },
        }
        i = i + 1;
    }
    proof {
        assert(incoming@.subrange(0, incoming@.len() as int) == incoming@);
    }
}

/// Adds each artifact whose identifier is not yet in the ledger.
fn import_artifacts(ledger: &mut Ledger, incoming: &Vec<Artifact>)
    requires
        old(ledger).wf(),
    ensures
        final(ledger).wf(),
        final(ledger).artifacts@ == merged_artifacts(old(ledger).artifacts@, incoming@),
        final(ledger).artifacts@.len() >= old(ledger).artifacts@.len(),
        final(ledger).folders@ == old(ledger).folders@,
        final(ledger).tasks@ == old(ledger).tasks@,
        final(ledger).entries@ == old(ledger).entries@,
        final(ledger).links@ == old(ledger).links@,
{
    let mut i: usize = 0;
    while i < incoming.len()
        invariant
            i <= incoming@.len(),
            ledger.wf(),
            ledger.artifacts@ == merged_artifacts(old(ledger).artifacts@, incoming@.subrange(0, i as int)),
            ledger.artifacts@.len() >= old(ledger).artifacts@.len(),
            ledger.folders@ == old(ledger).folders@,
            ledger.tasks@ == old(ledger).tasks@,
            ledger.entries@ == old(ledger).entries@,
            ledger.links@ == old(ledger).links@,
        decreases incoming@.len() - i,
    {
        proof {
            assert(incoming@.subrange(0, i + 1).drop_last() == incoming@.subrange(0, i as int));
            assert(incoming@.subrange(0, i + 1).last() == incoming@[i as int]);
        }
        let x = &incoming[i];
        match find_artifact(&ledger.artifacts, x.id) {
            Some(_) => {},
            None => {
                let ghost before = ledger.artifacts@;
                ledger.artifacts.push(x.duplicate());
                proof {
                    let s = ledger.artifacts@;
                    lemma_artifact_ids_kept(before, s);
                    lemma_links_still_resolve(ledger.links@, ledger.entries@, before, ledger.entries@, s);
                    assert forall|a: int, b: int| 0 <= a < s.len() && 0 <= b < s.len() && a != b implies (
                    #[trigger] s[a]).id != (#[trigger] s[b]).id by {
                        if a < before.len() {
                            assert(s[a] == before[a]);
                        }
                        if b < before.len() {
                            assert(s[b] == before[b]);
                        }
                    }
                }
            },
        }
        i = i + 1;
    }
    proof {
        assert(incoming@.subrange(0, incoming@.len() as int) == incoming@);
    }
}

/// Adds each entry whose identifier is not yet in the ledger.
fn import_entries(ledger: &mut Ledger, incoming: &Vec<ExportTimeEntry>)
    requires
        old(ledger).wf(),
    ensures
        final(ledger).wf(),
        final(ledger).entries@ == merged_entries(old(ledger).entries@, incoming@),
        final(ledger).entries@.len() >= old(ledger).entries@.len(),
        final(ledger).folders@ == old(ledger).folders@,
        final(ledger).tasks@ == old(ledger).tasks@,
        final(ledger).artifacts@ == old(ledger).artifacts@,
        final(ledger).links@ == old(ledger).links@,
{
    let mut i: usize = 0;
    while i < incoming.len()
        invariant
            i <= incoming@.len(),
            ledger.wf(),
            ledger.entries@ == merged_entries(old(ledger).entries@, incoming@.subrange(0, i as int)),
            ledger.entries@.len() >= old(ledger).entries@.len(),
            ledger.folders@ == old(ledger).folders@,
            ledger.tasks@ == old(ledger).tasks@,
            ledger.artifacts@ == old(ledger).artifacts@,
            ledger.links@ == old(ledger).links@,
        decreases incoming@.len() - i,
    {
        proof {
            assert(incoming@.subrange(0, i + 1).drop_last() == incoming@.subrange(0, i as int));
            assert(incoming@.subrange(0, i + 1).last() == incoming@[i as int]);
        }
        let x = &incoming[i];
        match find_entry(&ledger.entries, x.id) {
            Some(_) => {},
            None => {
                let ghost before = ledger.entries@;
                let e = TimeEntry {
                    id: x.id,
                    task_id: x.task_id,
                    started_at: x.started_at,
                    ended_at: x.ended_at,
                    memo: copy_text(&x.memo),
                    created_at: x.created_at,
                    updated_at: x.updated_at,
                };
                ledger.entries.push(e);
                proof {
                    let s = ledger.entries@;
                    lemma_entry_ids_kept(before, s);
                    lemma_links_still_resolve(ledger.links@, before, ledger.artifacts@, s, ledger.artifacts@);
                    assert(s[s.len() - 1] == imported(incoming@[i as int]));
                    assert forall|a: int, b: int| 0 <= a < s.len() && 0 <= b < s.len() && a != b implies (
                    #[trigger] s[a]).id != (#[trigger] s[b]).id by {
                        if a < before.len() {
                            assert(s[a] == before[a]);
                        }
                        if b < before.len() {
                            assert(s[b] == before[b]);
                        }
                    }
                }
            },
        }
        i = i + 1;
    }
    proof {
        assert(incoming@.subrange(0, incoming@.len() as int) == incoming@);
    }
}

/// Adds each link that is new and whose entry and artifact are in the ledger.
fn import_links(ledger: &mut Ledger, incoming: &Vec<EntryArtifact>)
    requires
        old(ledger).wf(),
    ensures
        final(ledger).wf(),
        final(ledger).links@ == merged_links(
            old(ledger).links@,
            incoming@,
            old(ledger).entries@,
            old(ledger).artifacts@,
        ),
        final(ledger).folders@ == old(ledger).folders@,
        final(ledger).tasks@ == old(ledger).tasks@,
        final(ledger).artifacts@ == old(ledger).artifacts@,
        final(ledger).entries@ == old(ledger).entries@,
{
    let mut i: usize = 0;
    while i < incoming.len()
        invariant
            i <= incoming@.len(),
            ledger.wf(),
            ledger.links@ == merged_links(
                old(ledger).links@,
                incoming@.subrange(0, i as int),
                old(ledger).entries@,
                old(ledger).artifacts@,
            ),
            ledger.folders@ == old(ledger).folders@,
            ledger.tasks@ == old(ledger).tasks@,
            ledger.artifacts@ == old(ledger).artifacts@,
            ledger.entries@ == old(ledger).entries@,
        decreases incoming@.len() - i,
    {
        proof {
            assert(incoming@.subrange(0, i + 1).drop_last() == incoming@.subrange(0, i as int));
            assert(incoming@.subrange(0, i + 1).last() == incoming@[i as int]);
        }
        let l = incoming[i];
        if find_link(&ledger.links, l).is_none() && find_entry(&ledger.entries, l.entry_id).is_some()
            && find_artifact(&ledger.artifacts, l.artifact_id).is_some() {
            let ghost before = ledger.links@;
            ledger.links.push(l);
            proof {
                let s = ledger.links@;
                assert forall|a: int, b: int| 0 <= a < s.len() && 0 <= b < s.len() && a != b implies s[a]
                    != s[b] by {
                    if a < before.len() {
                        assert(s[a] == before[a]);
                    }
                    if b < before.len() {
                        assert(s[b] == before[b]);
                    }
                }
            }
        }
        i = i + 1;
    }
    proof {
        assert(incoming@.subrange(0, incoming@.len() as int) == incoming@);
    }
}

/// Whether the tasks carry distinct identifiers.
fn tasks_distinct(v: &Vec<Task>) -> (r: bool)
    ensures
        r == distinct_tasks(v@),
{
    let mut i: usize = 0;
    while i < v.len()
        invariant
            i <= v@.len(),
            forall|a: int, b: int| 0 <= a < i && 0 <= b < v@.len() && a != b ==> (#[trigger] v@[a]).id != (#[trigger] v@[b]).id,
        decreases v@.len() - i,
    {
        let mut j: usize = 0;
        while j < v.len()
            invariant
                i < v@.len(),
                j <= v@.len(),
                forall|a: int, b: int| 0 <= a < i && 0 <= b < v@.len() && a != b ==> (#[trigger] v@[a]).id != (#[trigger] v@[b]).id,
                forall|b: int| 0 <= b < j && b != i ==> v@[i as int].id != (#[trigger] v@[b]).id,
            decreases v@.len() - j,
        {
            if j != i && v[i].id == v[j].id {
                return false;
            }
            j = j + 1;
        }
        i = i + 1;
    }
    true
}

/// Whether the artifacts carry distinct identifiers.
fn artifacts_distinct(v: &Vec<Artifact>) -> (r: bool)
    ensures
        r == distinct_artifacts(v@),
{
    let mut i: usize = 0;
    while i < v.len()
        invariant
            i <= v@.len(),
            forall|a: int, b: int| 0 <= a < i && 0 <= b < v@.len() && a != b ==> (#[trigger] v@[a]).id != (#[trigger] v@[b]).id,
        decreases v@.len() - i,
    {
        let mut j: usize = 0;
        while j < v.len()
            invariant
                i < v@.len(),
                j <= v@.len(),
                forall|a: int, b: int| 0 <= a < i && 0 <= b < v@.len() && a != b ==> (#[trigger] v@[a]).id != (#[trigger] v@[b]).id,
                forall|b: int| 0 <= b < j && b != i ==> v@[i as int].id != (#[trigger] v@[b]).id,
            decreases v@.len() - j,
        {
            if j != i && v[i].id == v[j].id {
                return false;
            }
            j = j + 1;
        }
        i = i + 1;
    }
    true
}

/// Whether the snapshot entries carry distinct identifiers.
fn exported_entries_distinct(v: &Vec<ExportTimeEntry>) -> (r: bool)
    ensures
        r == distinct_exported(v@),
{
    let mut i: usize = 0;
    while i < v.len()
        invariant
            i <= v@.len(),
            forall|a: int, b: int| 0 <= a < i && 0 <= b < v@.len() && a != b ==> (#[trigger] v@[a]).id != (#[trigger] v@[b]).id,
        decreases v@.len() - i,
    {
        let mut j: usize = 0;
        while j < v.len()
            invariant
                i < v@.len(),
                j <= v@.len(),
                forall|a: int, b: int| 0 <= a < i && 0 <= b < v@.len() && a != b ==> (#[trigger] v@[a]).id != (#[trigger] v@[b]).id,
                forall|b: int| 0 <= b < j && b != i ==> v@[i as int].id != (#[trigger] v@[b]).id,
            decreases v@.len() - j,
        {
            if j != i && v[i].id == v[j].id {
                return false;
            }
            j = j + 1;
        }
        i = i + 1;
    }
    true
}

/// Tasks with new, distinct identifiers are all appended.
proof fn lemma_merge_fresh_tasks(existing: Seq<Task>, incoming: Seq<Task>)
    requires
        distinct_tasks(incoming),
        forall|i: int| 0 <= i < incoming.len() ==> !has_task(existing, (#[trigger] incoming[i]).id),
    ensures
        merged_tasks(existing, incoming) == existing + incoming,
    decreases incoming.len(),
{
    if incoming.len() > 0 {
        let d = incoming.drop_last();
        assert forall|i: int| 0 <= i < d.len() implies !has_task(existing, (#[trigger] d[i]).id) by {
            assert(d[i] == incoming[i]);
        }
        lemma_merge_fresh_tasks(existing, d);
        let acc = existing + d;
        assert(!has_task(acc, incoming.last().id)) by {
            if has_task(acc, incoming.last().id) {
                let k = choose|k: int| 0 <= k < acc.len() && (#[trigger] acc[k]).id == incoming.last().id;
                if k >= existing.len() {
                    assert(acc[k] == incoming[k - existing.len()]);
                } else {
                    assert(acc[k] == existing[k]);
                }
            }
        }
        assert(acc.push(incoming.last()) =~= existing + incoming);
    }
}

/// Artifacts with new, distinct identifiers are all appended.
proof fn lemma_merge_fresh_artifacts(existing: Seq<Artifact>, incoming: Seq<Artifact>)
    requires
        distinct_artifacts(incoming),
        forall|i: int| 0 <= i < incoming.len() ==> !has_artifact(existing, (#[trigger] incoming[i]).id),
    ensures
        merged_artifacts(existing, incoming) == existing + incoming,
    decreases incoming.len(),
{
    if incoming.len() > 0 {
        let d = incoming.drop_last();
        assert forall|i: int| 0 <= i < d.len() implies !has_artifact(existing, (#[trigger] d[i]).id) by {
            assert(d[i] == incoming[i]);
        }
        lemma_merge_fresh_artifacts(existing, d);
        let acc = existing + d;
        assert(!has_artifact(acc, incoming.last().id)) by {
            if has_artifact(acc, incoming.last().id) {
                let k = choose|k: int| 0 <= k < acc.len() && (#[trigger] acc[k]).id == incoming.last().id;
                if k >= existing.len() {
                    assert(acc[k] == incoming[k - existing.len()]);
                } else {
                    assert(acc[k] == existing[k]);
                }
            }
        }
        assert(acc.push(incoming.last()) =~= existing + incoming);
    }
}

/// Snapshot entries with new, distinct identifiers are all appended.
proof fn lemma_merge_fresh_entries(existing: Seq<TimeEntry>, incoming: Seq<ExportTimeEntry>)
    requires
        distinct_exported(incoming),
        forall|i: int| 0 <= i < incoming.len() ==> !has_entry(existing, (#[trigger] incoming[i]).id),
    ensures
        merged_entries(existing, incoming) == existing + incoming.map_values(|x: ExportTimeEntry| imported(x)),
    decreases incoming.len(),
{
    if incoming.len() > 0 {
        let d = incoming.drop_last();
        assert forall|i: int| 0 <= i < d.len() implies !has_entry(existing, (#[trigger] d[i]).id) by {
            assert(d[i] == incoming[i]);
        }
        lemma_merge_fresh_entries(existing, d);
        let acc = existing + d.map_values(|x: ExportTimeEntry| imported(x));
        assert(!has_entry(acc, incoming.last().id)) by {
            if has_entry(acc, incoming.last().id) {
                let k = choose|k: int| 0 <= k < acc.len() && (#[trigger] acc[k]).id == incoming.last().id;
                if k >= existing.len() {
                    assert(acc[k] == imported(incoming[k - existing.len()]));
                } else {
                    assert(acc[k] == existing[k]);
                }
            }
        }
        assert(acc.push(imported(incoming.last())) =~= existing + incoming.map_values(|x: ExportTimeEntry| imported(x)));
    }
}

/// Tasks whose identifiers are all present add nothing.
proof fn lemma_merge_present_tasks(existing: Seq<Task>, incoming: Seq<Task>)
    requires
        forall|i: int| 0 <= i < incoming.len() ==> has_task(existing, (#[trigger] incoming[i]).id),
    ensures
        merged_tasks(existing, incoming) == existing,
    decreases incoming.len(),
{
    if incoming.len() > 0 {
        let d = incoming.drop_last();
        assert forall|i: int| 0 <= i < d.len() implies has_task(existing, (#[trigger] d[i]).id) by {
            assert(d[i] == incoming[i]);
        }
        lemma_merge_present_tasks(existing, d);
        assert(has_task(existing, incoming[incoming.len() - 1].id));
    }
}

/// Artifacts whose identifiers are all present add nothing.
proof fn lemma_merge_present_artifacts(existing: Seq<Artifact>, incoming: Seq<Artifact>)
    requires
        forall|i: int| 0 <= i < incoming.len() ==> has_artifact(existing, (#[trigger] incoming[i]).id),
    ensures
        merged_artifacts(existing, incoming) == existing,
    decreases incoming.len(),
{
    if incoming.len() > 0 {
        let d = incoming.drop_last();
        assert forall|i: int| 0 <= i < d.len() implies has_artifact(existing, (#[trigger] d[i]).id) by {
            assert(d[i] == incoming[i]);
        }
        lemma_merge_present_artifacts(existing, d);
        assert(has_artifact(existing, incoming[incoming.len() - 1].id));
    }
}

/// Snapshot entries whose identifiers are all present add nothing.
proof fn lemma_merge_present_entries(existing: Seq<TimeEntry>, incoming: Seq<ExportTimeEntry>)
    requires
        forall|i: int| 0 <= i < incoming.len() ==> has_entry(existing, (#[trigger] incoming[i]).id),
    ensures
        merged_entries(existing, incoming) == existing,
    decreases incoming.len(),
{
    if incoming.len() > 0 {
        let d = incoming.drop_last();
        assert forall|i: int| 0 <= i < d.len() implies has_entry(existing, (#[trigger] d[i]).id) by {
            assert(d[i] == incoming[i]);
        }
        lemma_merge_present_entries(existing, d);
        assert(has_entry(existing, incoming[incoming.len() - 1].id));
    }
}

/// An identifier in neither the existing entries nor the snapshot is not there after merging.
proof fn lemma_merge_absent_entry(existing: Seq<TimeEntry>, incoming: Seq<ExportTimeEntry>, id: Id)
    requires
        !has_entry(existing, id),
        forall|i: int| 0 <= i < incoming.len() ==> (#[trigger] incoming[i]).id != id,
    ensures
        !has_entry(merged_entries(existing, incoming), id),
    decreases incoming.len(),
{
    if incoming.len() > 0 {
        let d = incoming.drop_last();
        assert forall|i: int| 0 <= i < d.len() implies (#[trigger] d[i]).id != id by {
            assert(d[i] == incoming[i]);
        }
        lemma_merge_absent_entry(existing, d, id);
        let acc = merged_entries(existing, d);
        if !has_entry(acc, incoming.last().id) {
            let n = acc.push(imported(incoming.last()));
            assert forall|k: int| 0 <= k < n.len() implies (#[trigger] n[k]).id != id by {
                if k < acc.len() {
                    assert(n[k] == acc[k]);
                }
            }
        }
    }
}

/// An identifier in neither the existing artifacts nor the snapshot is not there after merging.
proof fn lemma_merge_absent_artifact(existing: Seq<Artifact>, incoming: Seq<Artifact>, id: Id)
    requires
        !has_artifact(existing, id),
        forall|i: int| 0 <= i < incoming.len() ==> (#[trigger] incoming[i]).id != id,
    ensures
        !has_artifact(merged_artifacts(existing, incoming), id),
    decreases incoming.len(),
{
    if incoming.len() > 0 {
        let d = incoming.drop_last();
        assert forall|i: int| 0 <= i < d.len() implies (#[trigger] d[i]).id != id by {
            assert(d[i] == incoming[i]);
        }
        lemma_merge_absent_artifact(existing, d, id);
        let acc = merged_artifacts(existing, d);
        if !has_artifact(acc, incoming.last().id) {
            let n = acc.push(incoming.last());
            assert forall|k: int| 0 <= k < n.len() implies (#[trigger] n[k]).id != id by {
                if k < acc.len() {
                    assert(n[k] == acc[k]);
                }
            }
        }
    }
}

/// A link that is not held yet and lacks its entry or its artifact is not added.
proof fn lemma_link_dropped(
    existing: Seq<EntryArtifact>,
    incoming: Seq<EntryArtifact>,
    entries: Seq<TimeEntry>,
    artifacts: Seq<Artifact>,
    l: EntryArtifact,
)
    requires
        !has_link(existing, l),
        !has_entry(entries, l.entry_id) || !has_artifact(artifacts, l.artifact_id),
    ensures
        !has_link(merged_links(existing, incoming, entries, artifacts), l),
    decreases incoming.len(),
{
    if incoming.len() > 0 {
        lemma_link_dropped(existing, incoming.drop_last(), entries, artifacts, l);
        let acc = merged_links(existing, incoming.drop_last(), entries, artifacts);
        let x = incoming.last();
        if !(has_link(acc, x) || !has_entry(entries, x.entry_id) || !has_artifact(artifacts, x.artifact_id)) {
            let n = acc.push(x);
            assert forall|k: int| 0 <= k < n.len() implies n[k] != l by {
                if k < acc.len() {
                    assert(n[k] == acc[k]);
                }
            }
        }
    }
}

/// Links that are new, distinct and resolve are all appended.
proof fn lemma_merge_fresh_links(
    existing: Seq<EntryArtifact>,
    incoming: Seq<EntryArtifact>,
    entries: Seq<TimeEntry>,
    artifacts: Seq<Artifact>,
)
    requires
        distinct_links(incoming),
        forall|i: int| 0 <= i < incoming.len() ==> !has_link(existing, #[trigger] incoming[i]),
        links_resolve(incoming, entries, artifacts),
    ensures
        merged_links(existing, incoming, entries, artifacts) == existing + incoming,
    decreases incoming.len(),
{
    if incoming.len() > 0 {
        let d = incoming.drop_last();
        assert forall|i: int| 0 <= i < d.len() implies !has_link(existing, #[trigger] d[i]) by {
            assert(d[i] == incoming[i]);
        }
        assert forall|i: int| 0 <= i < d.len() implies has_entry(entries, (#[trigger] d[i]).entry_id)
            && has_artifact(artifacts, d[i].artifact_id) by {
            assert(d[i] == incoming[i]);
        }
        lemma_merge_fresh_links(existing, d, entries, artifacts);
        let acc = existing + d;
        let l = incoming.last();
        assert(!has_link(acc, l)) by {
            if has_link(acc, l) {
                let k = choose|k: int| 0 <= k < acc.len() && acc[k] == l;
                if k >= existing.len() {
                    assert(acc[k] == incoming[k - existing.len()]);
                } else {
                    assert(acc[k] == existing[k]);
                }
            }
        }
        assert(has_entry(entries, incoming[incoming.len() - 1].entry_id));
        assert(acc.push(l) =~= existing + incoming);
    }
}

/// Links that are all held already add nothing.
proof fn lemma_merge_present_links(
    existing: Seq<EntryArtifact>,
    incoming: Seq<EntryArtifact>,
    entries: Seq<TimeEntry>,
    artifacts: Seq<Artifact>,
)
    requires
        forall|i: int| 0 <= i < incoming.len() ==> has_link(existing, #[trigger] incoming[i]),
    ensures
        merged_links(existing, incoming, entries, artifacts) == existing,
    decreases incoming.len(),
{
    if incoming.len() > 0 {
        let d = incoming.drop_last();
        assert forall|i: int| 0 <= i < d.len() implies has_link(existing, #[trigger] d[i]) by {
            assert(d[i] == incoming[i]);
        }
        lemma_merge_present_links(existing, d, entries, artifacts);
        assert(has_link(existing, incoming[incoming.len() - 1]));
    }
}

/// Round trip. A replacing import of a snapshot that it takes whole (as every snapshot of
/// a well-formed ledger is) leaves exactly the snapshot's tasks, artifacts, entries and
/// links, so that each count equals the number of records; importing the same snapshot
/// again, merging, adds no record and no link.
pub proof fn lemma_round_trip(d: ExportData)
    requires
        snapshot_ok(d),
    ensures
        ({
            let t = d.tasks@;
            let a = d.artifacts@;
            let x = d.time_entries@;
            let l = d.entry_artifacts@;
            let e = x.map_values(|y: ExportTimeEntry| imported(y));
            &&& merged_tasks(Seq::empty(), t) == t
            &&& merged_artifacts(Seq::empty(), a) == a
            &&& merged_entries(Seq::empty(), x) == e
            &&& merged_links(Seq::empty(), l, e, a) == l
            &&& merged_tasks(t, t) == t
            &&& merged_artifacts(a, a) == a
            &&& merged_entries(e, x) == e
            &&& merged_links(l, l, e, a) == l
        }),
{
    let t = d.tasks@;
    let a = d.artifacts@;
    let x = d.time_entries@;
    let l = d.entry_artifacts@;
    let e = x.map_values(|y: ExportTimeEntry| imported(y));
    lemma_merge_fresh_tasks(Seq::empty(), t);
    assert(Seq::<Task>::empty() + t =~= t);
    lemma_merge_fresh_artifacts(Seq::empty(), a);
    assert(Seq::<Artifact>::empty() + a =~= a);
    lemma_merge_fresh_entries(Seq::empty(), x);
    assert(Seq::<TimeEntry>::empty() + e =~= e);
    lemma_merge_fresh_links(Seq::empty(), l, e, a);
    assert(Seq::<EntryArtifact>::empty() + l =~= l);
    assert forall|i: int| 0 <= i < t.len() implies has_task(t, (#[trigger] t[i]).id) by {}
    lemma_merge_present_tasks(t, t);
    assert forall|i: int| 0 <= i < a.len() implies has_artifact(a, (#[trigger] a[i]).id) by {}
    lemma_merge_present_artifacts(a, a);
    assert forall|i: int| 0 <= i < x.len() implies has_entry(e, (#[trigger] x[i]).id) by {
        assert(e[i].id == x[i].id);
    }
    lemma_merge_present_entries(e, x);
    assert forall|i: int| 0 <= i < l.len() implies has_link(l, #[trigger] l[i]) by {}
    lemma_merge_present_links(l, l, e, a);
}

/// Orphan links. A link of the snapshot that the store does not hold, and whose entry is
/// in neither the store nor the snapshot, or whose artifact is in neither, is not in the
/// links after the import.
pub proof fn lemma_orphan_link_dropped(
    entries: Seq<TimeEntry>,
    artifacts: Seq<Artifact>,
    links: Seq<EntryArtifact>,
    snapshot_entries: Seq<ExportTimeEntry>,
    snapshot_artifacts: Seq<Artifact>,
    snapshot_links: Seq<EntryArtifact>,
    l: EntryArtifact,
)
    requires
        !has_link(links, l),
        (!has_entry(entries, l.entry_id) && forall|i: int|
            0 <= i < snapshot_entries.len() ==> (#[trigger] snapshot_entries[i]).id != l.entry_id)
            || (!has_artifact(artifacts, l.artifact_id) && forall|i: int|
            0 <= i < snapshot_artifacts.len() ==> (#[trigger] snapshot_artifacts[i]).id
                != l.artifact_id),
    ensures
        !has_link(
            merged_links(
                links,
                snapshot_links,
                merged_entries(entries, snapshot_entries),
                merged_artifacts(artifacts, snapshot_artifacts),
            ),
            l,
        ),
{
    if !has_entry(entries, l.entry_id) && forall|i: int|
        0 <= i < snapshot_entries.len() ==> (#[trigger] snapshot_entries[i]).id != l.entry_id {
        lemma_merge_absent_entry(entries, snapshot_entries, l.entry_id);
    } else {
        lemma_merge_absent_artifact(artifacts, snapshot_artifacts, l.artifact_id);
    }
    lemma_link_dropped(
        links,
        snapshot_links,
        merged_entries(entries, snapshot_entries),
        merged_artifacts(artifacts, snapshot_artifacts),
        l,
    );
}

/// A replacing import needs distinct identifiers in each table of the snapshot.
pub open spec fn replace_accepts(data: ExportData) -> bool {
    &&& distinct_tasks(data.tasks@)
    &&& distinct_artifacts(data.artifacts@)
    &&& distinct_exported(data.time_entries@)
}

/// What an import leaves: the records it starts from (the ledger's when merging, none when
/// replacing) with the snapshot's new records after them, and the counts of those.
pub open spec fn import_outcome(
    before: Ledger,
    after: Ledger,
    data: ExportData,
    merge: bool,
    counts: ImportResult,
) -> bool {
    let bt = if merge { before.tasks@ } else { Seq::empty() };
    let ba = if merge { before.artifacts@ } else { Seq::empty() };
    let be = if merge { before.entries@ } else { Seq::empty() };
    let bl = if merge { before.links@ } else { Seq::empty() };
    &&& after.tasks@ == merged_tasks(bt, data.tasks@)
    &&& after.artifacts@ == merged_artifacts(ba, data.artifacts@)
    &&& after.entries@ == merged_entries(be, data.time_entries@)
    &&& after.links@ == merged_links(bl, data.entry_artifacts@, after.entries@, after.artifacts@)
    &&& counts.tasks_imported == after.tasks@.len() - bt.len()
    &&& counts.artifacts_imported == after.artifacts@.len() - ba.len()
    &&& counts.entries_imported == after.entries@.len() - be.len()
}

/// Imports a snapshot.
///
/// Replacing (`merge` false): the tasks, artifacts, entries and links are first cleared,
/// then every record of the snapshot is written; this fails with `Database`, changing
/// nothing, when the snapshot repeats an identifier within a table. Merging: a record
/// whose identifier is already present is skipped. In both modes a link is written only
/// when it is new and its entry and artifact are present afterwards. Folders are kept.
pub fn import_export_data(ledger: &mut Ledger, data: &ExportData, merge: bool) -> (r: Result<
    ImportResult,
    AppError,
>)
    requires
        old(ledger).wf(),
    ensures
        final(ledger).wf(),
        final(ledger).folders@ == old(ledger).folders@,
        r.is_err() <==> !merge && !replace_accepts(*data),
        r.is_err() ==> r->Err_0 is Database && final(ledger).tasks@ == old(ledger).tasks@
            && final(ledger).artifacts@ == old(ledger).artifacts@ && final(ledger).entries@ == old(
            ledger,
        ).entries@ && final(ledger).links@ == old(ledger).links@,
        r.is_ok() ==> import_outcome(*old(ledger), *final(ledger), *data, merge, r->Ok_0),
        r.is_ok() && !merge ==> {
            &&& final(ledger).tasks@ == data.tasks@
            &&& final(ledger).artifacts@ == data.artifacts@
            &&& final(ledger).entries@ == data.time_entries@.map_values(|x: ExportTimeEntry| imported(x))
            &&& r->Ok_0.tasks_imported == data.tasks@.len()
            &&& r->Ok_0.artifacts_imported == data.artifacts@.len()
            &&& r->Ok_0.entries_imported == data.time_entries@.len()
        },
{
    if !merge {
        if !(tasks_distinct(&data.tasks) && artifacts_distinct(&data.artifacts)
            && exported_entries_distinct(&data.time_entries)) {
            return Err(AppError::Database("The snapshot repeats an identifier".to_owned()));
        }
        ledger.links = Vec::new();
        ledger.entries = Vec::new();
        ledger.artifacts = Vec::new();
        ledger.tasks = Vec::new();
        proof {
            lemma_merge_fresh_tasks(Seq::empty(), data.tasks@);
            assert(Seq::<Task>::empty() + data.tasks@ =~= data.tasks@);
            lemma_merge_fresh_artifacts(Seq::empty(), data.artifacts@);
            assert(Seq::<Artifact>::empty() + data.artifacts@ =~= data.artifacts@);
            lemma_merge_fresh_entries(Seq::empty(), data.time_entries@);
            assert(Seq::<TimeEntry>::empty() + data.time_entries@.map_values(|x: ExportTimeEntry| imported(x))
                =~= data.time_entries@.map_values(|x: ExportTimeEntry| imported(x)));
        }
    }
    let ghost start = *ledger;
    let t0 = ledger.tasks.len();
    let a0 = ledger.artifacts.len();
    let e0 = ledger.entries.len();
    import_tasks(ledger, &data.tasks);
    import_artifacts(ledger, &data.artifacts);
    import_entries(ledger, &data.time_entries);
    import_links(ledger, &data.entry_artifacts);
    proof {
        if !merge {
            assert(start.tasks@ == Seq::<Task>::empty());
            assert(start.artifacts@ == Seq::<Artifact>::empty());
            assert(start.entries@ == Seq::<TimeEntry>::empty());
            assert(start.links@ == Seq::<EntryArtifact>::empty());
        }
    }
    Ok(
        ImportResult {
            tasks_imported: ledger.tasks.len() - t0,
            entries_imported: ledger.entries.len() - e0,
            artifacts_imported: ledger.artifacts.len() - a0,
        },
    )
}

/// Imports a snapshot now; see `import_export_data`.
pub fn import_data(ledger: &mut Ledger, data: ExportData, merge: bool) -> (r: Result<
    ImportResult,
    AppError,
>)
    requires
        old(ledger).wf(),
    ensures
        final(ledger).wf(),
        final(ledger).folders@ == old(ledger).folders@,
        r.is_err() <==> !merge && !replace_accepts(data),
        r.is_ok() ==> import_outcome(*old(ledger), *final(ledger), data, merge, r->Ok_0),
{
    import_export_data(ledger, &data, merge)
}

} // verus!
