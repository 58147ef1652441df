use vstd::prelude::*;

use crate::catalog::{blank, is_blank};
use crate::entries::{first_running, optional_id, read_id, read_optional_id};
use crate::error::AppError;
use crate::ledger::{
    lemma_artifact_ids_kept, lemma_links_still_resolve, links_resolve, distinct_links, find_artifact, find_entry, find_link, find_running, find_task, has_artifact,
    has_entry, has_link, has_running, has_task, Ledger,
};
use crate::model::{
    entry_duration, Artifact, CreateArtifact, EntryArtifact, Id, Task, TimeEntry,
    TimeEntryWithRelations, Timestamp, copy_text,
};
use crate::outside::{current_time, parsed_uuid, random_id};

verus! {

/// The fields of a new artifact are acceptable: neither its name nor its type is blank.
pub open spec fn artifact_input_ok(a: CreateArtifact) -> bool {
    !blank(a.name@) && !blank(a.artifact_type@)
}

/// Adds a new artifact built from the request, with the given identifier, created at
/// `now`, and links it to the entry `target` when one is given.
///
/// Fails with `InvalidInput` on a blank name or type, with `NotFound` when the target entry
/// does not exist, and with `Database` when the identifier is taken; the ledger is then
/// unchanged.
pub fn add_artifact(
    ledger: &mut Ledger,
    artifact: CreateArtifact,
    target: Option<Id>,
    id: Id,
    now: Timestamp,
) -> (r: Result<Artifact, AppError>)
    requires
        old(ledger).wf(),
    ensures
        final(ledger).wf(),
        final(ledger).tasks@ == old(ledger).tasks@,
        final(ledger).folders@ == old(ledger).folders@,
        final(ledger).entries@ == old(ledger).entries@,
        !artifact_input_ok(artifact) <==> r is Err && r->Err_0 is InvalidInput,
        artifact_input_ok(artifact) && target.is_some() && !has_entry(
            old(ledger).entries@,
            target.unwrap(),
        ) ==> r is Err && r->Err_0 is NotFound,
        artifact_input_ok(artifact) && (target.is_none() || has_entry(
            old(ledger).entries@,
            target.unwrap(),
        )) ==> if has_artifact(old(ledger).artifacts@, id) {
            r is Err && r->Err_0 is Database
        } else {
            r is Ok
        },
        r is Err ==> final(ledger).artifacts@ == old(ledger).artifacts@ && final(ledger).links@
            == old(ledger).links@,
        r is Ok ==> {
            let a = r->Ok_0;
            &&& final(ledger).artifacts@ == old(ledger).artifacts@.push(a)
            &&& a.id == id
            &&& a.name == artifact.name
            &&& a.artifact_type == artifact.artifact_type
            &&& a.reference == artifact.reference
            &&& a.metadata == artifact.metadata
            &&& a.created_at == now
            &&& final(ledger).links@ == match target {
                Some(e) => old(ledger).links@.push(EntryArtifact { entry_id: e, artifact_id: id }),
                None => old(ledger).links@,
            }
        },
{
    if is_blank(&artifact.name) {
        return Err(AppError::InvalidInput("Artifact name cannot be empty".to_owned()));
    }
    if is_blank(&artifact.artifact_type) {
        return Err(AppError::InvalidInput("Artifact type cannot be empty".to_owned()));
    }
    match target {
        Some(e) => {
            if find_entry(&ledger.entries, e).is_none() {
                return Err(AppError::NotFound("Entry not found".to_owned()));
            }
        },
        None => {},
    }
    if find_artifact(&ledger.artifacts, id).is_some() {
        return Err(AppError::Database("An artifact with this identifier exists".to_owned()));
    }
    let new_artifact = Artifact {
        id,
        name: artifact.name,
        artifact_type: artifact.artifact_type,
        reference: artifact.reference,
        metadata: artifact.metadata,
        created_at: now,
    };
    let kept = new_artifact.duplicate();
    let ghost before = ledger.artifacts@;
    let ghost before_links = ledger.links@;
    ledger.artifacts.push(new_artifact);
    proof {
        let s = ledger.artifacts@;
        assert forall|a: int, b: int| 0 <= a < s.len() && 0 <= b < s.len() && a != b implies (
        #[trigger] s[a]).id != (#[trigger] s[b]).id by {
            if a < before.len() {
                assert(s[a] == before[a]);
            }
            if b < before.len() {
                assert(s[b] == before[b]);
            }
        }
        lemma_artifact_ids_kept(before, s);
        lemma_links_still_resolve(before_links, ledger.entries@, before, ledger.entries@, s);
    }
    match target {
        Some(e) => {
            let l = EntryArtifact { entry_id: e, artifact_id: id };
            ledger.links.push(l);
            proof {
                let s = ledger.links@;
                assert forall|k: int| 0 <= k < before_links.len() implies before_links[k] != l by {
                    assert(has_artifact(before, before_links[k].artifact_id));
                }
                assert forall|a: int, b: int| 0 <= a < s.len() && 0 <= b < s.len() && a != b implies s[a]
                    != s[b] by {
                    if a < before_links.len() {
                        assert(s[a] == before_links[a]);
                    }
                    if b < before_links.len() {
                        assert(s[b] == before_links[b]);
                    }
                }
                assert(has_artifact(ledger.artifacts@, id)) by {
                    assert(ledger.artifacts@[before.len() as int].id == id);
                }
                assert forall|i: int| 0 <= i < s.len() implies has_entry(
                    ledger.entries@,
                    (#[trigger] s[i]).entry_id,
                ) && has_artifact(ledger.artifacts@, s[i].artifact_id) by {
                    if i < before_links.len() {
                        assert(s[i] == before_links[i]);
                    }
                }
            }
        },
        None => {},
    }
    Ok(kept)
}

/// Adds a new artifact built from the request, with a fresh identifier, created now, and
/// links it to the entry named by `entry_id` when one is given.
///
/// Fails with `InvalidInput` on a blank name or type or a malformed entry identifier,
/// with `NotFound` when the named entry does not exist, and with `Database` only if the
/// drawn identifier is taken, which needs an artifact already there; the ledger is then
/// unchanged.
pub fn create_artifact(ledger: &mut Ledger, artifact: CreateArtifact, entry_id: Option<String>) -> (r:
    Result<Artifact, AppError>)
    requires
        old(ledger).wf(),
    ensures
        final(ledger).wf(),
        final(ledger).tasks@ == old(ledger).tasks@,
        final(ledger).folders@ == old(ledger).folders@,
        final(ledger).entries@ == old(ledger).entries@,
        !artifact_input_ok(artifact) || optional_id(entry_id) is Err ==> r is Err && r->Err_0 is InvalidInput,
        artifact_input_ok(artifact) && optional_id(entry_id) is Ok && optional_id(entry_id)->Ok_0.is_some()
            && !has_entry(old(ledger).entries@, optional_id(entry_id)->Ok_0.unwrap()) ==> r is Err
            && r->Err_0 is NotFound,
        artifact_input_ok(artifact) && optional_id(entry_id) is Ok && r is Err && !(r->Err_0 is NotFound)
            ==> r->Err_0 is Database && old(ledger).artifacts@.len() > 0,
        r is Err ==> final(ledger).artifacts@ == old(ledger).artifacts@ && final(ledger).links@ == old(ledger).links@,
        r is Ok ==> {
            let a = r->Ok_0;
            &&& final(ledger).artifacts@ == old(ledger).artifacts@.push(a)
            &&& a.name == artifact.name
            &&& a.artifact_type == artifact.artifact_type
            &&& a.reference == artifact.reference
            &&& a.metadata == artifact.metadata
            &&& final(ledger).links@ == match optional_id(entry_id)->Ok_0 {
                Some(e) => old(ledger).links@.push(EntryArtifact { entry_id: e, artifact_id: a.id }),
                None => old(ledger).links@,
            }
        },
{
    if is_blank(&artifact.name) {
        return Err(AppError::InvalidInput("Artifact name cannot be empty".to_owned()));
    }
    if is_blank(&artifact.artifact_type) {
        return Err(AppError::InvalidInput("Artifact type cannot be empty".to_owned()));
    }
    let target = read_optional_id(&entry_id)?;
    let id = random_id();
    let now = current_time();
    add_artifact(ledger, artifact, target, id, now)
}

/// Links the entry and the artifact named by their identifier texts.
///
/// Fails with `InvalidInput` on a malformed identifier, with `NotFound` when the artifact
/// or the entry does not exist, and with `AlreadyExists` when they are linked already;
/// the ledger is then unchanged.
pub fn link_artifact(ledger: &mut Ledger, entry_id: String, artifact_id: String) -> (r: Result<
    (),
    AppError,
>)
    requires
        old(ledger).wf(),
    ensures
        final(ledger).wf(),
        final(ledger).tasks@ == old(ledger).tasks@,
        final(ledger).folders@ == old(ledger).folders@,
        final(ledger).artifacts@ == old(ledger).artifacts@,
        final(ledger).entries@ == old(ledger).entries@,
        r is Err ==> final(ledger).links@ == old(ledger).links@,
        parsed_uuid(entry_id@).is_none() || parsed_uuid(artifact_id@).is_none() ==> r is Err
            && r->Err_0 is InvalidInput,
        parsed_uuid(entry_id@).is_some() && parsed_uuid(artifact_id@).is_some() ==> {
            let l = EntryArtifact {
                entry_id: Id { value: parsed_uuid(entry_id@).unwrap() },
                artifact_id: Id { value: parsed_uuid(artifact_id@).unwrap() },
            };
            &&& has_link(old(ledger).links@, l) ==> r is Err && r->Err_0 is AlreadyExists
            &&& !has_artifact(old(ledger).artifacts@, l.artifact_id) || !has_entry(
                old(ledger).entries@,
                l.entry_id,
            ) ==> r is Err && r->Err_0 is NotFound
            &&& has_artifact(old(ledger).artifacts@, l.artifact_id) && has_entry(
                old(ledger).entries@,
                l.entry_id,
            ) ==> if has_link(old(ledger).links@, l) {
                r is Err && r->Err_0 is AlreadyExists
            } else {
                r is Ok && final(ledger).links@ == old(ledger).links@.push(l)
            }
        },
{
    let e = read_id(&entry_id)?;
    let a = read_id(&artifact_id)?;
    let l = EntryArtifact { entry_id: e, artifact_id: a };
    proof {
        assert(has_link(ledger.links@, l) ==> has_entry(ledger.entries@, e) && has_artifact(
            ledger.artifacts@,
            a,
        )) by {
            if has_link(ledger.links@, l) {
                let i = choose|i: int| 0 <= i < ledger.links@.len() && ledger.links@[i] == l;
                assert(has_entry(ledger.entries@, ledger.links@[i].entry_id));
            }
        }
    }
    let ka = match find_artifact(&ledger.artifacts, a) {
        Some(k) => k,
        None => {
            return Err(AppError::NotFound("Artifact not found".to_owned()));
        },
    };
    let ke = match find_entry(&ledger.entries, e) {
        Some(k) => k,
        None => {
            return Err(AppError::NotFound("Entry not found".to_owned()));
        },
    };
    if find_link(&ledger.links, l).is_some() {
        return Err(AppError::AlreadyExists("The entry and the artifact are linked already".to_owned()));
    }
    let ghost before = ledger.links@;
    ledger.links.push(l);
    proof {
        let s = ledger.links@;
        assert forall|x: int, y: int| 0 <= x < s.len() && 0 <= y < s.len() && x != y implies s[x] != s[y] by {
            if x < before.len() {
                assert(s[x] == before[x]);
            }
            if y < before.len() {
                assert(s[y] == before[y]);
            }
        }
        assert(ledger.entries@[ke as int].id == e && ledger.artifacts@[ka as int].id == a);
        assert forall|i: int| 0 <= i < s.len() implies has_entry(
            ledger.entries@,
            (#[trigger] s[i]).entry_id,
        ) && has_artifact(ledger.artifacts@, s[i].artifact_id) by {
            if i < before.len() {
                assert(s[i] == before[i]);
            }
        }
    }
    Ok(())
}

/// Removes the link between the entry and the artifact named by their identifier texts.
///
/// Fails with `InvalidInput` on a malformed identifier and with `NotFound` when they are
/// not linked; the ledger is then unchanged.
pub fn unlink_artifact(ledger: &mut Ledger, entry_id: String, artifact_id: String) -> (r: Result<
    (),
    AppError,
>)
    requires
        old(ledger).wf(),
    ensures
        final(ledger).wf(),
        final(ledger).tasks@ == old(ledger).tasks@,
        final(ledger).folders@ == old(ledger).folders@,
        final(ledger).artifacts@ == old(ledger).artifacts@,
        final(ledger).entries@ == old(ledger).entries@,
        r is Err ==> final(ledger).links@ == old(ledger).links@,
        parsed_uuid(entry_id@).is_none() || parsed_uuid(artifact_id@).is_none() ==> r is Err
            && r->Err_0 is InvalidInput,
        parsed_uuid(entry_id@).is_some() && parsed_uuid(artifact_id@).is_some() ==> {
            let l = EntryArtifact {
                entry_id: Id { value: parsed_uuid(entry_id@).unwrap() },
                artifact_id: Id { value: parsed_uuid(artifact_id@).unwrap() },
            };
            &&& !has_link(old(ledger).links@, l) ==> r is Err && r->Err_0 is NotFound
            &&& forall|k: int|
                0 <= k < old(ledger).links@.len() && #[trigger] old(ledger).links@[k] == l ==> r is Ok
                    && final(ledger).links@ == old(ledger).links@.remove(k)
        },
{
    let e = read_id(&entry_id)?;
    let a = read_id(&artifact_id)?;
    let l = EntryArtifact { entry_id: e, artifact_id: a };
    let k = match find_link(&ledger.links, l) {
        Some(k) => k,
        None => {
            return Err(AppError::NotFound("Link between entry and artifact not found".to_owned()));
        },
    };
    ledger.links.remove(k);
    proof {
        let s = ledger.links@;
        let o = old(ledger).links@;
        assert forall|x: int, y: int| 0 <= x < s.len() && 0 <= y < s.len() && x != y implies s[x] != s[y] by {
            let ox = if x < k { x } else { x + 1 };
            let oy = if y < k { y } else { y + 1 };
            assert(s[x] == o[ox]);
            assert(s[y] == o[oy]);
        }
    }
    Ok(())
}

/// Whether a link does not touch the given artifact.
pub open spec fn not_of_artifact(id: Id) -> spec_fn(EntryArtifact) -> bool {
    |l: EntryArtifact| l.artifact_id != id
}

/// The links that do not touch the given artifact, in their order.
fn links_without_artifact(links: &Vec<EntryArtifact>, id: Id) -> (r: Vec<EntryArtifact>)
    ensures
        r@ == links@.filter(not_of_artifact(id)),
        distinct_links(links@) ==> distinct_links(r@),
        forall|a: int|
            0 <= a < r@.len() ==> (#[trigger] r@[a]).artifact_id != id && exists|b: int|
                0 <= b < links@.len() && r@[a] == links@[b],
{
    let mut kept: Vec<EntryArtifact> = Vec::new();
    let mut i: usize = 0;
    while i < links.len()
        invariant
            i <= links@.len(),
            kept@ == links@.subrange(0, i as int).filter(not_of_artifact(id)),
            forall|a: int| 0 <= a < kept@.len() ==> exists|b: int| 0 <= b < i && #[trigger] kept@[a] == links@[b],
            forall|a: int| 0 <= a < kept@.len() ==> (#[trigger] kept@[a]).artifact_id != id,
            distinct_links(links@) ==> distinct_links(kept@),
        decreases links@.len() - i,
    {
        let l = links[i];
        proof {
            reveal(Seq::filter);
            assert(links@.subrange(0, i + 1).drop_last() == links@.subrange(0, i as int));
        }
        if l.artifact_id != id {
            proof {
                if distinct_links(links@) {
                    assert forall|a: int| 0 <= a < kept@.len() implies kept@[a] != l by {
                        let b = choose|b: int| 0 <= b < i && #[trigger] kept@[a] == links@[b];
                        assert(links@[b] != links@[i as int]);
                    }
                }
            }
            kept.push(l);
        }
        i = i + 1;
    }
    assert(links@.subrange(0, links@.len() as int) == links@);
    kept
}

/// Deletes the artifact named by its identifier text and every link to it.
///
/// Fails with `InvalidInput` on a malformed identifier and with `NotFound` when there is
/// no such artifact; the ledger is then unchanged.
pub fn delete_artifact(ledger: &mut Ledger, id: String) -> (r: Result<(), AppError>)
    requires
        old(ledger).wf(),
    ensures
        final(ledger).wf(),
        final(ledger).tasks@ == old(ledger).tasks@,
        final(ledger).folders@ == old(ledger).folders@,
        final(ledger).entries@ == old(ledger).entries@,
        r is Err ==> final(ledger).artifacts@ == old(ledger).artifacts@ && final(ledger).links@
            == old(ledger).links@,
        match parsed_uuid(id@) {
            None => r is Err && r->Err_0 is InvalidInput,
            Some(v) => {
                &&& !has_artifact(old(ledger).artifacts@, Id { value: v }) ==> r is Err
                    && r->Err_0 is NotFound
                &&& forall|k: int|
                    0 <= k < old(ledger).artifacts@.len() && (#[trigger] old(
                        ledger,
                    ).artifacts@[k]).id == Id { value: v } ==> r is Ok && final(ledger).artifacts@
                        == old(ledger).artifacts@.remove(k) && final(ledger).links@ == old(
                        ledger,
                    ).links@.filter(not_of_artifact(Id { value: v }))
            },
        },
{
    let artifact_id = read_id(&id)?;
    let k = match find_artifact(&ledger.artifacts, artifact_id) {
        Some(k) => k,
        None => {
            return Err(AppError::NotFound("Artifact not found".to_owned()));
        },
    };
    let links = links_without_artifact(&ledger.links, artifact_id);
    ledger.links = links;
    ledger.artifacts.remove(k);
    proof {
        let s = ledger.artifacts@;
        let o = old(ledger).artifacts@;
        let ls = ledger.links@;
        let ol = old(ledger).links@;
        assert forall|i: int| 0 <= i < ls.len() implies has_entry(ledger.entries@, (#[trigger] ls[i]).entry_id)
            && has_artifact(s, ls[i].artifact_id) by {
            let b = choose|b: int| 0 <= b < ol.len() && ls[i] == ol[b];
            assert(has_entry(ledger.entries@, ol[b].entry_id) && has_artifact(o, ol[b].artifact_id));
            let j = choose|j: int| 0 <= j < o.len() && (#[trigger] o[j]).id == ls[i].artifact_id;
            assert(j != k);
            if j < k {
                assert(s[j] == o[j]);
            } else {
                assert(s[j - 1] == o[j]);
            }
        }
        assert forall|a: int, b: int| 0 <= a < s.len() && 0 <= b < s.len() && a != b implies (
        #[trigger] s[a]).id != (#[trigger] s[b]).id by {
            let oa = if a < k { a } else { a + 1 };
            let ob = if b < k { b } else { b + 1 };
            assert(s[a] == o[oa]);
            assert(s[b] == o[ob]);
        }
    }
    Ok(())
}

/// The task of the sequence with this identifier, which must be there.
pub open spec fn task_of(s: Seq<Task>, id: Id) -> Task {
    s[choose|i: int| 0 <= i < s.len() && s[i].id == id]
}

/// The artifact of the sequence with this identifier, which must be there.
pub open spec fn artifact_of(s: Seq<Artifact>, id: Id) -> Artifact {
    s[choose|i: int| 0 <= i < s.len() && s[i].id == id]
}

/// The artifacts linked to an entry, in the order of the links.
pub open spec fn linked_artifacts(links: Seq<EntryArtifact>, artifacts: Seq<Artifact>, entry: Id) -> Seq<
    Artifact,
>
    decreases links.len(),
{
    if links.len() == 0 {
        Seq::empty()
    } else {
        let rest = linked_artifacts(links.drop_last(), artifacts, entry);
        let l = links.last();
        if l.entry_id == entry && has_artifact(artifacts, l.artifact_id) {
            rest.push(artifact_of(artifacts, l.artifact_id))
        } else {
            rest
        }
    }
}

/// `w` is the entry `e` with its duration, its task and its linked artifacts.
pub open spec fn relations_match(ledger: Ledger, e: TimeEntry, w: TimeEntryWithRelations) -> bool {
    &&& w.id == e.id
    &&& w.task_id == e.task_id
    &&& w.started_at == e.started_at
    &&& w.ended_at == e.ended_at
    &&& w.memo == e.memo
    &&& w.created_at == e.created_at
    &&& w.updated_at == e.updated_at
    &&& w.duration_seconds == match entry_duration(e) {
        Some(d) => Some(d as i64),
        None => None,
    }
    &&& w.task == match e.task_id {
        Some(t) => if has_task(ledger.tasks@, t) {
            Some(task_of(ledger.tasks@, t))
        } else {
            None
        },
        None => None,
    }
    &&& w.artifacts@ == linked_artifacts(ledger.links@, ledger.artifacts@, e.id)
}

/// The entry with its duration, its task and the artifacts linked to it.
pub fn entry_to_with_relations(ledger: &Ledger, entry: &TimeEntry) -> (r: TimeEntryWithRelations)
    requires
        ledger.wf(),
    ensures
        relations_match(*ledger, *entry, r),
{
    let task = match entry.task_id {
        Some(t) => match find_task(&ledger.tasks, t) {
            Some(k) => {
                proof {
                    let i = choose|i: int| 0 <= i < ledger.tasks@.len() && ledger.tasks@[i].id == t;
                    assert(ledger.tasks@[i].id == ledger.tasks@[k as int].id);
                }
                Some(ledger.tasks[k].duplicate())
            },
            None => None,
        },
        None => None,
    };
    let mut artifacts: Vec<Artifact> = Vec::new();
    let mut i: usize = 0;
    while i < ledger.links.len()
        invariant
            ledger.wf(),
            i <= ledger.links@.len(),
            artifacts@ == linked_artifacts(ledger.links@.subrange(0, i as int), ledger.artifacts@, entry.id),
        decreases ledger.links@.len() - i,
    {
        proof {
            assert(ledger.links@.subrange(0, i + 1).drop_last() == ledger.links@.subrange(0, i as int));
            assert(ledger.links@.subrange(0, i + 1).last() == ledger.links@[i as int]);
        }
        let l = ledger.links[i];
        if l.entry_id == entry.id {
            match find_artifact(&ledger.artifacts, l.artifact_id) {
                Some(k) => {
                    proof {
                        let j = choose|j: int|
                            0 <= j < ledger.artifacts@.len() && ledger.artifacts@[j].id == l.artifact_id;
                        assert(ledger.artifacts@[j].id == ledger.artifacts@[k as int].id);
                    }
                    artifacts.push(ledger.artifacts[k].duplicate());
                },
                None => {},
            }
        }
        i = i + 1;
    }
    proof {
        assert(ledger.links@.subrange(0, ledger.links@.len() as int) == ledger.links@);
    }
    TimeEntryWithRelations {
        id: entry.id,
        task_id: entry.task_id,
        task,
        started_at: entry.started_at,
        ended_at: entry.ended_at,
        duration_seconds: entry.duration_seconds(),
        memo: copy_text(&entry.memo),
        artifacts,
        created_at: entry.created_at,
        updated_at: entry.updated_at,
    }
}

/// The running entry, if any, with its task and linked artifacts.
pub fn get_running_entry(ledger: &Ledger) -> (r: Result<Option<TimeEntryWithRelations>, AppError>)
    requires
        ledger.wf(),
    ensures
        r is Ok,
        r->Ok_0.is_none() <==> !has_running(ledger.entries@),
        r->Ok_0.is_some() ==> exists|k: int|
            first_running(ledger.entries@, k) && relations_match(
                *ledger,
                #[trigger] ledger.entries@[k],
                r->Ok_0.unwrap(),
            ),
{
    match find_running(&ledger.entries) {
        Some(k) => {
            let w = entry_to_with_relations(ledger, &ledger.entries[k]);
            proof {
                assert(first_running(ledger.entries@, k as int));
            }
            Ok(Some(w))
        },
        None => Ok(None),
    }
}

} // verus!
