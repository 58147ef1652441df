use vstd::prelude::*;

use crate::error::AppError;
use crate::ledger::{
    lemma_entry_ids_kept, lemma_links_still_resolve, links_resolve, has_artifact,
    at_most_one_running, find_entry, find_running, has_entry, has_running, same_but_entries,
    same_ledger, distinct_links, Ledger,
};
use crate::model::{
    EntryArtifact, Id, TimeEntry, Timestamp, UpdateEntry,
};
use crate::outside::{current_time, parse_id, parsed_uuid, random_id};

verus! {

/// The entry that a start creates.
pub open spec fn started_entry(
    id: Id,
    task_id: Option<Id>,
    memo: Option<String>,
    now: Timestamp,
) -> TimeEntry {
    TimeEntry {
        id,
        task_id,
        started_at: now,
        ended_at: None,
        memo,
        created_at: now,
        updated_at: now,
    }
}

/// The entry `e` stopped at `now`.
pub open spec fn stopped(e: TimeEntry, now: Timestamp) -> TimeEntry {
    TimeEntry { ended_at: Some(now), updated_at: now, ..e }
}

/// The entry `e` with the fields that `u` gives replaced, changed at `now`.
pub open spec fn revised(e: TimeEntry, u: UpdateEntry, now: Timestamp) -> TimeEntry {
    TimeEntry {
        id: e.id,
        task_id: match u.task_id {
            Some(t) => t,
            None => e.task_id,
        },
        started_at: match u.started_at {
            Some(s) => s,
            None => e.started_at,
        },
        ended_at: match u.ended_at {
            Some(x) => x,
            None => e.ended_at,
        },
        memo: match u.memo {
            Some(m) => Some(m),
            None => e.memo,
        },
        created_at: e.created_at,
        updated_at: now,
    }
}

/// Whether `k` is the first running entry of the sequence.
pub open spec fn first_running(s: Seq<TimeEntry>, k: int) -> bool {
    &&& 0 <= k < s.len()
    &&& s[k].ended_at.is_none()
    &&& forall|j: int| 0 <= j < k ==> (#[trigger] s[j]).ended_at.is_some()
}

/// The identifier that an optional text gives: none when the text is absent, and an
/// error when it is there but no identifier can be read from it.
pub open spec fn optional_id(s: Option<String>) -> Result<Option<Id>, ()> {
    match s {
        None => Ok(None),
        Some(t) => match parsed_uuid(t@) {
            Some(v) => Ok(Some(Id { value: v })),
            None => Err(()),
        },
    }
}

/// Reads an optional identifier, failing with `InvalidInput` on malformed text.
pub fn read_optional_id(s: &Option<String>) -> (r: Result<Option<Id>, AppError>)
    ensures
        match optional_id(*s) {
            Ok(v) => r == Ok::<Option<Id>, AppError>(v),
            Err(_) => r is Err && r->Err_0 is InvalidInput,
        },
{
    match s {
        None => Ok(None),
        Some(t) => match parse_id(t.as_str()) {
            Some(id) => Ok(Some(id)),
            None => Err(AppError::InvalidInput("Invalid UUID".to_owned())),
        },
    }
}

/// Reads an identifier, failing with `InvalidInput` on malformed text.
pub fn read_id(s: &String) -> (r: Result<Id, AppError>)
    ensures
        match parsed_uuid(s@) {
            Some(v) => r == Ok::<Id, AppError>(Id { value: v }),
            None => r is Err && r->Err_0 is InvalidInput,
        },
{
    match parse_id(s.as_str()) {
        Some(id) => Ok(id),
        None => Err(AppError::InvalidInput("Invalid UUID".to_owned())),
    }
}

/// Starts measuring with the given identifier and instant. Fails with `AlreadyExists`
/// exactly when an entry is running, and leaves the ledger as it was on any failure.
pub fn begin_entry(
    ledger: &mut Ledger,
    task_id: Option<Id>,
    memo: Option<String>,
    id: Id,
    now: Timestamp,
) -> (r: Result<TimeEntry, AppError>)
    requires
        old(ledger).wf(),
    ensures
        final(ledger).wf(),
        same_but_entries(final(ledger), old(ledger)),
        has_running(old(ledger).entries@) ==> r is Err && r->Err_0 is AlreadyExists,
        !has_running(old(ledger).entries@) && has_entry(old(ledger).entries@, id) ==> r is Err
            && r->Err_0 is Database,
        !has_running(old(ledger).entries@) && !has_entry(old(ledger).entries@, id) ==> r == Ok::<
            TimeEntry,
            AppError,
        >(started_entry(id, task_id, memo, now)),
        r is Ok ==> final(ledger).entries@ == old(ledger).entries@.push(r->Ok_0),
        r is Ok ==> has_running(final(ledger).entries@) && at_most_one_running(
            final(ledger).entries@,
        ),
        r is Err ==> final(ledger).entries@ == old(ledger).entries@,
{
    if find_running(&ledger.entries).is_some() {
        return Err(AppError::AlreadyExists("There is already a running entry".to_owned()));
    }
    if find_entry(&ledger.entries, id).is_some() {
        return Err(AppError::Database("An entry with this identifier exists".to_owned()));
    }
    let entry = TimeEntry {
        id,
        task_id,
        started_at: now,
        ended_at: None,
        memo,
        created_at: now,
        updated_at: now,
    };
    let kept = entry.duplicate();
    ledger.entries.push(entry);
    proof {
        let s = ledger.entries@;
        assert(s.last() == kept);
        assert(s[s.len() - 1].ended_at.is_none());
        assert forall|i: int, j: int|
            0 <= i < s.len() && 0 <= j < s.len() && (#[trigger] s[i]).ended_at.is_none() && (
            #[trigger] s[j]).ended_at.is_none() implies i == j by {
            if i < s.len() - 1 {
                assert(s[i] == old(ledger).entries@[i]);
            }
            if j < s.len() - 1 {
                assert(s[j] == old(ledger).entries@[j]);
            }
        }
        assert forall|i: int, j: int| 0 <= i < s.len() && 0 <= j < s.len() && i != j implies (
        #[trigger] s[i]).id != (#[trigger] s[j]).id by {
            if i < s.len() - 1 {
                assert(s[i] == old(ledger).entries@[i]);
            }
            if j < s.len() - 1 {
                assert(s[j] == old(ledger).entries@[j]);
            }
        }
        lemma_entry_ids_kept(old(ledger).entries@, s);
        lemma_links_still_resolve(
            ledger.links@,
            old(ledger).entries@,
            ledger.artifacts@,
            s,
            ledger.artifacts@,
        );
    }
    Ok(kept)
}

/// Starts measuring now, for an optional task given as text.
///
/// Fails with `InvalidInput` when the task identifier cannot be read, then with
/// `AlreadyExists` exactly when an entry is running. On success the new running
/// entry is appended and is the only running one.
pub fn start_entry(ledger: &mut Ledger, task_id: Option<String>, memo: Option<String>) -> (r:
    Result<TimeEntry, AppError>)
    requires
        old(ledger).wf(),
    ensures
        final(ledger).wf(),
        same_but_entries(final(ledger), old(ledger)),
        optional_id(task_id) is Err ==> r is Err && r->Err_0 is InvalidInput,
        optional_id(task_id) is Ok ==> (has_running(old(ledger).entries@) <==> (r is Err
            && r->Err_0 is AlreadyExists)),
        r is Ok ==> optional_id(task_id) is Ok && r->Ok_0 == started_entry(
            r->Ok_0.id,
            optional_id(task_id)->Ok_0,
            memo,
            r->Ok_0.started_at,
        ) && final(ledger).entries@ == old(ledger).entries@.push(r->Ok_0),
        r is Ok ==> has_running(final(ledger).entries@) && at_most_one_running(
            final(ledger).entries@,
        ),
        at_most_one_running(old(ledger).entries@) ==> at_most_one_running(final(ledger).entries@),
        r is Err ==> final(ledger).entries@ == old(ledger).entries@,
        optional_id(task_id) is Ok && !has_running(old(ledger).entries@) && r is Err ==> r->Err_0 is Database
            && old(ledger).entries@.len() > 0,
{
    let task = read_optional_id(&task_id)?;
    let id = random_id();
    let now = current_time();
    begin_entry(ledger, task, memo, id, now)
}

/// Stops the entry with the given identifier, or the first running entry when none is
/// given, at the given instant.
///
/// Fails with `NotFound` when there is no such entry, and with `OperationFailed` when
/// the named entry has already ended; the ledger is then unchanged.
pub fn end_entry(ledger: &mut Ledger, target: Option<Id>, now: Timestamp) -> (r: Result<
    TimeEntry,
    AppError,
>)
    requires
        old(ledger).wf(),
    ensures
        final(ledger).wf(),
        same_but_entries(final(ledger), old(ledger)),
        r is Err ==> final(ledger).entries@ == old(ledger).entries@,
        match target {
            Some(id) => {
                &&& !has_entry(old(ledger).entries@, id) ==> r is Err && r->Err_0 is NotFound
                &&& forall|k: int|
                    0 <= k < old(ledger).entries@.len() && (#[trigger] old(ledger).entries@[k]).id
                        == id ==> if old(ledger).entries@[k].ended_at.is_some() {
                        r is Err && r->Err_0 is OperationFailed
                    } else {
                        r == Ok::<TimeEntry, AppError>(stopped(old(ledger).entries@[k], now))
                            && final(ledger).entries@ == old(ledger).entries@.update(
                            k,
                            stopped(old(ledger).entries@[k], now),
                        )
                    }
            },
            None => {
                &&& !has_running(old(ledger).entries@) ==> r is Err && r->Err_0 is NotFound
                &&& forall|k: int|
                    first_running(old(ledger).entries@, k) ==> r == Ok::<TimeEntry, AppError>(
                        stopped(#[trigger] old(ledger).entries@[k], now),
                    ) && final(ledger).entries@ == old(ledger).entries@.update(
                        k,
                        stopped(old(ledger).entries@[k], now),
                    )
            },
        },
        r is Ok && at_most_one_running(old(ledger).entries@) ==> !has_running(
            final(ledger).entries@,
        ),
{
    let k = match target {
        Some(id) => match find_entry(&ledger.entries, id) {
            Some(k) => k,
            None => {
                return Err(AppError::NotFound("Entry not found".to_owned()));
            },
        },
        None => match find_running(&ledger.entries) {
            Some(k) => k,
            None => {
                return Err(AppError::NotFound("No running entry found".to_owned()));
            },
        },
    };
    if !ledger.entries[k].is_running() {
        return Err(AppError::OperationFailed("Entry is not running".to_owned()));
    }
    let mut updated = ledger.entries[k].duplicate();
    updated.ended_at = Some(now);
    updated.updated_at = now;
    let kept = updated.duplicate();
    ledger.entries.set(k, updated);
    proof {
        let s = ledger.entries@;
        let o = old(ledger).entries@;
        assert(s == o.update(k as int, stopped(o[k as int], now)));
        assert forall|k: int| 0 <= k < o.len() implies (#[trigger] s[k]).id == o[k].id by {}
        lemma_entry_ids_kept(o, s);
        lemma_links_still_resolve(ledger.links@, o, ledger.artifacts@, s, ledger.artifacts@);
        assert forall|i: int, j: int| 0 <= i < s.len() && 0 <= j < s.len() && i != j implies (
        #[trigger] s[i]).id != (#[trigger] s[j]).id by {
            assert(s[i].id == o[i].id);
            assert(s[j].id == o[j].id);
        }
        if at_most_one_running(o) {
            assert forall|i: int| 0 <= i < s.len() implies (#[trigger] s[i]).ended_at.is_some() by {
                if i != k {
                    assert(s[i] == o[i]);
                }
            }
        }
    }
    Ok(kept)
}

/// Stops measuring now: the entry named by its identifier text, or else the running one.
///
/// Fails with `InvalidInput` when the text is not an identifier, with `NotFound` when
/// no such entry exists, and with `OperationFailed` when it has already ended, leaving
/// the ledger unchanged; the end of an ended entry is never changed.
pub fn stop_entry(ledger: &mut Ledger, id: Option<String>) -> (r: Result<TimeEntry, AppError>)
    requires
        old(ledger).wf(),
    ensures
        final(ledger).wf(),
        same_but_entries(final(ledger), old(ledger)),
        r is Err ==> final(ledger).entries@ == old(ledger).entries@,
        match optional_id(id) {
            Err(_) => r is Err && r->Err_0 is InvalidInput,
            Ok(Some(target)) => {
                &&& !has_entry(old(ledger).entries@, target) ==> r is Err && r->Err_0 is NotFound
                &&& forall|k: int|
                    0 <= k < old(ledger).entries@.len() && (#[trigger] old(ledger).entries@[k]).id
                        == target ==> if old(ledger).entries@[k].ended_at.is_some() {
                        r is Err && r->Err_0 is OperationFailed
                    } else {
                        r is Ok && r->Ok_0 == stopped(old(ledger).entries@[k], r->Ok_0.updated_at)
                            && final(ledger).entries@ == old(ledger).entries@.update(k, r->Ok_0)
                    }
            },
            Ok(None) => {
                &&& !has_running(old(ledger).entries@) ==> r is Err && r->Err_0 is NotFound
                &&& forall|k: int|
                    first_running(old(ledger).entries@, k) ==> r is Ok && r->Ok_0 == stopped(
                        #[trigger] old(ledger).entries@[k],
                        r->Ok_0.updated_at,
                    ) && final(ledger).entries@ == old(ledger).entries@.update(k, r->Ok_0)
            },
        },
        r is Ok && at_most_one_running(old(ledger).entries@) ==> !has_running(
            final(ledger).entries@,
        ),
        at_most_one_running(old(ledger).entries@) ==> at_most_one_running(final(ledger).entries@),
{
    let target = read_optional_id(&id)?;
    let now = current_time();
    end_entry(ledger, target, now)
}

/// Replaces the fields of the entry with this identifier that the update gives, at the
/// given instant. Fails with `NotFound`, leaving the ledger unchanged, when there is no
/// such entry. Whether another entry runs is not checked.
pub fn revise_entry(ledger: &mut Ledger, id: Id, update: UpdateEntry, now: Timestamp) -> (r:
    Result<TimeEntry, AppError>)
    requires
        old(ledger).wf(),
    ensures
        final(ledger).wf(),
        same_but_entries(final(ledger), old(ledger)),
        r is Err ==> final(ledger).entries@ == old(ledger).entries@,
        !has_entry(old(ledger).entries@, id) ==> r is Err && r->Err_0 is NotFound,
        forall|k: int|
            0 <= k < old(ledger).entries@.len() && (#[trigger] old(ledger).entries@[k]).id == id
                ==> r == Ok::<TimeEntry, AppError>(revised(old(ledger).entries@[k], update, now))
                && final(ledger).entries@ == old(ledger).entries@.update(
                k,
                revised(old(ledger).entries@[k], update, now),
            ),
{
    let k = match find_entry(&ledger.entries, id) {
        Some(k) => k,
        None => {
            return Err(AppError::NotFound("Entry not found".to_owned()));
        },
    };
    let mut entry = ledger.entries[k].duplicate();
    match update.task_id {
        Some(t) => {
            entry.task_id = t;
        },
        None => {},
    }
    match update.started_at {
        Some(s) => {
            entry.started_at = s;
        },
        None => {},
    }
    match update.ended_at {
        Some(x) => {
            entry.ended_at = x;
        },
        None => {},
    }
    match update.memo {
        Some(m) => {
            entry.memo = Some(m);
        },
        None => {},
    }
    entry.updated_at = now;
    let kept = entry.duplicate();
    ledger.entries.set(k, entry);
    proof {
        let s = ledger.entries@;
        let o = old(ledger).entries@;
        assert forall|k: int| 0 <= k < o.len() implies (#[trigger] s[k]).id == o[k].id by {}
        lemma_entry_ids_kept(o, s);
        lemma_links_still_resolve(ledger.links@, o, ledger.artifacts@, s, ledger.artifacts@);
        assert forall|i: int, j: int| 0 <= i < s.len() && 0 <= j < s.len() && i != j implies (
        #[trigger] s[i]).id != (#[trigger] s[j]).id by {
            assert(s[i].id == o[i].id);
            assert(s[j].id == o[j].id);
        }
    }
    Ok(kept)
}

/// Corrects an entry named by its identifier text, now; see `revise_entry`.
/// Fails with `InvalidInput` when the text is not an identifier.
pub fn update_entry(ledger: &mut Ledger, id: String, update: UpdateEntry) -> (r: Result<
    TimeEntry,
    AppError,
>)
    requires
        old(ledger).wf(),
    ensures
        final(ledger).wf(),
        same_but_entries(final(ledger), old(ledger)),
        r is Err ==> final(ledger).entries@ == old(ledger).entries@,
        match parsed_uuid(id@) {
            None => r is Err && r->Err_0 is InvalidInput,
            Some(v) => {
                &&& !has_entry(old(ledger).entries@, Id { value: v }) ==> r is Err
                    && r->Err_0 is NotFound
                &&& forall|k: int|
                    0 <= k < old(ledger).entries@.len() && (#[trigger] old(
                        ledger,
                    ).entries@[k]).id == Id { value: v } ==> r is Ok && r->Ok_0 == revised(
                        old(ledger).entries@[k],
                        update,
                        r->Ok_0.updated_at,
                    ) && final(ledger).entries@ == old(ledger).entries@.update(k, r->Ok_0)
            },
        },
{
    let entry_id = read_id(&id)?;
    let now = current_time();
    revise_entry(ledger, entry_id, update, now)
}

/// Whether a link does not touch the given entry.
pub open spec fn not_of_entry(id: Id) -> spec_fn(EntryArtifact) -> bool {
    |l: EntryArtifact| l.entry_id != id
}

/// The links that do not touch the given entry, in their order.
pub fn links_without_entry(links: &Vec<EntryArtifact>, id: Id) -> (r: Vec<EntryArtifact>)
    ensures
        r@ == links@.filter(not_of_entry(id)),
        distinct_links(links@) ==> distinct_links(r@),
        forall|a: int|
            0 <= a < r@.len() ==> (#[trigger] r@[a]).entry_id != id && exists|b: int|
                0 <= b < links@.len() && r@[a] == links@[b],
{
    let mut kept: Vec<EntryArtifact> = Vec::new();
    let mut i: usize = 0;
    while i < links.len()
        invariant
            i <= links@.len(),
            kept@ == links@.subrange(0, i as int).filter(not_of_entry(id)),
            forall|a: int| 0 <= a < kept@.len() ==> exists|b: int| 0 <= b < i && #[trigger] kept@[a] == links@[b],
            forall|a: int| 0 <= a < kept@.len() ==> (#[trigger] kept@[a]).entry_id != id,
            distinct_links(links@) ==> distinct_links(kept@),
        decreases links@.len() - i,
    {
        let l = links[i];
        proof {
            reveal(Seq::filter);
            assert(links@.subrange(0, i + 1).drop_last() == links@.subrange(0, i as int));
        }
        if l.entry_id != id {
            proof {
                if distinct_links(links@) {
                    assert forall|a: int| 0 <= a < kept@.len() implies kept@[a] != l by {
                        let b = choose|b: int| 0 <= b < i && #[trigger] kept@[a] == links@[b];
                        assert(links@[b] != links@[i as int]);
                    }
                }
            }
            kept.push(l);
        }
        i = i + 1;
    }
    assert(links@.subrange(0, links@.len() as int) == links@);
    kept
}

/// Removes the entry with this identifier and every link to it. Fails with `NotFound`,
/// leaving the ledger unchanged, when there is no such entry.
pub fn remove_entry(ledger: &mut Ledger, id: Id) -> (r: Result<(), AppError>)
    requires
        old(ledger).wf(),
    ensures
        final(ledger).wf(),
        final(ledger).tasks@ == old(ledger).tasks@,
        final(ledger).folders@ == old(ledger).folders@,
        final(ledger).artifacts@ == old(ledger).artifacts@,
        !has_entry(old(ledger).entries@, id) ==> r is Err && r->Err_0 is NotFound
            && same_ledger(final(ledger), old(ledger)),
        r is Err ==> same_ledger(final(ledger), old(ledger)),
        forall|k: int|
            0 <= k < old(ledger).entries@.len() && (#[trigger] old(ledger).entries@[k]).id == id
                ==> r is Ok && final(ledger).entries@ == old(ledger).entries@.remove(k)
                && final(ledger).links@ == old(ledger).links@.filter(not_of_entry(id)),
{
    let k = match find_entry(&ledger.entries, id) {
        Some(k) => k,
        None => {
            return Err(AppError::NotFound("Entry not found".to_owned()));
        },
    };
    let links = links_without_entry(&ledger.links, id);
    ledger.links = links;
    ledger.entries.remove(k);
    proof {
        let s = ledger.entries@;
        let o = old(ledger).entries@;
        let ls = ledger.links@;
        let ol = old(ledger).links@;
        assert forall|i: int| 0 <= i < ls.len() implies has_entry(s, (#[trigger] ls[i]).entry_id)
            && has_artifact(ledger.artifacts@, ls[i].artifact_id) by {
            let b = choose|b: int| 0 <= b < ol.len() && ls[i] == ol[b];
            assert(has_entry(o, ol[b].entry_id) && has_artifact(ledger.artifacts@, ol[b].artifact_id));
            let j = choose|j: int| 0 <= j < o.len() && (#[trigger] o[j]).id == ls[i].entry_id;
            assert(j != k);
            if j < k {
                assert(s[j] == o[j]);
            } else {
                assert(s[j - 1] == o[j]);
            }
        }
        assert forall|i: int, j: int| 0 <= i < s.len() && 0 <= j < s.len() && i != j implies (
        #[trigger] s[i]).id != (#[trigger] s[j]).id by {
            let oi = if i < k { i } else { i + 1 };
            let oj = if j < k { j } else { j + 1 };
            assert(s[i] == o[oi]);
            assert(s[j] == o[oj]);
        }
    }
    Ok(())
}

/// Deletes an entry named by its identifier text, with its links.
/// Fails with `InvalidInput` when the text is not an identifier, and with `NotFound`
/// when no such entry exists; the ledger is then unchanged.
pub fn delete_entry(ledger: &mut Ledger, id: String) -> (r: Result<(), AppError>)
    requires
        old(ledger).wf(),
    ensures
        final(ledger).wf(),
        final(ledger).tasks@ == old(ledger).tasks@,
        final(ledger).folders@ == old(ledger).folders@,
        final(ledger).artifacts@ == old(ledger).artifacts@,
        r is Err ==> same_ledger(final(ledger), old(ledger)),
        match parsed_uuid(id@) {
            None => r is Err && r->Err_0 is InvalidInput,
            Some(v) => {
                &&& !has_entry(old(ledger).entries@, Id { value: v }) ==> r is Err
                    && r->Err_0 is NotFound
                &&& forall|k: int|
                    0 <= k < old(ledger).entries@.len() && (#[trigger] old(
                        ledger,
                    ).entries@[k]).id == Id { value: v } ==> r is Ok && final(ledger).entries@
                        == old(ledger).entries@.remove(k) && final(ledger).links@ == old(
                        ledger,
                    ).links@.filter(not_of_entry(Id { value: v }))
            },
        },
{
    let entry_id = read_id(&id)?;
    remove_entry(ledger, entry_id)
}

} // verus!
