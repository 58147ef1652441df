use vstd::prelude::*;
use vstd::utf8::encode_utf8;

use crate::entries::read_id;
use crate::error::AppError;
use crate::ledger::{find_folder, find_task, has_folder, has_task, Ledger};
use crate::model::{
    valid_color, CreateFolder, CreateTask, Folder, Id, Task, Timestamp, UpdateFolder, UpdateTask,
};
use crate::outside::{current_time, parsed_uuid, random_id, trim_text, trimmed};

verus! {

/// Color given to a folder when none is chosen.
pub const DEFAULT_FOLDER_COLOR: &'static str = "#6b7280";

/// A text that is empty once white space is trimmed.
pub open spec fn blank(s: Seq<char>) -> bool {
    trimmed(s).len() == 0
}

/// A text of the form `#RRGGBB`.
pub open spec fn color_ok(c: Seq<char>) -> bool {
    valid_color(encode_utf8(c))
}

/// Whether a text is empty once white space is trimmed.
pub(crate) fn is_blank(s: &String) -> (r: bool)
    ensures
        r == blank(s@),
{
    let t = trim_text(s.as_str());
    t.as_str().is_empty()
}

/// Whether a text has the form `#RRGGBB`.
fn is_color(c: &String) -> (r: bool)
    ensures
        r == color_ok(c@),
{
    Task::is_valid_color(c.as_str())
}

/// The fields of a new task are acceptable: a name that is not blank, and a color, when
/// one is given, of the form `#RRGGBB`.
pub open spec fn task_input_ok(name: Seq<char>, color: Option<String>) -> bool {
    &&& !blank(name)
    &&& (color.is_some() ==> color_ok(color.unwrap()@))
}

/// Adds a new task built from the request, with the given identifier, created at `now`.
///
/// Fails with `InvalidInput` on a blank name or a malformed color, and with `Database`
/// when the identifier is taken; the ledger is then unchanged.
pub fn add_task(ledger: &mut Ledger, task: CreateTask, id: Id, now: Timestamp) -> (r: Result<
    Task,
    AppError,
>)
    requires
        old(ledger).wf(),
    ensures
        final(ledger).wf(),
        final(ledger).folders@ == old(ledger).folders@,
        final(ledger).artifacts@ == old(ledger).artifacts@,
        final(ledger).entries@ == old(ledger).entries@,
        final(ledger).links@ == old(ledger).links@,
        !task_input_ok(task.name@, task.color) <==> r is Err && r->Err_0 is InvalidInput,
        task_input_ok(task.name@, task.color) && has_task(old(ledger).tasks@, id) ==> r is Err
            && r->Err_0 is Database,
        task_input_ok(task.name@, task.color) && !has_task(old(ledger).tasks@, id) ==> r is Ok,
        r is Err ==> final(ledger).tasks@ == old(ledger).tasks@,
        r is Ok ==> {
            let t = r->Ok_0;
            &&& final(ledger).tasks@ == old(ledger).tasks@.push(t)
            &&& t.id == id
            &&& t.name == task.name
            &&& t.description == task.description
            &&& t.folder_id == task.folder_id
            &&& t.color@ == (match task.color {
                Some(c) => c@,
                None => crate::model::DEFAULT_TASK_COLOR@,
            })
            &&& !t.archived
            &&& t.created_at == now
            &&& t.updated_at == now
        },
{
    if is_blank(&task.name) {
        return Err(AppError::InvalidInput("Task name cannot be empty".to_owned()));
    }
    match &task.color {
        Some(c) => {
            if !is_color(c) {
                return Err(AppError::InvalidInput("Invalid color format. Expected #RRGGBB".to_owned()));
            }
        },
        None => {},
    }
    if find_task(&ledger.tasks, id).is_some() {
        return Err(AppError::Database("A task with this identifier exists".to_owned()));
    }
    let color = match task.color {
        Some(c) => c,
        None => crate::model::DEFAULT_TASK_COLOR.to_owned(),
    };
    let new_task = Task {
        id,
        folder_id: task.folder_id,
        name: task.name,
        description: task.description,
        color,
        archived: false,
        created_at: now,
        updated_at: now,
    };
    let kept = new_task.duplicate();
    let ghost before = ledger.tasks@;
    ledger.tasks.push(new_task);
    proof {
        let s = ledger.tasks@;
        assert forall|a: int, b: int| 0 <= a < s.len() && 0 <= b < s.len() && a != b implies (
        #[trigger] s[a]).id != (#[trigger] s[b]).id by {
            if a < before.len() {
                assert(s[a] == before[a]);
            }
            if b < before.len() {
                assert(s[b] == before[b]);
            }
        }
    }
    Ok(kept)
}

/// Adds a new task built from the request, with a fresh identifier, created now.
///
/// Fails with `InvalidInput` on a blank name or a malformed color, and with `Database`
/// only if the drawn identifier is taken, which needs a task already there; the ledger
/// is then unchanged.
pub fn create_task(ledger: &mut Ledger, task: CreateTask) -> (r: Result<Task, AppError>)
    requires
        old(ledger).wf(),
    ensures
        final(ledger).wf(),
        final(ledger).folders@ == old(ledger).folders@,
        final(ledger).artifacts@ == old(ledger).artifacts@,
        final(ledger).entries@ == old(ledger).entries@,
        final(ledger).links@ == old(ledger).links@,
        !task_input_ok(task.name@, task.color) <==> r is Err && r->Err_0 is InvalidInput,
        task_input_ok(task.name@, task.color) && r is Err ==> r->Err_0 is Database && old(
            ledger,
        ).tasks@.len() > 0,
        r is Err ==> final(ledger).tasks@ == old(ledger).tasks@,
        r is Ok ==> {
            let t = r->Ok_0;
            &&& final(ledger).tasks@ == old(ledger).tasks@.push(t)
            &&& t.name == task.name
            &&& t.description == task.description
            &&& t.folder_id == task.folder_id
            &&& t.color@ == (match task.color {
                Some(c) => c@,
                None => crate::model::DEFAULT_TASK_COLOR@,
            })
            &&& !t.archived
            &&& t.created_at == t.updated_at
        },
{
    let id = random_id();
    let now = current_time();
    add_task(ledger, task, id, now)
}

/// The task `t` with the fields that `u` gives replaced, changed at `now`. A description,
/// when given, is set; it cannot be cleared.
pub open spec fn task_revised(t: Task, u: UpdateTask, now: Timestamp) -> Task {
    Task {
        id: t.id,
        folder_id: match u.folder_id {
            Some(f) => f,
            None => t.folder_id,
        },
        name: match u.name {
            Some(n) => n,
            None => t.name,
        },
        description: match u.description {
            Some(d) => Some(d),
            None => t.description,
        },
        color: match u.color {
            Some(c) => c,
            None => t.color,
        },
        archived: t.archived,
        created_at: t.created_at,
        updated_at: now,
    }
}

/// The fields of a task update are acceptable.
pub open spec fn update_input_ok(u: UpdateTask) -> bool {
    &&& (u.name.is_some() ==> !blank(u.name.unwrap()@))
    &&& (u.color.is_some() ==> color_ok(u.color.unwrap()@))
}

/// Changes the task named by its identifier text with the fields that the update gives.
///
/// Fails with `InvalidInput` on a malformed identifier, a blank name or a malformed color,
/// then with `NotFound` when there is no such task; the ledger is then unchanged.
pub fn update_task(ledger: &mut Ledger, id: String, update: UpdateTask) -> (r: Result<
    Task,
    AppError,
>)
    requires
        old(ledger).wf(),
    ensures
        final(ledger).wf(),
        final(ledger).folders@ == old(ledger).folders@,
        final(ledger).artifacts@ == old(ledger).artifacts@,
        final(ledger).entries@ == old(ledger).entries@,
        final(ledger).links@ == old(ledger).links@,
        r is Err ==> final(ledger).tasks@ == old(ledger).tasks@,
        parsed_uuid(id@).is_none() || !update_input_ok(update) ==> r is Err && r->Err_0 is InvalidInput,
        parsed_uuid(id@).is_some() && update_input_ok(update) ==> {
            let tid = Id { value: parsed_uuid(id@).unwrap() };
            &&& !has_task(old(ledger).tasks@, tid) ==> r is Err && r->Err_0 is NotFound
            &&& forall|k: int|
                0 <= k < old(ledger).tasks@.len() && (#[trigger] old(ledger).tasks@[k]).id == tid
                    ==> r is Ok && r->Ok_0 == task_revised(old(ledger).tasks@[k], update, r->Ok_0.updated_at)
                    && final(ledger).tasks@ == old(ledger).tasks@.update(k, r->Ok_0)
        },
{
    let task_id = read_id(&id)?;
    match &update.name {
        Some(n) => {
            if is_blank(n) {
                return Err(AppError::InvalidInput("Task name cannot be empty".to_owned()));
            }
        },
        None => {},
    }
    match &update.color {
        Some(c) => {
            if !is_color(c) {
                return Err(AppError::InvalidInput("Invalid color format. Expected #RRGGBB".to_owned()));
            }
        },
        None => {},
    }
    let k = match find_task(&ledger.tasks, task_id) {
        Some(k) => k,
        None => {
            return Err(AppError::NotFound("Task not found".to_owned()));
        },
    };
    let mut task = ledger.tasks[k].duplicate();
    match update.name {
        Some(n) => {
            task.name = n;
        },
        None => {},
    }
    match update.description {
        Some(d) => {
            task.description = Some(d);
        },
        None => {},
    }
    match update.color {
        Some(c) => {
            task.color = c;
        },
        None => {},
    }
    match update.folder_id {
        Some(f) => {
            task.folder_id = f;
        },
        None => {},
    }
    task.updated_at = current_time();
    let kept = task.duplicate();
    ledger.tasks.set(k, task);
    proof {
        let s = ledger.tasks@;
        let o = old(ledger).tasks@;
        assert forall|a: int, b: int| 0 <= a < s.len() && 0 <= b < s.len() && a != b implies (
        #[trigger] s[a]).id != (#[trigger] s[b]).id by {
            assert(s[a].id == o[a].id);
            assert(s[b].id == o[b].id);
        }
    }
    Ok(kept)
}

/// Archives or restores the task named by its identifier text.
///
/// Fails with `InvalidInput` on a malformed identifier and with `NotFound` when there is
/// no such task; the ledger is then unchanged.
pub fn archive_task(ledger: &mut Ledger, id: String, archived: bool) -> (r: Result<(), AppError>)
    requires
        old(ledger).wf(),
    ensures
        final(ledger).wf(),
        final(ledger).folders@ == old(ledger).folders@,
        final(ledger).artifacts@ == old(ledger).artifacts@,
        final(ledger).entries@ == old(ledger).entries@,
        final(ledger).links@ == old(ledger).links@,
        r is Err ==> final(ledger).tasks@ == old(ledger).tasks@,
        match parsed_uuid(id@) {
            None => r is Err && r->Err_0 is InvalidInput,
            Some(v) => {
                &&& !has_task(old(ledger).tasks@, Id { value: v }) ==> r is Err && r->Err_0 is NotFound
                &&& forall|k: int|
                    0 <= k < old(ledger).tasks@.len() && (#[trigger] old(ledger).tasks@[k]).id == Id {
                        value: v,
                    } ==> r is Ok && final(ledger).tasks@.len() == old(ledger).tasks@.len() && (
                    forall|j: int| 0 <= j < old(ledger).tasks@.len() && j != k ==> final(ledger).tasks@[j]
                        == old(ledger).tasks@[j]) && final(ledger).tasks@[k] == (Task {
                        archived,
                        updated_at: final(ledger).tasks@[k].updated_at,
                        ..old(ledger).tasks@[k]
                    })
            },
        },
{
    let task_id = read_id(&id)?;
    let k = match find_task(&ledger.tasks, task_id) {
        Some(k) => k,
        None => {
            return Err(AppError::NotFound("Task not found".to_owned()));
        },
    };
    let mut task = ledger.tasks[k].duplicate();
    task.archived = archived;
    task.updated_at = current_time();
    ledger.tasks.set(k, task);
    proof {
        let s = ledger.tasks@;
        let o = old(ledger).tasks@;
        assert forall|a: int, b: int| 0 <= a < s.len() && 0 <= b < s.len() && a != b implies (
        #[trigger] s[a]).id != (#[trigger] s[b]).id by {
            assert(s[a].id == o[a].id);
            assert(s[b].id == o[b].id);
        }
    }
    Ok(())
}

/// The largest sort order among the folders, or 0 without folders.
pub open spec fn max_sort_order(s: Seq<Folder>) -> int
    decreases s.len(),
{
    if s.len() == 0 {
        0
    } else {
        let m = max_sort_order(s.drop_last());
        if s.last().sort_order as int > m {
            s.last().sort_order as int
        } else {
            m
        }
    }
}

/// The largest sort order among the folders, or 0 without folders.
fn highest_sort_order(folders: &Vec<Folder>) -> (r: i32)
    ensures
        r == max_sort_order(folders@),
{
    let mut m: i32 = 0;
    let mut i: usize = 0;
    while i < folders.len()
        invariant
            i <= folders@.len(),
            m == max_sort_order(folders@.subrange(0, i as int)),
        decreases folders@.len() - i,
    {
        proof {
            assert(folders@.subrange(0, i + 1).drop_last() == folders@.subrange(0, i as int));
            assert(folders@.subrange(0, i + 1).last() == folders@[i as int]);
        }
        if folders[i].sort_order > m {
            m = folders[i].sort_order;
        }
        i = i + 1;
    }
    proof {
        assert(folders@.subrange(0, folders@.len() as int) == folders@);
    }
    m
}

/// Adds a folder with the given identifier, the trimmed name, the given color or gray,
/// and a sort order one above the largest, created at `now`.
///
/// Fails with `InvalidInput` on a blank name, and with `Database` when the sort order
/// would not fit or the identifier is taken; the ledger is then unchanged.
pub fn add_folder(ledger: &mut Ledger, input: CreateFolder, id: Id, now: Timestamp) -> (r: Result<
    Folder,
    AppError,
>)
    requires
        old(ledger).wf(),
    ensures
        final(ledger).wf(),
        final(ledger).tasks@ == old(ledger).tasks@,
        final(ledger).artifacts@ == old(ledger).artifacts@,
        final(ledger).entries@ == old(ledger).entries@,
        final(ledger).links@ == old(ledger).links@,
        blank(input.name@) <==> r is Err && r->Err_0 is InvalidInput,
        r is Err ==> final(ledger).folders@ == old(ledger).folders@,
        r is Err && !(r->Err_0 is InvalidInput) ==> r->Err_0 is Database,
        !blank(input.name@) && (max_sort_order(old(ledger).folders@) == i32::MAX || has_folder(
            old(ledger).folders@,
            id,
        )) ==> r is Err && r->Err_0 is Database,
        !blank(input.name@) && max_sort_order(old(ledger).folders@) < i32::MAX && !has_folder(
            old(ledger).folders@,
            id,
        ) ==> r is Ok,
        r is Ok ==> {
            let f = r->Ok_0;
            &&& final(ledger).folders@ == old(ledger).folders@.push(f)
            &&& f.id == id
            &&& f.name@ == trimmed(input.name@)
            &&& f.color@ == (match input.color {
                Some(c) => c@,
                None => DEFAULT_FOLDER_COLOR@,
            })
            &&& f.sort_order == max_sort_order(old(ledger).folders@) + 1
            &&& f.created_at == now
            &&& f.updated_at == now
        },
{
    if is_blank(&input.name) {
        return Err(AppError::InvalidInput("Folder name is required".to_owned()));
    }
    let top = highest_sort_order(&ledger.folders);
    if top == i32::MAX {
        return Err(AppError::Database("Sort order out of range".to_owned()));
    }
    if find_folder(&ledger.folders, id).is_some() {
        return Err(AppError::Database("A folder with this identifier exists".to_owned()));
    }
    let color = match input.color {
        Some(c) => c,
        None => DEFAULT_FOLDER_COLOR.to_owned(),
    };
    let folder = Folder {
        id,
        name: trim_text(input.name.as_str()),
        color,
        sort_order: top + 1,
        created_at: now,
        updated_at: now,
    };
    let kept = folder.duplicate();
    let ghost before = ledger.folders@;
    ledger.folders.push(folder);
    proof {
        let s = ledger.folders@;
        assert forall|a: int, b: int| 0 <= a < s.len() && 0 <= b < s.len() && a != b implies (
        #[trigger] s[a]).id != (#[trigger] s[b]).id by {
            if a < before.len() {
                assert(s[a] == before[a]);
            }
            if b < before.len() {
                assert(s[b] == before[b]);
            }
        }
    }
    Ok(kept)
}

/// Adds a folder with a fresh identifier, created now; see `add_folder`.
///
/// With a name that is not blank and sort orders below the largest `i32`, it fails only
/// if the drawn identifier is taken, which needs a folder already there.
pub fn create_folder(ledger: &mut Ledger, input: CreateFolder) -> (r: Result<Folder, AppError>)
    requires
        old(ledger).wf(),
    ensures
        final(ledger).wf(),
        final(ledger).tasks@ == old(ledger).tasks@,
        final(ledger).artifacts@ == old(ledger).artifacts@,
        final(ledger).entries@ == old(ledger).entries@,
        final(ledger).links@ == old(ledger).links@,
        blank(input.name@) <==> r is Err && r->Err_0 is InvalidInput,
        r is Err ==> final(ledger).folders@ == old(ledger).folders@,
        r is Err && !(r->Err_0 is InvalidInput) ==> r->Err_0 is Database,
        !blank(input.name@) && max_sort_order(old(ledger).folders@) < i32::MAX && r is Err
            ==> old(ledger).folders@.len() > 0,
        r is Ok ==> {
            let f = r->Ok_0;
            &&& final(ledger).folders@ == old(ledger).folders@.push(f)
            &&& f.name@ == trimmed(input.name@)
            &&& f.color@ == (match input.color {
                Some(c) => c@,
                None => DEFAULT_FOLDER_COLOR@,
            })
            &&& f.sort_order == max_sort_order(old(ledger).folders@) + 1
            &&& f.created_at == f.updated_at
        },
{
    let id = random_id();
    let now = current_time();
    add_folder(ledger, input, id, now)
}

/// The folder `f` with the fields that `u` gives replaced (the name trimmed), changed at
/// `now`.
pub open spec fn folder_revised(f: Folder, u: UpdateFolder, now: Timestamp) -> Folder {
    Folder {
        id: f.id,
        name: f.name,
        color: match u.color {
            Some(c) => c,
            None => f.color,
        },
        sort_order: match u.sort_order {
            Some(o) => o,
            None => f.sort_order,
        },
        created_at: f.created_at,
        updated_at: now,
    }
}

/// Changes the folder named by its identifier text.
///
/// Fails with `InvalidInput` on a malformed identifier, with `NotFound` when there is no
/// such folder, then with `InvalidInput` on a blank name; the ledger is then unchanged.
pub fn update_folder(ledger: &mut Ledger, id: String, input: UpdateFolder) -> (r: Result<
    Folder,
    AppError,
>)
    requires
        old(ledger).wf(),
    ensures
        final(ledger).wf(),
        final(ledger).tasks@ == old(ledger).tasks@,
        final(ledger).artifacts@ == old(ledger).artifacts@,
        final(ledger).entries@ == old(ledger).entries@,
        final(ledger).links@ == old(ledger).links@,
        r is Err ==> final(ledger).folders@ == old(ledger).folders@,
        match parsed_uuid(id@) {
            None => r is Err && r->Err_0 is InvalidInput,
            Some(v) => {
                &&& !has_folder(old(ledger).folders@, Id { value: v }) ==> r is Err
                    && r->Err_0 is NotFound
                &&& has_folder(old(ledger).folders@, Id { value: v }) && input.name.is_some()
                    && blank(input.name.unwrap()@) ==> r is Err && r->Err_0 is InvalidInput
                &&& forall|k: int|
                    0 <= k < old(ledger).folders@.len() && (#[trigger] old(
                        ledger,
                    ).folders@[k]).id == Id { value: v } && (input.name.is_none() || !blank(
                        input.name.unwrap()@,
                    )) ==> r is Ok && r->Ok_0.name@ == (match input.name {
                        Some(n) => trimmed(n@),
                        None => old(ledger).folders@[k].name@,
                    }) && r->Ok_0 == (Folder {
                        name: r->Ok_0.name,
                        ..folder_revised(old(ledger).folders@[k], input, r->Ok_0.updated_at)
                    }) && final(ledger).folders@ == old(ledger).folders@.update(k, r->Ok_0)
            },
        },
{
    let folder_id = read_id(&id)?;
    let k = match find_folder(&ledger.folders, folder_id) {
        Some(k) => k,
        None => {
            return Err(AppError::NotFound("Folder not found".to_owned()));
        },
    };
    let mut folder = ledger.folders[k].duplicate();
    match &input.name {
        Some(n) => {
            if is_blank(n) {
                return Err(AppError::InvalidInput("Folder name is required".to_owned()));
            }
            folder.name = trim_text(n.as_str());
        },
        None => {},
    }
    match input.color {
        Some(c) => {
            folder.color = c;
        },
        None => {},
    }
    match input.sort_order {
        Some(o) => {
            folder.sort_order = o;
        },
        None => {},
    }
    folder.updated_at = current_time();
    let kept = folder.duplicate();
    ledger.folders.set(k, folder);
    proof {
        let s = ledger.folders@;
        let o = old(ledger).folders@;
        assert forall|a: int, b: int| 0 <= a < s.len() && 0 <= b < s.len() && a != b implies (
        #[trigger] s[a]).id != (#[trigger] s[b]).id by {
            assert(s[a].id == o[a].id);
            assert(s[b].id == o[b].id);
        }
    }
    Ok(kept)
}

/// The task with its folder cleared when it is the given one.
pub open spec fn without_folder(t: Task, folder: Id) -> Task {
    if t.folder_id == Some(folder) {
        Task { folder_id: None, ..t }
    } else {
        t
    }
}

/// Deletes the folder named by its identifier text; its tasks are kept, outside any folder.
///
/// Fails with `InvalidInput` on a malformed identifier and with `NotFound` when there is
/// no such folder; the ledger is then unchanged.
pub fn delete_folder(ledger: &mut Ledger, id: String) -> (r: Result<(), AppError>)
    requires
        old(ledger).wf(),
    ensures
        final(ledger).wf(),
        final(ledger).artifacts@ == old(ledger).artifacts@,
        final(ledger).entries@ == old(ledger).entries@,
        final(ledger).links@ == old(ledger).links@,
        r is Err ==> final(ledger).folders@ == old(ledger).folders@ && final(ledger).tasks@
            == old(ledger).tasks@,
        match parsed_uuid(id@) {
            None => r is Err && r->Err_0 is InvalidInput,
            Some(v) => {
                &&& !has_folder(old(ledger).folders@, Id { value: v }) ==> r is Err
                    && r->Err_0 is NotFound
                &&& forall|k: int|
                    0 <= k < old(ledger).folders@.len() && (#[trigger] old(
                        ledger,
                    ).folders@[k]).id == Id { value: v } ==> r is Ok && final(ledger).folders@
                        == old(ledger).folders@.remove(k) && final(ledger).tasks@ == old(
                        ledger,
                    ).tasks@.map_values(|t: Task| without_folder(t, Id { value: v }))
            },
        },
{
    let folder_id = read_id(&id)?;
    let k = match find_folder(&ledger.folders, folder_id) {
        Some(k) => k,
        None => {
            return Err(AppError::NotFound("Folder not found".to_owned()));
        },
    };
    let mut i: usize = 0;
    while i < ledger.tasks.len()
        invariant
            i <= ledger.tasks@.len(),
            ledger.tasks@.len() == old(ledger).tasks@.len(),
            forall|j: int| 0 <= j < i ==> ledger.tasks@[j] == without_folder(#[trigger] old(ledger).tasks@[j], folder_id),
            forall|j: int| i <= j < ledger.tasks@.len() ==> #[trigger] ledger.tasks@[j] == old(ledger).tasks@[j],
            ledger.folders@ == old(ledger).folders@,
            ledger.artifacts@ == old(ledger).artifacts@,
            ledger.entries@ == old(ledger).entries@,
            ledger.links@ == old(ledger).links@,
            k < ledger.folders@.len(),
            ledger.folders@[k as int].id == folder_id,
        decreases ledger.tasks@.len() - i,
    {
        if ledger.tasks[i].folder_id == Some(folder_id) {
            let mut t = ledger.tasks[i].duplicate();
            t.folder_id = None;
            ledger.tasks.set(i, t);
        }
        i = i + 1;
    }
    ledger.folders.remove(k);
    proof {
        let s = ledger.tasks@;
        let o = old(ledger).tasks@;
        assert(s =~= o.map_values(|t: Task| without_folder(t, folder_id)));
        assert forall|a: int, b: int| 0 <= a < s.len() && 0 <= b < s.len() && a != b implies (
        #[trigger] s[a]).id != (#[trigger] s[b]).id by {
            assert(s[a].id == o[a].id);
            assert(s[b].id == o[b].id);
        }
        let f = ledger.folders@;
        let of = old(ledger).folders@;
        assert forall|a: int, b: int| 0 <= a < f.len() && 0 <= b < f.len() && a != b implies (
        #[trigger] f[a]).id != (#[trigger] f[b]).id by {
            let oa = if a < k { a } else { a + 1 };
            let ob = if b < k { b } else { b + 1 };
            assert(f[a] == of[oa]);
            assert(f[b] == of[ob]);
        }
    }
    Ok(())
}

} // verus!
