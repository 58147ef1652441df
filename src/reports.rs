use vstd::prelude::*;

use crate::error::AppError;
use crate::ledger::{find_task, has_task, Ledger};
use crate::model::{elapsed_seconds, seconds_between, Id, Task, TimeEntry};
use crate::outside::{date_label_of, utc_day, utc_day_of};

verus! {

/// Name under which entries without a task are summed.
pub const UNCLASSIFIED_NAME: &'static str = "未分類";

/// Color of the row of entries without a task.
pub const UNCLASSIFIED_COLOR: &'static str = "#6b7280";

/// Time spent on one task in a month.
#[derive(Clone, Debug, PartialEq)]
pub struct TaskSummary {
    pub task_id: Option<Id>,
    pub task_name: String,
    pub task_color: String,
    pub total_seconds: i64,
    pub entry_count: i64,
}

/// Time spent on one calendar day.
#[derive(Clone, Debug, PartialEq)]
pub struct DailySummary {
    pub date: String,
    pub total_seconds: i64,
    pub entry_count: i64,
}

/// The roll-up of one calendar month.
#[derive(Clone, Debug)]
pub struct MonthlyReport {
    pub year: i32,
    pub month: u32,
    pub total_seconds: i64,
    pub total_entries: i64,
    pub working_days: i64,
    pub average_seconds_per_day: i64,
    pub task_summaries: Vec<TaskSummary>,
    pub daily_summaries: Vec<DailySummary>,
}

/// Which of the counted entries a sum takes.
#[derive(Clone, Copy, Debug, PartialEq, Eq, Structural)]
pub enum Selector {
    All,
    Task(Option<Id>),
    Day(u32),
}

/// An entry belongs to the report of `year`/`month` when it has ended and its start
/// falls in that UTC month.
pub open spec fn counted(e: TimeEntry, year: i32, month: u32) -> bool {
    &&& e.ended_at.is_some()
    &&& utc_day_of(e.started_at.micros).is_some()
    &&& utc_day_of(e.started_at.micros).unwrap().0 == year
    &&& utc_day_of(e.started_at.micros).unwrap().1 == month
}

/// The UTC day of the month on which an entry started.
pub open spec fn day_of_month(e: TimeEntry) -> u32 {
    utc_day_of(e.started_at.micros).unwrap().2
}

/// The `%Y-%m-%d` label of the UTC day on which an entry started.
pub open spec fn day_label(e: TimeEntry) -> Seq<char> {
    date_label_of(
        utc_day_of(e.started_at.micros).unwrap().0,
        utc_day_of(e.started_at.micros).unwrap().1,
        utc_day_of(e.started_at.micros).unwrap().2,
    )
}

/// Whether a counted entry is taken by the selector.
pub open spec fn selected(e: TimeEntry, year: i32, month: u32, sel: Selector) -> bool {
    &&& counted(e, year, month)
    &&& match sel {
        Selector::All => true,
        Selector::Task(k) => e.task_id == k,
        Selector::Day(d) => day_of_month(e) == d,
    }
}

/// Whole seconds of an ended entry.
pub open spec fn seconds_of(e: TimeEntry) -> int {
    seconds_between(e.started_at.micros as int, e.ended_at.unwrap().micros as int)
}

/// Sum of the seconds of the selected entries.
pub open spec fn tally_seconds(s: Seq<TimeEntry>, year: i32, month: u32, sel: Selector) -> int
    decreases s.len(),
{
    if s.len() == 0 {
        0
    } else {
        tally_seconds(s.drop_last(), year, month, sel) + if selected(s.last(), year, month, sel) {
            seconds_of(s.last())
        } else {
            0
        }
    }
}

/// Number of the selected entries.
pub open spec fn tally_count(s: Seq<TimeEntry>, year: i32, month: u32, sel: Selector) -> int
    decreases s.len(),
{
    if s.len() == 0 {
        0
    } else {
        tally_count(s.drop_last(), year, month, sel) + if selected(s.last(), year, month, sel) {
            1int
        } else {
            0int
        }
    }
}

/// A value that an `i64` holds.
pub open spec fn fits(x: int) -> bool {
    i64::MIN <= x <= i64::MAX
}

/// Every sum and count of the report of `year`/`month` fits its `i64` field.
pub open spec fn report_fits(s: Seq<TimeEntry>, year: i32, month: u32) -> bool {
    &&& fits(tally_seconds(s, year, month, Selector::All))
    &&& fits(tally_count(s, year, month, Selector::All))
    &&& forall|k: Option<Id>|
        fits(#[trigger] tally_seconds(s, year, month, Selector::Task(k))) && fits(
            tally_count(s, year, month, Selector::Task(k)),
        )
    &&& forall|d: u32|
        fits(#[trigger] tally_seconds(s, year, month, Selector::Day(d))) && fits(
            tally_count(s, year, month, Selector::Day(d)),
        )
}

/// The name and color that the row of `key` shows: those of its task, or the
/// unclassified ones when it has no task or the task is gone.
pub open spec fn row_labels(tasks: Seq<Task>, key: Option<Id>, name: Seq<char>, color: Seq<
    char,
>) -> bool {
    if key.is_some() && has_task(tasks, key.unwrap()) {
        exists|i: int|
            0 <= i < tasks.len() && (#[trigger] tasks[i]).id == key.unwrap() && name
                == tasks[i].name@ && color == tasks[i].color@
    } else {
        name == UNCLASSIFIED_NAME@ && color == UNCLASSIFIED_COLOR@
    }
}

/// A task row holds the sums and labels of its key, which some counted entry has.
pub open spec fn task_row_ok(
    s: Seq<TimeEntry>,
    tasks: Seq<Task>,
    year: i32,
    month: u32,
    r: TaskSummary,
) -> bool {
    &&& r.total_seconds == tally_seconds(s, year, month, Selector::Task(r.task_id))
    &&& r.entry_count == tally_count(s, year, month, Selector::Task(r.task_id))
    &&& row_labels(tasks, r.task_id, r.task_name@, r.task_color@)
    &&& key_seen(s, year, month, r.task_id)
}

/// The task rows of a month: one per task key of the counted entries, with that key's
/// sums and labels, by total seconds from most to least.
pub open spec fn task_rows_match(
    s: Seq<TimeEntry>,
    tasks: Seq<Task>,
    year: i32,
    month: u32,
    rows: Seq<TaskSummary>,
) -> bool {
    &&& forall|a: int, b: int|
        0 <= a < rows.len() && 0 <= b < rows.len() && a != b ==> (#[trigger] rows[a]).task_id
            != (#[trigger] rows[b]).task_id
    &&& forall|a: int| 0 <= a < rows.len() ==> task_row_ok(s, tasks, year, month, #[trigger] rows[a])
    &&& forall|j: int|
        0 <= j < s.len() && counted(#[trigger] s[j], year, month) ==> exists|a: int|
            0 <= a < rows.len() && (#[trigger] rows[a]).task_id == s[j].task_id
    &&& forall|a: int, b: int|
        0 <= a < b < rows.len() ==> (#[trigger] rows[a]).total_seconds >= (
        #[trigger] rows[b]).total_seconds
}

/// A daily row holds the sums of its day of the month and the `%Y-%m-%d` label of that date.
pub open spec fn daily_row_ok(s: Seq<TimeEntry>, year: i32, month: u32, r: DailySummary, d: u32) -> bool {
    &&& r.total_seconds == tally_seconds(s, year, month, Selector::Day(d))
    &&& r.entry_count == tally_count(s, year, month, Selector::Day(d))
    &&& day_seen(s, year, month, d, r.date@)
    &&& r.date@ == date_label_of(year, month, d)
}

/// Some counted entry started on this day of the month, which has this label.
pub open spec fn day_seen(s: Seq<TimeEntry>, year: i32, month: u32, d: u32, label: Seq<char>) -> bool {
    exists|j: int|
        0 <= j < s.len() && counted(#[trigger] s[j], year, month) && day_of_month(s[j]) == d
            && day_label(s[j]) == label
}

/// The daily rows of a month, given the day of the month of each row: one per day with
/// counted entries, in date order, with that day's sums and label.
pub open spec fn daily_rows_match(
    s: Seq<TimeEntry>,
    year: i32,
    month: u32,
    rows: Seq<DailySummary>,
    days: Seq<u32>,
) -> bool {
    &&& rows.len() == days.len()
    &&& forall|a: int, b: int|
        0 <= a < b < days.len() ==> (#[trigger] days[a]) < (#[trigger] days[b])
    &&& forall|a: int| 0 <= a < rows.len() ==> daily_row_ok(s, year, month, #[trigger] rows[a], days[a])
    &&& forall|j: int|
        0 <= j < s.len() && counted(#[trigger] s[j], year, month) ==> exists|a: int|
            0 <= a < days.len() && #[trigger] days[a] == day_of_month(s[j])
}

/// Integer division truncated toward zero, for a positive divisor.
pub open spec fn div_toward_zero(a: int, b: int) -> int {
    if a >= 0 {
        a / b
    } else {
        -((-a) / b)
    }
}

/// A selected entry makes the count positive.
pub proof fn lemma_tally_positive(s: Seq<TimeEntry>, year: i32, month: u32, sel: Selector, j: int)
    requires
        0 <= j < s.len(),
        selected(s[j], year, month, sel),
    ensures
        tally_count(s, year, month, sel) > 0,
    decreases s.len(),
{
    lemma_tally_count_nonneg(s.drop_last(), year, month, sel);
    if j < s.len() - 1 {
        assert(s.drop_last()[j] == s[j]);
        lemma_tally_positive(s.drop_last(), year, month, sel, j);
    }
}

/// Counts are never negative.
pub proof fn lemma_tally_count_nonneg(s: Seq<TimeEntry>, year: i32, month: u32, sel: Selector)
    ensures
        tally_count(s, year, month, sel) >= 0,
    decreases s.len(),
{
    if s.len() > 0 {
        lemma_tally_count_nonneg(s.drop_last(), year, month, sel);
    }
}

/// With no selected entry both sums are zero.
pub proof fn lemma_tally_empty(s: Seq<TimeEntry>, year: i32, month: u32, sel: Selector)
    requires
        forall|j: int| 0 <= j < s.len() ==> !selected(#[trigger] s[j], year, month, sel),
    ensures
        tally_count(s, year, month, sel) == 0,
        tally_seconds(s, year, month, sel) == 0,
    decreases s.len(),
{
    if s.len() > 0 {
        assert forall|j: int| 0 <= j < s.drop_last().len() implies !selected(
            #[trigger] s.drop_last()[j],
            year,
            month,
            sel,
        ) by {
            assert(s.drop_last()[j] == s[j]);
        }
        assert(!selected(s[s.len() - 1], year, month, sel));
        lemma_tally_empty(s.drop_last(), year, month, sel);
    }
}

/// Some counted entry has the given task key.
pub open spec fn key_seen(s: Seq<TimeEntry>, year: i32, month: u32, key: Option<Id>) -> bool {
    exists|j: int| 0 <= j < s.len() && counted(#[trigger] s[j], year, month) && s[j].task_id == key
}

/// Whether the entry is taken by the selector.
fn is_selected(e: &TimeEntry, year: i32, month: u32, sel: Selector) -> (r: bool)
    ensures
        r == selected(*e, year, month, sel),
        r ==> 1 <= day_of_month(*e) <= 31,
{
    if e.ended_at.is_none() {
        return false;
    }
    match utc_day(e.started_at.micros) {
        None => false,
        Some((y, m, d, _)) => {
            if y != year || m != month {
                return false;
            }
            match sel {
                Selector::All => true,
                Selector::Task(k) => same_key(e.task_id, k),
                Selector::Day(want) => d == want,
            }
        },
    }
}

/// Whether two optional identifiers are equal.
fn same_key(a: Option<Id>, b: Option<Id>) -> (r: bool)
    ensures
        r == (a == b),
{
    match (a, b) {
        (None, None) => true,
        (Some(x), Some(y)) => x == y,
        _ => false,
    }
}

/// The seconds and the number of the selected entries.
fn tally(entries: &Vec<TimeEntry>, year: i32, month: u32, sel: Selector) -> (r: (i128, u64))
    ensures
        r.0 == tally_seconds(entries@, year, month, sel),
        r.1 == tally_count(entries@, year, month, sel),
{
    let mut secs: i128 = 0;
    let mut count: u64 = 0;
    let mut i: usize = 0;
    while i < entries.len()
        invariant
            i <= entries@.len(),
            secs == tally_seconds(entries@.subrange(0, i as int), year, month, sel),
            count == tally_count(entries@.subrange(0, i as int), year, month, sel),
            -(i as int) * 0x8000_0000_0000_0000 <= secs <= (i as int) * 0x8000_0000_0000_0000,
            count <= i,
        decreases entries@.len() - i,
    {
        let e = &entries[i];
        proof {
            assert(entries@.subrange(0, i + 1).drop_last() == entries@.subrange(0, i as int));
            assert(entries@.subrange(0, i + 1).last() == entries@[i as int]);
        }
        if is_selected(e, year, month, sel) {
            let end = match e.ended_at {
                Some(t) => t,
                None => e.started_at,
            };
            let d = elapsed_seconds(e.started_at, end);
            secs = secs + d as i128;
            count = count + 1;
        }
        i = i + 1;
    }
    proof {
        assert(entries@.subrange(0, entries@.len() as int) == entries@);
    }
    (secs, count)
}

/// The task keys of the counted entries, each once, in order of first appearance.
fn task_keys(entries: &Vec<TimeEntry>, year: i32, month: u32) -> (keys: Vec<Option<Id>>)
    ensures
        forall|a: int, b: int|
            0 <= a < keys@.len() && 0 <= b < keys@.len() && a != b ==> keys@[a] != keys@[b],
        forall|a: int|
            0 <= a < keys@.len() ==> key_seen(entries@, year, month, #[trigger] keys@[a]),
        forall|j: int|
            0 <= j < entries@.len() && counted(#[trigger] entries@[j], year, month) ==> exists|
                a: int,
            | 0 <= a < keys@.len() && keys@[a] == entries@[j].task_id,
{
    let mut keys: Vec<Option<Id>> = Vec::new();
    let mut i: usize = 0;
    while i < entries.len()
        invariant
            i <= entries@.len(),
            forall|a: int, b: int|
                0 <= a < keys@.len() && 0 <= b < keys@.len() && a != b ==> keys@[a] != keys@[b],
            forall|a: int|
                0 <= a < keys@.len() ==> key_seen(entries@, year, month, #[trigger] keys@[a]),
            forall|j: int|
                0 <= j < i && counted(#[trigger] entries@[j], year, month) ==> exists|a: int|
                    0 <= a < keys@.len() && keys@[a] == entries@[j].task_id,
        decreases entries@.len() - i,
    {
        let e = &entries[i];
        if is_selected(e, year, month, Selector::All) {
            let mut found = false;
            let mut a: usize = 0;
            while a < keys.len()
                invariant
                    a <= keys@.len(),
                    found == exists|b: int| 0 <= b < a && keys@[b] == e.task_id,
                decreases keys@.len() - a,
            {
                if same_key(keys[a], e.task_id) {
                    found = true;
                }
                a = a + 1;
            }
            let ghost before = keys@;
            if !found {
                keys.push(e.task_id);
                proof {
                    assert forall|a: int| 0 <= a < keys@.len() implies key_seen(
                        entries@,
                        year,
                        month,
                        #[trigger] keys@[a],
                    ) by {
                        if a < before.len() {
                            assert(keys@[a] == before[a]);
                        } else {
                            assert(counted(entries@[i as int], year, month));
                        }
                    }
                    assert(keys@[before.len() as int] == entries@[i as int].task_id);
                }
            }
            proof {
                assert forall|j: int|
                    0 <= j < i + 1 && counted(#[trigger] entries@[j], year, month) implies exists|
                    a: int,
                | 0 <= a < keys@.len() && keys@[a] == entries@[j].task_id by {
                    if j < i {
                        let a0 = choose|a: int| 0 <= a < before.len() && before[a] == entries@[j].task_id;
                        assert(keys@[a0] == before[a0]);
                    } else if !found {
                        assert(keys@[before.len() as int] == entries@[i as int].task_id);
                    }
                }
            }
        } else {
            proof {
                assert(!counted(entries@[i as int], year, month));
            }
        }
        i = i + 1;
    }
    keys
}

/// The name and color of the task with this key, or the unclassified ones.
fn labels_of(tasks: &Vec<Task>, key: Option<Id>) -> (r: (String, String))
    ensures
        row_labels(tasks@, key, r.0@, r.1@),
{
    match key {
        Some(t) => match find_task(tasks, t) {
            Some(k) => (tasks[k].name.clone(), tasks[k].color.clone()),
            None => (UNCLASSIFIED_NAME.to_owned(), UNCLASSIFIED_COLOR.to_owned()),
        },
        None => (UNCLASSIFIED_NAME.to_owned(), UNCLASSIFIED_COLOR.to_owned()),
    }
}

/// The rows carry distinct task keys.
pub open spec fn distinct_keys(s: Seq<TaskSummary>) -> bool {
    forall|a: int, b: int|
        0 <= a < s.len() && 0 <= b < s.len() && a != b ==> (#[trigger] s[a]).task_id != (
        #[trigger] s[b]).task_id
}

/// The rows go from most to least seconds.
pub open spec fn by_total_descending(s: Seq<TaskSummary>) -> bool {
    forall|a: int, b: int|
        0 <= a < b < s.len() ==> (#[trigger] s[a]).total_seconds >= (#[trigger] s[b]).total_seconds
}

/// Every row of `s` is a row of `t` at an index in `lo..t.len()`.
pub open spec fn rows_from(s: Seq<TaskSummary>, t: Seq<TaskSummary>, lo: int) -> bool {
    forall|a: int| 0 <= a < s.len() ==> exists|b: int| lo <= b < t.len() && #[trigger] s[a] == t[b]
}

/// Every row of `t` at an index in `lo..t.len()` is a row of `s`.
pub open spec fn rows_cover(s: Seq<TaskSummary>, t: Seq<TaskSummary>, lo: int) -> bool {
    forall|b: int| lo <= b < t.len() ==> exists|a: int| 0 <= a < s.len() && s[a] == #[trigger] t[b]
}

proof fn lemma_insert_sorted(s: Seq<TaskSummary>, p: int, x: TaskSummary)
    requires
        0 <= p <= s.len(),
        by_total_descending(s),
        forall|a: int| 0 <= a < p ==> (#[trigger] s[a]).total_seconds >= x.total_seconds,
        p < s.len() ==> s[p].total_seconds < x.total_seconds,
    ensures
        by_total_descending(s.insert(p, x)),
{
    let n = s.insert(p, x);
    assert forall|a: int, b: int| 0 <= a < b < n.len() implies (#[trigger] n[a]).total_seconds >= (
    #[trigger] n[b]).total_seconds by {
        if b < p {
            assert(n[a] == s[a] && n[b] == s[b]);
        } else if b == p {
            assert(n[a] == s[a]);
        } else if a < p {
            assert(n[a] == s[a] && n[b] == s[b - 1]);
            assert(s[p].total_seconds < x.total_seconds);
        } else if a == p {
            assert(n[b] == s[b - 1]);
            assert(s[p].total_seconds < x.total_seconds);
            if p < b - 1 {
                assert(s[p].total_seconds >= s[b - 1].total_seconds);
            }
        } else {
            assert(n[a] == s[a - 1] && n[b] == s[b - 1]);
        }
    }
}

proof fn lemma_insert_distinct(s: Seq<TaskSummary>, p: int, x: TaskSummary)
    requires
        0 <= p <= s.len(),
        distinct_keys(s),
        forall|a: int| 0 <= a < s.len() ==> (#[trigger] s[a]).task_id != x.task_id,
    ensures
        distinct_keys(s.insert(p, x)),
{
    let n = s.insert(p, x);
    assert forall|a: int, b: int| 0 <= a < n.len() && 0 <= b < n.len() && a != b implies (
    #[trigger] n[a]).task_id != (#[trigger] n[b]).task_id by {
        let oa = if a < p { a } else { a - 1 };
        let ob = if b < p { b } else { b - 1 };
        if a != p {
            assert(n[a] == s[oa]);
        }
        if b != p {
            assert(n[b] == s[ob]);
        }
    }
}

proof fn lemma_insert_from(s: Seq<TaskSummary>, t: Seq<TaskSummary>, k: int, p: int)
    requires
        0 <= p <= s.len(),
        0 <= k < t.len(),
        rows_from(s, t, k + 1),
    ensures
        rows_from(s.insert(p, t[k]), t, k),
{
    let n = s.insert(p, t[k]);
    assert forall|a: int| 0 <= a < n.len() implies exists|b: int| k <= b < t.len() && #[trigger] n[a]
        == t[b] by {
        if a < p {
            assert(n[a] == s[a]);
            let b = choose|b: int| k + 1 <= b < t.len() && s[a] == t[b];
            assert(n[a] == t[b]);
        } else if a == p {
            assert(n[a] == t[k]);
        } else {
            assert(n[a] == s[a - 1]);
            let b = choose|b: int| k + 1 <= b < t.len() && s[a - 1] == t[b];
            assert(n[a] == t[b]);
        }
    }
}

proof fn lemma_insert_cover(s: Seq<TaskSummary>, t: Seq<TaskSummary>, k: int, p: int)
    requires
        0 <= p <= s.len(),
        0 <= k < t.len(),
        rows_cover(s, t, k + 1),
    ensures
        rows_cover(s.insert(p, t[k]), t, k),
{
    let n = s.insert(p, t[k]);
    assert forall|b: int| k <= b < t.len() implies exists|a: int| 0 <= a < n.len() && n[a]
        == #[trigger] t[b] by {
        if b == k {
            assert(n[p] == t[b]);
        } else {
            let a0 = choose|a: int| 0 <= a < s.len() && s[a] == t[b];
            if a0 < p {
                assert(n[a0] == t[b]);
            } else {
                assert(n[a0 + 1] == t[b]);
            }
        }
    }
}

/// The rows with most seconds first; the rows themselves are kept, each once.
fn order_by_total(rows: Vec<TaskSummary>) -> (out: Vec<TaskSummary>)
    requires
        distinct_keys(rows@),
    ensures
        out@.len() == rows@.len(),
        rows_from(out@, rows@, 0),
        rows_cover(out@, rows@, 0),
        distinct_keys(out@),
        by_total_descending(out@),
{
    let ghost orig = rows@;
    let mut rest = rows;
    let mut out: Vec<TaskSummary> = Vec::new();
    while rest.len() > 0
        invariant
            out@.len() + rest@.len() == orig.len(),
            rest@ == orig.subrange(0, rest@.len() as int),
            distinct_keys(orig),
            rows_from(out@, orig, rest@.len() as int),
            rows_cover(out@, orig, rest@.len() as int),
            distinct_keys(out@),
            by_total_descending(out@),
        decreases rest@.len(),
    {
        let row = rest.pop().unwrap();
        let ghost k = rest@.len() as int;
        assert(row == orig[k]);
        let mut p: usize = 0;
        while p < out.len() && out[p].total_seconds >= row.total_seconds
            invariant
                p <= out@.len(),
                forall|a: int| 0 <= a < p ==> (#[trigger] out@[a]).total_seconds >= row.total_seconds,
            decreases out@.len() - p,
        {
            p = p + 1;
        }
        proof {
            let before = out@;
            assert forall|a: int| 0 <= a < before.len() implies (#[trigger] before[a]).task_id
                != row.task_id by {
                let b = choose|b: int| k + 1 <= b < orig.len() && #[trigger] before[a] == orig[b];
                assert(b != k);
            }
            lemma_insert_sorted(before, p as int, row);
            lemma_insert_distinct(before, p as int, row);
            lemma_insert_from(before, orig, k, p as int);
            lemma_insert_cover(before, orig, k, p as int);
        }
        out.insert(p, row);
    }
    out
}

/// The task rows of a month, or none when a sum does not fit.
fn task_rows(entries: &Vec<TimeEntry>, tasks: &Vec<Task>, year: i32, month: u32) -> (r: Option<
    Vec<TaskSummary>,
>)
    ensures
        r.is_some() <==> forall|k: Option<Id>|
            fits(#[trigger] tally_seconds(entries@, year, month, Selector::Task(k))) && fits(
                tally_count(entries@, year, month, Selector::Task(k)),
            ),
        r.is_some() ==> task_rows_match(entries@, tasks@, year, month, r.unwrap()@),
{
    let keys = task_keys(entries, year, month);
    let mut rows: Vec<TaskSummary> = Vec::new();
    let mut a: usize = 0;
    while a < keys.len()
        invariant
            a <= keys@.len(),
            rows@.len() == a,
            forall|b: int| 0 <= b < a ==> (#[trigger] rows@[b]).task_id == keys@[b],
            forall|b: int| 0 <= b < a ==> task_row_ok(entries@, tasks@, year, month, #[trigger] rows@[b]),
            forall|b: int| 0 <= b < a ==> fits(tally_seconds(entries@, year, month, Selector::Task(#[trigger] keys@[b])))
                && fits(tally_count(entries@, year, month, Selector::Task(keys@[b]))),
            forall|b: int, c: int|
                0 <= b < keys@.len() && 0 <= c < keys@.len() && b != c ==> keys@[b] != keys@[c],
            forall|b: int| 0 <= b < keys@.len() ==> key_seen(entries@, year, month, #[trigger] keys@[b]),
        decreases keys@.len() - a,
    {
        let key = keys[a];
        let (secs, count) = tally(entries, year, month, Selector::Task(key));
        if secs < i64::MIN as i128 || secs > i64::MAX as i128 || count > i64::MAX as u64 {
            return None;
        }
        let (name, color) = labels_of(tasks, key);
        rows.push(
            TaskSummary {
                task_id: key,
                task_name: name,
                task_color: color,
                total_seconds: secs as i64,
                entry_count: count as i64,
            },
        );
        a = a + 1;
    }
    proof {
        assert forall|k: Option<Id>|
            fits(#[trigger] tally_seconds(entries@, year, month, Selector::Task(k))) && fits(
                tally_count(entries@, year, month, Selector::Task(k)),
            ) by {
            if exists|b: int| 0 <= b < keys@.len() && keys@[b] == k {
                let b = choose|b: int| 0 <= b < keys@.len() && keys@[b] == k;
                assert(fits(tally_seconds(entries@, year, month, Selector::Task(keys@[b]))));
            } else {
                assert forall|j: int| 0 <= j < entries@.len() implies !selected(
                    #[trigger] entries@[j],
                    year,
                    month,
                    Selector::Task(k),
                ) by {
                    if selected(entries@[j], year, month, Selector::Task(k)) {
                        assert(counted(entries@[j], year, month));
                    }
                }
                lemma_tally_empty(entries@, year, month, Selector::Task(k));
            }
        }
        assert forall|b: int, c: int|
            0 <= b < rows@.len() && 0 <= c < rows@.len() && b != c implies (#[trigger] rows@[b]).task_id
                != (#[trigger] rows@[c]).task_id by {
            assert(rows@[b].task_id == keys@[b]);
            assert(rows@[c].task_id == keys@[c]);
        }
    }
    let out = order_by_total(rows);
    proof {
        let o = out@;
        let rs = rows@;
        assert forall|a: int| 0 <= a < o.len() implies task_row_ok(entries@, tasks@, year, month, #[trigger] o[a]) by {
            let b = choose|b: int| 0 <= b < rs.len() && o[a] == rs[b];
            assert(task_row_ok(entries@, tasks@, year, month, rs[b]));
        }
        assert forall|j: int|
            0 <= j < entries@.len() && counted(#[trigger] entries@[j], year, month) implies exists|a: int|
                0 <= a < o.len() && (#[trigger] o[a]).task_id == entries@[j].task_id by {
            let b = choose|b: int| 0 <= b < keys@.len() && keys@[b] == entries@[j].task_id;
            assert(rs[b].task_id == keys@[b]);
            let a = choose|a: int| 0 <= a < o.len() && o[a] == rs[b];
            assert(o[a].task_id == entries@[j].task_id);
        }
    }
    Some(out)
}

/// For each day of the month (index 0 to 31), the label of the first counted entry
/// that started on it.
fn day_labels(entries: &Vec<TimeEntry>, year: i32, month: u32) -> (labels: Vec<Option<String>>)
    ensures
        labels@.len() == 32,
        forall|d: int|
            0 <= d < 32 && (#[trigger] labels@[d]).is_some() ==> day_seen(
                entries@,
                year,
                month,
                d as u32,
                labels@[d].unwrap()@,
            ),
        forall|j: int|
            0 <= j < entries@.len() && counted(#[trigger] entries@[j], year, month) ==> 1
                <= day_of_month(entries@[j]) <= 31 && labels@[day_of_month(entries@[j]) as int].is_some(),
{
    let mut labels: Vec<Option<String>> = Vec::new();
    let mut d: usize = 0;
    while d < 32
        invariant
            d <= 32,
            labels@.len() == d,
            forall|k: int| 0 <= k < d ==> (#[trigger] labels@[k]).is_none(),
        decreases 32 - d,
    {
        labels.push(None);
        d = d + 1;
    }
    let mut i: usize = 0;
    while i < entries.len()
        invariant
            i <= entries@.len(),
            labels@.len() == 32,
            forall|d: int|
                0 <= d < 32 && (#[trigger] labels@[d]).is_some() ==> day_seen(
                    entries@,
                    year,
                    month,
                    d as u32,
                    labels@[d].unwrap()@,
                ),
            forall|j: int|
                0 <= j < i && counted(#[trigger] entries@[j], year, month) ==> 1 <= day_of_month(
                    entries@[j],
                ) <= 31 && labels@[day_of_month(entries@[j]) as int].is_some(),
        decreases entries@.len() - i,
    {
        let e = &entries[i];
        if e.ended_at.is_some() {
            match utc_day(e.started_at.micros) {
                Some((y, m, day, label)) => {
                    if y == year && m == month {
                        let ghost before = labels@;
                        if labels[day as usize].is_none() {
                            labels.set(day as usize, Some(label));
                            proof {
                                assert(counted(entries@[i as int], year, month));
                                assert forall|k: int|
                                    0 <= k < 32 && (#[trigger] labels@[k]).is_some() implies day_seen(
                                    entries@,
                                    year,
                                    month,
                                    k as u32,
                                    labels@[k].unwrap()@,
                                ) by {
                                    if k != day as int {
                                        assert(labels@[k] == before[k]);
                                    }
                                }
                            }
                        }
                    }
                },
                None => {},
            }
        }
        i = i + 1;
    }
    labels
}

/// The daily rows of a month with the day of each, or none when a sum does not fit.
fn daily_rows(entries: &Vec<TimeEntry>, year: i32, month: u32) -> (r: Option<
    (Vec<DailySummary>, Ghost<Seq<u32>>),
>)
    ensures
        r.is_some() <==> forall|d: u32|
            fits(#[trigger] tally_seconds(entries@, year, month, Selector::Day(d))) && fits(
                tally_count(entries@, year, month, Selector::Day(d)),
            ),
        r.is_some() ==> daily_rows_match(entries@, year, month, r.unwrap().0@, r.unwrap().1@)
            && r.unwrap().0@.len() <= 31,
{
    let labels = day_labels(entries, year, month);
    let mut rows: Vec<DailySummary> = Vec::new();
    let ghost mut days: Seq<u32> = Seq::empty();
    let mut d: u32 = 1;
    while d < 32
        invariant
            1 <= d <= 32,
            labels@.len() == 32,
            forall|k: int|
                0 <= k < 32 && (#[trigger] labels@[k]).is_some() ==> day_seen(
                    entries@,
                    year,
                    month,
                    k as u32,
                    labels@[k].unwrap()@,
                ),
            forall|j: int|
                0 <= j < entries@.len() && counted(#[trigger] entries@[j], year, month) ==> 1
                    <= day_of_month(entries@[j]) <= 31 && labels@[day_of_month(entries@[j]) as int].is_some(),
            rows@.len() == days.len(),
            rows@.len() < d,
            forall|a: int| 0 <= a < days.len() ==> 1 <= #[trigger] days[a] < d,
            forall|a: int, b: int| 0 <= a < b < days.len() ==> (#[trigger] days[a]) < (#[trigger] days[b]),
            forall|a: int| 0 <= a < rows@.len() ==> daily_row_ok(entries@, year, month, #[trigger] rows@[a], days[a]),
            forall|k: u32| 1 <= k < d ==> fits(#[trigger] tally_seconds(entries@, year, month, Selector::Day(k))) && fits(
                tally_count(entries@, year, month, Selector::Day(k)),
            ),
            forall|j: int|
                0 <= j < entries@.len() && counted(#[trigger] entries@[j], year, month) && day_of_month(entries@[j]) < d
                    ==> exists|a: int| 0 <= a < days.len() && #[trigger] days[a] == day_of_month(entries@[j]),
        decreases 32 - d,
    {
        let (secs, count) = tally(entries, year, month, Selector::Day(d));
        if secs < i64::MIN as i128 || secs > i64::MAX as i128 || count > i64::MAX as u64 {
            return None;
        }
        let ghost old_days = days;
        match &labels[d as usize] {
            Some(label) => {
                rows.push(
                    DailySummary {
                        date: label.clone(),
                        total_seconds: secs as i64,
                        entry_count: count as i64,
                    },
                );
                proof {
                    days = days.push(d);
                    assert forall|j: int|
                        0 <= j < entries@.len() && counted(#[trigger] entries@[j], year, month)
                            && day_of_month(entries@[j]) < d + 1 implies exists|a: int|
                        0 <= a < days.len() && #[trigger] days[a] == day_of_month(entries@[j]) by {
                        if day_of_month(entries@[j]) == d {
                            assert(days[days.len() - 1] == d);
                        } else {
                            let a = choose|a: int| 0 <= a < old_days.len() && old_days[a] == day_of_month(entries@[j]);
                            assert(days[a] == old_days[a]);
                        }
                    }
                }
            },
            None => {
                proof {
                    assert forall|j: int| 0 <= j < entries@.len() implies !selected(
                        #[trigger] entries@[j],
                        year,
                        month,
                        Selector::Day(d),
                    ) by {
                        if selected(entries@[j], year, month, Selector::Day(d)) {
                            assert(counted(entries@[j], year, month));
                        }
                    }
                }
            },
        }
        d = d + 1;
    }
    proof {
        assert forall|k: u32|
            fits(#[trigger] tally_seconds(entries@, year, month, Selector::Day(k))) && fits(
                tally_count(entries@, year, month, Selector::Day(k)),
            ) by {
            if k < 1 || k >= 32 {
                assert forall|j: int| 0 <= j < entries@.len() implies !selected(
                    #[trigger] entries@[j],
                    year,
                    month,
                    Selector::Day(k),
                ) by {
                    if selected(entries@[j], year, month, Selector::Day(k)) {
                        assert(counted(entries@[j], year, month));
                    }
                }
                lemma_tally_empty(entries@, year, month, Selector::Day(k));
            }
        }
    }
    Some((rows, Ghost(days)))
}

/// A month without counted entries has no counted entry at all, and all its sums fit.
proof fn lemma_quiet_month(s: Seq<TimeEntry>, year: i32, month: u32)
    ensures
        tally_count(s, year, month, Selector::All) == 0 ==> report_fits(s, year, month)
            && tally_seconds(s, year, month, Selector::All) == 0 && forall|
            j: int,
        | 0 <= j < s.len() ==> !counted(#[trigger] s[j], year, month),
{
    if tally_count(s, year, month, Selector::All) == 0 {
        assert forall|j: int| 0 <= j < s.len() implies !counted(#[trigger] s[j], year, month) by {
            if counted(s[j], year, month) {
                lemma_tally_positive(s, year, month, Selector::All, j);
            }
        }
        lemma_tally_empty(s, year, month, Selector::All);
        assert forall|k: Option<Id>|
            fits(#[trigger] tally_seconds(s, year, month, Selector::Task(k))) && fits(
                tally_count(s, year, month, Selector::Task(k)),
            ) by {
            assert forall|j: int| 0 <= j < s.len() implies !selected(
                #[trigger] s[j],
                year,
                month,
                Selector::Task(k),
            ) by {}
            lemma_tally_empty(s, year, month, Selector::Task(k));
        }
        assert forall|d: u32|
            fits(#[trigger] tally_seconds(s, year, month, Selector::Day(d))) && fits(
                tally_count(s, year, month, Selector::Day(d)),
            ) by {
            assert forall|j: int| 0 <= j < s.len() implies !selected(
                #[trigger] s[j],
                year,
                month,
                Selector::Day(d),
            ) by {}
            lemma_tally_empty(s, year, month, Selector::Day(d));
        }
    }
}

/// The report of a calendar month (UTC) from the entries that ended and started in it.
///
/// It fails with `Database` exactly when a sum or count does not fit in 64 bits.
/// Otherwise the totals are over all counted entries, a task row is given for each
/// task key (entries without a task under the unclassified name and color) by total
/// seconds from most to least, a daily row for each day with entries in date order,
/// and the average is the total over the working days, truncated, or 0 without any.
pub fn get_monthly_report(ledger: &Ledger, year: i32, month: u32) -> (r: Result<
    MonthlyReport,
    AppError,
>)
    ensures
        r.is_ok() <==> report_fits(ledger.entries@, year, month),
        r.is_err() ==> r->Err_0 is Database,
        r.is_ok() ==> {
            let rep = r->Ok_0;
            let s = ledger.entries@;
            &&& rep.year == year
            &&& rep.month == month
            &&& rep.total_seconds == tally_seconds(s, year, month, Selector::All)
            &&& rep.total_entries == tally_count(s, year, month, Selector::All)
            &&& task_rows_match(s, ledger.tasks@, year, month, rep.task_summaries@)
            &&& exists|days: Seq<u32>|
                daily_rows_match(s, year, month, rep.daily_summaries@, days)
            &&& rep.working_days == rep.daily_summaries@.len()
            &&& rep.average_seconds_per_day == if rep.working_days > 0 {
                div_toward_zero(rep.total_seconds as int, rep.working_days as int)
            } else {
                0
            }
        },
        tally_count(ledger.entries@, year, month, Selector::All) == 0 ==> {
            &&& r.is_ok()
            &&& r->Ok_0.total_seconds == 0
            &&& r->Ok_0.total_entries == 0
            &&& r->Ok_0.working_days == 0
            &&& r->Ok_0.average_seconds_per_day == 0
            &&& r->Ok_0.task_summaries@.len() == 0
            &&& r->Ok_0.daily_summaries@.len() == 0
        },
{
    let ghost s = ledger.entries@;
    proof {
        lemma_quiet_month(s, year, month);
    }
    let tasks = match task_rows(&ledger.entries, &ledger.tasks, year, month) {
        Some(t) => t,
        None => {
            return Err(AppError::Database("A task total is out of range".to_owned()));
        },
    };
    let (daily, Ghost(days)) = match daily_rows(&ledger.entries, year, month) {
        Some(d) => d,
        None => {
            return Err(AppError::Database("A daily total is out of range".to_owned()));
        },
    };
    let (secs, count) = tally(&ledger.entries, year, month, Selector::All);
    if secs < i64::MIN as i128 || secs > i64::MAX as i128 || count > i64::MAX as u64 {
        return Err(AppError::Database("The monthly total is out of range".to_owned()));
    }
    let total_seconds = secs as i64;
    let working_days = daily.len() as i64;
    let average_seconds_per_day: i64 = if working_days > 0 {
        if total_seconds >= 0 {
            proof {
                vstd::arithmetic::div_mod::lemma_div_nonincreasing(total_seconds as int, working_days as int);
                vstd::arithmetic::div_mod::lemma_div_pos_is_pos(total_seconds as int, working_days as int);
            }
            total_seconds / working_days
        } else {
            let t = -(total_seconds as i128);
            proof {
                vstd::arithmetic::div_mod::lemma_div_nonincreasing(t as int, working_days as int);
                vstd::arithmetic::div_mod::lemma_div_pos_is_pos(t as int, working_days as int);
            }
            let q = t / (working_days as i128);
            (-q) as i64
        }
    } else {
        0
    };
    proof {
        assert(daily_rows_match(s, year, month, daily@, days));
        assert(working_days == daily@.len());
        if working_days > 0 {
            assert(average_seconds_per_day == div_toward_zero(total_seconds as int, working_days as int));
        }
        assert(tally_count(s, year, month, Selector::All) == 0 ==> tasks@.len() == 0) by {
            if tally_count(s, year, month, Selector::All) == 0 && tasks@.len() > 0 {
                assert(task_row_ok(s, ledger.tasks@, year, month, tasks@[0]));
                let j = choose|j: int|
                    0 <= j < s.len() && counted(#[trigger] s[j], year, month) && s[j].task_id
                        == tasks@[0].task_id;
                lemma_tally_positive(s, year, month, Selector::All, j);
            }
        }
        assert(tally_count(s, year, month, Selector::All) == 0 ==> daily@.len() == 0) by {
            if tally_count(s, year, month, Selector::All) == 0 && daily@.len() > 0 {
                assert(daily_row_ok(s, year, month, daily@[0], days[0]));
                let j = choose|j: int|
                    0 <= j < s.len() && counted(#[trigger] s[j], year, month) && day_of_month(s[j])
                        == days[0] && day_label(s[j]) == daily@[0].date@;
                lemma_tally_positive(s, year, month, Selector::All, j);
            }
        }
    }
    let rep = MonthlyReport {
        year,
        month,
        total_seconds,
        total_entries: count as i64,
        working_days,
        average_seconds_per_day,
        task_summaries: tasks,
        daily_summaries: daily,
    };
    proof {
        assert(rep.total_seconds == tally_seconds(s, year, month, Selector::All));
        assert(rep.total_entries == tally_count(s, year, month, Selector::All));
        assert(task_rows_match(s, ledger.tasks@, year, month, rep.task_summaries@));
        assert(daily_rows_match(s, year, month, rep.daily_summaries@, days));
        assert(rep.working_days == rep.daily_summaries@.len());
    }
    Ok(rep)
}

/// Whether `x` is a later month than `y`.
pub open spec fn later_month(x: (i32, u32), y: (i32, u32)) -> bool {
    x.0 > y.0 || (x.0 == y.0 && x.1 > y.1)
}

/// Whether the entry has ended and its start has a UTC month.
pub open spec fn has_month(e: TimeEntry) -> bool {
    e.ended_at.is_some() && utc_day_of(e.started_at.micros).is_some()
}

/// The UTC year and month in which an entry started.
pub open spec fn month_of(e: TimeEntry) -> (i32, u32) {
    (utc_day_of(e.started_at.micros).unwrap().0, utc_day_of(e.started_at.micros).unwrap().1)
}

/// The months go from latest to earliest, each once.
pub open spec fn months_descending(s: Seq<(i32, u32)>) -> bool {
    forall|a: int, b: int| 0 <= a < b < s.len() ==> later_month(#[trigger] s[a], #[trigger] s[b])
}

/// Some ended entry of `s` started in this month.
pub open spec fn month_seen(s: Seq<TimeEntry>, m: (i32, u32)) -> bool {
    exists|j: int| 0 <= j < s.len() && has_month(#[trigger] s[j]) && month_of(s[j]) == m
}

proof fn lemma_insert_month(s: Seq<(i32, u32)>, p: int, x: (i32, u32))
    requires
        0 <= p <= s.len(),
        months_descending(s),
        forall|a: int| 0 <= a < p ==> later_month(#[trigger] s[a], x),
        p < s.len() ==> later_month(x, s[p]),
    ensures
        months_descending(s.insert(p, x)),
{
    let n = s.insert(p, x);
    assert forall|a: int, b: int| 0 <= a < b < n.len() implies later_month(#[trigger] n[a], #[trigger] n[b]) by {
        if b < p {
            assert(n[a] == s[a] && n[b] == s[b]);
        } else if b == p {
            assert(n[a] == s[a]);
        } else if a < p {
            assert(n[a] == s[a] && n[b] == s[b - 1]);
            if p < b - 1 {
                assert(later_month(s[p], s[b - 1]));
            }
        } else if a == p {
            assert(n[b] == s[b - 1]);
            if p < b - 1 {
                assert(later_month(s[p], s[b - 1]));
            }
        } else {
            assert(n[a] == s[a - 1] && n[b] == s[b - 1]);
        }
    }
}

/// The months (UTC) in which ended entries started, each once, latest first.
pub fn get_available_months(ledger: &Ledger) -> (r: Vec<(i32, u32)>)
    ensures
        months_descending(r@),
        forall|a: int| 0 <= a < r@.len() ==> month_seen(ledger.entries@, #[trigger] r@[a]),
        forall|j: int|
            0 <= j < ledger.entries@.len() && has_month(#[trigger] ledger.entries@[j]) ==> exists|
                a: int,
            | 0 <= a < r@.len() && r@[a] == month_of(ledger.entries@[j]),
{
    let entries = &ledger.entries;
    let mut out: Vec<(i32, u32)> = Vec::new();
    let mut i: usize = 0;
    while i < entries.len()
        invariant
            i <= entries@.len(),
            months_descending(out@),
            forall|a: int| 0 <= a < out@.len() ==> month_seen(entries@, #[trigger] out@[a]),
            forall|j: int|
                0 <= j < i && has_month(#[trigger] entries@[j]) ==> exists|a: int|
                    0 <= a < out@.len() && out@[a] == month_of(entries@[j]),
        decreases entries@.len() - i,
    {
        let e = &entries[i];
        let ghost before = out@;
        if e.ended_at.is_some() {
            match utc_day(e.started_at.micros) {
                Some((y, m, _, _)) => {
                    let mut p: usize = 0;
                    while p < out.len() && (out[p].0 > y || (out[p].0 == y && out[p].1 > m))
                        invariant
                            p <= out@.len(),
                            out@ == before,
                            forall|a: int| 0 <= a < p ==> later_month(#[trigger] out@[a], (y, m)),
                        decreases out@.len() - p,
                    {
                        p = p + 1;
                    }
                    proof {
                        assert(has_month(entries@[i as int]) && month_of(entries@[i as int]) == (y, m));
                    }
                    if p < out.len() && out[p].0 == y && out[p].1 == m {
                        proof {
                            assert(out@[p as int] == (y, m));
                        }
                    } else {
                        proof {
                            lemma_insert_month(before, p as int, (y, m));
                        }
                        out.insert(p, (y, m));
                        proof {
                            let n = out@;
                            assert forall|a: int| 0 <= a < n.len() implies month_seen(entries@, #[trigger] n[a]) by {
                                if a < p {
                                    assert(n[a] == before[a]);
                                } else if a > p {
                                    assert(n[a] == before[a - 1]);
                                }
                            }
                            assert forall|j: int|
                                0 <= j < i && has_month(#[trigger] entries@[j]) implies exists|a: int|
                                    0 <= a < n.len() && n[a] == month_of(entries@[j]) by {
                                let a0 = choose|a: int| 0 <= a < before.len() && before[a] == month_of(entries@[j]);
                                if a0 < p {
                                    assert(n[a0] == before[a0]);
                                } else {
                                    assert(n[a0 + 1] == before[a0]);
                                }
                            }
                            assert(n[p as int] == (y, m));
                        }
                    }
                },
                None => {},
            }
        }
        i = i + 1;
    }
    out
}

} // verus!
