//! The task store: the persisted collection of task records and its
//! load / append-under-lock / save cycle.
//!
//! The store works on plain values. Reading and writing the data file itself
//! is left to the caller, which hands the file's text in and receives the
//! text to write back; everything between those two edges is verified here.

use vstd::prelude::*;

use crate::codec;
use crate::codec::{json_of_tasks, parse_tasks_spec, ParseError};
use crate::task::{new_task_view, views_of, Task, TaskView};

verus! {

/// How many copies of the new task one `add` invocation appends. The append
/// is fanned out to as many workers, all of which receive the same request
/// and each of which appends one copy under the collection's lock, so a
/// single invocation stores this many identical records. The duplication is
/// a known defect of the store's observable behaviour, kept faithfully here.
pub const WORKER_COPIES: usize = 4;

/// Name of the file that holds the persisted task collection, relative to
/// the working directory of the invocation.
pub fn get_data_path() -> (r: String)
    ensures
        r@ == "tasks.json"@,
{
    String::from_str("tasks.json")
}

/// The same record repeated `n` times.
pub open spec fn duplicated(t: TaskView, n: nat) -> Seq<TaskView> {
    Seq::new(n, |k: int| t)
}

/// What one `add` invocation does to the collection: it appends one copy of
/// the new task per worker.
pub open spec fn add_effect(ts: Seq<TaskView>, t: TaskView) -> Seq<TaskView> {
    ts + duplicated(t, WORKER_COPIES as nat)
}

/// What loading yields from the data file's text, where `None` stands for an
/// absent file: an absent file is an empty collection, anything else must
/// parse.
pub open spec fn load_result(contents: Option<Seq<char>>) -> Option<Seq<TaskView>> {
    match contents {
        None => Some(Seq::empty()),
        Some(s) => parse_tasks_spec(s),
    }
}

/// The text of the data file as a character sequence, where `None` stands
/// for an absent file.
pub open spec fn contents_view(contents: Option<&str>) -> Option<Seq<char>> {
    match contents {
        None => None,
        Some(s) => Some(s@),
    }
}

/// Builds the collection held by the data file's text. An absent file
/// (`None`) yields the empty collection; text that is not a well-formed data
/// file is rejected, never silently dropped.
pub fn load_tasks(contents: Option<&str>) -> (r: Result<Vec<Task>, ParseError>)
    ensures
        match r {
            Ok(tasks) => load_result(contents_view(contents)) == Some(views_of(tasks@)),
            Err(_) => load_result(contents_view(contents)) is None,
        },
{
    match contents {
        None => {
            let tasks: Vec<Task> = Vec::new();
            proof {
                assert(views_of(tasks@) =~= Seq::<TaskView>::empty());
            }
            Ok(tasks)
        },
        Some(s) => codec::parse_tasks(s),
    }
}

/// Writes the collection in the form in which it is persisted: the whole
/// file's text, replacing any prior contents.
pub fn save_tasks(tasks: &Vec<Task>) -> (r: String)
    ensures
        r@ == json_of_tasks(views_of(tasks@)),
{
    codec::serialize_tasks(tasks)
}

/// Appends a single fresh task to the end of the collection.
pub fn append_task(tasks: &mut Vec<Task>, title: String, description: String)
    ensures
        views_of(final(tasks)@) == views_of(old(tasks)@).push(
            new_task_view(title@, description@),
        ),
{
    let ghost before = tasks@;
    let t = Task::new(title, description);
    tasks.push(t);
    proof {
        assert(views_of(tasks@) =~= views_of(before).push(t@));
    }
}

/// One `add` invocation's mutation of the in-memory collection: every worker
/// appends a copy of the same fresh task, so the collection grows by one
/// copy per worker, all identical, none completed.
pub fn add_task(tasks: &mut Vec<Task>, title: &str, description: &str)
    ensures
        views_of(final(tasks)@) == add_effect(
            views_of(old(tasks)@),
            new_task_view(title@, description@),
        ),
{
    let ghost t = new_task_view(title@, description@);
    let mut k: usize = 0;
    proof {
        assert(views_of(tasks@) + duplicated(t, 0) =~= views_of(old(tasks)@));
    }
    while k < WORKER_COPIES
        invariant
            k <= WORKER_COPIES,
            t == new_task_view(title@, description@),
            views_of(tasks@) == views_of(old(tasks)@) + duplicated(t, k as nat),
        decreases WORKER_COPIES - k,
    {
        let ghost before = views_of(tasks@);
        append_task(tasks, String::from_str(title), String::from_str(description));
        proof {
            assert(views_of(tasks@) == before.push(t));
            assert(before.push(t) =~= views_of(old(tasks)@) + duplicated(t, (k + 1) as nat));
        }
        k += 1;
    }
    proof {
        assert(views_of(tasks@) =~= add_effect(views_of(old(tasks)@), t));
    }
}

/// A whole `add` invocation between its file edges: from the data file's
/// text (or its absence) to the text to write back. The prior collection is
/// loaded, the new task appended once per worker, and the result serialized;
/// text that does not parse aborts the operation before any mutation.
pub fn run_add(contents: Option<&str>, title: &str, description: &str) -> (r: Result<
    String,
    ParseError,
>)
    ensures
        match r {
            Ok(out) => load_result(contents_view(contents)) matches Some(ts) && out@
                == json_of_tasks(add_effect(ts, new_task_view(title@, description@))),
            Err(_) => load_result(contents_view(contents)) is None,
        },
{
    let mut tasks = match load_tasks(contents) {
        Ok(tasks) => tasks,
        Err(e) => {
            return Err(e);
        },
    };
    add_task(&mut tasks, title, description);
    Ok(save_tasks(&tasks))
}

// ---------------------------------------------------------------------------
// Laws of the store.
// ---------------------------------------------------------------------------

/// One `add` on the empty store yields exactly one record per worker, each
/// holding the given texts and not completed.
pub proof fn lemma_add_on_empty(title: Seq<char>, description: Seq<char>)
    ensures
        add_effect(Seq::empty(), new_task_view(title, description)).len() == WORKER_COPIES,
        forall|k: int|
            0 <= k < WORKER_COPIES ==> add_effect(Seq::empty(), new_task_view(title, description))[k]
                == new_task_view(title, description),
        !new_task_view(title, description).completed,
{
}

/// An `add` appends rather than replaces: every prior record keeps its place
/// and the collection grows strictly.
pub proof fn lemma_add_appends(ts: Seq<TaskView>, t: TaskView)
    ensures
        add_effect(ts, t).len() == ts.len() + WORKER_COPIES,
        add_effect(ts, t).len() > ts.len(),
        forall|k: int| 0 <= k < ts.len() ==> add_effect(ts, t)[k] == ts[k],
{
}

/// Round trip of the persistence cycle: loading the text that saving a
/// collection produced yields an equal collection, never an error.
pub proof fn lemma_save_then_load(ts: Seq<TaskView>)
    ensures
        load_result(Some(json_of_tasks(ts))) == Some(ts),
{
    codec::lemma_round_trip(ts);
}

/// The converse round trip: text that loads successfully is exactly what
/// saving the loaded collection writes back, so a load-save cycle leaves the
/// data file's text unchanged.
pub proof fn lemma_load_then_save(s: Seq<char>)
    requires
        load_result(Some(s)) is Some,
    ensures
        json_of_tasks(load_result(Some(s))->0) == s,
{
    codec::lemma_parse_canonical(s);
}

/// What "malformed" means: loading the data file's text fails precisely when
/// the text is not the serialization of any collection.
pub proof fn lemma_malformed_rejected(s: Seq<char>)
    ensures
        load_result(Some(s)) is None <==> (forall|ts: Seq<TaskView>| json_of_tasks(ts) != s),
{
    if load_result(Some(s)) is Some {
        codec::lemma_parse_canonical(s);
    } else {
        assert forall|ts: Seq<TaskView>| json_of_tasks(ts) != s by {
            if json_of_tasks(ts) == s {
                codec::lemma_round_trip(ts);
            }
        }
    }
}

} // verus!
