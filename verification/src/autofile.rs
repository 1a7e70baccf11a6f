//! The plain records a task-definition file is loaded into.
//!
//! The embedding program parses the file format; this module holds the parsed
//! values, rejects definition sets that reuse a task name, and turns a
//! definition set into the tasks the dependency planner takes.

use crate::queue;
use vstd::prelude::*;

verus! {

/// One task definition from the configuration.
#[derive(Debug)]
pub struct Task {
    /// Executable to start.
    pub program: String,
    /// Additional arguments to pass to the program.
    pub arguments: Vec<String>,
    /// Names of the tasks that must have completed before this one may run.
    pub needs: Vec<String>,
}

/// A fault in the raw definition mapping, found before graph construction.
#[derive(Debug)]
pub enum ConfigError {
    /// Two definitions use the same task name.
    DuplicateTask { id: String },
}

/// The views of a sequence of strings.
pub open spec fn str_views(ss: Seq<String>) -> Seq<Seq<char>> {
    ss.map_values(|s: String| s@)
}

/// The names of a sequence of named definitions.
pub open spec fn entry_names(es: Seq<(String, Task)>) -> Seq<Seq<char>> {
    es.map_values(|e: (String, Task)| e.0@)
}

/// A whole task-definition file: named task definitions whose names are
/// pairwise distinct.
#[derive(Debug)]
pub struct AutoFile {
    tasks: Vec<(String, Task)>,
}

impl AutoFile {
    /// The named definitions the file holds.
    pub closed spec fn entries(self) -> Seq<(String, Task)> {
        self.tasks@
    }

    /// The definition names have no duplicates.
    pub open spec fn wf(self) -> bool {
        entry_names(self.entries()).no_duplicates()
    }

    /// Take over a raw definition mapping, as a list of named definitions.
    /// Succeeds exactly when no task name is used twice; two definitions
    /// under one name are never merged silently.
    pub fn from_entries(entries: Vec<(String, Task)>) -> (r: Result<AutoFile, ConfigError>)
        ensures
            r is Ok <==> entry_names(entries@).no_duplicates(),
            r matches Ok(f) ==> f.entries() == entries@ && f.wf(),
            r matches Err(ConfigError::DuplicateTask { id }) ==> exists|i: int, j: int|
                0 <= i < j < entries@.len() && entry_names(entries@)[i] == id@ && entry_names(
                    entries@,
                )[j] == id@,
    {
        let mut k: usize = 1;
        while k < entries.len()
            invariant
                1 <= k <= entries@.len() || entries@.len() == 0,
                forall|i: int, j: int|
                    0 <= i < j < k ==> entry_names(entries@)[i] != entry_names(entries@)[j],
            decreases entries@.len() - k,
        {
            let mut j: usize = 0;
            while j < k
                invariant
                    0 <= j <= k < entries@.len(),
                    forall|i: int| 0 <= i < j ==> entry_names(entries@)[i] != entry_names(
                        entries@,
                    )[k as int],
                decreases k - j,
            {
                if entries[j].0 == entries[k].0 {
                    proof {
                        assert(entry_names(entries@)[j as int] == entries@[j as int].0@);
                        assert(entry_names(entries@)[k as int] == entries@[k as int].0@);
                    }
                    return Err(ConfigError::DuplicateTask { id: entries[k].0.clone() });
                }
                j += 1;
            }
            k += 1;
        }
        proof {
            assert(entry_names(entries@).no_duplicates()) by {
                assert forall|i: int, j: int|
                    0 <= i < entry_names(entries@).len() && 0 <= j < entry_names(entries@).len()
                        && i != j implies entry_names(entries@)[i] != entry_names(entries@)[j] by {
                }
            }
        }
        Ok(AutoFile { tasks: entries })
    }

    /// Turn the definitions into the planner's tasks: each named definition
    /// becomes a task whose id is the name, whose needs are the named needs,
    /// and whose payload is the definition itself.
    pub fn plan_tasks(self) -> (r: Vec<queue::Task<Task>>)
        requires
            self.wf(),
        ensures
            r@.len() == self.entries().len(),
            forall|i: int|
                0 <= i < r@.len() ==> {
                    let t = #[trigger] r@[i];
                    t.id@ == self.entries()[i].0@ && t.payload == self.entries()[i].1
                        && queue::id_views(t.needs@) == str_views(self.entries()[i].1.needs@)
                },
            queue::task_ids(r@).no_duplicates(),
    {
        let ghost all = self.tasks@;
        let mut entries = self.tasks;
        let mut out: Vec<queue::Task<Task>> = Vec::new();
        while entries.len() > 0
            invariant
                out@.len() + entries@.len() == all.len(),
                entries@ == all.skip(out@.len() as int),
                forall|i: int|
                    0 <= i < out@.len() ==> {
                        let t = #[trigger] out@[i];
                        t.id@ == all[i].0@ && t.payload == all[i].1 && queue::id_views(t.needs@)
                            == str_views(all[i].1.needs@)
                    },
            decreases entries@.len(),
        {
            let ghost n0 = out@.len() as int;
            let (name, task) = entries.remove(0);
            proof {
                broadcast use vstd::seq_lib::group_seq_properties;

                assert(all.skip(n0)[0] == all[n0]);
                assert((name, task) == all[n0]);
                assert(entries@ =~= all.skip(n0 + 1));
            }
            let mut needs: Vec<queue::TaskId> = Vec::new();
            let mut w: usize = 0;
            while w < task.needs.len()
                invariant
                    w <= task.needs@.len(),
                    queue::id_views(needs@) =~= str_views(task.needs@).take(w as int),
                decreases task.needs@.len() - w,
            {
                let ghost pren = needs@;
                needs.push(queue::TaskId(task.needs[w].clone()));
                w += 1;
                proof {
                    queue::lemma_id_views_push(pren, needs@.last());
                    assert(str_views(task.needs@)[w - 1] == task.needs@[w - 1]@);
                    assert(queue::id_views(needs@) =~= str_views(task.needs@).take(w as int));
                }
            }
            proof {
                assert(str_views(task.needs@).take(task.needs@.len() as int) =~= str_views(
                    task.needs@,
                ));
            }
            out.push(queue::Task { id: queue::TaskId(name), needs, payload: task });
        }
        proof {
            assert(queue::task_ids(out@).no_duplicates()) by {
                assert forall|i: int, j: int|
                    0 <= i < out@.len() && 0 <= j < out@.len() && i != j implies queue::task_ids(
                    out@,
                )[i] != queue::task_ids(out@)[j] by {
                    assert(queue::task_ids(out@)[i] == out@[i].id@);
                    assert(queue::task_ids(out@)[j] == out@[j].id@);
                    assert(entry_names(all)[i] == all[i].0@);
                    assert(entry_names(all)[j] == all[j].0@);
                }
            }
        }
        out
    }
}

} // verus!
