//! The execution coordinator's decision logic.
//!
//! A [`Coordinator`] owns the live [`TaskQueue`] during a run and is the only
//! structure that mutates it. The embedding program repeatedly asks for the
//! next ready task ([`Coordinator::next_task`]), runs its command in whatever
//! way it likes, and reports the outcome back once per dispatched task
//! ([`Coordinator::apply_outcome`]). Only a success marks the task done and
//! can unblock its dependents; a failed task leaves every dependent blocked.
//! [`Coordinator::finish`] closes the run and partitions all tasks into
//! succeeded, failed, and not-started.
//!
//! Each call of [`Coordinator::apply_outcome`] settles one task for good, so
//! a driving loop that alternates dispatching with waiting for outcomes ends
//! after at most one dispatch and one outcome per task.

use crate::queue::{needs_set, task_ids, Task, TaskId, TaskQueue};
use vstd::prelude::*;

verus! {

/// The final outcome of a run: the tasks in each terminal state.
pub struct RunReport<P> {
    /// Tasks whose command completed successfully.
    pub successful: Vec<Task<P>>,
    /// Tasks that were dispatched and failed, or could not be run at all.
    pub failed: Vec<Task<P>>,
    /// Tasks that never became ready, because an ancestor did not succeed or
    /// the run was abandoned.
    pub not_started: Vec<Task<P>>,
}

/// Drives a task queue to completion; see the module documentation.
pub struct Coordinator<P> {
    /// The live graph state.
    queue: TaskQueue<P>,
    /// Ids handed out for execution whose outcome is still pending.
    running: Vec<TaskId>,
    /// Tasks reported back as succeeded, in reporting order.
    successful: Vec<Task<P>>,
    /// Tasks reported back as failed or errored, in reporting order.
    failed: Vec<Task<P>>,
    /// The queue as it was when the run started.
    init: Ghost<TaskQueue<P>>,
}

impl<P> Coordinator<P> {
    /// The scheduling queue as it currently stands.
    pub closed spec fn sched(self) -> TaskQueue<P> {
        self.queue
    }

    /// The queue the run started from.
    pub closed spec fn initial(self) -> TaskQueue<P> {
        self.init@
    }

    /// The ids dispatched and not yet reported.
    pub closed spec fn running_ids(self) -> Seq<Seq<char>> {
        crate::queue::id_views(self.running@)
    }

    /// The tasks reported as succeeded so far.
    pub closed spec fn successful_tasks(self) -> Seq<Task<P>> {
        self.successful@
    }

    /// The tasks reported as failed so far.
    pub closed spec fn failed_tasks(self) -> Seq<Task<P>> {
        self.failed@
    }

    /// The ids of the tasks reported as succeeded so far.
    pub open spec fn successful_ids(self) -> Seq<Seq<char>> {
        task_ids(self.successful_tasks())
    }

    /// The ids of the tasks reported as failed so far.
    pub open spec fn failed_ids(self) -> Seq<Seq<char>> {
        task_ids(self.failed_tasks())
    }

    /// All ids the run is about.
    pub open spec fn all_ids(self) -> Set<Seq<char>> {
        Set::new(|x: Seq<char>| self.initial().has_task(x))
    }

    /// How many tasks have been settled for good.
    pub open spec fn settled(self) -> nat {
        self.successful_ids().len() + self.failed_ids().len()
    }

    /// The coordinator's invariant: the queue, the in-flight ids and the two
    /// reported lists partition the initial task set; an id is marked done in
    /// the queue exactly when its task was reported successful; and nothing
    /// was ever dispatched before all of its declared needs were done.
    pub closed spec fn wf(self) -> bool {
        &&& self.queue.wf()
        &&& self.running_ids().no_duplicates()
        &&& self.successful_ids().no_duplicates()
        &&& self.failed_ids().no_duplicates()
        &&& self.queue.done_set() == self.successful_ids().to_set()
        // pairwise disjointness of the four groups
        &&& forall|x: Seq<char>|
            #![trigger self.running_ids().contains(x)]
            self.running_ids().contains(x) ==> !self.successful_ids().contains(x)
                && !self.failed_ids().contains(x) && !self.queue.has_task(x)
        &&& forall|x: Seq<char>|
            #![trigger self.successful_ids().contains(x)]
            self.successful_ids().contains(x) ==> !self.failed_ids().contains(x)
                && !self.queue.has_task(x)
        &&& forall|x: Seq<char>|
            #![trigger self.failed_ids().contains(x)]
            self.failed_ids().contains(x) ==> !self.queue.has_task(x)
        // together they cover exactly the initial task set
        &&& forall|x: Seq<char>|
            self.initial().has_task(x) <==> self.queue.has_task(x) || self.running_ids().contains(
                x,
            ) || self.successful_ids().contains(x) || self.failed_ids().contains(x)
        // the queue still holds the initial declarations
        &&& forall|x: Seq<char>|
            self.queue.has_task(x) ==> self.initial().has_task(x) && self.queue.task_of(x)
                == self.initial().task_of(x)
        // everything ever dispatched had its declared needs done by then
        &&& forall|x: Seq<char>|
            #![trigger self.running_ids().contains(x)]
            self.running_ids().contains(x) ==> self.initial().has_task(x) && needs_set(
                self.initial().task_of(x),
            ).subset_of(self.queue.done_set())
        &&& forall|x: Seq<char>|
            #![trigger self.successful_ids().contains(x)]
            self.successful_ids().contains(x) ==> self.initial().has_task(x) && needs_set(
                self.initial().task_of(x),
            ).subset_of(self.queue.done_set())
        &&& forall|x: Seq<char>|
            #![trigger self.failed_ids().contains(x)]
            self.failed_ids().contains(x) ==> self.initial().has_task(x) && needs_set(
                self.initial().task_of(x),
            ).subset_of(self.queue.done_set())
        &&& self.initial().wf()
    }

    /// Start a run over a freshly validated queue.
    pub fn new(queue: TaskQueue<P>) -> (r: Self)
        requires
            queue.wf(),
            queue.done_set() == Set::<Seq<char>>::empty(),
        ensures
            r.wf(),
            r.initial() == queue,
            r.sched() == queue,
            r.running_ids().len() == 0,
            r.successful_ids().len() == 0,
            r.failed_ids().len() == 0,
    {
        let r = Coordinator {
            init: Ghost(queue),
            queue,
            running: Vec::new(),
            successful: Vec::new(),
            failed: Vec::new(),
        };
        proof {
            assert(r.successful_ids().to_set() =~= Set::<Seq<char>>::empty());
        }
        r
    }

    /// Hand out a ready task for dispatch, marking it in flight. The returned
    /// task is one whose every declared need has been reported successful: a
    /// task is never dispatched before all of its dependencies are done.
    pub fn next_task(&mut self) -> (r: Option<Task<P>>)
        requires
            old(self).wf(),
        ensures
            final(self).wf(),
            final(self).initial() == old(self).initial(),
            final(self).successful_tasks() == old(self).successful_tasks(),
            final(self).failed_tasks() == old(self).failed_tasks(),
            match r {
                None => {
                    &&& final(self).running_ids() == old(self).running_ids()
                    &&& old(self).sched().avail_len() == 0
                    &&& final(self).sched().avail_len() == 0
                    &&& final(self).sched().done_set() == old(self).sched().done_set()
                    &&& forall|x: Seq<char>|
                        final(self).sched().has_blocked(x) == old(self).sched().has_blocked(x)
                },
                Some(t) => {
                    &&& old(self).sched().has_avail(t.id@)
                    &&& t == old(self).initial().task_of(t.id@)
                    &&& needs_set(t).subset_of(old(self).successful_ids().to_set())
                    &&& final(self).running_ids() == old(self).running_ids().push(t.id@)
                    &&& final(self).sched().avail_len() + 1 == old(self).sched().avail_len()
                    &&& forall|x: Seq<char>|
                        final(self).sched().has_blocked(x) == old(self).sched().has_blocked(x)
                },
            },
    {
        let ghost pre = *self;
        let popped = self.queue.pop_available();
        match popped {
            None => {
                proof {
                    assert forall|x: Seq<char>|
                        self.queue.has_task(x) implies self.initial().has_task(x)
                        && self.queue.task_of(x) == self.initial().task_of(x) by {
                        assert(pre.queue.has_task(x));
                        assert(self.queue.task_of(x) == pre.queue.task_of(x));
                    }
                    assert forall|x: Seq<char>|
                        self.initial().has_task(x) <==> (self.queue.has_task(x)
                            || self.running_ids().contains(x) || self.successful_ids().contains(x)
                            || self.failed_ids().contains(x)) by {
                        if pre.queue.has_task(x) {
                            assert(self.queue.has_task(x));
                        }
                        if self.queue.has_task(x) {
                            assert(pre.queue.has_task(x));
                        }
                        assert(pre.initial().has_task(x) <==> (pre.queue.has_task(x)
                            || pre.running_ids().contains(x) || pre.successful_ids().contains(x)
                            || pre.failed_ids().contains(x)));
                    }
                }
                None
            },
            Some(t) => {
                self.running.push(t.id.clone());
                proof {
                    broadcast use vstd::seq_lib::group_seq_properties;

                    crate::queue::lemma_id_views_push(pre.running@, t.id);
                    assert(self.running_ids() =~= pre.running_ids().push(t.id@));
                    assert(!pre.running_ids().contains(t.id@));
                    crate::queue::lemma_no_dup_push(pre.running_ids(), t.id@);
                    assert(pre.queue.has_task(t.id@));
                    assert(t == pre.initial().task_of(t.id@));
                    assert forall|x: Seq<char>|
                        self.initial().has_task(x) <==> (self.queue.has_task(x)
                            || self.running_ids().contains(x) || self.successful_ids().contains(x)
                            || self.failed_ids().contains(x)) by {
                        if pre.queue.has_task(x) && x != t.id@ {
                            assert(self.queue.has_task(x));
                        }
                        if x == t.id@ {
                            assert(self.running_ids()[self.running_ids().len() - 1] == t.id@);
                            assert(pre.initial().has_task(x));
                        }
                        if pre.running_ids().contains(x) {
                            let w = choose|w: int|
                                0 <= w < pre.running_ids().len() && pre.running_ids()[w] == x;
                            assert(self.running_ids()[w] == x);
                        }
                        if self.queue.has_task(x) {
                            assert(pre.queue.has_task(x));
                        }
                        if self.running_ids().contains(x) && x != t.id@ {
                            assert(pre.running_ids().contains(x));
                        }
                        assert(pre.initial().has_task(x) <==> (pre.queue.has_task(x)
                            || pre.running_ids().contains(x) || pre.successful_ids().contains(x)
                            || pre.failed_ids().contains(x)));
                    }
                    assert forall|x: Seq<char>|
                        #![trigger self.running_ids().contains(x)]
                        self.running_ids().contains(x) implies !self.successful_ids().contains(x)
                        && !self.failed_ids().contains(x) && !self.queue.has_task(x)
                        && self.initial().has_task(x) && needs_set(
                        self.initial().task_of(x),
                    ).subset_of(self.queue.done_set()) by {
                        if x != t.id@ {
                            assert(pre.running_ids().contains(x));
                        }
                    }
                }
                Some(t)
            },
        }
    }

    /// Whether any dispatched task has not reported its outcome yet.
    pub fn has_running(&self) -> (r: bool)
        ensures
            r == (self.running_ids().len() > 0),
    {
        self.running.len() > 0
    }

    /// Whether this id was dispatched and has not reported its outcome yet.
    pub fn is_running(&self, id: &TaskId) -> (r: bool)
        ensures
            r == self.running_ids().contains(id@),
    {
        let mut k: usize = 0;
        while k < self.running.len()
            invariant
                k <= self.running@.len(),
                forall|j: int| 0 <= j < k ==> self.running_ids()[j] != id@,
            decreases self.running@.len() - k,
        {
            if self.running[k].0 == id.0 {
                proof {
                    assert(self.running_ids()[k as int] == id@);
                }
                return true;
            }
            k += 1;
        }
        proof {
            assert(!self.running_ids().contains(id@));
        }
        false
    }

    /// Take the reported outcome of one in-flight task: on success the task
    /// is marked done in the queue, which may make dependents available; on
    /// failure nothing is marked, so every dependent stays blocked. Each call
    /// settles the task for good.
    pub fn apply_outcome(&mut self, task: Task<P>, success: bool)
        requires
            old(self).wf(),
            old(self).running_ids().contains(task.id@),
        ensures
            final(self).wf(),
            final(self).initial() == old(self).initial(),
            final(self).settled() == old(self).settled() + 1,
            final(self).running_ids().to_set() == old(self).running_ids().to_set().remove(
                task.id@,
            ),
            success ==> final(self).successful_tasks() == old(self).successful_tasks().push(task)
                && final(self).failed_tasks() == old(self).failed_tasks() && (forall|x: Seq<char>|
                final(self).sched().has_avail(x) <==> (old(self).sched().has_avail(x) || (old(
                self).sched().has_blocked(x) && old(self).sched().needs_of(x).subset_of(
                    old(self).sched().done_set().insert(task.id@),
                )))),
            !success ==> final(self).failed_tasks() == old(self).failed_tasks().push(task)
                && final(self).successful_tasks() == old(self).successful_tasks() && final(
                self).sched() == old(self).sched(),
    {
        let ghost pre = *self;
        // the task leaves the in-flight set
        crate::queue::remove_id(&mut self.running, &task.id);
        proof {
            assert(pre.running_ids().contains(task.id@));
        }
        if success {
            self.queue.mark_done(&task.id);
            self.successful.push(task);
            proof {
                broadcast use vstd::seq_lib::group_seq_properties;

                crate::queue::lemma_task_ids_push(pre.successful@, task);
                assert(self.successful_ids() =~= pre.successful_ids().push(task.id@));
                assert(!pre.successful_ids().contains(task.id@));
                crate::queue::lemma_no_dup_push(pre.successful_ids(), task.id@);
                assert(self.queue.done_set() =~= self.successful_ids().to_set()) by {
                    crate::queue::lemma_to_set_push(pre.successful_ids(), task.id@);
                }
                let done1 = pre.queue.done_set().insert(task.id@);
                assert forall|x: Seq<char>|
                    self.initial().has_task(x) implies self.queue.has_task(x)
                    || self.running_ids().contains(x) || self.successful_ids().contains(x)
                    || self.failed_ids().contains(x) by {
                    if x == task.id@ {
                        assert(self.successful_ids()[self.successful_ids().len() - 1] == x);
                    } else {
                        if pre.running_ids().contains(x) {
                            assert(self.running_ids().to_set().contains(x));
                        }
                        if pre.successful_ids().contains(x) {
                            let w = choose|w: int|
                                0 <= w < pre.successful_ids().len() && pre.successful_ids()[w]
                                    == x;
                            assert(self.successful_ids()[w] == x);
                        }
                    }
                }
                assert forall|x: Seq<char>|
                    #![trigger self.successful_ids().contains(x)]
                    self.successful_ids().contains(x) implies !self.failed_ids().contains(x)
                    && !self.queue.has_task(x) && self.initial().has_task(x) && needs_set(
                    self.initial().task_of(x),
                ).subset_of(self.queue.done_set()) by {
                    if x != task.id@ {
                        assert(pre.successful_ids().contains(x));
                        assert(needs_set(pre.initial().task_of(x)).subset_of(
                            pre.queue.done_set(),
                        ));
                        assert(pre.queue.done_set().subset_of(self.queue.done_set()));
                    } else {
                        assert(needs_set(pre.initial().task_of(x)).subset_of(
                            pre.queue.done_set(),
                        ));
                        assert(pre.queue.done_set().subset_of(self.queue.done_set()));
                    }
                }
                assert forall|x: Seq<char>|
                    #![trigger self.running_ids().contains(x)]
                    self.running_ids().contains(x) implies !self.successful_ids().contains(x)
                    && !self.failed_ids().contains(x) && !self.queue.has_task(x)
                    && self.initial().has_task(x) && needs_set(
                    self.initial().task_of(x),
                ).subset_of(self.queue.done_set()) by {
                    assert(self.running_ids().to_set().contains(x));
                    assert(pre.running_ids().contains(x));
                    assert(x != task.id@);
                    assert(pre.queue.done_set().subset_of(self.queue.done_set()));
                    if self.queue.has_task(x) {
                        assert(pre.queue.has_task(x));
                    }
                }
                assert forall|x: Seq<char>|
                    #![trigger self.failed_ids().contains(x)]
                    self.failed_ids().contains(x) implies !self.queue.has_task(x)
                    && self.initial().has_task(x) && needs_set(
                    self.initial().task_of(x),
                ).subset_of(self.queue.done_set()) by {
                    assert(pre.failed_ids().contains(x));
                    assert(x != task.id@);
                    assert(pre.queue.done_set().subset_of(self.queue.done_set()));
                    if self.queue.has_task(x) {
                        assert(pre.queue.has_task(x));
                    }
                }
                assert forall|x: Seq<char>|
                    self.queue.has_task(x) implies self.initial().has_task(x)
                    && self.queue.task_of(x) == self.initial().task_of(x) by {
                    assert(pre.queue.has_task(x));
                }
            }
        } else {
            self.failed.push(task);
            proof {
                broadcast use vstd::seq_lib::group_seq_properties;

                crate::queue::lemma_task_ids_push(pre.failed@, task);
                assert(self.failed_ids() =~= pre.failed_ids().push(task.id@));
                assert(!pre.failed_ids().contains(task.id@));
                crate::queue::lemma_no_dup_push(pre.failed_ids(), task.id@);
                assert forall|x: Seq<char>|
                    self.initial().has_task(x) implies self.queue.has_task(x)
                    || self.running_ids().contains(x) || self.successful_ids().contains(x)
                    || self.failed_ids().contains(x) by {
                    if x == task.id@ {
                        assert(self.failed_ids()[self.failed_ids().len() - 1] == x);
                    } else {
                        if pre.running_ids().contains(x) {
                            assert(self.running_ids().to_set().contains(x));
                        }
                        if pre.failed_ids().contains(x) {
                            let w = choose|w: int|
                                0 <= w < pre.failed_ids().len() && pre.failed_ids()[w] == x;
                            assert(self.failed_ids()[w] == x);
                        }
                    }
                }
                assert forall|x: Seq<char>|
                    #![trigger self.running_ids().contains(x)]
                    self.running_ids().contains(x) implies !self.successful_ids().contains(x)
                    && !self.failed_ids().contains(x) && !self.queue.has_task(x)
                    && self.initial().has_task(x) && needs_set(
                    self.initial().task_of(x),
                ).subset_of(self.queue.done_set()) by {
                    assert(self.running_ids().to_set().contains(x));
                    assert(pre.running_ids().contains(x));
                    assert(x != task.id@);
                }
                assert forall|x: Seq<char>|
                    #![trigger self.failed_ids().contains(x)]
                    self.failed_ids().contains(x) implies !self.queue.has_task(x)
                    && self.initial().has_task(x) && needs_set(
                    self.initial().task_of(x),
                ).subset_of(self.queue.done_set()) by {
                    if x != task.id@ {
                        assert(pre.failed_ids().contains(x));
                    } else {
                        assert(pre.running_ids().contains(x));
                    }
                }
            }
        }
    }

    /// A run can only take finitely many outcomes: the number of settled
    /// tasks never exceeds the number of tasks the run started with. Together
    /// with [`Coordinator::apply_outcome`] growing the settled count by one
    /// per call, this bounds any driving loop.
    pub proof fn lemma_settled_bounded(self)
        requires
            self.wf(),
        ensures
            self.all_ids().finite(),
            self.settled() <= self.all_ids().len(),
    {
        broadcast use vstd::seq_lib::group_seq_properties;
        broadcast use vstd::seq_lib::seq_to_set_is_finite;

        let ss = self.successful_ids().to_set();
        let fs = self.failed_ids().to_set();
        self.successful_ids().unique_seq_to_set();
        self.failed_ids().unique_seq_to_set();
        assert(ss.disjoint(fs));
        vstd::set_lib::lemma_set_disjoint_lens(ss, fs);
        let iq = self.initial();
        assert(self.all_ids() =~= iq.avail_ids().to_set().union(iq.blocked_ids().to_set())) by {
            assert forall|x: Seq<char>| iq.has_task(x) implies iq.avail_ids().to_set().union(
                iq.blocked_ids().to_set(),
            ).contains(x) by {}
        }
        assert((ss + fs).subset_of(self.all_ids())) by {
            assert forall|x: Seq<char>| (ss + fs).contains(x) implies self.all_ids().contains(
                x,
            ) by {
                assert(self.successful_ids().contains(x) || self.failed_ids().contains(x));
            }
        }
        vstd::set_lib::lemma_len_subset(ss + fs, self.all_ids());
    }

    /// A task that declares a failed task among its needs can never have been
    /// dispatched, succeeded or failed itself: it is still held in the queue.
    pub proof fn lemma_dependent_of_failed_stays_back(self, b: Seq<char>, x: Seq<char>)
        requires
            self.wf(),
            self.failed_ids().contains(b),
            self.initial().has_task(x),
            needs_set(self.initial().task_of(x)).contains(b),
        ensures
            !self.successful_ids().contains(x),
            !self.failed_ids().contains(x),
            !self.running_ids().contains(x),
            !self.sched().has_avail(x),
            self.sched().has_blocked(x),
    {
        assert(!self.successful_ids().contains(b));
        assert(!self.queue.done_set().contains(b));
        if self.successful_ids().contains(x) || self.failed_ids().contains(x)
            || self.running_ids().contains(x) {
            assert(needs_set(self.initial().task_of(x)).subset_of(self.queue.done_set()));
        }
        assert(self.queue.has_task(x));
        if self.sched().has_avail(x) {
            self.queue.lemma_avail_needs_done(x);
        }
    }

    /// Close the run: every task still blocked in the queue is reported as
    /// not started. When nothing is in flight and nothing is still available,
    /// the three lists of the report partition the initial task set.
    pub fn finish(self) -> (r: RunReport<P>)
        requires
            self.wf(),
        ensures
            r.successful@ == self.successful_tasks(),
            r.failed@ == self.failed_tasks(),
            task_ids(r.not_started@).no_duplicates(),
            forall|x: Seq<char>|
                task_ids(r.not_started@).contains(x) <==> self.sched().has_blocked(x),
            forall|i: int|
                0 <= i < r.not_started@.len() ==> (#[trigger] r.not_started@[i])
                    == self.initial().task_of(r.not_started@[i].id@),
            // with nothing in flight and nothing ready, the report is a
            // partition of all tasks: disjoint and jointly exhaustive
            (self.running_ids().len() == 0 && self.sched().avail_len() == 0) ==> {
                &&& forall|x: Seq<char>|
                    self.initial().has_task(x) <==> (task_ids(r.successful@).contains(x)
                        || task_ids(r.failed@).contains(x) || task_ids(r.not_started@).contains(
                        x,
                    ))
                &&& forall|x: Seq<char>|
                    !(task_ids(r.successful@).contains(x) && task_ids(r.failed@).contains(x))
                &&& forall|x: Seq<char>|
                    !(task_ids(r.successful@).contains(x) && task_ids(r.not_started@).contains(x))
                &&& forall|x: Seq<char>|
                    !(task_ids(r.failed@).contains(x) && task_ids(r.not_started@).contains(x))
                &&& r.successful@.len() + r.failed@.len() + r.not_started@.len()
                    == self.all_ids().len()
            },
    {
        let Coordinator { queue, running: _, successful, failed, init } = self;
        let ghost me = self;
        let not_started = queue.give_up();
        proof {
            broadcast use vstd::seq_lib::group_seq_properties;

            assert forall|x: Seq<char>|
                task_ids(not_started@).contains(x) implies me.sched().has_blocked(x) by {
                let w = choose|w: int|
                    0 <= w < task_ids(not_started@).len() && task_ids(not_started@)[w] == x;
                assert(not_started@[w].id@ == x);
                assert(me.sched().has_blocked(not_started@[w].id@));
            }
            assert forall|i: int| 0 <= i < not_started@.len() implies (#[trigger] not_started@[i])
                == me.initial().task_of(not_started@[i].id@) by {
                assert(not_started@[i] == me.sched().task_of(not_started@[i].id@));
            }
            if me.running_ids().len() == 0 && me.sched().avail_len() == 0 {
                assert forall|x: Seq<char>|
                    me.initial().has_task(x) implies (task_ids(successful@).contains(x)
                    || task_ids(failed@).contains(x) || task_ids(not_started@).contains(x)) by {
                    if me.running_ids().contains(x) {
                        let w = choose|w: int|
                            0 <= w < me.running_ids().len() && me.running_ids()[w] == x;
                    }
                    if me.sched().has_task(x) {
                        if me.sched().has_avail(x) {
                            let w = choose|w: int|
                                0 <= w < me.sched().avail_ids().len() && me.sched().avail_ids()[w]
                                    == x;
                        }
                    }
                }
                assert forall|x: Seq<char>|
                    (task_ids(successful@).contains(x) || task_ids(failed@).contains(x)
                        || task_ids(not_started@).contains(x)) implies me.initial().has_task(
                    x,
                ) by {}
                // the three id sets are disjoint, so their sizes add up
                let ss = task_ids(successful@).to_set();
                let fs = task_ids(failed@).to_set();
                let ns = task_ids(not_started@).to_set();
                task_ids(successful@).unique_seq_to_set();
                task_ids(failed@).unique_seq_to_set();
                task_ids(not_started@).unique_seq_to_set();
                broadcast use vstd::seq_lib::seq_to_set_is_finite;

                assert(ss.disjoint(fs));
                assert((ss + fs).disjoint(ns));
                vstd::set_lib::lemma_set_disjoint_lens(ss, fs);
                vstd::set_lib::lemma_set_disjoint_lens(ss + fs, ns);
                assert(me.all_ids() =~= ss + fs + ns);
                assert(((ss + fs) + ns).len() == successful@.len() + failed@.len()
                    + not_started@.len());
            }
        }
        RunReport { successful, failed, not_started }
    }
}

} // verus!
