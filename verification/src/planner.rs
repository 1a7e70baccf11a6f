//! A stand-alone scheduling queue over validated tasks.
//!
//! [`PlanQueue`] keeps the same bookkeeping as [`crate::queue::TaskQueue`] —
//! an available list, a blocked list and a reverse-dependency index — but
//! performs no validation of its own: callers that have already checked their
//! task set for cycles and dangling references insert tasks directly.

use vstd::prelude::*;

verus! {

/// Unique ID of a task to be run: a plain name string.
#[derive(Debug)]
pub struct TaskId(pub String);

impl View for TaskId {
    type V = Seq<char>;

    open spec fn view(&self) -> Seq<char> {
        self.0@
    }
}

impl Clone for TaskId {
    fn clone(&self) -> (r: Self)
        ensures
            r == *self,
            r@ == self@,
    {
        TaskId(self.0.clone())
    }
}

/// A task definition: a unique id, the ids of the tasks it depends on, and an
/// arbitrary payload (for instance the command to run).
#[derive(Debug)]
pub struct Task<P> {
    pub id: TaskId,
    pub needs: Vec<TaskId>,
    pub payload: P,
}

/// The views of a sequence of task ids.
pub open spec fn id_views(ids: Seq<TaskId>) -> Seq<Seq<char>> {
    ids.map_values(|t: TaskId| t@)
}

/// The set of dependency ids a task declares.
pub open spec fn needs_set<P>(t: Task<P>) -> Set<Seq<char>> {
    id_views(t.needs@).to_set()
}

/// The views of the ids of a sequence of tasks.
pub open spec fn task_ids<P>(ts: Seq<Task<P>>) -> Seq<Seq<char>> {
    ts.map_values(|t: Task<P>| t.id@)
}

/// Whether a task id occurs in a list of ids.
fn ids_contain(ids: &Vec<TaskId>, id: &TaskId) -> (r: bool)
    ensures
        r == id_views(ids@).contains(id@),
{
    let mut k: usize = 0;
    while k < ids.len()
        invariant
            0 <= k <= ids@.len(),
            forall|j: int| 0 <= j < k ==> id_views(ids@)[j] != id@,
        decreases ids@.len() - k,
    {
        if ids[k].0 == id.0 {
            assert(id_views(ids@)[k as int] == id@);
            return true;
        }
        k += 1;
    }
    assert(!id_views(ids@).contains(id@));
    false
}

/// Mapping the view over a pushed id commutes with pushing the view.
pub(crate) proof fn lemma_id_views_push(ids: Seq<TaskId>, t: TaskId)
    ensures
        id_views(ids.push(t)) =~= id_views(ids).push(t@),
{
    assert forall|i: int| 0 <= i < ids.len() + 1 implies id_views(ids.push(t))[i] == id_views(
        ids,
    ).push(t@)[i] by {
        if i < ids.len() {
            assert(ids.push(t)[i] == ids[i]);
        } else {
            assert(ids.push(t)[i] == t);
        }
    }
}

/// The set of a pushed sequence is the set of the sequence plus the element.
pub(crate) proof fn lemma_to_set_push(s: Seq<Seq<char>>, x: Seq<char>)
    ensures
        s.push(x).to_set() =~= s.to_set().insert(x),
{
    broadcast use vstd::seq_lib::group_seq_properties;

    assert forall|y: Seq<char>| s.push(x).to_set().contains(y) implies s.to_set().insert(
        x,
    ).contains(y) by {
        assert(s.push(x).contains(y));
    }
    assert forall|y: Seq<char>| s.to_set().insert(x).contains(y) implies s.push(x).to_set()
        .contains(y) by {
        if y == x {
            assert(s.push(x)[s.len() as int] == x);
        } else {
            assert(s.contains(y));
            let w = choose|w: int| 0 <= w < s.len() && s[w] == y;
            assert(s.push(x)[w] == y);
        }
    }
}

/// Pushing an element that does not occur keeps a sequence duplicate-free.
pub(crate) proof fn lemma_no_dup_push(s: Seq<Seq<char>>, x: Seq<char>)
    requires
        s.no_duplicates(),
        !s.contains(x),
    ensures
        s.push(x).no_duplicates(),
{
    assert forall|i: int, j: int|
        0 <= i < s.push(x).len() && 0 <= j < s.push(x).len() && i != j implies s.push(x)[i]
        != s.push(x)[j] by {
        if i < s.len() && j < s.len() {
        } else if i < s.len() {
            assert(s[i] == s.push(x)[i]);
        } else {
            assert(s[j] == s.push(x)[j]);
        }
    }
}

/// Mapping the view over a concatenation splits into the two parts.
proof fn lemma_id_views_concat(a: Seq<TaskId>, b: Seq<TaskId>)
    ensures
        id_views(a + b) =~= id_views(a) + id_views(b),
{
    assert forall|i: int| 0 <= i < a.len() + b.len() implies id_views(a + b)[i] == (id_views(a)
        + id_views(b))[i] by {
        if i < a.len() {
            assert((a + b)[i] == a[i]);
        } else {
            assert((a + b)[i] == b[i - a.len()]);
        }
    }
}

/// Remove the (at most one) occurrence of an id from a duplicate-free list.
pub(crate) fn remove_id(v: &mut Vec<TaskId>, id: &TaskId)
    requires
        id_views(old(v)@).no_duplicates(),
    ensures
        id_views(final(v)@).no_duplicates(),
        id_views(final(v)@).to_set() == id_views(old(v)@).to_set().remove(id@),
        id_views(old(v)@).contains(id@) ==> final(v)@.len() == old(v)@.len() - 1,
        !id_views(old(v)@).contains(id@) ==> final(v)@ == old(v)@,
{
    let ghost pre = v@;
    let mut k: usize = 0;
    while k < v.len()
        invariant
            k <= v@.len(),
            v@ == pre,
            forall|j: int| 0 <= j < k ==> id_views(pre)[j] != id@,
        decreases v@.len() - k,
    {
        if v[k].0 == id.0 {
            v.remove(k);
            proof {
                broadcast use vstd::seq_lib::group_seq_properties;

                let olds = id_views(pre);
                let news = id_views(v@);
                assert(olds[k as int] == id@);
                assert(v@ == pre.remove(k as int));
                assert forall|i: int| 0 <= i < news.len() implies news[i] == (if i < k {
                    olds[i]
                } else {
                    olds[i + 1]
                }) by {
                    if i < k {
                        assert(v@[i] == pre[i]);
                    } else {
                        assert(v@[i] == pre[i + 1]);
                    }
                }
                assert(news.no_duplicates());
                assert forall|x: Seq<char>|
                    news.to_set().contains(x) implies olds.to_set().remove(id@).contains(x) by {
                    let w = choose|w: int| 0 <= w < news.len() && news[w] == x;
                    if w < k {
                        assert(olds[w] == x);
                        assert(x != id@);
                    } else {
                        assert(olds[w + 1] == x);
                        assert(x != id@);
                    }
                }
                assert forall|x: Seq<char>|
                    olds.to_set().remove(id@).contains(x) implies news.to_set().contains(x) by {
                    let w = choose|w: int| 0 <= w < olds.len() && olds[w] == x;
                    assert(w != k);
                    if w < k {
                        assert(news[w] == x);
                    } else {
                        assert(news[w - 1] == x);
                    }
                }
                assert(news.to_set() =~= olds.to_set().remove(id@));
                assert(olds.contains(id@));
            }
            return;
        }
        k += 1;
    }
    proof {
        assert(!id_views(pre).contains(id@));
        assert(!id_views(pre).to_set().contains(id@));
        assert(id_views(v@).to_set() =~= id_views(pre).to_set().remove(id@));
    }
}

/// An element of a suffix other than the suffix's head is in the next suffix.
proof fn lemma_skip_shift(s: Seq<Seq<char>>, d: int, y: Seq<char>)
    requires
        0 <= d < s.len(),
        s.skip(d).contains(y),
        y != s[d],
    ensures
        s.skip(d + 1).contains(y),
{
    broadcast use vstd::seq_lib::group_seq_properties;

    let w = choose|w: int| 0 <= w < s.skip(d).len() && s.skip(d)[w] == y;
    assert(s.skip(d)[w] == s[d + w]);
    assert(w >= 1);
    assert(s.skip(d + 1)[w - 1] == s[d + w]);
}

/// A task waiting for dependencies, together with the ids it still waits for.
struct TaskState<P> {
    task: Task<P>,
    remaining_needs: Vec<TaskId>,
}

/// One entry of the reverse-dependency index: the tasks that declared `need`
/// as a dependency.
struct NeedEntry {
    need: TaskId,
    dependents: Vec<TaskId>,
}

/// The ids of a sequence of waiting tasks.
spec fn state_ids<P>(ss: Seq<TaskState<P>>) -> Seq<Seq<char>> {
    ss.map_values(|s: TaskState<P>| s.task.id@)
}

/// While an id is being marked done, a blocked entry is in one of two states:
/// already consistent with the grown done set, or still carrying the marked
/// id among its outstanding needs and scheduled in the unprocessed dependent
/// list `rest`.
spec fn md_entry_ok<P>(
    s: TaskState<P>,
    pre: PlanQueue<P>,
    idv: Seq<char>,
    rest: Seq<Seq<char>>,
) -> bool {
    let done1 = pre.done_set().insert(idv);
    &&& pre.has_blocked(s.task.id@)
    &&& s.task == pre.task_of(s.task.id@)
    &&& id_views(s.remaining_needs@).no_duplicates()
    &&& s.remaining_needs@.len() > 0
    &&& !done1.contains(s.task.id@)
    &&& (id_views(s.remaining_needs@).to_set() == needs_set(s.task).difference(done1) || (
    id_views(s.remaining_needs@).to_set() == needs_set(s.task).difference(pre.done_set())
        && id_views(s.remaining_needs@).to_set().contains(idv) && rest.contains(s.task.id@)))
}

/// While an id is being marked done, an available entry is consistent with
/// the grown done set and carries a task the queue held before.
spec fn md_avail_ok<P>(e: Task<P>, pre: PlanQueue<P>, idv: Seq<char>) -> bool {
    let done1 = pre.done_set().insert(idv);
    &&& needs_set(e).subset_of(done1)
    &&& !done1.contains(e.id@)
    &&& pre.has_task(e.id@)
    &&& e == pre.task_of(e.id@)
}

/// A waiting task is consistent with the set `done` of ids marked done: it
/// still waits for at least one id, the ids it waits for are the declared
/// needs that are not done, and the task itself is not done.
spec fn wf_state<P>(s: TaskState<P>, done: Set<Seq<char>>) -> bool {
    &&& s.remaining_needs@.len() > 0
    &&& id_views(s.remaining_needs@).no_duplicates()
    &&& id_views(s.remaining_needs@).to_set() == needs_set(s.task).difference(done)
    &&& !done.contains(s.task.id@)
}

/// The live scheduling structure: every registered task is either available
/// (all its declared needs are done) or blocked (some need is outstanding).
pub struct PlanQueue<P> {
    /// All tasks that cannot be executed yet.
    blocked: Vec<TaskState<P>>,
    /// Tasks indexed by reverse dependency relationship.
    needed_by: Vec<NeedEntry>,
    /// Tasks that can be run right now.
    available: Vec<Task<P>>,
    /// The ids that have been marked done.
    done: Ghost<Set<Seq<char>>>,
}

impl<P> PlanQueue<P> {
    /// The ids of the currently available tasks.
    pub closed spec fn avail_ids(self) -> Seq<Seq<char>> {
        task_ids(self.available@)
    }

    /// The ids of the currently blocked tasks.
    pub closed spec fn blocked_ids(self) -> Seq<Seq<char>> {
        state_ids(self.blocked@)
    }

    /// Whether a task with this id is available.
    pub open spec fn has_avail(self, id: Seq<char>) -> bool {
        self.avail_ids().contains(id)
    }

    /// Whether a task with this id is blocked.
    pub open spec fn has_blocked(self, id: Seq<char>) -> bool {
        self.blocked_ids().contains(id)
    }

    /// Whether a task with this id is registered (available or blocked).
    pub open spec fn has_task(self, id: Seq<char>) -> bool {
        self.has_avail(id) || self.has_blocked(id)
    }

    /// The ids that have been marked done so far.
    pub closed spec fn done_set(self) -> Set<Seq<char>> {
        self.done@
    }

    /// How many tasks are available.
    pub open spec fn avail_len(self) -> nat {
        self.avail_ids().len()
    }

    /// How many tasks are blocked.
    pub open spec fn blocked_len(self) -> nat {
        self.blocked_ids().len()
    }

    spec fn avail_at(self, id: Seq<char>) -> int {
        choose|i: int| 0 <= i < self.available@.len() && self.available@[i].id@ == id
    }

    spec fn blocked_at(self, id: Seq<char>) -> int {
        choose|i: int| 0 <= i < self.blocked@.len() && self.blocked@[i].task.id@ == id
    }

    /// The task registered under this id.
    pub closed spec fn task_of(self, id: Seq<char>) -> Task<P> {
        if self.has_avail(id) {
            self.available@[self.avail_at(id)]
        } else {
            self.blocked@[self.blocked_at(id)].task
        }
    }

    /// The declared needs of the task registered under this id.
    pub open spec fn needs_of(self, id: Seq<char>) -> Set<Seq<char>> {
        needs_set(self.task_of(id))
    }

    /// `dep` is recorded as a dependent of `need` in the reverse index.
    spec fn listed(self, need: Seq<char>, dep: Seq<char>) -> bool {
        exists|k: int|
            0 <= k < self.needed_by@.len() && (#[trigger] self.needed_by@[k]).need@ == need
                && id_views(self.needed_by@[k].dependents@).contains(dep)
    }

    spec fn wf_distinct(self) -> bool {
        &&& self.avail_ids().no_duplicates()
        &&& self.blocked_ids().no_duplicates()
        &&& forall|i: int|
            0 <= i < self.available@.len() ==> !self.blocked_ids().contains(
                #[trigger] self.available@[i].id@,
            )
    }

    spec fn wf_blocked(self) -> bool {
        forall|i: int|
            0 <= i < self.blocked@.len() ==> wf_state(#[trigger] self.blocked@[i], self.done@)
    }

    spec fn wf_avail(self) -> bool {
        forall|i: int|
            0 <= i < self.available@.len() ==> {
                let t = #[trigger] self.available@[i];
                needs_set(t).subset_of(self.done@) && !self.done@.contains(t.id@)
            }
    }

    /// Every outstanding need of every blocked task is recorded in the
    /// reverse index, so that marking that need done reaches the task.
    spec fn wf_rev(self) -> bool {
        forall|i: int, r: int|
            0 <= i < self.blocked@.len() && 0 <= r < self.blocked@[i].remaining_needs@.len()
                ==> self.listed(
                (#[trigger] self.blocked@[i].remaining_needs@[r])@,
                self.blocked@[i].task.id@,
            )
    }

    /// The queue's internal invariant.
    pub closed spec fn wf(self) -> bool {
        &&& self.wf_distinct()
        &&& self.wf_blocked()
        &&& self.wf_avail()
        &&& self.wf_rev()
    }

    proof fn lemma_task_of_avail(self, i: int)
        requires
            self.wf(),
            0 <= i < self.available@.len(),
        ensures
            self.has_avail(self.available@[i].id@),
            self.task_of(self.available@[i].id@) == self.available@[i],
            !self.has_blocked(self.available@[i].id@),
    {
        let id = self.available@[i].id@;
        assert(self.avail_ids()[i] == id);
        assert(self.has_avail(id));
        let j = self.avail_at(id);
        assert(self.available@[j].id@ == id);
        assert(self.avail_ids()[j] == id);
        assert(j == i);
    }

    proof fn lemma_task_of_blocked(self, i: int)
        requires
            self.wf(),
            0 <= i < self.blocked@.len(),
        ensures
            self.has_blocked(self.blocked@[i].task.id@),
            !self.has_avail(self.blocked@[i].task.id@),
            self.task_of(self.blocked@[i].task.id@) == self.blocked@[i].task,
    {
        let id = self.blocked@[i].task.id@;
        assert(self.blocked_ids()[i] == id);
        assert(self.has_blocked(id));
        if self.has_avail(id) {
            let k = choose|k: int| 0 <= k < self.avail_ids().len() && self.avail_ids()[k] == id;
            assert(self.available@[k].id@ == id);
            assert(!self.blocked_ids().contains(self.available@[k].id@));
        }
        let j = self.blocked_at(id);
        assert(self.blocked@[j].task.id@ == id);
        assert(self.blocked_ids()[j] == id);
        assert(j == i);
    }
}

impl<P> PlanQueue<P> {
    /// An empty queue: no task registered, nothing marked done.
    pub fn new() -> (r: Self)
        ensures
            r.wf(),
            r.done_set() == Set::<Seq<char>>::empty(),
            r.avail_len() == 0,
            r.blocked_len() == 0,
            forall|x: Seq<char>| !r.has_task(x),
    {
        let r = PlanQueue {
            blocked: Vec::new(),
            needed_by: Vec::new(),
            available: Vec::new(),
            done: Ghost(Set::empty()),
        };
        proof {
            assert(r.avail_ids() =~= Seq::<Seq<char>>::empty());
            assert(r.blocked_ids() =~= Seq::<Seq<char>>::empty());
        }
        r
    }


    /// Remove and return a task from the available set, if any. Every task
    /// handed out this way has all of its declared needs marked done.
    pub fn pop_available(&mut self) -> (r: Option<Task<P>>)
        requires
            old(self).wf(),
        ensures
            final(self).wf(),
            final(self).done_set() == old(self).done_set(),
            final(self).blocked_ids() == old(self).blocked_ids(),
            forall|x: Seq<char>|
                old(self).has_blocked(x) ==> final(self).task_of(x) == old(self).task_of(x),
            match r {
                None => old(self).avail_len() == 0 && final(self).avail_ids() == old(
                    self,
                ).avail_ids() && (forall|x: Seq<char>|
                    old(self).has_task(x) ==> final(self).task_of(x) == old(self).task_of(x)),
                Some(t) => {
                    &&& old(self).has_avail(t.id@)
                    &&& t == old(self).task_of(t.id@)
                    &&& needs_set(t).subset_of(old(self).done_set())
                    &&& !old(self).done_set().contains(t.id@)
                    &&& !final(self).has_task(t.id@)
                    &&& forall|x: Seq<char>|
                        x != t.id@ ==> final(self).has_avail(x) == old(self).has_avail(x)
                    &&& forall|x: Seq<char>|
                        x != t.id@ && old(self).has_task(x) ==> final(self).task_of(x) == old(
                            self,
                        ).task_of(x)
                    &&& final(self).avail_len() + 1 == old(self).avail_len()
                },
            },
    {
        let ghost pre = *self;
        let r = self.available.pop();
        proof {
            broadcast use vstd::seq_lib::group_seq_properties;

            if pre.available@.len() > 0 {
                let t = pre.available@.last();
                let n = pre.available@.len() - 1;
                pre.lemma_task_of_avail(n);
                assert(self.available@ == pre.available@.take(n));
                assert(self.avail_ids() =~= pre.avail_ids().take(n));
                assert(needs_set(t).subset_of(pre.done@));
                // the popped id is gone: it occurred only at the last position
                assert(forall|j: int|
                    0 <= j < n ==> #[trigger] self.avail_ids()[j] == pre.avail_ids()[j]);
                assert forall|i: int|
                    0 <= i < self.available@.len() implies pre.available@.contains(
                    #[trigger] self.available@[i],
                ) by {
                    assert(self.available@[i] == pre.available@[i]);
                }
                assert(self.avail_ids().no_duplicates()) by {
                    assert forall|i: int, j: int|
                        0 <= i < self.avail_ids().len() && 0 <= j < self.avail_ids().len() && i
                            != j implies self.avail_ids()[i] != self.avail_ids()[j] by {
                        assert(self.avail_ids()[i] == pre.avail_ids()[i]);
                        assert(self.avail_ids()[j] == pre.avail_ids()[j]);
                    }
                }
                self.lemma_wf_from_views(pre);
                assert forall|i: int|
                    0 <= i < self.blocked@.len() implies pre.blocked@.contains(
                    #[trigger] self.blocked@[i],
                ) by {
                    assert(self.blocked@[i] == pre.blocked@[i]);
                }
                assert(!self.has_avail(t.id@)) by {
                    if self.has_avail(t.id@) {
                        let j = choose|j: int|
                            0 <= j < self.avail_ids().len() && self.avail_ids()[j] == t.id@;
                        assert(pre.avail_ids()[j] == pre.avail_ids()[n]);
                    }
                }
                assert(!self.has_blocked(t.id@)) by {
                    pre.lemma_task_of_avail(n);
                }
                assert forall|x: Seq<char>| x != t.id@ implies self.has_avail(x) == pre.has_avail(
                    x,
                ) by {
                    if pre.has_avail(x) {
                        let j = choose|j: int|
                            0 <= j < pre.avail_ids().len() && pre.avail_ids()[j] == x;
                        assert(j != n);
                        assert(self.avail_ids()[j] == x);
                    }
                }
                assert forall|x: Seq<char>| x != t.id@ && pre.has_task(x) implies self.task_of(x)
                    == pre.task_of(x) by {
                    if pre.has_blocked(x) {
                        pre.lemma_has_blocked_not_avail(x);
                        self.lemma_has_blocked_not_avail(x);
                    }
                    self.lemma_task_of_agree(pre, x);
                }
                assert(self.avail_ids().len() + 1 == pre.avail_ids().len());
            } else {
                assert(self.available@ == pre.available@);
                assert(self.avail_ids() == pre.avail_ids());
                assert forall|i: int|
                    0 <= i < self.available@.len() implies pre.available@.contains(
                    #[trigger] self.available@[i],
                ) by {
                    assert(self.available@[i] == pre.available@[i]);
                }
                self.lemma_wf_from_views(pre);
                assert forall|i: int|
                    0 <= i < self.blocked@.len() implies pre.blocked@.contains(
                    #[trigger] self.blocked@[i],
                ) by {
                    assert(self.blocked@[i] == pre.blocked@[i]);
                }
                assert forall|x: Seq<char>| pre.has_task(x) implies self.task_of(x) == pre.task_of(
                    x,
                ) by {
                    if pre.has_blocked(x) {
                        pre.lemma_has_blocked_not_avail(x);
                        self.lemma_has_blocked_not_avail(x);
                    }
                    self.lemma_task_of_agree(pre, x);
                }
            }
        }
        r
    }

    /// A queue whose blocked list, reverse index and done set are those of a
    /// well-formed queue, and whose available entries are drawn without
    /// duplicate ids from that queue's available list, is well formed.
    proof fn lemma_wf_from_views(self, other: PlanQueue<P>)
        requires
            other.wf(),
            self.blocked@ == other.blocked@,
            self.needed_by@ == other.needed_by@,
            self.done@ == other.done@,
            self.avail_ids().no_duplicates(),
            forall|i: int|
                0 <= i < self.available@.len() ==> other.available@.contains(
                    #[trigger] self.available@[i],
                ),
        ensures
            self.wf(),
    {
        assert(self.blocked_ids() == other.blocked_ids());
        assert forall|i: int|
            0 <= i < self.available@.len() implies {
            let e = #[trigger] self.available@[i];
            needs_set(e).subset_of(self.done@) && !self.done@.contains(e.id@)
                && !self.blocked_ids().contains(e.id@)
        } by {
            let e = self.available@[i];
            let j = choose|j: int| 0 <= j < other.available@.len() && other.available@[j] == e;
            assert(needs_set(other.available@[j]).subset_of(other.done@));
            assert(!other.blocked_ids().contains(other.available@[j].id@));
        }
        self.lemma_wf_core(other);
    }

    /// A queue whose blocked list, reverse index and done set are those of a
    /// well-formed queue, and whose available entries each satisfy the
    /// available-side invariant, is well formed.
    proof fn lemma_wf_core(self, other: PlanQueue<P>)
        requires
            other.wf(),
            self.blocked@ == other.blocked@,
            self.needed_by@ == other.needed_by@,
            self.done@ == other.done@,
            self.avail_ids().no_duplicates(),
            forall|i: int|
                0 <= i < self.available@.len() ==> {
                    let e = #[trigger] self.available@[i];
                    needs_set(e).subset_of(self.done@) && !self.done@.contains(e.id@)
                        && !self.blocked_ids().contains(e.id@)
                },
        ensures
            self.wf(),
    {
        assert(self.blocked_ids() == other.blocked_ids());
        assert(self.wf_blocked()) by {
            assert forall|i: int| 0 <= i < self.blocked@.len() implies wf_state(
                #[trigger] self.blocked@[i],
                self.done@,
            ) by {
                assert(self.blocked@[i] == other.blocked@[i]);
                assert(wf_state(other.blocked@[i], other.done@));
            }
        }
        assert(self.wf_rev()) by {
            assert forall|i: int, r: int|
                0 <= i < self.blocked@.len() && 0 <= r
                    < self.blocked@[i].remaining_needs@.len() implies self.listed(
                (#[trigger] self.blocked@[i].remaining_needs@[r])@,
                self.blocked@[i].task.id@,
            ) by {
                assert(self.blocked@[i] == other.blocked@[i]);
                let n = other.blocked@[i].remaining_needs@[r]@;
                let d = other.blocked@[i].task.id@;
                assert(other.listed(n, d));
                let k = choose|k: int|
                    0 <= k < other.needed_by@.len() && (#[trigger] other.needed_by@[k]).need@ == n
                        && id_views(other.needed_by@[k].dependents@).contains(d);
                assert(self.needed_by@[k] == other.needed_by@[k]);
                assert(self.listed(n, d));
            }
        }
    }

    /// Two well-formed queues give the same task for an id registered in
    /// both, provided the entries carrying that id in one are present in the
    /// other.
    proof fn lemma_task_of_agree(self, other: PlanQueue<P>, x: Seq<char>)
        requires
            self.wf(),
            other.wf(),
            self.has_task(x),
            other.has_task(x),
            self.has_avail(x) <==> other.has_avail(x),
            forall|i: int|
                0 <= i < self.available@.len() && (#[trigger] self.available@[i]).id@ == x
                    ==> other.available@.contains(self.available@[i]),
            forall|i: int|
                0 <= i < self.blocked@.len() && (#[trigger] self.blocked@[i]).task.id@ == x
                    ==> other.blocked@.contains(self.blocked@[i]),
        ensures
            self.task_of(x) == other.task_of(x),
    {
        if self.has_avail(x) {
            let i = choose|i: int| 0 <= i < self.avail_ids().len() && self.avail_ids()[i] == x;
            assert(self.available@[i].id@ == x);
            self.lemma_task_of_avail(i);
            let e = self.available@[i];
            assert(other.available@.contains(e));
            let j = choose|j: int| 0 <= j < other.available@.len() && other.available@[j] == e;
            other.lemma_task_of_avail(j);
        } else {
            assert(self.has_blocked(x));
            let i = choose|i: int|
                0 <= i < self.blocked_ids().len() && self.blocked_ids()[i] == x;
            assert(self.blocked@[i].task.id@ == x);
            self.lemma_task_of_blocked(i);
            let e = self.blocked@[i];
            assert(other.blocked@.contains(e));
            let j = choose|j: int| 0 <= j < other.blocked@.len() && other.blocked@[j] == e;
            other.lemma_task_of_blocked(j);
            other.lemma_has_blocked_not_avail(x);
        }
    }

    /// In a well-formed queue a blocked id is never available.
    proof fn lemma_has_blocked_not_avail(self, x: Seq<char>)
        requires
            self.wf(),
            self.has_blocked(x),
        ensures
            !self.has_avail(x),
    {
        if self.has_avail(x) {
            let i = choose|i: int|
                0 <= i < self.available@.len() && self.available@[i].id@ == x;
            assert(self.avail_ids()[i] == x);
            self.lemma_task_of_avail(i);
        }
    }

    /// Record `dep` as a dependent of `need` in the reverse index.
    fn register_need(&mut self, need: &TaskId, dep: &TaskId)
        ensures
            final(self).blocked == old(self).blocked,
            final(self).available == old(self).available,
            final(self).done == old(self).done,
            forall|n: Seq<char>, d: Seq<char>|
                old(self).listed(n, d) ==> final(self).listed(n, d),
            final(self).listed(need@, dep@),
    {
        let ghost pre = *self;
        let mut k: usize = 0;
        while k < self.needed_by.len()
            invariant
                *self == pre,
                k <= self.needed_by@.len(),
            decreases self.needed_by@.len() - k,
        {
            if self.needed_by[k].need.0 == need.0 {
                let ghost m = self.needed_by@.len() as int;
                let mut e = self.needed_by.swap_remove(k);
                e.dependents.push(dep.clone());
                self.needed_by.push(e);
                proof {
                    broadcast use vstd::seq_lib::group_seq_properties;

                    let olds = pre.needed_by@;
                    let news = self.needed_by@;
                    assert(news.len() == m);
                    assert(news[m - 1].need@ == need@);
                    assert(id_views(news[m - 1].dependents@) =~= id_views(
                        olds[k as int].dependents@,
                    ).push(dep@));
                    assert(id_views(news[m - 1].dependents@).contains(dep@)) by {
                        assert(id_views(news[m - 1].dependents@)[id_views(
                            news[m - 1].dependents@,
                        ).len() - 1] == dep@);
                    }
                    assert(self.listed(need@, dep@));
                    assert forall|n: Seq<char>, d: Seq<char>| pre.listed(n, d) implies self.listed(
                        n,
                        d,
                    ) by {
                        let w = choose|w: int|
                            0 <= w < olds.len() && (#[trigger] olds[w]).need@ == n && id_views(
                                olds[w].dependents@,
                            ).contains(d);
                        if w == k {
                            assert(news[m - 1].need@ == n);
                            assert(id_views(news[m - 1].dependents@).contains(d));
                        } else if w == m - 1 && k < m - 1 {
                            assert(news[k as int] == olds[m - 1]);
                            assert(self.listed(n, d));
                        } else {
                            assert(news[w] == olds[w]);
                            assert(self.listed(n, d));
                        }
                    }
                }
                return;
            }
            k += 1;
        }
        let mut deps: Vec<TaskId> = Vec::new();
        deps.push(dep.clone());
        self.needed_by.push(NeedEntry { need: need.clone(), dependents: deps });
        proof {
            let olds = pre.needed_by@;
            let news = self.needed_by@;
            let m = olds.len() as int;
            assert(news[m].need@ == need@);
            assert(id_views(news[m].dependents@)[0] == dep@);
            assert(id_views(news[m].dependents@).contains(dep@));
            assert(self.listed(need@, dep@));
            assert forall|n: Seq<char>, d: Seq<char>| pre.listed(n, d) implies self.listed(
                n,
                d,
            ) by {
                let w = choose|w: int|
                    0 <= w < olds.len() && (#[trigger] olds[w]).need@ == n && id_views(
                        olds[w].dependents@,
                    ).contains(d);
                assert(news[w] == olds[w]);
                assert(self.listed(n, d));
            }
        }
    }

    /// Register a task. A task without declared needs is available at once;
    /// otherwise it is blocked on its (distinct) declared needs, and each of
    /// those needs gains the task as a recorded dependent.
    ///
    /// The task's id must be fresh and none of its needs may already be done:
    /// the builder validates definitions before registering them, and a run
    /// registers every task before it marks anything done.
    #[verifier::loop_isolation(false)]
    pub fn insert(&mut self, task: Task<P>)
        requires
            old(self).wf(),
            !old(self).has_task(task.id@),
            !old(self).done_set().contains(task.id@),
            forall|r: int|
                0 <= r < task.needs@.len() ==> !old(self).done_set().contains(
                    (#[trigger] task.needs@[r])@,
                ),
        ensures
            final(self).wf(),
            final(self).done_set() == old(self).done_set(),
            final(self).has_task(task.id@),
            final(self).task_of(task.id@) == task,
            task.needs@.len() == 0 ==> final(self).has_avail(task.id@) && final(self).avail_len()
                == old(self).avail_len() + 1 && final(self).blocked_ids() == old(
                self,
            ).blocked_ids(),
            task.needs@.len() > 0 ==> final(self).has_blocked(task.id@) && final(self).avail_ids()
                == old(self).avail_ids() && final(self).blocked_len() == old(self).blocked_len()
                + 1,
            forall|x: Seq<char>|
                x != task.id@ ==> final(self).has_avail(x) == old(self).has_avail(x),
            forall|x: Seq<char>|
                x != task.id@ ==> final(self).has_blocked(x) == old(self).has_blocked(x),
            forall|x: Seq<char>|
                x != task.id@ && old(self).has_task(x) ==> final(self).task_of(x) == old(
                    self,
                ).task_of(x),
    {
        let ghost pre = *self;
        if task.needs.len() == 0 {
            self.available.push(task);
            proof {
                broadcast use vstd::seq_lib::group_seq_properties;

                assert(self.avail_ids() =~= pre.avail_ids().push(task.id@));
                assert(needs_set(task).subset_of(self.done@)) by {
                    assert forall|x: Seq<char>| needs_set(task).contains(x) implies self
                        .done@.contains(x) by {
                        assert(id_views(task.needs@).contains(x));
                    }
                }
                assert(self.avail_ids().no_duplicates()) by {
                    assert forall|i: int, j: int|
                        0 <= i < self.avail_ids().len() && 0 <= j < self.avail_ids().len() && i
                            != j implies self.avail_ids()[i] != self.avail_ids()[j] by {
                        if i < pre.avail_ids().len() && j < pre.avail_ids().len() {
                        } else {
                            assert(!pre.has_avail(task.id@));
                        }
                    }
                }
                self.lemma_wf_core(pre);
                let n = self.available@.len() - 1;
                assert(self.available@[n] == task);
                self.lemma_task_of_avail(n);
                assert forall|x: Seq<char>| x != task.id@ implies self.has_avail(x) == pre
                    .has_avail(x) by {
                    if pre.has_avail(x) {
                        let j = choose|j: int|
                            0 <= j < pre.avail_ids().len() && pre.avail_ids()[j] == x;
                        assert(self.avail_ids()[j] == x);
                    } else if self.has_avail(x) {
                        let j = choose|j: int|
                            0 <= j < self.avail_ids().len() && self.avail_ids()[j] == x;
                        assert(j < pre.avail_ids().len());
                        assert(pre.avail_ids()[j] == x);
                    }
                }
                assert forall|x: Seq<char>| x != task.id@ && pre.has_task(x) implies self.task_of(
                    x,
                ) == pre.task_of(x) by {
                    if pre.has_blocked(x) {
                        pre.lemma_has_blocked_not_avail(x);
                        self.lemma_has_blocked_not_avail(x);
                    }
                    assert forall|i: int|
                        0 <= i < self.available@.len() && (#[trigger] self.available@[i]).id@
                            == x implies pre.available@.contains(self.available@[i]) by {
                        assert(self.available@[i] == pre.available@[i]);
                    }
                    assert forall|i: int|
                        0 <= i < self.blocked@.len() && (#[trigger] self.blocked@[i]).task.id@
                            == x implies pre.blocked@.contains(self.blocked@[i]) by {
                        assert(self.blocked@[i] == pre.blocked@[i]);
                    }
                    self.lemma_task_of_agree(pre, x);
                }
            }
            return;
        }
        // collect the distinct declared needs
        let mut remaining: Vec<TaskId> = Vec::new();
        let mut k: usize = 0;
        while k < task.needs.len()
            invariant
                k <= task.needs@.len(),
                id_views(remaining@).no_duplicates(),
                id_views(remaining@).to_set() == id_views(task.needs@).take(k as int).to_set(),
            decreases task.needs@.len() - k,
        {
            let ghost prer = remaining@;
            if !ids_contain(&remaining, &task.needs[k]) {
                remaining.push(task.needs[k].clone());
            }
            k += 1;
            proof {
                broadcast use vstd::seq_lib::group_seq_properties;

                let needs = id_views(task.needs@);
                let e = task.needs@[k - 1]@;
                assert(needs[k - 1] == e);
                assert(needs.take(k as int) =~= needs.take(k - 1).push(e));
                lemma_to_set_push(needs.take(k - 1), e);
                assert(needs.take(k as int).to_set() == needs.take(k - 1).to_set().insert(e));
                if id_views(prer).contains(e) {
                    assert(id_views(prer).to_set().contains(e));
                    assert(id_views(prer).to_set() =~= needs.take(k as int).to_set());
                } else {
                    lemma_id_views_push(prer, task.needs@[k - 1]);
                    lemma_to_set_push(id_views(prer), e);
                    assert(id_views(remaining@).to_set() =~= needs.take(k as int).to_set());
                    lemma_no_dup_push(id_views(prer), e);
                    assert(id_views(remaining@).no_duplicates());
                }
            }
        }
        proof {
            broadcast use vstd::seq_lib::group_seq_properties;

            assert(id_views(task.needs@).take(task.needs@.len() as int) =~= id_views(task.needs@));
            assert(id_views(remaining@).to_set() == needs_set(task));
            assert(remaining@.len() > 0) by {
                assert(id_views(task.needs@)[0] == task.needs@[0]@);
                assert(needs_set(task).contains(task.needs@[0]@));
                assert(id_views(remaining@).to_set().contains(task.needs@[0]@));
                assert(id_views(remaining@).contains(task.needs@[0]@));
            }
        }
        // record the task as a dependent of each of its needs
        let mut r: usize = 0;
        while r < remaining.len()
            invariant
                r <= remaining@.len(),
                self.blocked == pre.blocked,
                self.available == pre.available,
                self.done == pre.done,
                forall|n: Seq<char>, d: Seq<char>| pre.listed(n, d) ==> self.listed(n, d),
                forall|j: int| 0 <= j < r ==> self.listed((#[trigger] remaining@[j])@, task.id@),
            decreases remaining@.len() - r,
        {
            let ghost mid = *self;
            self.register_need(&remaining[r], &task.id);
            r += 1;
            proof {
                assert forall|j: int| 0 <= j < r implies self.listed(
                    (#[trigger] remaining@[j])@,
                    task.id@,
                ) by {
                    if j < r - 1 {
                        assert(mid.listed(remaining@[j]@, task.id@));
                    }
                }
            }
        }
        let ghost mid = *self;
        self.blocked.push(TaskState { remaining_needs: remaining, task });
        proof {
            broadcast use vstd::seq_lib::group_seq_properties;

            let nb = self.blocked@.len() - 1;
            assert(self.blocked@[nb].task == task);
            assert(self.blocked_ids() =~= pre.blocked_ids().push(task.id@));
            // the new entry satisfies the blocked-side invariant
            assert(wf_state(self.blocked@[nb], self.done@)) by {
                assert(id_views(remaining@).to_set() =~= needs_set(task).difference(self.done@))
                    by {
                    assert forall|x: Seq<char>| needs_set(task).contains(x) implies !self
                        .done@.contains(x) by {
                        let w = choose|w: int|
                            0 <= w < id_views(task.needs@).len() && id_views(task.needs@)[w] == x;
                        assert(task.needs@[w]@ == x);
                    }
                }
            }
            assert(self.wf()) by {
                assert(self.blocked_ids().no_duplicates()) by {
                    assert forall|i: int, j: int|
                        0 <= i < self.blocked_ids().len() && 0 <= j < self.blocked_ids().len()
                            && i != j implies self.blocked_ids()[i] != self.blocked_ids()[j] by {
                        if i < nb && j < nb {
                            assert(pre.blocked_ids()[i] == self.blocked_ids()[i]);
                            assert(pre.blocked_ids()[j] == self.blocked_ids()[j]);
                        } else {
                            assert(!pre.has_blocked(task.id@));
                        }
                    }
                }
                assert(self.wf_blocked()) by {
                    assert forall|i: int| 0 <= i < self.blocked@.len() implies wf_state(
                        #[trigger] self.blocked@[i],
                        self.done@,
                    ) by {
                        if i < nb {
                            assert(self.blocked@[i] == pre.blocked@[i]);
                            assert(wf_state(pre.blocked@[i], pre.done@));
                        }
                    }
                }
                assert forall|i: int|
                    0 <= i < self.available@.len() implies {
                    let t = #[trigger] self.available@[i];
                    needs_set(t).subset_of(self.done@) && !self.done@.contains(t.id@)
                } by {
                    assert(self.available@[i] == pre.available@[i]);
                }
                assert forall|i: int|
                    0 <= i < self.available@.len() implies !self.blocked_ids().contains(
                    #[trigger] self.available@[i].id@,
                ) by {
                    assert(self.available@[i] == pre.available@[i]);
                    assert(!pre.blocked_ids().contains(pre.available@[i].id@));
                    assert(!pre.has_avail(task.id@));
                    assert(pre.avail_ids()[i] == pre.available@[i].id@);
                }
                assert(self.wf_rev()) by {
                    assert forall|i: int, rr: int|
                        0 <= i < self.blocked@.len() && 0 <= rr
                            < self.blocked@[i].remaining_needs@.len() implies self.listed(
                        (#[trigger] self.blocked@[i].remaining_needs@[rr])@,
                        self.blocked@[i].task.id@,
                    ) by {
                        assert forall|n: Seq<char>, d: Seq<char>|
                            mid.listed(n, d) implies self.listed(n, d) by {
                            let w = choose|w: int|
                                0 <= w < mid.needed_by@.len() && (#[trigger] mid.needed_by@[w]).need@
                                    == n && id_views(mid.needed_by@[w].dependents@).contains(d);
                            assert(self.needed_by@[w] == mid.needed_by@[w]);
                        }
                        if i < nb {
                            assert(self.blocked@[i] == pre.blocked@[i]);
                            assert(pre.listed(self.blocked@[i].remaining_needs@[rr]@, self
                                .blocked@[i].task.id@));
                        } else {
                            assert(mid.listed(remaining@[rr]@, task.id@));
                        }
                    }
                }
            }
            self.lemma_task_of_blocked(nb);
            assert forall|x: Seq<char>| x != task.id@ implies self.has_blocked(x) == pre
                .has_blocked(x) by {
                if pre.has_blocked(x) {
                    let j = choose|j: int|
                        0 <= j < pre.blocked_ids().len() && pre.blocked_ids()[j] == x;
                    assert(self.blocked_ids()[j] == x);
                } else if self.has_blocked(x) {
                    let j = choose|j: int|
                        0 <= j < self.blocked_ids().len() && self.blocked_ids()[j] == x;
                    assert(j < nb);
                    assert(pre.blocked_ids()[j] == x);
                }
            }
            assert forall|x: Seq<char>| x != task.id@ && pre.has_task(x) implies self.task_of(x)
                == pre.task_of(x) by {
                if pre.has_blocked(x) {
                    pre.lemma_has_blocked_not_avail(x);
                    self.lemma_has_blocked_not_avail(x);
                }
                assert forall|i: int|
                    0 <= i < self.available@.len() && (#[trigger] self.available@[i]).id@
                        == x implies pre.available@.contains(self.available@[i]) by {
                    assert(self.available@[i] == pre.available@[i]);
                }
                assert forall|i: int|
                    0 <= i < self.blocked@.len() && (#[trigger] self.blocked@[i]).task.id@
                        == x implies pre.blocked@.contains(self.blocked@[i]) by {
                    assert(self.blocked@[i].task.id@ != task.id@);
                    assert(i < nb);
                    assert(self.blocked@[i] == pre.blocked@[i]);
                }
                self.lemma_task_of_agree(pre, x);
            }
        }
    }

    /// Find the position of a blocked task by id.
    fn find_blocked_index(&self, id: &TaskId) -> (r: Option<usize>)
        ensures
            match r {
                Some(i) => i < self.blocked@.len() && self.blocked@[i as int].task.id@ == id@,
                None => !self.has_blocked(id@),
            },
    {
        let mut k: usize = 0;
        while k < self.blocked.len()
            invariant
                k <= self.blocked@.len(),
                forall|j: int| 0 <= j < k ==> (#[trigger] self.blocked@[j]).task.id@ != id@,
            decreases self.blocked@.len() - k,
        {
            if self.blocked[k].task.id.0 == id.0 {
                return Some(k);
            }
            k += 1;
        }
        proof {
            if self.has_blocked(id@) {
                let j = choose|j: int|
                    0 <= j < self.blocked_ids().len() && self.blocked_ids()[j] == id@;
                assert(self.blocked@[j].task.id@ == id@);
            }
        }
        None
    }

    /// Mark a task done and unblock the tasks that depended on it: the id is
    /// removed from every dependent's outstanding needs, and a dependent
    /// whose outstanding needs thereby empty moves to the available set.
    ///
    /// Callers mark only tasks they previously popped, each at most once.
    pub fn mark_done(&mut self, id: &TaskId)
        requires
            old(self).wf(),
            !old(self).has_task(id@),
            !old(self).done_set().contains(id@),
        ensures
            final(self).wf(),
            final(self).done_set() == old(self).done_set().insert(id@),
            !final(self).has_task(id@),
            forall|x: Seq<char>|
                final(self).has_blocked(x) <==> (old(self).has_blocked(x) && !old(self).needs_of(
                    x,
                ).subset_of(old(self).done_set().insert(id@))),
            forall|x: Seq<char>|
                final(self).has_avail(x) <==> (old(self).has_avail(x) || (old(self).has_blocked(x)
                    && old(self).needs_of(x).subset_of(old(self).done_set().insert(id@)))),
            forall|x: Seq<char>|
                old(self).has_task(x) ==> final(self).has_task(x) && final(self).task_of(x) == old(
                    self,
                ).task_of(x),
    {
        let ghost pre = *self;
        let ghost done1 = pre.done@.insert(id@);
        self.done = Ghost(done1);
        // gather every dependent recorded against the finished id, dropping
        // the index entries for it
        let mut deps: Vec<TaskId> = Vec::new();
        let mut k: usize = 0;
        while k < self.needed_by.len()
            invariant
                k <= self.needed_by@.len(),
                self.blocked == pre.blocked,
                self.available == pre.available,
                self.done@ == done1,
                forall|j: int| 0 <= j < k ==> (#[trigger] self.needed_by@[j]).need@ != id@,
                forall|n: Seq<char>, d: Seq<char>|
                    pre.listed(n, d) ==> self.listed(n, d) || (n == id@ && id_views(
                        deps@,
                    ).contains(d)),
            decreases self.needed_by@.len() - k,
        {
            if self.needed_by[k].need.0 == id.0 {
                let ghost predeps = deps@;
                let ghost prenb = self.needed_by@;
                let ghost smid = *self;
                let mut e = self.needed_by.remove(k);
                let ghost edeps = e.dependents@;
                deps.append(&mut e.dependents);
                proof {
                    broadcast use vstd::seq_lib::group_seq_properties;

                    lemma_id_views_concat(predeps, edeps);
                    assert(id_views(deps@) == id_views(predeps) + id_views(edeps));
                    let olds = prenb;
                    let news = self.needed_by@;
                    assert forall|i: int| 0 <= i < news.len() implies news[i] == (if i < k {
                        olds[i]
                    } else {
                        olds[i + 1]
                    }) by {
                        if i < k {
                            assert(news[i] == olds[i]);
                        } else {
                            assert(news[i] == olds[i + 1]);
                        }
                    }
                    assert forall|n: Seq<char>, d: Seq<char>| pre.listed(n, d) implies self.listed(
                        n,
                        d,
                    ) || (n == id@ && id_views(deps@).contains(d)) by {
                        if smid.listed(n, d) {
                            let w = choose|w: int|
                                0 <= w < olds.len() && (#[trigger] olds[w]).need@ == n && id_views(
                                    olds[w].dependents@,
                                ).contains(d);
                            if w == k {
                                assert(n == id@);
                                assert(id_views(deps@).contains(d));
                            } else if w < k {
                                assert(news[w] == olds[w]);
                                assert(self.listed(n, d));
                            } else {
                                assert(news[w - 1] == olds[w]);
                                assert(self.listed(n, d));
                            }
                        } else if n == id@ && id_views(predeps).contains(d) {
                            assert(id_views(deps@).contains(d));
                        }
                    }
                }
            } else {
                k += 1;
            }
        }
        let ghost mid = *self;
        proof {
            broadcast use vstd::seq_lib::group_seq_properties;

            assert(id_views(deps@).skip(0) == id_views(deps@));
            // entering the unblock loop: every blocked entry is either
            // untouched by the id or scheduled through deps
            assert forall|i: int| 0 <= i < self.blocked@.len() implies md_entry_ok(
                #[trigger] self.blocked@[i],
                pre,
                id@,
                id_views(deps@).skip(0),
            ) by {
                let s = pre.blocked@[i];
                assert(wf_state(s, pre.done@));
                pre.lemma_task_of_blocked(i);
                assert(pre.blocked_ids()[i] == s.task.id@);
                assert(s.task.id@ != id@);
                if id_views(s.remaining_needs@).to_set().contains(id@) {
                    let r = choose|r: int|
                        0 <= r < id_views(s.remaining_needs@).len() && id_views(
                            s.remaining_needs@,
                        )[r] == id@;
                    assert(s.remaining_needs@[r]@ == id@);
                    assert(pre.listed(id@, s.task.id@));
                    if mid.listed(id@, s.task.id@) {
                        let w = choose|w: int|
                            0 <= w < mid.needed_by@.len() && (#[trigger] mid.needed_by@[w]).need@
                                == id@ && id_views(mid.needed_by@[w].dependents@).contains(
                                s.task.id@,
                            );
                        assert(false);
                    }
                    assert(id_views(deps@).contains(s.task.id@));
                } else {
                    assert(id_views(s.remaining_needs@).to_set() =~= needs_set(s.task).difference(
                        done1,
                    ));
                }
            }
            assert forall|i: int| 0 <= i < self.available@.len() implies md_avail_ok(
                #[trigger] self.available@[i],
                pre,
                id@,
            ) by {
                pre.lemma_task_of_avail(i);
                assert(pre.avail_ids()[i] == pre.available@[i].id@);
            }
        }
        // unblock the dependents whose last outstanding need this was
        let mut d: usize = 0;
        while d < deps.len()
            invariant
                d <= deps@.len(),
                self.done@ == done1,
                self.needed_by == mid.needed_by,
                forall|j: int|
                    0 <= j < self.needed_by@.len() ==> (#[trigger] self.needed_by@[j]).need@
                        != id@,
                forall|i: int|
                    0 <= i < self.blocked@.len() ==> md_entry_ok(
                        #[trigger] self.blocked@[i],
                        pre,
                        id@,
                        id_views(deps@).skip(d as int),
                    ),
                forall|i: int|
                    0 <= i < self.available@.len() ==> md_avail_ok(
                        #[trigger] self.available@[i],
                        pre,
                        id@,
                    ),
                self.avail_ids().no_duplicates(),
                self.blocked_ids().no_duplicates(),
                forall|i: int|
                    0 <= i < self.available@.len() ==> !self.blocked_ids().contains(
                        (#[trigger] self.available@[i]).id@,
                    ),
                forall|x: Seq<char>| pre.has_avail(x) ==> self.has_avail(x),
                forall|x: Seq<char>| pre.has_blocked(x) ==> self.has_blocked(x) || self.has_avail(x),
                forall|i: int, r: int|
                    0 <= i < self.blocked@.len() && 0 <= r
                        < self.blocked@[i].remaining_needs@.len() ==> ((
                    #[trigger] self.blocked@[i].remaining_needs@[r])@ == id@ || self.listed(
                        self.blocked@[i].remaining_needs@[r]@,
                        self.blocked@[i].task.id@,
                    )),
            decreases deps@.len() - d,
        {
            let ghost rest = id_views(deps@).skip(d as int);
            let ghost rest1 = id_views(deps@).skip(d as int + 1);
            proof {
                assert(id_views(deps@)[d as int] == deps@[d as int]@);
                assert(rest[0] == id_views(deps@)[d as int]);
            }
            let bi = self.find_blocked_index(&deps[d]);
            match bi {
                Some(i) => {
                    let ghost preb = *self;
                    let ghost sold = self.blocked@[i as int];
                    let ghost m = self.blocked@.len() as int;
                    let mut st = self.blocked.swap_remove(i);
                    proof {
                        broadcast use vstd::seq_lib::group_seq_properties;

                        assert forall|w: int| 0 <= w < m - 1 implies self.blocked@[w] == (if w
                            == i {
                            preb.blocked@[m - 1]
                        } else {
                            preb.blocked@[w]
                        }) by {}
                        assert forall|w: int, v: int|
                            0 <= w < m - 1 && 0 <= v < m - 1 && w != v implies (
                        #[trigger] self.blocked@[w]).task.id@ != (
                        #[trigger] self.blocked@[v]).task.id@ by {
                            let w0: int = if w == i {
                                m - 1
                            } else {
                                w
                            };
                            let v0: int = if v == i {
                                m - 1
                            } else {
                                v
                            };
                            assert(preb.blocked_ids()[w0] == preb.blocked@[w0].task.id@);
                            assert(preb.blocked_ids()[v0] == preb.blocked@[v0].task.id@);
                        }
                    }
                    remove_id(&mut st.remaining_needs, id);
                    let ghost newset = id_views(st.remaining_needs@).to_set();
                    proof {
                        broadcast use vstd::seq_lib::group_seq_properties;

                        // after the removal the entry agrees with the grown done set
                        assert(newset =~= needs_set(sold.task).difference(done1)) by {
                            let oldset = id_views(sold.remaining_needs@).to_set();
                            if oldset == needs_set(sold.task).difference(done1) {
                                assert(!oldset.contains(id@));
                                assert(newset =~= oldset);
                            } else {
                                assert(oldset == needs_set(sold.task).difference(pre.done@));
                                assert(newset =~= oldset.remove(id@));
                            }
                        }
                    }
                    proof {
                        broadcast use vstd::seq_lib::group_seq_properties;

                        assert(sold.task.id@ == id_views(deps@)[d as int]);
                        assert forall|r: int|
                            0 <= r < st.remaining_needs@.len() implies id_views(
                            sold.remaining_needs@,
                        ).contains((#[trigger] st.remaining_needs@[r])@) by {
                            assert(id_views(st.remaining_needs@)[r] == st.remaining_needs@[r]@);
                            assert(newset.contains(st.remaining_needs@[r]@));
                            if !(id_views(sold.remaining_needs@).to_set() == needs_set(
                                sold.task,
                            ).difference(done1)) {
                                assert(newset == id_views(sold.remaining_needs@).to_set().remove(
                                    id@,
                                ));
                            }
                        }
                    }
                    if st.remaining_needs.len() == 0 {
                        self.available.push(st.task);
                    } else {
                        self.blocked.push(st);
                    }
                    proof {
                        self.lemma_md_step(preb, pre, st, i as int, id@, id_views(deps@), d as int);
                    }
                },
                None => {
                    proof {
                        broadcast use vstd::seq_lib::group_seq_properties;

                        assert forall|w: int| 0 <= w < self.blocked@.len() implies md_entry_ok(
                            #[trigger] self.blocked@[w],
                            pre,
                            id@,
                            rest1,
                        ) by {
                            let s = self.blocked@[w];
                            assert(md_entry_ok(s, pre, id@, rest));
                            if !(id_views(s.remaining_needs@).to_set() == needs_set(
                                s.task,
                            ).difference(done1)) {
                                assert(self.blocked_ids()[w] == s.task.id@);
                                assert(s.task.id@ != deps@[d as int]@);
                                lemma_skip_shift(id_views(deps@), d as int, s.task.id@);
                            }
                        }
                    }
                },
            }
            d += 1;
        }
        proof {
            broadcast use vstd::seq_lib::group_seq_properties;

            assert(id_views(deps@).skip(deps@.len() as int).len() == 0);
            // no entry can still be waiting on the id
            assert forall|i: int| 0 <= i < self.blocked@.len() implies wf_state(
                #[trigger] self.blocked@[i],
                done1,
            ) by {
                let s = self.blocked@[i];
                assert(md_entry_ok(s, pre, id@, id_views(deps@).skip(deps@.len() as int)));
            }
            assert(self.wf()) by {
                assert(self.wf_rev()) by {
                    assert forall|i: int, r: int|
                        0 <= i < self.blocked@.len() && 0 <= r
                            < self.blocked@[i].remaining_needs@.len() implies self.listed(
                        (#[trigger] self.blocked@[i].remaining_needs@[r])@,
                        self.blocked@[i].task.id@,
                    ) by {
                        let s = self.blocked@[i];
                        assert(wf_state(s, done1));
                        assert(id_views(s.remaining_needs@)[r] == s.remaining_needs@[r]@);
                        assert(id_views(s.remaining_needs@).to_set().contains(
                            s.remaining_needs@[r]@,
                        ));
                        assert(s.remaining_needs@[r]@ != id@);
                    }
                }
            }
            assert(!self.has_task(id@)) by {
                if self.has_avail(id@) {
                    let w = choose|w: int|
                        0 <= w < self.avail_ids().len() && self.avail_ids()[w] == id@;
                    assert(md_avail_ok(self.available@[w], pre, id@));
                }
                if self.has_blocked(id@) {
                    let w = choose|w: int|
                        0 <= w < self.blocked_ids().len() && self.blocked_ids()[w] == id@;
                    assert(wf_state(self.blocked@[w], done1));
                }
            }
            // which tasks stand where, id by id
            assert forall|x: Seq<char>|
                self.has_blocked(x) implies (pre.has_blocked(x) && !pre.needs_of(x).subset_of(
                done1,
            )) by {
                let w = choose|w: int|
                    0 <= w < self.blocked_ids().len() && self.blocked_ids()[w] == x;
                let s = self.blocked@[w];
                assert(md_entry_ok(s, pre, id@, id_views(deps@).skip(deps@.len() as int)));
                assert(s.task.id@ == x);
                assert(wf_state(s, done1));
                assert(id_views(s.remaining_needs@)[0] == s.remaining_needs@[0]@);
                assert(id_views(s.remaining_needs@).to_set().contains(s.remaining_needs@[0]@));
                assert(!needs_set(s.task).subset_of(done1));
            }
            assert forall|x: Seq<char>|
                self.has_avail(x) implies (pre.has_avail(x) || (pre.has_blocked(x)
                    && pre.needs_of(x).subset_of(done1))) by {
                let w = choose|w: int|
                    0 <= w < self.avail_ids().len() && self.avail_ids()[w] == x;
                let e = self.available@[w];
                assert(md_avail_ok(e, pre, id@));
                if !pre.has_avail(x) {
                    pre.lemma_has_blocked_not_avail(x);
                }
            }
            assert forall|x: Seq<char>|
                (pre.has_blocked(x) && pre.needs_of(x).subset_of(done1)) implies !self.has_blocked(
                x,
            ) by {
                if self.has_blocked(x) {
                    let w = choose|w: int|
                        0 <= w < self.blocked_ids().len() && self.blocked_ids()[w] == x;
                    let s = self.blocked@[w];
                    assert(wf_state(s, done1));
                    assert(md_entry_ok(s, pre, id@, id_views(deps@).skip(deps@.len() as int)));
                    assert(id_views(s.remaining_needs@)[0] == s.remaining_needs@[0]@);
                    assert(id_views(s.remaining_needs@).to_set().contains(s.remaining_needs@[0]@));
                }
            }
            assert forall|x: Seq<char>|
                pre.has_blocked(x) && !pre.needs_of(x).subset_of(done1) implies self.has_blocked(
                x,
            ) by {
                if self.has_avail(x) {
                    let w = choose|w: int|
                        0 <= w < self.avail_ids().len() && self.avail_ids()[w] == x;
                    let e = self.available@[w];
                    assert(md_avail_ok(e, pre, id@));
                    pre.lemma_has_blocked_not_avail(x);
                    assert(e == pre.task_of(x));
                    assert(needs_set(e).subset_of(done1));
                }
            }
            assert forall|x: Seq<char>| pre.has_avail(x) implies self.has_avail(x) by {}
            assert forall|x: Seq<char>|
                pre.has_task(x) implies self.has_task(x) && self.task_of(x) == pre.task_of(x) by {
                if self.has_avail(x) {
                    let w = choose|w: int|
                        0 <= w < self.avail_ids().len() && self.avail_ids()[w] == x;
                    self.lemma_task_of_avail(w);
                    assert(md_avail_ok(self.available@[w], pre, id@));
                } else {
                    assert(self.has_blocked(x));
                    let w = choose|w: int|
                        0 <= w < self.blocked_ids().len() && self.blocked_ids()[w] == x;
                    self.lemma_task_of_blocked(w);
                    assert(md_entry_ok(
                        self.blocked@[w],
                        pre,
                        id@,
                        id_views(deps@).skip(deps@.len() as int),
                    ));
                }
            }
        }
    }

    /// One step of the unblock loop of `mark_done`: after the dependent at
    /// position `d` of the gathered dependent list has been looked up, freed
    /// of the marked id and moved to the fitting list, every loop invariant
    /// holds again for the next suffix of the dependent list.
    proof fn lemma_md_step(
        self,
        preb: Self,
        pre: Self,
        st: TaskState<P>,
        i: int,
        idv: Seq<char>,
        depviews: Seq<Seq<char>>,
        d: int,
    )
        requires
            0 <= d < depviews.len(),
            0 <= i < preb.blocked@.len(),
            preb.blocked@[i].task.id@ == depviews[d],
            forall|w: int|
                0 <= w < preb.blocked@.len() ==> md_entry_ok(
                    #[trigger] preb.blocked@[w],
                    pre,
                    idv,
                    depviews.skip(d),
                ),
            forall|w: int|
                0 <= w < preb.available@.len() ==> md_avail_ok(
                    #[trigger] preb.available@[w],
                    pre,
                    idv,
                ),
            preb.avail_ids().no_duplicates(),
            preb.blocked_ids().no_duplicates(),
            forall|w: int|
                0 <= w < preb.available@.len() ==> !preb.blocked_ids().contains(
                    (#[trigger] preb.available@[w]).id@,
                ),
            forall|x: Seq<char>| pre.has_avail(x) ==> preb.has_avail(x),
            forall|x: Seq<char>| pre.has_blocked(x) ==> preb.has_blocked(x) || preb.has_avail(x),
            forall|w: int, r: int|
                0 <= w < preb.blocked@.len() && 0 <= r
                    < preb.blocked@[w].remaining_needs@.len() ==> ((
                #[trigger] preb.blocked@[w].remaining_needs@[r])@ == idv || preb.listed(
                    preb.blocked@[w].remaining_needs@[r]@,
                    preb.blocked@[w].task.id@,
                )),
            st.task == preb.blocked@[i].task,
            id_views(st.remaining_needs@).no_duplicates(),
            id_views(st.remaining_needs@).to_set() == needs_set(st.task).difference(
                pre.done_set().insert(idv),
            ),
            forall|r: int|
                0 <= r < st.remaining_needs@.len() ==> id_views(
                    preb.blocked@[i].remaining_needs@,
                ).contains((#[trigger] st.remaining_needs@[r])@),
            self.needed_by@ == preb.needed_by@,
            st.remaining_needs@.len() == 0 ==> self.blocked@ == preb.blocked@.update(
                i,
                preb.blocked@[preb.blocked@.len() - 1],
            ).drop_last() && self.available@ == preb.available@.push(st.task),
            st.remaining_needs@.len() > 0 ==> self.blocked@ == preb.blocked@.update(
                i,
                preb.blocked@[preb.blocked@.len() - 1],
            ).drop_last().push(st) && self.available@ == preb.available@,
        ensures
            forall|w: int|
                0 <= w < self.blocked@.len() ==> md_entry_ok(
                    #[trigger] self.blocked@[w],
                    pre,
                    idv,
                    depviews.skip(d + 1),
                ),
            forall|w: int|
                0 <= w < self.available@.len() ==> md_avail_ok(
                    #[trigger] self.available@[w],
                    pre,
                    idv,
                ),
            self.avail_ids().no_duplicates(),
            self.blocked_ids().no_duplicates(),
            forall|w: int|
                0 <= w < self.available@.len() ==> !self.blocked_ids().contains(
                    (#[trigger] self.available@[w]).id@,
                ),
            forall|x: Seq<char>| pre.has_avail(x) ==> self.has_avail(x),
            forall|x: Seq<char>| pre.has_blocked(x) ==> self.has_blocked(x) || self.has_avail(x),
            forall|w: int, r: int|
                0 <= w < self.blocked@.len() && 0 <= r
                    < self.blocked@[w].remaining_needs@.len() ==> ((
                #[trigger] self.blocked@[w].remaining_needs@[r])@ == idv || self.listed(
                    self.blocked@[w].remaining_needs@[r]@,
                    self.blocked@[w].task.id@,
                )),
    {
        broadcast use vstd::seq_lib::group_seq_properties;

        let done1 = pre.done_set().insert(idv);
        let m = preb.blocked@.len() as int;
        let sold = preb.blocked@[i];
        let b1 = preb.blocked@.update(i, preb.blocked@[m - 1]).drop_last();
        assert(md_entry_ok(sold, pre, idv, depviews.skip(d)));
        assert forall|w: int| 0 <= w < m - 1 implies b1[w] == (if w == i {
            preb.blocked@[m - 1]
        } else {
            preb.blocked@[w]
        }) by {}
        assert forall|n: Seq<char>, dd: Seq<char>| preb.listed(n, dd) implies self.listed(
            n,
            dd,
        ) by {
            let w = choose|w: int|
                0 <= w < preb.needed_by@.len() && (#[trigger] preb.needed_by@[w]).need@ == n
                    && id_views(preb.needed_by@[w].dependents@).contains(dd);
            assert(self.needed_by@[w] == preb.needed_by@[w]);
        }
        // every surviving old entry sits at a mapped position and keeps its id
        assert forall|w: int| 0 <= w < m - 1 implies (#[trigger] b1[w]).task.id@ != sold.task.id@
            && md_entry_ok(b1[w], pre, idv, depviews.skip(d)) by {
            let w0: int = if w == i {
                m - 1
            } else {
                w
            };
            assert(b1[w] == preb.blocked@[w0]);
            assert(preb.blocked_ids()[w0] == preb.blocked@[w0].task.id@);
            assert(preb.blocked_ids()[i] == sold.task.id@);
            if w0 != i {
                assert(preb.blocked_ids()[w0] != preb.blocked_ids()[i]);
            }
        }
        assert forall|w: int| 0 <= w < m - 1 implies md_entry_ok(
            #[trigger] b1[w],
            pre,
            idv,
            depviews.skip(d + 1),
        ) by {
            let s = b1[w];
            if !(id_views(s.remaining_needs@).to_set() == needs_set(s.task).difference(done1)) {
                assert(depviews.skip(d).contains(s.task.id@));
                assert(s.task.id@ != depviews[d]);
                lemma_skip_shift(depviews, d, s.task.id@);
            }
        }
        assert forall|w: int, v: int|
            0 <= w < m - 1 && 0 <= v < m - 1 && w != v implies (#[trigger] b1[w]).task.id@ != (
        #[trigger] b1[v]).task.id@ by {
            let w0: int = if w == i {
                m - 1
            } else {
                w
            };
            let v0: int = if v == i {
                m - 1
            } else {
                v
            };
            assert(b1[w] == preb.blocked@[w0]);
            assert(b1[v] == preb.blocked@[v0]);
            assert(preb.blocked_ids()[w0] == preb.blocked@[w0].task.id@);
            assert(preb.blocked_ids()[v0] == preb.blocked@[v0].task.id@);
        }
        // old blocked entries other than the processed one survive
        assert forall|x: Seq<char>|
            preb.has_blocked(x) && x != sold.task.id@ implies self.has_blocked(x) by {
            let w = choose|w: int|
                0 <= w < preb.blocked_ids().len() && preb.blocked_ids()[w] == x;
            assert(preb.blocked@[w].task.id@ == x);
            assert(w != i);
            let w1: int = if w == m - 1 {
                i
            } else {
                w
            };
            assert(w1 < m - 1);
            assert(b1[w1] == preb.blocked@[w]);
            assert(self.blocked@[w1] == b1[w1]);
            assert(self.blocked_ids()[w1] == x);
        }
        // the reverse index reaches each survivor's outstanding needs
        assert forall|w: int, r: int|
            0 <= w < m - 1 && 0 <= r < b1[w].remaining_needs@.len() implies ((
        #[trigger] b1[w].remaining_needs@[r])@ == idv || self.listed(
            b1[w].remaining_needs@[r]@,
            b1[w].task.id@,
        )) by {
            let w0: int = if w == i {
                m - 1
            } else {
                w
            };
            assert(b1[w] == preb.blocked@[w0]);
            assert(preb.blocked@[w0].remaining_needs@[r] == b1[w].remaining_needs@[r]);
        }
        if st.remaining_needs@.len() == 0 {
            assert(self.blocked@ == b1);
            assert(needs_set(st.task).subset_of(done1)) by {
                assert forall|x: Seq<char>| needs_set(st.task).contains(x) implies done1.contains(
                    x,
                ) by {
                    if !done1.contains(x) {
                        assert(needs_set(st.task).difference(done1).contains(x));
                        assert(id_views(st.remaining_needs@).to_set().contains(x));
                        let r = choose|r: int|
                            0 <= r < id_views(st.remaining_needs@).len() && id_views(
                                st.remaining_needs@,
                            )[r] == x;
                    }
                }
            }
            assert(md_avail_ok(st.task, pre, idv));
            assert forall|w: int| 0 <= w < self.available@.len() implies md_avail_ok(
                #[trigger] self.available@[w],
                pre,
                idv,
            ) by {
                if w < self.available@.len() - 1 {
                    assert(self.available@[w] == preb.available@[w]);
                } else {
                    assert(self.available@[w] == st.task);
                }
            }
            assert(self.avail_ids() =~= preb.avail_ids().push(st.task.id@));
            assert(!preb.avail_ids().contains(st.task.id@)) by {
                if preb.avail_ids().contains(st.task.id@) {
                    let w = choose|w: int|
                        0 <= w < preb.avail_ids().len() && preb.avail_ids()[w] == st.task.id@;
                    assert(preb.available@[w].id@ == st.task.id@);
                    assert(preb.blocked_ids()[i] == sold.task.id@);
                    assert(!preb.blocked_ids().contains(preb.available@[w].id@));
                }
            }
            lemma_no_dup_push(preb.avail_ids(), st.task.id@);
            assert(self.avail_ids().no_duplicates());
            assert(self.blocked_ids().no_duplicates()) by {
                assert(forall|w: int|
                    0 <= w < self.blocked_ids().len() ==> self.blocked_ids()[w] == (
                    #[trigger] self.blocked@[w]).task.id@);
            }
            assert forall|w: int|
                0 <= w < self.available@.len() implies !self.blocked_ids().contains(
                (#[trigger] self.available@[w]).id@,
            ) by {
                if self.blocked_ids().contains(self.available@[w].id@) {
                    let v = choose|v: int|
                        0 <= v < self.blocked_ids().len() && self.blocked_ids()[v]
                            == self.available@[w].id@;
                    assert(self.blocked@[v] == b1[v]);
                    assert(b1[v].task.id@ != sold.task.id@);
                    let v0: int = if v == i {
                        m - 1
                    } else {
                        v
                    };
                    assert(b1[v] == preb.blocked@[v0]);
                    assert(preb.blocked_ids()[v0] == preb.blocked@[v0].task.id@);
                    if w < self.available@.len() - 1 {
                        assert(self.available@[w] == preb.available@[w]);
                        assert(!preb.blocked_ids().contains(preb.available@[w].id@));
                    }
                }
            }
            assert forall|x: Seq<char>| pre.has_avail(x) implies self.has_avail(x) by {
                if preb.has_avail(x) {
                    let w = choose|w: int|
                        0 <= w < preb.avail_ids().len() && preb.avail_ids()[w] == x;
                    assert(self.available@[w] == preb.available@[w]);
                    assert(self.avail_ids()[w] == x);
                }
            }
            assert forall|x: Seq<char>| pre.has_blocked(x) implies self.has_blocked(x)
                || self.has_avail(x) by {
                if preb.has_avail(x) {
                    let w = choose|w: int|
                        0 <= w < preb.avail_ids().len() && preb.avail_ids()[w] == x;
                    assert(self.available@[w] == preb.available@[w]);
                    assert(self.avail_ids()[w] == x);
                } else if preb.has_blocked(x) {
                    if x == sold.task.id@ {
                        let na = self.available@.len() - 1;
                        assert(self.available@[na] == st.task);
                        assert(self.avail_ids()[na] == x);
                    }
                }
            }
        } else {
            assert(self.blocked@ == b1.push(st));
            assert(self.available@ == preb.available@);
            let nb = self.blocked@.len() - 1;
            assert(self.blocked@[nb] == st);
            assert(md_entry_ok(st, pre, idv, depviews.skip(d + 1)));
            assert forall|w: int| 0 <= w < self.blocked@.len() implies md_entry_ok(
                #[trigger] self.blocked@[w],
                pre,
                idv,
                depviews.skip(d + 1),
            ) by {
                if w < nb {
                    assert(self.blocked@[w] == b1[w]);
                }
            }
            assert forall|w: int| 0 <= w < self.available@.len() implies md_avail_ok(
                #[trigger] self.available@[w],
                pre,
                idv,
            ) by {
                assert(self.available@[w] == preb.available@[w]);
            }
            assert(self.avail_ids() == preb.avail_ids()) by {
                assert(self.avail_ids() =~= preb.avail_ids());
            }
            assert(self.blocked_ids().no_duplicates()) by {
                assert(forall|w: int|
                    0 <= w < self.blocked_ids().len() ==> self.blocked_ids()[w] == (
                    #[trigger] self.blocked@[w]).task.id@);
                assert forall|w: int, v: int|
                    0 <= w < self.blocked@.len() && 0 <= v < self.blocked@.len() && w
                        != v implies (#[trigger] self.blocked@[w]).task.id@ != (
                #[trigger] self.blocked@[v]).task.id@ by {
                    if w < nb && v < nb {
                        assert(self.blocked@[w] == b1[w]);
                        assert(self.blocked@[v] == b1[v]);
                    } else {
                        let u: int = if w < nb {
                            w
                        } else {
                            v
                        };
                        assert(self.blocked@[u] == b1[u]);
                        assert(b1[u].task.id@ != sold.task.id@);
                    }
                }
            }
            assert forall|w: int|
                0 <= w < self.available@.len() implies !self.blocked_ids().contains(
                (#[trigger] self.available@[w]).id@,
            ) by {
                if self.blocked_ids().contains(self.available@[w].id@) {
                    let v = choose|v: int|
                        0 <= v < self.blocked_ids().len() && self.blocked_ids()[v]
                            == self.available@[w].id@;
                    assert(preb.available@[w] == self.available@[w]);
                    assert(!preb.blocked_ids().contains(preb.available@[w].id@));
                    if v < nb {
                        assert(self.blocked@[v] == b1[v]);
                        let v0: int = if v == i {
                            m - 1
                        } else {
                            v
                        };
                        assert(b1[v] == preb.blocked@[v0]);
                        assert(preb.blocked_ids()[v0] == preb.blocked@[v0].task.id@);
                    } else {
                        assert(self.blocked@[v] == st);
                        assert(preb.blocked_ids()[i] == sold.task.id@);
                    }
                }
            }
            assert forall|x: Seq<char>| pre.has_avail(x) implies self.has_avail(x) by {
                if preb.has_avail(x) {
                    let w = choose|w: int|
                        0 <= w < preb.avail_ids().len() && preb.avail_ids()[w] == x;
                    assert(self.avail_ids()[w] == x);
                }
            }
            assert forall|x: Seq<char>| pre.has_blocked(x) implies self.has_blocked(x)
                || self.has_avail(x) by {
                if preb.has_avail(x) {
                    let w = choose|w: int|
                        0 <= w < preb.avail_ids().len() && preb.avail_ids()[w] == x;
                    assert(self.avail_ids()[w] == x);
                } else if preb.has_blocked(x) {
                    if x == sold.task.id@ {
                        assert(self.blocked_ids()[nb] == x);
                    }
                }
            }
            // the re-added entry's outstanding needs are still indexed
            assert forall|w: int, r: int|
                0 <= w < self.blocked@.len() && 0 <= r
                    < self.blocked@[w].remaining_needs@.len() implies ((
            #[trigger] self.blocked@[w].remaining_needs@[r])@ == idv || self.listed(
                self.blocked@[w].remaining_needs@[r]@,
                self.blocked@[w].task.id@,
            )) by {
                if w < nb {
                    assert(self.blocked@[w] == b1[w]);
                } else {
                    let n = st.remaining_needs@[r]@;
                    if n != idv {
                        assert(id_views(sold.remaining_needs@).contains(n));
                        let r0 = choose|r0: int|
                            0 <= r0 < id_views(sold.remaining_needs@).len() && id_views(
                                sold.remaining_needs@,
                            )[r0] == n;
                        assert(sold.remaining_needs@[r0]@ == n);
                        assert(preb.blocked@[i].remaining_needs@[r0]@ == n);
                        assert(preb.listed(n, sold.task.id@));
                        assert(self.blocked@[w].task.id@ == sold.task.id@);
                    }
                }
            }
        }
    }

    /// Stop processing: consume the queue and hand back every still-blocked
    /// task (the tasks that will never become ready).
    #[verifier::loop_isolation(false)]
    pub fn give_up(self) -> (r: Vec<Task<P>>)
        requires
            self.wf(),
        ensures
            r@.len() == self.blocked_len(),
            task_ids(r@).no_duplicates(),
            forall|i: int|
                0 <= i < r@.len() ==> self.has_blocked((#[trigger] r@[i]).id@) && r@[i]
                    == self.task_of(r@[i].id@),
            forall|x: Seq<char>| self.has_blocked(x) ==> task_ids(r@).contains(x),
    {
        let ghost q0 = self;
        let ghost n0 = self.blocked@.len() as int;
        let mut q = self;
        let mut out: Vec<Task<P>> = Vec::new();
        loop
            invariant
                q0.wf(),
                n0 == q0.blocked@.len(),
                q.blocked@ == q0.blocked@.take(q.blocked@.len() as int),
                out@.len() + q.blocked@.len() == n0,
                forall|i: int| 0 <= i < out@.len() ==> out@[i] == q0.blocked@[n0 - 1 - i].task,
            decreases q.blocked@.len(),
        {
            let ghost qpre = q;
            let popped = q.blocked.pop();
            match popped {
                None => {
                    proof {
                        broadcast use vstd::seq_lib::group_seq_properties;

                        assert(out@.len() == n0);
                        assert forall|i: int|
                            0 <= i < out@.len() implies q0.has_blocked((#[trigger] out@[i]).id@)
                            && out@[i] == q0.task_of(out@[i].id@) by {
                            q0.lemma_task_of_blocked(n0 - 1 - i);
                        }
                        assert forall|x: Seq<char>| q0.has_blocked(x) implies task_ids(
                            out@,
                        ).contains(x) by {
                            let j = choose|j: int|
                                0 <= j < q0.blocked_ids().len() && q0.blocked_ids()[j] == x;
                            assert(q0.blocked@[j].task.id@ == x);
                            assert(out@[n0 - 1 - j] == q0.blocked@[j].task);
                            assert(task_ids(out@)[n0 - 1 - j] == x);
                        }
                        assert(task_ids(out@).no_duplicates()) by {
                            assert forall|i: int, j: int|
                                0 <= i < j < task_ids(out@).len() implies task_ids(out@)[i]
                                != task_ids(out@)[j] by {
                                assert(task_ids(out@)[i] == q0.blocked@[n0 - 1 - i].task.id@);
                                assert(task_ids(out@)[j] == q0.blocked@[n0 - 1 - j].task.id@);
                                assert(q0.blocked_ids()[n0 - 1 - i] == q0.blocked@[n0 - 1
                                    - i].task.id@);
                                assert(q0.blocked_ids()[n0 - 1 - j] == q0.blocked@[n0 - 1
                                    - j].task.id@);
                            }
                        }
                    }
                    return out;
                },
                Some(st) => {
                    proof {
                        let m = qpre.blocked@.len() as int;
                        assert(qpre.blocked@[m - 1] == q0.blocked@[m - 1]);
                        assert(st == q0.blocked@[m - 1]);
                        assert(q.blocked@ =~= q0.blocked@.take(q.blocked@.len() as int));
                    }
                    out.push(st.task);
                },
            }
        }
    }
}


} // verus!
