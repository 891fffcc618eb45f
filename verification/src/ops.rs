//! The store's mutation and query operations, their exact transition
//! specifications, and the laws that relate successive operations.
//!
//! Every operation takes the caller's single clock reading `now` as an
//! argument, so one call can never straddle a day boundary. Persistence is
//! the caller's step: an operation mutates the in-memory store only.

use vstd::prelude::*;
use crate::codec::label_encodable;
use crate::ds::{day_of, first_idx, has_id, lemma_first_idx, Store, StoreV, Task, TaskV};

verus! {

/// Why a store operation was refused. The store is left unchanged whenever
/// one of these is returned.
#[derive(Clone, Copy, Debug, PartialEq, Eq, Structural)]
pub enum StoreError {
    /// No task carries the given identifier.
    NotFound,
    /// The task is already done, so it cannot be checked again or relabeled.
    AlreadyDone,
    /// The task is not done, so it cannot be unchecked.
    NotDoneYet,
    /// The task was not created on the caller's current day, so it cannot
    /// be removed or unchecked.
    NotCreatedToday,
}

/// The record that a successful `add_task` appends.
pub open spec fn new_task_v(id: u32, label: Seq<char>, now: i64) -> TaskV {
    TaskV { id: id, done: false, label: label, date_created: now, date_checked: None }
}

/// The store after a successful `add_task`.
pub open spec fn add_task_spec(s: StoreV, label: Seq<char>, now: i64) -> StoreV
    recommends
        s.last_task_id < u32::MAX,
{
    StoreV {
        last_task_id: (s.last_task_id + 1) as u32,
        tasks: s.tasks.push(new_task_v(s.last_task_id, label, now)),
    }
}

/// The store and result of a `remove_task` call: removal succeeds exactly
/// when the task exists and was created on the caller's current day, and
/// the last task takes the removed task's slot.
pub open spec fn remove_task_spec(s: StoreV, id: u32, now: i64) -> (StoreV, Result<
    (),
    StoreError,
>) {
    let fi = first_idx(s.tasks, id);
    if !has_id(s.tasks, id) {
        (s, Err(StoreError::NotFound))
    } else if day_of(s.tasks[fi].date_created) == day_of(now) {
        (
            StoreV { tasks: s.tasks.update(fi, s.tasks.last()).drop_last(), ..s },
            Ok(()),
        )
    } else {
        (s, Err(StoreError::NotCreatedToday))
    }
}

/// The store and result of a `relabel_task` call: relabeling succeeds
/// exactly when the task exists and is not done.
pub open spec fn relabel_task_spec(s: StoreV, id: u32, label: Seq<char>) -> (StoreV, Result<
    (),
    StoreError,
>) {
    let fi = first_idx(s.tasks, id);
    if !has_id(s.tasks, id) {
        (s, Err(StoreError::NotFound))
    } else if s.tasks[fi].done {
        (s, Err(StoreError::AlreadyDone))
    } else {
        (
            StoreV { tasks: s.tasks.update(fi, TaskV { label: label, ..s.tasks[fi] }), ..s },
            Ok(()),
        )
    }
}

/// The store and result of a `toggle_check_task` call. Checking is allowed
/// on any day; unchecking only on the task's creation day; both are refused
/// when the task is already in the requested state.
pub open spec fn toggle_check_spec(s: StoreV, id: u32, check: bool, now: i64) -> (StoreV, Result<
    (),
    StoreError,
>) {
    let fi = first_idx(s.tasks, id);
    if !has_id(s.tasks, id) {
        (s, Err(StoreError::NotFound))
    } else {
        let t = s.tasks[fi];
        if t.done == check {
            (
                s,
                Err(
                    if check {
                        StoreError::AlreadyDone
                    } else {
                        StoreError::NotDoneYet
                    },
                ),
            )
        } else if check {
            (
                StoreV {
                    tasks: s.tasks.update(fi, TaskV { done: true, date_checked: Some(now), ..t }),
                    ..s
                },
                Ok(()),
            )
        } else if day_of(t.date_created) == day_of(now) {
            (
                StoreV {
                    tasks: s.tasks.update(fi, TaskV { done: false, date_checked: None, ..t }),
                    ..s
                },
                Ok(()),
            )
        } else {
            (s, Err(StoreError::NotCreatedToday))
        }
    }
}

impl Store {
    /// The index of the first task with identifier `id`, if any.
    fn find_index(&self, id: u32) -> (r: Option<usize>)
        ensures
            match r {
                Some(i) => has_id(self@.tasks, id) && i < self@.tasks.len() && i as int
                    == first_idx(self@.tasks, id),
                None => !has_id(self@.tasks, id),
            },
    {
        let ghost ts = self@.tasks;
        let mut i: usize = 0;
        while i < self.tasks.len()
            invariant
                i <= self.tasks.len(),
                ts == self@.tasks,
                ts.len() == self.tasks.len(),
                forall|j: int| 0 <= j < i ==> (#[trigger] ts[j]).id != id,
            decreases self.tasks.len() - i,
        {
            if self.tasks[i].id == id {
                proof {
                    assert(ts[i as int].id == id);
                    assert(has_id(ts, id));
                    lemma_first_idx(ts, id);
                    let fi = first_idx(ts, id);
                    if fi < i {
                        assert(ts[fi].id != id);
                    }
                    if fi > i {
                        assert(ts[i as int].id != id);
                    }
                }
                return Some(i);
            }
            i = i + 1;
        }
        proof {
            if has_id(ts, id) {
                let w = choose|k: int| 0 <= k < ts.len() && (#[trigger] ts[k]).id == id;
                assert(ts[w].id != id);
            }
        }
        None
    }

    /// Looks a task up by identifier: the first task with that identifier,
    /// or nothing when the identifier is unknown.
    pub fn find_task(&self, id: u32) -> (r: Option<&Task>)
        ensures
            match r {
                Some(t) => has_id(self@.tasks, id) && t@ == self@.tasks[first_idx(
                    self@.tasks,
                    id,
                )],
                None => !has_id(self@.tasks, id),
            },
    {
        match self.find_index(id) {
            Some(i) => {
                proof {
                    assert(self@.tasks.len() == self.tasks@.len());
                }
                Some(&self.tasks[i])
            },
            None => None,
        }
    }

    /// Appends a new task: it takes the next identifier, the caller's
    /// current time as its creation time, and starts not done. Returns the
    /// assigned identifier and advances the identifier counter, so no
    /// identifier is ever assigned twice. The caller persists the store.
    pub fn add_task(&mut self, label: String, now: i64) -> (id: u32)
        requires
            old(self)@.last_task_id < u32::MAX,
            label_encodable(label@),
        ensures
            id == old(self)@.last_task_id,
            final(self)@ == add_task_spec(old(self)@, label@, now),
            old(self)@.wf() ==> final(self)@.wf(),
    {
        let ghost lbl = label@;
        let id = self.metadata.last_task_id;
        let task = Task { id: id, done: false, label: label, date_created: now, date_checked: None };
        self.tasks.push(task);
        self.metadata.last_task_id = self.metadata.last_task_id + 1;
        proof {
            assert(self@.tasks =~= old(self)@.tasks.push(new_task_v(id, lbl, now)));
            assert(self@ =~= add_task_spec(old(self)@, lbl, now));
            if old(self)@.wf() {
                let ts = self@.tasks;
                assert forall|i: int| 0 <= i < ts.len() implies (#[trigger] ts[i]).wf() by {
                    if i < ts.len() - 1 {
                        assert(ts[i] == old(self)@.tasks[i]);
                    }
                }
            }
        }
        id
    }

    /// Removes the task with identifier `id`, allowed only on the day the
    /// task was created; the last task takes its slot, so store order is
    /// not preserved. On any failure the store is unchanged. The caller
    /// persists the store.
    pub fn remove_task(&mut self, id: u32, now: i64) -> (r: Result<(), StoreError>)
        ensures
            final(self)@ == remove_task_spec(old(self)@, id, now).0,
            r == remove_task_spec(old(self)@, id, now).1,
            r is Ok <==> has_id(old(self)@.tasks, id) && day_of(
                old(self)@.tasks[first_idx(old(self)@.tasks, id)].date_created,
            ) == day_of(now),
            r is Err ==> final(self)@ == old(self)@,
            old(self)@.wf() ==> final(self)@.wf(),
    {
        let ghost s = self@;
        match self.find_index(id) {
            None => Err(StoreError::NotFound),
            Some(i) => {
                proof {
                    lemma_first_idx(s.tasks, id);
                }
                if crate::ds::same_day(self.tasks[i].date_created, now) {
                    self.tasks.swap_remove(i);
                    proof {
                        assert(self@ =~= remove_task_spec(s, id, now).0);
                        if s.wf() {
                            let ts = self@.tasks;
                            assert forall|k: int| 0 <= k < ts.len() implies (
                            #[trigger] ts[k]).wf() by {
                                assert(ts[k] == s.tasks.update(i as int, s.tasks.last())[k]);
                            }
                        }
                    }
                    Ok(())
                } else {
                    Err(StoreError::NotCreatedToday)
                }
            },
        }
    }

    /// Replaces the label of the task with identifier `id`, refused when
    /// the task is done or unknown. On any failure the store is unchanged.
    /// The caller persists the store.
    pub fn relabel_task(&mut self, id: u32, label: &str) -> (r: Result<(), StoreError>)
        requires
            label_encodable(label@),
        ensures
            final(self)@ == relabel_task_spec(old(self)@, id, label@).0,
            r == relabel_task_spec(old(self)@, id, label@).1,
            r is Ok <==> has_id(old(self)@.tasks, id) && !old(self)@.tasks[first_idx(
                old(self)@.tasks,
                id,
            )].done,
            r is Err ==> final(self)@ == old(self)@,
            old(self)@.wf() ==> final(self)@.wf(),
    {
        let ghost s = self@;
        match self.find_index(id) {
            None => Err(StoreError::NotFound),
            Some(i) => {
                proof {
                    lemma_first_idx(s.tasks, id);
                }
                if self.tasks[i].done {
                    Err(StoreError::AlreadyDone)
                } else {
                    self.tasks[i].label = label.to_owned();
                    proof {
                        assert(self@.tasks =~= s.tasks.update(
                            i as int,
                            TaskV { label: label@, ..s.tasks[i as int] },
                        ));
                        assert(self@ =~= relabel_task_spec(s, id, label@).0);
                        if s.wf() {
                            let ts = self@.tasks;
                            assert forall|k: int| 0 <= k < ts.len() implies (
                            #[trigger] ts[k]).wf() by {
                                if k != i as int {
                                    assert(ts[k] == s.tasks[k]);
                                }
                            }
                        }
                    }
                    Ok(())
                }
            },
        }
    }

    /// Marks the task with identifier `id` done (`check` true) or not done
    /// (`check` false). Checking stamps the caller's current time; it is
    /// refused when the task is already done. Unchecking clears the stamp;
    /// it is refused when the task is not done, and allowed only on the
    /// day the task was created. On any failure the store is unchanged.
    /// The caller persists the store.
    pub fn toggle_check_task(&mut self, id: u32, check: bool, now: i64) -> (r: Result<
        (),
        StoreError,
    >)
        ensures
            final(self)@ == toggle_check_spec(old(self)@, id, check, now).0,
            r == toggle_check_spec(old(self)@, id, check, now).1,
            r is Ok <==> has_id(old(self)@.tasks, id) && ({
                let t = old(self)@.tasks[first_idx(old(self)@.tasks, id)];
                t.done != check && (check || day_of(t.date_created) == day_of(now))
            }),
            r is Err ==> final(self)@ == old(self)@,
            old(self)@.wf() ==> final(self)@.wf(),
    {
        let ghost s = self@;
        match self.find_index(id) {
            None => Err(StoreError::NotFound),
            Some(i) => {
                proof {
                    lemma_first_idx(s.tasks, id);
                }
                if self.tasks[i].done == check {
                    if check {
                        Err(StoreError::AlreadyDone)
                    } else {
                        Err(StoreError::NotDoneYet)
                    }
                } else if check {
                    self.tasks[i].done = true;
                    self.tasks[i].date_checked = Some(now);
                    proof {
                        assert(self@.tasks =~= s.tasks.update(
                            i as int,
                            TaskV { done: true, date_checked: Some(now), ..s.tasks[i as int] },
                        ));
                        assert(self@ =~= toggle_check_spec(s, id, check, now).0);
                        lemma_update_keeps_wf(
                            s,
                            self@,
                            i as int,
                            TaskV { done: true, date_checked: Some(now), ..s.tasks[i as int] },
                        );
                    }
                    Ok(())
                } else if crate::ds::same_day(self.tasks[i].date_created, now) {
                    self.tasks[i].done = false;
                    self.tasks[i].date_checked = None;
                    proof {
                        assert(self@.tasks =~= s.tasks.update(
                            i as int,
                            TaskV { done: false, date_checked: None, ..s.tasks[i as int] },
                        ));
                        assert(self@ =~= toggle_check_spec(s, id, check, now).0);
                        lemma_update_keeps_wf(
                            s,
                            self@,
                            i as int,
                            TaskV { done: false, date_checked: None, ..s.tasks[i as int] },
                        );
                    }
                    Ok(())
                } else {
                    Err(StoreError::NotCreatedToday)
                }
            },
        }
    }
}

/// Updating one task with a well-formed replacement keeps the store
/// well-formed.
proof fn lemma_update_keeps_wf(s: StoreV, s2: StoreV, i: int, t: TaskV)
    requires
        0 <= i < s.tasks.len(),
        s2.tasks == s.tasks.update(i, t),
        s.wf() ==> t.wf(),
    ensures
        s.wf() ==> s2.wf(),
{
    if s.wf() {
        let ts = s2.tasks;
        assert forall|k: int| 0 <= k < ts.len() implies (#[trigger] ts[k]).wf() by {
            if k != i {
                assert(ts[k] == s.tasks[k]);
            }
        }
    }
}

/// The store after a run of successful `add_task` calls, one per label,
/// with the matching clock readings.
pub open spec fn add_many_spec(s: StoreV, labels: Seq<Seq<char>>, nows: Seq<i64>) -> StoreV
    decreases labels.len(),
{
    if labels.len() == 0 {
        s
    } else {
        add_task_spec(
            add_many_spec(s, labels.drop_last(), nows.drop_last()),
            labels.last(),
            nows.last(),
        )
    }
}

/// Identifier monotonicity: a run of successful `add_task` calls starting
/// from identifier counter `k` assigns exactly the identifiers `k`,
/// `k + 1`, … in call order, leaves every existing task unchanged, and
/// leaves the counter at `k` plus the number of calls.
pub proof fn lemma_add_task_ids_monotonic(s: StoreV, labels: Seq<Seq<char>>, nows: Seq<i64>)
    requires
        labels.len() == nows.len(),
        s.last_task_id + labels.len() <= u32::MAX,
    ensures
        ({
            let r = add_many_spec(s, labels, nows);
            &&& r.last_task_id == s.last_task_id + labels.len()
            &&& r.tasks.len() == s.tasks.len() + labels.len()
            &&& forall|i: int| 0 <= i < s.tasks.len() ==> r.tasks[i] == s.tasks[i]
            &&& forall|i: int|
                0 <= i < labels.len() ==> r.tasks[s.tasks.len() + i] == new_task_v(
                    (s.last_task_id + i) as u32,
                    labels[i],
                    nows[i],
                )
        }),
    decreases labels.len(),
{
    if labels.len() > 0 {
        lemma_add_task_ids_monotonic(s, labels.drop_last(), nows.drop_last());
        let p = add_many_spec(s, labels.drop_last(), nows.drop_last());
        let r = add_many_spec(s, labels, nows);
        assert(r == add_task_spec(p, labels.last(), nows.last()));
        assert forall|i: int|
            0 <= i < labels.len() implies r.tasks[s.tasks.len() + i] == new_task_v(
            (s.last_task_id + i) as u32,
            labels[i],
            nows[i],
        ) by {
            if i < labels.len() - 1 {
                assert(r.tasks[s.tasks.len() + i] == p.tasks[s.tasks.len() + i]);
                assert(labels.drop_last()[i] == labels[i]);
                assert(nows.drop_last()[i] == nows[i]);
            } else {
                assert(r.tasks[s.tasks.len() + i] == new_task_v(
                    p.last_task_id,
                    labels.last(),
                    nows.last(),
                ));
            }
        }
    }
}

/// Replacing a task with one that carries the same identifier moves no
/// lookup: `first_idx` and `has_id` agree on the two stores.
proof fn lemma_first_idx_same_ids(a: Seq<TaskV>, b: Seq<TaskV>, id: u32)
    requires
        a.len() == b.len(),
        forall|i: int| 0 <= i < a.len() ==> (#[trigger] a[i]).id == b[i].id,
    ensures
        first_idx(a, id) == first_idx(b, id),
        has_id(a, id) == has_id(b, id),
    decreases a.len(),
{
    assert(has_id(a, id) == has_id(b, id)) by {
        if has_id(a, id) {
            let w = choose|i: int| 0 <= i < a.len() && (#[trigger] a[i]).id == id;
            assert(b[w].id == id);
        }
        if has_id(b, id) {
            let w = choose|i: int| 0 <= i < b.len() && (#[trigger] b[i]).id == id;
            assert(a[w].id == id);
        }
    }
    if a.len() > 0 {
        let ar = a.drop_first();
        let br = b.drop_first();
        assert(forall|i: int| 0 <= i < ar.len() ==> (#[trigger] ar[i]).id == br[i].id) by {
            assert(forall|i: int| 0 <= i < ar.len() ==> (#[trigger] ar[i]) == a[i + 1]);
            assert(forall|i: int| 0 <= i < br.len() ==> (#[trigger] br[i]) == b[i + 1]);
        }
        lemma_first_idx_same_ids(ar, br, id);
    }
}

/// Check idempotence guard: after a successful check, checking the same
/// task again fails with "already done", the store is left exactly as the
/// first check left it, and the first check's completion stamp survives.
pub proof fn lemma_toggle_check_twice(s: StoreV, id: u32, now1: i64, now2: i64)
    requires
        toggle_check_spec(s, id, true, now1).1 is Ok,
    ensures
        ({
            let s1 = toggle_check_spec(s, id, true, now1).0;
            let again = toggle_check_spec(s1, id, true, now2);
            &&& again.1 == Err::<(), StoreError>(StoreError::AlreadyDone)
            &&& again.0 == s1
            &&& s1.tasks[first_idx(s1.tasks, id)].date_checked == Some(now1)
        }),
{
    lemma_first_idx(s.tasks, id);
    let fi = first_idx(s.tasks, id);
    let s1 = toggle_check_spec(s, id, true, now1).0;
    assert(s1.tasks == s.tasks.update(
        fi,
        TaskV { done: true, date_checked: Some(now1), ..s.tasks[fi] },
    ));
    lemma_first_idx_same_ids(s.tasks, s1.tasks, id);
    assert(first_idx(s1.tasks, id) == fi);
    assert(s1.tasks[fi].done);
    assert(s1.tasks[fi].date_checked == Some(now1));
}

} // verus!
