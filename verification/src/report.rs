//! The store's read-only reports: the full statistics summary and the short
//! pending-count summary. Both bucket tasks by the UTC calendar day of
//! their timestamps against the caller's single clock reading.

use vstd::prelude::*;
use crate::ds::{day_of, day_of_timestamp, Store, TaskV};

verus! {

/// How many tasks of `ts` satisfy `p`.
pub open spec fn count_matching(ts: Seq<TaskV>, p: spec_fn(TaskV) -> bool) -> nat
    decreases ts.len(),
{
    if ts.len() == 0 {
        0
    } else {
        count_matching(ts.drop_last(), p) + if p(ts.last()) {
            1nat
        } else {
            0nat
        }
    }
}

/// A count never exceeds the number of tasks.
pub proof fn lemma_count_le_len(ts: Seq<TaskV>, p: spec_fn(TaskV) -> bool)
    ensures
        count_matching(ts, p) <= ts.len(),
    decreases ts.len(),
{
    if ts.len() > 0 {
        lemma_count_le_len(ts.drop_last(), p);
    }
}

/// Counting one more task adds one exactly when that task matches.
proof fn lemma_count_step(ts: Seq<TaskV>, p: spec_fn(TaskV) -> bool, i: int)
    requires
        0 <= i < ts.len(),
    ensures
        count_matching(ts.take(i + 1), p) == count_matching(ts.take(i), p) + if p(ts[i]) {
            1nat
        } else {
            0nat
        },
{
    assert(ts.take(i + 1).drop_last() =~= ts.take(i));
    assert(ts.take(i + 1).last() == ts[i]);
}

/// A predicate that implies another one matches no more tasks.
pub proof fn lemma_count_implies(ts: Seq<TaskV>, p: spec_fn(TaskV) -> bool, q: spec_fn(
    TaskV,
) -> bool)
    requires
        forall|i: int| 0 <= i < ts.len() ==> (#[trigger] p(ts[i]) ==> q(ts[i])),
    ensures
        count_matching(ts, p) <= count_matching(ts, q),
    decreases ts.len(),
{
    if ts.len() > 0 {
        let front = ts.drop_last();
        assert(forall|i: int| 0 <= i < front.len() ==> front[i] == ts[i]);
        assert forall|i: int| 0 <= i < front.len() && #[trigger] p(front[i]) implies q(
            front[i],
        ) by {
            assert(front[i] == ts[i]);
        }
        lemma_count_implies(front, p, q);
        assert(ts.last() == ts[ts.len() - 1]);
    }
}

/// The task was created on the given day.
pub open spec fn created_on(t: TaskV, today: int) -> bool {
    day_of(t.date_created) == today
}

/// The task was created before the given day.
pub open spec fn created_before(t: TaskV, today: int) -> bool {
    day_of(t.date_created) < today
}

/// The task carries a completion stamp from the given day.
pub open spec fn checked_on(t: TaskV, today: int) -> bool {
    match t.date_checked {
        Some(c) => day_of(c) == today,
        None => false,
    }
}

/// The task carried over: created before the given day and never checked.
pub open spec fn carry_over(t: TaskV, today: int) -> bool {
    created_before(t, today) && t.date_checked is None
}

/// The task is pending for the given day: not done, and either created on
/// that day or never checked.
pub open spec fn pending_today(t: TaskV, today: int) -> bool {
    (created_on(t, today) || t.date_checked is None) && !t.done
}

/// The task is pending from an earlier day: created before the given day,
/// never checked, and not done.
pub open spec fn pending_previous(t: TaskV, today: int) -> bool {
    created_before(t, today) && t.date_checked is None && !t.done
}

/// How many tasks are done.
pub open spec fn count_done(ts: Seq<TaskV>) -> nat {
    count_matching(ts, |t: TaskV| t.done)
}

/// How many tasks were created on the given day.
pub open spec fn count_created_on(ts: Seq<TaskV>, today: int) -> nat {
    count_matching(ts, (|t: TaskV| created_on(t, today)))
}

/// How many tasks were checked on the given day.
pub open spec fn count_checked_on(ts: Seq<TaskV>, today: int) -> nat {
    count_matching(ts, (|t: TaskV| checked_on(t, today)))
}

/// How many tasks carried over to the given day.
pub open spec fn count_carry_over(ts: Seq<TaskV>, today: int) -> nat {
    count_matching(ts, (|t: TaskV| carry_over(t, today)))
}

/// How many tasks are pending for the given day.
pub open spec fn count_pending_today(ts: Seq<TaskV>, today: int) -> nat {
    count_matching(ts, (|t: TaskV| pending_today(t, today)))
}

/// How many tasks are pending from earlier days.
pub open spec fn count_pending_previous(ts: Seq<TaskV>, today: int) -> nat {
    count_matching(ts, (|t: TaskV| pending_previous(t, today)))
}

/// The smallest creation time among the tasks (meaningful only when there
/// is at least one task).
pub open spec fn min_created(ts: Seq<TaskV>) -> i64
    decreases ts.len(),
{
    if ts.len() <= 1 {
        ts[0].date_created
    } else {
        let m = min_created(ts.drop_last());
        if ts.last().date_created < m {
            ts.last().date_created
        } else {
            m
        }
    }
}

/// The largest creation time among the tasks (meaningful only when there
/// is at least one task).
pub open spec fn max_created(ts: Seq<TaskV>) -> i64
    decreases ts.len(),
{
    if ts.len() <= 1 {
        ts[0].date_created
    } else {
        let m = max_created(ts.drop_last());
        if ts.last().date_created > m {
            ts.last().date_created
        } else {
            m
        }
    }
}

/// The full statistics report: the aggregate counts over the store, and
/// the range of creation times.
#[derive(Clone, Copy, Debug)]
pub struct Summary {
    pub total: usize,
    pub completed: usize,
    pub incomplete: usize,
    pub created_today: usize,
    pub done_today: usize,
    pub done_before_today: usize,
    pub carry_over: usize,
    pub earliest_created: Option<i64>,
    pub latest_created: Option<i64>,
}

/// The short status report: pending counts for the caller's current day
/// and from earlier days. The two buckets overlap by design: a task both
/// pending and from an earlier day appears in each.
#[derive(Clone, Copy, Debug)]
pub struct BasicSummary {
    pub pending_today: usize,
    pub pending_previous_days: usize,
}

impl Store {
    /// Computes the full statistics report for the caller's current day: a
    /// pure read, no mutation.
    pub fn summarize(&self, now: i64) -> (r: Summary)
        requires
            self@.wf(),
        ensures
            r.total == self@.tasks.len(),
            r.completed == count_done(self@.tasks),
            r.incomplete == self@.tasks.len() - count_done(self@.tasks),
            r.created_today == count_created_on(self@.tasks, day_of(now)),
            r.done_today == count_checked_on(self@.tasks, day_of(now)),
            r.done_before_today == count_done(self@.tasks) - count_checked_on(
                self@.tasks,
                day_of(now),
            ),
            r.carry_over == count_carry_over(self@.tasks, day_of(now)),
            r.earliest_created == (if self@.tasks.len() == 0 {
                None::<i64>
            } else {
                Some(min_created(self@.tasks))
            }),
            r.latest_created == (if self@.tasks.len() == 0 {
                None::<i64>
            } else {
                Some(max_created(self@.tasks))
            }),
    {
        let ghost ts = self@.tasks;
        let ghost today_g = day_of(now);
        let today = day_of_timestamp(now);
        let mut completed: usize = 0;
        let mut created_today: usize = 0;
        let mut done_today: usize = 0;
        let mut carry: usize = 0;
        let mut earliest: Option<i64> = None;
        let mut latest: Option<i64> = None;
        let mut i: usize = 0;
        proof {
            assert(ts.take(0) =~= Seq::<TaskV>::empty());
        }
        while i < self.tasks.len()
            invariant
                i <= self.tasks.len(),
                ts == self@.tasks,
                ts.len() == self.tasks.len(),
                today as int == today_g,
                today_g == day_of(now),
                completed == count_done(ts.take(i as int)),
                created_today == count_created_on(ts.take(i as int), today_g),
                done_today == count_checked_on(ts.take(i as int), today_g),
                carry == count_carry_over(ts.take(i as int), today_g),
                completed <= i && created_today <= i && done_today <= i && carry <= i,
                earliest == (if i == 0 {
                    None::<i64>
                } else {
                    Some(min_created(ts.take(i as int)))
                }),
                latest == (if i == 0 {
                    None::<i64>
                } else {
                    Some(max_created(ts.take(i as int)))
                }),
            decreases self.tasks.len() - i,
        {
            let t = &self.tasks[i];
            proof {
                assert(t@ == ts[i as int]);
                lemma_count_step(ts, |t: TaskV| t.done, i as int);
                lemma_count_step(ts, (|t: TaskV| created_on(t, today_g)), i as int);
                lemma_count_step(ts, (|t: TaskV| checked_on(t, today_g)), i as int);
                lemma_count_step(ts, (|t: TaskV| carry_over(t, today_g)), i as int);
            }
            if t.done {
                completed = completed + 1;
            }
            let t_day = day_of_timestamp(t.date_created);
            if t_day == today {
                created_today = created_today + 1;
            }
            let mut unchecked = false;
            match t.date_checked {
                Some(c) => {
                    if day_of_timestamp(c) == today {
                        done_today = done_today + 1;
                    }
                },
                None => {
                    unchecked = true;
                },
            }
            if t_day < today && unchecked {
                carry = carry + 1;
            }
            match earliest {
                None => {
                    earliest = Some(t.date_created);
                },
                Some(e) => {
                    if t.date_created < e {
                        earliest = Some(t.date_created);
                    }
                },
            }
            match latest {
                None => {
                    latest = Some(t.date_created);
                },
                Some(l) => {
                    if t.date_created > l {
                        latest = Some(t.date_created);
                    }
                },
            }
            proof {
                if i == 0 {
                    assert(ts.take(1).len() == 1);
                    assert(ts.take(1)[0] == ts[0]);
                } else {
                    assert(ts.take(i + 1).drop_last() =~= ts.take(i as int));
                    assert(ts.take(i + 1).last() == ts[i as int]);
                }
            }
            i = i + 1;
        }
        proof {
            assert(ts.take(ts.len() as int) =~= ts);
            lemma_count_le_len(ts, |t: TaskV| t.done);
            lemma_count_implies(ts, (|t: TaskV| checked_on(t, today_g)), |t: TaskV| t.done);
        }
        let total = self.tasks.len();
        Summary {
            total,
            completed,
            incomplete: total - completed,
            created_today,
            done_today,
            done_before_today: completed - done_today,
            carry_over: carry,
            earliest_created: earliest,
            latest_created: latest,
        }
    }

    /// Computes the short status report for the caller's current day: a
    /// pure read, no mutation.
    pub fn summarize_basic(&self, now: i64) -> (r: BasicSummary)
        ensures
            r.pending_today == count_pending_today(self@.tasks, day_of(now)),
            r.pending_previous_days == count_pending_previous(self@.tasks, day_of(now)),
    {
        let ghost ts = self@.tasks;
        let ghost today_g = day_of(now);
        let today = day_of_timestamp(now);
        let mut pending: usize = 0;
        let mut previous: usize = 0;
        let mut i: usize = 0;
        proof {
            assert(ts.take(0) =~= Seq::<TaskV>::empty());
        }
        while i < self.tasks.len()
            invariant
                i <= self.tasks.len(),
                ts == self@.tasks,
                ts.len() == self.tasks.len(),
                today as int == today_g,
                today_g == day_of(now),
                pending == count_pending_today(ts.take(i as int), today_g),
                previous == count_pending_previous(ts.take(i as int), today_g),
                pending <= i && previous <= i,
            decreases self.tasks.len() - i,
        {
            let t = &self.tasks[i];
            proof {
                assert(t@ == ts[i as int]);
                lemma_count_step(ts, (|t: TaskV| pending_today(t, today_g)), i as int);
                lemma_count_step(ts, (|t: TaskV| pending_previous(t, today_g)), i as int);
            }
            let t_day = day_of_timestamp(t.date_created);
            let unchecked = t.date_checked.is_none();
            if (t_day == today || unchecked) && !t.done {
                pending = pending + 1;
            }
            if t_day < today && unchecked && !t.done {
                previous = previous + 1;
            }
            proof {
                assert(ts.take(i + 1).drop_last() =~= ts.take(i as int));
                assert(ts.take(i + 1).last() == ts[i as int]);
            }
            i = i + 1;
        }
        proof {
            assert(ts.take(ts.len() as int) =~= ts);
        }
        BasicSummary { pending_today: pending, pending_previous_days: previous }
    }
}

} // verus!
