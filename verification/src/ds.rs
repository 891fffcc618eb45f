//! The record store's data model: tasks, metadata, the store aggregate,
//! their mathematical views, and the UTC day arithmetic that the
//! date-bucketing rules are built on.

use vstd::prelude::*;
use crate::codec::label_encodable;

verus! {

/// One user-visible to-do item. `date_created` and `date_checked` are Unix
/// timestamps in seconds; `date_checked` is present exactly while the task
/// is marked done.
pub struct Task {
    pub id: u32,
    pub done: bool,
    pub label: String,
    pub date_created: i64,
    pub date_checked: Option<i64>,
}

/// The mathematical value of a `Task`, with the label as a character
/// sequence.
#[verifier::ext_equal]
pub ghost struct TaskV {
    pub id: u32,
    pub done: bool,
    pub label: Seq<char>,
    pub date_created: i64,
    pub date_checked: Option<i64>,
}

impl View for Task {
    type V = TaskV;

    open spec fn view(&self) -> TaskV {
        TaskV {
            id: self.id,
            done: self.done,
            label: self.label@,
            date_created: self.date_created,
            date_checked: self.date_checked,
        }
    }
}

impl TaskV {
    /// The completion flag agrees with the presence of a completion time.
    pub open spec fn check_consistent(self) -> bool {
        self.done <==> self.date_checked is Some
    }

    /// The record round-trips through the store format: its flag is
    /// consistent and its label fits on one line.
    pub open spec fn wf(self) -> bool {
        self.check_consistent() && label_encodable(self.label)
    }
}

/// The blank record that a task block starts from before its fields are
/// filled in.
pub open spec fn default_task_v() -> TaskV {
    TaskV { id: 0, done: false, label: Seq::empty(), date_created: 0, date_checked: None }
}

impl Task {
    /// A blank record: id zero, not done, empty label.
    pub fn default() -> (r: Self)
        ensures
            r@ == default_task_v(),
    {
        let r = Task {
            id: 0,
            done: false,
            label: String::new(),
            date_created: 0,
            date_checked: None,
        };
        proof {
            assert(r@ =~= default_task_v());
        }
        r
    }
}

/// The store's single metadata record: the next task identifier to assign.
pub struct Metadata {
    pub last_task_id: u32,
}

impl Default for Metadata {
    /// Fresh metadata assigns identifiers from zero.
    fn default() -> (r: Self)
        ensures
            r.last_task_id == 0,
    {
        Metadata { last_task_id: 0 }
    }
}

/// The aggregate the library manages: metadata plus the tasks in insertion
/// order.
pub struct Store {
    pub metadata: Metadata,
    pub tasks: Vec<Task>,
}

/// The mathematical value of a `Store`.
#[verifier::ext_equal]
pub ghost struct StoreV {
    pub last_task_id: u32,
    pub tasks: Seq<TaskV>,
}

impl View for Store {
    type V = StoreV;

    open spec fn view(&self) -> StoreV {
        StoreV {
            last_task_id: self.metadata.last_task_id,
            tasks: self.tasks@.map_values(|t: Task| t@),
        }
    }
}

impl StoreV {
    /// Every record of the store is well-formed.
    pub open spec fn wf(self) -> bool {
        forall|i: int| 0 <= i < self.tasks.len() ==> (#[trigger] self.tasks[i]).wf()
    }
}

/// The empty store: no tasks, identifiers assigned from zero.
pub open spec fn empty_store_v() -> StoreV {
    StoreV { last_task_id: 0, tasks: Seq::empty() }
}

impl Store {
    /// An empty store with default metadata, as a freshly created location
    /// would load.
    pub fn new() -> (r: Self)
        ensures
            r@ == empty_store_v(),
    {
        let r = Store { metadata: Metadata { last_task_id: 0 }, tasks: Vec::new() };
        proof {
            assert(r@.tasks =~= Seq::<TaskV>::empty());
            assert(r@ =~= empty_store_v());
        }
        r
    }
}

/// Some task in `ts` carries the identifier `id`.
pub open spec fn has_id(ts: Seq<TaskV>, id: u32) -> bool {
    exists|i: int| 0 <= i < ts.len() && (#[trigger] ts[i]).id == id
}

/// The index of the first task in `ts` with identifier `id`, or `-1` if
/// there is none. Lookups always resolve to the first match.
pub open spec fn first_idx(ts: Seq<TaskV>, id: u32) -> int
    decreases ts.len(),
{
    if ts.len() == 0 {
        -1
    } else if ts[0].id == id {
        0
    } else if first_idx(ts.drop_first(), id) == -1 {
        -1
    } else {
        1 + first_idx(ts.drop_first(), id)
    }
}

/// `first_idx` finds the least matching index, and finds one exactly when
/// one exists.
pub proof fn lemma_first_idx(ts: Seq<TaskV>, id: u32)
    ensures
        has_id(ts, id) ==> {
            let fi = first_idx(ts, id);
            &&& 0 <= fi < ts.len()
            &&& ts[fi].id == id
            &&& forall|j: int| 0 <= j < fi ==> (#[trigger] ts[j]).id != id
        },
        !has_id(ts, id) ==> first_idx(ts, id) == -1,
    decreases ts.len(),
{
    if ts.len() == 0 {
    } else {
        let rest = ts.drop_first();
        lemma_first_idx(rest, id);
        assert(forall|j: int| 0 <= j < rest.len() ==> rest[j] == ts[j + 1]);
        if ts[0].id == id {
            assert(has_id(ts, id));
        } else if has_id(ts, id) {
            let w = choose|i: int| 0 <= i < ts.len() && (#[trigger] ts[i]).id == id;
            assert(rest[w - 1].id == id);
            assert(has_id(rest, id));
            let fr = first_idx(rest, id);
            assert forall|j: int| 1 <= j < fr + 1 implies (#[trigger] ts[j]).id != id by {
                assert(rest[j - 1] == ts[j]);
            }
        } else {
            if first_idx(rest, id) != -1 {
                assert(has_id(rest, id));
                let w = choose|i: int| 0 <= i < rest.len() && (#[trigger] rest[i]).id == id;
                assert(ts[w + 1].id == id);
                assert(has_id(ts, id));
            }
        }
    }
}

/// The UTC calendar day a Unix timestamp falls on, counted in days since
/// the epoch (negative before it). Two timestamps are on the same calendar
/// day exactly when these counts agree.
pub open spec fn day_of(ts: i64) -> int {
    ts as int / 86400
}

/// Computes the UTC day of `ts`.
pub fn day_of_timestamp(ts: i64) -> (d: i64)
    ensures
        d as int == day_of(ts),
{
    if ts >= 0 {
        let q: u64 = (ts as u64) / 86400;
        proof {
            vstd::arithmetic::div_mod::lemma_div_nonincreasing(ts as int, 86400);
            vstd::arithmetic::div_mod::lemma_div_pos_is_pos(ts as int, 86400);
        }
        q as i64
    } else {
        let n: u64 = if ts == i64::MIN {
            9223372036854775808u64
        } else {
            (-ts) as u64
        };
        let q: u64 = (n - 1) / 86400 + 1;
        proof {
            let d = 86400int;
            let q0 = (n - 1) as int / d;
            let r0 = (n - 1) as int % d;
            vstd::arithmetic::div_mod::lemma_fundamental_div_mod((n - 1) as int, d);
            vstd::arithmetic::div_mod::lemma_div_pos_is_pos((n - 1) as int, d);
            vstd::arithmetic::div_mod::lemma_div_nonincreasing((n - 1) as int, d);
            assert(ts as int == d * (-(q0 + 1)) + (d - 1 - r0)) by (nonlinear_arith)
                requires
                    (n - 1) as int == d * q0 + r0,
                    ts as int == -(n as int),
                    d == 86400,
            ;
            vstd::arithmetic::div_mod::lemma_fundamental_div_mod_converse(
                ts as int,
                d,
                -(q0 + 1),
                d - 1 - r0,
            );
        }
        -(q as i64)
    }
}

/// Decides whether two timestamps fall on the same UTC calendar day.
pub fn same_day(a: i64, b: i64) -> (r: bool)
    ensures
        r == (day_of(a) == day_of(b)),
{
    day_of_timestamp(a) == day_of_timestamp(b)
}

} // verus!
