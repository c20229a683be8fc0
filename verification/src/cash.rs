//! Monetary transaction records and the installment-payment plan engine.
//!
//! A `Cash` record carries its identifier, an optional weak reference to the
//! owning person record, a signed amount (positive income, negative
//! expense), an optional note, an optional installment period, and an
//! immutable creation timestamp in Unix milliseconds. The engine layered on
//! the transaction store creates, extends, queries and cancels multi-period
//! payment plans.

use vstd::prelude::*;

use crate::clock::now_millis;
use crate::ids::IdGen;
use crate::store::{HasUid, RecordStore};

verus! {

/// How often a plan's periods fall due.
#[derive(Clone, Copy, Debug, PartialEq, Eq, Structural)]
pub enum PaymentFrequency {
    Weekly,
    Monthly,
    Quarterly,
    /// A custom interval in days.
    Custom(u32),
}

/// Lifecycle state of one installment period. `Pending` is initial;
/// `Paid` and `Cancelled` are terminal. `Overdue` exists as a stored state
/// but is only ever produced by an explicit status update: the overdue
/// query is a computed view and writes nothing back.
#[derive(Clone, Copy, Debug, PartialEq, Eq, Structural)]
pub enum InstallmentStatus {
    Pending,
    Paid,
    Overdue,
    Cancelled,
}

impl Default for InstallmentStatus {
    /// A fresh period starts out pending.
    fn default() -> (r: Self)
        ensures
            r == InstallmentStatus::Pending,
    {
        InstallmentStatus::Pending
    }
}

/// One scheduled sub-payment of a multi-period plan.
#[derive(Clone, Copy, Debug, PartialEq, Eq, Structural)]
pub struct Installment {
    /// Shared by every period of one plan; a namespace distinct from the
    /// owning transaction's own identifier.
    pub plan_id: u64,
    /// Total amount of the whole plan.
    pub total_amount: i64,
    /// How many periods the plan has in all.
    pub total_installments: u32,
    /// This period's 1-based ordinal within the plan.
    pub current_installment: u32,
    /// Payment frequency.
    pub frequency: PaymentFrequency,
    /// Due date, Unix milliseconds.
    pub due_date: i64,
    /// Lifecycle state.
    pub status: InstallmentStatus,
}

/// The abstract content of a transaction record: the same fields, with the
/// note as a mathematical sequence of characters.
pub ghost struct CashView {
    pub uid: u64,
    pub student_id: Option<u64>,
    pub cash: i64,
    pub note: Option<Seq<char>>,
    pub installment: Option<Installment>,
    pub created_at: i64,
}

/// A monetary transaction record.
#[derive(Clone, Debug, PartialEq)]
pub struct Cash {
    /// This record's own identifier.
    pub uid: u64,
    /// Weak, unvalidated reference to a person record.
    pub student_id: Option<u64>,
    /// Signed amount: positive income, negative expense.
    pub cash: i64,
    /// Free-text note.
    pub note: Option<String>,
    /// Installment period, when this record belongs to a plan.
    pub installment: Option<Installment>,
    /// Creation time, Unix milliseconds; set once, immutable.
    pub created_at: i64,
}

/// Truncating division for a positive divisor, as the machine computes it.
pub open spec fn trunc_div(a: int, b: int) -> int {
    if a >= 0 {
        a / b
    } else {
        -((-a) / b)
    }
}

/// Truncating remainder: what is left of `a` after `b * trunc_div(a, b)`.
pub open spec fn trunc_rem(a: int, b: int) -> int {
    a - b * trunc_div(a, b)
}

/// The amount of the period with ordinal `k` in a plan of `n` periods over
/// `total`: the truncated share, plus the remainder on the last period, so
/// the per-period amounts sum to `total` exactly.
pub open spec fn split_amount(total: int, n: int, k: int) -> int {
    trunc_div(total, n) + if k == n {
        trunc_rem(total, n)
    } else {
        0
    }
}

/// Sum of the amounts of periods 1..=k of a plan of `n` periods.
pub open spec fn sum_amounts(total: int, n: int, k: int) -> int
    decreases k,
{
    if k <= 0 {
        0
    } else {
        sum_amounts(total, n, k - 1) + split_amount(total, n, k)
    }
}

/// The truncated share and remainder stay within the total's own range.
proof fn lemma_trunc_bounds(a: int, b: int)
    requires
        b >= 1,
    ensures
        a >= 0 ==> 0 <= trunc_div(a, b) && 0 <= trunc_rem(a, b) && trunc_div(a, b) + trunc_rem(a, b)
            <= a,
        a < 0 ==> trunc_div(a, b) <= 0 && trunc_rem(a, b) <= 0 && a <= trunc_div(a, b) + trunc_rem(
            a,
            b,
        ),
        a >= 0 ==> trunc_div(a, b) <= a,
        a < 0 ==> a <= trunc_div(a, b),
{
    if a >= 0 {
        vstd::arithmetic::div_mod::lemma_fundamental_div_mod(a, b);
        vstd::arithmetic::div_mod::lemma_div_nonincreasing(a, b);
        assert(0 <= a / b) by {
            vstd::arithmetic::div_mod::lemma_div_pos_is_pos(a, b);
        }
        assert(trunc_rem(a, b) == a % b) by {
            vstd::arithmetic::div_mod::lemma_fundamental_div_mod(a, b);
        }
        assert(0 <= a % b) by {
            vstd::arithmetic::div_mod::lemma_mod_bound(a, b);
        }
        assert(trunc_div(a, b) + trunc_rem(a, b) <= a) by {
            let d = a / b;
            let m = a % b;
            assert(a == b * d + m);
            assert(b * d >= d) by (nonlinear_arith)
                requires b >= 1 && d >= 0;
        }
    } else {
        let a2 = -a;
        let q = a2 / b;
        vstd::arithmetic::div_mod::lemma_fundamental_div_mod(a2, b);
        assert(0 <= q) by {
            vstd::arithmetic::div_mod::lemma_div_pos_is_pos(a2, b);
        }
        assert(0 <= a2 % b) by {
            vstd::arithmetic::div_mod::lemma_mod_bound(a2, b);
        }
        vstd::arithmetic::div_mod::lemma_div_nonincreasing(a2, b);
        assert(trunc_div(a, b) == -q);
        assert(b * (-q) == -(b * q)) by (nonlinear_arith);
        assert(trunc_rem(a, b) == a + b * q);
        assert(trunc_rem(a, b) == -(a2 % b)) by {
            assert(a2 == b * q + a2 % b);
        }
        assert(trunc_div(a, b) + trunc_rem(a, b) >= a) by {
            assert(a2 == b * q + a2 % b);
            assert(b * q >= q) by (nonlinear_arith)
                requires b >= 1 && q >= 0;
        }
    }
}

/// The truncating remainder, written as the machine's `%` computes it.
proof fn lemma_trunc_rem_machine(a: int, b: int)
    requires
        b >= 1,
    ensures
        a >= 0 ==> trunc_rem(a, b) == a % b,
        a < 0 ==> trunc_rem(a, b) == -((-a) % b),
{
    if a >= 0 {
        vstd::arithmetic::div_mod::lemma_fundamental_div_mod(a, b);
    } else {
        let a2 = -a;
        let q = a2 / b;
        vstd::arithmetic::div_mod::lemma_fundamental_div_mod(a2, b);
        assert(b * (-q) == -(b * q)) by (nonlinear_arith);
        assert(trunc_rem(a, b) == a + b * q);
        assert(a2 == b * q + a2 % b);
    }
}

/// Periods 1..=k short of the last all carry the truncated share.
proof fn lemma_sum_amounts_prefix(total: int, n: int, k: int)
    requires
        n >= 1,
        0 <= k < n,
    ensures
        sum_amounts(total, n, k) == k * trunc_div(total, n),
    decreases k,
{
    if k == 0 {
        assert(0 * trunc_div(total, n) == 0) by (nonlinear_arith);
    } else {
        lemma_sum_amounts_prefix(total, n, k - 1);
        assert(split_amount(total, n, k) == trunc_div(total, n));
        assert((k - 1) * trunc_div(total, n) + trunc_div(total, n) == k * trunc_div(total, n))
            by (nonlinear_arith);
    }
}

/// Split conservation: generating all `n` periods of one plan and summing
/// their amounts yields the plan total exactly, whatever the divisibility.
pub proof fn lemma_split_conservation(total: int, n: int)
    requires
        n >= 1,
    ensures
        sum_amounts(total, n, n) == total,
{
    lemma_sum_amounts_prefix(total, n, n - 1);
    assert(sum_amounts(total, n, n) == (n - 1) * trunc_div(total, n) + split_amount(total, n, n));
    assert(split_amount(total, n, n) == trunc_div(total, n) + trunc_rem(total, n));
    assert((n - 1) * trunc_div(total, n) + trunc_div(total, n) == n * trunc_div(total, n))
        by (nonlinear_arith);
    assert(n * trunc_div(total, n) + trunc_rem(total, n) == total);
}

/// The amount of one period, computed as the machine divides.
pub fn installment_amount(total_amount: i64, total_installments: u32, ordinal: u32) -> (r: i64)
    requires
        total_installments >= 1,
    ensures
        r == split_amount(total_amount as int, total_installments as int, ordinal as int),
{
    let n: i64 = total_installments as i64;
    proof {
        lemma_trunc_bounds(total_amount as int, n as int);
    }
    let base = match total_amount.checked_div(n) {
        Some(b) => b,
        None => {
            proof {
                assert(false);
            }
            0
        },
    };
    proof {
        assert(base == trunc_div(total_amount as int, n as int));
    }
    if ordinal == total_installments {
        let rem = match total_amount.checked_rem(n) {
            Some(m) => m,
            None => {
                proof {
                    assert(false);
                }
                0
            },
        };
        proof {
            lemma_trunc_rem_machine(total_amount as int, n as int);
        }
        base + rem
    } else {
        base
    }
}

impl Cash {
    /// A fresh plain transaction record, identified by the next identifier
    /// of `gen`, with amount zero, no note and no installment. The creation
    /// timestamp is taken from the wall clock.
    pub fn new(gen: &mut IdGen, student_id: Option<u64>) -> (r: Cash)
        requires
            old(gen).spec_next() < u64::MAX,
        ensures
            final(gen).spec_next() == old(gen).spec_next() + 1,
            r.uid == old(gen).spec_next(),
            r.student_id == student_id,
            r.cash == 0,
            r.note is None,
            r.installment is None,
    {
        let uid = gen.next();
        Cash {
            uid,
            student_id,
            cash: 0,
            note: None,
            installment: None,
            created_at: now_millis(),
        }
    }

    /// A fresh installment period record. Mints the record's identifier
    /// from `gen`, and a fresh plan identifier too when none is supplied
    /// (a distinct namespace, drawn from the same generator). The amount
    /// follows the remainder split rule; the initial status is `Pending`.
    pub fn new_installment(
        gen: &mut IdGen,
        student_id: Option<u64>,
        total_amount: i64,
        total_installments: u32,
        frequency: PaymentFrequency,
        due_date: i64,
        current_installment: u32,
        plan_id: Option<u64>,
    ) -> (r: Cash)
        requires
            old(gen).spec_next() + (if plan_id is Some {
                1int
            } else {
                2int
            }) <= u64::MAX,
            total_installments >= 1,
        ensures
            r.uid == old(gen).spec_next(),
            r.student_id == student_id,
            r.cash == split_amount(
                total_amount as int,
                total_installments as int,
                current_installment as int,
            ),
            r.note is None,
            r.installment == Some(
                Installment {
                    plan_id: match plan_id {
                        Some(p) => p,
                        None => (old(gen).spec_next() + 1) as u64,
                    },
                    total_amount,
                    total_installments,
                    current_installment,
                    frequency,
                    due_date,
                    status: InstallmentStatus::Pending,
                },
            ),
            final(gen).spec_next() == old(gen).spec_next() + (if plan_id is Some {
                1int
            } else {
                2int
            }),
    {
        let uid = gen.next();
        let amount = installment_amount(total_amount, total_installments, current_installment);
        let plan = match plan_id {
            Some(p) => p,
            None => gen.next(),
        };
        Cash {
            uid,
            student_id,
            cash: amount,
            note: None,
            installment: Some(
                Installment {
                    plan_id: plan,
                    total_amount,
                    total_installments,
                    current_installment,
                    frequency,
                    due_date,
                    status: InstallmentStatus::Pending,
                },
            ),
            created_at: now_millis(),
        }
    }

    /// Add to the amount.
    pub fn add(&mut self, num: i64)
        requires
            i64::MIN <= old(self).cash + num <= i64::MAX,
        ensures
            *final(self) == (Cash { cash: (old(self).cash + num) as i64, ..*old(self) }),
    {
        self.cash = self.cash + num;
    }

    /// Set the amount.
    pub fn set_cash(&mut self, num: i64)
        ensures
            *final(self) == (Cash { cash: num, ..*old(self) }),
    {
        self.cash = num;
    }

    /// Set the owner reference; zero clears it.
    pub fn set_id(&mut self, id: u64)
        ensures
            *final(self) == (Cash {
                student_id: if id == 0 {
                    None
                } else {
                    Some(id)
                },
                ..*old(self)
            }),
    {
        self.student_id = if id == 0 {
            None
        } else {
            Some(id)
        };
    }

    /// Set or clear the note.
    pub fn set_note(&mut self, note: Option<String>)
        ensures
            *final(self) == (Cash { note, ..*old(self) }),
    {
        self.note = note;
    }

    /// The note, if any.
    pub fn note(&self) -> (r: Option<&str>)
        ensures
            match r {
                Some(s) => self.note is Some && s@ == self.note->0@,
                None => self.note is None,
            },
    {
        match &self.note {
            Some(s) => Some(s.as_str()),
            None => None,
        }
    }

    /// Does this record belong to an installment plan?
    pub fn is_installment(&self) -> (r: bool)
        ensures
            r == (self.installment is Some),
    {
        self.installment.is_some()
    }

    /// The plan identifier, when this record is an installment period.
    pub fn installment_plan_id(&self) -> (r: Option<u64>)
        ensures
            r == plan_id_of(*self),
    {
        match &self.installment {
            Some(inst) => Some(inst.plan_id),
            None => None,
        }
    }

    /// Update the period's status; a no-op on a record without a plan.
    pub fn set_installment_status(&mut self, status: InstallmentStatus)
        ensures
            *final(self) == (Cash {
                installment: match old(self).installment {
                    Some(inst) => Some(Installment { status, ..inst }),
                    None => None,
                },
                ..*old(self)
            }),
    {
        match &mut self.installment {
            Some(inst) => {
                inst.status = status;
            },
            None => {},
        }
    }

    /// A field-faithful copy of this record.
    pub fn duplicate(&self) -> (r: Cash)
        ensures
            r == *self,
    {
        Cash {
            uid: self.uid,
            student_id: self.student_id,
            cash: self.cash,
            note: match &self.note {
                Some(s) => Some(s.clone()),
                None => None,
            },
            installment: self.installment,
            created_at: self.created_at,
        }
    }
}

impl View for Cash {
    type V = CashView;

    open spec fn view(&self) -> CashView {
        CashView {
            uid: self.uid,
            student_id: self.student_id,
            cash: self.cash,
            note: match self.note {
                Some(s) => Some(s@),
                None => None,
            },
            installment: self.installment,
            created_at: self.created_at,
        }
    }
}

impl HasUid for Cash {
    open spec fn uid_spec(&self) -> u64 {
        self.uid
    }

    fn uid(&self) -> u64 {
        self.uid
    }

    fn with_uid(self, uid: u64) -> Cash {
        Cash { uid, ..self }
    }
}

/// The transaction collection: an ordered record store of `Cash`.
pub type CashDatabase = RecordStore<Cash>;

/// The plan identifier carried by a record, if it is a period.
pub open spec fn plan_id_of(c: Cash) -> Option<u64> {
    match c.installment {
        Some(inst) => Some(inst.plan_id),
        None => None,
    }
}

/// Does the record belong to plan `plan`?
pub open spec fn in_plan(c: Cash, plan: u64) -> bool {
    plan_id_of(c) == Some(plan)
}

/// Is the record an installment period at all?
pub open spec fn has_installment(c: Cash) -> bool {
    c.installment is Some
}

/// A period that a cancellation affects: it belongs to the plan and its
/// stored status is `Pending` or `Overdue`.
pub open spec fn cancellable(c: Cash, plan: u64) -> bool {
    match c.installment {
        Some(inst) => inst.plan_id == plan && (inst.status == InstallmentStatus::Pending
            || inst.status == InstallmentStatus::Overdue),
        None => false,
    }
}

/// A period the overdue query reports at time `now`: stored status still
/// `Pending` and due strictly before `now`.
pub open spec fn overdue_at(c: Cash, now: i64) -> bool {
    match c.installment {
        Some(inst) => inst.status == InstallmentStatus::Pending && inst.due_date < now,
        None => false,
    }
}

/// Is the record owned by `student_id` and part of some plan?
pub open spec fn student_installment(c: Cash, student_id: u64) -> bool {
    c.student_id == Some(student_id) && has_installment(c)
}

/// The entries whose record satisfies `p`, in ascending key order.
pub open spec fn filter_entries(s: Seq<(u64, Cash)>, p: spec_fn(Cash) -> bool) -> Seq<(u64, Cash)>
    decreases s.len(),
{
    if s.len() == 0 {
        Seq::empty()
    } else {
        let front = filter_entries(s.drop_last(), p);
        if p(s.last().1) {
            front.push(s.last())
        } else {
            front
        }
    }
}

/// Records that are installment periods.
pub open spec fn pred_has_installment() -> spec_fn(Cash) -> bool {
    |c: Cash| has_installment(c)
}

/// Records that are periods of plan `plan`.
pub open spec fn pred_in_plan(plan: u64) -> spec_fn(Cash) -> bool {
    |c: Cash| in_plan(c, plan)
}

/// Periods still pending whose due date lies strictly before `now`.
pub open spec fn pred_overdue(now: i64) -> spec_fn(Cash) -> bool {
    |c: Cash| overdue_at(c, now)
}

/// Periods owned by `student_id`.
pub open spec fn pred_student(student_id: u64) -> spec_fn(Cash) -> bool {
    |c: Cash| student_installment(c, student_id)
}

/// Periods a cancellation of `plan` affects.
pub open spec fn pred_cancellable(plan: u64) -> spec_fn(Cash) -> bool {
    |c: Cash| cancellable(c, plan)
}

/// The periods of one plan, in ascending key order.
pub open spec fn plan_periods(s: Seq<(u64, Cash)>, plan: u64) -> Seq<(u64, Cash)> {
    filter_entries(s, pred_in_plan(plan))
}

/// The ordinal a record carries, zero when it is no period.
pub open spec fn ordinal_of(c: Cash) -> u32 {
    match c.installment {
        Some(inst) => inst.current_installment,
        None => 0,
    }
}

/// Highest ordinal among the given entries (zero when there are none).
pub open spec fn max_ordinal(s: Seq<(u64, Cash)>) -> u32
    decreases s.len(),
{
    if s.len() == 0 {
        0
    } else {
        let m = max_ordinal(s.drop_last());
        if ordinal_of(s.last().1) > m {
            ordinal_of(s.last().1)
        } else {
            m
        }
    }
}

/// What cancelling `plan` does to one record: a pending or overdue period
/// of the plan becomes `Cancelled`; everything else is left untouched.
pub open spec fn cancel_one(c: Cash, plan: u64) -> Cash {
    if cancellable(c, plan) {
        Cash {
            installment: Some(Installment { status: InstallmentStatus::Cancelled, ..c.installment->0 }),
            ..c
        }
    } else {
        c
    }
}

/// What cancelling `plan` does to a whole entry sequence.
pub open spec fn cancel_entries(s: Seq<(u64, Cash)>, plan: u64) -> Seq<(u64, Cash)> {
    Seq::new(s.len(), |i: int| (s[i].0, cancel_one(s[i].1, plan)))
}

/// Cancellation idempotence: after a cancellation nothing in the plan is
/// still cancellable, so a second cancellation affects zero periods and
/// leaves every record as it was.
pub proof fn lemma_cancel_idempotent(s: Seq<(u64, Cash)>, plan: u64)
    ensures
        filter_entries(cancel_entries(s, plan), pred_cancellable(plan)).len() == 0,
        cancel_entries(cancel_entries(s, plan), plan) =~= cancel_entries(s, plan),
    decreases s.len(),
{
    let ce = cancel_entries(s, plan);
    assert forall|i: int| 0 <= i < s.len() implies !cancellable(ce[i].1, plan) by {
        assert(ce[i].1 == cancel_one(s[i].1, plan));
    }
    lemma_filter_none(ce, pred_cancellable(plan));
    assert forall|i: int| 0 <= i < ce.len() implies #[trigger] cancel_one(ce[i].1, plan) == ce[i].1 by {
        assert(ce[i].1 == cancel_one(s[i].1, plan));
    }
}

/// A filter over entries none of which satisfies the predicate is empty.
proof fn lemma_filter_none(s: Seq<(u64, Cash)>, p: spec_fn(Cash) -> bool)
    requires
        forall|i: int| 0 <= i < s.len() ==> !p((#[trigger] s[i]).1),
    ensures
        filter_entries(s, p).len() == 0,
    decreases s.len(),
{
    if s.len() > 0 {
        assert(forall|i: int|
            0 <= i < s.drop_last().len() ==> (#[trigger] s.drop_last()[i]) == s[i]);
        lemma_filter_none(s.drop_last(), p);
        assert(!p(s[s.len() - 1].1));
    }
}

impl RecordStore<Cash> {
    /// All records that carry plan metadata, ascending by key.
    pub fn get_installments(&self) -> (r: Vec<&Cash>)
        requires
            self.wf(),
        ensures
            ({
                let f = filter_entries(self.entries_seq(), pred_has_installment());
                &&& r@.len() == f.len()
                &&& forall|i: int| 0 <= i < f.len() ==> *(#[trigger] r@[i]) == f[i].1
            }),
    {
        let ghost s0 = self.entries_seq();
        let ghost p = pred_has_installment();
        let n = self.entries.len();
        let mut out: Vec<&Cash> = Vec::new();
        let mut i: usize = 0;
        proof {
            assert(s0.subrange(0, 0) =~= Seq::<(u64, Cash)>::empty());
        }
        while i < n
            invariant
                0 <= i <= n,
                n == s0.len(),
                s0 == self.entries_seq(),
                self.wf(),
                p == pred_has_installment(),
                out@.len() == filter_entries(s0.subrange(0, i as int), p).len(),
                forall|j: int|
                    0 <= j < out@.len() ==> *(#[trigger] out@[j]) == filter_entries(
                        s0.subrange(0, i as int),
                        p,
                    )[j].1,
            decreases n - i,
        {
            proof {
                assert(s0.subrange(0, i + 1).drop_last() =~= s0.subrange(0, i as int));
                assert(s0.subrange(0, i + 1).last() == s0[i as int]);
            }
            if self.entries[i].1.installment.is_some() {
                out.push(&self.entries[i].1);
            }
            i = i + 1;
        }
        proof {
            assert(s0.subrange(0, n as int) =~= s0);
        }
        out
    }

    /// All periods of plan `plan_id`, ascending by key.
    pub fn get_installments_by_plan(&self, plan_id: u64) -> (r: Vec<&Cash>)
        requires
            self.wf(),
        ensures
            ({
                let f = plan_periods(self.entries_seq(), plan_id);
                &&& r@.len() == f.len()
                &&& forall|i: int| 0 <= i < f.len() ==> *(#[trigger] r@[i]) == f[i].1
            }),
    {
        let ghost s0 = self.entries_seq();
        let ghost p = pred_in_plan(plan_id);
        let n = self.entries.len();
        let mut out: Vec<&Cash> = Vec::new();
        let mut i: usize = 0;
        proof {
            assert(s0.subrange(0, 0) =~= Seq::<(u64, Cash)>::empty());
        }
        while i < n
            invariant
                0 <= i <= n,
                n == s0.len(),
                s0 == self.entries_seq(),
                self.wf(),
                p == pred_in_plan(plan_id),
                out@.len() == filter_entries(s0.subrange(0, i as int), p).len(),
                forall|j: int|
                    0 <= j < out@.len() ==> *(#[trigger] out@[j]) == filter_entries(
                        s0.subrange(0, i as int),
                        p,
                    )[j].1,
            decreases n - i,
        {
            proof {
                assert(s0.subrange(0, i + 1).drop_last() =~= s0.subrange(0, i as int));
                assert(s0.subrange(0, i + 1).last() == s0[i as int]);
            }
            let matches_plan = match &self.entries[i].1.installment {
                Some(inst) => inst.plan_id == plan_id,
                None => false,
            };
            if matches_plan {
                out.push(&self.entries[i].1);
            }
            i = i + 1;
        }
        proof {
            assert(s0.subrange(0, n as int) =~= s0);
        }
        out
    }

    /// All periods owned by `student_id`, ascending by key.
    pub fn get_student_installments(&self, student_id: u64) -> (r: Vec<&Cash>)
        requires
            self.wf(),
        ensures
            ({
                let f = filter_entries(self.entries_seq(), pred_student(student_id));
                &&& r@.len() == f.len()
                &&& forall|i: int| 0 <= i < f.len() ==> *(#[trigger] r@[i]) == f[i].1
            }),
    {
        let ghost s0 = self.entries_seq();
        let ghost p = pred_student(student_id);
        let n = self.entries.len();
        let mut out: Vec<&Cash> = Vec::new();
        let mut i: usize = 0;
        proof {
            assert(s0.subrange(0, 0) =~= Seq::<(u64, Cash)>::empty());
        }
        while i < n
            invariant
                0 <= i <= n,
                n == s0.len(),
                s0 == self.entries_seq(),
                self.wf(),
                p == pred_student(student_id),
                out@.len() == filter_entries(s0.subrange(0, i as int), p).len(),
                forall|j: int|
                    0 <= j < out@.len() ==> *(#[trigger] out@[j]) == filter_entries(
                        s0.subrange(0, i as int),
                        p,
                    )[j].1,
            decreases n - i,
        {
            proof {
                assert(s0.subrange(0, i + 1).drop_last() =~= s0.subrange(0, i as int));
                assert(s0.subrange(0, i + 1).last() == s0[i as int]);
            }
            let c = &self.entries[i].1;
            let owned = match c.student_id {
                Some(sid) => sid == student_id,
                None => false,
            };
            if owned && c.installment.is_some() {
                out.push(c);
            }
            i = i + 1;
        }
        proof {
            assert(s0.subrange(0, n as int) =~= s0);
        }
        out
    }

    /// The periods that are overdue as of time `now`: stored status still
    /// `Pending`, due date strictly before `now`. A computed view — nothing
    /// is written back.
    pub fn get_overdue_installments_at(&self, now: i64) -> (r: Vec<&Cash>)
        requires
            self.wf(),
        ensures
            ({
                let f = filter_entries(self.entries_seq(), pred_overdue(now));
                &&& r@.len() == f.len()
                &&& forall|i: int| 0 <= i < f.len() ==> *(#[trigger] r@[i]) == f[i].1
            }),
    {
        let ghost s0 = self.entries_seq();
        let ghost p = pred_overdue(now);
        let n = self.entries.len();
        let mut out: Vec<&Cash> = Vec::new();
        let mut i: usize = 0;
        proof {
            assert(s0.subrange(0, 0) =~= Seq::<(u64, Cash)>::empty());
        }
        while i < n
            invariant
                0 <= i <= n,
                n == s0.len(),
                s0 == self.entries_seq(),
                self.wf(),
                p == pred_overdue(now),
                out@.len() == filter_entries(s0.subrange(0, i as int), p).len(),
                forall|j: int|
                    0 <= j < out@.len() ==> *(#[trigger] out@[j]) == filter_entries(
                        s0.subrange(0, i as int),
                        p,
                    )[j].1,
            decreases n - i,
        {
            proof {
                assert(s0.subrange(0, i + 1).drop_last() =~= s0.subrange(0, i as int));
                assert(s0.subrange(0, i + 1).last() == s0[i as int]);
            }
            let due = match &self.entries[i].1.installment {
                Some(inst) => inst.status == InstallmentStatus::Pending && inst.due_date < now,
                None => false,
            };
            if due {
                out.push(&self.entries[i].1);
            }
            i = i + 1;
        }
        proof {
            assert(s0.subrange(0, n as int) =~= s0);
        }
        out
    }

    /// The periods overdue as of the wall clock's current time.
    pub fn get_overdue_installments(&self) -> (r: Vec<&Cash>)
        requires
            self.wf(),
        ensures
            exists|now: i64|
                ({
                    let f = filter_entries(self.entries_seq(), #[trigger] pred_overdue(now));
                    &&& r@.len() == f.len()
                    &&& forall|i: int| 0 <= i < f.len() ==> *(#[trigger] r@[i]) == f[i].1
                }),
    {
        let now = now_millis();
        let r = self.get_overdue_installments_at(now);
        proof {
            let ghost t = now;
            assert(({
                let f = filter_entries(self.entries_seq(), pred_overdue(t));
                &&& r@.len() == f.len()
                &&& forall|i: int| 0 <= i < f.len() ==> *(#[trigger] r@[i]) == f[i].1
            }));
        }
        r
    }

    /// Create the next period of a plan: its ordinal is the current highest
    /// plus one; total, period count, frequency, plan identifier and owner
    /// are inherited from the plan's first stored period; the due date is
    /// the caller's. Fails with `NotFound` when no record carries the plan,
    /// and with `State` when the plan is already complete.
    pub fn generate_next_installment(
        &mut self,
        gen: &mut IdGen,
        plan_id: u64,
        due_date: i64,
    ) -> (r: Result<u64, crate::error::Error>)
        requires
            old(self).wf(),
            old(gen).spec_next() < u64::MAX,
        ensures
            final(self).wf(),
            ({
                let periods = plan_periods(old(self).entries_seq(), plan_id);
                if periods.len() == 0 {
                    &&& r matches Err(e) && e is NotFound
                    &&& *final(self) == *old(self)
                    &&& *final(gen) == *old(gen)
                } else {
                    let inst = periods[0].1.installment->0;
                    let top = max_ordinal(periods);
                    if top >= inst.total_installments {
                        &&& r matches Err(e) && e is State
                        &&& *final(self) == *old(self)
                        &&& *final(gen) == *old(gen)
                    } else {
                        &&& r matches Ok(uid) && uid == old(gen).spec_next()
                        &&& final(gen).spec_next() == old(gen).spec_next() + 1
                        &&& final(self)@.contains_key(old(gen).spec_next())
                        &&& ({
                            let c = final(self)@[old(gen).spec_next()];
                            &&& final(self)@ =~= old(self)@.insert(old(gen).spec_next(), c)
                            &&& c.uid == old(gen).spec_next()
                            &&& c.student_id == periods[0].1.student_id
                            &&& c.cash == split_amount(
                                inst.total_amount as int,
                                inst.total_installments as int,
                                top + 1,
                            )
                            &&& c.note is None
                            &&& c.installment == Some(
                                Installment {
                                    plan_id,
                                    total_amount: inst.total_amount,
                                    total_installments: inst.total_installments,
                                    current_installment: (top + 1) as u32,
                                    frequency: inst.frequency,
                                    due_date,
                                    status: InstallmentStatus::Pending,
                                },
                            )
                        })
                    }
                }
            }),
    {
        let ghost s0 = self.entries_seq();
        let ghost periods = plan_periods(s0, plan_id);
        let mut found = false;
        let mut first_sid: Option<u64> = None;
        let mut total: i64 = 0;
        let mut tn: u32 = 0;
        let mut freq = PaymentFrequency::Weekly;
        let mut top: u32 = 0;
        let n = self.entries.len();
        let mut i: usize = 0;
        proof {
            assert(s0.subrange(0, 0) =~= Seq::<(u64, Cash)>::empty());
        }
        while i < n
            invariant
                0 <= i <= n,
                n == s0.len(),
                s0 == self.entries_seq(),
                self.wf(),
                found == (plan_periods(s0.subrange(0, i as int), plan_id).len() > 0),
                found ==> ({
                    let f = plan_periods(s0.subrange(0, i as int), plan_id);
                    let inst = f[0].1.installment->0;
                    &&& first_sid == f[0].1.student_id
                    &&& total == inst.total_amount
                    &&& tn == inst.total_installments
                    &&& freq == inst.frequency
                }),
                top == max_ordinal(plan_periods(s0.subrange(0, i as int), plan_id)),
            decreases n - i,
        {
            let ghost pre = s0.subrange(0, i as int);
            let ghost post = s0.subrange(0, i + 1);
            proof {
                assert(post.drop_last() =~= pre);
                assert(post.last() == s0[i as int]);
            }
            let c = &self.entries[i].1;
            match &c.installment {
                Some(inst) => {
                    if inst.plan_id == plan_id {
                        if !found {
                            found = true;
                            first_sid = c.student_id;
                            total = inst.total_amount;
                            tn = inst.total_installments;
                            freq = inst.frequency;
                        }
                        if inst.current_installment > top {
                            top = inst.current_installment;
                        }
                        proof {
                            let f1 = plan_periods(post, plan_id);
                            let f0 = plan_periods(pre, plan_id);
                            assert(f1 =~= f0.push(s0[i as int]));
                            assert(f1[0] == if f0.len() > 0 {
                                f0[0]
                            } else {
                                s0[i as int]
                            });
                            assert(f1.drop_last() =~= f0);
                        }
                    }
                },
                None => {},
            }
            i = i + 1;
        }
        proof {
            assert(s0.subrange(0, n as int) =~= s0);
        }
        if !found {
            return Err(crate::error::Error::NotFound(crate::text::msg("installment plan not found")));
        }
        if top >= tn {
            return Err(crate::error::Error::State(crate::text::msg("installment plan already complete")));
        }
        let next_ord = top + 1;
        let rec = Cash::new_installment(
            gen,
            first_sid,
            total,
            tn,
            freq,
            due_date,
            next_ord,
            Some(plan_id),
        );
        let uid = rec.uid;
        self.insert(rec);
        Ok(uid)
    }

    /// Cancel every pending or overdue period of a plan; periods already
    /// paid or cancelled, and records outside the plan, are left untouched.
    /// Returns how many periods were cancelled; a repeat call returns zero.
    pub fn cancel_installment_plan(&mut self, plan_id: u64) -> (r: usize)
        requires
            old(self).wf(),
        ensures
            final(self).wf(),
            final(self).entries_seq() =~= cancel_entries(old(self).entries_seq(), plan_id),
            forall|k: u64| final(self)@.contains_key(k) <==> old(self)@.contains_key(k),
            forall|k: u64|
                old(self)@.contains_key(k) ==> final(self)@[k] == cancel_one(
                    #[trigger] old(self)@[k],
                    plan_id,
                ),
            r == filter_entries(old(self).entries_seq(), pred_cancellable(plan_id)).len(),
    {
        let ghost s0 = self.entries_seq();
        let ghost p = pred_cancellable(plan_id);
        let n = self.entries.len();
        let mut out: Vec<(u64, Cash)> = Vec::new();
        let mut count: usize = 0;
        let mut i: usize = 0;
        proof {
            assert(s0.subrange(0, 0) =~= Seq::<(u64, Cash)>::empty());
        }
        while i < n
            invariant
                0 <= i <= n,
                n == s0.len(),
                s0 == self.entries_seq(),
                self.wf(),
                p == pred_cancellable(plan_id),
                out@.len() == i,
                forall|j: int|
                    0 <= j < i ==> (#[trigger] out@[j]) == (s0[j].0, cancel_one(s0[j].1, plan_id)),
                count == filter_entries(s0.subrange(0, i as int), p).len(),
                count <= i,
            decreases n - i,
        {
            proof {
                assert(s0.subrange(0, i + 1).drop_last() =~= s0.subrange(0, i as int));
                assert(s0.subrange(0, i + 1).last() == s0[i as int]);
            }
            let key = self.entries[i].0;
            let c = &self.entries[i].1;
            let hit = match &c.installment {
                Some(inst) => inst.plan_id == plan_id && (inst.status == InstallmentStatus::Pending
                    || inst.status == InstallmentStatus::Overdue),
                None => false,
            };
            if hit {
                let mut c2 = c.duplicate();
                c2.set_installment_status(InstallmentStatus::Cancelled);
                proof {
                    assert(c2 == cancel_one(s0[i as int].1, plan_id));
                }
                out.push((key, c2));
                count = count + 1;
            } else {
                let c2 = c.duplicate();
                proof {
                    assert(c2 == cancel_one(s0[i as int].1, plan_id));
                }
                out.push((key, c2));
            }
            i = i + 1;
        }
        self.entries = out;
        proof {
            assert(s0.subrange(0, n as int) =~= s0);
            assert(self.entries@ =~= cancel_entries(s0, plan_id));
            assert forall|a: int, b: int|
                0 <= a < b < self.entries@.len() implies (#[trigger] self.entries@[a]).0 < (
            #[trigger] self.entries@[b]).0 by {
                assert(s0[a].0 < s0[b].0);
            }
            assert forall|a: int|
                0 <= a < self.entries@.len() implies (#[trigger] self.entries@[a]).1.uid_spec()
                == self.entries@[a].0 by {
                assert(self.entries@[a].1 == cancel_one(s0[a].1, plan_id));
            }
            lemma_sorted_implies_distinct_cash(s0);
            lemma_sorted_implies_distinct_cash(self.entries@);
            assert forall|k: u64| self@.contains_key(k) <==> seq_to_map_cash(s0).contains_key(
                k,
            ) by {
                crate::store::lemma_seq_to_map_dom(self.entries@, k);
                crate::store::lemma_seq_to_map_dom(s0, k);
                if crate::store::key_in_seq(s0, k) {
                    let j = choose|j: int| 0 <= j < s0.len() && (#[trigger] s0[j]).0 == k;
                    assert(self.entries@[j].0 == k);
                }
                if crate::store::key_in_seq(self.entries@, k) {
                    let j = choose|j: int|
                        0 <= j < self.entries@.len() && (#[trigger] self.entries@[j]).0 == k;
                    assert(s0[j].0 == k);
                }
            }
            assert forall|k: u64| seq_to_map_cash(s0).contains_key(k) implies self@[k]
                == cancel_one(seq_to_map_cash(s0)[k], plan_id) by {
                crate::store::lemma_seq_to_map_dom(s0, k);
                let j = choose|j: int| 0 <= j < s0.len() && (#[trigger] s0[j]).0 == k;
                crate::store::lemma_seq_to_map_index(s0, j);
                crate::store::lemma_seq_to_map_index(self.entries@, j);
                assert(self.entries@[j] == (s0[j].0, cancel_one(s0[j].1, plan_id)));
            }
        }
        count
    }
}

/// Distinctness of sorted cash entries (specialized helper).
proof fn lemma_sorted_implies_distinct_cash(s: Seq<(u64, Cash)>)
    requires
        crate::store::keys_sorted(s),
    ensures
        crate::store::keys_distinct(s),
{
}

/// The entry map of a cash entry sequence (specialized helper).
pub open spec fn seq_to_map_cash(s: Seq<(u64, Cash)>) -> Map<u64, Cash> {
    crate::store::seq_to_map(s)
}

} // verus!
