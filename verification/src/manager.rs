//! Unified entry point over the two collections: builders, updaters and
//! queries around the record stores, with identifier generators owned by
//! the manager (no process-wide state).
//!
//! Exclusive access is the type system's own reader/writer discipline: a
//! `&mut` method is the exclusive critical section, `&` methods are the
//! shared readers, and since verified code does not panic there is no
//! poisoned-guard state to recover from. Persistence is the caller's: the
//! manager exposes its collections and an auto-save preference, and the
//! surrounding I/O layer decides when to write snapshots.

use vstd::prelude::*;
use vstd::string::StrSliceExecFns;

use crate::cash::{Cash, CashDatabase, CashView, Installment};
use crate::database::Database;
use crate::error::Error;
use crate::ids::IdGen;
use crate::store::HasUid;
use crate::student::{
    lessons_for_class, Class, Student, StudentDatabase, StudentView, Subject,
};
use crate::text::msg;

verus! {

/// Does `needle` occur as a contiguous run inside `hay`?
pub open spec fn contains_seq(hay: Seq<char>, needle: Seq<char>) -> bool {
    exists|k: int|
        0 <= k && k + needle.len() <= hay.len() && #[trigger] hay.subrange(k, k + needle.len())
            == needle
}

/// Does `needle` match `hay` exactly at position `k`?
fn match_at(hay: &str, hn: usize, needle: &str, nn: usize, k: usize) -> (r: bool)
    requires
        hn == hay@.len(),
        nn == needle@.len(),
        k + nn <= hn,
    ensures
        r == (hay@.subrange(k as int, k + needle@.len()) == needle@),
{
    let mut j: usize = 0;
    while j < nn
        invariant
            0 <= j <= nn,
            hn == hay@.len(),
            nn == needle@.len(),
            k + nn <= hn,
            forall|m: int| 0 <= m < j ==> hay@[k + m] == needle@[m],
        decreases nn - j,
    {
        if hay.get_char(k + j) != needle.get_char(j) {
            proof {
                if hay@.subrange(k as int, k + needle@.len()) == needle@ {
                    assert(hay@.subrange(k as int, k + needle@.len())[j as int] == hay@[k + j]);
                }
            }
            return false;
        }
        j = j + 1;
    }
    proof {
        assert(hay@.subrange(k as int, k + needle@.len()) =~= needle@);
    }
    true
}

/// Naive substring search.
fn str_contains(hay: &str, needle: &str) -> (r: bool)
    ensures
        r == contains_seq(hay@, needle@),
{
    let hn = hay.unicode_len();
    let nn = needle.unicode_len();
    if nn == 0 {
        proof {
            assert(hay@.subrange(0, 0 + needle@.len() as int) =~= needle@);
        }
        return true;
    }
    if nn > hn {
        proof {
            if contains_seq(hay@, needle@) {
                let k = choose|k: int|
                    0 <= k && k + needle@.len() <= hay@.len() && #[trigger] hay@.subrange(
                        k,
                        k + needle@.len(),
                    ) == needle@;
            }
        }
        return false;
    }
    let mut k: usize = 0;
    while k <= hn - nn
        invariant
            0 <= k <= hn - nn + 1,
            1 <= nn <= hn,
            hn == hay@.len(),
            nn == needle@.len(),
            forall|m: int|
                0 <= m < k ==> #[trigger] hay@.subrange(m, m + needle@.len()) != needle@,
        decreases hn + 1 - nn - k,
    {
        if match_at(hay, hn, needle, nn, k) {
            return true;
        }
        k = k + 1;
    }
    proof {
        if contains_seq(hay@, needle@) {
            let m = choose|m: int|
                0 <= m && m + needle@.len() <= hay@.len() && #[trigger] hay@.subrange(
                    m,
                    m + needle@.len(),
                ) == needle@;
            assert(m < k);
        }
    }
    false
}

/// Builder for a person record.
pub struct StudentBuilder {
    pub name: String,
    pub age: u8,
    pub phone: Option<String>,
    pub class: Option<Class>,
    pub subject: Option<Subject>,
    pub lesson_left: Option<u32>,
    pub note: Option<String>,
    pub membership_start: Option<i64>,
    pub membership_end: Option<i64>,
}

impl StudentBuilder {
    /// The record this builder describes, under identifier `uid`.
    pub open spec fn built(self, uid: u64) -> StudentView {
        StudentView {
            uid,
            age: Some(self.age),
            name: self.name@,
            phone: match self.phone {
                Some(p) => p@,
                None => "未填写"@,
            },
            lesson_left: {
                let base = match self.class {
                    Some(c) => lessons_for_class(c),
                    None => None,
                };
                match self.lesson_left {
                    Some(l) => if base is Some {
                        Some(l)
                    } else {
                        None
                    },
                    None => base,
                }
            },
            class: match self.class {
                Some(c) => c,
                None => Class::Others,
            },
            subject: match self.subject {
                Some(s) => s,
                None => Subject::Others,
            },
            rings: Seq::empty(),
            note: match self.note {
                Some(n) => n@,
                None => Seq::empty(),
            },
            membership_start_date: self.membership_start,
            membership_end_date: self.membership_end,
        }
    }

    pub fn new(name: String, age: u8) -> (r: Self)
        ensures
            r.name == name,
            r.age == age,
            r.phone is None,
            r.class is None,
            r.subject is None,
            r.lesson_left is None,
            r.note is None,
            r.membership_start is None,
            r.membership_end is None,
    {
        StudentBuilder {
            name,
            age,
            phone: None,
            class: None,
            subject: None,
            lesson_left: None,
            note: None,
            membership_start: None,
            membership_end: None,
        }
    }

    pub fn phone(self, phone: String) -> (r: Self)
        ensures
            r == (StudentBuilder { phone: Some(phone), ..self }),
    {
        StudentBuilder { phone: Some(phone), ..self }
    }

    pub fn class(self, class: Class) -> (r: Self)
        ensures
            r == (StudentBuilder { class: Some(class), ..self }),
    {
        StudentBuilder { class: Some(class), ..self }
    }

    pub fn subject(self, subject: Subject) -> (r: Self)
        ensures
            r == (StudentBuilder { subject: Some(subject), ..self }),
    {
        StudentBuilder { subject: Some(subject), ..self }
    }

    pub fn lesson_left(self, lessons: u32) -> (r: Self)
        ensures
            r == (StudentBuilder { lesson_left: Some(lessons), ..self }),
    {
        StudentBuilder { lesson_left: Some(lessons), ..self }
    }

    pub fn note(self, note: String) -> (r: Self)
        ensures
            r == (StudentBuilder { note: Some(note), ..self }),
    {
        StudentBuilder { note: Some(note), ..self }
    }

    pub fn membership(self, start: i64, end: i64) -> (r: Self)
        ensures
            r == (StudentBuilder {
                membership_start: Some(start),
                membership_end: Some(end),
                ..self
            }),
    {
        StudentBuilder { membership_start: Some(start), membership_end: Some(end), ..self }
    }

    /// Build the record, minting its identifier.
    fn build(self, gen: &mut IdGen) -> (r: Student)
        requires
            old(gen).spec_next() < u64::MAX,
        ensures
            final(gen).spec_next() == old(gen).spec_next() + 1,
            r.uid == old(gen).spec_next(),
            r@ == self.built(old(gen).spec_next()),
    {
        let uid = gen.next();
        let phone = match self.phone {
            Some(p) => p,
            None => msg("未填写"),
        };
        let base: Option<u32> = match &self.class {
            Some(c) => match c {
                Class::TenTry => Some(10),
                _ => None,
            },
            None => None,
        };
        let lesson_left = match self.lesson_left {
            Some(l) => if base.is_some() {
                Some(l)
            } else {
                None
            },
            None => base,
        };
        let class = match self.class {
            Some(c) => c,
            None => Class::Others,
        };
        let subject = match self.subject {
            Some(s) => s,
            None => Subject::Others,
        };
        let note = match self.note {
            Some(n) => n,
            None => String::new(),
        };
        Student {
            uid,
            age: Some(self.age),
            name: self.name,
            phone,
            lesson_left,
            class,
            subject,
            rings: Vec::new(),
            note,
            membership_start_date: self.membership_start,
            membership_end_date: self.membership_end,
        }
    }
}

/// Builder for a transaction record.
pub struct CashBuilder {
    pub student_id: Option<u64>,
    pub amount: i64,
    pub note: Option<String>,
    pub installment: Option<Installment>,
}

impl CashBuilder {
    /// The record this builder describes, under identifier `uid`, with an
    /// unspecified creation time filled in by the caller.
    pub open spec fn built(self, uid: u64, created_at: i64) -> CashView {
        CashView {
            uid,
            student_id: self.student_id,
            cash: self.amount,
            note: match self.note {
                Some(n) => Some(n@),
                None => None,
            },
            installment: self.installment,
            created_at,
        }
    }

    pub fn new(amount: i64) -> (r: Self)
        ensures
            r.amount == amount,
            r.student_id is None,
            r.note is None,
            r.installment is None,
    {
        CashBuilder { student_id: None, amount, note: None, installment: None }
    }

    pub fn student_id(self, student_id: u64) -> (r: Self)
        ensures
            r == (CashBuilder { student_id: Some(student_id), ..self }),
    {
        CashBuilder { student_id: Some(student_id), ..self }
    }

    pub fn note(self, note: String) -> (r: Self)
        ensures
            r == (CashBuilder { note: Some(note), ..self }),
    {
        CashBuilder { note: Some(note), ..self }
    }

    pub fn installment(self, installment: Installment) -> (r: Self)
        ensures
            r == (CashBuilder { installment: Some(installment), ..self }),
    {
        CashBuilder { installment: Some(installment), ..self }
    }
}

/// One pending change to a person record.
pub enum StudentUpdate {
    Name(String),
    Age(Option<u8>),
    Phone(String),
    ClassIs(Class),
    SubjectIs(Subject),
    LessonLeft(Option<u32>),
    Note(String),
    AddRing(u64),
    SetRings(Vec<u64>),
    UpdateRingAt(usize, u64),
    RemoveRingAt(usize),
    Membership(Option<i64>, Option<i64>),
}

/// What one change does to the record's content; a positional score update
/// out of range is rejected.
pub open spec fn apply_student_update(v: StudentView, u: StudentUpdate) -> Option<StudentView> {
    match u {
        StudentUpdate::Name(n) => Some(StudentView { name: n@, ..v }),
        StudentUpdate::Age(a) => Some(StudentView { age: a, ..v }),
        StudentUpdate::Phone(p) => Some(StudentView { phone: p@, ..v }),
        StudentUpdate::ClassIs(c) => Some(
            StudentView { class: c, lesson_left: lessons_for_class(c), ..v },
        ),
        StudentUpdate::SubjectIs(s) => Some(StudentView { subject: s, ..v }),
        StudentUpdate::LessonLeft(o) => match o {
            Some(l) => Some(
                StudentView {
                    lesson_left: if v.lesson_left is Some {
                        Some(l)
                    } else {
                        None
                    },
                    ..v
                },
            ),
            None => Some(StudentView { lesson_left: None, ..v }),
        },
        StudentUpdate::Note(n) => Some(StudentView { note: n@, ..v }),
        StudentUpdate::AddRing(x) => Some(StudentView { rings: v.rings.push(x), ..v }),
        StudentUpdate::SetRings(rs) => Some(StudentView { rings: rs@, ..v }),
        StudentUpdate::UpdateRingAt(i, x) => if i < v.rings.len() {
            Some(StudentView { rings: v.rings.update(i as int, x), ..v })
        } else {
            None
        },
        StudentUpdate::RemoveRingAt(i) => if i < v.rings.len() {
            Some(StudentView { rings: v.rings.remove(i as int), ..v })
        } else {
            None
        },
        StudentUpdate::Membership(s, e) => Some(
            StudentView { membership_start_date: s, membership_end_date: e, ..v },
        ),
    }
}

/// Apply a whole list of changes, in order; any rejected change rejects
/// the lot.
pub open spec fn apply_student_updates(v: StudentView, us: Seq<StudentUpdate>) -> Option<
    StudentView,
>
    decreases us.len(),
{
    if us.len() == 0 {
        Some(v)
    } else {
        match apply_student_update(v, us[0]) {
            Some(v2) => apply_student_updates(v2, us.drop_first()),
            None => None,
        }
    }
}

/// A list of changes to apply to one person record, atomically: either
/// every change applies, or none does.
pub struct StudentUpdater {
    pub updates: Vec<StudentUpdate>,
}

impl StudentUpdater {
    pub fn new() -> (r: Self)
        ensures
            r.updates@ =~= Seq::<StudentUpdate>::empty(),
    {
        StudentUpdater { updates: Vec::new() }
    }

    pub fn name(self, name: String) -> (r: Self)
        ensures
            r.updates@ == self.updates@.push(StudentUpdate::Name(name)),
    {
        let mut s = self;
        s.updates.push(StudentUpdate::Name(name));
        s
    }

    pub fn age(self, age: u8) -> (r: Self)
        ensures
            r.updates@ == self.updates@.push(StudentUpdate::Age(Some(age))),
    {
        let mut s = self;
        s.updates.push(StudentUpdate::Age(Some(age)));
        s
    }

    pub fn phone(self, phone: String) -> (r: Self)
        ensures
            r.updates@ == self.updates@.push(StudentUpdate::Phone(phone)),
    {
        let mut s = self;
        s.updates.push(StudentUpdate::Phone(phone));
        s
    }

    pub fn class(self, class: Class) -> (r: Self)
        ensures
            r.updates@ == self.updates@.push(StudentUpdate::ClassIs(class)),
    {
        let mut s = self;
        s.updates.push(StudentUpdate::ClassIs(class));
        s
    }

    pub fn subject(self, subject: Subject) -> (r: Self)
        ensures
            r.updates@ == self.updates@.push(StudentUpdate::SubjectIs(subject)),
    {
        let mut s = self;
        s.updates.push(StudentUpdate::SubjectIs(subject));
        s
    }

    pub fn lesson_left(self, lessons: Option<u32>) -> (r: Self)
        ensures
            r.updates@ == self.updates@.push(StudentUpdate::LessonLeft(lessons)),
    {
        let mut s = self;
        s.updates.push(StudentUpdate::LessonLeft(lessons));
        s
    }

    pub fn note(self, note: String) -> (r: Self)
        ensures
            r.updates@ == self.updates@.push(StudentUpdate::Note(note)),
    {
        let mut s = self;
        s.updates.push(StudentUpdate::Note(note));
        s
    }

    pub fn add_ring(self, score: u64) -> (r: Self)
        ensures
            r.updates@ == self.updates@.push(StudentUpdate::AddRing(score)),
    {
        let mut s = self;
        s.updates.push(StudentUpdate::AddRing(score));
        s
    }

    pub fn set_rings(self, rings: Vec<u64>) -> (r: Self)
        ensures
            r.updates@ == self.updates@.push(StudentUpdate::SetRings(rings)),
    {
        let mut s = self;
        s.updates.push(StudentUpdate::SetRings(rings));
        s
    }

    pub fn update_ring_at(self, index: usize, value: u64) -> (r: Self)
        ensures
            r.updates@ == self.updates@.push(StudentUpdate::UpdateRingAt(index, value)),
    {
        let mut s = self;
        s.updates.push(StudentUpdate::UpdateRingAt(index, value));
        s
    }

    pub fn remove_ring_at(self, index: usize) -> (r: Self)
        ensures
            r.updates@ == self.updates@.push(StudentUpdate::RemoveRingAt(index)),
    {
        let mut s = self;
        s.updates.push(StudentUpdate::RemoveRingAt(index));
        s
    }

    pub fn membership(self, start: Option<i64>, end: Option<i64>) -> (r: Self)
        ensures
            r.updates@ == self.updates@.push(StudentUpdate::Membership(start, end)),
    {
        let mut s = self;
        s.updates.push(StudentUpdate::Membership(start, end));
        s
    }
}

/// Apply the updater's changes to a copy of the record; reports whether
/// all applied.
#[verifier::loop_isolation(false)]
fn apply_updates_exec(rec: &Student, updates: Vec<StudentUpdate>) -> (r: Option<Student>)
    ensures
        match r {
            Some(w) => apply_student_updates(rec@, updates@) == Some(w@),
            None => apply_student_updates(rec@, updates@) is None,
        },
{
    let ghost all = updates@;
    let ghost v0 = rec@;
    let mut cur = rec.duplicate();
    let mut updates = updates;
    while !updates.is_empty()
        invariant
            apply_student_updates(v0, all) == apply_student_updates(cur@, updates@),
        decreases updates@.len(),
    {
        let ghost before = updates@;
        let ghost cur0 = cur@;
        let u = updates.remove(0);
        let ghost u0 = u;
        proof {
            assert(updates@ =~= before.drop_first());
            assert(before[0] == u0);
        }
        match u {
            StudentUpdate::Name(n) => cur.set_name(n),
            StudentUpdate::Age(a) => cur.set_age(a),
            StudentUpdate::Phone(p) => cur.set_phone(p),
            StudentUpdate::ClassIs(c) => cur.set_class(c),
            StudentUpdate::SubjectIs(s) => cur.set_subject(s),
            StudentUpdate::LessonLeft(o) => match o {
                Some(l) => cur.set_lesson_left(l),
                None => cur.clear_lesson_left(),
            },
            StudentUpdate::Note(n) => cur.set_note(n),
            StudentUpdate::AddRing(x) => cur.add_ring(x),
            StudentUpdate::SetRings(rs) => cur.set_rings(rs),
            StudentUpdate::UpdateRingAt(i, x) => {
                match cur.update_ring_at(i, x) {
                    Ok(_) => {},
                    Err(_) => {
                        proof {
                            assert(apply_student_update(cur0, u0) is None);
                            assert(apply_student_updates(cur0, before) is None);
                            assert(apply_student_updates(v0, all) is None);
                        }
                        return None;
                    },
                }
            },
            StudentUpdate::RemoveRingAt(i) => {
                match cur.remove_ring_at(i) {
                    Ok(_) => {},
                    Err(_) => {
                        proof {
                            assert(apply_student_update(cur0, u0) is None);
                            assert(apply_student_updates(cur0, before) is None);
                            assert(apply_student_updates(v0, all) is None);
                        }
                        return None;
                    },
                }
            },
            StudentUpdate::Membership(s, e) => cur.set_membership_dates(s, e),
        }
        proof {
            assert(apply_student_update(cur0, u0) == Some(cur@));
            assert(apply_student_updates(cur0, before) == apply_student_updates(cur@, updates@));
        }
    }
    proof {
        assert(updates@.len() == 0);
    }
    Some(cur)
}

/// No update changes the record's identifier.
proof fn lemma_student_updates_keep_uid(v: StudentView, us: Seq<StudentUpdate>)
    ensures
        apply_student_updates(v, us) matches Some(v2) ==> v2.uid == v.uid,
    decreases us.len(),
{
    if us.len() > 0 {
        match apply_student_update(v, us[0]) {
            Some(v2) => {
                lemma_student_updates_keep_uid(v2, us.drop_first());
            },
            None => {},
        }
    }
}

/// One pending change to a transaction record.
pub enum CashUpdate {
    StudentId(Option<u64>),
    Amount(i64),
    Note(Option<String>),
    InstallmentIs(Option<Installment>),
}

/// What one change does to the record's content; a zero amount is
/// rejected.
pub open spec fn apply_cash_update(v: CashView, u: CashUpdate) -> Option<CashView> {
    match u {
        CashUpdate::StudentId(sid) => Some(CashView { student_id: sid, ..v }),
        CashUpdate::Amount(a) => if a == 0 {
            None
        } else {
            Some(CashView { cash: a, ..v })
        },
        CashUpdate::Note(n) => Some(
            CashView {
                note: match n {
                    Some(x) => Some(x@),
                    None => None,
                },
                ..v
            },
        ),
        CashUpdate::InstallmentIs(inst) => Some(CashView { installment: inst, ..v }),
    }
}

/// Apply a whole list of changes, in order.
pub open spec fn apply_cash_updates(v: CashView, us: Seq<CashUpdate>) -> Option<CashView>
    decreases us.len(),
{
    if us.len() == 0 {
        Some(v)
    } else {
        match apply_cash_update(v, us[0]) {
            Some(v2) => apply_cash_updates(v2, us.drop_first()),
            None => None,
        }
    }
}

/// A list of changes to apply to one transaction record, atomically.
pub struct CashUpdater {
    pub updates: Vec<CashUpdate>,
}

impl CashUpdater {
    pub fn new() -> (r: Self)
        ensures
            r.updates@ =~= Seq::<CashUpdate>::empty(),
    {
        CashUpdater { updates: Vec::new() }
    }

    pub fn student_id(self, student_id: Option<u64>) -> (r: Self)
        ensures
            r.updates@ == self.updates@.push(CashUpdate::StudentId(student_id)),
    {
        let mut s = self;
        s.updates.push(CashUpdate::StudentId(student_id));
        s
    }

    pub fn amount(self, amount: i64) -> (r: Self)
        ensures
            r.updates@ == self.updates@.push(CashUpdate::Amount(amount)),
    {
        let mut s = self;
        s.updates.push(CashUpdate::Amount(amount));
        s
    }

    pub fn note(self, note: Option<String>) -> (r: Self)
        ensures
            r.updates@ == self.updates@.push(CashUpdate::Note(note)),
    {
        let mut s = self;
        s.updates.push(CashUpdate::Note(note));
        s
    }

    pub fn installment(self, installment: Option<Installment>) -> (r: Self)
        ensures
            r.updates@ == self.updates@.push(CashUpdate::InstallmentIs(installment)),
    {
        let mut s = self;
        s.updates.push(CashUpdate::InstallmentIs(installment));
        s
    }
}

#[verifier::loop_isolation(false)]
fn apply_cash_updates_exec(rec: &Cash, updates: Vec<CashUpdate>) -> (r: Option<Cash>)
    ensures
        match r {
            Some(w) => apply_cash_updates(rec@, updates@) == Some(w@),
            None => apply_cash_updates(rec@, updates@) is None,
        },
{
    let ghost all = updates@;
    let ghost v0 = rec@;
    let mut cur = rec.duplicate();
    let mut updates = updates;
    while !updates.is_empty()
        invariant
            apply_cash_updates(v0, all) == apply_cash_updates(cur@, updates@),
        decreases updates@.len(),
    {
        let ghost before = updates@;
        let ghost cur0 = cur@;
        let u = updates.remove(0);
        let ghost u0 = u;
        proof {
            assert(updates@ =~= before.drop_first());
            assert(before[0] == u0);
        }
        match u {
            CashUpdate::StudentId(sid) => {
                cur.student_id = sid;
            },
            CashUpdate::Amount(a) => {
                if a == 0 {
                    proof {
                        assert(apply_cash_update(cur0, u0) is None);
                        assert(apply_cash_updates(cur0, before) is None);
                        assert(apply_cash_updates(v0, all) is None);
                    }
                    return None;
                }
                cur.set_cash(a);
            },
            CashUpdate::Note(n) => cur.set_note(n),
            CashUpdate::InstallmentIs(inst) => {
                cur.installment = inst;
            },
        }
        proof {
            assert(apply_cash_update(cur0, u0) == Some(cur@));
            assert(apply_cash_updates(cur0, before) == apply_cash_updates(cur@, updates@));
        }
    }
    proof {
        assert(updates@.len() == 0);
    }
    Some(cur)
}

/// No update changes the record's identifier.
proof fn lemma_cash_updates_keep_uid(v: CashView, us: Seq<CashUpdate>)
    ensures
        apply_cash_updates(v, us) matches Some(v2) ==> v2.uid == v.uid,
    decreases us.len(),
{
    if us.len() > 0 {
        match apply_cash_update(v, us[0]) {
            Some(v2) => {
                lemma_cash_updates_keep_uid(v2, us.drop_first());
            },
            None => {},
        }
    }
}

/// One condition a person query requires.
pub enum StudentFilter {
    Name(String),
    AgeRange(u8, u8),
    ClassIs(Class),
    SubjectIs(Subject),
    HasMembership(bool),
    MembershipActive(i64),
}

/// Does a record's content satisfy one filter?
pub open spec fn student_filter_matches(v: StudentView, f: StudentFilter) -> bool {
    match f {
        StudentFilter::Name(n) => contains_seq(v.name, n@),
        StudentFilter::AgeRange(lo, hi) => match v.age {
            Some(a) => lo <= a && a <= hi,
            None => false,
        },
        StudentFilter::ClassIs(c) => v.class == c,
        StudentFilter::SubjectIs(s) => v.subject == s,
        StudentFilter::HasMembership(h) => (v.membership_start_date is Some) == h,
        StudentFilter::MembershipActive(d) => match (v.membership_start_date, v.membership_end_date) {
            (Some(s), Some(e)) => s <= d && d <= e,
            _ => false,
        },
    }
}

/// Does a record's content satisfy every filter?
pub open spec fn student_matches(v: StudentView, fs: Seq<StudentFilter>) -> bool {
    forall|i: int| 0 <= i < fs.len() ==> student_filter_matches(v, #[trigger] fs[i])
}

/// Person query: all filters must hold.
pub struct StudentQuery {
    pub filters: Vec<StudentFilter>,
}

impl StudentQuery {
    pub fn new() -> (r: Self)
        ensures
            r.filters@ =~= Seq::<StudentFilter>::empty(),
    {
        StudentQuery { filters: Vec::new() }
    }

    pub fn name_contains(self, name: String) -> (r: Self)
        ensures
            r.filters@ == self.filters@.push(StudentFilter::Name(name)),
    {
        let mut s = self;
        s.filters.push(StudentFilter::Name(name));
        s
    }

    pub fn age_range(self, min: u8, max: u8) -> (r: Self)
        ensures
            r.filters@ == self.filters@.push(StudentFilter::AgeRange(min, max)),
    {
        let mut s = self;
        s.filters.push(StudentFilter::AgeRange(min, max));
        s
    }

    pub fn class(self, class: Class) -> (r: Self)
        ensures
            r.filters@ == self.filters@.push(StudentFilter::ClassIs(class)),
    {
        let mut s = self;
        s.filters.push(StudentFilter::ClassIs(class));
        s
    }

    pub fn subject(self, subject: Subject) -> (r: Self)
        ensures
            r.filters@ == self.filters@.push(StudentFilter::SubjectIs(subject)),
    {
        let mut s = self;
        s.filters.push(StudentFilter::SubjectIs(subject));
        s
    }

    pub fn has_membership(self, has: bool) -> (r: Self)
        ensures
            r.filters@ == self.filters@.push(StudentFilter::HasMembership(has)),
    {
        let mut s = self;
        s.filters.push(StudentFilter::HasMembership(has));
        s
    }

    pub fn membership_active_at(self, date: i64) -> (r: Self)
        ensures
            r.filters@ == self.filters@.push(StudentFilter::MembershipActive(date)),
    {
        let mut s = self;
        s.filters.push(StudentFilter::MembershipActive(date));
        s
    }
}

/// Does this record pass every filter of the query?
fn student_passes(s: &Student, q: &StudentQuery) -> (r: bool)
    ensures
        r == student_matches(s@, q.filters@),
{
    let n = q.filters.len();
    let mut i: usize = 0;
    while i < n
        invariant
            0 <= i <= n,
            n == q.filters@.len(),
            forall|m: int| 0 <= m < i ==> student_filter_matches(s@, #[trigger] q.filters@[m]),
        decreases n - i,
    {
        let ok = match &q.filters[i] {
            StudentFilter::Name(needle) => str_contains(s.name(), needle.as_str()),
            StudentFilter::AgeRange(lo, hi) => match s.age() {
                Some(a) => *lo <= a && a <= *hi,
                None => false,
            },
            StudentFilter::ClassIs(c) => *s.class() == *c,
            StudentFilter::SubjectIs(sub) => *s.subject() == *sub,
            StudentFilter::HasMembership(h) => s.membership_start_date().is_some() == *h,
            StudentFilter::MembershipActive(d) => match (
                s.membership_start_date(),
                s.membership_end_date(),
            ) {
                (Some(st), Some(e)) => st <= *d && *d <= e,
                _ => false,
            },
        };
        if !ok {
            return false;
        }
        i = i + 1;
    }
    true
}

/// The contents of the records that satisfy every filter, ascending by key.
pub open spec fn matching_students(s: Seq<(u64, Student)>, fs: Seq<StudentFilter>) -> Seq<
    StudentView,
>
    decreases s.len(),
{
    if s.len() == 0 {
        Seq::empty()
    } else {
        let front = matching_students(s.drop_last(), fs);
        if student_matches(s.last().1@, fs) {
            front.push(s.last().1@)
        } else {
            front
        }
    }
}

/// One condition a transaction query requires.
pub enum CashFilter {
    StudentId(u64),
    AmountRange(i64, i64),
    HasInstallment(bool),
    DateRange(i64, i64),
}

/// Does a record's content satisfy one filter?
pub open spec fn cash_filter_matches(v: CashView, f: CashFilter) -> bool {
    match f {
        CashFilter::StudentId(id) => v.student_id == Some(id),
        CashFilter::AmountRange(lo, hi) => lo <= v.cash && v.cash <= hi,
        CashFilter::HasInstallment(h) => (v.installment is Some) == h,
        CashFilter::DateRange(s, e) => s <= v.created_at && v.created_at <= e,
    }
}

/// Does a record's content satisfy every filter?
pub open spec fn cash_matches(v: CashView, fs: Seq<CashFilter>) -> bool {
    forall|i: int| 0 <= i < fs.len() ==> cash_filter_matches(v, #[trigger] fs[i])
}

/// Transaction query: all filters must hold.
pub struct CashQuery {
    pub filters: Vec<CashFilter>,
}

impl CashQuery {
    pub fn new() -> (r: Self)
        ensures
            r.filters@ =~= Seq::<CashFilter>::empty(),
    {
        CashQuery { filters: Vec::new() }
    }

    pub fn student_id(self, student_id: u64) -> (r: Self)
        ensures
            r.filters@ == self.filters@.push(CashFilter::StudentId(student_id)),
    {
        let mut s = self;
        s.filters.push(CashFilter::StudentId(student_id));
        s
    }

    pub fn amount_range(self, min: i64, max: i64) -> (r: Self)
        ensures
            r.filters@ == self.filters@.push(CashFilter::AmountRange(min, max)),
    {
        let mut s = self;
        s.filters.push(CashFilter::AmountRange(min, max));
        s
    }

    pub fn has_installment(self, has: bool) -> (r: Self)
        ensures
            r.filters@ == self.filters@.push(CashFilter::HasInstallment(has)),
    {
        let mut s = self;
        s.filters.push(CashFilter::HasInstallment(has));
        s
    }

    pub fn date_range(self, start: i64, end: i64) -> (r: Self)
        ensures
            r.filters@ == self.filters@.push(CashFilter::DateRange(start, end)),
    {
        let mut s = self;
        s.filters.push(CashFilter::DateRange(start, end));
        s
    }
}

/// Does this record pass every filter of the query?
fn cash_passes(c: &Cash, q: &CashQuery) -> (r: bool)
    ensures
        r == cash_matches(c@, q.filters@),
{
    let n = q.filters.len();
    let mut i: usize = 0;
    while i < n
        invariant
            0 <= i <= n,
            n == q.filters@.len(),
            forall|m: int| 0 <= m < i ==> cash_filter_matches(c@, #[trigger] q.filters@[m]),
        decreases n - i,
    {
        let ok = match &q.filters[i] {
            CashFilter::StudentId(id) => match c.student_id {
                Some(sid) => sid == *id,
                None => false,
            },
            CashFilter::AmountRange(lo, hi) => *lo <= c.cash && c.cash <= *hi,
            CashFilter::HasInstallment(h) => c.installment.is_some() == *h,
            CashFilter::DateRange(s, e) => *s <= c.created_at && c.created_at <= *e,
        };
        if !ok {
            return false;
        }
        i = i + 1;
    }
    true
}

/// The contents of the records that satisfy every filter, ascending by key.
pub open spec fn matching_cash(s: Seq<(u64, Cash)>, fs: Seq<CashFilter>) -> Seq<CashView>
    decreases s.len(),
{
    if s.len() == 0 {
        Seq::empty()
    } else {
        let front = matching_cash(s.drop_last(), fs);
        if cash_matches(s.last().1@, fs) {
            front.push(s.last().1@)
        } else {
            front
        }
    }
}

/// Financial summary over a time window.
pub struct FinancialStats {
    /// Sum of the positive amounts in the window.
    pub total_income: i64,
    /// Sum of the absolute values of the non-positive amounts.
    pub total_expense: i64,
    /// Income minus expense.
    pub net_income: i64,
    /// Number of records in the window.
    pub transaction_count: usize,
    /// Number of those carrying plan metadata.
    pub installment_count: usize,
}

/// Is the record's creation time within the window?
pub open spec fn in_window(v: CashView, start: i64, end: i64) -> bool {
    start <= v.created_at && v.created_at <= end
}

/// Sum of positive amounts in the window.
pub open spec fn income_sum(s: Seq<(u64, Cash)>, start: i64, end: i64) -> int
    decreases s.len(),
{
    if s.len() == 0 {
        0
    } else {
        income_sum(s.drop_last(), start, end) + if in_window(s.last().1@, start, end)
            && s.last().1.cash > 0 {
            s.last().1.cash as int
        } else {
            0
        }
    }
}

/// Sum of the absolute values of non-positive amounts in the window.
pub open spec fn expense_sum(s: Seq<(u64, Cash)>, start: i64, end: i64) -> int
    decreases s.len(),
{
    if s.len() == 0 {
        0
    } else {
        expense_sum(s.drop_last(), start, end) + if in_window(s.last().1@, start, end) && s.last().1.cash
            <= 0 {
            -(s.last().1.cash as int)
        } else {
            0
        }
    }
}

/// Number of records in the window.
pub open spec fn window_count(s: Seq<(u64, Cash)>, start: i64, end: i64) -> int
    decreases s.len(),
{
    if s.len() == 0 {
        0
    } else {
        window_count(s.drop_last(), start, end) + if in_window(s.last().1@, start, end) {
            1int
        } else {
            0
        }
    }
}

/// Number of installment periods in the window.
pub open spec fn window_installment_count(s: Seq<(u64, Cash)>, start: i64, end: i64) -> int
    decreases s.len(),
{
    if s.len() == 0 {
        0
    } else {
        window_installment_count(s.drop_last(), start, end) + if in_window(s.last().1@, start, end)
            && s.last().1.installment is Some {
            1int
        } else {
            0
        }
    }
}

impl FinancialStats {
    /// Totals over all records created in `[start, end]`; positive amounts
    /// count as income, the rest as expense by absolute value.
    pub fn calculate(db: &CashDatabase, start: i64, end: i64) -> (r: FinancialStats)
        requires
            db.wf(),
            income_sum(db.entries_seq(), start, end) <= i64::MAX,
            expense_sum(db.entries_seq(), start, end) <= i64::MAX,
            i64::MIN <= income_sum(db.entries_seq(), start, end) - expense_sum(
                db.entries_seq(),
                start,
                end,
            ),
        ensures
            r.total_income == income_sum(db.entries_seq(), start, end),
            r.total_expense == expense_sum(db.entries_seq(), start, end),
            r.net_income == income_sum(db.entries_seq(), start, end) - expense_sum(
                db.entries_seq(),
                start,
                end,
            ),
            r.transaction_count == window_count(db.entries_seq(), start, end),
            r.installment_count == window_installment_count(db.entries_seq(), start, end),
    {
        let ghost s0 = db.entries_seq();
        let n = db.entries.len();
        let mut income: i128 = 0;
        let mut expense: i128 = 0;
        let mut txc: usize = 0;
        let mut instc: usize = 0;
        let mut i: usize = 0;
        proof {
            lemma_window_sums_nonneg(s0, start, end);
        }
        while i < n
            invariant
                0 <= i <= n,
                n == s0.len(),
                s0 == db.entries_seq(),
                income == income_sum(s0.subrange(0, i as int), start, end),
                expense == expense_sum(s0.subrange(0, i as int), start, end),
                txc == window_count(s0.subrange(0, i as int), start, end),
                instc == window_installment_count(s0.subrange(0, i as int), start, end),
                0 <= income <= i64::MAX,
                0 <= expense <= i64::MAX,
                txc <= i,
                instc <= i,
                income_sum(s0, start, end) <= i64::MAX,
                expense_sum(s0, start, end) <= i64::MAX,
                forall|m: int|
                    0 <= m <= s0.len() ==> #[trigger] income_sum(s0.subrange(0, m), start, end)
                        <= income_sum(s0, start, end),
                forall|m: int|
                    0 <= m <= s0.len() ==> #[trigger] expense_sum(s0.subrange(0, m), start, end)
                        <= expense_sum(s0, start, end),
            decreases n - i,
        {
            proof {
                assert(s0.subrange(0, i + 1).drop_last() =~= s0.subrange(0, i as int));
                assert(s0.subrange(0, i + 1).last() == s0[i as int]);
                lemma_window_sums_nonneg(s0.subrange(0, i + 1), start, end);
            }
            let c = &db.entries[i].1;
            if start <= c.created_at && c.created_at <= end {
                if c.cash > 0 {
                    income = income + (c.cash as i128);
                } else {
                    expense = expense + (-(c.cash as i128));
                }
                txc = txc + 1;
                if c.installment.is_some() {
                    instc = instc + 1;
                }
            }
            i = i + 1;
        }
        proof {
            assert(s0.subrange(0, n as int) =~= s0);
        }
        let total_income: i64 = income as i64;
        let total_expense: i64 = expense as i64;
        FinancialStats {
            total_income,
            total_expense,
            net_income: total_income - total_expense,
            transaction_count: txc,
            installment_count: instc,
        }
    }
}

/// The unified entry point: both collections, their identifier generators,
/// and the caller's auto-save preference.
pub struct QmxManager {
    /// The two collections.
    pub database: Database,
    /// Identifier source for person records.
    pub student_gen: IdGen,
    /// Identifier source for transaction records.
    pub cash_gen: IdGen,
    /// Whether the surrounding persistence layer should save after every
    /// mutation.
    pub auto_save: bool,
}

impl QmxManager {
    /// Well-formed: both stores are, and every stored identifier lies below
    /// its generator's next value, so fresh records never collide.
    pub open spec fn wf(&self) -> bool {
        &&& self.database.student.wf()
        &&& self.database.cash.wf()
        &&& forall|k: u64|
            self.database.student@.contains_key(k) ==> k < self.student_gen.spec_next()
        &&& forall|k: u64| self.database.cash@.contains_key(k) ==> k < self.cash_gen.spec_next()
    }

    /// Assemble a manager around loaded collections. Each identifier
    /// generator starts from its persisted seed, reconciled against the
    /// highest identifier actually present in the loaded store, which
    /// closes the reissue gap when a counter file lags behind its
    /// collection.
    pub fn new(database: Database, student_seed: u64, cash_seed: u64, auto_save: bool) -> (r:
        QmxManager)
        requires
            database.student.wf(),
            database.cash.wf(),
            database.student.entries_seq().len() > 0 ==> database.student.entries_seq().last().0
                < u64::MAX,
            database.cash.entries_seq().len() > 0 ==> database.cash.entries_seq().last().0
                < u64::MAX,
        ensures
            r.wf(),
            r.database == database,
            r.auto_save == auto_save,
            r.student_gen.spec_next() >= student_seed,
            r.cash_gen.spec_next() >= cash_seed,
    {
        let smax = match database.student.max_uid() {
            Some(m) => m,
            None => 0,
        };
        let cmax = match database.cash.max_uid() {
            Some(m) => m,
            None => 0,
        };
        let student_gen = IdGen::reconciled(student_seed, smax);
        let cash_gen = IdGen::reconciled(cash_seed, cmax);
        QmxManager { database, student_gen, cash_gen, auto_save }
    }

    /// Create a person record from a builder; returns its identifier.
    pub fn create_student(&mut self, builder: StudentBuilder) -> (r: u64)
        requires
            old(self).wf(),
            old(self).student_gen.spec_next() < u64::MAX,
        ensures
            final(self).wf(),
            r == old(self).student_gen.spec_next(),
            final(self).student_gen.spec_next() == old(self).student_gen.spec_next() + 1,
            final(self).database.student@.contains_key(r),
            final(self).database.student@[r]@ == builder.built(r),
            final(self).database.student@ =~= old(self).database.student@.insert(
                r,
                final(self).database.student@[r],
            ),
            final(self).database.cash == old(self).database.cash,
            final(self).cash_gen == old(self).cash_gen,
            final(self).auto_save == old(self).auto_save,
    {
        let rec = builder.build(&mut self.student_gen);
        let uid = rec.uid();
        self.database.student.insert(rec);
        uid
    }

    /// A copy of the person record under `uid`, if present.
    pub fn get_student(&self, uid: u64) -> (r: Option<Student>)
        requires
            self.wf(),
        ensures
            match r {
                Some(s) => self.database.student@.contains_key(uid) && s@
                    == self.database.student@[uid]@,
                None => !self.database.student@.contains_key(uid),
            },
    {
        match self.database.student.get(&uid) {
            Some(s) => Some(s.duplicate()),
            None => None,
        }
    }

    /// Apply an updater to the person record under `uid`, atomically:
    /// either every change applies, or the record is left untouched.
    pub fn update_student(&mut self, uid: u64, updater: StudentUpdater) -> (r: Result<(), Error>)
        requires
            old(self).wf(),
        ensures
            final(self).wf(),
            final(self).database.cash == old(self).database.cash,
            final(self).student_gen == old(self).student_gen,
            final(self).cash_gen == old(self).cash_gen,
            final(self).auto_save == old(self).auto_save,
            if !old(self).database.student@.contains_key(uid) {
                &&& r matches Err(e) && e is NotFound
                &&& final(self).database.student == old(self).database.student
            } else {
                match apply_student_updates(
                    old(self).database.student@[uid]@,
                    updater.updates@,
                ) {
                    Some(v2) => {
                        &&& r is Ok
                        &&& final(self).database.student@.contains_key(uid)
                        &&& final(self).database.student@[uid]@ == v2
                        &&& final(self).database.student@ =~= old(self).database.student@.insert(
                            uid,
                            final(self).database.student@[uid],
                        )
                    },
                    None => {
                        &&& r matches Err(e) && e is InvalidInput
                        &&& final(self).database.student == old(self).database.student
                    },
                }
            },
    {
        let rec = match self.database.student.get(&uid) {
            Some(s) => s,
            None => {
                return Err(Error::NotFound(msg("no such person record")));
            },
        };
        match apply_updates_exec(rec, updater.updates) {
            Some(w) => {
                proof {
                    old(self).database.student.lemma_value_uid(uid);
                    lemma_student_updates_keep_uid(
                        old(self).database.student@[uid]@,
                        updater.updates@,
                    );
                    assert(w.uid_spec() == uid);
                }
                self.database.student.insert(w);
                Ok(())
            },
            None => Err(Error::InvalidInput(msg("score position out of range"))),
        }
    }

    /// Remove the person record under `uid`; reports whether one existed.
    pub fn delete_student(&mut self, uid: u64) -> (r: bool)
        requires
            old(self).wf(),
        ensures
            final(self).wf(),
            final(self).database.student@ =~= old(self).database.student@.remove(uid),
            r == old(self).database.student@.contains_key(uid),
            final(self).database.cash == old(self).database.cash,
            final(self).student_gen == old(self).student_gen,
            final(self).cash_gen == old(self).cash_gen,
            final(self).auto_save == old(self).auto_save,
    {
        self.database.student.remove(&uid).is_some()
    }

    /// Copies of all person records, ascending by identifier.
    pub fn list_students(&self) -> (r: Vec<Student>)
        requires
            self.wf(),
        ensures
            r@.len() == self.database.student.entries_seq().len(),
            forall|i: int|
                0 <= i < r@.len() ==> (#[trigger] r@[i])@
                    == self.database.student.entries_seq()[i].1@,
    {
        let ghost s0 = self.database.student.entries_seq();
        let n = self.database.student.entries.len();
        let mut out: Vec<Student> = Vec::new();
        let mut i: usize = 0;
        while i < n
            invariant
                0 <= i <= n,
                n == s0.len(),
                s0 == self.database.student.entries_seq(),
                out@.len() == i,
                forall|m: int| 0 <= m < i ==> (#[trigger] out@[m])@ == s0[m].1@,
            decreases n - i,
        {
            out.push(self.database.student.entries[i].1.duplicate());
            i = i + 1;
        }
        out
    }

    /// Copies of the person records matching every filter of the query,
    /// ascending by identifier.
    pub fn search_students(&self, query: StudentQuery) -> (r: Vec<Student>)
        requires
            self.wf(),
        ensures
            ({
                let f = matching_students(self.database.student.entries_seq(), query.filters@);
                &&& r@.len() == f.len()
                &&& forall|i: int| 0 <= i < f.len() ==> (#[trigger] r@[i])@ == f[i]
            }),
    {
        let ghost s0 = self.database.student.entries_seq();
        let n = self.database.student.entries.len();
        let mut out: Vec<Student> = Vec::new();
        let mut i: usize = 0;
        proof {
            assert(s0.subrange(0, 0) =~= Seq::<(u64, Student)>::empty());
        }
        while i < n
            invariant
                0 <= i <= n,
                n == s0.len(),
                s0 == self.database.student.entries_seq(),
                out@.len() == matching_students(s0.subrange(0, i as int), query.filters@).len(),
                forall|m: int|
                    0 <= m < out@.len() ==> (#[trigger] out@[m])@ == matching_students(
                        s0.subrange(0, i as int),
                        query.filters@,
                    )[m],
            decreases n - i,
        {
            proof {
                assert(s0.subrange(0, i + 1).drop_last() =~= s0.subrange(0, i as int));
                assert(s0.subrange(0, i + 1).last() == s0[i as int]);
            }
            if student_passes(&self.database.student.entries[i].1, &query) {
                out.push(self.database.student.entries[i].1.duplicate());
            }
            i = i + 1;
        }
        proof {
            assert(s0.subrange(0, n as int) =~= s0);
        }
        out
    }

    /// Record a transaction from a builder; returns its identifier. A zero
    /// amount is rejected by policy, with nothing recorded.
    pub fn record_cash(&mut self, builder: CashBuilder) -> (r: Result<u64, Error>)
        requires
            old(self).wf(),
            old(self).cash_gen.spec_next() < u64::MAX,
        ensures
            final(self).wf(),
            final(self).database.student == old(self).database.student,
            final(self).student_gen == old(self).student_gen,
            final(self).auto_save == old(self).auto_save,
            builder.amount == 0 <==> (r matches Err(e) && e is InvalidInput),
            builder.amount == 0 ==> *final(self) == *old(self),
            builder.amount != 0 ==> ({
                &&& r matches Ok(uid) && uid == old(self).cash_gen.spec_next()
                &&& final(self).cash_gen.spec_next() == old(self).cash_gen.spec_next() + 1
                &&& final(self).database.cash@.contains_key(old(self).cash_gen.spec_next())
                &&& ({
                    let c = final(self).database.cash@[old(self).cash_gen.spec_next()];
                    &&& c@ == builder.built(old(self).cash_gen.spec_next(), c.created_at)
                    &&& final(self).database.cash@ =~= old(self).database.cash@.insert(
                        old(self).cash_gen.spec_next(),
                        c,
                    )
                })
            }),
    {
        if builder.amount == 0 {
            return Err(Error::InvalidInput(msg("amount cannot be zero")));
        }
        let uid = self.cash_gen.next();
        let rec = Cash {
            uid,
            student_id: builder.student_id,
            cash: builder.amount,
            note: builder.note,
            installment: builder.installment,
            created_at: crate::clock::now_millis(),
        };
        self.database.cash.insert(rec);
        Ok(uid)
    }

    /// A copy of the transaction record under `uid`, if present.
    pub fn get_cash(&self, uid: u64) -> (r: Option<Cash>)
        requires
            self.wf(),
        ensures
            match r {
                Some(c) => self.database.cash@.contains_key(uid) && c
                    == self.database.cash@[uid],
                None => !self.database.cash@.contains_key(uid),
            },
    {
        match self.database.cash.get(&uid) {
            Some(c) => Some(c.duplicate()),
            None => None,
        }
    }

    /// Apply an updater to the transaction record under `uid`, atomically.
    pub fn update_cash(&mut self, uid: u64, updater: CashUpdater) -> (r: Result<(), Error>)
        requires
            old(self).wf(),
        ensures
            final(self).wf(),
            final(self).database.student == old(self).database.student,
            final(self).student_gen == old(self).student_gen,
            final(self).cash_gen == old(self).cash_gen,
            final(self).auto_save == old(self).auto_save,
            if !old(self).database.cash@.contains_key(uid) {
                &&& r matches Err(e) && e is NotFound
                &&& final(self).database.cash == old(self).database.cash
            } else {
                match apply_cash_updates(old(self).database.cash@[uid]@, updater.updates@) {
                    Some(v2) => {
                        &&& r is Ok
                        &&& final(self).database.cash@.contains_key(uid)
                        &&& final(self).database.cash@[uid]@ == v2
                        &&& final(self).database.cash@ =~= old(self).database.cash@.insert(
                            uid,
                            final(self).database.cash@[uid],
                        )
                    },
                    None => {
                        &&& r matches Err(e) && e is InvalidInput
                        &&& final(self).database.cash == old(self).database.cash
                    },
                }
            },
    {
        let rec = match self.database.cash.get(&uid) {
            Some(c) => c,
            None => {
                return Err(Error::NotFound(msg("no such transaction record")));
            },
        };
        match apply_cash_updates_exec(rec, updater.updates) {
            Some(w) => {
                proof {
                    old(self).database.cash.lemma_value_uid(uid);
                    lemma_cash_updates_keep_uid(old(self).database.cash@[uid]@, updater.updates@);
                    assert(w.uid_spec() == uid);
                }
                self.database.cash.insert(w);
                Ok(())
            },
            None => Err(Error::InvalidInput(msg("amount cannot be zero"))),
        }
    }

    /// Remove the transaction record under `uid`; reports whether one
    /// existed.
    pub fn delete_cash(&mut self, uid: u64) -> (r: bool)
        requires
            old(self).wf(),
        ensures
            final(self).wf(),
            final(self).database.cash@ =~= old(self).database.cash@.remove(uid),
            r == old(self).database.cash@.contains_key(uid),
            final(self).database.student == old(self).database.student,
            final(self).student_gen == old(self).student_gen,
            final(self).cash_gen == old(self).cash_gen,
            final(self).auto_save == old(self).auto_save,
    {
        self.database.cash.remove(&uid).is_some()
    }

    /// Copies of the transaction records matching every filter, ascending
    /// by identifier.
    pub fn search_cash(&self, query: CashQuery) -> (r: Vec<Cash>)
        requires
            self.wf(),
        ensures
            ({
                let f = matching_cash(self.database.cash.entries_seq(), query.filters@);
                &&& r@.len() == f.len()
                &&& forall|i: int| 0 <= i < f.len() ==> (#[trigger] r@[i])@ == f[i]
            }),
    {
        let ghost s0 = self.database.cash.entries_seq();
        let n = self.database.cash.entries.len();
        let mut out: Vec<Cash> = Vec::new();
        let mut i: usize = 0;
        proof {
            assert(s0.subrange(0, 0) =~= Seq::<(u64, Cash)>::empty());
        }
        while i < n
            invariant
                0 <= i <= n,
                n == s0.len(),
                s0 == self.database.cash.entries_seq(),
                out@.len() == matching_cash(s0.subrange(0, i as int), query.filters@).len(),
                forall|m: int|
                    0 <= m < out@.len() ==> (#[trigger] out@[m])@ == matching_cash(
                        s0.subrange(0, i as int),
                        query.filters@,
                    )[m],
            decreases n - i,
        {
            proof {
                assert(s0.subrange(0, i + 1).drop_last() =~= s0.subrange(0, i as int));
                assert(s0.subrange(0, i + 1).last() == s0[i as int]);
            }
            if cash_passes(&self.database.cash.entries[i].1, &query) {
                out.push(self.database.cash.entries[i].1.duplicate());
            }
            i = i + 1;
        }
        proof {
            assert(s0.subrange(0, n as int) =~= s0);
        }
        out
    }

    /// Copies of the transaction records owned by one person, ascending by
    /// identifier.
    pub fn get_student_cash(&self, student_id: u64) -> (r: Vec<Cash>)
        requires
            self.wf(),
        ensures
            ({
                let f = matching_cash(
                    self.database.cash.entries_seq(),
                    seq![CashFilter::StudentId(student_id)],
                );
                &&& r@.len() == f.len()
                &&& forall|i: int| 0 <= i < f.len() ==> (#[trigger] r@[i])@ == f[i]
            }),
    {
        let mut filters: Vec<CashFilter> = Vec::new();
        filters.push(CashFilter::StudentId(student_id));
        let q = CashQuery { filters };
        proof {
            assert(q.filters@ =~= seq![CashFilter::StudentId(student_id)]);
        }
        self.search_cash(q)
    }

    /// Financial summary over the records created in `[start, end]`.
    pub fn get_financial_stats(&self, start: i64, end: i64) -> (r: FinancialStats)
        requires
            self.wf(),
            income_sum(self.database.cash.entries_seq(), start, end) <= i64::MAX,
            expense_sum(self.database.cash.entries_seq(), start, end) <= i64::MAX,
            i64::MIN <= income_sum(self.database.cash.entries_seq(), start, end) - expense_sum(
                self.database.cash.entries_seq(),
                start,
                end,
            ),
        ensures
            r.total_income == income_sum(self.database.cash.entries_seq(), start, end),
            r.total_expense == expense_sum(self.database.cash.entries_seq(), start, end),
            r.net_income == r.total_income - r.total_expense,
            r.transaction_count == window_count(self.database.cash.entries_seq(), start, end),
            r.installment_count == window_installment_count(
                self.database.cash.entries_seq(),
                start,
                end,
            ),
    {
        FinancialStats::calculate(&self.database.cash, start, end)
    }
}

/// The window sums are never negative, and a prefix's sum never exceeds
/// the whole sequence's.
proof fn lemma_window_sums_nonneg(s: Seq<(u64, Cash)>, start: i64, end: i64)
    ensures
        0 <= income_sum(s, start, end),
        0 <= expense_sum(s, start, end),
        forall|i: int|
            0 <= i <= s.len() ==> #[trigger] income_sum(s.subrange(0, i), start, end) <= income_sum(
                s,
                start,
                end,
            ),
        forall|i: int|
            0 <= i <= s.len() ==> #[trigger] expense_sum(s.subrange(0, i), start, end)
                <= expense_sum(s, start, end),
    decreases s.len(),
{
    if s.len() == 0 {
        assert forall|i: int|
            0 <= i <= s.len() implies #[trigger] income_sum(s.subrange(0, i), start, end)
            <= income_sum(s, start, end) by {
            assert(s.subrange(0, i) =~= s);
        }
        assert forall|i: int|
            0 <= i <= s.len() implies #[trigger] expense_sum(s.subrange(0, i), start, end)
            <= expense_sum(s, start, end) by {
            assert(s.subrange(0, i) =~= s);
        }
    } else {
        lemma_window_sums_nonneg(s.drop_last(), start, end);
        assert forall|i: int|
            0 <= i <= s.len() implies #[trigger] income_sum(s.subrange(0, i), start, end)
            <= income_sum(s, start, end) by {
            if i < s.len() {
                assert(s.subrange(0, i) =~= s.drop_last().subrange(0, i));
            } else {
                assert(s.subrange(0, i) =~= s);
            }
        }
        assert forall|i: int|
            0 <= i <= s.len() implies #[trigger] expense_sum(s.subrange(0, i), start, end)
            <= expense_sum(s, start, end) by {
            if i < s.len() {
                assert(s.subrange(0, i) =~= s.drop_last().subrange(0, i));
            } else {
                assert(s.subrange(0, i) =~= s);
            }
        }
    }
}

} // verus!
