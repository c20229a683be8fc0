//! Person records: demographic and progress fields, plain data with no
//! engine logic of their own.
//!
//! Scores ("rings") are stored as opaque 64-bit encodings supplied by the
//! caller (the IEEE-754 bit pattern of the score, for callers that measure
//! in floating point); the library never interprets them, only keeps their
//! order and positions. Timestamps are Unix milliseconds.

use vstd::prelude::*;

use crate::clock::now_millis;
use crate::error::Error;
use crate::ids::IdGen;
use crate::store::{HasUid, RecordStore};
use crate::text::msg;

verus! {

/// Class category, a closed set with a catch-all.
#[derive(Clone, Copy, Debug, PartialEq, Eq, Structural)]
pub enum Class {
    TenTry,
    Month,
    Year,
    Others,
}

/// Subject category, a closed set with a catch-all.
#[derive(Clone, Copy, Debug, PartialEq, Eq, Structural)]
pub enum Subject {
    Shooting,
    Archery,
    Others,
}

/// The abstract content of a person record: the same fields, with text and
/// scores as mathematical sequences.
pub ghost struct StudentView {
    pub uid: u64,
    pub age: Option<u8>,
    pub name: Seq<char>,
    pub phone: Seq<char>,
    pub lesson_left: Option<u32>,
    pub class: Class,
    pub subject: Subject,
    pub rings: Seq<u64>,
    pub note: Seq<char>,
    pub membership_start_date: Option<i64>,
    pub membership_end_date: Option<i64>,
}

/// A person record.
#[derive(Clone, Debug, PartialEq)]
pub struct Student {
    pub uid: u64,
    pub age: Option<u8>,
    pub name: String,
    pub phone: String,
    pub lesson_left: Option<u32>,
    pub class: Class,
    pub subject: Subject,
    pub rings: Vec<u64>,
    pub note: String,
    pub membership_start_date: Option<i64>,
    pub membership_end_date: Option<i64>,
}

/// The lesson count that entering a class grants: the trial class starts
/// with ten lessons, every other class tracks none.
pub open spec fn lessons_for_class(class: Class) -> Option<u32> {
    match class {
        Class::TenTry => Some(10u32),
        _ => None,
    }
}

/// Whether a membership with these bounds is active at time `now`.
pub open spec fn membership_active_at(start: Option<i64>, end: Option<i64>, now: i64) -> bool {
    match (start, end) {
        (Some(s), Some(e)) => s <= now && now <= e,
        (Some(s), None) => now >= s,
        (None, Some(e)) => now <= e,
        (None, None) => false,
    }
}

impl Student {
    /// A fresh person record, identified by the next identifier of `gen`,
    /// with placeholder name and phone, no scores and no membership.
    pub fn new(gen: &mut IdGen) -> (r: Student)
        requires
            old(gen).spec_next() < u64::MAX,
        ensures
            final(gen).spec_next() == old(gen).spec_next() + 1,
            r.uid == old(gen).spec_next(),
            r.age is None,
            r.name@ == "未填写"@,
            r.phone@ == "未填写"@,
            r.lesson_left is None,
            r.class == Class::Others,
            r.subject == Subject::Others,
            r.rings@ =~= Seq::<u64>::empty(),
            r.note@.len() == 0,
            r.membership_start_date is None,
            r.membership_end_date is None,
    {
        let uid = gen.next();
        Student {
            uid,
            age: None,
            name: msg("未填写"),
            phone: msg("未填写"),
            lesson_left: None,
            class: Class::Others,
            subject: Subject::Others,
            rings: Vec::new(),
            note: String::new(),
            membership_start_date: None,
            membership_end_date: None,
        }
    }

    /// Set or clear the age.
    pub fn set_age(&mut self, age: Option<u8>)
        ensures
            *final(self) == (Student { age, ..*old(self) }),
    {
        self.age = age;
    }

    /// Set the name.
    pub fn set_name(&mut self, name: String)
        ensures
            *final(self) == (Student { name, ..*old(self) }),
    {
        self.name = name;
    }

    /// Set the phone number; no format is enforced.
    pub fn set_phone(&mut self, phone: String)
        ensures
            *final(self) == (Student { phone, ..*old(self) }),
    {
        self.phone = phone;
    }

    /// Set the class and reset the remaining-lesson count to what the class
    /// grants.
    pub fn set_class(&mut self, class: Class)
        ensures
            *final(self) == (Student {
                class,
                lesson_left: lessons_for_class(class),
                ..*old(self)
            }),
    {
        self.lesson_left = match class {
            Class::TenTry => Some(10),
            _ => None,
        };
        self.class = class;
    }

    /// Set the class, initializing the remaining-lesson count; a synonym of
    /// `set_class` kept for callers of the newer interface.
    pub fn set_class_with_lesson_init(&mut self, class: Class)
        ensures
            *final(self) == (Student {
                class,
                lesson_left: lessons_for_class(class),
                ..*old(self)
            }),
    {
        self.set_class(class);
    }

    /// Set the remaining-lesson count; a no-op for a class that tracks none.
    pub fn set_lesson_left(&mut self, lesson: u32)
        ensures
            *final(self) == (Student {
                lesson_left: if old(self).lesson_left is Some {
                    Some(lesson)
                } else {
                    None
                },
                ..*old(self)
            }),
    {
        if self.lesson_left.is_some() {
            self.lesson_left = Some(lesson);
        }
    }

    /// Clear the remaining-lesson count.
    pub fn clear_lesson_left(&mut self)
        ensures
            *final(self) == (Student { lesson_left: None, ..*old(self) }),
    {
        self.lesson_left = None;
    }

    /// Set the subject.
    pub fn set_subject(&mut self, subject: Subject)
        ensures
            *final(self) == (Student { subject, ..*old(self) }),
    {
        self.subject = subject;
    }

    /// Append a score.
    pub fn add_ring(&mut self, ring: u64)
        ensures
            *final(self) == (Student { rings: final(self).rings, ..*old(self) }),
            final(self).rings@ == old(self).rings@.push(ring),
    {
        self.rings.push(ring);
    }

    /// Replace the whole score sequence.
    pub fn set_rings(&mut self, rings: Vec<u64>)
        ensures
            *final(self) == (Student { rings, ..*old(self) }),
    {
        self.rings = rings;
    }

    /// Overwrite the score at a position; a position out of range is
    /// rejected.
    pub fn update_ring_at(&mut self, index: usize, value: u64) -> (r: Result<(), Error>)
        ensures
            if index < old(self).rings@.len() {
                &&& r is Ok
                &&& *final(self) == (Student { rings: final(self).rings, ..*old(self) })
                &&& final(self).rings@ == old(self).rings@.update(index as int, value)
            } else {
                &&& r matches Err(e) && e is InvalidInput
                &&& *final(self) == *old(self)
            },
    {
        if index < self.rings.len() {
            let ghost r0 = self.rings@;
            self.rings.remove(index);
            self.rings.insert(index, value);
            proof {
                assert(self.rings@ =~= r0.update(index as int, value));
            }
            Ok(())
        } else {
            Err(Error::InvalidInput(msg("score position out of range")))
        }
    }

    /// Remove the score at a position; a position out of range is rejected.
    pub fn remove_ring_at(&mut self, index: usize) -> (r: Result<(), Error>)
        ensures
            if index < old(self).rings@.len() {
                &&& r is Ok
                &&& *final(self) == (Student { rings: final(self).rings, ..*old(self) })
                &&& final(self).rings@ == old(self).rings@.remove(index as int)
            } else {
                &&& r matches Err(e) && e is InvalidInput
                &&& *final(self) == *old(self)
            },
    {
        if index < self.rings.len() {
            self.rings.remove(index);
            Ok(())
        } else {
            Err(Error::InvalidInput(msg("score position out of range")))
        }
    }

    /// Set the note.
    pub fn set_note(&mut self, note: String)
        ensures
            *final(self) == (Student { note, ..*old(self) }),
    {
        self.note = note;
    }

    /// Force this record's identifier. The caller owes uniqueness within
    /// the collection the record will live in; inserting it overwrites any
    /// record already stored under the new identifier.
    pub fn set_id(&mut self, id: u64)
        ensures
            *final(self) == (Student { uid: id, ..*old(self) }),
    {
        self.uid = id;
    }

    /// Set or clear both membership bounds at once.
    pub fn set_membership_dates(&mut self, start_date: Option<i64>, end_date: Option<i64>)
        ensures
            *final(self) == (Student {
                membership_start_date: start_date,
                membership_end_date: end_date,
                ..*old(self)
            }),
    {
        self.membership_start_date = start_date;
        self.membership_end_date = end_date;
    }

    /// Set the membership start.
    pub fn set_membership_start_date(&mut self, start_date: i64)
        ensures
            *final(self) == (Student { membership_start_date: Some(start_date), ..*old(self) }),
    {
        self.membership_start_date = Some(start_date);
    }

    /// Set the membership end.
    pub fn set_membership_end_date(&mut self, end_date: i64)
        ensures
            *final(self) == (Student { membership_end_date: Some(end_date), ..*old(self) }),
    {
        self.membership_end_date = Some(end_date);
    }

    /// Clear the membership.
    pub fn clear_membership(&mut self)
        ensures
            *final(self) == (Student {
                membership_start_date: None,
                membership_end_date: None,
                ..*old(self)
            }),
    {
        self.membership_start_date = None;
        self.membership_end_date = None;
    }

    /// Is the membership active at time `now`?
    pub fn is_membership_active_at(&self, now: i64) -> (r: bool)
        ensures
            r == membership_active_at(self.membership_start_date, self.membership_end_date, now),
    {
        match (&self.membership_start_date, &self.membership_end_date) {
            (Some(s), Some(e)) => *s <= now && now <= *e,
            (Some(s), None) => now >= *s,
            (None, Some(e)) => now <= *e,
            (None, None) => false,
        }
    }

    /// Is the membership active right now, by the wall clock?
    pub fn is_membership_active(&self) -> (r: bool)
        ensures
            exists|now: i64|
                r == #[trigger] membership_active_at(
                    self.membership_start_date,
                    self.membership_end_date,
                    now,
                ),
            self.membership_start_date is None && self.membership_end_date is None ==> r == false,
    {
        let now = now_millis();
        self.is_membership_active_at(now)
    }

    /// Days of membership left at time `now`: whole days until the end
    /// bound, zero once past it, nothing when no end bound is set.
    pub fn membership_days_remaining_at(&self, now: i64) -> (r: Option<i64>)
        ensures
            match self.membership_end_date {
                None => r is None,
                Some(e) => if now <= e {
                    r == Some(((e - now) / 86400000) as i64)
                } else {
                    r == Some(0i64)
                },
            },
    {
        match &self.membership_end_date {
            None => None,
            Some(e) => {
                let e = *e;
                if now <= e {
                    let diff: i128 = (e as i128) - (now as i128);
                    let days: i128 = diff / 86400000;
                    proof {
                        assert(diff == e - now);
                        assert(0 <= days <= diff) by {
                            vstd::arithmetic::div_mod::lemma_div_pos_is_pos(diff as int, 86400000);
                            vstd::arithmetic::div_mod::lemma_div_nonincreasing(
                                diff as int,
                                86400000,
                            );
                        }
                    }
                    Some(days as i64)
                } else {
                    Some(0)
                }
            },
        }
    }

    /// Days of membership left by the wall clock.
    pub fn membership_days_remaining(&self) -> (r: Option<i64>)
        ensures
            r is Some <==> self.membership_end_date is Some,
            self.membership_end_date is None ==> r is None,
    {
        let now = now_millis();
        self.membership_days_remaining_at(now)
    }

    /// The identifier.
    pub fn uid(&self) -> (r: u64)
        ensures
            r == self.uid,
    {
        self.uid
    }

    /// The age, if set.
    pub fn age(&self) -> (r: Option<u8>)
        ensures
            r == self.age,
    {
        self.age
    }

    /// The name.
    pub fn name(&self) -> (r: &str)
        ensures
            r@ == self.name@,
    {
        self.name.as_str()
    }

    /// The remaining-lesson count, if the class tracks one.
    pub fn lesson_left(&self) -> (r: Option<u32>)
        ensures
            r == self.lesson_left,
    {
        self.lesson_left
    }

    /// The class category.
    pub fn class(&self) -> (r: &Class)
        ensures
            *r == self.class,
    {
        &self.class
    }

    /// The scores, in order.
    pub fn rings(&self) -> (r: &Vec<u64>)
        ensures
            r@ == self.rings@,
    {
        &self.rings
    }

    /// The note.
    pub fn note(&self) -> (r: &str)
        ensures
            r@ == self.note@,
    {
        self.note.as_str()
    }

    /// The phone number.
    pub fn phone(&self) -> (r: &str)
        ensures
            r@ == self.phone@,
    {
        self.phone.as_str()
    }

    /// The subject category.
    pub fn subject(&self) -> (r: &Subject)
        ensures
            *r == self.subject,
    {
        &self.subject
    }

    /// The membership start bound.
    pub fn membership_start_date(&self) -> (r: Option<i64>)
        ensures
            r == self.membership_start_date,
    {
        self.membership_start_date
    }

    /// The membership end bound.
    pub fn membership_end_date(&self) -> (r: Option<i64>)
        ensures
            r == self.membership_end_date,
    {
        self.membership_end_date
    }

    /// A content-faithful copy of this record.
    pub fn duplicate(&self) -> (r: Student)
        ensures
            r@ == self@,
    {
        let mut rings: Vec<u64> = Vec::new();
        let mut i: usize = 0;
        let n = self.rings.len();
        while i < n
            invariant
                0 <= i <= n,
                n == self.rings@.len(),
                rings@ == self.rings@.subrange(0, i as int),
            decreases n - i,
        {
            rings.push(self.rings[i]);
            proof {
                assert(rings@ =~= self.rings@.subrange(0, i + 1));
            }
            i = i + 1;
        }
        proof {
            assert(rings@ =~= self.rings@);
        }
        Student {
            uid: self.uid,
            age: self.age,
            name: self.name.clone(),
            phone: self.phone.clone(),
            lesson_left: self.lesson_left,
            class: self.class,
            subject: self.subject,
            rings,
            note: self.note.clone(),
            membership_start_date: self.membership_start_date,
            membership_end_date: self.membership_end_date,
        }
    }
}

impl View for Student {
    type V = StudentView;

    open spec fn view(&self) -> StudentView {
        StudentView {
            uid: self.uid,
            age: self.age,
            name: self.name@,
            phone: self.phone@,
            lesson_left: self.lesson_left,
            class: self.class,
            subject: self.subject,
            rings: self.rings@,
            note: self.note@,
            membership_start_date: self.membership_start_date,
            membership_end_date: self.membership_end_date,
        }
    }
}

impl HasUid for Student {
    open spec fn uid_spec(&self) -> u64 {
        self.uid
    }

    fn uid(&self) -> u64 {
        self.uid
    }

    fn with_uid(self, uid: u64) -> Student {
        Student { uid, ..self }
    }
}

/// The person collection: an ordered record store of `Student`.
pub type StudentDatabase = RecordStore<Student>;

} // verus!
