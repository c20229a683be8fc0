use qmx_backend_lib::cash::{
    installment_amount, Cash, CashDatabase, Installment, InstallmentStatus, PaymentFrequency,
};
use qmx_backend_lib::database::Database;
use qmx_backend_lib::error::Error;
use qmx_backend_lib::ids::{parse_u64_decimal, u64_to_decimal, IdGen};
use qmx_backend_lib::student::{Class, Student, StudentDatabase, Subject};
use qmx_backend_lib::{CashBuilder, CashQuery, CashUpdater, QmxManager, StudentBuilder,
    StudentQuery, StudentUpdater};

const DAY: i64 = 86_400_000;

fn sample_plan(gen: &mut IdGen, db: &mut CashDatabase, total: i64, periods: u32) -> u64 {
    let first = Cash::new_installment(
        gen,
        Some(7),
        total,
        periods,
        PaymentFrequency::Monthly,
        1_700_000_000_000,
        1,
        None,
    );
    let plan = first.installment_plan_id().unwrap();
    db.insert(first);
    plan
}

#[test]
fn identifier_generator_sequential_values_are_distinct() {
    let mut gen = IdGen::new(42);
    let mut seen = Vec::new();
    for _ in 0..100 {
        let id = gen.next();
        assert!(!seen.contains(&id));
        seen.push(id);
    }
}

#[test]
fn identifier_generator_reconciles_against_store_contents() {
    // A stale counter seed must not reissue an identifier already stored.
    let mut gen = IdGen::new(1);
    let mut db = StudentDatabase::new();
    let mut s = Student::new(&mut gen);
    s.set_id(500);
    db.insert(s);

    let max = db.max_uid().unwrap();
    assert_eq!(max, 500);
    let mut recovered = IdGen::reconciled(2, max);
    assert_eq!(recovered.next(), 501);

    // A seed ahead of the store wins instead.
    let mut ahead = IdGen::reconciled(900, max);
    assert_eq!(ahead.next(), 900);

    // A zero seed still never hands out identifier 0.
    let mut from_zero = IdGen::reconciled(0, 0);
    assert!(from_zero.next() >= 1);
}

#[test]
fn counter_text_round_trip() {
    let gen = IdGen::new(123456789);
    let text = gen.counter_text();
    assert_eq!(text, "123456789");
    let back = IdGen::from_counter_text(&text).unwrap();
    assert_eq!(back.peek(), 123456789);

    assert_eq!(u64_to_decimal(0), "0");
    assert_eq!(u64_to_decimal(u64::MAX), "18446744073709551615");
    assert_eq!(parse_u64_decimal("18446744073709551615"), Some(u64::MAX));
    // One above the largest value is rejected, as is anything non-numeric.
    assert_eq!(parse_u64_decimal("18446744073709551616"), None);
    assert_eq!(parse_u64_decimal(""), None);
    assert_eq!(parse_u64_decimal("not_a_number"), None);
    assert_eq!(parse_u64_decimal("12 3"), None);
    assert!(IdGen::from_counter_text("invalid_number").is_none());
}

#[test]
fn split_amounts_sum_to_total() {
    for &(total, periods) in &[
        (1000i64, 3u32),
        (0, 1),
        (1, 1000),
        (999_999_999, 7),
        (1_000_000_000, 1000),
        (-1000, 3),
    ] {
        let mut sum: i64 = 0;
        for k in 1..=periods {
            sum += installment_amount(total, periods, k);
        }
        assert_eq!(sum, total, "total {} over {} periods", total, periods);
    }
}

#[test]
fn plan_lifecycle_cancel_counts_three_then_zero() {
    let mut gen = IdGen::new(1);
    let mut db = CashDatabase::new();
    let plan = sample_plan(&mut gen, &mut db, 1000, 3);

    db.generate_next_installment(&mut gen, plan, 1_700_100_000_000).unwrap();
    db.generate_next_installment(&mut gen, plan, 1_700_200_000_000).unwrap();
    assert_eq!(db.get_installments_by_plan(plan).len(), 3);

    // All three are pending, so all three are cancelled.
    assert_eq!(db.cancel_installment_plan(plan), 3);
    assert_eq!(db.cancel_installment_plan(plan), 0);
}

#[test]
fn cancel_leaves_paid_periods_untouched() {
    let mut gen = IdGen::new(1);
    let mut db = CashDatabase::new();
    let plan = sample_plan(&mut gen, &mut db, 900, 3);
    let second = db.generate_next_installment(&mut gen, plan, 1_700_100_000_000).unwrap();
    db.generate_next_installment(&mut gen, plan, 1_700_200_000_000).unwrap();

    db.update_batch(&[second], |mut c: Cash| {
        c.set_installment_status(InstallmentStatus::Paid);
        (c, true)
    });

    assert_eq!(db.cancel_installment_plan(plan), 2);
    assert_eq!(
        db.get(&second).unwrap().installment.as_ref().unwrap().status,
        InstallmentStatus::Paid
    );
}

#[test]
fn generated_ordinals_count_up_and_stop_at_total() {
    let mut gen = IdGen::new(1);
    let mut db = CashDatabase::new();
    let plan = sample_plan(&mut gen, &mut db, 500, 4);

    for expected in 2..=4u32 {
        let uid = db.generate_next_installment(&mut gen, plan, 1_700_000_000_000).unwrap();
        let ord = db.get(&uid).unwrap().installment.as_ref().unwrap().current_installment;
        assert_eq!(ord, expected);
    }
    match db.generate_next_installment(&mut gen, plan, 1_700_000_000_000) {
        Err(Error::State(_)) => {}
        other => panic!("expected a completed-plan error, got {:?}", other.map(|_| ())),
    }
    match db.generate_next_installment(&mut gen, 424242, 1_700_000_000_000) {
        Err(Error::NotFound(_)) => {}
        other => panic!("expected a not-found error, got {:?}", other.map(|_| ())),
    }
}

#[test]
fn remove_then_get_then_remove_again() {
    let mut gen = IdGen::new(1);
    let mut db = CashDatabase::new();
    let c = Cash::new(&mut gen, None);
    let id = c.uid;
    db.insert(c);

    assert!(db.remove(&id).is_some());
    assert!(db.get(&id).is_none());
    assert!(db.remove(&id).is_none());
}

#[test]
fn update_batch_counts_only_reported_changes() {
    let mut gen = IdGen::new(1);
    let mut db = CashDatabase::new();
    let mut ids = Vec::new();
    for amount in [10i64, -5, 20] {
        let mut c = Cash::new(&mut gen, None);
        c.set_cash(amount);
        ids.push(c.uid);
        db.insert(c);
    }

    // The closure reports a change only for positive amounts.
    let count = db.update_batch(&[ids[0], ids[1], ids[2]], |mut c: Cash| {
        if c.cash > 0 {
            c.set_cash(c.cash * 2);
            (c, true)
        } else {
            (c, false)
        }
    });
    assert_eq!(count, 2);
    assert_eq!(db.get(&ids[0]).unwrap().cash, 20);
    assert_eq!(db.get(&ids[1]).unwrap().cash, -5);
    assert_eq!(db.get(&ids[2]).unwrap().cash, 40);
}

#[test]
fn overdue_is_a_computed_view_with_strict_cutoff() {
    let mut gen = IdGen::new(1);
    let mut db = CashDatabase::new();
    let due = 1_700_000_000_000i64;
    let c = Cash::new_installment(
        &mut gen,
        None,
        100,
        1,
        PaymentFrequency::Weekly,
        due,
        1,
        None,
    );
    let id = c.uid;
    db.insert(c);

    // Strictly before the due date, and at it: not overdue. After: overdue.
    assert_eq!(db.get_overdue_installments_at(due - 1).len(), 0);
    assert_eq!(db.get_overdue_installments_at(due).len(), 0);
    assert_eq!(db.get_overdue_installments_at(due + 1).len(), 1);

    // Nothing was written back: the stored status is still pending.
    assert_eq!(
        db.get(&id).unwrap().installment.as_ref().unwrap().status,
        InstallmentStatus::Pending
    );
}

#[test]
fn snapshot_round_trip_preserves_every_field() {
    let mut gen = IdGen::new(1);
    let mut db = CashDatabase::new();

    let mut plain = Cash::new(&mut gen, Some(3));
    plain.set_cash(-250);
    plain.set_note(Some("退款 \"quoted\" \\backslash\\".to_string()));
    db.insert(plain.clone());

    for (freq, status) in [
        (PaymentFrequency::Weekly, InstallmentStatus::Pending),
        (PaymentFrequency::Monthly, InstallmentStatus::Paid),
        (PaymentFrequency::Quarterly, InstallmentStatus::Overdue),
        (PaymentFrequency::Custom(45), InstallmentStatus::Cancelled),
    ] {
        let mut c = Cash::new_installment(
            &mut gen,
            None,
            12345,
            4,
            freq,
            -DAY,
            2,
            Some(999),
        );
        c.set_installment_status(status);
        db.insert(c);
    }

    let text = db.json();
    let back = CashDatabase::from_json(&text).unwrap();
    assert_eq!(back.len(), db.len());
    for (uid, original) in db.iter() {
        let restored = back.get(&uid).unwrap();
        assert_eq!(restored, original);
    }

    // The same text parses to the same store a second time (a fresh call
    // re-scans).
    let again = CashDatabase::from_json(&text).unwrap();
    assert_eq!(again.len(), db.len());

    // Trailing garbage is a hard parse failure.
    let mut broken = text.clone();
    broken.push(' ');
    assert!(CashDatabase::from_json(&broken).is_err());
    match CashDatabase::from_json("{\"1\":") {
        Err(Error::Parse(_)) => {}
        other => panic!("expected a parse error, got {:?}", other.map(|_| ())),
    }
}

#[test]
fn empty_snapshots_round_trip() {
    let cash_db = CashDatabase::new();
    assert_eq!(cash_db.json(), "{}");
    assert_eq!(CashDatabase::from_json("{}").unwrap().len(), 0);

    let student_db = StudentDatabase::new();
    assert_eq!(student_db.json(), "{}");
    assert_eq!(StudentDatabase::from_json("{}").unwrap().len(), 0);
}

#[test]
fn student_snapshot_round_trip_preserves_every_field() {
    let mut gen = IdGen::new(1);
    let mut db = StudentDatabase::new();

    let mut s1 = Student::new(&mut gen);
    s1.set_name("甲\"引号\"".to_string());
    s1.set_age(Some(200));
    s1.set_phone("+00-0".to_string());
    s1.set_class(Class::TenTry);
    s1.set_subject(Subject::Archery);
    s1.add_ring(f64::to_bits(9.5));
    s1.add_ring(f64::to_bits(-3.25));
    s1.set_note("multi\nline".to_string());
    s1.set_membership_dates(Some(-5), Some(1_800_000_000_000));
    db.insert(s1);

    let s2 = Student::new(&mut gen);
    db.insert(s2);

    let text = db.json();
    let back = StudentDatabase::from_json(&text).unwrap();
    assert_eq!(back.len(), 2);
    for (uid, original) in db.iter() {
        let restored = back.get(&uid).unwrap();
        assert_eq!(restored, original);
    }
}

#[test]
fn membership_window_and_days_remaining() {
    let mut gen = IdGen::new(1);
    let mut s = Student::new(&mut gen);
    assert!(!s.is_membership_active());
    assert_eq!(s.membership_days_remaining_at(0), None);

    s.set_membership_dates(Some(1000), Some(1000 + 10 * DAY));
    assert!(!s.is_membership_active_at(999));
    assert!(s.is_membership_active_at(1000));
    assert!(s.is_membership_active_at(1000 + 10 * DAY));
    assert!(!s.is_membership_active_at(1001 + 10 * DAY));

    assert_eq!(s.membership_days_remaining_at(1000), Some(10));
    assert_eq!(s.membership_days_remaining_at(1000 + DAY / 2), Some(9));
    assert_eq!(s.membership_days_remaining_at(2000 + 10 * DAY), Some(0));

    s.clear_membership();
    assert_eq!(s.membership_start_date(), None);
    assert_eq!(s.membership_end_date(), None);
}

#[test]
fn ring_position_updates_and_errors() {
    let mut gen = IdGen::new(1);
    let mut s = Student::new(&mut gen);
    s.add_ring(1);
    s.add_ring(2);
    s.add_ring(3);

    assert!(s.update_ring_at(1, 99).is_ok());
    assert_eq!(s.rings()[1], 99);
    assert!(matches!(s.update_ring_at(3, 5), Err(Error::InvalidInput(_))));

    assert!(s.remove_ring_at(0).is_ok());
    assert_eq!(s.rings().len(), 2);
    assert_eq!(s.rings()[0], 99);
    assert!(matches!(s.remove_ring_at(2), Err(Error::InvalidInput(_))));

    s.set_rings(vec![7, 8]);
    assert_eq!(s.rings(), &vec![7u64, 8]);
}

#[test]
fn manager_person_lifecycle() {
    let db = Database::new(StudentDatabase::new(), CashDatabase::new());
    let mut manager = QmxManager::new(db, 1, 1, false);
    assert!(!manager.auto_save);

    let uid = manager.create_student(
        StudentBuilder::new("王五".to_string(), 21)
            .phone("555".to_string())
            .class(Class::Month)
            .subject(Subject::Shooting)
            .note("记录".to_string()),
    );

    let s = manager.get_student(uid).unwrap();
    assert_eq!(s.name(), "王五");
    assert_eq!(s.age(), Some(21));
    assert_eq!(s.phone(), "555");
    assert_eq!(s.class(), &Class::Month);
    assert_eq!(s.lesson_left(), None);

    manager
        .update_student(
            uid,
            StudentUpdater::new().class(Class::TenTry).add_ring(f64::to_bits(8.5)),
        )
        .unwrap();
    let s = manager.get_student(uid).unwrap();
    assert_eq!(s.class(), &Class::TenTry);
    assert_eq!(s.lesson_left(), Some(10));
    assert_eq!(s.rings().len(), 1);

    // An out-of-range score position rejects the whole updater.
    let res = manager.update_student(
        uid,
        StudentUpdater::new().add_ring(1).update_ring_at(9, 0),
    );
    assert!(matches!(res, Err(Error::InvalidInput(_))));
    assert_eq!(manager.get_student(uid).unwrap().rings().len(), 1);

    assert!(matches!(
        manager.update_student(uid + 100, StudentUpdater::new().age(30)),
        Err(Error::NotFound(_))
    ));

    let hits = manager.search_students(StudentQuery::new().class(Class::TenTry));
    assert_eq!(hits.len(), 1);
    let misses = manager.search_students(StudentQuery::new().name_contains("赵".to_string()));
    assert_eq!(misses.len(), 0);
    assert_eq!(manager.list_students().len(), 1);

    assert!(manager.delete_student(uid));
    assert!(!manager.delete_student(uid));
    assert!(manager.get_student(uid).is_none());
}

#[test]
fn manager_cash_lifecycle_and_stats() {
    let db = Database::new(StudentDatabase::new(), CashDatabase::new());
    let mut manager = QmxManager::new(db, 1, 1, true);

    assert!(matches!(
        manager.record_cash(CashBuilder::new(0)),
        Err(Error::InvalidInput(_))
    ));

    let income = manager
        .record_cash(CashBuilder::new(1500).student_id(9).note("月卡".to_string()))
        .unwrap();
    let expense = manager.record_cash(CashBuilder::new(-300)).unwrap();
    assert_ne!(income, expense);

    let got = manager.get_cash(income).unwrap();
    assert_eq!(got.cash, 1500);
    assert_eq!(got.student_id, Some(9));

    manager
        .update_cash(income, CashUpdater::new().amount(1600))
        .unwrap();
    assert_eq!(manager.get_cash(income).unwrap().cash, 1600);
    assert!(matches!(
        manager.update_cash(income, CashUpdater::new().amount(0)),
        Err(Error::InvalidInput(_))
    ));
    assert!(matches!(
        manager.update_cash(income + 50, CashUpdater::new().amount(5)),
        Err(Error::NotFound(_))
    ));

    let owned = manager.get_student_cash(9);
    assert_eq!(owned.len(), 1);
    assert_eq!(owned[0].cash, 1600);

    let in_range = manager.search_cash(CashQuery::new().amount_range(0, 2000));
    assert_eq!(in_range.len(), 1);

    let stats = manager.get_financial_stats(i64::MIN, i64::MAX);
    assert_eq!(stats.total_income, 1600);
    assert_eq!(stats.total_expense, 300);
    assert_eq!(stats.net_income, 1300);
    assert_eq!(stats.transaction_count, 2);
    assert_eq!(stats.installment_count, 0);

    assert!(manager.delete_cash(expense));
    assert!(!manager.delete_cash(expense));
}

#[test]
fn manager_reconciles_identifiers_with_loaded_stores() {
    let mut gen = IdGen::new(1);
    let mut students = StudentDatabase::new();
    let mut s = Student::new(&mut gen);
    s.set_id(77);
    students.insert(s);

    let db = Database::new(students, CashDatabase::new());
    // The stale seed 3 is behind the stored identifier 77.
    let mut manager = QmxManager::new(db, 3, 1, false);
    let fresh = manager.create_student(StudentBuilder::new("新".to_string(), 10));
    assert!(fresh > 77);
    assert_eq!(manager.list_students().len(), 2);
}

#[test]
fn error_details_are_readable() {
    let e = Error::NotFound("plan 5".to_string());
    assert_eq!(e.detail(), "plan 5");
    let e = Error::Parse("bad text".to_string());
    assert_eq!(e.detail(), "bad text");
    let e = Error::Io("disk gone".to_string());
    assert_eq!(e.detail(), "disk gone");
    let e = Error::State("complete".to_string());
    assert_eq!(e.detail(), "complete");
    let e = Error::InvalidInput("zero".to_string());
    assert_eq!(e.detail(), "zero");
    let e = Error::Other("misc".to_string());
    assert_eq!(e.detail(), "misc");
}

#[test]
fn installments_carry_plan_metadata_into_snapshots() {
    let mut gen = IdGen::new(1);
    let mut db = CashDatabase::new();
    let plan = sample_plan(&mut gen, &mut db, 1000, 3);
    db.generate_next_installment(&mut gen, plan, 1_700_100_000_000).unwrap();

    let text = db.json();
    let back = CashDatabase::from_json(&text).unwrap();
    let periods = back.get_installments_by_plan(plan);
    assert_eq!(periods.len(), 2);
    let total: i64 = periods
        .iter()
        .map(|c| c.installment.as_ref().unwrap().total_amount)
        .sum::<i64>()
        / periods.len() as i64;
    assert_eq!(total, 1000);

    let inst = Installment {
        plan_id: plan,
        total_amount: 1000,
        total_installments: 3,
        current_installment: 2,
        frequency: PaymentFrequency::Monthly,
        due_date: 1_700_100_000_000,
        status: InstallmentStatus::Pending,
    };
    assert_eq!(periods[1].installment, Some(inst));
}

#[test]
fn reassign_moves_a_record_and_rejects_collisions() {
    let mut gen = IdGen::new(1);
    let mut db = StudentDatabase::new();
    let mut a = Student::new(&mut gen);
    a.set_name("甲".to_string());
    let a_id = a.uid();
    let b = Student::new(&mut gen);
    let b_id = b.uid();
    db.insert(a);
    db.insert(b);

    // Moving onto a taken identifier is refused and changes nothing.
    assert!(matches!(db.reassign(a_id, b_id), Err(Error::InvalidInput(_))));
    assert_eq!(db.get(&a_id).unwrap().name(), "甲");

    // Moving an absent identifier is refused.
    assert!(matches!(db.reassign(999, 1000), Err(Error::NotFound(_))));

    // Moving to a free identifier re-keys and re-identifies the record.
    db.reassign(a_id, 424).unwrap();
    assert!(db.get(&a_id).is_none());
    let moved = db.get(&424).unwrap();
    assert_eq!(moved.uid(), 424);
    assert_eq!(moved.name(), "甲");
    assert_eq!(db.len(), 2);

    // Reassigning a record to its own identifier is a no-op that succeeds.
    db.reassign(424, 424).unwrap();
    assert_eq!(db.get(&424).unwrap().name(), "甲");
}
