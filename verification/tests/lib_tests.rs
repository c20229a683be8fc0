use qmx_backend_lib::cash::{Cash, CashDatabase, PaymentFrequency};
use qmx_backend_lib::ids::IdGen;
use qmx_backend_lib::student::{Class, Student, StudentDatabase, Subject};

const DAY: i64 = 86_400_000;

fn now_ms() -> i64 {
    chrono::Utc::now().timestamp_millis()
}

#[test]
fn student_new_and_setters() {
    let mut gen = IdGen::new(1);
    let mut s = Student::new(&mut gen);
    let uid = s.uid();
    assert!(uid >= 1);
    assert_eq!(s.age(), None);
    assert_eq!(s.name(), "未填写");
    assert_eq!(s.phone(), "未填写");
    assert_eq!(s.lesson_left(), None);
    assert_eq!(s.class(), &Class::Others);
    assert_eq!(s.subject(), &Subject::Others);

    s.set_age(Some(18));
    s.set_name("Alice".to_string());
    s.set_phone("123".to_string());
    s.set_subject(Subject::Shooting);
    assert_eq!(s.age(), Some(18));
    assert_eq!(s.name(), "Alice");
    assert_eq!(s.phone(), "123");
    assert_eq!(s.subject(), &Subject::Shooting);

    s.set_class(Class::TenTry);
    assert_eq!(s.class(), &Class::TenTry);
    assert_eq!(s.lesson_left(), Some(10));

    s.set_lesson_left(7);
    assert_eq!(s.lesson_left(), Some(7));

    s.add_ring(f64::to_bits(9.8));
    s.add_ring(f64::to_bits(8.2));
    assert_eq!(s.rings().len(), 2);

    s.set_note("good".to_string());
    assert_eq!(s.note(), "good");
}

#[test]
fn student_db_crud_and_json_roundtrip() {
    let mut gen = IdGen::new(1);
    let mut db = StudentDatabase::new();
    let mut s1 = Student::new(&mut gen);
    s1.set_name("Bob".to_string());
    let uid1 = s1.uid();
    db.insert(s1.clone());
    assert_eq!(db.len(), 1);
    assert!(db.get(&uid1).is_some());

    let json = db.json();
    let db2 = StudentDatabase::from_json(&json).unwrap();
    assert_eq!(db2.len(), 1);
    assert_eq!(db2.get(&uid1).unwrap().name(), "Bob");

    let removed = db.remove(&uid1);
    assert!(removed.is_some());
    assert!(db.get(&uid1).is_none());
}

#[test]
fn cash_basic_and_db_ops() {
    let mut gen = IdGen::new(1);
    let mut db = CashDatabase::new();
    let mut c = Cash::new(&mut gen, None);
    assert!(c.uid >= 1);
    assert_eq!(c.cash, 0);
    c.add(100);
    assert_eq!(c.cash, 100);
    c.set_cash(-50);
    assert_eq!(c.cash, -50);
    c.set_note(Some("note".to_string()));
    assert_eq!(c.note(), Some("note"));
    db.insert(c.clone());
    assert_eq!(db.len(), 1);
    assert!(db.get(&c.uid).is_some());
    let removed = db.remove(&c.uid);
    assert!(removed.is_some());
    assert!(db.get(&c.uid).is_none());
}

#[test]
fn installment_flow_and_helpers() {
    let mut gen = IdGen::new(1);
    let plan_total = 1000i64;
    let total_n = 3u32;
    let due1 = now_ms() - DAY;
    let c1 = Cash::new_installment(
        &mut gen,
        Some(1),
        plan_total,
        total_n,
        PaymentFrequency::Monthly,
        due1,
        1,
        None,
    );
    assert!(c1.is_installment());
    let plan_id = c1.installment_plan_id().unwrap();

    let mut db = CashDatabase::new();
    db.insert(c1.clone());

    let due2 = now_ms() + 29 * DAY;
    let uid2 = db.generate_next_installment(&mut gen, plan_id, due2).unwrap();
    assert!(db.get(&uid2).unwrap().is_installment());

    let due3 = now_ms() + 59 * DAY;
    let uid3 = db.generate_next_installment(&mut gen, plan_id, due3).unwrap();
    assert!(db.get(&uid3).unwrap().is_installment());

    assert_eq!(db.get_installments_by_plan(plan_id).len(), 3);

    let overdues = db.get_overdue_installments();
    assert!(
        overdues
            .iter()
            .any(|c| c.installment.as_ref().unwrap().current_installment == 1)
    );

    let cancelled = db.cancel_installment_plan(plan_id);
    assert!(cancelled >= 1);
}
