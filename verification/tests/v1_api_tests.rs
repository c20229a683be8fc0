use qmx_backend_lib::cash::{Cash, CashDatabase, PaymentFrequency};
use qmx_backend_lib::ids::IdGen;
use qmx_backend_lib::student::{Class, Student, StudentDatabase, Subject};

const DAY: i64 = 86_400_000;

fn now_ms() -> i64 {
    chrono::Utc::now().timestamp_millis()
}

#[test]
fn test_student_creation() {
    let mut gen = IdGen::new(1);
    let mut student = Student::new(&mut gen);
    student.set_name("张三".to_string());
    student.set_age(Some(18));
    student.set_class(Class::TenTry);
    student.set_subject(Subject::Shooting);

    assert_eq!(student.name(), "张三");
    assert_eq!(student.age(), Some(18));
    assert_eq!(student.class(), &Class::TenTry);
    assert_eq!(student.subject(), &Subject::Shooting);
}

#[test]
fn test_student_database_operations() {
    let mut gen = IdGen::new(1);
    let mut db = StudentDatabase::new();

    let mut student = Student::new(&mut gen);
    student.set_name("李四".to_string());
    student.set_age(Some(20));
    let uid = student.uid();

    db.insert(student);
    assert_eq!(db.len(), 1);

    let retrieved = db.get(&uid).unwrap();
    assert_eq!(retrieved.name(), "李四");
    assert_eq!(retrieved.age(), Some(20));

    let removed = db.remove(&uid);
    assert!(removed.is_some());
    assert_eq!(db.len(), 0);
}

#[test]
fn test_membership_management() {
    let mut gen = IdGen::new(1);
    let mut student = Student::new(&mut gen);
    let start = now_ms();
    let end = start + 30 * DAY;

    student.set_membership_dates(Some(start), Some(end));

    assert!(student.is_membership_active());
    assert_eq!(student.membership_start_date(), Some(start));
    assert_eq!(student.membership_end_date(), Some(end));

    let days_remaining = student.membership_days_remaining();
    assert!(days_remaining.is_some());
    assert!(days_remaining.unwrap() > 0);
}

#[test]
fn test_cash_creation() {
    let mut gen = IdGen::new(1);
    let mut cash = Cash::new(&mut gen, Some(1));
    cash.set_cash(1000);
    cash.set_note(Some("学费收入".to_string()));

    assert_eq!(cash.student_id, Some(1));
    assert_eq!(cash.cash, 1000);
    assert_eq!(cash.note(), Some("学费收入"));
}

#[test]
fn test_cash_database_operations() {
    let mut gen = IdGen::new(1);
    let mut db = CashDatabase::new();

    let mut cash = Cash::new(&mut gen, Some(1));
    cash.set_cash(2000);
    let uid = cash.uid;

    db.insert(cash);
    assert_eq!(db.len(), 1);

    let retrieved = db.get(&uid).unwrap();
    assert_eq!(retrieved.cash, 2000);
    assert_eq!(retrieved.student_id, Some(1));

    let removed = db.remove(&uid);
    assert!(removed.is_some());
    assert_eq!(db.len(), 0);
}

#[test]
fn test_installment_management() {
    let mut gen = IdGen::new(1);
    let mut db = CashDatabase::new();

    let installment = Cash::new_installment(
        &mut gen,
        Some(1),
        6000,
        3,
        PaymentFrequency::Monthly,
        now_ms() + 30 * DAY,
        1,
        None,
    );

    let plan_id = installment.installment_plan_id().unwrap();
    db.insert(installment);

    let next_due = now_ms() + 60 * DAY;
    let next_uid = db.generate_next_installment(&mut gen, plan_id, next_due).unwrap();

    assert_eq!(db.len(), 2);

    let next_installment = db.get(&next_uid).unwrap();
    assert_eq!(
        next_installment
            .installment
            .as_ref()
            .unwrap()
            .current_installment,
        2
    );

    let cancelled = db.cancel_installment_plan(plan_id);
    assert_eq!(cancelled, 2);
}
