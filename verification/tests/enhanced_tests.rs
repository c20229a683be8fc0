use qmx_backend_lib::cash::Cash;
use qmx_backend_lib::ids::IdGen;
use qmx_backend_lib::student::{Class, Student, StudentDatabase};

#[test]
fn test_student_extreme_values() {
    let mut gen = IdGen::new(1);
    let mut student = Student::new(&mut gen);

    student.set_age(Some(255)); // u8::MAX
    assert_eq!(student.age(), Some(255));

    assert_eq!(student.lesson_left(), None);
    student.set_class(Class::TenTry);
    assert_eq!(student.lesson_left(), Some(10));
    student.set_lesson_left(u32::MAX);
    assert_eq!(student.lesson_left(), Some(u32::MAX));

    let very_long_name = "a".repeat(1000);
    student.set_name(very_long_name.clone());
    assert_eq!(student.name(), very_long_name);
}

#[test]
fn test_cash_extreme_amounts() {
    let mut gen = IdGen::new(1);
    let mut cash = Cash::new(&mut gen, Some(1));
    cash.set_cash(i64::MAX);
    assert_eq!(cash.cash, i64::MAX);

    cash.set_cash(i64::MIN);
    assert_eq!(cash.cash, i64::MIN);
}

#[test]
fn test_serialization_with_special_characters() {
    let mut gen = IdGen::new(1);
    let mut student = Student::new(&mut gen);
    student.set_name("测试\n\t\"'\\学生".to_string());
    student.set_note("包含特殊字符的备注: {}[]()!@#$%^&*".to_string());
    student.set_phone("+86-138-0013-8000".to_string());

    let mut db = StudentDatabase::new();
    db.insert(student);

    let json_str = db.json();
    assert!(json_str.contains("测试"));
    assert!(json_str.contains("特殊字符"));

    let new_db = StudentDatabase::from_json(&json_str).unwrap();
    assert_eq!(new_db.len(), 1);

    let entries = new_db.iter();
    let restored_student = entries[0].1;
    assert_eq!(restored_student.name(), "测试\n\t\"'\\学生");
    assert_eq!(
        restored_student.note(),
        "包含特殊字符的备注: {}[]()!@#$%^&*"
    );
}

#[test]
fn test_batch_operations_performance() {
    let mut gen = IdGen::new(1);
    let mut db = StudentDatabase::new();

    let students: Vec<Student> = (0..2000)
        .map(|i: u64| {
            let mut student = Student::new(&mut gen);
            student.set_name(format!("Batch_Student_{}", i));
            student.set_age(Some(((i % 100) + 10) as u8));
            student.set_class(Class::TenTry);
            student.set_lesson_left(((i % 30) + 1) as u32);

            for j in 0..5 {
                student.add_ring(f64::to_bits(((i + j) % 10) as f64 + 1.0));
            }

            student
        })
        .collect();

    let batch_start = std::time::Instant::now();
    db.insert_batch(students);
    let batch_duration = batch_start.elapsed();

    println!("bulk insert of 2000 records took {:?}", batch_duration);
    assert_eq!(db.len(), 2000);

    let query_start = std::time::Instant::now();
    let filtered_students: Vec<_> = db
        .iter()
        .into_iter()
        .filter(|(_, s)| s.age().unwrap_or(0) > 50 && s.lesson_left().unwrap_or(0) > 15)
        .collect();
    let query_duration = query_start.elapsed();

    println!(
        "query took {:?}, found {} records",
        query_duration,
        filtered_students.len()
    );

    assert!(batch_duration.as_millis() < 2000);
    assert!(query_duration.as_millis() < 100);
}
