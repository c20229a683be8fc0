use qmx_backend_lib::ids::IdGen;
use qmx_backend_lib::student::{Class, Student, StudentDatabase, Subject};

#[test]
fn student_new_creates_unique_uids() {
    let mut gen = IdGen::new(1);
    let s1 = Student::new(&mut gen);
    let s2 = Student::new(&mut gen);
    let s3 = Student::new(&mut gen);

    assert_ne!(s1.uid(), s2.uid());
    assert_ne!(s2.uid(), s3.uid());
    assert_ne!(s1.uid(), s3.uid());

    assert!(s1.uid() > 0);
    assert!(s2.uid() > s1.uid());
    assert!(s3.uid() > s2.uid());
}

#[test]
fn student_default_values() {
    let mut gen = IdGen::new(1);
    let student = Student::new(&mut gen);

    assert_eq!(student.age(), None);
    assert_eq!(student.name(), "未填写");
    assert_eq!(student.phone(), "未填写");
    assert_eq!(student.lesson_left(), None);
    assert_eq!(student.class(), &Class::Others);
    assert_eq!(student.subject(), &Subject::Others);
    assert!(student.rings().is_empty());
    assert_eq!(student.note(), "");
}

#[test]
fn student_age_boundaries() {
    let mut gen = IdGen::new(1);
    let mut student = Student::new(&mut gen);

    student.set_age(Some(0));
    assert_eq!(student.age(), Some(0));

    student.set_age(Some(255));
    assert_eq!(student.age(), Some(255));

    student.set_age(Some(18));
    assert_eq!(student.age(), Some(18));

    student.set_age(None);
    assert_eq!(student.age(), None);

    student.set_age(None);
    assert_eq!(student.age(), None);
}

#[test]
fn student_name_edge_cases() {
    let mut gen = IdGen::new(1);
    let mut student = Student::new(&mut gen);

    student.set_name("".to_string());
    assert_eq!(student.name(), "");

    student.set_name("A".to_string());
    assert_eq!(student.name(), "A");

    let long_name = "A".repeat(1000);
    student.set_name(long_name.clone());
    assert_eq!(student.name(), &long_name);

    student.set_name("张三".to_string());
    assert_eq!(student.name(), "张三");
}

#[test]
fn student_phone_validation() {
    let mut gen = IdGen::new(1);
    let mut student = Student::new(&mut gen);

    student.set_phone("13800138000".to_string());
    assert_eq!(student.phone(), "13800138000");

    student.set_phone("".to_string());
    assert_eq!(student.phone(), "");

    student.set_phone("invalid-phone".to_string());
    assert_eq!(student.phone(), "invalid-phone");
}

#[test]
fn student_class_and_lesson_left_interaction() {
    let mut gen = IdGen::new(1);
    let mut student = Student::new(&mut gen);

    student.set_class_with_lesson_init(Class::TenTry);
    assert_eq!(student.class(), &Class::TenTry);
    assert_eq!(student.lesson_left(), Some(10));

    student.set_lesson_left(5);
    assert_eq!(student.lesson_left(), Some(5));

    student.set_class_with_lesson_init(Class::Month);
    assert_eq!(student.class(), &Class::Month);
    assert_eq!(student.lesson_left(), None);

    student.set_lesson_left(8);
    assert_eq!(student.lesson_left(), None);

    student.set_class(Class::Year);
    assert_eq!(student.lesson_left(), None);

    student.set_class(Class::Others);
    assert_eq!(student.lesson_left(), None);
}

#[test]
fn student_lesson_left_boundaries() {
    let mut gen = IdGen::new(1);
    let mut student = Student::new(&mut gen);
    student.set_class_with_lesson_init(Class::TenTry);

    student.set_lesson_left(0);
    assert_eq!(student.lesson_left(), Some(0));

    student.set_lesson_left(u32::MAX);
    assert_eq!(student.lesson_left(), Some(u32::MAX));

    student.set_lesson_left(1);
    assert_eq!(student.lesson_left(), Some(1));
}

#[test]
fn student_rings_operations() {
    let mut gen = IdGen::new(1);
    let mut student = Student::new(&mut gen);

    assert!(student.rings().is_empty());

    student.add_ring(f64::to_bits(9.5));
    assert_eq!(student.rings().len(), 1);
    assert_eq!(student.rings()[0], f64::to_bits(9.5));

    student.add_ring(f64::to_bits(8.2));
    student.add_ring(f64::to_bits(10.0));
    assert_eq!(student.rings().len(), 3);
    assert_eq!(student.rings()[1], f64::to_bits(8.2));
    assert_eq!(student.rings()[2], f64::to_bits(10.0));

    student.add_ring(f64::to_bits(0.0));
    assert_eq!(student.rings().len(), 4);
    assert_eq!(student.rings()[3], f64::to_bits(0.0));

    student.add_ring(f64::to_bits(-1.0));
    assert_eq!(student.rings().len(), 5);
    assert_eq!(student.rings()[4], f64::to_bits(-1.0));

    let large_score = f64::MAX;
    student.add_ring(f64::to_bits(large_score));
    assert_eq!(student.rings()[5], f64::to_bits(large_score));
}

#[test]
fn student_note_operations() {
    let mut gen = IdGen::new(1);
    let mut student = Student::new(&mut gen);

    assert_eq!(student.note(), "");

    student.set_note("Good performance".to_string());
    assert_eq!(student.note(), "Good performance");

    student.set_note("".to_string());
    assert_eq!(student.note(), "");

    let long_note = "A".repeat(10000);
    student.set_note(long_note.clone());
    assert_eq!(student.note(), &long_note);

    student.set_note("中文备注".to_string());
    assert_eq!(student.note(), "中文备注");
}

#[test]
fn student_subject_variations() {
    let mut gen = IdGen::new(1);
    let mut student = Student::new(&mut gen);

    assert_eq!(student.subject(), &Subject::Others);

    student.set_subject(Subject::Shooting);
    assert_eq!(student.subject(), &Subject::Shooting);

    student.set_subject(Subject::Archery);
    assert_eq!(student.subject(), &Subject::Archery);

    student.set_subject(Subject::Others);
    assert_eq!(student.subject(), &Subject::Others);
}

#[test]
fn student_unsafe_set_id() {
    let mut gen = IdGen::new(1);
    let mut student = Student::new(&mut gen);
    let original_uid = student.uid();

    student.set_id(12345);
    assert_eq!(student.uid(), 12345);
    assert_ne!(student.uid(), original_uid);

    student.set_id(0);
    assert_eq!(student.uid(), 0);

    student.set_id(u64::MAX);
    assert_eq!(student.uid(), u64::MAX);
}

#[test]
fn student_method_chaining() {
    let mut gen = IdGen::new(1);
    let mut student = Student::new(&mut gen);

    student.set_age(Some(25));
    student.set_name("Chain Test".to_string());
    student.set_phone("12345678901".to_string());
    student.set_class_with_lesson_init(Class::TenTry);
    student.set_lesson_left(8);
    student.set_subject(Subject::Shooting);
    student.set_note("Chained operations".to_string());
    student.add_ring(f64::to_bits(9.0));
    student.add_ring(f64::to_bits(8.5));

    assert_eq!(student.age(), Some(25));
    assert_eq!(student.name(), "Chain Test");
    assert_eq!(student.phone(), "12345678901");
    assert_eq!(student.class(), &Class::TenTry);
    assert_eq!(student.lesson_left(), Some(8));
    assert_eq!(student.subject(), &Subject::Shooting);
    assert_eq!(student.note(), "Chained operations");
    assert_eq!(student.rings().len(), 2);
}

#[test]
fn student_database_new_and_default() {
    let db1 = StudentDatabase::new();
    let db2 = StudentDatabase::default();

    assert!(db1.is_empty());
    assert!(db2.is_empty());
    assert_eq!(db1.len(), 0);
    assert_eq!(db2.len(), 0);
}

#[test]
fn student_database_insert_and_get() {
    let mut gen = IdGen::new(1);
    let mut db = StudentDatabase::new();
    let student = Student::new(&mut gen);
    let uid = student.uid();

    db.insert(student.clone());
    assert_eq!(db.len(), 1);
    assert!(!db.is_empty());

    let retrieved = db.get(&uid);
    assert!(retrieved.is_some());
    assert_eq!(retrieved.unwrap().uid(), uid);
    assert_eq!(retrieved.unwrap().name(), student.name());

    let non_existent = db.get(&(uid + 1000));
    assert!(non_existent.is_none());
}

#[test]
fn student_database_insert_batch() {
    let mut gen = IdGen::new(1);
    let mut db = StudentDatabase::new();
    let mut students = Vec::new();

    for i in 0..5 {
        let mut student = Student::new(&mut gen);
        student.set_name(format!("Student {}", i));
        students.push(student);
    }

    let inserted_count = db.insert_batch(students.clone());
    assert_eq!(inserted_count, 5);
    assert_eq!(db.len(), 5);

    for student in &students {
        assert!(db.get(&student.uid()).is_some());
    }

    let empty_batch_count = db.insert_batch(vec![]);
    assert_eq!(empty_batch_count, 0);
    assert_eq!(db.len(), 5);
}

#[test]
fn student_database_remove() {
    let mut gen = IdGen::new(1);
    let mut db = StudentDatabase::new();
    let student = Student::new(&mut gen);
    let uid = student.uid();

    db.insert(student.clone());
    assert_eq!(db.len(), 1);

    let removed = db.remove(&uid);
    assert!(removed.is_some());
    assert_eq!(removed.unwrap().uid(), uid);
    assert_eq!(db.len(), 0);
    assert!(db.is_empty());

    let removed_again = db.remove(&uid);
    assert!(removed_again.is_none());
}

#[test]
fn student_database_remove_batch() {
    let mut gen = IdGen::new(1);
    let mut db = StudentDatabase::new();
    let mut uids = Vec::new();

    for i in 0..10 {
        let mut student = Student::new(&mut gen);
        student.set_name(format!("Student {}", i));
        uids.push(student.uid());
        db.insert(student);
    }

    assert_eq!(db.len(), 10);

    let remove_uids = vec![uids[0], uids[2], uids[4], uids[6], uids[8]];
    let removed_count = db.remove_batch(&remove_uids);
    assert_eq!(removed_count, 5);
    assert_eq!(db.len(), 5);

    for &uid in &remove_uids {
        assert!(db.get(&uid).is_none());
    }

    let non_existent_uids = vec![9999, 10000, 10001];
    let removed_count_2 = db.remove_batch(&non_existent_uids);
    assert_eq!(removed_count_2, 0);
    assert_eq!(db.len(), 5);

    let empty_batch_count = db.remove_batch(&[]);
    assert_eq!(empty_batch_count, 0);
}

#[test]
fn student_database_update_batch() {
    let mut gen = IdGen::new(1);
    let mut db = StudentDatabase::new();
    let mut uids = Vec::new();

    for i in 0..5 {
        let mut student = Student::new(&mut gen);
        student.set_age(Some(20 + i as u8));
        uids.push(student.uid());
        db.insert(student);
    }

    let update_count = db.update_batch(&uids, |mut student: Student| {
        if let Some(age) = student.age() {
            if age < 23 {
                student.set_age(Some(age + 10));
                (student, true)
            } else {
                (student, false)
            }
        } else {
            (student, false)
        }
    });

    assert_eq!(update_count, 3);

    assert_eq!(db.get(&uids[0]).unwrap().age(), Some(30));
    assert_eq!(db.get(&uids[1]).unwrap().age(), Some(31));
    assert_eq!(db.get(&uids[2]).unwrap().age(), Some(32));
    assert_eq!(db.get(&uids[3]).unwrap().age(), Some(23));
    assert_eq!(db.get(&uids[4]).unwrap().age(), Some(24));

    let no_update_count = db.update_batch(&[9999, 10000], |s: Student| (s, true));
    assert_eq!(no_update_count, 0);

    let empty_batch_count = db.update_batch(&[], |s: Student| (s, true));
    assert_eq!(empty_batch_count, 0);
}

#[test]
fn student_database_json_serialization() {
    let mut gen = IdGen::new(1);
    let mut db = StudentDatabase::new();
    let mut student = Student::new(&mut gen);
    student.set_name("JSON Test".to_string());
    student.set_age(Some(30));
    student.add_ring(f64::to_bits(9.5));
    student.add_ring(f64::to_bits(8.0));

    db.insert(student.clone());

    let json = db.json();
    assert!(!json.is_empty());
    assert!(json.contains("JSON Test"));
    assert!(json.contains("30"));

    let deserialized_db = StudentDatabase::from_json(&json).unwrap();
    assert_eq!(deserialized_db.len(), 1);

    let retrieved = deserialized_db.get(&student.uid()).unwrap();
    assert_eq!(retrieved.name(), "JSON Test");
    assert_eq!(retrieved.age(), Some(30));
    assert_eq!(retrieved.rings().len(), 2);
}

#[test]
fn student_database_json_deserialization_errors() {
    let invalid_json = "invalid json";
    let result = StudentDatabase::from_json(invalid_json);
    assert!(result.is_err());

    let empty_json = "";
    let result = StudentDatabase::from_json(empty_json);
    assert!(result.is_err());

    let partial_json = r#"{"student_data": {"1": {"uid": 1, "age": 25"#;
    let result = StudentDatabase::from_json(partial_json);
    assert!(result.is_err());
}

#[test]
fn student_database_iterator() {
    let mut gen = IdGen::new(1);
    let mut db = StudentDatabase::new();
    let mut expected_uids = Vec::new();

    for i in 0..3 {
        let mut student = Student::new(&mut gen);
        student.set_name(format!("Student {}", i));
        expected_uids.push(student.uid());
        db.insert(student);
    }

    let mut collected_uids = Vec::new();
    for (uid, student) in db.iter() {
        collected_uids.push(uid);
        assert!(student.name().starts_with("Student"));
    }

    expected_uids.sort();
    collected_uids.sort();
    assert_eq!(expected_uids, collected_uids);

    let empty_db = StudentDatabase::new();
    let count = empty_db.iter().len();
    assert_eq!(count, 0);
}

#[test]
fn student_database_duplicate_uid_handling() {
    let mut gen = IdGen::new(1);
    let mut db = StudentDatabase::new();
    let mut student1 = Student::new(&mut gen);
    student1.set_name("First".to_string());
    let uid = student1.uid();

    db.insert(student1);
    assert_eq!(db.len(), 1);
    assert_eq!(db.get(&uid).unwrap().name(), "First");

    let mut student2 = Student::new(&mut gen);
    student2.set_id(uid);
    student2.set_name("Second".to_string());

    db.insert(student2);
    assert_eq!(db.len(), 1);
    assert_eq!(db.get(&uid).unwrap().name(), "Second");
}
