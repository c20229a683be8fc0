use qmx_backend_lib::cash::{Cash, CashDatabase};
use qmx_backend_lib::ids::IdGen;

#[test]
fn test_cash_database_json_with_timestamp() {
    let mut gen = IdGen::new(1);
    let mut db = CashDatabase::new();

    let cash1 = {
        let mut c = Cash::new(&mut gen, Some(100));
        c.set_cash(1500);
        c
    };

    let cash2 = {
        let mut c = Cash::new(&mut gen, Some(200));
        c.set_cash(2500);
        c
    };

    db.insert(cash1);
    db.insert(cash2);

    let json = db.json();
    println!("Database JSON: {}", json);

    assert!(json.contains("created_at"));

    let restored_db = CashDatabase::from_json(&json).unwrap();

    assert_eq!(restored_db.len(), 2);

    for (_, cash) in restored_db.iter() {
        assert!(cash.created_at > 0);
        println!("Restored cash created at: {}", cash.created_at);
    }
}
