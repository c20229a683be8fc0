use qmx_backend_lib::CashQuery;

const HOUR: i64 = 3_600_000;
const DAY: i64 = 86_400_000;

fn now_ms() -> i64 {
    chrono::Utc::now().timestamp_millis()
}

#[test]
fn test_cash_query_date_range_method() {
    let now = now_ms();
    let start = now - HOUR;
    let end = now + HOUR;

    let query = CashQuery::new().date_range(start, end);

    let combined_query = CashQuery::new()
        .student_id(123)
        .amount_range(1000, 5000)
        .date_range(start, end)
        .has_installment(false);

    drop(query);
    drop(combined_query);
}

#[test]
fn test_multiple_date_ranges() {
    let now = now_ms();

    let yesterday = now - DAY;
    let tomorrow = now + DAY;

    let _query1 = CashQuery::new().date_range(yesterday, now);
    let _query2 = CashQuery::new().date_range(now, tomorrow);

    let week_ago = now - 7 * DAY;
    let week_later = now + 7 * DAY;

    let _query3 = CashQuery::new().date_range(week_ago, week_later);

    let query4 = CashQuery::new().date_range(now, now);

    drop(query4);
}

#[test]
fn test_date_range_with_all_filters() {
    let now = now_ms();
    let start = now - 2 * HOUR;
    let end = now + 2 * HOUR;

    let comprehensive_query = CashQuery::new()
        .student_id(456)
        .amount_range(-1000, 10000)
        .has_installment(true)
        .date_range(start, end);

    drop(comprehensive_query);
}
