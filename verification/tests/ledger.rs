use calorie_tracker::CalorieTracker;
use calorie_tracker::LedgerError;
use calorie_tracker::Op;
use calorie_tracker::UserRecord;

fn s(x: &str) -> String {
    x.to_string()
}

#[test]
fn running_totals_one_date() {
    let u = s("user-u");
    let d = s("2024-01-01");
    let mut t = CalorieTracker::new();
    assert_eq!(t.add(&u, 500, &d), Ok(500));
    assert_eq!(t.add(&u, 200, &d), Ok(700));
    assert_eq!(t.subtract(&u, 300, &d), Ok(400));
    assert_eq!(t.get(&u, &vec![d.clone()]), vec![(d.clone(), 400)]);
}

#[test]
fn fresh_date_is_zero() {
    let u = s("user-u");
    let d2 = s("2024-02-02");
    let t = CalorieTracker::new();
    assert_eq!(t.get(&u, &vec![d2.clone()]), vec![(d2.clone(), 0)]);
}

#[test]
fn users_are_independent() {
    let u1 = s("user-1");
    let u2 = s("user-2");
    let d = s("2024-03-03");
    let mut t = CalorieTracker::new();
    assert_eq!(t.add(&u1, 100, &d), Ok(100));
    assert_eq!(t.add(&u2, 100, &d), Ok(100));
    assert_eq!(t.get(&u1, &vec![d.clone()]), vec![(d.clone(), 100)]);
    assert_eq!(t.get(&u2, &vec![d.clone()]), vec![(d.clone(), 100)]);
}

#[test]
fn dates_are_isolated() {
    let u = s("user-u");
    let d1 = s("2024-01-01");
    let d2 = s("2024-01-02");
    let mut t = CalorieTracker::new();
    assert_eq!(t.add(&u, 250, &d2), Ok(250));
    assert_eq!(t.add(&u, 40, &d1), Ok(40));
    assert_eq!(t.subtract(&u, 10, &d1), Ok(30));
    assert_eq!(t.total_for(&u, &d2), 250);
    assert_eq!(t.total_for(&u, &d1), 30);
    assert_eq!(t.total_for(&s("user-other"), &d1), 0);
}

#[test]
fn final_total_order_independent() {
    let u = s("user-u");
    let d = s("2024-01-01");
    let mut a = CalorieTracker::new();
    assert_eq!(a.add(&u, 500, &d), Ok(500));
    assert_eq!(a.add(&u, 200, &d), Ok(700));
    assert_eq!(a.subtract(&u, 300, &d), Ok(400));
    let mut b = CalorieTracker::new();
    assert_eq!(b.subtract(&u, 300, &d), Ok(-300));
    assert_eq!(b.add(&u, 200, &d), Ok(-100));
    assert_eq!(b.add(&u, 500, &d), Ok(400));
    assert_eq!(a.total_for(&u, &d), b.total_for(&u, &d));
}

#[test]
fn log_keeps_submission_order() {
    let u = s("user-u");
    let d = s("2024-01-01");
    let mut t = CalorieTracker::new();
    t.add(&u, 500, &d).unwrap();
    t.subtract(&u, 300, &d).unwrap();
    t.add(&u, 200, &d).unwrap();
    assert_eq!(
        t.date_log(&u, &d),
        vec![(500, Op::Add), (300, Op::Subtract), (200, Op::Add)]
    );
}

#[test]
fn batch_matches_single_queries() {
    let u = s("user-u");
    let d1 = s("2024-01-01");
    let d2 = s("2024-01-02");
    let d3 = s("2024-01-03");
    let mut t = CalorieTracker::new();
    t.add(&u, 10, &d1).unwrap();
    t.add(&u, 20, &d2).unwrap();
    t.subtract(&u, 5, &d2).unwrap();
    let batch = t.get(&u, &vec![d1.clone(), d2.clone(), d3.clone()]);
    let single1 = t.get(&u, &vec![d1.clone()]);
    let single2 = t.get(&u, &vec![d2.clone()]);
    let single3 = t.get(&u, &vec![d3.clone()]);
    assert_eq!(batch.len(), 3);
    assert_eq!(vec![batch[0].clone()], single1);
    assert_eq!(vec![batch[1].clone()], single2);
    assert_eq!(vec![batch[2].clone()], single3);
}

#[test]
fn nth_total_is_signed_sum() {
    let u = s("user-u");
    let d = s("2024-01-01");
    let mut t = CalorieTracker::new();
    assert_eq!(t.add(&u, 5, &d), Ok(5));
    assert_eq!(t.add(&u, 7, &d), Ok(12));
    assert_eq!(t.subtract(&u, 3, &d), Ok(9));
    assert_eq!(t.subtract(&u, 20, &d), Ok(-11));
    assert_eq!(t.add(&u, 1, &d), Ok(-10));
}

#[test]
fn duplicate_dates_coalesce() {
    let u = s("user-u");
    let d = s("2024-01-01");
    let mut t = CalorieTracker::new();
    t.add(&u, 9, &d).unwrap();
    assert_eq!(
        t.get(&u, &vec![d.clone(), d.clone()]),
        vec![(d.clone(), 9)]
    );
}

#[test]
fn empty_query() {
    let u = s("user-u");
    let t = CalorieTracker::new();
    assert_eq!(t.get(&u, &vec![]), vec![]);
}

#[test]
fn unknown_user_query_is_zero() {
    let d = s("2024-01-01");
    let mut t = CalorieTracker::new();
    t.add(&s("user-known"), 3, &d).unwrap();
    assert_eq!(
        t.get(&s("user-unknown"), &vec![d.clone()]),
        vec![(d.clone(), 0)]
    );
}

#[test]
fn overflow_is_rejected_without_partial_append() {
    let u = s("user-u");
    let d = s("2024-01-01");
    let mut t = CalorieTracker::new();
    assert_eq!(t.add(&u, 2147483647, &d), Ok(2147483647));
    assert_eq!(t.add(&u, 1, &d), Err(LedgerError::ArithmeticOverflow));
    assert_eq!(t.total_for(&u, &d), 2147483647);
    assert_eq!(t.date_log(&u, &d), vec![(2147483647, Op::Add)]);
}

#[test]
fn underflow_is_rejected_without_partial_append() {
    let u = s("user-u");
    let d = s("2024-01-01");
    let mut t = CalorieTracker::new();
    assert_eq!(
        t.subtract(&u, 2147483649, &d),
        Err(LedgerError::ArithmeticUnderflow)
    );
    assert_eq!(t.total_for(&u, &d), 0);
    assert_eq!(t.date_log(&u, &d), vec![]);
}

#[test]
fn boundary_totals_are_accepted() {
    let u = s("user-u");
    let d = s("2024-01-01");
    let mut t = CalorieTracker::new();
    assert_eq!(t.subtract(&u, 2147483648, &d), Ok(-2147483648));
    assert_eq!(t.add(&u, 4294967295, &d), Ok(2147483647));
    assert_eq!(
        t.date_log(&u, &d),
        vec![(2147483648, Op::Subtract), (4294967295, Op::Add)]
    );
}

#[test]
fn user_record_direct() {
    let d1 = s("2024-01-01");
    let d2 = s("2024-01-02");
    let mut r = UserRecord::new();
    assert_eq!(r.record(&d1, 50, Op::Add), Ok(50));
    assert_eq!(r.record(&d2, 8, Op::Subtract), Ok(-8));
    assert_eq!(r.record(&d1, 25, Op::Subtract), Ok(25));
    assert_eq!(r.total_for(&d1), 25);
    assert_eq!(r.total_for(&d2), -8);
    assert_eq!(r.date_log(&d1), vec![(50, Op::Add), (25, Op::Subtract)]);
    let mut dates = r.dates();
    dates.sort();
    assert_eq!(dates, vec![d1.clone(), d2.clone()]);
}
