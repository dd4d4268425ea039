use docdb::{query_plan, query_upper_bound, tv, DocDbError, Scan, QP, TaggableValue};
use rand::seq::SliceRandom;
use rand::RngExt;

fn query_sort(q: &mut Vec<QP>) {
    q.sort_by(|a, b| {
        if a.lt(b) {
            std::cmp::Ordering::Less
        } else if b.lt(a) {
            std::cmp::Ordering::Greater
        } else {
            std::cmp::Ordering::Equal
        }
    });
}

#[test]
fn qp_ordering() {
    // Queries are ordered without regard for their predicate
    // type, instead only by their path and then value. Finally,
    // if those are equal, their type.
    let mut rng = rand::rng();
    let expected = vec![
        QP::GT { p: vec![tv("foo"), tv("bar")], v: tv(1) },
        QP::GTE { p: vec![tv("foo"), tv("bar")], v: tv(1) },
        QP::LT { p: vec![tv("foo"), tv("bar")], v: tv(1) },
        QP::LT { p: vec![tv("foo"), tv("bar")], v: tv(1) },
        QP::LT { p: vec![tv("foo"), tv("bar")], v: tv(1) },
        QP::LTE { p: vec![tv("foo"), tv("bar")], v: tv(1) },
        QP::E { p: vec![tv("foo"), tv("bar")], v: tv(11) },
        QP::E { p: vec![tv("foo"), tv("bar")], v: tv(111) },
        QP::E { p: vec![tv("quux")], v: tv(false) },
        QP::E { p: vec![tv("quux")], v: tv(1) },
        QP::GTE { p: vec![tv("quux")], v: tv(99) },
        QP::LTE { p: vec![tv("quux")], v: tv("last") },
        QP::E { p: vec![tv("quux"), tv("bar")], v: tv(1) },
        QP::GTE { p: vec![tv("quux"), tv("bar"), tv("baz")], v: tv(1) },
    ];

    for _ in 1..1001 {
        let mut test = expected.clone();
        test.shuffle(&mut rng);
        query_sort(&mut test);
        assert_eq!(expected, test);
    }
}

// Check that when we create a set of predicates where there is
// a valid single range query to satisfy all the predicates when
// AND'd together, we return that range, even with many predicates
// and using a fuzz testing approach to shuffle them.
#[test]
fn collapse_overlapping_predicates() -> Result<(), DocDbError> {
    let p: Vec<TaggableValue> = vec![tv("age")];
    let mut preds = vec![
        // The lower bound
        QP::GT { p: p.clone(), v: tv(50) },
        // the upper bound
        QP::LTE { p: p.clone(), v: tv(123) },
    ];
    let mut rng = rand::rng();

    // Now we add a lot of values that are outside the
    // collapsed range that we want to end up with, so
    // that we can check they are discarded.
    for _ in 1..100 {
        preds.push(QP::GT { p: p.clone(), v: tv(rng.random_range(-500..49)) });
    }
    for _ in 1..100 {
        preds.push(QP::LT { p: p.clone(), v: tv(rng.random_range(124..12345)) });
    }

    // At this point we've 200 entries in preds.

    // For the test, we shuffle the preds list to fuzz test the
    // discovery of the correct lower and upper bounds.
    for _ in 1..1001 {
        // skey is the upper bound of the value because the query is GT, not GTE
        let skey = query_upper_bound(&p, Some(&tv(50))).unwrap();
        let ekey = query_upper_bound(&p, Some(&tv(123))).unwrap();
        let mut test = preds.clone();
        test.shuffle(&mut rng);
        assert_eq!(
            query_plan(test)?,
            vec![Scan { skey: skey, ekey: ekey }],
        )
    }
    Ok(())
}

// Check that when we pass a set of predicates that cannot be satisfied
// by a single range, we return an error from the query plan function.
#[test]
fn fail_non_overlapping_predicates() -> Result<(), DocDbError> {
    let p: Vec<TaggableValue> = vec![tv("age")];
    let mut preds = vec![
        // these two predicates cannot be satisfied
        // concurrently.
        QP::GT { p: p.clone(), v: tv(100) },
        QP::LTE { p: p.clone(), v: tv(50) },
    ];
    let mut rng = rand::rng();

    // Now we add a lot of values that are outside the
    // collapsed range that we want to end up with, so
    // that we can check they are discarded.
    for _ in 1..200 {
        preds.push(QP::GT { p: p.clone(), v: tv(rng.random_range(-500..12345)) });
        preds.push(QP::LT { p: p.clone(), v: tv(rng.random_range(-500..12345)) });
    }

    // At this point we've 400 entries in preds.

    // For the test, we shuffle the preds list to fuzz test the
    // discovery of the correct lower and upper bounds.
    for _ in 1..1001 {
        let mut test = preds.clone();
        test.shuffle(&mut rng);
        assert!(query_plan(test).is_err());
    }

    Ok(())
}

#[test]
fn unsatisfiable_conjunction_is_invalid_query() {
    // A conjunction of a strict lower bound above the upper bound is
    // rejected at planning time.
    let p: Vec<TaggableValue> = vec![tv("age")];
    let r = query_plan(vec![
        QP::GT { p: p.clone(), v: tv(100) },
        QP::LTE { p: p.clone(), v: tv(50) },
    ]);
    assert!(matches!(r, Err(DocDbError::InvalidQuery)));
}

#[test]
fn planner_rejects_nan_value() {
    let p: Vec<TaggableValue> = vec![tv("age")];
    let r = query_plan(vec![QP::E { p, v: TaggableValue::Number(f64::NAN.to_bits()) }]);
    assert!(matches!(r, Err(DocDbError::BadValue)));
}
