use snowstorm::{Attribute, CompareType, Fraction};

fn attr(rule: CompareType, size: usize) -> Attribute {
    let values: Vec<String> = (0..size).map(|k| format!("v{}", k)).collect();
    Attribute { name: "A".to_string(), values, compare_type: rule }
}

fn is_value(f: Fraction, num: u64, den: u64) -> bool {
    f.num as u128 * den as u128 == num as u128 * f.den as u128
}

fn rules() -> Vec<CompareType> {
    vec![
    CompareType::Equal,
    CompareType::GreaterThanOrEqual,
    CompareType::LessThanOrEqual,
    CompareType::IntervalMatch(1, 1),
    CompareType::IntervalMatch(0, 2),
    CompareType::LinearInterval(2, 2),
    CompareType::LinearInterval(0, 3),
        CompareType::LinearInterval(3, 0),
    ]
}

#[test]
fn map_value_gives_one_based_codes() {
    let a = Attribute {
        name: "colour".to_string(),
        values: vec!["red".to_string(), "green".to_string(), "blue".to_string()],
        compare_type: CompareType::Equal,
    };
    assert_eq!(a.map_value(Some("red".to_string())), 1);
    assert_eq!(a.map_value(Some("blue".to_string())), 3);
    assert_eq!(a.map_value(Some("purple".to_string())), 0);
    assert_eq!(a.map_value(None), 0);
}

#[test]
fn map_value_takes_first_position_of_repeated_label() {
    let a = Attribute {
        name: "size".to_string(),
        values: vec!["s".to_string(), "m".to_string(), "m".to_string()],
        compare_type: CompareType::Equal,
    };
    assert_eq!(a.map_value(Some("m".to_string())), 2);
}

#[test]
fn similarity_stays_in_unit_range_for_every_rule() {
    for rule in rules() {
        let a = attr(rule, 6);
        for x in 0..=6u16 {
            for y in 0..=6u16 {
                let (_, s) = a.evaluate_values(&x, &y);
                assert!(s.den > 0);
                assert!(s.num <= s.den);
            }
        }
    }
}

#[test]
fn missing_values_are_symmetric() {
    for rule in rules() {
        let a = attr(rule, 5);
        let (app, s) = a.evaluate_values(&0, &0);
        assert!(!app);
        assert_eq!(s.num, 0);
        for k in 1..=5u16 {
            let (app1, s1) = a.evaluate_values(&0, &k);
            let (app2, s2) = a.evaluate_values(&k, &0);
            assert!(app1 && app2);
            assert_eq!(s1.num, 0);
            assert_eq!(s2.num, 0);
        }
    }
}

#[test]
fn equal_codes_are_fully_similar() {
    for rule in rules() {
        let a = attr(rule, 5);
        for k in 1..=5u16 {
            let (app, s) = a.evaluate_values(&k, &k);
            assert!(app);
            assert!(is_value(s, 1, 1));
        }
    }
}

#[test]
fn step_rules() {
    let eq = attr(CompareType::Equal, 5);
    assert!(is_value(eq.evaluate_values(&2, &2).1, 1, 1));
    assert!(is_value(eq.evaluate_values(&2, &3).1, 0, 1));
    let ge = attr(CompareType::GreaterThanOrEqual, 5);
    assert!(is_value(ge.evaluate_values(&2, &3).1, 1, 1));
    assert!(is_value(ge.evaluate_values(&3, &2).1, 0, 1));
    let le = attr(CompareType::LessThanOrEqual, 5);
    assert!(is_value(le.evaluate_values(&3, &2).1, 1, 1));
    assert!(is_value(le.evaluate_values(&2, &3).1, 0, 1));
}

#[test]
fn interval_match_scenario() {
    let a = attr(CompareType::IntervalMatch(1, 1), 5);
    let (app, s) = a.evaluate_values(&3, &4);
    assert!(app);
    assert!(is_value(s, 1, 1));
    let (app, s) = a.evaluate_values(&3, &5);
    assert!(app);
    assert!(is_value(s, 0, 1));
    let (_, s) = a.evaluate_values(&3, &2);
    assert!(is_value(s, 1, 1));
    let (_, s) = a.evaluate_values(&3, &1);
    assert!(is_value(s, 0, 1));
}

#[test]
fn interval_band_floor_is_zero() {
    let a = attr(CompareType::IntervalMatch(0, 5), 5);
    assert!(is_value(a.evaluate_values(&2, &1).1, 1, 1));
    assert!(is_value(a.evaluate_values(&2, &3).1, 0, 1));
}

#[test]
fn linear_interval_scenario() {
    let a = attr(CompareType::LinearInterval(2, 2), 8);
    let (app, s) = a.evaluate_values(&3, &4);
    assert!(app);
    assert!(is_value(s, 3, 4));
    let (app, s) = a.evaluate_values(&3, &5);
    assert!(app);
    assert!(is_value(s, 1, 2));
    let (app, s) = a.evaluate_values(&3, &6);
    assert!(app);
    assert!(is_value(s, 0, 1));
    let (_, s) = a.evaluate_values(&3, &2);
    assert!(is_value(s, 3, 4));
}

#[test]
fn linear_interval_without_tolerance_on_one_side() {
    let a = attr(CompareType::LinearInterval(0, 3), 8);
    assert!(is_value(a.evaluate_values(&4, &5).1, 0, 1));
    assert!(is_value(a.evaluate_values(&4, &3).1, 5, 6));
    assert!(is_value(a.evaluate_values(&4, &1).1, 1, 2));
}

#[test]
fn linear_interval_with_uneven_sides() {
    let a = attr(CompareType::LinearInterval(3, 1), 9);
    assert!(is_value(a.evaluate_values(&4, &5).1, 5, 6));
    assert!(is_value(a.evaluate_values(&4, &7).1, 1, 2));
    assert!(is_value(a.evaluate_values(&4, &3).1, 1, 2));
    assert!(is_value(a.evaluate_values(&4, &2).1, 0, 1));
}

#[test]
fn scale_is_common_denominator() {
    assert_eq!(attr(CompareType::Equal, 2).scale(), 1);
    assert_eq!(attr(CompareType::LinearInterval(2, 3), 2).scale(), 12);
    assert_eq!(attr(CompareType::LinearInterval(0, 0), 2).scale(), 2);
}
