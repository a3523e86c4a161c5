use snowstorm::{
    attribute_from_record, compare_type_from_code, contains_product, encode_values,
    filter_matches, has_unique_ids, is_plain_list_text, product_from_record, split_values,
    Attribute, CompareType, Match, ParseError, Product,
};

fn colours() -> Vec<Attribute> {
    vec![
        Attribute {
            name: "colour".to_string(),
            values: vec!["red".to_string(), "green".to_string()],
            compare_type: CompareType::Equal,
        },
        Attribute {
            name: "size".to_string(),
            values: vec!["s".to_string(), "m".to_string(), "l".to_string()],
            compare_type: CompareType::IntervalMatch(1, 1),
        },
    ]
}

#[test]
fn compare_codes() {
    assert_eq!(compare_type_from_code(1, 4, 5), Some(CompareType::Equal));
    assert_eq!(compare_type_from_code(2, 4, 5), Some(CompareType::GreaterThanOrEqual));
    assert_eq!(compare_type_from_code(3, 4, 5), Some(CompareType::LessThanOrEqual));
    assert_eq!(compare_type_from_code(6, 4, 5), Some(CompareType::IntervalMatch(4, 5)));
    assert_eq!(compare_type_from_code(50, 4, 5), Some(CompareType::LinearInterval(5, 4)));
    assert_eq!(compare_type_from_code(7, 4, 5), None);
}

#[test]
fn splitting_vocabulary() {
    assert_eq!(split_values("a,b,c"), vec!["a", "b", "c"]);
    assert_eq!(split_values(""), vec![""]);
    assert_eq!(split_values("a,"), vec!["a", ""]);
    assert_eq!(split_values(",x"), vec!["", "x"]);
    assert_eq!(split_values("größe,ü"), vec!["größe", "ü"]);
}

#[test]
fn attribute_records() {
    let a = attribute_from_record("size".to_string(), "s,m,l", 50, 1, 2);
    assert_eq!(a.name, "size");
    assert_eq!(a.values, vec!["s", "m", "l"]);
    assert_eq!(a.compare_type, CompareType::LinearInterval(2, 1));
    let b = attribute_from_record("kind".to_string(), "a", 6, 3, 4);
    assert_eq!(b.values, vec!["a"]);
    assert_eq!(b.compare_type, CompareType::IntervalMatch(3, 4));
}

#[test]
fn encoding_raw_values() {
    let attrs = colours();
    let codes = encode_values(&attrs, vec![Some("green".to_string()), Some("xl".to_string())]);
    assert_eq!(codes, Ok(vec![2, 0]));
    assert_eq!(encode_values(&attrs, vec![None]), Err(ParseError::ValueCountMismatch));
}

#[test]
fn product_records_decode_json_lists() {
    let attrs = colours();
    let p = product_from_record(&attrs, 7, "shirt".to_string(), r#"["red", "l"]"#).unwrap();
    assert_eq!(p.id, 7);
    assert_eq!(p.name, "shirt");
    assert_eq!(p.values, vec![1, 3]);
    let p = product_from_record(&attrs, 8, "cap".to_string(), r#"[null, "m"]"#).unwrap();
    assert_eq!(p.values, vec![0, 2]);
    assert_eq!(
        product_from_record(&attrs, 9, "x".to_string(), "not json").unwrap_err(),
        ParseError::InvalidValues
    );
    assert_eq!(
        product_from_record(&attrs, 9, "x".to_string(), r#"["red"]"#).unwrap_err(),
        ParseError::ValueCountMismatch
    );
}

#[test]
fn pairings_with_unknown_products_are_dropped() {
    let products = vec![
        Product { id: 1, name: "a".to_string(), values: vec![] },
        Product { id: 2, name: "b".to_string(), values: vec![] },
    ];
    assert!(contains_product(&products, 2));
    assert!(!contains_product(&products, 3));
    let kept = filter_matches(&products, &vec![(1, 2), (1, 3), (3, 2), (2, 1)]);
    assert_eq!(kept, vec![Match(1, 2), Match(2, 1)]);
}

#[test]
fn list_text_scan() {
    assert!(is_plain_list_text(r#"["red", null, "l"]"#));
    assert!(is_plain_list_text(r#"["size 42", "e[{"]"#));
    assert!(is_plain_list_text(r#"["say \"1\"", null]"#));
    assert!(is_plain_list_text(""));
    assert!(!is_plain_list_text("[1e99999999999999999999]"));
    assert!(!is_plain_list_text(r#"["a", 5]"#));
    assert!(!is_plain_list_text(r#"[["a"]]"#));
    assert!(!is_plain_list_text(r#"[{"a": null}]"#));
    assert!(!is_plain_list_text(r#"["a", true]"#));
    assert!(!is_plain_list_text(r#"["a\"", 7]"#));
}

#[test]
fn product_records_with_numbers_or_nesting_are_invalid() {
    let attrs = colours();
    assert_eq!(
        product_from_record(&attrs, 1, "x".to_string(), "[1e99999999999999999999]").unwrap_err(),
        ParseError::InvalidValues
    );
    let deep = format!("{}{}", "[".repeat(100000), "]".repeat(100000));
    assert_eq!(
        product_from_record(&attrs, 1, "x".to_string(), &deep).unwrap_err(),
        ParseError::InvalidValues
    );
    assert_eq!(
        product_from_record(&attrs, 1, "x".to_string(), r#"["red", "m"] 3"#).unwrap_err(),
        ParseError::InvalidValues
    );
    let p = product_from_record(&attrs, 2, "y".to_string(), r#"["green", "s 1"]"#).unwrap();
    assert_eq!(p.values, vec![2, 0]);
}

#[test]
fn repeated_product_ids_are_detected() {
    let product = |id: u32| Product { id, name: String::new(), values: vec![] };
    assert!(has_unique_ids(&vec![]));
    assert!(has_unique_ids(&vec![product(1), product(2), product(3)]));
    assert!(!has_unique_ids(&vec![product(1), product(2), product(1)]));
}
