use snowstorm::{Attribute, CompareType, Match, ModelError, Product, Simple, ONE, SCORE_ONE};

fn product(id: u32, values: Vec<u16>) -> Product {
    Product { id, name: format!("p{}", id), values }
}

fn single_attribute_model(matches: Vec<Match>) -> Simple {
    Simple {
        attributes: vec![Attribute {
            name: "A".to_string(),
            values: vec!["x".to_string(), "y".to_string()],
            compare_type: CompareType::Equal,
        }],
        products: vec![product(1, vec![1]), product(2, vec![1]), product(3, vec![2])],
        matches,
        brain: vec![0],
    }
}

fn two_attribute_model(matches: Vec<Match>) -> Simple {
    Simple {
        attributes: vec![
            Attribute {
                name: "kind".to_string(),
                values: vec!["a".to_string(), "b".to_string()],
                compare_type: CompareType::Equal,
            },
            Attribute {
                name: "size".to_string(),
                values: (1..=6).map(|k| k.to_string()).collect(),
                compare_type: CompareType::LinearInterval(2, 2),
            },
        ],
        products: vec![
            product(10, vec![1, 3]),
            product(11, vec![1, 4]),
            product(12, vec![2, 3]),
            product(13, vec![0, 6]),
            product(14, vec![0, 0]),
        ],
        matches,
        brain: vec![0, 0],
    }
}

#[test]
fn single_attribute_scenario() {
    let mut m = single_attribute_model(vec![Match(1, 2)]);
    assert_eq!(m.train(), Ok(()));
    assert_eq!(m.brain, vec![ONE]);
    assert_eq!(m.score(&1, &2), Ok(SCORE_ONE));
    assert_eq!(m.score(&1, &3), Ok(0));
    let ranking = m.find_all_matches(&1).unwrap();
    assert_eq!(ranking.len(), 3);
    assert_eq!(ranking[0].0, SCORE_ONE);
    assert_eq!(ranking[1].0, SCORE_ONE);
    let mut top: Vec<u32> = vec![ranking[0].1, ranking[1].1];
    top.sort();
    assert_eq!(top, vec![1, 2]);
    assert_eq!(ranking[2], (0, 3));
}

#[test]
fn weights_are_mean_similarities() {
    let mut m = two_attribute_model(vec![Match(10, 11), Match(10, 12), Match(10, 13)]);
    assert_eq!(m.train(), Ok(()));
    // kind: (1,1) -> 1, (1,2) -> 0, (1,0) -> 0: mean 1/3.
    assert_eq!(m.brain[0], ONE / 3);
    // size: (3,4) -> 3/4, (3,3) -> 1, (3,6) -> 0: mean 7/12.
    assert_eq!(m.brain[1], (7 * ONE as u128 / 12) as u64);
}

#[test]
fn attribute_without_applicable_pairs_weighs_zero() {
    let mut m = two_attribute_model(vec![Match(13, 14), Match(14, 13)]);
    assert_eq!(m.train(), Ok(()));
    assert_eq!(m.brain[0], 0);
    assert_eq!(m.brain[1], 0);
    let mut empty = two_attribute_model(vec![]);
    assert_eq!(empty.train(), Ok(()));
    assert_eq!(empty.brain, vec![0, 0]);
}

#[test]
fn weights_stay_in_unit_range() {
    let mut m = two_attribute_model(vec![
        Match(10, 11),
        Match(11, 12),
        Match(12, 13),
        Match(13, 10),
        Match(10, 10),
        Match(14, 10),
    ]);
    assert_eq!(m.train(), Ok(()));
    for w in &m.brain {
        assert!(*w <= ONE);
    }
}

#[test]
fn training_ignores_pairing_order() {
    let pairs = vec![Match(10, 11), Match(10, 12), Match(12, 13), Match(11, 10), Match(13, 14)];
    let mut reversed = pairs.clone();
    reversed.reverse();
    let mut a = two_attribute_model(pairs);
    let mut b = two_attribute_model(reversed);
    assert_eq!(a.train(), Ok(()));
    assert_eq!(b.train(), Ok(()));
    assert_eq!(a.brain, b.brain);
}

#[test]
fn training_with_unknown_product_fails_and_keeps_brain() {
    let mut m = single_attribute_model(vec![Match(1, 2), Match(1, 99)]);
    m.brain = vec![5];
    assert_eq!(m.train(), Err(ModelError::UnknownProduct(99)));
    assert_eq!(m.brain, vec![5]);
    let mut m = single_attribute_model(vec![Match(42, 2)]);
    assert_eq!(m.train(), Err(ModelError::UnknownProduct(42)));
}

#[test]
fn score_sums_weighted_similarities() {
    let mut m = two_attribute_model(vec![]);
    m.brain = vec![ONE, ONE / 2];
    // kind: 1 * 1; size (3,4): 1/2 * 3/4.
    let expected = SCORE_ONE + (ONE as u128 / 2) * (3 * ONE as u128 / 4);
    assert_eq!(m.score(&10, &11), Ok(expected));
    assert_eq!(m.score(&10, &14), Ok(0));
}

#[test]
fn score_with_unknown_product_fails() {
    let m = single_attribute_model(vec![]);
    assert_eq!(m.score(&7, &1), Err(ModelError::UnknownProduct(7)));
    assert_eq!(m.score(&1, &8), Err(ModelError::UnknownProduct(8)));
    assert_eq!(m.find_all_matches(&9), Err(ModelError::UnknownProduct(9)));
}

#[test]
fn contributions_add_up_to_score() {
    let mut m = two_attribute_model(vec![]);
    m.brain = vec![ONE / 4, ONE];
    let parts = m.contributions(&10, &11).unwrap();
    assert_eq!(parts.len(), 2);
    assert_eq!(parts[0], (ONE / 4) as u128 * ONE as u128);
    assert_eq!(parts[1], ONE as u128 * (3 * ONE as u128 / 4));
    assert_eq!(parts[0] + parts[1], m.score(&10, &11).unwrap());
    assert_eq!(m.contributions(&10, &77), Err(ModelError::UnknownProduct(77)));
}

#[test]
fn ranking_is_descending_and_complete() {
    let mut m = two_attribute_model(vec![Match(10, 11), Match(10, 12), Match(11, 12)]);
    assert_eq!(m.train(), Ok(()));
    let ranking = m.find_all_matches(&10).unwrap();
    assert_eq!(ranking.len(), 5);
    for k in 1..ranking.len() {
        assert!(ranking[k - 1].0 >= ranking[k].0);
    }
    let mut ids: Vec<u32> = ranking.iter().map(|e| e.1).collect();
    ids.sort();
    assert_eq!(ids, vec![10, 11, 12, 13, 14]);
    for (s, id) in &ranking {
        assert_eq!(m.score(&10, id), Ok(*s));
    }
    assert_eq!(ranking[0].1, 10);
}

#[test]
fn ranking_keeps_order_under_weight_rescale() {
    let mut m = two_attribute_model(vec![]);
    m.brain = vec![ONE / 3, ONE / 5];
    let before = m.find_all_matches(&11).unwrap();
    m.brain = vec![3 * (ONE / 3), 3 * (ONE / 5)];
    let after = m.find_all_matches(&11).unwrap();
    let ids_before: Vec<u32> = before.iter().map(|e| e.1).collect();
    let ids_after: Vec<u32> = after.iter().map(|e| e.1).collect();
    assert_eq!(ids_before, ids_after);
    for k in 0..before.len() {
        assert_eq!(after[k].0, 3 * before[k].0);
    }
}

#[test]
fn product_positions() {
    let m = single_attribute_model(vec![]);
    assert_eq!(m.product_index(3), Some(2));
    assert_eq!(m.product_index(1), Some(0));
    assert_eq!(m.product_index(4), None);
}

#[test]
fn ranking_ties_keep_table_order() {
    let mut m = single_attribute_model(vec![]);
    m.brain = vec![ONE];
    let ranking = m.find_all_matches(&3).unwrap();
    assert_eq!(ranking, vec![(SCORE_ONE, 3), (0, 1), (0, 2)]);
}

#[test]
fn ranking_keeps_order_under_fractional_rescale() {
    let mut m = two_attribute_model(vec![]);
    m.brain = vec![3 * 1000, 3 * 700];
    let before = m.find_all_matches(&10).unwrap();
    m.brain = vec![2 * 1000, 2 * 700];
    let after = m.find_all_matches(&10).unwrap();
    let ids_before: Vec<u32> = before.iter().map(|e| e.1).collect();
    let ids_after: Vec<u32> = after.iter().map(|e| e.1).collect();
    assert_eq!(ids_before, ids_after);
    for k in 0..before.len() {
        assert_eq!(3 * after[k].0, 2 * before[k].0);
    }
}

#[test]
fn full_similarity_pair_never_lowers_weight() {
    let mut base = two_attribute_model(vec![Match(10, 11), Match(10, 12)]);
    assert_eq!(base.train(), Ok(()));
    let mut more = two_attribute_model(vec![Match(10, 11), Match(10, 12), Match(11, 11)]);
    assert_eq!(more.train(), Ok(()));
    assert!(more.brain[0] >= base.brain[0]);
    assert!(more.brain[1] >= base.brain[1]);
    let mut less = two_attribute_model(vec![Match(10, 11), Match(10, 12), Match(12, 13)]);
    assert_eq!(less.train(), Ok(()));
    // kind (2, 0) and size (3, 6) both have zero similarity.
    assert!(less.brain[0] <= base.brain[0]);
    assert!(less.brain[1] <= base.brain[1]);
}
