use std::collections::HashMap;
use wfc::rules::{check_weights, Rule, Ruleset, MAX_WEIGHT};
use wfc::shared::{ErrorKind, WfcError};
use wfc::vec2i::{down, left, right, up, Vec2i};

/// The number of weight units that stands for the decimal weight `w`.
fn units(w: f32) -> u32 {
    (w as f64 * 1_000_000.0).round() as u32
}

fn weights(entries: &[(i8, f32)]) -> HashMap<i8, u32> {
    entries.iter().map(|&(field, w)| (field, units(w))).collect()
}

fn sample_rules() -> Vec<Rule> {
    vec![
        Rule::new(
            1,
            weights(&[(1, 0.5), (2, 1.0)]),
            weights(&[(1, 1.0), (3, 1.0)]),
            weights(&[(2, 1.0), (4, 0.9)]),
            weights(&[(1, 0.4), (3, 1.0)]),
        ),
        Rule::new(
            2,
            weights(&[(1, 1.0), (2, 1.0)]),
            weights(&[(1, 1.0), (3, 1.0)]),
            weights(&[(2, 1.0), (4, 0.9)]),
            weights(&[(1, 0.5), (3, 1.0)]),
        ),
    ]
}

fn sample_ruleset() -> Ruleset {
    Ruleset::new(sample_rules()).unwrap()
}

#[test]
fn test_ruleset_all_fields() {
    let ruleset = sample_ruleset();
    let all_fields = ruleset.all_fields();
    assert_eq!(all_fields.len(), 2);
    assert_eq!(all_fields, vec![1, 2]);
}

#[test]
fn test_get_allowed_fields() {
    let ruleset = sample_ruleset();
    let allowed_up = ruleset.get_allowed_fields(1, up()).unwrap();
    assert_eq!(allowed_up, &weights(&[(1, 0.5), (2, 1.0)]));
    let allowed_right = ruleset.get_allowed_fields(1, right()).unwrap();
    assert_eq!(allowed_right, &weights(&[(1, 1.0), (3, 1.0)]));
    let allowed_down = ruleset.get_allowed_fields(1, down()).unwrap();
    assert_eq!(allowed_down, &weights(&[(2, 1.0), (4, 0.9)]));
    let allowed_left = ruleset.get_allowed_fields(1, left()).unwrap();
    assert_eq!(allowed_left, &weights(&[(1, 0.4), (3, 1.0)]));
}

#[test]
fn test_rule_fields_as_given() {
    let rules = sample_rules();
    assert_eq!(rules.len(), 2);
    assert_eq!(rules[0].field, 1);
    assert_eq!(rules[1].field, 2);
    assert_eq!(rules[0].allowed_up.get(&1), Some(&500_000));
    assert_eq!(rules[0].allowed_up.get(&2), Some(&1_000_000));
    assert_eq!(rules[0].allowed_down.get(&4), Some(&900_000));
    assert_eq!(rules[0].allowed_left.get(&1), Some(&400_000));
    assert_eq!(rules[1].allowed_left.get(&1), Some(&500_000));
}

#[test]
fn test_lookup_second_rule() {
    let ruleset = sample_ruleset();
    let allowed = ruleset.get_allowed_fields(2, left()).unwrap();
    assert_eq!(allowed, &weights(&[(1, 0.5), (3, 1.0)]));
}

#[test]
fn test_lookup_without_rule_fails() {
    let ruleset = sample_ruleset();
    let err: WfcError = ruleset.get_allowed_fields(3, up()).unwrap_err();
    assert!(matches!(err.kind, ErrorKind::NoRule { field: 3 }));
    assert!(!err.message.is_empty());
}

#[test]
fn test_lookup_invalid_direction_fails() {
    let ruleset = sample_ruleset();
    let diagonal = Vec2i::new(1, 1);
    let err = ruleset.get_allowed_fields(1, diagonal).unwrap_err();
    match err.kind {
        ErrorKind::InvalidDirection { direction } => assert_eq!(direction, diagonal),
        other => panic!("unexpected error: {:?}", other),
    }
    let err = ruleset.get_allowed_fields(1, Vec2i::new(0, 0)).unwrap_err();
    assert!(matches!(err.kind, ErrorKind::InvalidDirection { .. }));
}

#[test]
fn test_lookup_missing_rule_reported_before_direction() {
    let ruleset = sample_ruleset();
    let err = ruleset.get_allowed_fields(9, Vec2i::new(2, 2)).unwrap_err();
    assert!(matches!(err.kind, ErrorKind::NoRule { field: 9 }));
}

#[test]
fn test_lookup_is_repeatable() {
    let ruleset = sample_ruleset();
    for field in [1i8, 2, 3] {
        for direction in [up(), right(), down(), left(), Vec2i::new(3, 0)] {
            let first = ruleset.get_allowed_fields(field, direction);
            let second = ruleset.get_allowed_fields(field, direction);
            match (first, second) {
                (Ok(a), Ok(b)) => assert_eq!(a, b),
                (Err(a), Err(b)) => assert_eq!(a, b),
                _ => panic!("two lookups disagree"),
            }
        }
    }
    assert_eq!(ruleset.all_fields(), vec![1, 2]);
}

#[test]
fn test_repeated_field_first_rule_wins() {
    let rules = vec![
        Rule::new(5, weights(&[(5, 1.0)]), HashMap::new(), HashMap::new(), HashMap::new()),
        Rule::new(6, HashMap::new(), HashMap::new(), HashMap::new(), HashMap::new()),
        Rule::new(5, weights(&[(6, 2.0)]), HashMap::new(), HashMap::new(), HashMap::new()),
    ];
    let ruleset = Ruleset::new(rules).unwrap();
    assert_eq!(ruleset.all_fields(), vec![5, 6, 5]);
    assert_eq!(ruleset.get_allowed_fields(5, up()).unwrap(), &weights(&[(5, 1.0)]));
}

#[test]
fn test_empty_ruleset() {
    let ruleset = Ruleset::new(Vec::new()).unwrap();
    assert_eq!(ruleset.all_fields(), Vec::<i8>::new());
    let err = ruleset.get_allowed_fields(0, up()).unwrap_err();
    assert!(matches!(err.kind, ErrorKind::NoRule { field: 0 }));
}

#[test]
fn test_ruleset_rejects_reserved_field() {
    let rules = vec![
        Rule::new(0, HashMap::new(), HashMap::new(), HashMap::new(), HashMap::new()),
        Rule::new(-1, HashMap::new(), HashMap::new(), HashMap::new(), HashMap::new()),
    ];
    let err = Ruleset::new(rules).unwrap_err();
    assert!(matches!(err.kind, ErrorKind::ReservedField { rule: 1 }));
}

#[test]
fn test_ruleset_rejects_zero_weight() {
    let rules = vec![Rule::new(
        0,
        HashMap::new(),
        HashMap::new(),
        HashMap::from([(0, 1), (1, 0)]),
        HashMap::new(),
    )];
    let err = Ruleset::new(rules).unwrap_err();
    assert!(matches!(err.kind, ErrorKind::InvalidWeight { rule: 0 }));
}

#[test]
fn test_ruleset_rejects_weight_above_maximum() {
    let ok = vec![Rule::new(
        0,
        HashMap::new(),
        HashMap::new(),
        HashMap::new(),
        HashMap::from([(0, MAX_WEIGHT)]),
    )];
    assert!(Ruleset::new(ok).is_ok());
    let rules = vec![
        Rule::new(0, HashMap::new(), HashMap::new(), HashMap::new(), HashMap::new()),
        Rule::new(1, HashMap::new(), HashMap::new(), HashMap::new(), HashMap::new()),
        Rule::new(2, HashMap::new(), HashMap::new(), HashMap::new(), HashMap::from([(0, MAX_WEIGHT + 1)])),
    ];
    let err = Ruleset::new(rules).unwrap_err();
    assert!(matches!(err.kind, ErrorKind::InvalidWeight { rule: 2 }));
}

#[test]
fn test_ruleset_names_first_invalid_rule() {
    let rules = vec![
        Rule::new(3, HashMap::from([(3, 0)]), HashMap::new(), HashMap::new(), HashMap::new()),
        Rule::new(-1, HashMap::new(), HashMap::new(), HashMap::new(), HashMap::new()),
    ];
    let err = Ruleset::new(rules).unwrap_err();
    assert!(matches!(err.kind, ErrorKind::InvalidWeight { rule: 0 }));
}

#[test]
fn test_check_weights() {
    assert_eq!(MAX_WEIGHT, 1_000_000_000);
    assert!(check_weights(&HashMap::new()));
    assert!(check_weights(&HashMap::from([(1, 1), (2, MAX_WEIGHT)])));
    assert!(!check_weights(&HashMap::from([(1, 1), (2, 0)])));
    assert!(!check_weights(&HashMap::from([(1, MAX_WEIGHT + 1)])));
}

#[test]
fn test_error_with_message_only() {
    let err = WfcError::new("could not read the rules".to_string());
    assert!(matches!(err.kind, ErrorKind::Other));
    assert_eq!(err.message, "could not read the rules");
}

#[test]
fn test_ruleset_keeps_rules_in_order() {
    let ruleset = sample_ruleset();
    let rules = ruleset.rules();
    assert_eq!(rules.len(), 2);
    assert_eq!(rules[0].field, 1);
    assert_eq!(rules[1].field, 2);
    assert_eq!(rules[0].allowed_right.get(&1), Some(&1_000_000));
    assert_eq!(rules[0].allowed_right.get(&3), Some(&1_000_000));
    assert_eq!(rules[0].allowed_down.get(&2), Some(&1_000_000));
    assert_eq!(rules[0].allowed_left.get(&3), Some(&1_000_000));
    assert_eq!(rules[1].allowed_down.get(&4), Some(&900_000));
}
