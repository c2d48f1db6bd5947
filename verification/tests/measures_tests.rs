use lifes_progress::frequencies::{distinct_joint_states, joint_counts, value_counts};
use lifes_progress::pairwise::{is_forward_entity_pair, prepare_sorted_entities_from_keys};
use lifes_progress::text::{str_equal, str_less};
use lifes_progress::versioning::{
    check_parsed_save, check_save_text, is_save_up_to_date, is_version_history_ordered,
    validate_versioning, version_history, SaveCheck,
    SAVE_VERSION,
};

#[test]
fn value_counts_in_first_occurrence_order() {
    assert_eq!(value_counts(&[3, 1, 3, 3, 2, 1]), vec![(3, 3), (1, 2), (2, 1)]);
    assert_eq!(value_counts(&[]), vec![]);
    assert_eq!(value_counts(&[-5]), vec![(-5, 1)]);
}

#[test]
fn value_counts_sum_to_sample_size() {
    let values = [0, 1, 1, 0, 1, 7, 7, -2, 0];
    let total: usize = value_counts(&values).iter().map(|(_, c)| c).sum();
    assert_eq!(total, values.len());
}

#[test]
fn joint_counts_of_pairs() {
    let x = [0, 0, 1, 1, 0];
    let y = [1, 1, 0, 1, 1];
    assert_eq!(joint_counts(&x, &y), vec![((0, 1), 3), ((1, 0), 1), ((1, 1), 1)]);
    assert_eq!(distinct_joint_states(&x, &y), 3);
}

#[test]
fn distinct_joint_states_of_empty_sample() {
    assert_eq!(distinct_joint_states(&[], &[]), 0);
}

#[test]
fn forward_pairs_are_processed_once() {
    assert!(is_forward_entity_pair(3, 9));
    assert!(!is_forward_entity_pair(9, 3));
    assert!(!is_forward_entity_pair(4, 4));
}

#[test]
fn sorted_entities_replace_buffer_contents() {
    let mut buffer = vec![100, 200];
    prepare_sorted_entities_from_keys(&mut buffer, vec![42, 7, 19, 7]);
    assert_eq!(buffer, vec![7, 7, 19, 42]);
}

#[test]
fn string_order_and_equality() {
    assert!(str_less("1.0.0", "1.0.1"));
    assert!(str_less("1.0", "1.0.0"));
    assert!(!str_less("1.0.0", "1.0.0"));
    assert!(!str_less("2.0.0", "10.0.0"));
    assert!(str_less("10.0.0", "2.0.0"));
    assert!(!str_less("b", "a"));
    assert!(str_equal("abc", "abc"));
    assert!(!str_equal("abc", "abd"));
    assert!(!str_equal("abc", "ab"));
}

#[test]
fn save_version_checks() {
    assert_eq!(SAVE_VERSION, "1.0.0");
    assert_eq!(version_history(), vec!["1.0.0"]);
    assert!(validate_versioning());
    assert!(is_save_up_to_date(Some("1.0.0")));
    assert!(!is_save_up_to_date(Some("0.9.0")));
    assert!(!is_save_up_to_date(None));
}

#[test]
fn version_history_order() {
    assert!(is_version_history_ordered(&["0.1.0", "0.2.0", "1.0.0"]));
    assert!(is_version_history_ordered(&[]));
    assert!(!is_version_history_ordered(&["1.0.0", "0.9.0"]));
}

#[test]
fn save_text_with_current_version_passes() {
    assert_eq!(check_save_text(r#"{"version": "1.0.0", "score": 3}"#), Ok(()));
}

#[test]
fn save_text_with_other_version_is_outdated() {
    assert_eq!(check_save_text(r#"{"version": "0.9.0"}"#), Err(SaveCheck::Outdated));
    assert_eq!(check_save_text(r#"{"version": "1.0.0 "}"#), Err(SaveCheck::Outdated));
}

#[test]
fn save_text_without_string_version_is_missing_version() {
    assert_eq!(check_save_text(r#"{"score": 3}"#), Err(SaveCheck::MissingVersion));
    assert_eq!(check_save_text(r#"{"version": 1}"#), Err(SaveCheck::MissingVersion));
    assert_eq!(check_save_text("[1, 2]"), Err(SaveCheck::MissingVersion));
}

#[test]
fn save_text_that_is_not_json_is_refused() {
    assert!(matches!(check_save_text("{version: 1.0.0"), Err(SaveCheck::NotJson(_))));
    assert!(matches!(check_save_text(""), Err(SaveCheck::NotJson(_))));
}

#[test]
fn parsed_save_decision() {
    assert_eq!(check_parsed_save(Ok(Some("1.0.0".to_string()))), Ok(()));
    assert_eq!(check_parsed_save(Ok(Some("2.0.0".to_string()))), Err(SaveCheck::Outdated));
    assert_eq!(check_parsed_save(Ok(None)), Err(SaveCheck::MissingVersion));
    assert_eq!(
        check_parsed_save(Err("bad".to_string())),
        Err(SaveCheck::NotJson("bad".to_string()))
    );
}
