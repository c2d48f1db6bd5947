use lifes_progress::generator::generate;
use lifes_progress::grammar::apply_rules;
use lifes_progress::lsystem::{LSystem, RuleManager};
use std::collections::HashMap;

fn algae_rules() -> HashMap<u32, &'static str> {
    let mut rules = HashMap::new();
    rules.insert('A' as u32, "AB");
    rules.insert('B' as u32, "A");
    rules
}

#[test]
fn apply_rules_rewrites_every_symbol_once() {
    assert_eq!(apply_rules("AB", &algae_rules()), "ABA");
}

#[test]
fn apply_rules_keeps_symbols_without_rule() {
    assert_eq!(apply_rules("A+[B]-C", &algae_rules()), "AB+[A]-C");
}

#[test]
fn apply_rules_with_no_rules_is_identity() {
    let rules: HashMap<u32, &str> = HashMap::new();
    assert_eq!(apply_rules("F[+F]F", &rules), "F[+F]F");
}

#[test]
fn apply_rules_on_empty_word() {
    assert_eq!(apply_rules("", &algae_rules()), "");
}

#[test]
fn apply_rules_handles_non_ascii_symbols() {
    let mut rules = HashMap::new();
    rules.insert('é' as u32, "ßé");
    assert_eq!(apply_rules("aé", &rules), "aßé");
}

#[test]
fn apply_rules_is_concatenation_of_parts() {
    let rules = algae_rules();
    let whole = apply_rules("ABBA", &rules);
    let parts = format!("{}{}", apply_rules("AB", &rules), apply_rules("BA", &rules));
    assert_eq!(whole, parts);
}

#[test]
fn generate_algae_growth() {
    let rules = algae_rules();
    assert_eq!(generate("A", &rules, 0), "A");
    assert_eq!(generate("A", &rules, 1), "AB");
    assert_eq!(generate("A", &rules, 2), "ABA");
    assert_eq!(generate("A", &rules, 3), "ABAAB");
    assert_eq!(generate("A", &rules, 4), "ABAABABA");
    assert_eq!(generate("A", &rules, 5), "ABAABABAABAAB");
}

#[test]
fn generate_iterations_compose() {
    let rules = algae_rules();
    let two = generate("A", &rules, 2);
    assert_eq!(generate(&two, &rules, 3), generate("A", &rules, 5));
}

#[test]
fn generate_length_never_shrinks() {
    let mut rules = HashMap::new();
    rules.insert('F' as u32, "F+F");
    rules.insert('+' as u32, "-");
    let mut previous = 0;
    for n in 0..6 {
        let len = generate("F", &rules, n).chars().count();
        assert!(len >= previous);
        previous = len;
    }
}

#[test]
fn rule_manager_add_and_get() {
    let mut manager = RuleManager::new();
    manager.add_rule('F', "F[+F]F");
    manager.add_rule('X', "F-X");
    let rules = manager.get_rules();
    assert_eq!(rules.len(), 2);
    assert_eq!(rules.get(&('F' as u32)), Some(&"F[+F]F"));
    assert_eq!(rules.get(&('X' as u32)), Some(&"F-X"));
}

#[test]
fn rule_manager_later_rule_replaces_earlier() {
    let mut manager = RuleManager::default();
    manager.add_rule('F', "FF");
    manager.add_rule('F', "F-F");
    assert_eq!(manager.get_rules().len(), 1);
    assert_eq!(manager.get_rules().get(&('F' as u32)), Some(&"F-F"));
}

#[test]
fn lsystem_defaults_to_one_iteration() {
    let system = LSystem::new("F").add_rule('F', "F+F");
    assert_eq!(system.generate(), "F+F");
}

#[test]
fn lsystem_builder_generates_koch_curve() {
    let system = LSystem::new("F")
        .add_rule('F', "F+F-F-F+F")
        .set_iterations(2);
    assert_eq!(
        system.generate(),
        "F+F-F-F+F+F+F-F-F+F-F+F-F-F+F-F+F-F-F+F+F+F-F-F+F"
    );
}

#[test]
fn lsystem_zero_iterations_returns_start_word() {
    let system = LSystem::new("S[+B]C").add_rule('S', "SS").set_iterations(0);
    assert_eq!(system.generate(), "S[+B]C");
}

#[test]
fn lsystem_without_rules_keeps_start_word() {
    let system = LSystem::new("F[+F]").set_iterations(7);
    assert_eq!(system.generate(), "F[+F]");
}
