//! Rule management and configuration of an L-System.
use crate::generator::{generate, iterate};
use crate::grammar::nonempty_replacements;
use std::collections::HashMap;
use vstd::prelude::*;

verus! {

broadcast use vstd::std_specs::hash::group_hash_axioms;

/// Handles rule management for L-Systems: one replacement per symbol,
/// keyed by the symbol's Unicode scalar value.
pub struct RuleManager<'a> {
    rules: HashMap<u32, &'a str>,
}

impl<'a> View for RuleManager<'a> {
    type V = Map<u32, &'a str>;

    closed spec fn view(&self) -> Map<u32, &'a str> {
        self.rules@
    }
}

impl<'a> RuleManager<'a> {
    /// The manager's well-formedness: no replacement is empty.
    pub closed spec fn wf(&self) -> bool {
        nonempty_replacements(self.rules@)
    }

    /// Create a new RuleManager with no rules.
    pub fn new() -> (manager: Self)
        ensures
            manager.wf(),
            manager@ == Map::<u32, &'a str>::empty(),
    {
        RuleManager { rules: HashMap::new() }
    }

    /// Add a rule to the manager; a later rule for the same symbol replaces
    /// the earlier one. The replacement must not be empty.
    pub fn add_rule(&mut self, symbol: char, replacement: &'a str)
        requires
            replacement@.len() > 0,
        ensures
            old(self).wf() ==> final(self).wf(),
            final(self)@ == old(self)@.insert(symbol as u32, replacement),
    {
        let key: u32 = symbol as u32;
        self.rules.insert(key, replacement);
    }

    /// Get the rules as an immutable reference.
    pub fn get_rules(&self) -> (rules: &HashMap<u32, &'a str>)
        ensures
            rules@ == self@,
            self.wf() ==> nonempty_replacements(rules@),
    {
        &self.rules
    }
}

impl<'a> Default for RuleManager<'a> {
    fn default() -> (manager: Self)
        ensures
            manager.wf(),
            manager@ == Map::<u32, &'a str>::empty(),
    {
        Self::new()
    }
}

/// Represents an L-System with a start word and a set of rules.
pub struct LSystem<'a> {
    start: &'a str,
    rules_manager: RuleManager<'a>,
    iterations: usize,
}

impl<'a> LSystem<'a> {
    /// The start word.
    pub closed spec fn start_word(&self) -> Seq<char> {
        self.start@
    }

    /// The rule table.
    pub closed spec fn rules(&self) -> Map<u32, &'a str> {
        self.rules_manager@
    }

    /// The number of rewriting steps that `generate` performs.
    pub closed spec fn iteration_count(&self) -> nat {
        self.iterations as nat
    }

    /// The system's well-formedness: no replacement is empty.
    pub closed spec fn wf(&self) -> bool {
        self.rules_manager.wf()
    }

    /// Create a new L-System with the given start word, no rules and one iteration.
    pub fn new(start: &'a str) -> (system: Self)
        ensures
            system.wf(),
            system.start_word() == start@,
            system.rules() == Map::<u32, &'a str>::empty(),
            system.iteration_count() == 1,
    {
        LSystem { start, rules_manager: RuleManager::new(), iterations: 1 }
    }

    /// Add a rule to the L-System. The replacement must not be empty.
    pub fn add_rule(self, symbol: char, replacement: &'a str) -> (system: Self)
        requires
            replacement@.len() > 0,
        ensures
            self.wf() ==> system.wf(),
            system.start_word() == self.start_word(),
            system.rules() == self.rules().insert(symbol as u32, replacement),
            system.iteration_count() == self.iteration_count(),
    {
        let mut this = self;
        this.rules_manager.add_rule(symbol, replacement);
        this
    }

    /// Set the number of iterations for the L-System.
    pub fn set_iterations(self, iterations: usize) -> (system: Self)
        ensures
            system.wf() == self.wf(),
            system.start_word() == self.start_word(),
            system.rules() == self.rules(),
            system.iteration_count() == iterations as nat,
    {
        let mut this = self;
        this.iterations = iterations;
        this
    }

    /// Generate the L-System string based on the current configuration.
    pub fn generate(&self) -> (result: String)
        ensures
            result@ == iterate(self.start_word(), self.rules(), self.iteration_count()),
    {
        generate(self.start, self.rules_manager.get_rules(), self.iterations)
    }
}

} // verus!
