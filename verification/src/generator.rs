//! Repeated rewriting of an L-System start word.
use crate::grammar::{
    apply_rules, lemma_rewrite_concat, lemma_rewrite_keeps_unruled, lemma_rewrite_never_shrinks, nonempty_replacements,
    rewrite,
};
use std::collections::HashMap;
use vstd::prelude::*;

verus! {

/// The word obtained from `s` after `n` rewriting steps.
pub open spec fn iterate(s: Seq<char>, rules: Map<u32, &str>, n: nat) -> Seq<char>
    decreases n,
{
    if n == 0 {
        s
    } else {
        rewrite(iterate(s, rules, (n - 1) as nat), rules)
    }
}

/// Rewrites `start` `iterations` times with `rules`.
pub fn generate(start: &str, rules: &HashMap<u32, &str>, iterations: usize) -> (result: String)
    ensures
        result@ == iterate(start@, rules@, iterations as nat),
{
    let mut current = start.to_owned();
    for i in 0..iterations
        invariant
            current@ == iterate(start@, rules@, i as nat),
    {
        current = apply_rules(current.as_str(), rules);
    }
    current
}

/// Iterations compose: rewriting `m` times and then `n` more times is the same
/// as rewriting `m + n` times.
pub proof fn lemma_iterate_compose(s: Seq<char>, rules: Map<u32, &str>, m: nat, n: nat)
    ensures
        iterate(iterate(s, rules, m), rules, n) == iterate(s, rules, m + n),
    decreases n,
{
    if n > 0 {
        lemma_iterate_compose(s, rules, m, (n - 1) as nat);
        assert((m + n - 1) as nat == (m + (n - 1) as nat));
    }
}

/// A word none of whose symbols has a rule stays the same however many
/// iterations are run.
pub proof fn lemma_iterate_keeps_unruled(s: Seq<char>, rules: Map<u32, &str>, n: nat)
    requires
        forall|i: int| 0 <= i < s.len() ==> !rules.contains_key(#[trigger] s[i] as u32),
    ensures
        iterate(s, rules, n) == s,
    decreases n,
{
    if n > 0 {
        lemma_iterate_keeps_unruled(s, rules, (n - 1) as nat);
        lemma_rewrite_keeps_unruled(s, rules);
    }
}

/// When no replacement is empty, more iterations never give a shorter word.
pub proof fn lemma_iterate_length_monotone(s: Seq<char>, rules: Map<u32, &str>, m: nat, n: nat)
    requires
        nonempty_replacements(rules),
        m <= n,
    ensures
        iterate(s, rules, m).len() <= iterate(s, rules, n).len(),
    decreases n,
{
    if m < n {
        lemma_iterate_length_monotone(s, rules, m, (n - 1) as nat);
        lemma_rewrite_never_shrinks(iterate(s, rules, (n - 1) as nat), rules);
    }
}

/// Every iteration is one full rewriting step of the previous one, however
/// long the intermediate word has grown.
pub proof fn lemma_iterate_step(s: Seq<char>, rules: Map<u32, &str>, n: nat)
    ensures
        iterate(s, rules, n + 1) == rewrite(iterate(s, rules, n), rules),
{
    assert((n + 1 - 1) as nat == n);
}

/// Iterating a concatenation gives the concatenation of the iterated parts:
/// every symbol develops on its own, wherever it stands.
pub proof fn lemma_iterate_concat(s1: Seq<char>, s2: Seq<char>, rules: Map<u32, &str>, n: nat)
    ensures
        iterate(s1 + s2, rules, n) == iterate(s1, rules, n) + iterate(s2, rules, n),
    decreases n,
{
    if n > 0 {
        lemma_iterate_concat(s1, s2, rules, (n - 1) as nat);
        lemma_rewrite_concat(
            iterate(s1, rules, (n - 1) as nat),
            iterate(s2, rules, (n - 1) as nat),
            rules,
        );
    }
}

} // verus!
