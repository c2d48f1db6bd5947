//! Parallel rewriting of L-System strings.
use std::collections::HashMap;
use vstd::prelude::*;

verus! {

broadcast use vstd::std_specs::hash::group_hash_axioms;

/// What one symbol becomes in one rewriting step: its replacement when a rule
/// exists for it, and the symbol itself otherwise. Rules are keyed by the
/// symbol's Unicode scalar value.
pub open spec fn rewrite_symbol(c: char, rules: Map<u32, &str>) -> Seq<char> {
    if rules.contains_key(c as u32) {
        rules[c as u32]@
    } else {
        seq![c]
    }
}

/// One rewriting step applied to every symbol of `s` at once.
pub open spec fn rewrite(s: Seq<char>, rules: Map<u32, &str>) -> Seq<char>
    decreases s.len(),
{
    if s.len() == 0 {
        Seq::empty()
    } else {
        rewrite(s.drop_last(), rules) + rewrite_symbol(s.last(), rules)
    }
}

/// Every replacement in the rule table is a non-empty word.
pub open spec fn nonempty_replacements(rules: Map<u32, &str>) -> bool {
    forall|k: u32| #[trigger] rules.contains_key(k) ==> rules[k]@.len() > 0
}

/// Appends one character to a `String`.
#[verifier::external_body]
fn push_char(s: &mut String, c: char)
    ensures
        final(s)@ == old(s)@.push(c),
{
    s.push(c);
}

/// Applies L-System rules to a word, returning the new string.
/// Symbols without a rule are kept unchanged.
pub fn apply_rules(word: &str, rules: &HashMap<u32, &str>) -> (result: String)
    ensures
        result@ == rewrite(word@, rules@),
{
    let mut result = String::new();
    let ghost s = word@;
    for ch in it: word.chars()
        invariant
            it.seq() == s,
            result@ == rewrite(s.take(it.index() as int), rules@),
    {
        assert(s.take(it.index() + 1).drop_last() == s.take(it.index() as int));
        let key: u32 = ch as u32;
        match rules.get(&key) {
            Some(replacement) => {
                result.append(*replacement);
            },
            None => {
                push_char(&mut result, ch);
            },
        }
    }
    assert(s.take(s.len() as int) == s);
    result
}

/// Rewriting works symbol by symbol: rewriting a concatenation gives the
/// concatenation of the rewritten parts.
pub proof fn lemma_rewrite_concat(s1: Seq<char>, s2: Seq<char>, rules: Map<u32, &str>)
    ensures
        rewrite(s1 + s2, rules) == rewrite(s1, rules) + rewrite(s2, rules),
    decreases s2.len(),
{
    if s2.len() == 0 {
        assert(s1 + s2 == s1);
        assert(rewrite(s1, rules) + rewrite(s2, rules) == rewrite(s1, rules));
    } else {
        let t = s1 + s2;
        assert(t.drop_last() == s1 + s2.drop_last());
        assert(t.last() == s2.last());
        lemma_rewrite_concat(s1, s2.drop_last(), rules);
        assert(rewrite(s1, rules) + rewrite(s2.drop_last(), rules) + rewrite_symbol(s2.last(), rules)
            == rewrite(s1, rules) + (rewrite(s2.drop_last(), rules) + rewrite_symbol(s2.last(), rules)));
    }
}

/// A word none of whose symbols has a rule is left unchanged by rewriting;
/// in particular, rewriting with no rules at all is the identity.
pub proof fn lemma_rewrite_keeps_unruled(s: Seq<char>, rules: Map<u32, &str>)
    requires
        forall|i: int| 0 <= i < s.len() ==> !rules.contains_key(#[trigger] s[i] as u32),
    ensures
        rewrite(s, rules) == s,
    decreases s.len(),
{
    if s.len() > 0 {
        let last = s.len() - 1;
        assert(!rules.contains_key(s[last] as u32));
        lemma_rewrite_keeps_unruled(s.drop_last(), rules);
        assert(s.drop_last().push(s.last()) == s);
    }
}

/// With no rules, rewriting leaves every word unchanged.
pub proof fn lemma_rewrite_without_rules(s: Seq<char>)
    ensures
        rewrite(s, Map::<u32, &str>::empty()) == s,
{
    lemma_rewrite_keeps_unruled(s, Map::<u32, &str>::empty());
}

/// When no replacement is empty, a rewriting step never shortens the word.
pub proof fn lemma_rewrite_never_shrinks(s: Seq<char>, rules: Map<u32, &str>)
    requires
        nonempty_replacements(rules),
    ensures
        rewrite(s, rules).len() >= s.len(),
    decreases s.len(),
{
    if s.len() > 0 {
        lemma_rewrite_never_shrinks(s.drop_last(), rules);
        let c = s.last();
        if rules.contains_key(c as u32) {
            assert(rules[c as u32]@.len() > 0);
        }
    }
}

/// A symbol that has a rule becomes exactly that rule's replacement, whatever
/// its length, and a symbol without a rule stays as it is.
pub proof fn lemma_rewrite_single_symbol(c: char, rules: Map<u32, &str>)
    ensures
        rules.contains_key(c as u32) ==> rewrite(seq![c], rules) == rules[c as u32]@,
        !rules.contains_key(c as u32) ==> rewrite(seq![c], rules) == seq![c],
{
    let w = seq![c];
    assert(w.drop_last() =~= Seq::<char>::empty());
    assert(rewrite(w.drop_last(), rules) == Seq::<char>::empty());
    assert(w.last() == c);
    assert(rewrite(w, rules) == Seq::<char>::empty() + rewrite_symbol(c, rules));
    assert(Seq::<char>::empty() + rewrite_symbol(c, rules) =~= rewrite_symbol(c, rules));
}

/// Appending a symbol to a word appends what that symbol becomes: the
/// replacement of its rule, or the symbol itself when it has none.
pub proof fn lemma_rewrite_push(s: Seq<char>, c: char, rules: Map<u32, &str>)
    ensures
        rules.contains_key(c as u32) ==> rewrite(s.push(c), rules) == rewrite(s, rules)
            + rules[c as u32]@,
        !rules.contains_key(c as u32) ==> rewrite(s.push(c), rules) == rewrite(s, rules).push(c),
{
    lemma_rewrite_concat(s, seq![c], rules);
    assert(s + seq![c] == s.push(c));
    lemma_rewrite_single_symbol(c, rules);
    assert(rewrite(s, rules) + seq![c] == rewrite(s, rules).push(c));
}

/// The rewritten word is as long as the replacements of the symbols that have
/// a rule plus one for each symbol that has none.
pub open spec fn rewritten_len(s: Seq<char>, rules: Map<u32, &str>) -> nat
    decreases s.len(),
{
    if s.len() == 0 {
        0
    } else {
        rewritten_len(s.drop_last(), rules) + if rules.contains_key(s.last() as u32) {
            rules[s.last() as u32]@.len()
        } else {
            1nat
        }
    }
}

/// The length of a rewritten word is the sum, over its symbols, of the length
/// of what each symbol becomes.
pub proof fn lemma_rewrite_len(s: Seq<char>, rules: Map<u32, &str>)
    ensures
        rewrite(s, rules).len() == rewritten_len(s, rules),
    decreases s.len(),
{
    if s.len() > 0 {
        lemma_rewrite_len(s.drop_last(), rules);
        lemma_rewrite_push(s.drop_last(), s.last(), rules);
        assert(s.drop_last().push(s.last()) == s);
    }
}

} // verus!
