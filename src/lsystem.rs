//! One rewriting step of an L-system: every symbol with a rule is replaced by
//! the rule's text, every other symbol is kept.
use std::collections::HashMap;
use vstd::prelude::*;

verus! {

/// What one symbol becomes: the text of its rule, or the symbol itself.
pub open spec fn replacement(rules: Map<char, &str>, c: char) -> Seq<char> {
    if rules.contains_key(c) {
        rules[c]@
    } else {
        seq![c]
    }
}

/// `state` with every symbol replaced, in order.
pub open spec fn rewritten(state: Seq<char>, rules: Map<char, &str>) -> Seq<char>
    decreases state.len(),
{
    if state.len() == 0 {
        Seq::empty()
    } else {
        rewritten(state.drop_last(), rules) + replacement(rules, state.last())
    }
}

/// Relies on `HashMap::get`: the text stored under `c`, if there is one.
#[verifier::external_body]
fn rule_for<'a, 'b>(rules: &'a HashMap<char, &'b str>, c: char) -> (r: Option<&'b str>)
    ensures
        match r {
            Some(t) => rules@.contains_key(c) && rules@[c] == t,
            None => !rules@.contains_key(c),
        },
{
    rules.get(&c).copied()
}

/// Relies on `String::push`: appends one character.
#[verifier::external_body]
fn push_char(s: &mut String, c: char)
    ensures
        final(s)@ == old(s)@.push(c),
{
    s.push(c)
}

/// Relies on `String::push_str`: appends a string slice.
#[verifier::external_body]
fn push_text(s: &mut String, t: &str)
    ensures
        final(s)@ == old(s)@ + t@,
{
    s.push_str(t)
}

/// One rewriting step: each symbol of `state` with a rule in `rules` is
/// replaced by the rule's text, the others are kept, in order.
pub fn l_system_step(state: String, rules: &HashMap<char, &str>) -> (r: String)
    ensures
        r@ == rewritten(state@, rules@),
{
    let mut result = String::new();
    let ghost symbols = state@;
    for c in it: state.chars()
        invariant
            it.seq() == symbols,
            result@ == rewritten(symbols.take(it.index() as int), rules@),
    {
        let ghost before = symbols.take(it.index() as int);
        match rule_for(rules, c) {
            Some(t) => push_text(&mut result, t),
            None => push_char(&mut result, c),
        }
        proof {
            let now = symbols.take(it.index() + 1);
            assert(now.drop_last() =~= before);
        }
    }
    proof {
        assert(symbols.take(symbols.len() as int) =~= symbols);
    }
    result
}

} // verus!
