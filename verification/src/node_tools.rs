use vstd::prelude::*;

use crate::editor_graph::{StateMap, StateValue};
use crate::storage::ID;

verus! {

/// The character stored under `k` in `state`, if a character is stored there.
pub open spec fn state_char(state: Map<Seq<char>, StateValue>, k: Seq<char>) -> Option<char> {
    if state.contains_key(k) {
        match state[k] {
            StateValue::Char(c) => Some(c),
            _ => None,
        }
    } else {
        None
    }
}

/// The float bits stored under `k` in `state`, if a float is stored there.
pub open spec fn state_float_bits(state: Map<Seq<char>, StateValue>, k: Seq<char>) -> Option<u32> {
    if state.contains_key(k) {
        match state[k] {
            StateValue::Float(f) => Some(f),
            _ => None,
        }
    } else {
        None
    }
}

/// The string stored under `k` in `state`, if a string is stored there.
pub open spec fn state_string(state: Map<Seq<char>, StateValue>, k: Seq<char>) -> Option<String> {
    if state.contains_key(k) {
        match state[k] {
            StateValue::String(s) => Some(s),
            _ => None,
        }
    } else {
        None
    }
}

/// The character stored under `name`, if a character is stored there.
pub fn get_state_char(name: &str, state: &StateMap) -> (r: Option<char>)
    requires
        state.wf(),
    ensures
        r == state_char(state@, name@),
{
    let val = state.get(name)?;
    match val {
        StateValue::Char(c) => Some(*c),
        _ => None,
    }
}

/// The bits of the float stored under `name`, if a float is stored there.
pub fn get_state_f32(name: &str, state: &StateMap) -> (r: Option<u32>)
    requires
        state.wf(),
    ensures
        r == state_float_bits(state@, name@),
{
    let val = state.get(name)?;
    match val {
        StateValue::Float(c) => Some(*c),
        _ => None,
    }
}

/// The string stored under `name`, if a string is stored there.
pub fn get_state_string<'a>(name: &str, state: &'a StateMap) -> (r: Option<&'a String>)
    requires
        state.wf(),
    ensures
        match r {
            Some(s) => state_string(state@, name@) == Some(*s),
            None => state_string(state@, name@) is None,
        },
{
    let val = state.get(name)?;
    match val {
        StateValue::String(c) => Some(c),
        _ => None,
    }
}

/// A mutable reference to the character stored under `name`, if a character
/// is stored there; the rest of the state stays as it was.
pub fn get_state_char_mut<'a>(name: &str, state: &'a mut StateMap) -> (r: Option<&'a mut char>)
    requires
        old(state).wf(),
    ensures
        final(state).wf(),
        r is Some <==> state_char(old(state)@, name@) is Some,
        r is Some ==> Some(*r->0) == state_char(old(state)@, name@) && final(state)@ =~= old(state)@.insert(
            name@,
            StateValue::Char(*final(r->0)),
        ),
        r is None ==> final(state)@ =~= old(state)@,
{
    let val = state.get_mut(name)?;
    match val {
        StateValue::Char(c) => Some(c),
        _ => None,
    }
}

/// A mutable reference to the bits of the float stored under `name`, if a
/// float is stored there; the rest of the state stays as it was.
pub fn get_state_f32_mut<'a>(name: &str, state: &'a mut StateMap) -> (r: Option<&'a mut u32>)
    requires
        old(state).wf(),
    ensures
        final(state).wf(),
        r is Some <==> state_float_bits(old(state)@, name@) is Some,
        r is Some ==> Some(*r->0) == state_float_bits(old(state)@, name@) && final(state)@ =~= old(
            state,
        )@.insert(name@, StateValue::Float(*final(r->0))),
        r is None ==> final(state)@ =~= old(state)@,
{
    let val = state.get_mut(name)?;
    match val {
        StateValue::Float(c) => Some(c),
        _ => None,
    }
}

/// A mutable reference to the string stored under `name`, if a string is
/// stored there; the rest of the state stays as it was.
pub fn get_state_string_mut<'a>(name: &str, state: &'a mut StateMap) -> (r: Option<&'a mut String>)
    requires
        old(state).wf(),
    ensures
        final(state).wf(),
        r is Some <==> state_string(old(state)@, name@) is Some,
        r is Some ==> Some(*r->0) == state_string(old(state)@, name@) && final(state)@ =~= old(
            state,
        )@.insert(name@, StateValue::String(*final(r->0))),
        r is None ==> final(state)@ =~= old(state)@,
{
    let val = state.get_mut(name)?;
    match val {
        StateValue::String(c) => Some(c),
        _ => None,
    }
}

/// The connection recorded for `k` in `inputs`: the last pair named `k`, as a
/// map filled from the pairs in order would hold it; `None` if no pair is
/// named `k`.
pub open spec fn recorded_link(inputs: Seq<(String, Option<ID>)>, k: Seq<char>) -> Option<Option<ID>>
    decreases inputs.len(),
{
    if inputs.len() == 0 {
        None
    } else if inputs.last().0@ == k {
        Some(inputs.last().1)
    } else {
        recorded_link(inputs.drop_last(), k)
    }
}

/// The output port feeding the input named `name`, if that input is recorded
/// in `inputs` and connected; otherwise the value comes from the evaluation
/// context instead.
pub fn input_link(name: &str, inputs: &[(String, Option<ID>)]) -> (r: Option<ID>)
    ensures
        r == (match recorded_link(inputs@, name@) {
            Some(Some(id)) => Some(id),
            _ => None,
        }),
{
    let key = name.to_owned();
    let mut i: usize = inputs.len();
    assert(inputs@.take(i as int) =~= inputs@);
    while i > 0
        invariant
            i <= inputs@.len(),
            key@ == name@,
            recorded_link(inputs@, name@) == recorded_link(inputs@.take(i as int), name@),
        decreases i,
    {
        proof {
            assert(inputs@.take(i as int).drop_last() =~= inputs@.take(i - 1));
            assert(inputs@.take(i as int).last() == inputs@[i - 1]);
        }
        if inputs[i - 1].0 == key {
            return inputs[i - 1].1;
        }
        i = i - 1;
    }
    None
}

/// A name holds a value of one kind only: at most one of the character, float
/// and string getters finds something under it.
pub proof fn law_one_kind_per_name(state: Map<Seq<char>, StateValue>, k: Seq<char>)
    ensures
        !(state_char(state, k) is Some && state_float_bits(state, k) is Some),
        !(state_char(state, k) is Some && state_string(state, k) is Some),
        !(state_float_bits(state, k) is Some && state_string(state, k) is Some),
{
}

/// What is written through the reference that a `_mut` getter hands out is
/// what the matching getter reads back, and every other name keeps its value.
pub proof fn law_written_value_is_read_back(
    before: Map<Seq<char>, StateValue>,
    k: Seq<char>,
    c: char,
    f: u32,
    s: String,
)
    ensures
        state_char(before.insert(k, StateValue::Char(c)), k) == Some(c),
        state_float_bits(before.insert(k, StateValue::Float(f)), k) == Some(f),
        state_string(before.insert(k, StateValue::String(s)), k) == Some(s),
        forall|other: Seq<char>|
            other != k ==> #[trigger] state_char(before.insert(k, StateValue::Char(c)), other)
                == state_char(before, other),
        forall|other: Seq<char>|
            other != k ==> #[trigger] state_float_bits(before.insert(k, StateValue::Float(f)), other)
                == state_float_bits(before, other),
        forall|other: Seq<char>|
            other != k ==> #[trigger] state_string(before.insert(k, StateValue::String(s)), other)
                == state_string(before, other),
{
}

/// The connection recorded for a name is the one of the last pair with that
/// name: pairs after it with other names do not change it.
pub proof fn law_last_recorded_link_wins(
    inputs: Seq<(String, Option<ID>)>,
    name: String,
    link: Option<ID>,
    later: Seq<(String, Option<ID>)>,
)
    requires
        forall|i: int| 0 <= i < later.len() ==> (#[trigger] later[i]).0@ != name@,
    ensures
        recorded_link(inputs.push((name, link)) + later, name@) == Some(link),
    decreases later.len(),
{
    if later.len() > 0 {
        let shorter = later.drop_last();
        law_last_recorded_link_wins(inputs, name, link, shorter);
        assert((inputs.push((name, link)) + later).drop_last() =~= inputs.push((name, link)) + shorter);
    } else {
        assert(inputs.push((name, link)) + later =~= inputs.push((name, link)));
    }
}

} // verus!
