//! The byte adapter and the automaton it wraps run in step: over the UTF-8
//! encoding of a string the adapter goes through the states that the
//! wrapped automaton goes through over the characters, and in between it
//! only gathers bytes.
use crate::adapters::{run, run_from, AutomatonDFAAdapter, DFAUtf8Adapter, DFA};
use crate::utf8::first_char;
use vstd::prelude::*;
use vstd::utf8::{
    encode_scalar, encode_utf8, encode_utf8_decode_utf8, encode_utf8_first_scalar,
    encode_utf8_valid_utf8,
};

verus! {

/// Running over a concatenation is running over its parts in turn.
pub proof fn lemma_run_from_concat<A: DFA>(
    aut: &A,
    state: <A::State as DeepView>::V,
    a: Seq<A::InputType>,
    b: Seq<A::InputType>,
)
    ensures
        run_from(aut, state, a + b) == run_from(aut, run_from(aut, state, a), b),
    decreases b.len(),
{
    if b.len() > 0 {
        lemma_run_from_concat(aut, state, a, b.drop_last());
        assert((a + b).drop_last() == a + b.drop_last());
    }
}

/// The encoding of one character has one to four bytes and decodes to
/// that character; no shorter prefix of it decodes.
pub proof fn lemma_scalar_decodes(c: char, k: int)
    ensures
        1 <= encode_scalar(c as u32).len() <= 4,
        first_char(encode_scalar(c as u32)) == Some(c),
        0 < k < encode_scalar(c as u32).len() ==> first_char(encode_scalar(c as u32).take(k))
            is None,
{
    let chars = seq![c];
    let bytes = encode_scalar(c as u32);
    assert(encode_utf8(chars) == bytes) by {
        assert(encode_utf8(chars.drop_first()) == Seq::<u8>::empty());
    }
    encode_utf8_first_scalar(chars);
    encode_utf8_valid_utf8(chars);
    encode_utf8_decode_utf8(chars);
}

/// Within the encoding of one character the adapter only gathers bytes;
/// at its end the wrapped automaton takes the character.
pub proof fn lemma_adapter_over_scalar<Wrapped: DFA<InputType = char>>(
    adapter: &DFAUtf8Adapter<Wrapped>,
    state: <Wrapped::State as DeepView>::V,
    c: char,
    k: int,
)
    requires
        0 <= k <= encode_scalar(c as u32).len(),
    ensures
        k < encode_scalar(c as u32).len() ==> run_from(
            adapter,
            (state, Seq::<u8>::empty()),
            encode_scalar(c as u32).take(k),
        ) == (state, encode_scalar(c as u32).take(k)),
        k == encode_scalar(c as u32).len() ==> run_from(
            adapter,
            (state, Seq::<u8>::empty()),
            encode_scalar(c as u32),
        ) == (adapter.0.spec_accept(state, c), Seq::<u8>::empty()),
    decreases k,
{
    let bytes = encode_scalar(c as u32);
    lemma_scalar_decodes(c, k);
    if k > 0 {
        lemma_adapter_over_scalar(adapter, state, c, k - 1);
        let before = bytes.take(k - 1);
        let upto = bytes.take(k);
        assert(upto.drop_last() == before);
        assert(before.push(bytes[k - 1]) == upto);
        if k == bytes.len() {
            assert(upto == bytes);
        }
    }
}

/// UTF-8 round trip, from any state: over the encoding of `chars` the
/// adapter reaches the state that the wrapped automaton reaches over
/// `chars`, with no bytes left over.
pub proof fn lemma_round_trip_from<Wrapped: DFA<InputType = char>>(
    adapter: &DFAUtf8Adapter<Wrapped>,
    state: <Wrapped::State as DeepView>::V,
    chars: Seq<char>,
)
    ensures
        run_from(adapter, (state, Seq::<u8>::empty()), encode_utf8(chars)) == (
            run_from(&adapter.0, state, chars),
            Seq::<u8>::empty(),
        ),
    decreases chars.len(),
{
    if chars.len() > 0 {
        let c = chars[0];
        let rest = chars.drop_first();
        let head = encode_scalar(c as u32);
        let next = adapter.0.spec_accept(state, c);
        lemma_adapter_over_scalar(adapter, state, c, head.len() as int);
        lemma_run_from_concat(adapter, (state, Seq::<u8>::empty()), head, encode_utf8(rest));
        lemma_round_trip_from(adapter, next, rest);
        assert(chars == seq![c] + rest);
        lemma_run_from_concat(&adapter.0, state, seq![c], rest);
        assert(run_from(&adapter.0, state, seq![c]) == next) by {
            assert(seq![c].drop_last() == Seq::<char>::empty());
            assert(run_from(&adapter.0, state, Seq::<char>::empty()) == state);
        }
    }
}

/// UTF-8 round trip: fed the encoding of a string, the adapter reaches
/// the state that the wrapped automaton reaches on the characters of the
/// string, with no bytes left over, and it matches exactly when the
/// wrapped automaton does.
pub proof fn lemma_round_trip<Wrapped: DFA<InputType = char>>(
    adapter: &DFAUtf8Adapter<Wrapped>,
    chars: Seq<char>,
)
    ensures
        run(adapter, encode_utf8(chars)) == (run(&adapter.0, chars), Seq::<u8>::empty()),
        adapter.spec_is_match(run(adapter, encode_utf8(chars))) == adapter.0.spec_is_match(
            run(&adapter.0, chars),
        ),
{
    lemma_round_trip_from(adapter, adapter.0.spec_start(), chars);
}

/// Between two characters the adapter does not match: fed the encoding
/// of a string and then a part of the encoding of one more character, it
/// stays in the state reached after the string, holds that part in its
/// buffer, and reports no match.
pub proof fn lemma_no_match_inside_scalar<Wrapped: DFA<InputType = char>>(
    adapter: &DFAUtf8Adapter<Wrapped>,
    chars: Seq<char>,
    c: char,
    k: int,
)
    requires
        0 < k < encode_scalar(c as u32).len(),
    ensures
        run(adapter, encode_utf8(chars) + encode_scalar(c as u32).take(k)) == (
            run(&adapter.0, chars),
            encode_scalar(c as u32).take(k),
        ),
        !adapter.spec_is_match(run(adapter, encode_utf8(chars) + encode_scalar(c as u32).take(k))),
{
    let part = encode_scalar(c as u32).take(k);
    lemma_round_trip(adapter, chars);
    lemma_run_from_concat(adapter, adapter.spec_start(), encode_utf8(chars), part);
    lemma_adapter_over_scalar(adapter, run(&adapter.0, chars), c, k);
}

/// A byte automaton made ready for a traversal runs as the automaton
/// inside it, from any state.
pub proof fn lemma_automaton_adapter_run_from<Wrapped: DFA<InputType = u8>>(
    aut: &AutomatonDFAAdapter<Wrapped>,
    state: <Wrapped::State as DeepView>::V,
    input: Seq<u8>,
)
    ensures
        run_from(aut, state, input) == run_from(&aut.0, state, input),
    decreases input.len(),
{
    if input.len() > 0 {
        lemma_automaton_adapter_run_from(aut, state, input.drop_last());
    }
}

/// A byte automaton made ready for a traversal runs as the automaton
/// inside it.
pub proof fn lemma_automaton_adapter_run<Wrapped: DFA<InputType = u8>>(
    aut: &AutomatonDFAAdapter<Wrapped>,
    input: Seq<u8>,
)
    ensures
        run(aut, input) == run(&aut.0, input),
{
    lemma_automaton_adapter_run_from(aut, aut.spec_start(), input);
}

} // verus!
