//! The empty query: the matcher by edit distance reaches a key at the cost
//! of inserting every character of the key, so it yields the keys that
//! have no more characters than the threshold allows.
use crate::adapters::{
    is_least_matching_weight, run, BeamSearchAdapter, DFAUtf8Adapter, WeightedNFA, DFA,
};
use crate::agenda::{min_index, Entry};
use crate::beam::{advanced, beam_search, initial_agenda, NoExpand};
use crate::ext::walk::{lemma_walk_take, walk_key, walk_node, walk_valid, yields, Graph};
use crate::levenshtein::weighted::{
    levenshtein_edges, stack_automaton, LevenshteinStack, WeightedLevenshteinNFA,
};
use crate::roundtrip::{
    lemma_automaton_adapter_run, lemma_no_match_inside_scalar, lemma_round_trip,
};
use vstd::prelude::*;
use vstd::utf8::{encode_scalar, encode_utf8};

verus! {

/// The frontier for an empty query after a key of `n` characters: the
/// only position, at the cost of `n` insertions, unless that is above the
/// threshold.
pub open spec fn empty_query_frontier(n: nat, threshold: u64) -> Seq<(usize, u64)> {
    if n <= threshold {
        seq![(0usize, n as u64)]
    } else {
        Seq::empty()
    }
}

/// One more character costs an empty query one more insertion.
pub proof fn lemma_empty_query_step(
    adapter: &BeamSearchAdapter<WeightedLevenshteinNFA>,
    n: nat,
    inp: char,
)
    requires
        adapter.aut.query().len() == 0,
    ensures
        adapter.spec_accept(empty_query_frontier(n, adapter.threshold), inp)
            == empty_query_frontier(n + 1, adapter.threshold),
{
    let nfa = &adapter.aut;
    let threshold = adapter.threshold;
    let frontier = empty_query_frontier(n, threshold);
    let agenda = initial_agenda(nfa, frontier, inp);
    let none = Seq::<(usize, u64)>::empty();
    let drained = Seq::<Entry<usize>>::empty();
    assert(beam_search(nfa, &NoExpand, drained, none, threshold, adapter.beam_size) == none);
    if n <= threshold {
        let edges = levenshtein_edges(nfa.query(), 0, inp, 0, false);
        assert(edges == seq![(0usize, 1u64)]);
        let entry = Entry { base: n as u64, edges };
        assert(agenda == seq![entry]);
        assert(min_index(agenda) == 0);
        assert(agenda.remove(0) == drained);
        if n + 1 <= threshold {
            let found = seq![(0usize, (n + 1) as u64)];
            assert(none.push((0usize, (n + 1) as u64)) == found);
            let spent = advanced(entry);
            assert(spent.edges.len() == 0);
            let agenda2 = drained.push(spent);
            assert(min_index(agenda2) == 0);
            assert(agenda2.remove(0) == drained);
            assert(beam_search(nfa, &NoExpand, drained, found, threshold, adapter.beam_size)
                == found);
            assert(beam_search(nfa, &NoExpand, agenda2, found, threshold, adapter.beam_size)
                == found);
        }
    } else {
        assert(agenda == drained);
    }
}

/// For an empty query the frontier after a key holds the only position,
/// at the cost of one insertion for each character of the key, and is
/// empty where that cost is above the threshold.
pub proof fn lemma_empty_query_frontier(
    adapter: &BeamSearchAdapter<WeightedLevenshteinNFA>,
    key: Seq<char>,
)
    requires
        adapter.aut.query().len() == 0,
    ensures
        run(adapter, key) == empty_query_frontier(key.len(), adapter.threshold),
    decreases key.len(),
{
    if key.len() > 0 {
        lemma_empty_query_frontier(adapter, key.drop_last());
        lemma_empty_query_step(adapter, key.drop_last().len(), key.last());
    }
}

/// A shorter prefix of the encoding of a string is the encoding of some
/// of its characters and a part of the encoding of the next.
pub proof fn lemma_prefix_of_encoding(chars: Seq<char>, m: int) -> (r: (int, int))
    requires
        0 <= m < encode_utf8(chars).len(),
    ensures
        0 <= r.0 < chars.len(),
        0 <= r.1 < encode_scalar(chars[r.0] as u32).len(),
        encode_utf8(chars).take(m) == encode_utf8(chars.take(r.0)) + encode_scalar(
            chars[r.0] as u32,
        ).take(r.1),
    decreases chars.len(),
{
    let head = encode_scalar(chars[0] as u32);
    let rest = chars.drop_first();
    let all = encode_utf8(chars);
    assert(all == head + encode_utf8(rest));
    if m < head.len() {
        assert(chars.take(0) == Seq::<char>::empty());
        assert(all.take(m) == Seq::<u8>::empty() + head.take(m));
        (0, m)
    } else {
        let (i, k) = lemma_prefix_of_encoding(rest, m - head.len());
        let part = encode_scalar(rest[i] as u32).take(k);
        assert(chars.take(i + 1).drop_first() == rest.take(i));
        assert(encode_utf8(chars.take(i + 1)) == head + encode_utf8(rest.take(i)));
        assert(all.take(m) == head + encode_utf8(rest).take(m - head.len()));
        assert(head + (encode_utf8(rest.take(i)) + part) == (head + encode_utf8(rest.take(i)))
            + part);
        (i + 1, k)
    }
}

/// The keys that the matcher yields for an empty query: a key that is the
/// encoding of a string is yielded exactly where it ends in a final node
/// and has no more characters than the threshold allows, and the least
/// cost among the matching entries reached after it is the number of its
/// characters.
pub proof fn lemma_empty_query_yields(
    stack: &LevenshteinStack,
    g: Graph,
    walk: Seq<int>,
    chars: Seq<char>,
)
    requires
        stack_automaton(stack).query().len() == 0,
        walk.len() > 0,
        walk_valid(g, walk),
        walk_key(g, walk) == encode_utf8(chars),
    ensures
        yields(g, stack, walk) <==> g.is_final(walk_node(g, walk)) && chars.len() <= (
        (stack.0).0).threshold,
        chars.len() <= ((stack.0).0).threshold ==> is_least_matching_weight(
            stack_automaton(stack),
            run(stack, walk_key(g, walk)).0,
            chars.len() as u64,
        ),
{
    let outer: &DFAUtf8Adapter<BeamSearchAdapter<WeightedLevenshteinNFA>> = &stack.0;
    let adapter = &outer.0;
    let nfa = &adapter.aut;
    let threshold = adapter.threshold;
    let key = walk_key(g, walk);
    lemma_walk_take(g, walk, 0);
    lemma_automaton_adapter_run(stack, key);
    lemma_round_trip(outer, chars);
    lemma_empty_query_frontier(adapter, chars);
    let last = run(adapter, chars);
    if chars.len() <= threshold {
        assert(last[0] == (0usize, chars.len() as u64));
        assert(nfa.spec_is_match(last[0].0));
        assert forall|n: int| 0 <= n < walk.len() implies stack.spec_can_match(
            run(stack, #[trigger] key.take(n)),
        ) by {
            let (i, k) = lemma_prefix_of_encoding(chars, n);
            let front = chars.take(i);
            lemma_automaton_adapter_run(stack, key.take(n));
            lemma_empty_query_frontier(adapter, front);
            let reached = run(adapter, front);
            assert(reached[0] == (0usize, front.len() as u64));
            assert(nfa.spec_can_match(reached[0].0));
            if k == 0 {
                lemma_round_trip(outer, front);
                assert(encode_scalar(chars[i] as u32).take(0) == Seq::<u8>::empty());
                assert(encode_utf8(front) + Seq::<u8>::empty() == encode_utf8(front));
            } else {
                lemma_no_match_inside_scalar(outer, front, chars[i], k);
            }
        }
    } else {
        assert(last.len() == 0);
    }
}

} // verus!
