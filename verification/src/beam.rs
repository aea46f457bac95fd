//! What one beam step computes, as a function of the agenda it starts from.
//!
//! The step takes the cheapest edge off the agenda again and again. An edge
//! whose accumulated cost is above the threshold ends the sequence it came
//! from. An edge to a state that is already in the frontier is skipped. Any
//! other edge adds its state to the frontier, and the step ends as soon as
//! the frontier holds `beam_size` entries.
use crate::adapters::{FollowEpsilonNFA, WeightedNFA};
use crate::agenda::{
    agenda_size, entry_key, key_less, lemma_agenda_size_push, lemma_agenda_size_remove,
    lemma_min_index, min_index, Entry,
};
use vstd::prelude::*;

verus! {

/// What a beam step does when it admits a state into the frontier: it may
/// put one more edge sequence on the agenda.
pub trait ExtraExpand<NFA: WeightedNFA> {
    /// The edges put on the agenda for `state`, if any.
    spec fn spec_expand(&self, nfa: &NFA, state: <NFA::State as DeepView>::V) -> Option<
        Seq<(<NFA::State as DeepView>::V, u64)>,
    >;

    fn expand(&self, nfa: &NFA, state: &NFA::State) -> (edges: Option<NFA::NextStateIter>)
        ensures
            match edges {
                Some(it) => self.spec_expand(nfa, state.deep_view()) == Some(
                    crate::adapters::EdgeIter::remaining(&it),
                ),
                None => self.spec_expand(nfa, state.deep_view()) is None,
            },
    ;
}

/// Admitting a state puts nothing on the agenda.
pub struct NoExpand;

/// Admitting a state puts its epsilon edges on the agenda.
pub struct FollowEpsilons;

impl<NFA: WeightedNFA> ExtraExpand<NFA> for NoExpand {
    open spec fn spec_expand(&self, nfa: &NFA, state: <NFA::State as DeepView>::V) -> Option<
        Seq<(<NFA::State as DeepView>::V, u64)>,
    > {
        None
    }

    fn expand(&self, nfa: &NFA, state: &NFA::State) -> (edges: Option<NFA::NextStateIter>) {
        None
    }
}

impl<NFA: FollowEpsilonNFA> ExtraExpand<NFA> for FollowEpsilons {
    open spec fn spec_expand(&self, nfa: &NFA, state: <NFA::State as DeepView>::V) -> Option<
        Seq<(<NFA::State as DeepView>::V, u64)>,
    > {
        Some(nfa.spec_follow_epsilon(state))
    }

    fn expand(&self, nfa: &NFA, state: &NFA::State) -> (edges: Option<NFA::NextStateIter>) {
        Some(nfa.follow_epsilon(state))
    }
}

/// Whether `state` is one of the states of `found`.
pub open spec fn found_contains<S>(found: Seq<(S, u64)>, state: S) -> bool {
    exists|i: int| 0 <= i < found.len() && (#[trigger] found[i]).0 == state
}

/// How many more entries the frontier takes before the beam is full.
pub open spec fn beam_room(found_len: nat, beam_size: usize) -> nat {
    if found_len < beam_size {
        (beam_size - found_len) as nat
    } else {
        0
    }
}

/// The agenda after admitting `state` at accumulated cost `weight`.
pub open spec fn expanded<NFA: WeightedNFA, X: ExtraExpand<NFA>>(
    nfa: &NFA,
    x: &X,
    agenda: Seq<Entry<<NFA::State as DeepView>::V>>,
    state: <NFA::State as DeepView>::V,
    weight: u64,
) -> Seq<Entry<<NFA::State as DeepView>::V>> {
    match x.spec_expand(nfa, state) {
        Some(edges) => agenda.push(Entry { base: weight, edges }),
        None => agenda,
    }
}

/// An entry without its first edge.
pub open spec fn advanced<S>(entry: Entry<S>) -> Entry<S> {
    Entry { base: entry.base, edges: entry.edges.skip(1) }
}

/// The frontier that a beam step ends with, when it starts from `agenda`
/// with `found` already in the frontier.
pub open spec fn beam_search<NFA: WeightedNFA, X: ExtraExpand<NFA>>(
    nfa: &NFA,
    x: &X,
    agenda: Seq<Entry<<NFA::State as DeepView>::V>>,
    found: Seq<(<NFA::State as DeepView>::V, u64)>,
    threshold: u64,
    beam_size: usize,
) -> Seq<(<NFA::State as DeepView>::V, u64)>
    decreases beam_room(found.len(), beam_size), agenda_size(agenda),
{
    if agenda.len() == 0 {
        found
    } else {
        let i = min_index(agenda);
        let entry = agenda[i];
        let rest = agenda.remove(i);
        proof {
            lemma_min_index(agenda);
            lemma_agenda_size_remove(agenda, i);
            lemma_agenda_size_push(rest, advanced(entry));
        }
        if entry.edges.len() == 0 {
            beam_search(nfa, x, rest, found, threshold, beam_size)
        } else if entry.base + entry.edges[0].1 > threshold {
            beam_search(nfa, x, rest, found, threshold, beam_size)
        } else if found_contains(found, entry.edges[0].0) {
            beam_search(nfa, x, rest.push(advanced(entry)), found, threshold, beam_size)
        } else {
            let state = entry.edges[0].0;
            let weight = (entry.base + entry.edges[0].1) as u64;
            let found2 = found.push((state, weight));
            if found2.len() >= beam_size {
                found2
            } else {
                beam_search(
                    nfa,
                    x,
                    expanded(nfa, x, rest, state, weight).push(advanced(entry)),
                    found2,
                    threshold,
                    beam_size,
                )
            }
        }
    }
}

/// The agenda a beam step starts from: for each frontier entry, its edges
/// on `inp`, at the accumulated cost of the entry.
pub open spec fn initial_agenda<NFA: WeightedNFA>(
    nfa: &NFA,
    frontier: Seq<(<NFA::State as DeepView>::V, u64)>,
    inp: NFA::InputType,
) -> Seq<Entry<<NFA::State as DeepView>::V>> {
    Seq::new(
        frontier.len(),
        |i: int| Entry { base: frontier[i].1, edges: nfa.spec_accept(frontier[i].0, inp) },
    )
}

/// Every edge of `entry` whose accumulated cost is within `threshold`
/// leads to a state and cost that satisfy `p`.
pub open spec fn entry_satisfies<S>(
    entry: Entry<S>,
    threshold: u64,
    p: spec_fn(S, u64) -> bool,
) -> bool {
    forall|j: int|
        0 <= j < entry.edges.len() && entry.base + (#[trigger] entry.edges[j]).1 <= threshold ==> p(
            entry.edges[j].0,
            (entry.base + entry.edges[j].1) as u64,
        )
}

/// Every entry of `agenda` satisfies `p` in the sense of `entry_satisfies`.
pub open spec fn agenda_satisfies<S>(
    agenda: Seq<Entry<S>>,
    threshold: u64,
    p: spec_fn(S, u64) -> bool,
) -> bool {
    forall|k: int| 0 <= k < agenda.len() ==> entry_satisfies(#[trigger] agenda[k], threshold, p)
}

/// Every entry of the frontier `found` satisfies `p`.
pub open spec fn found_satisfies<S>(found: Seq<(S, u64)>, p: spec_fn(S, u64) -> bool) -> bool {
    forall|i: int| 0 <= i < found.len() ==> p((#[trigger] found[i]).0, found[i].1)
}

/// What admitting a state that satisfies `p` adds to the agenda satisfies `p` too.
pub open spec fn expand_satisfies<NFA: WeightedNFA, X: ExtraExpand<NFA>>(
    nfa: &NFA,
    x: &X,
    threshold: u64,
    p: spec_fn(<NFA::State as DeepView>::V, u64) -> bool,
) -> bool {
    forall|s: <NFA::State as DeepView>::V, w: u64| #[trigger]
        p(s, w) ==> match x.spec_expand(nfa, s) {
            Some(edges) => entry_satisfies(Entry { base: w, edges }, threshold, p),
            None => true,
        }
}

/// A property that holds of the frontier a beam step starts with, of what
/// every edge on the agenda leads to, and of what every admitted state adds
/// to the agenda, holds of the frontier the step ends with.
pub proof fn lemma_beam_search_satisfies<NFA: WeightedNFA, X: ExtraExpand<NFA>>(
    nfa: &NFA,
    x: &X,
    agenda: Seq<Entry<<NFA::State as DeepView>::V>>,
    found: Seq<(<NFA::State as DeepView>::V, u64)>,
    threshold: u64,
    beam_size: usize,
    p: spec_fn(<NFA::State as DeepView>::V, u64) -> bool,
)
    requires
        found_satisfies(found, p),
        agenda_satisfies(agenda, threshold, p),
        expand_satisfies(nfa, x, threshold, p),
    ensures
        found_satisfies(beam_search(nfa, x, agenda, found, threshold, beam_size), p),
    decreases beam_room(found.len(), beam_size), agenda_size(agenda),
{
    if agenda.len() > 0 {
        let i = min_index(agenda);
        let entry = agenda[i];
        let rest = agenda.remove(i);
        lemma_min_index(agenda);
        lemma_agenda_size_remove(agenda, i);
        lemma_agenda_size_push(rest, advanced(entry));
        assert(entry_satisfies(entry, threshold, p));
        assert(agenda_satisfies(rest, threshold, p)) by {
            assert forall|k: int| 0 <= k < rest.len() implies entry_satisfies(
                #[trigger] rest[k],
                threshold,
                p,
            ) by {
                if k < i {
                    assert(rest[k] == agenda[k]);
                } else {
                    assert(rest[k] == agenda[k + 1]);
                }
            }
        }
        if entry.edges.len() == 0 {
            lemma_beam_search_satisfies(nfa, x, rest, found, threshold, beam_size, p);
        } else if entry.base + entry.edges[0].1 > threshold {
            lemma_beam_search_satisfies(nfa, x, rest, found, threshold, beam_size, p);
        } else {
            let next = advanced(entry);
            assert(entry_satisfies(next, threshold, p)) by {
                assert forall|j: int|
                    0 <= j < next.edges.len() && next.base + (#[trigger] next.edges[j]).1
                        <= threshold implies p(
                    next.edges[j].0,
                    (next.base + next.edges[j].1) as u64,
                ) by {
                    assert(next.edges[j] == entry.edges[j + 1]);
                }
            }
            if found_contains(found, entry.edges[0].0) {
                let agenda2 = rest.push(next);
                assert(agenda_satisfies(agenda2, threshold, p)) by {
                    assert forall|k: int| 0 <= k < agenda2.len() implies entry_satisfies(
                        #[trigger] agenda2[k],
                        threshold,
                        p,
                    ) by {
                        if k < rest.len() {
                            assert(agenda2[k] == rest[k]);
                        }
                    }
                }
                lemma_beam_search_satisfies(nfa, x, agenda2, found, threshold, beam_size, p);
            } else {
                let state = entry.edges[0].0;
                let weight = (entry.base + entry.edges[0].1) as u64;
                let found2 = found.push((state, weight));
                assert(p(state, weight));
                assert(found_satisfies(found2, p)) by {
                    assert forall|k: int| 0 <= k < found2.len() implies p(
                        (#[trigger] found2[k]).0,
                        found2[k].1,
                    ) by {
                        if k < found.len() {
                            assert(found2[k] == found[k]);
                        }
                    }
                }
                if found2.len() < beam_size {
                    let grown = expanded(nfa, x, rest, state, weight);
                    let agenda2 = grown.push(next);
                    assert(agenda_satisfies(agenda2, threshold, p)) by {
                        assert forall|k: int| 0 <= k < agenda2.len() implies entry_satisfies(
                            #[trigger] agenda2[k],
                            threshold,
                            p,
                        ) by {
                            if k < rest.len() {
                                assert(agenda2[k] == rest[k]);
                            }
                        }
                    }
                    match x.spec_expand(nfa, state) {
                        Some(edges) => {
                            lemma_agenda_size_push(rest, Entry { base: weight, edges });
                        },
                        None => {},
                    }
                    lemma_agenda_size_push(grown, next);
                    lemma_beam_search_satisfies(nfa, x, agenda2, found2, threshold, beam_size, p);
                }
            }
        }
    }
}

/// No state stands twice in `found`.
pub open spec fn no_repeated_state<S>(found: Seq<(S, u64)>) -> bool {
    forall|i: int, j: int|
        0 <= i < j < found.len() ==> (#[trigger] found[i]).0 != (#[trigger] found[j]).0
}

/// The frontier that a beam step ends with begins with the frontier it
/// started with, holds no state twice if that one held none twice, and has
/// at most `beam_size` entries, or one more than it started with.
pub proof fn lemma_beam_search_frontier<NFA: WeightedNFA, X: ExtraExpand<NFA>>(
    nfa: &NFA,
    x: &X,
    agenda: Seq<Entry<<NFA::State as DeepView>::V>>,
    found: Seq<(<NFA::State as DeepView>::V, u64)>,
    threshold: u64,
    beam_size: usize,
)
    ensures
        ({
            let result = beam_search(nfa, x, agenda, found, threshold, beam_size);
            &&& found.len() <= result.len()
            &&& result.take(found.len() as int) == found
            &&& no_repeated_state(found) ==> no_repeated_state(result)
            &&& result.len() <= beam_size || result.len() <= found.len() + 1
            &&& found.len() >= beam_size ==> result.len() <= found.len() + 1
        }),
    decreases beam_room(found.len(), beam_size), agenda_size(agenda),
{
    let result = beam_search(nfa, x, agenda, found, threshold, beam_size);
    if agenda.len() == 0 {
        assert(result.take(found.len() as int) == found);
    } else {
        let i = min_index(agenda);
        let entry = agenda[i];
        let rest = agenda.remove(i);
        lemma_min_index(agenda);
        lemma_agenda_size_remove(agenda, i);
        lemma_agenda_size_push(rest, advanced(entry));
        if entry.edges.len() == 0 {
            lemma_beam_search_frontier(nfa, x, rest, found, threshold, beam_size);
        } else if entry.base + entry.edges[0].1 > threshold {
            lemma_beam_search_frontier(nfa, x, rest, found, threshold, beam_size);
        } else if found_contains(found, entry.edges[0].0) {
            lemma_beam_search_frontier(
                nfa,
                x,
                rest.push(advanced(entry)),
                found,
                threshold,
                beam_size,
            );
        } else {
            let state = entry.edges[0].0;
            let weight = (entry.base + entry.edges[0].1) as u64;
            let found2 = found.push((state, weight));
            assert(found2.take(found.len() as int) == found);
            assert(no_repeated_state(found) ==> no_repeated_state(found2)) by {
                if no_repeated_state(found) {
                    assert forall|a: int, b: int| 0 <= a < b < found2.len() implies (
                    #[trigger] found2[a]).0 != (#[trigger] found2[b]).0 by {
                        if b < found.len() {
                            assert(found2[a] == found[a]);
                            assert(found2[b] == found[b]);
                        } else {
                            assert(found2[a] == found[a]);
                        }
                    }
                }
            }
            if found2.len() < beam_size {
                let grown = expanded(nfa, x, rest, state, weight);
                match x.spec_expand(nfa, state) {
                    Some(edges) => {
                        lemma_agenda_size_push(rest, Entry { base: weight, edges });
                    },
                    None => {},
                }
                lemma_agenda_size_push(grown, advanced(entry));
                lemma_beam_search_frontier(
                    nfa,
                    x,
                    grown.push(advanced(entry)),
                    found2,
                    threshold,
                    beam_size,
                );
                assert(result.take(found.len() as int) == result.take(found2.len() as int).take(
                    found.len() as int,
                ));
            }
        }
    }
}

/// The keys of the entries that a beam step takes off the agenda, in the
/// order it takes them.
pub open spec fn popped_keys<NFA: WeightedNFA, X: ExtraExpand<NFA>>(
    nfa: &NFA,
    x: &X,
    agenda: Seq<Entry<<NFA::State as DeepView>::V>>,
    found: Seq<(<NFA::State as DeepView>::V, u64)>,
    threshold: u64,
    beam_size: usize,
) -> Seq<Option<u64>>
    decreases beam_room(found.len(), beam_size), agenda_size(agenda),
{
    if agenda.len() == 0 {
        seq![]
    } else {
        let i = min_index(agenda);
        let entry = agenda[i];
        let rest = agenda.remove(i);
        let key = entry_key(entry);
        proof {
            lemma_min_index(agenda);
            lemma_agenda_size_remove(agenda, i);
            lemma_agenda_size_push(rest, advanced(entry));
        }
        if entry.edges.len() == 0 {
            seq![key] + popped_keys(nfa, x, rest, found, threshold, beam_size)
        } else if entry.base + entry.edges[0].1 > threshold {
            seq![key] + popped_keys(nfa, x, rest, found, threshold, beam_size)
        } else if found_contains(found, entry.edges[0].0) {
            seq![key] + popped_keys(
                nfa,
                x,
                rest.push(advanced(entry)),
                found,
                threshold,
                beam_size,
            )
        } else {
            let state = entry.edges[0].0;
            let weight = (entry.base + entry.edges[0].1) as u64;
            let found2 = found.push((state, weight));
            if found2.len() >= beam_size {
                seq![key]
            } else {
                seq![key] + popped_keys(
                    nfa,
                    x,
                    expanded(nfa, x, rest, state, weight).push(advanced(entry)),
                    found2,
                    threshold,
                    beam_size,
                )
            }
        }
    }
}

/// The costs of `edges` do not fall along the sequence.
pub open spec fn edges_sorted<S>(edges: Seq<(S, u64)>) -> bool {
    forall|a: int, b: int|
        0 <= a < b < edges.len() ==> (#[trigger] edges[a]).1 <= (#[trigger] edges[b]).1
}

/// The edges of every entry of `agenda` are sorted by cost.
pub open spec fn agenda_sorted<S>(agenda: Seq<Entry<S>>) -> bool {
    forall|k: int| 0 <= k < agenda.len() ==> edges_sorted((#[trigger] agenda[k]).edges)
}

/// What admitting any state adds to the agenda is sorted by cost.
pub open spec fn expand_sorted<NFA: WeightedNFA, X: ExtraExpand<NFA>>(nfa: &NFA, x: &X) -> bool {
    forall|s: <NFA::State as DeepView>::V|
        match #[trigger] x.spec_expand(nfa, s) {
            Some(edges) => edges_sorted(edges),
            None => true,
        }
}

/// No key of `agenda` is below `floor`.
pub open spec fn keys_at_least<S>(agenda: Seq<Entry<S>>, floor: Option<u64>) -> bool {
    forall|k: int| 0 <= k < agenda.len() ==> !key_less(entry_key(#[trigger] agenda[k]), floor)
}

/// Where the edges of every agenda entry are sorted by cost, and no key
/// of the agenda is below `floor`, the keys that a beam step takes off the
/// agenda never fall, and none is below `floor`.
pub proof fn lemma_popped_keys_above<NFA: WeightedNFA, X: ExtraExpand<NFA>>(
    nfa: &NFA,
    x: &X,
    agenda: Seq<Entry<<NFA::State as DeepView>::V>>,
    found: Seq<(<NFA::State as DeepView>::V, u64)>,
    threshold: u64,
    beam_size: usize,
    floor: Option<u64>,
)
    requires
        agenda_sorted(agenda),
        expand_sorted(nfa, x),
        keys_at_least(agenda, floor),
    ensures
        ({
            let keys = popped_keys(nfa, x, agenda, found, threshold, beam_size);
            &&& forall|a: int| 0 <= a < keys.len() ==> !key_less(#[trigger] keys[a], floor)
            &&& forall|a: int, b: int|
                0 <= a < b < keys.len() ==> !key_less(#[trigger] keys[b], #[trigger] keys[a])
        }),
    decreases beam_room(found.len(), beam_size), agenda_size(agenda),
{
    if agenda.len() > 0 {
        let i = min_index(agenda);
        let entry = agenda[i];
        let rest = agenda.remove(i);
        let key = entry_key(entry);
        lemma_min_index(agenda);
        lemma_agenda_size_remove(agenda, i);
        lemma_agenda_size_push(rest, advanced(entry));
        assert(!key_less(key, floor));
        assert(agenda_sorted(rest) && keys_at_least(rest, key)) by {
            assert forall|k: int| 0 <= k < rest.len() implies edges_sorted(
                (#[trigger] rest[k]).edges,
            ) && !key_less(entry_key(rest[k]), key) by {
                if k < i {
                    assert(rest[k] == agenda[k]);
                } else {
                    assert(rest[k] == agenda[k + 1]);
                }
            }
        }
        let keys = popped_keys(nfa, x, agenda, found, threshold, beam_size);
        let next = advanced(entry);
        if entry.edges.len() > 0 {
            assert(edges_sorted(next.edges) && !key_less(entry_key(next), key)) by {
                assert forall|a: int, b: int| 0 <= a < b < next.edges.len() implies (
                #[trigger] next.edges[a]).1 <= (#[trigger] next.edges[b]).1 by {
                    assert(next.edges[a] == entry.edges[a + 1]);
                    assert(next.edges[b] == entry.edges[b + 1]);
                }
                if next.edges.len() > 0 {
                    assert(next.edges[0] == entry.edges[1]);
                    assert(entry.edges[0].1 <= entry.edges[1].1);
                }
            }
        }
        if entry.edges.len() == 0 || entry.base + entry.edges[0].1 > threshold {
            lemma_popped_keys_above(nfa, x, rest, found, threshold, beam_size, key);
            let later = popped_keys(nfa, x, rest, found, threshold, beam_size);
            lemma_keys_behind(key, later, floor);
        } else if found_contains(found, entry.edges[0].0) {
            let agenda2 = rest.push(next);
            assert(agenda_sorted(agenda2) && keys_at_least(agenda2, key)) by {
                assert forall|k: int| 0 <= k < agenda2.len() implies edges_sorted(
                    (#[trigger] agenda2[k]).edges,
                ) && !key_less(entry_key(agenda2[k]), key) by {
                    if k < rest.len() {
                        assert(agenda2[k] == rest[k]);
                    }
                }
            }
            lemma_popped_keys_above(nfa, x, agenda2, found, threshold, beam_size, key);
            let later = popped_keys(nfa, x, agenda2, found, threshold, beam_size);
            lemma_keys_behind(key, later, floor);
        } else {
            let state = entry.edges[0].0;
            let weight = (entry.base + entry.edges[0].1) as u64;
            let found2 = found.push((state, weight));
            if found2.len() < beam_size {
                let grown = expanded(nfa, x, rest, state, weight);
                let agenda2 = grown.push(next);
                assert(agenda_sorted(agenda2) && keys_at_least(agenda2, key)) by {
                    assert forall|k: int| 0 <= k < agenda2.len() implies edges_sorted(
                        (#[trigger] agenda2[k]).edges,
                    ) && !key_less(entry_key(agenda2[k]), key) by {
                        if k < rest.len() {
                            assert(agenda2[k] == rest[k]);
                        } else if k < grown.len() {
                            assert(x.spec_expand(nfa, state) is Some);
                        }
                    }
                }
                match x.spec_expand(nfa, state) {
                    Some(edges) => {
                        lemma_agenda_size_push(rest, Entry { base: weight, edges });
                    },
                    None => {},
                }
                lemma_agenda_size_push(grown, next);
                lemma_popped_keys_above(nfa, x, agenda2, found2, threshold, beam_size, key);
                let later = popped_keys(nfa, x, agenda2, found2, threshold, beam_size);
                lemma_keys_behind(key, later, floor);
            }
        }
    }
}

/// A key not below `floor`, before keys that never fall and are not below
/// it, makes a sequence of keys that never fall and are not below `floor`.
proof fn lemma_keys_behind(key: Option<u64>, later: Seq<Option<u64>>, floor: Option<u64>)
    requires
        !key_less(key, floor),
        forall|a: int| 0 <= a < later.len() ==> !key_less(#[trigger] later[a], key),
        forall|a: int, b: int|
            0 <= a < b < later.len() ==> !key_less(#[trigger] later[b], #[trigger] later[a]),
    ensures
        ({
            let keys = seq![key] + later;
            &&& forall|a: int| 0 <= a < keys.len() ==> !key_less(#[trigger] keys[a], floor)
            &&& forall|a: int, b: int|
                0 <= a < b < keys.len() ==> !key_less(#[trigger] keys[b], #[trigger] keys[a])
        }),
{
    let keys = seq![key] + later;
    assert forall|a: int| 0 <= a < keys.len() implies !key_less(#[trigger] keys[a], floor) by {
        if a > 0 {
            assert(keys[a] == later[a - 1]);
        }
    }
    assert forall|a: int, b: int| 0 <= a < b < keys.len() implies !key_less(
        #[trigger] keys[b],
        #[trigger] keys[a],
    ) by {
        assert(keys[b] == later[b - 1]);
        if a > 0 {
            assert(keys[a] == later[a - 1]);
        }
    }
}

/// Cost monotonicity of a beam step: where the edges of every agenda
/// entry, and of everything that admitting a state adds, are sorted by
/// cost, the keys that the step takes off the agenda never fall.
pub proof fn lemma_popped_keys_rise<NFA: WeightedNFA, X: ExtraExpand<NFA>>(
    nfa: &NFA,
    x: &X,
    agenda: Seq<Entry<<NFA::State as DeepView>::V>>,
    found: Seq<(<NFA::State as DeepView>::V, u64)>,
    threshold: u64,
    beam_size: usize,
)
    requires
        agenda_sorted(agenda),
        expand_sorted(nfa, x),
    ensures
        ({
            let keys = popped_keys(nfa, x, agenda, found, threshold, beam_size);
            forall|a: int, b: int|
                0 <= a < b < keys.len() ==> !key_less(#[trigger] keys[b], #[trigger] keys[a])
        }),
{
    lemma_popped_keys_above(nfa, x, agenda, found, threshold, beam_size, Some(0u64));
}

/// Every state of `found` satisfies `universe`.
pub open spec fn states_within<S>(found: Seq<(S, u64)>, universe: spec_fn(S) -> bool) -> bool {
    forall|i: int| 0 <= i < found.len() ==> universe((#[trigger] found[i]).0)
}

/// Every edge of `agenda` leads to a state that satisfies `universe`.
pub open spec fn targets_within<S>(agenda: Seq<Entry<S>>, universe: spec_fn(S) -> bool) -> bool {
    forall|k: int, j: int|
        0 <= k < agenda.len() && 0 <= j < agenda[k].edges.len() ==> universe(
            (#[trigger] agenda[k].edges[j]).0,
        )
}

/// No frontier without a repeated state, made of states that satisfy
/// `universe`, has more than `cap` entries.
pub open spec fn universe_fits<S>(universe: spec_fn(S) -> bool, cap: nat) -> bool {
    forall|f: Seq<(S, u64)>| #[trigger]
        no_repeated_state(f) && states_within(f, universe) ==> f.len() <= cap
}

/// No entry of `found` costs more than `floor`.
pub open spec fn found_at_most<S>(found: Seq<(S, u64)>, floor: int) -> bool {
    forall|i: int| 0 <= i < found.len() ==> (#[trigger] found[i]).1 <= floor
}

/// No edge of `agenda` has an accumulated cost below `floor`.
pub open spec fn agenda_above<S>(agenda: Seq<Entry<S>>, floor: int) -> bool {
    forall|k: int, j: int|
        0 <= k < agenda.len() && 0 <= j < agenda[k].edges.len() ==> floor <= agenda[k].base + (
        #[trigger] agenda[k].edges[j]).1
}

/// `found` holds `state` at a cost of `weight` at most.
pub open spec fn covered<S>(found: Seq<(S, u64)>, state: S, weight: int) -> bool {
    exists|r: int| 0 <= r < found.len() && (#[trigger] found[r]).0 == state && found[r].1 <= weight
}

/// `found` holds the target of every edge of `agenda` whose accumulated
/// cost fits the cost type, at that cost at most.
pub open spec fn agenda_covered<S>(agenda: Seq<Entry<S>>, found: Seq<(S, u64)>) -> bool {
    forall|k: int, j: int|
        0 <= k < agenda.len() && 0 <= j < agenda[k].edges.len() && agenda[k].base + (
        #[trigger] agenda[k].edges[j]).1 <= u64::MAX ==> covered(
            found,
            agenda[k].edges[j].0,
            agenda[k].base + agenda[k].edges[j].1,
        )
}

/// `found` accounts for an edge to `state` at an accumulated cost of
/// `weight`: it holds `state` at that cost at most, or the beam is full
/// and none of its entries costs more than `weight`.
pub open spec fn accounted<S>(
    found: Seq<(S, u64)>,
    state: S,
    weight: int,
    beam_size: usize,
) -> bool {
    covered(found, state, weight) || (found.len() >= beam_size && found_at_most(found, weight))
}

/// `found` accounts for every edge of `entry` whose accumulated cost is
/// within `threshold`.
pub open spec fn entry_accounted<S>(
    entry: Entry<S>,
    found: Seq<(S, u64)>,
    threshold: u64,
    beam_size: usize,
) -> bool {
    forall|j: int|
        0 <= j < entry.edges.len() && entry.base + (#[trigger] entry.edges[j]).1 <= threshold
            ==> accounted(found, entry.edges[j].0, entry.base + entry.edges[j].1, beam_size)
}

/// `found` accounts for every edge of `agenda` whose accumulated cost is
/// within `threshold`.
pub open spec fn agenda_accounted<S>(
    agenda: Seq<Entry<S>>,
    found: Seq<(S, u64)>,
    threshold: u64,
    beam_size: usize,
) -> bool {
    forall|k: int|
        0 <= k < agenda.len() ==> entry_accounted(#[trigger] agenda[k], found, threshold, beam_size)
}

/// `found` accounts for what admitting each of its entries from position
/// `from` on adds to the agenda.
pub open spec fn expansions_accounted<NFA: WeightedNFA, X: ExtraExpand<NFA>>(
    nfa: &NFA,
    x: &X,
    found: Seq<(<NFA::State as DeepView>::V, u64)>,
    from: int,
    threshold: u64,
    beam_size: usize,
) -> bool {
    forall|r: int|
        from <= r < found.len() ==> match x.spec_expand(nfa, (#[trigger] found[r]).0) {
            Some(edges) => entry_accounted(
                Entry { base: found[r].1, edges },
                found,
                threshold,
                beam_size,
            ),
            None => true,
        }
}

/// Where a frontier accounts for the first edge of the entry at `i`, and
/// for every edge of an agenda that starts with the other entries and
/// ends with the rest of that entry, it accounts for every edge of the
/// agenda.
proof fn lemma_accounted_through<S>(
    agenda: Seq<Entry<S>>,
    i: int,
    agenda2: Seq<Entry<S>>,
    result: Seq<(S, u64)>,
    threshold: u64,
    beam_size: usize,
)
    requires
        0 <= i < agenda.len(),
        agenda[i].edges.len() > 0,
        agenda2.len() >= agenda.len(),
        agenda2.take(agenda.len() - 1) == agenda.remove(i),
        agenda2.last() == advanced(agenda[i]),
        agenda_accounted(agenda2, result, threshold, beam_size),
        accounted(
            result,
            agenda[i].edges[0].0,
            agenda[i].base + agenda[i].edges[0].1,
            beam_size,
        ),
    ensures
        agenda_accounted(agenda, result, threshold, beam_size),
{
    let entry = agenda[i];
    let last = agenda2.len() - 1;
    assert forall|k: int| 0 <= k < agenda.len() implies entry_accounted(
        #[trigger] agenda[k],
        result,
        threshold,
        beam_size,
    ) by {
        if k == i {
            assert(entry_accounted(agenda2[last], result, threshold, beam_size));
            assert forall|j: int|
                0 <= j < entry.edges.len() && entry.base + (#[trigger] entry.edges[j]).1
                    <= threshold implies accounted(
                result,
                entry.edges[j].0,
                entry.base + entry.edges[j].1,
                beam_size,
            ) by {
                if j > 0 {
                    assert(agenda2[last].edges[j - 1] == entry.edges[j]);
                }
            }
        } else {
            let k1 = if k < i { k } else { k - 1 };
            assert(agenda2.take(agenda.len() - 1)[k1] == agenda2[k1]);
            assert(agenda.remove(i)[k1] == agenda[k]);
            assert(entry_accounted(agenda2[k1], result, threshold, beam_size));
        }
    }
}

/// Nothing cheap is lost: with edges sorted by cost, the frontier that a
/// beam step ends with accounts for every edge of the agenda, and for
/// every edge that admitting one of its new entries adds, whose
/// accumulated cost is within the threshold. It holds the target of the
/// edge at that cost at most, or the beam is full and none of its entries
/// costs more than the edge.
pub proof fn lemma_beam_search_keeps_cheapest<NFA: WeightedNFA, X: ExtraExpand<NFA>>(
    nfa: &NFA,
    x: &X,
    agenda: Seq<Entry<<NFA::State as DeepView>::V>>,
    found: Seq<(<NFA::State as DeepView>::V, u64)>,
    threshold: u64,
    beam_size: usize,
    floor: int,
)
    requires
        agenda_sorted(agenda),
        expand_sorted(nfa, x),
        found_at_most(found, floor),
        agenda_above(agenda, floor),
    ensures
        ({
            let result = beam_search(nfa, x, agenda, found, threshold, beam_size);
            &&& agenda_accounted(agenda, result, threshold, beam_size)
            &&& expansions_accounted(nfa, x, result, found.len() as int, threshold, beam_size)
        }),
    decreases beam_room(found.len(), beam_size), agenda_size(agenda),
{
    let result = beam_search(nfa, x, agenda, found, threshold, beam_size);
    if agenda.len() > 0 {
        let i = min_index(agenda);
        let entry = agenda[i];
        let rest = agenda.remove(i);
        let next = advanced(entry);
        lemma_min_index(agenda);
        lemma_agenda_size_remove(agenda, i);
        lemma_agenda_size_push(rest, next);
        lemma_beam_search_frontier(nfa, x, agenda, found, threshold, beam_size);
        assert forall|k: int| 0 <= k < rest.len() implies #[trigger] rest[k] == agenda[if k < i {
            k
        } else {
            k + 1
        }] by {}
        assert(agenda_sorted(rest));
        assert(agenda_above(rest, floor)) by {
            assert forall|k: int, j: int|
                0 <= k < rest.len() && 0 <= j < rest[k].edges.len() implies floor <= rest[k].base
                + (#[trigger] rest[k].edges[j]).1 by {
                let k0 = if k < i { k } else { k + 1 };
                assert(rest[k].edges[j] == agenda[k0].edges[j]);
            }
        }
        if entry.edges.len() == 0 || entry.base + entry.edges[0].1 > threshold {
            lemma_beam_search_keeps_cheapest(nfa, x, rest, found, threshold, beam_size, floor);
            assert forall|k: int| 0 <= k < agenda.len() implies entry_accounted(
                #[trigger] agenda[k],
                result,
                threshold,
                beam_size,
            ) by {
                if k == i {
                    assert forall|j: int|
                        0 <= j < entry.edges.len() && entry.base + (#[trigger] entry.edges[j]).1
                            <= threshold implies accounted(
                        result,
                        entry.edges[j].0,
                        entry.base + entry.edges[j].1,
                        beam_size,
                    ) by {
                        assert(entry.edges[0].1 <= entry.edges[j].1);
                    }
                } else {
                    let k1 = if k < i { k } else { k - 1 };
                    assert(rest[k1] == agenda[k]);
                }
            }
        } else {
            let state = entry.edges[0].0;
            let weight = entry.base + entry.edges[0].1;
            assert forall|j: int| 0 <= j < next.edges.len() implies #[trigger] next.edges[j]
                == entry.edges[j + 1] by {}
            assert(edges_sorted(next.edges)) by {
                assert forall|a: int, b: int| 0 <= a < b < next.edges.len() implies (
                #[trigger] next.edges[a]).1 <= (#[trigger] next.edges[b]).1 by {
                    assert(entry.edges[a + 1].1 <= entry.edges[b + 1].1);
                }
            }
            assert(agenda_above(agenda, weight)) by {
                assert forall|k: int, j: int|
                    0 <= k < agenda.len() && 0 <= j < agenda[k].edges.len() implies weight
                    <= agenda[k].base + (#[trigger] agenda[k].edges[j]).1 by {
                    assert(!key_less(entry_key(agenda[k]), entry_key(entry)));
                    assert(agenda[k].edges[0].1 <= agenda[k].edges[j].1);
                }
            }
            if found_contains(found, state) {
                let agenda2 = rest.push(next);
                assert forall|k: int| 0 <= k < agenda2.len() implies #[trigger] agenda2[k] == (if k
                    < rest.len() {
                    rest[k]
                } else {
                    next
                }) by {}
                assert(agenda_sorted(agenda2));
                assert(agenda_above(agenda2, floor)) by {
                    assert forall|k: int, j: int|
                        0 <= k < agenda2.len() && 0 <= j < agenda2[k].edges.len() implies floor
                        <= agenda2[k].base + (#[trigger] agenda2[k].edges[j]).1 by {
                        if k < rest.len() {
                            assert(agenda2[k].edges[j] == rest[k].edges[j]);
                        } else {
                            assert(agenda2[k].edges[j] == entry.edges[j + 1]);
                        }
                    }
                }
                lemma_beam_search_keeps_cheapest(
                    nfa,
                    x,
                    agenda2,
                    found,
                    threshold,
                    beam_size,
                    floor,
                );
                let at = choose|a: int| 0 <= a < found.len() && (#[trigger] found[a]).0 == state;
                assert(result.take(found.len() as int)[at] == result[at]);
                assert(covered(result, state, weight));
                assert(agenda2.take(agenda.len() - 1) == rest);
                lemma_accounted_through(agenda, i, agenda2, result, threshold, beam_size);
            } else {
                let found2 = found.push((state, weight as u64));
                assert(found_at_most(found2, weight)) by {
                    assert forall|a: int| 0 <= a < found2.len() implies (#[trigger] found2[a]).1
                        <= weight by {
                        if a < found.len() {
                            assert(found2[a] == found[a]);
                        }
                    }
                }
                if found2.len() >= beam_size {
                    assert(result == found2);
                    assert forall|k: int| 0 <= k < agenda.len() implies entry_accounted(
                        #[trigger] agenda[k],
                        result,
                        threshold,
                        beam_size,
                    ) by {
                        assert forall|j: int|
                            0 <= j < agenda[k].edges.len() && agenda[k].base + (
                            #[trigger] agenda[k].edges[j]).1 <= threshold implies accounted(
                            result,
                            agenda[k].edges[j].0,
                            agenda[k].base + agenda[k].edges[j].1,
                            beam_size,
                        ) by {
                            assert(found_at_most(result, agenda[k].base + agenda[k].edges[j].1));
                        }
                    }
                    assert forall|r: int|
                        found.len() <= r < result.len() implies match x.spec_expand(
                        nfa,
                        (#[trigger] result[r]).0,
                    ) {
                        Some(edges) => entry_accounted(
                            Entry { base: result[r].1, edges },
                            result,
                            threshold,
                            beam_size,
                        ),
                        None => true,
                    } by {
                        match x.spec_expand(nfa, result[r].0) {
                            Some(edges) => {
                                let added = Entry { base: result[r].1, edges };
                                assert forall|j: int|
                                    0 <= j < added.edges.len() && added.base + (
                                    #[trigger] added.edges[j]).1 <= threshold implies accounted(
                                    result,
                                    added.edges[j].0,
                                    added.base + added.edges[j].1,
                                    beam_size,
                                ) by {
                                    assert(found_at_most(result, added.base + added.edges[j].1));
                                }
                            },
                            None => {},
                        }
                    }
                } else {
                    let grown = expanded(nfa, x, rest, state, weight as u64);
                    let agenda2 = grown.push(next);
                    assert forall|k: int| 0 <= k < rest.len() implies #[trigger] agenda2[k]
                        == rest[k] by {}
                    assert(agenda_sorted(agenda2) && agenda_above(agenda2, weight)) by {
                        assert forall|k: int| 0 <= k < agenda2.len() implies edges_sorted(
                            (#[trigger] agenda2[k]).edges,
                        ) by {
                            if rest.len() <= k < grown.len() {
                                assert(x.spec_expand(nfa, state) is Some);
                            }
                        }
                        assert forall|k: int, j: int|
                            0 <= k < agenda2.len() && 0 <= j < agenda2[k].edges.len() implies weight
                            <= agenda2[k].base + (#[trigger] agenda2[k].edges[j]).1 by {
                            if k < rest.len() {
                                let k0 = if k < i { k } else { k + 1 };
                                assert(agenda2[k].edges[j] == agenda[k0].edges[j]);
                            } else if k < grown.len() {
                                assert(x.spec_expand(nfa, state) is Some);
                            } else {
                                assert(agenda2[k].edges[j] == entry.edges[j + 1]);
                                assert(entry.edges[0].1 <= entry.edges[j + 1].1);
                            }
                        }
                    }
                    match x.spec_expand(nfa, state) {
                        Some(edges) => {
                            lemma_agenda_size_push(rest, Entry { base: weight as u64, edges });
                        },
                        None => {},
                    }
                    lemma_agenda_size_push(grown, next);
                    lemma_beam_search_keeps_cheapest(
                        nfa,
                        x,
                        agenda2,
                        found2,
                        threshold,
                        beam_size,
                        weight,
                    );
                    lemma_beam_search_frontier(nfa, x, agenda2, found2, threshold, beam_size);
                    let at = found.len() as int;
                    assert(result.take(found2.len() as int)[at] == result[at]);
                    assert(result[at] == (state, weight as u64));
                    assert(covered(result, state, weight));
                    assert(agenda2.take(agenda.len() - 1) == rest);
                    lemma_accounted_through(agenda, i, agenda2, result, threshold, beam_size);
                    assert forall|r: int|
                        found.len() <= r < result.len() implies match x.spec_expand(
                        nfa,
                        (#[trigger] result[r]).0,
                    ) {
                        Some(edges) => entry_accounted(
                            Entry { base: result[r].1, edges },
                            result,
                            threshold,
                            beam_size,
                        ),
                        None => true,
                    } by {
                        if r == at {
                            match x.spec_expand(nfa, state) {
                                Some(edges) => {
                                    assert(agenda2[rest.len() as int] == Entry {
                                        base: weight as u64,
                                        edges,
                                    });
                                },
                                None => {},
                            }
                        }
                    }
                }
            }
        }
    }
}

/// The property of a state and a cost that the state satisfies `universe`.
pub open spec fn in_universe<S>(universe: spec_fn(S) -> bool) -> spec_fn(S, u64) -> bool {
    |s: S, w: u64| universe(s)
}

/// Nothing is lost without pruning: with the greatest threshold, a beam
/// that cannot fill up and edges sorted by cost, the frontier that a beam
/// step ends with holds the target of every edge of the agenda, at the
/// cost of that edge at most.
pub proof fn lemma_beam_search_covers<NFA: WeightedNFA>(
    nfa: &NFA,
    agenda: Seq<Entry<<NFA::State as DeepView>::V>>,
    found: Seq<(<NFA::State as DeepView>::V, u64)>,
    beam_size: usize,
    universe: spec_fn(<NFA::State as DeepView>::V) -> bool,
    cap: nat,
    floor: int,
)
    requires
        agenda_sorted(agenda),
        no_repeated_state(found),
        states_within(found, universe),
        targets_within(agenda, universe),
        universe_fits(universe, cap),
        cap < beam_size,
        found_at_most(found, floor),
        agenda_above(agenda, floor),
    ensures
        agenda_covered(agenda, beam_search(nfa, &NoExpand, agenda, found, u64::MAX, beam_size)),
{
    let x = &NoExpand;
    let result = beam_search(nfa, x, agenda, found, u64::MAX, beam_size);
    let p = in_universe(universe);
    assert(found_satisfies(found, p)) by {
        assert forall|i: int| 0 <= i < found.len() implies p(
            (#[trigger] found[i]).0,
            found[i].1,
        ) by {
            assert(universe(found[i].0));
        }
    }
    assert(agenda_satisfies(agenda, u64::MAX, p)) by {
        assert forall|k: int| 0 <= k < agenda.len() implies entry_satisfies(
            #[trigger] agenda[k],
            u64::MAX,
            p,
        ) by {
            assert forall|j: int| 0 <= j < agenda[k].edges.len() implies p(
                (#[trigger] agenda[k].edges[j]).0,
                (agenda[k].base + agenda[k].edges[j].1) as u64,
            ) by {
                assert(universe(agenda[k].edges[j].0));
            }
        }
    }
    assert(expand_satisfies(nfa, x, u64::MAX, p));
    lemma_beam_search_satisfies(nfa, x, agenda, found, u64::MAX, beam_size, p);
    lemma_beam_search_frontier(nfa, x, agenda, found, u64::MAX, beam_size);
    assert(states_within(result, universe)) by {
        assert forall|i: int| 0 <= i < result.len() implies universe(
            (#[trigger] result[i]).0,
        ) by {
            assert(p(result[i].0, result[i].1));
        }
    }
    assert(result.len() <= cap);
    assert(expand_sorted(nfa, x));
    lemma_beam_search_keeps_cheapest(nfa, x, agenda, found, u64::MAX, beam_size, floor);
    assert forall|k: int, j: int|
        0 <= k < agenda.len() && 0 <= j < agenda[k].edges.len() && agenda[k].base + (
        #[trigger] agenda[k].edges[j]).1 <= u64::MAX implies covered(
        result,
        agenda[k].edges[j].0,
        agenda[k].base + agenda[k].edges[j].1,
    ) by {
        assert(entry_accounted(agenda[k], result, u64::MAX, beam_size));
    }
}

} // verus!
