//! What holds of every frontier that a beam adapter hands out: where its
//! entries come from, that no state stands in it twice, and how many
//! entries it has.
use crate::adapters::{
    BeamSearchAdapter, EpsilonExpandingBeamSearchAdapter, FollowEpsilonNFA, WeightedNFA, DFA,
};
use crate::agenda::Entry;
use crate::beam::{
    agenda_above, agenda_accounted, agenda_satisfies, agenda_sorted, edges_sorted,
    entry_accounted, entry_satisfies, expand_satisfies, expand_sorted, expansions_accounted,
    found_at_most, found_satisfies, initial_agenda, lemma_beam_search_frontier,
    lemma_beam_search_keeps_cheapest, lemma_beam_search_satisfies, no_repeated_state,
    FollowEpsilons, NoExpand,
};
use vstd::prelude::*;

verus! {

/// `state` is the target of an edge on `inp` from an entry of `frontier`,
/// and `weight` is the cost of that entry plus the cost of the edge.
pub open spec fn reached_by_edge<NFA: WeightedNFA>(
    nfa: &NFA,
    frontier: Seq<(<NFA::State as DeepView>::V, u64)>,
    inp: NFA::InputType,
    state: <NFA::State as DeepView>::V,
    weight: u64,
) -> bool {
    exists|i: int, j: int|
        0 <= i < frontier.len() && 0 <= j < nfa.spec_accept(frontier[i].0, inp).len()
            && #[trigger] nfa.spec_accept(frontier[i].0, inp)[j] == (
            state,
            (weight - frontier[i].1) as u64,
        ) && frontier[i].1 <= weight
}

/// Every entry of `path` but the first is the target of an epsilon edge
/// from the entry before it, at the cost of that entry plus the cost of
/// the edge.
pub open spec fn follows_epsilons<NFA: FollowEpsilonNFA>(
    nfa: &NFA,
    path: Seq<(<NFA::State as DeepView>::V, u64)>,
) -> bool {
    forall|k: int|
        1 <= k < path.len() ==> path[k - 1].1 <= (#[trigger] path[k]).1 && exists|j: int|
            0 <= j < nfa.spec_follow_epsilon(path[k - 1].0).len()
                && #[trigger] nfa.spec_follow_epsilon(path[k - 1].0)[j] == (
                path[k].0,
                (path[k].1 - path[k - 1].1) as u64,
            )
}

/// `state` at `weight` is reached from an entry of `frontier` by an edge
/// on `inp` and then by epsilon edges, none or more.
pub open spec fn reached_with_epsilons<NFA: FollowEpsilonNFA>(
    nfa: &NFA,
    frontier: Seq<(<NFA::State as DeepView>::V, u64)>,
    inp: NFA::InputType,
    state: <NFA::State as DeepView>::V,
    weight: u64,
) -> bool {
    exists|path: Seq<(<NFA::State as DeepView>::V, u64)>|
        path.len() > 0 && path.last() == (state, weight) && reached_by_edge(
            nfa,
            frontier,
            inp,
            path[0].0,
            path[0].1,
        ) && #[trigger] follows_epsilons(nfa, path)
}

/// `state` at `weight` is reached from the start state at cost 0 by
/// epsilon edges, none or more.
pub open spec fn reached_from_start<NFA: FollowEpsilonNFA>(
    nfa: &NFA,
    state: <NFA::State as DeepView>::V,
    weight: u64,
) -> bool {
    exists|path: Seq<(<NFA::State as DeepView>::V, u64)>|
        path.len() > 0 && path.last() == (state, weight) && path[0] == (nfa.spec_start(), 0u64)
            && #[trigger] follows_epsilons(nfa, path)
}

/// The property of a state and a cost that the cost is within `threshold`
/// and the state is reached by one edge on `inp`.
pub open spec fn sound_by_edge<NFA: WeightedNFA>(
    nfa: &NFA,
    frontier: Seq<(<NFA::State as DeepView>::V, u64)>,
    inp: NFA::InputType,
    threshold: u64,
) -> spec_fn(<NFA::State as DeepView>::V, u64) -> bool {
    |s: <NFA::State as DeepView>::V, w: u64|
        w <= threshold && reached_by_edge(nfa, frontier, inp, s, w)
}

/// The property of a state and a cost that the cost is within `threshold`
/// and the state is reached by one edge on `inp` and then epsilon edges.
pub open spec fn sound_with_epsilons<NFA: FollowEpsilonNFA>(
    nfa: &NFA,
    frontier: Seq<(<NFA::State as DeepView>::V, u64)>,
    inp: NFA::InputType,
    threshold: u64,
) -> spec_fn(<NFA::State as DeepView>::V, u64) -> bool {
    |s: <NFA::State as DeepView>::V, w: u64|
        w <= threshold && reached_with_epsilons(nfa, frontier, inp, s, w)
}

/// The property of a state and a cost that the cost is within `threshold`
/// and the state is reached from the start state by epsilon edges.
pub open spec fn sound_from_start<NFA: FollowEpsilonNFA>(nfa: &NFA, threshold: u64) -> spec_fn(
    <NFA::State as DeepView>::V,
    u64,
) -> bool {
    |s: <NFA::State as DeepView>::V, w: u64| w <= threshold && reached_from_start(nfa, s, w)
}

/// Every edge of the agenda that a step starts from leads to a state
/// reached by that edge.
proof fn lemma_initial_agenda_sound<NFA: WeightedNFA>(
    nfa: &NFA,
    frontier: Seq<(<NFA::State as DeepView>::V, u64)>,
    inp: NFA::InputType,
    threshold: u64,
)
    ensures
        agenda_satisfies(
            initial_agenda(nfa, frontier, inp),
            threshold,
            sound_by_edge(nfa, frontier, inp, threshold),
        ),
{
    let p = sound_by_edge(nfa, frontier, inp, threshold);
    let agenda = initial_agenda(nfa, frontier, inp);
    assert forall|k: int| 0 <= k < agenda.len() implies entry_satisfies(
        #[trigger] agenda[k],
        threshold,
        p,
    ) by {
        assert forall|j: int|
            0 <= j < agenda[k].edges.len() && agenda[k].base + (#[trigger] agenda[k].edges[j]).1
                <= threshold implies p(
            agenda[k].edges[j].0,
            (agenda[k].base + agenda[k].edges[j].1) as u64,
        ) by {
            let edge = nfa.spec_accept(frontier[k].0, inp)[j];
            let w = (frontier[k].1 + edge.1) as u64;
            assert(nfa.spec_accept(frontier[k].0, inp)[j] == (edge.0, (w - frontier[k].1) as u64));
        }
    }
}

/// Frontier soundness, dedup and beam bound of a beam step: every entry
/// of the frontier after `inp` has a cost within the threshold and is
/// reached by one edge on `inp` from an entry of the frontier before; no
/// state stands in it twice; and it has at most `beam_size` entries, or
/// one where `beam_size` is 0.
pub proof fn lemma_accept_frontier<NFA: WeightedNFA>(
    adapter: &BeamSearchAdapter<NFA>,
    frontier: Seq<(<NFA::State as DeepView>::V, u64)>,
    inp: NFA::InputType,
)
    ensures
        ({
            let next = adapter.spec_accept(frontier, inp);
            &&& forall|i: int|
                0 <= i < next.len() ==> (#[trigger] next[i]).1 <= adapter.threshold
                    && reached_by_edge(&adapter.aut, frontier, inp, next[i].0, next[i].1)
            &&& no_repeated_state(next)
            &&& next.len() <= adapter.beam_size || next.len() <= 1
        }),
{
    let nfa = &adapter.aut;
    let p = sound_by_edge(nfa, frontier, inp, adapter.threshold);
    let agenda = initial_agenda(nfa, frontier, inp);
    let found = Seq::<(<NFA::State as DeepView>::V, u64)>::empty();
    lemma_initial_agenda_sound(nfa, frontier, inp, adapter.threshold);
    assert(found_satisfies(found, p));
    assert(expand_satisfies(nfa, &NoExpand, adapter.threshold, p));
    lemma_beam_search_satisfies(
        nfa,
        &NoExpand,
        agenda,
        found,
        adapter.threshold,
        adapter.beam_size,
        p,
    );
    lemma_beam_search_frontier(nfa, &NoExpand, agenda, found, adapter.threshold, adapter.beam_size);
    let next = adapter.spec_accept(frontier, inp);
    assert forall|i: int| 0 <= i < next.len() implies (#[trigger] next[i]).1 <= adapter.threshold
        && reached_by_edge(nfa, frontier, inp, next[i].0, next[i].1) by {
        assert(p(next[i].0, next[i].1));
    }
}

/// A path that follows epsilon edges still does so with one more epsilon
/// edge behind it.
proof fn lemma_follows_epsilons_push<NFA: FollowEpsilonNFA>(
    nfa: &NFA,
    path: Seq<(<NFA::State as DeepView>::V, u64)>,
    j: int,
)
    requires
        path.len() > 0,
        follows_epsilons(nfa, path),
        0 <= j < nfa.spec_follow_epsilon(path.last().0).len(),
        path.last().1 + nfa.spec_follow_epsilon(path.last().0)[j].1 <= u64::MAX,
    ensures
        follows_epsilons(
            nfa,
            path.push(
                (
                    nfa.spec_follow_epsilon(path.last().0)[j].0,
                    (path.last().1 + nfa.spec_follow_epsilon(path.last().0)[j].1) as u64,
                ),
            ),
        ),
{
    let edge = nfa.spec_follow_epsilon(path.last().0)[j];
    let longer = path.push((edge.0, (path.last().1 + edge.1) as u64));
    assert forall|k: int| 1 <= k < longer.len() implies longer[k - 1].1 <= (#[trigger] longer[k]).1
        && exists|j: int|
        0 <= j < nfa.spec_follow_epsilon(longer[k - 1].0).len()
            && #[trigger] nfa.spec_follow_epsilon(longer[k - 1].0)[j] == (
            longer[k].0,
            (longer[k].1 - longer[k - 1].1) as u64,
        ) by {
        if k < path.len() {
            assert(longer[k] == path[k]);
            assert(longer[k - 1] == path[k - 1]);
        } else {
            assert(longer[k - 1] == path.last());
            assert(nfa.spec_follow_epsilon(longer[k - 1].0)[j] == (
                longer[k].0,
                (longer[k].1 - longer[k - 1].1) as u64,
            ));
        }
    }
}

/// The epsilon edges of a state reached by an edge and epsilon edges lead
/// to states reached in the same way.
proof fn lemma_epsilons_sound<NFA: FollowEpsilonNFA>(
    nfa: &NFA,
    frontier: Seq<(<NFA::State as DeepView>::V, u64)>,
    inp: NFA::InputType,
    threshold: u64,
)
    ensures
        expand_satisfies(
            nfa,
            &FollowEpsilons,
            threshold,
            sound_with_epsilons(nfa, frontier, inp, threshold),
        ),
{
    let p = sound_with_epsilons(nfa, frontier, inp, threshold);
    assert forall|s: <NFA::State as DeepView>::V, w: u64| #[trigger]
        p(s, w) implies entry_satisfies(
        Entry { base: w, edges: nfa.spec_follow_epsilon(s) },
        threshold,
        p,
    ) by {
        let entry = Entry { base: w, edges: nfa.spec_follow_epsilon(s) };
        assert forall|j: int|
            0 <= j < entry.edges.len() && entry.base + (#[trigger] entry.edges[j]).1
                <= threshold implies p(
            entry.edges[j].0,
            (entry.base + entry.edges[j].1) as u64,
        ) by {
            let path = choose|path: Seq<(<NFA::State as DeepView>::V, u64)>|
                path.len() > 0 && path.last() == (s, w) && reached_by_edge(
                    nfa,
                    frontier,
                    inp,
                    path[0].0,
                    path[0].1,
                ) && #[trigger] follows_epsilons(nfa, path);
            lemma_follows_epsilons_push(nfa, path, j);
            let longer = path.push((entry.edges[j].0, (w + entry.edges[j].1) as u64));
            assert(longer[0] == path[0]);
            assert(follows_epsilons(nfa, longer));
        }
    }
}

/// Frontier soundness, dedup and beam bound of a beam step that follows
/// epsilon edges: every entry of the frontier after `inp` has a cost
/// within the threshold and is reached by one edge on `inp` from an entry
/// of the frontier before, and then by epsilon edges; no state stands in
/// it twice; and it has at most `beam_size` entries, or one where
/// `beam_size` is 0.
pub proof fn lemma_epsilon_accept_frontier<NFA: FollowEpsilonNFA>(
    adapter: &EpsilonExpandingBeamSearchAdapter<NFA>,
    frontier: Seq<(<NFA::State as DeepView>::V, u64)>,
    inp: NFA::InputType,
)
    ensures
        ({
            let next = adapter.spec_accept(frontier, inp);
            &&& forall|i: int|
                0 <= i < next.len() ==> (#[trigger] next[i]).1 <= adapter.0.threshold
                    && reached_with_epsilons(&adapter.0.aut, frontier, inp, next[i].0, next[i].1)
            &&& no_repeated_state(next)
            &&& next.len() <= adapter.0.beam_size || next.len() <= 1
        }),
{
    let nfa = &adapter.0.aut;
    let threshold = adapter.0.threshold;
    let p = sound_with_epsilons(nfa, frontier, inp, threshold);
    let q = sound_by_edge(nfa, frontier, inp, threshold);
    let agenda = initial_agenda(nfa, frontier, inp);
    let found = Seq::<(<NFA::State as DeepView>::V, u64)>::empty();
    lemma_initial_agenda_sound(nfa, frontier, inp, threshold);
    assert(agenda_satisfies(agenda, threshold, p)) by {
        assert forall|k: int| 0 <= k < agenda.len() implies entry_satisfies(
            #[trigger] agenda[k],
            threshold,
            p,
        ) by {
            assert(entry_satisfies(agenda[k], threshold, q));
            assert forall|j: int|
                0 <= j < agenda[k].edges.len() && agenda[k].base + (
                #[trigger] agenda[k].edges[j]).1 <= threshold implies p(
                agenda[k].edges[j].0,
                (agenda[k].base + agenda[k].edges[j].1) as u64,
            ) by {
                let s = agenda[k].edges[j].0;
                let w = (agenda[k].base + agenda[k].edges[j].1) as u64;
                assert(q(s, w));
                let path = seq![(s, w)];
                assert(follows_epsilons(nfa, path));
                assert(path.last() == (s, w));
            }
        }
    }
    assert(found_satisfies(found, p));
    lemma_epsilons_sound(nfa, frontier, inp, threshold);
    lemma_beam_search_satisfies(
        nfa,
        &FollowEpsilons,
        agenda,
        found,
        threshold,
        adapter.0.beam_size,
        p,
    );
    lemma_beam_search_frontier(
        nfa,
        &FollowEpsilons,
        agenda,
        found,
        threshold,
        adapter.0.beam_size,
    );
    let next = adapter.spec_accept(frontier, inp);
    assert forall|i: int| 0 <= i < next.len() implies (#[trigger] next[i]).1 <= threshold
        && reached_with_epsilons(nfa, frontier, inp, next[i].0, next[i].1) by {
        assert(p(next[i].0, next[i].1));
    }
}

/// The epsilon edges of a state reached from the start state by epsilon
/// edges lead to states reached in the same way.
proof fn lemma_epsilons_sound_from_start<NFA: FollowEpsilonNFA>(nfa: &NFA, threshold: u64)
    ensures
        expand_satisfies(nfa, &FollowEpsilons, threshold, sound_from_start(nfa, threshold)),
{
    let p = sound_from_start(nfa, threshold);
    assert forall|s: <NFA::State as DeepView>::V, w: u64| #[trigger]
        p(s, w) implies entry_satisfies(
        Entry { base: w, edges: nfa.spec_follow_epsilon(s) },
        threshold,
        p,
    ) by {
        let entry = Entry { base: w, edges: nfa.spec_follow_epsilon(s) };
        assert forall|j: int|
            0 <= j < entry.edges.len() && entry.base + (#[trigger] entry.edges[j]).1
                <= threshold implies p(
            entry.edges[j].0,
            (entry.base + entry.edges[j].1) as u64,
        ) by {
            let path = choose|path: Seq<(<NFA::State as DeepView>::V, u64)>|
                path.len() > 0 && path.last() == (s, w) && path[0] == (nfa.spec_start(), 0u64)
                    && #[trigger] follows_epsilons(nfa, path);
            lemma_follows_epsilons_push(nfa, path, j);
            let longer = path.push((entry.edges[j].0, (w + entry.edges[j].1) as u64));
            assert(longer[0] == path[0]);
            assert(follows_epsilons(nfa, longer));
        }
    }
}

/// The start frontier of a beam adapter that follows epsilon edges: its
/// first entry is the start state at cost 0; every entry has a cost within
/// the threshold and is reached from the start state by epsilon edges; no
/// state stands in it twice; and it has at most `beam_size` entries, or
/// two where `beam_size` is below 2.
pub proof fn lemma_epsilon_start_frontier<NFA: FollowEpsilonNFA>(
    adapter: &EpsilonExpandingBeamSearchAdapter<NFA>,
)
    ensures
        ({
            let start = adapter.spec_start();
            &&& start.len() >= 1
            &&& start[0] == (adapter.0.aut.spec_start(), 0u64)
            &&& forall|i: int|
                0 <= i < start.len() ==> (#[trigger] start[i]).1 <= adapter.0.threshold
                    && reached_from_start(&adapter.0.aut, start[i].0, start[i].1)
            &&& no_repeated_state(start)
            &&& start.len() <= adapter.0.beam_size || start.len() <= 2
        }),
{
    let nfa = &adapter.0.aut;
    let threshold = adapter.0.threshold;
    let p = sound_from_start(nfa, threshold);
    let first = (nfa.spec_start(), 0u64);
    let agenda = seq![Entry { base: 0u64, edges: nfa.spec_follow_epsilon(nfa.spec_start()) }];
    let found = seq![first];
    assert(p(first.0, first.1)) by {
        assert(follows_epsilons(nfa, seq![first]));
        assert(seq![first].last() == first);
    }
    assert(found_satisfies(found, p));
    lemma_epsilons_sound_from_start(nfa, threshold);
    assert(agenda_satisfies(agenda, threshold, p)) by {
        assert(entry_satisfies(agenda[0], threshold, p));
    }
    lemma_beam_search_satisfies(
        nfa,
        &FollowEpsilons,
        agenda,
        found,
        threshold,
        adapter.0.beam_size,
        p,
    );
    lemma_beam_search_frontier(
        nfa,
        &FollowEpsilons,
        agenda,
        found,
        threshold,
        adapter.0.beam_size,
    );
    let start = adapter.spec_start();
    assert(start.take(1) == found);
    assert(start[0] == start.take(1)[0]);
    assert(no_repeated_state(found));
    assert forall|i: int| 0 <= i < start.len() implies (#[trigger] start[i]).1 <= threshold
        && reached_from_start(nfa, start[i].0, start[i].1) by {
        assert(p(start[i].0, start[i].1));
    }
}

/// The edges on `inp` from every entry of `frontier` are sorted by cost.
pub open spec fn accept_sorted<NFA: WeightedNFA>(
    nfa: &NFA,
    frontier: Seq<(<NFA::State as DeepView>::V, u64)>,
    inp: NFA::InputType,
) -> bool {
    forall|i: int|
        0 <= i < frontier.len() ==> edges_sorted(
            nfa.spec_accept((#[trigger] frontier[i]).0, inp),
        )
}

/// The epsilon edges of every state are sorted by cost.
pub open spec fn epsilons_sorted<NFA: FollowEpsilonNFA>(nfa: &NFA) -> bool {
    forall|s: <NFA::State as DeepView>::V| edges_sorted(#[trigger] nfa.spec_follow_epsilon(s))
}

/// The agenda that a step starts from is sorted where the edges are, and
/// none of its edges costs less than nothing.
proof fn lemma_initial_agenda_sorted<NFA: WeightedNFA>(
    nfa: &NFA,
    frontier: Seq<(<NFA::State as DeepView>::V, u64)>,
    inp: NFA::InputType,
)
    requires
        accept_sorted(nfa, frontier, inp),
    ensures
        agenda_sorted(initial_agenda(nfa, frontier, inp)),
        agenda_above(initial_agenda(nfa, frontier, inp), 0),
{
    let agenda = initial_agenda(nfa, frontier, inp);
    assert forall|k: int| 0 <= k < agenda.len() implies edges_sorted(
        (#[trigger] agenda[k]).edges,
    ) by {
        assert(edges_sorted(nfa.spec_accept(frontier[k].0, inp)));
    }
}

/// Completeness of a beam step, and what a full beam keeps: where the
/// edges on `inp` are sorted by cost, the frontier after `inp` accounts
/// for every edge on `inp` from an entry of the frontier before whose
/// accumulated cost is within the threshold. It holds the target of the
/// edge at that cost at most, or the beam is full and none of its entries
/// costs more than the edge.
pub proof fn lemma_accept_keeps_cheapest<NFA: WeightedNFA>(
    adapter: &BeamSearchAdapter<NFA>,
    frontier: Seq<(<NFA::State as DeepView>::V, u64)>,
    inp: NFA::InputType,
)
    requires
        accept_sorted(&adapter.aut, frontier, inp),
    ensures
        agenda_accounted(
            initial_agenda(&adapter.aut, frontier, inp),
            adapter.spec_accept(frontier, inp),
            adapter.threshold,
            adapter.beam_size,
        ),
{
    let nfa = &adapter.aut;
    let found = Seq::<(<NFA::State as DeepView>::V, u64)>::empty();
    lemma_initial_agenda_sorted(nfa, frontier, inp);
    assert(expand_sorted(nfa, &NoExpand));
    assert(found_at_most(found, 0));
    lemma_beam_search_keeps_cheapest(
        nfa,
        &NoExpand,
        initial_agenda(nfa, frontier, inp),
        found,
        adapter.threshold,
        adapter.beam_size,
        0,
    );
}

/// What admitting a state adds to the agenda of a step that follows
/// epsilon edges is sorted where the epsilon edges are.
proof fn lemma_follow_epsilons_sorted<NFA: FollowEpsilonNFA>(nfa: &NFA)
    requires
        epsilons_sorted(nfa),
    ensures
        expand_sorted(nfa, &FollowEpsilons),
{
    let x = &FollowEpsilons;
    assert forall|s: <NFA::State as DeepView>::V|
        match #[trigger] crate::beam::ExtraExpand::<NFA>::spec_expand(x, nfa, s) {
            Some(edges) => edges_sorted(edges),
            None => true,
        } by {
        assert(edges_sorted(nfa.spec_follow_epsilon(s)));
    }
}

/// Closure under epsilon edges: where the edges on `inp` and the epsilon
/// edges are sorted by cost, the frontier after `inp` accounts for every
/// edge on `inp` from an entry of the frontier before, and for every
/// epsilon edge from one of its own entries, whose accumulated cost is
/// within the threshold. It holds the target of the edge at that cost at
/// most, or the beam is full and none of its entries costs more than the
/// edge.
pub proof fn lemma_epsilon_accept_closed<NFA: FollowEpsilonNFA>(
    adapter: &EpsilonExpandingBeamSearchAdapter<NFA>,
    frontier: Seq<(<NFA::State as DeepView>::V, u64)>,
    inp: NFA::InputType,
)
    requires
        accept_sorted(&adapter.0.aut, frontier, inp),
        epsilons_sorted(&adapter.0.aut),
    ensures
        agenda_accounted(
            initial_agenda(&adapter.0.aut, frontier, inp),
            adapter.spec_accept(frontier, inp),
            adapter.0.threshold,
            adapter.0.beam_size,
        ),
        expansions_accounted(
            &adapter.0.aut,
            &FollowEpsilons,
            adapter.spec_accept(frontier, inp),
            0,
            adapter.0.threshold,
            adapter.0.beam_size,
        ),
{
    let nfa = &adapter.0.aut;
    let found = Seq::<(<NFA::State as DeepView>::V, u64)>::empty();
    lemma_initial_agenda_sorted(nfa, frontier, inp);
    lemma_follow_epsilons_sorted(nfa);
    assert(found_at_most(found, 0));
    lemma_beam_search_keeps_cheapest(
        nfa,
        &FollowEpsilons,
        initial_agenda(nfa, frontier, inp),
        found,
        adapter.0.threshold,
        adapter.0.beam_size,
        0,
    );
}

/// Closure of the start frontier under epsilon edges: where the epsilon
/// edges are sorted by cost, the start frontier accounts for every epsilon
/// edge from one of its entries whose accumulated cost is within the
/// threshold. It holds the target of the edge at that cost at most, or the
/// beam is full and none of its entries costs more than the edge.
pub proof fn lemma_epsilon_start_closed<NFA: FollowEpsilonNFA>(
    adapter: &EpsilonExpandingBeamSearchAdapter<NFA>,
)
    requires
        epsilons_sorted(&adapter.0.aut),
    ensures
        expansions_accounted(
            &adapter.0.aut,
            &FollowEpsilons,
            adapter.spec_start(),
            0,
            adapter.0.threshold,
            adapter.0.beam_size,
        ),
{
    let nfa = &adapter.0.aut;
    let x = &FollowEpsilons;
    let first = (nfa.spec_start(), 0u64);
    let root = Entry { base: 0u64, edges: nfa.spec_follow_epsilon(nfa.spec_start()) };
    let agenda = seq![root];
    let found = seq![first];
    let start = adapter.spec_start();
    lemma_follow_epsilons_sorted(nfa);
    assert(agenda_sorted(agenda)) by {
        assert(edges_sorted(nfa.spec_follow_epsilon(nfa.spec_start())));
    }
    assert(found_at_most(found, 0));
    assert(agenda_above(agenda, 0));
    lemma_beam_search_keeps_cheapest(
        nfa,
        x,
        agenda,
        found,
        adapter.0.threshold,
        adapter.0.beam_size,
        0,
    );
    lemma_beam_search_frontier(
        nfa,
        x,
        agenda,
        found,
        adapter.0.threshold,
        adapter.0.beam_size,
    );
    assert(start.take(1) == found);
    assert(start[0] == start.take(1)[0]);
    assert(entry_accounted(agenda[0], start, adapter.0.threshold, adapter.0.beam_size));
}

} // verus!
