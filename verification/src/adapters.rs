//! Automaton contracts: weighted nondeterministic matchers, deterministic
//! matchers, and the lazy edge sequences that connect them.
//!
//! Every automaton is described twice. The executable methods work on
//! concrete states; the `spec_*` functions describe the same automaton over
//! the deep views of those states, and each executable method is tied to its
//! specification by its postcondition.
use crate::agenda::{
    agenda_entries, agenda_size, lemma_agenda_size_push, lemma_agenda_size_remove,
    lemma_min_index, min_index, pop_min, weight, AgendaItem, Entry,
};
use crate::beam::{
    advanced, agenda_satisfies, beam_room, beam_search, entry_satisfies, expand_satisfies,
    expanded, found_contains, found_satisfies, initial_agenda, lemma_beam_search_satisfies,
    ExtraExpand, FollowEpsilons, NoExpand,
};
use crate::utf8::{decode_first, first_char};
use vstd::prelude::*;

verus! {

/// A finite, single-pass sequence of `(next state, incremental cost)` pairs.
///
/// `remaining` is what the sequence has still to yield, in order, with each
/// state taken by its deep view.
pub trait EdgeIter {
    type State: DeepView;

    spec fn remaining(&self) -> Seq<(<Self::State as DeepView>::V, u64)>;

    /// Yields the head of `remaining`, or `None` once it is exhausted.
    fn next_edge(&mut self) -> (r: Option<(Self::State, u64)>)
        ensures
            match r {
                Some((s, c)) => old(self).remaining().len() > 0 && (s.deep_view(), c) == old(
                    self,
                ).remaining()[0] && final(self).remaining() == old(self).remaining().skip(1),
                None => old(self).remaining().len() == 0 && final(self).remaining() == old(
                    self,
                ).remaining(),
            },
    ;
}

/// A nondeterministic automaton whose transitions carry non-negative costs.
pub trait WeightedNFA {
    type State: DeepView;

    type NextStateIter: EdgeIter<State = Self::State>;

    type InputType: Copy;

    spec fn spec_start(&self) -> <Self::State as DeepView>::V;

    spec fn spec_is_match(&self, state: <Self::State as DeepView>::V) -> bool;

    spec fn spec_can_match(&self, state: <Self::State as DeepView>::V) -> bool;

    spec fn spec_will_always_match(&self, state: <Self::State as DeepView>::V) -> bool;

    /// The outgoing edges of `state` on `inp`, in the order `accept` yields them.
    spec fn spec_accept(&self, state: <Self::State as DeepView>::V, inp: Self::InputType) -> Seq<
        (<Self::State as DeepView>::V, u64),
    >;

    /// A matching state can match, and so can one that will always match.
    proof fn lemma_match_can_match(&self, state: <Self::State as DeepView>::V)
        ensures
            self.spec_is_match(state) ==> self.spec_can_match(state),
            self.spec_will_always_match(state) ==> self.spec_can_match(state),
    ;

    /// No edge leads from a state that cannot match to one that can.
    proof fn lemma_dead_stays_dead(
        &self,
        state: <Self::State as DeepView>::V,
        inp: Self::InputType,
        i: int,
    )
        requires
            0 <= i < self.spec_accept(state, inp).len(),
        ensures
            !self.spec_can_match(state) ==> !self.spec_can_match(
                self.spec_accept(state, inp)[i].0,
            ),
    ;

    fn start(&self) -> (s: Self::State)
        ensures
            s.deep_view() == self.spec_start(),
    ;

    fn is_match(&self, state: &Self::State) -> (b: bool)
        ensures
            b == self.spec_is_match(state.deep_view()),
    ;

    fn can_match(&self, state: &Self::State) -> (b: bool)
        ensures
            b == self.spec_can_match(state.deep_view()),
    ;

    fn will_always_match(&self, state: &Self::State) -> (b: bool)
        ensures
            b == self.spec_will_always_match(state.deep_view()),
    ;

    fn accept(&self, state: &Self::State, inp: Self::InputType) -> (edges: Self::NextStateIter)
        ensures
            edges.remaining() == self.spec_accept(state.deep_view(), inp),
    ;

    /// Whether two concrete states stand for the same automaton state.
    fn same_state(&self, a: &Self::State, b: &Self::State) -> (eq: bool)
        ensures
            eq == (a.deep_view() == b.deep_view()),
    ;

    fn clone_state(&self, state: &Self::State) -> (copy: Self::State)
        ensures
            copy.deep_view() == state.deep_view(),
    ;
}

/// A weighted automaton that also has transitions consuming no input.
pub trait FollowEpsilonNFA: WeightedNFA {
    /// The epsilon edges of `state`, in the order `follow_epsilon` yields them.
    spec fn spec_follow_epsilon(&self, state: <Self::State as DeepView>::V) -> Seq<
        (<Self::State as DeepView>::V, u64),
    >;

    /// No epsilon edge leads from a state that cannot match to one that can.
    proof fn lemma_epsilon_dead_stays_dead(&self, state: <Self::State as DeepView>::V, i: int)
        requires
            0 <= i < self.spec_follow_epsilon(state).len(),
        ensures
            !self.spec_can_match(state) ==> !self.spec_can_match(
                self.spec_follow_epsilon(state)[i].0,
            ),
    ;

    fn follow_epsilon(&self, state: &Self::State) -> (edges: Self::NextStateIter)
        ensures
            edges.remaining() == self.spec_follow_epsilon(state.deep_view()),
    ;
}

/// A deterministic automaton: `accept` is total and returns one state.
pub trait DFA {
    type State: DeepView;

    type InputType;

    spec fn spec_start(&self) -> <Self::State as DeepView>::V;

    spec fn spec_is_match(&self, state: <Self::State as DeepView>::V) -> bool;

    spec fn spec_can_match(&self, state: <Self::State as DeepView>::V) -> bool;

    spec fn spec_will_always_match(&self, state: <Self::State as DeepView>::V) -> bool;

    spec fn spec_accept(
        &self,
        state: <Self::State as DeepView>::V,
        inp: Self::InputType,
    ) -> <Self::State as DeepView>::V;

    /// A matching state can match, and so can one that will always match.
    proof fn lemma_match_can_match(&self, state: <Self::State as DeepView>::V)
        ensures
            self.spec_is_match(state) ==> self.spec_can_match(state),
            self.spec_will_always_match(state) ==> self.spec_can_match(state),
    ;

    /// Once a state cannot match, none of its successors can.
    proof fn lemma_dead_stays_dead(&self, state: <Self::State as DeepView>::V, inp: Self::InputType)
        ensures
            !self.spec_can_match(state) ==> !self.spec_can_match(self.spec_accept(state, inp)),
    ;

    fn start(&self) -> (s: Self::State)
        ensures
            s.deep_view() == self.spec_start(),
    ;

    fn is_match(&self, state: &Self::State) -> (b: bool)
        ensures
            b == self.spec_is_match(state.deep_view()),
    ;

    fn can_match(&self, state: &Self::State) -> (b: bool)
        ensures
            b == self.spec_can_match(state.deep_view()),
    ;

    fn will_always_match(&self, state: &Self::State) -> (b: bool)
        ensures
            b == self.spec_will_always_match(state.deep_view()),
    ;

    fn accept(&self, state: &Self::State, inp: Self::InputType) -> (next: Self::State)
        ensures
            next.deep_view() == self.spec_accept(state.deep_view(), inp),
    ;

    fn clone_state(&self, state: &Self::State) -> (copy: Self::State)
        ensures
            copy.deep_view() == state.deep_view(),
    ;
}

/// The state a deterministic automaton reaches from `state` on `input`.
pub open spec fn run_from<A: DFA>(
    aut: &A,
    state: <A::State as DeepView>::V,
    input: Seq<A::InputType>,
) -> <A::State as DeepView>::V
    decreases input.len(),
{
    if input.len() == 0 {
        state
    } else {
        aut.spec_accept(run_from(aut, state, input.drop_last()), input.last())
    }
}

/// The state a deterministic automaton reaches from its start on `input`.
pub open spec fn run<A: DFA>(aut: &A, input: Seq<A::InputType>) -> <A::State as DeepView>::V {
    run_from(aut, aut.spec_start(), input)
}

/// Once a run has reached a state that cannot match, no longer input revives it.
pub proof fn lemma_run_dead_stays_dead<A: DFA>(aut: &A, input: Seq<A::InputType>, n: int)
    requires
        0 <= n <= input.len(),
        !aut.spec_can_match(run(aut, input.take(n))),
    ensures
        !aut.spec_can_match(run(aut, input)),
        !aut.spec_is_match(run(aut, input)),
    decreases input.len() - n,
{
    if n == input.len() {
        assert(input.take(n) == input);
    } else {
        assert(input.take(n + 1).drop_last() == input.take(n));
        assert(input.take(n + 1).last() == input[n]);
        aut.lemma_dead_stays_dead(run(aut, input.take(n)), input[n]);
        lemma_run_dead_stays_dead(aut, input, n + 1);
    }
    aut.lemma_match_can_match(run(aut, input));
}

/// Turns a weighted automaton into a deterministic one whose state is a
/// frontier: the automaton states reached so far, each with the least
/// accumulated cost found for it, in the order they were found.
pub struct BeamSearchAdapter<NFA: WeightedNFA> {
    pub aut: NFA,
    /// No frontier entry has an accumulated cost above this.
    pub threshold: u64,
    /// A step stops admitting states once the frontier has this many entries.
    pub beam_size: usize,
}

impl<NFA: WeightedNFA> BeamSearchAdapter<NFA> {
    /// Whether `state` is among the states of `frontier`.
    pub fn contains_state(&self, frontier: &Vec<(NFA::State, u64)>, state: &NFA::State) -> (found:
        bool)
        ensures
            found == found_contains(frontier.deep_view(), state.deep_view()),
    {
        let mut i: usize = 0;
        while i < frontier.len()
            invariant
                i <= frontier.len(),
                forall|j: int| 0 <= j < i ==> frontier.deep_view()[j].0 != state.deep_view(),
            decreases frontier.len() - i,
        {
            if self.aut.same_state(&frontier[i].0, state) {
                assert(frontier.deep_view()[i as int].0 == state.deep_view());
                return true;
            }
            i += 1;
        }
        false
    }

    /// One beam step from `state` on `inp`; `extra_expand` says what
    /// admitting a state adds to the agenda.
    pub fn step<X: ExtraExpand<NFA>>(
        &self,
        state: &Vec<(NFA::State, u64)>,
        inp: NFA::InputType,
        extra_expand: &X,
    ) -> (next: Vec<(NFA::State, u64)>)
        ensures
            next.deep_view() == beam_search(
                &self.aut,
                extra_expand,
                initial_agenda(&self.aut, state.deep_view(), inp),
                Seq::empty(),
                self.threshold,
                self.beam_size,
            ),
    {
        let mut heap: Vec<AgendaItem<NFA::NextStateIter>> = Vec::new();
        let mut i: usize = 0;
        let ghost goal = initial_agenda(&self.aut, state.deep_view(), inp);
        while i < state.len()
            invariant
                i <= state.len(),
                goal == initial_agenda(&self.aut, state.deep_view(), inp),
                agenda_entries(heap@) == goal.take(i as int),
            decreases state.len() - i,
        {
            let item = AgendaItem::new(state[i].1, self.aut.accept(&state[i].0, inp));
            let ghost before = agenda_entries(heap@);
            heap.push(item);
            proof {
                assert(state.deep_view()[i as int] == (
                    state[i as int].0.deep_view(),
                    state[i as int].1,
                ));
                assert(item.entry() == goal[i as int]);
                assert(agenda_entries(heap@) =~= before.push(item.entry()));
                assert(goal.take(i + 1) =~= goal.take(i as int).push(goal[i as int]));
            }
            i += 1;
        }
        assert(goal.take(i as int) == goal);
        let result: Vec<(NFA::State, u64)> = Vec::new();
        assert(result.deep_view() =~= Seq::empty());
        self.step_inner(extra_expand, heap, result)
    }

    /// Runs the agenda `heap` dry, or until the beam is full, starting
    /// with `result` already in the frontier.
    pub fn step_inner<X: ExtraExpand<NFA>>(
        &self,
        extra_expand: &X,
        heap: Vec<AgendaItem<NFA::NextStateIter>>,
        result: Vec<(NFA::State, u64)>,
    ) -> (frontier: Vec<(NFA::State, u64)>)
        ensures
            frontier.deep_view() == beam_search(
                &self.aut,
                extra_expand,
                agenda_entries(heap@),
                result.deep_view(),
                self.threshold,
                self.beam_size,
            ),
    {
        let mut heap = heap;
        let mut result = result;
        let ghost goal = beam_search(
            &self.aut,
            extra_expand,
            agenda_entries(heap@),
            result.deep_view(),
            self.threshold,
            self.beam_size,
        );
        loop
            invariant_except_break
                goal == beam_search(
                    &self.aut,
                    extra_expand,
                    agenda_entries(heap@),
                    result.deep_view(),
                    self.threshold,
                    self.beam_size,
                ),
            ensures
                result.deep_view() == goal,
            decreases beam_room(result@.len(), self.beam_size), agenda_size(agenda_entries(heap@)),
        {
            let ghost agenda = agenda_entries(heap@);
            let ghost found = result.deep_view();
            let popped = pop_min(&mut heap);
            let mut item = match popped {
                Some(item) => item,
                None => {
                    break ;
                },
            };
            let ghost at = min_index(agenda);
            let ghost entry = agenda[at];
            let ghost rest = agenda.remove(at);
            proof {
                lemma_min_index(agenda);
                lemma_agenda_size_remove(agenda, at);
                lemma_agenda_size_push(rest, advanced(entry));
            }
            let next_weight = weight(&item);
            let edge = item.next();
            let next_state = match edge {
                Some((next_state, _)) => next_state,
                None => {
                    continue ;
                },
            };
            let next_weight = match next_weight {
                Some(w) => w,
                None => {
                    continue ;
                },
            };
            if next_weight > self.threshold {
                continue ;
            }
            assert(item.entry() == advanced(entry));
            if !self.contains_state(&result, &next_state) {
                result.push((next_state, next_weight));
                assert(result.deep_view() =~= found.push((entry.edges[0].0, next_weight)));
                if result.len() >= self.beam_size {
                    break ;
                }
                let last = result.len() - 1;
                match extra_expand.expand(&self.aut, &result[last].0) {
                    Some(edges) => {
                        let extra = AgendaItem::new(next_weight, edges);
                        heap.push(extra);
                        assert(agenda_entries(heap@) =~= expanded(
                            &self.aut,
                            extra_expand,
                            rest,
                            entry.edges[0].0,
                            next_weight,
                        ));
                        proof {
                            lemma_agenda_size_push(rest, extra.entry());
                        }
                    },
                    None => {},
                }
            }
            let ghost before_push = agenda_entries(heap@);
            heap.push(item);
            assert(agenda_entries(heap@) =~= before_push.push(advanced(entry)));
            proof {
                lemma_agenda_size_push(before_push, advanced(entry));
            }
        }
        result
    }
}

/// Some state of `frontier` is a matching state of `nfa`.
pub open spec fn any_is_match<NFA: WeightedNFA>(
    nfa: &NFA,
    frontier: Seq<(<NFA::State as DeepView>::V, u64)>,
) -> bool {
    exists|i: int| 0 <= i < frontier.len() && nfa.spec_is_match((#[trigger] frontier[i]).0)
}

/// Some state of `frontier` can still lead to a match.
pub open spec fn any_can_match<NFA: WeightedNFA>(
    nfa: &NFA,
    frontier: Seq<(<NFA::State as DeepView>::V, u64)>,
) -> bool {
    exists|i: int| 0 <= i < frontier.len() && nfa.spec_can_match((#[trigger] frontier[i]).0)
}

/// Some state of `frontier` matches whatever input follows.
pub open spec fn any_will_always_match<NFA: WeightedNFA>(
    nfa: &NFA,
    frontier: Seq<(<NFA::State as DeepView>::V, u64)>,
) -> bool {
    exists|i: int|
        0 <= i < frontier.len() && nfa.spec_will_always_match((#[trigger] frontier[i]).0)
}

/// A frontier with a matching state, or one that always matches, has a
/// state that can match.
pub proof fn lemma_any_match_can_match<NFA: WeightedNFA>(
    nfa: &NFA,
    frontier: Seq<(<NFA::State as DeepView>::V, u64)>,
)
    ensures
        any_is_match(nfa, frontier) ==> any_can_match(nfa, frontier),
        any_will_always_match(nfa, frontier) ==> any_can_match(nfa, frontier),
{
    if any_is_match(nfa, frontier) {
        let i = choose|i: int|
            0 <= i < frontier.len() && nfa.spec_is_match((#[trigger] frontier[i]).0);
        nfa.lemma_match_can_match(frontier[i].0);
    }
    if any_will_always_match(nfa, frontier) {
        let i = choose|i: int|
            0 <= i < frontier.len() && nfa.spec_will_always_match((#[trigger] frontier[i]).0);
        nfa.lemma_match_can_match(frontier[i].0);
    }
}

impl<NFA: WeightedNFA> DFA for BeamSearchAdapter<NFA> {
    type State = Vec<(NFA::State, u64)>;

    type InputType = NFA::InputType;

    open spec fn spec_start(&self) -> Seq<(<NFA::State as DeepView>::V, u64)> {
        seq![(self.aut.spec_start(), 0u64)]
    }

    open spec fn spec_is_match(&self, state: Seq<(<NFA::State as DeepView>::V, u64)>) -> bool {
        any_is_match(&self.aut, state)
    }

    open spec fn spec_can_match(&self, state: Seq<(<NFA::State as DeepView>::V, u64)>) -> bool {
        any_can_match(&self.aut, state)
    }

    open spec fn spec_will_always_match(
        &self,
        state: Seq<(<NFA::State as DeepView>::V, u64)>,
    ) -> bool {
        any_will_always_match(&self.aut, state)
    }

    open spec fn spec_accept(
        &self,
        state: Seq<(<NFA::State as DeepView>::V, u64)>,
        inp: NFA::InputType,
    ) -> Seq<(<NFA::State as DeepView>::V, u64)> {
        beam_search(
            &self.aut,
            &NoExpand,
            initial_agenda(&self.aut, state, inp),
            Seq::empty(),
            self.threshold,
            self.beam_size,
        )
    }

    proof fn lemma_match_can_match(&self, state: Seq<(<NFA::State as DeepView>::V, u64)>) {
        lemma_any_match_can_match(&self.aut, state);
    }

    proof fn lemma_dead_stays_dead(
        &self,
        state: Seq<(<NFA::State as DeepView>::V, u64)>,
        inp: NFA::InputType,
    ) {
        if !any_can_match(&self.aut, state) {
            let nfa = &self.aut;
            let p = dead(nfa);
            let found = Seq::<(<NFA::State as DeepView>::V, u64)>::empty();
            lemma_initial_agenda_dead(nfa, state, inp, self.threshold);
            assert(expand_satisfies(nfa, &NoExpand, self.threshold, p));
            assert(found_satisfies(found, p));
            lemma_beam_search_satisfies(
                nfa,
                &NoExpand,
                initial_agenda(nfa, state, inp),
                found,
                self.threshold,
                self.beam_size,
                p,
            );
            let next = self.spec_accept(state, inp);
            assert forall|i: int| 0 <= i < next.len() implies !nfa.spec_can_match(
                (#[trigger] next[i]).0,
            ) by {
                assert(p(next[i].0, next[i].1));
            }
        }
    }

    fn start(&self) -> (s: Vec<(NFA::State, u64)>) {
        let mut s: Vec<(NFA::State, u64)> = Vec::new();
        s.push((self.aut.start(), 0));
        assert(s.deep_view() =~= seq![(self.aut.spec_start(), 0u64)]);
        s
    }

    fn is_match(&self, state: &Vec<(NFA::State, u64)>) -> (b: bool) {
        let mut i: usize = 0;
        while i < state.len()
            invariant
                i <= state.len(),
                forall|j: int| 0 <= j < i ==> !self.aut.spec_is_match(state.deep_view()[j].0),
            decreases state.len() - i,
        {
            if self.aut.is_match(&state[i].0) {
                assert(self.aut.spec_is_match(state.deep_view()[i as int].0));
                return true;
            }
            i += 1;
        }
        false
    }

    fn can_match(&self, state: &Vec<(NFA::State, u64)>) -> (b: bool) {
        let mut i: usize = 0;
        while i < state.len()
            invariant
                i <= state.len(),
                forall|j: int| 0 <= j < i ==> !self.aut.spec_can_match(state.deep_view()[j].0),
            decreases state.len() - i,
        {
            if self.aut.can_match(&state[i].0) {
                assert(self.aut.spec_can_match(state.deep_view()[i as int].0));
                return true;
            }
            i += 1;
        }
        false
    }

    fn will_always_match(&self, state: &Vec<(NFA::State, u64)>) -> (b: bool) {
        let mut i: usize = 0;
        while i < state.len()
            invariant
                i <= state.len(),
                forall|j: int|
                    0 <= j < i ==> !self.aut.spec_will_always_match(state.deep_view()[j].0),
            decreases state.len() - i,
        {
            if self.aut.will_always_match(&state[i].0) {
                assert(self.aut.spec_will_always_match(state.deep_view()[i as int].0));
                return true;
            }
            i += 1;
        }
        false
    }

    fn accept(&self, state: &Vec<(NFA::State, u64)>, inp: NFA::InputType) -> (next: Vec<
        (NFA::State, u64),
    >) {
        self.step(state, inp, &NoExpand)
    }

    fn clone_state(&self, state: &Vec<(NFA::State, u64)>) -> (copy: Vec<(NFA::State, u64)>) {
        let mut copy: Vec<(NFA::State, u64)> = Vec::new();
        let mut i: usize = 0;
        while i < state.len()
            invariant
                i <= state.len(),
                copy.deep_view() == state.deep_view().take(i as int),
            decreases state.len() - i,
        {
            let ghost before = copy.deep_view();
            let entry = (self.aut.clone_state(&state[i].0), state[i].1);
            copy.push(entry);
            proof {
                assert(state.deep_view()[i as int] == (
                    state[i as int].0.deep_view(),
                    state[i as int].1,
                ));
                assert(copy.deep_view() =~= before.push(entry.deep_view()));
                assert(state.deep_view().take(i + 1) =~= state.deep_view().take(i as int).push(
                    state.deep_view()[i as int],
                ));
            }
            i += 1;
        }
        assert(state.deep_view().take(i as int) == state.deep_view());
        copy
    }
}

/// The property of a state and a cost that the state cannot match.
pub open spec fn dead<NFA: WeightedNFA>(nfa: &NFA) -> spec_fn(
    <NFA::State as DeepView>::V,
    u64,
) -> bool {
    |s: <NFA::State as DeepView>::V, w: u64| !nfa.spec_can_match(s)
}

/// The epsilon edges of a state that cannot match lead to such states only.
pub proof fn lemma_follow_epsilons_dead<NFA: FollowEpsilonNFA>(nfa: &NFA, threshold: u64)
    ensures
        expand_satisfies(nfa, &FollowEpsilons, threshold, dead(nfa)),
{
    let p = dead(nfa);
    assert forall|s: <NFA::State as DeepView>::V, w: u64| #[trigger]
        p(s, w) implies entry_satisfies(
        Entry { base: w, edges: nfa.spec_follow_epsilon(s) },
        threshold,
        p,
    ) by {
        let entry = Entry { base: w, edges: nfa.spec_follow_epsilon(s) };
        assert forall|j: int| 0 <= j < entry.edges.len() implies p(
            (#[trigger] entry.edges[j]).0,
            (entry.base + entry.edges[j].1) as u64,
        ) by {
            nfa.lemma_epsilon_dead_stays_dead(s, j);
        }
    }
}

/// The edges on `inp` of a frontier none of whose states can match lead
/// to such states only.
pub proof fn lemma_initial_agenda_dead<NFA: WeightedNFA>(
    nfa: &NFA,
    frontier: Seq<(<NFA::State as DeepView>::V, u64)>,
    inp: NFA::InputType,
    threshold: u64,
)
    requires
        !any_can_match(nfa, frontier),
    ensures
        agenda_satisfies(initial_agenda(nfa, frontier, inp), threshold, dead(nfa)),
{
    let p = dead(nfa);
    let agenda = initial_agenda(nfa, frontier, inp);
    assert forall|k: int| 0 <= k < agenda.len() implies entry_satisfies(
        #[trigger] agenda[k],
        threshold,
        p,
    ) by {
        assert forall|j: int| 0 <= j < agenda[k].edges.len() implies p(
            (#[trigger] agenda[k].edges[j]).0,
            (agenda[k].base + agenda[k].edges[j].1) as u64,
        ) by {
            assert(!nfa.spec_can_match(frontier[k].0));
            nfa.lemma_dead_stays_dead(frontier[k].0, inp, j);
        }
    }
}

/// A beam adapter that follows the epsilon edges of every state it admits
/// into a frontier, through the same agenda as the edges on input.
pub struct EpsilonExpandingBeamSearchAdapter<Wrapped: FollowEpsilonNFA>(
    pub BeamSearchAdapter<Wrapped>,
);

impl<Wrapped: FollowEpsilonNFA> EpsilonExpandingBeamSearchAdapter<Wrapped> {
    /// Puts the epsilon edges of `next_state` on the agenda, at the
    /// accumulated cost `next_weight`.
    pub fn expand_epsilon(
        &self,
        heap: &mut Vec<AgendaItem<Wrapped::NextStateIter>>,
        next_state: &Wrapped::State,
        next_weight: u64,
    )
        ensures
            agenda_entries(final(heap)@) == agenda_entries(old(heap)@).push(
                Entry {
                    base: next_weight,
                    edges: self.0.aut.spec_follow_epsilon(next_state.deep_view()),
                },
            ),
    {
        let ghost before = agenda_entries(heap@);
        let item = AgendaItem::new(next_weight, self.0.aut.follow_epsilon(next_state));
        heap.push(item);
        assert(agenda_entries(heap@) =~= before.push(item.entry()));
    }
}

impl<Wrapped: FollowEpsilonNFA> DFA for EpsilonExpandingBeamSearchAdapter<Wrapped> {
    type State = Vec<(Wrapped::State, u64)>;

    type InputType = Wrapped::InputType;

    /// The start state at cost 0 first, then what its epsilon edges reach.
    open spec fn spec_start(&self) -> Seq<(<Wrapped::State as DeepView>::V, u64)> {
        beam_search(
            &self.0.aut,
            &FollowEpsilons,
            seq![
                Entry {
                    base: 0u64,
                    edges: self.0.aut.spec_follow_epsilon(self.0.aut.spec_start()),
                },
            ],
            seq![(self.0.aut.spec_start(), 0u64)],
            self.0.threshold,
            self.0.beam_size,
        )
    }

    open spec fn spec_is_match(&self, state: Seq<(<Wrapped::State as DeepView>::V, u64)>) -> bool {
        any_is_match(&self.0.aut, state)
    }

    open spec fn spec_can_match(&self, state: Seq<(<Wrapped::State as DeepView>::V, u64)>) -> bool {
        any_can_match(&self.0.aut, state)
    }

    open spec fn spec_will_always_match(
        &self,
        state: Seq<(<Wrapped::State as DeepView>::V, u64)>,
    ) -> bool {
        any_will_always_match(&self.0.aut, state)
    }

    open spec fn spec_accept(
        &self,
        state: Seq<(<Wrapped::State as DeepView>::V, u64)>,
        inp: Wrapped::InputType,
    ) -> Seq<(<Wrapped::State as DeepView>::V, u64)> {
        beam_search(
            &self.0.aut,
            &FollowEpsilons,
            initial_agenda(&self.0.aut, state, inp),
            Seq::empty(),
            self.0.threshold,
            self.0.beam_size,
        )
    }

    proof fn lemma_match_can_match(&self, state: Seq<(<Wrapped::State as DeepView>::V, u64)>) {
        lemma_any_match_can_match(&self.0.aut, state);
    }

    proof fn lemma_dead_stays_dead(
        &self,
        state: Seq<(<Wrapped::State as DeepView>::V, u64)>,
        inp: Wrapped::InputType,
    ) {
        if !any_can_match(&self.0.aut, state) {
            let nfa = &self.0.aut;
            let p = dead(nfa);
            let agenda = initial_agenda(nfa, state, inp);
            let found = Seq::<(<Wrapped::State as DeepView>::V, u64)>::empty();
            lemma_initial_agenda_dead(nfa, state, inp, self.0.threshold);
            lemma_follow_epsilons_dead(nfa, self.0.threshold);
            assert(found_satisfies(found, p));
            lemma_beam_search_satisfies(
                nfa,
                &FollowEpsilons,
                agenda,
                found,
                self.0.threshold,
                self.0.beam_size,
                p,
            );
            let next = self.spec_accept(state, inp);
            assert forall|i: int| 0 <= i < next.len() implies !nfa.spec_can_match(
                (#[trigger] next[i]).0,
            ) by {
                assert(p(next[i].0, next[i].1));
            }
        }
    }

    fn start(&self) -> (s: Vec<(Wrapped::State, u64)>) {
        let state = self.0.aut.start();
        let mut heap: Vec<AgendaItem<Wrapped::NextStateIter>> = Vec::new();
        assert(agenda_entries(heap@) =~= Seq::empty());
        self.expand_epsilon(&mut heap, &state, 0);
        let mut result: Vec<(Wrapped::State, u64)> = Vec::new();
        result.push((state, 0));
        assert(result.deep_view() =~= seq![(self.0.aut.spec_start(), 0u64)]);
        assert(agenda_entries(heap@) =~= seq![
            Entry {
                base: 0u64,
                edges: self.0.aut.spec_follow_epsilon(self.0.aut.spec_start()),
            },
        ]);
        self.0.step_inner(&FollowEpsilons, heap, result)
    }

    fn is_match(&self, state: &Vec<(Wrapped::State, u64)>) -> (b: bool) {
        self.0.is_match(state)
    }

    fn can_match(&self, state: &Vec<(Wrapped::State, u64)>) -> (b: bool) {
        self.0.can_match(state)
    }

    fn will_always_match(&self, state: &Vec<(Wrapped::State, u64)>) -> (b: bool) {
        self.0.will_always_match(state)
    }

    fn accept(&self, state: &Vec<(Wrapped::State, u64)>, inp: Wrapped::InputType) -> (next: Vec<
        (Wrapped::State, u64),
    >) {
        self.0.step(state, inp, &FollowEpsilons)
    }

    fn clone_state(&self, state: &Vec<(Wrapped::State, u64)>) -> (copy: Vec<
        (Wrapped::State, u64),
    >) {
        self.0.clone_state(state)
    }
}

/// Turns an automaton over characters into one over bytes: bytes are
/// gathered in a buffer until the buffer decodes as UTF-8, and the wrapped
/// automaton then takes the character.
pub struct DFAUtf8Adapter<Wrapped: DFA<InputType = char>>(pub Wrapped);

/// A copy of `bytes` with `byte` behind it.
pub fn pushed(bytes: &Vec<u8>, byte: u8) -> (longer: Vec<u8>)
    ensures
        longer@ == bytes@.push(byte),
{
    let mut longer: Vec<u8> = Vec::with_capacity(4);
    let mut i: usize = 0;
    while i < bytes.len()
        invariant
            i <= bytes.len(),
            longer@ == bytes@.take(i as int),
        decreases bytes.len() - i,
    {
        longer.push(bytes[i]);
        assert(longer@ =~= bytes@.take(i + 1));
        i += 1;
    }
    assert(bytes@.take(i as int) == bytes@);
    longer.push(byte);
    longer
}

impl<Wrapped: DFA<InputType = char>> DFA for DFAUtf8Adapter<Wrapped> {
    type State = (Wrapped::State, Vec<u8>);

    type InputType = u8;

    open spec fn spec_start(&self) -> (<Wrapped::State as DeepView>::V, Seq<u8>) {
        (self.0.spec_start(), Seq::empty())
    }

    open spec fn spec_is_match(&self, state: (<Wrapped::State as DeepView>::V, Seq<u8>)) -> bool {
        state.1.len() == 0 && self.0.spec_is_match(state.0)
    }

    open spec fn spec_can_match(&self, state: (<Wrapped::State as DeepView>::V, Seq<u8>)) -> bool {
        self.0.spec_can_match(state.0)
    }

    open spec fn spec_will_always_match(
        &self,
        state: (<Wrapped::State as DeepView>::V, Seq<u8>),
    ) -> bool {
        self.0.spec_will_always_match(state.0)
    }

    open spec fn spec_accept(
        &self,
        state: (<Wrapped::State as DeepView>::V, Seq<u8>),
        inp: u8,
    ) -> (<Wrapped::State as DeepView>::V, Seq<u8>) {
        match first_char(state.1.push(inp)) {
            Some(chr) => (self.0.spec_accept(state.0, chr), Seq::empty()),
            None => (state.0, state.1.push(inp)),
        }
    }

    proof fn lemma_match_can_match(&self, state: (<Wrapped::State as DeepView>::V, Seq<u8>)) {
        self.0.lemma_match_can_match(state.0);
    }

    proof fn lemma_dead_stays_dead(
        &self,
        state: (<Wrapped::State as DeepView>::V, Seq<u8>),
        inp: u8,
    ) {
        match first_char(state.1.push(inp)) {
            Some(chr) => {
                self.0.lemma_dead_stays_dead(state.0, chr);
            },
            None => {},
        }
    }

    fn start(&self) -> (s: (Wrapped::State, Vec<u8>)) {
        let buffer: Vec<u8> = Vec::with_capacity(4);
        assert(buffer.deep_view() =~= Seq::empty());
        (self.0.start(), buffer)
    }

    fn is_match(&self, state: &(Wrapped::State, Vec<u8>)) -> (b: bool) {
        assert(state.1.deep_view().len() == state.1@.len());
        state.1.len() == 0 && self.0.is_match(&state.0)
    }

    fn can_match(&self, state: &(Wrapped::State, Vec<u8>)) -> (b: bool) {
        self.0.can_match(&state.0)
    }

    fn will_always_match(&self, state: &(Wrapped::State, Vec<u8>)) -> (b: bool) {
        self.0.will_always_match(&state.0)
    }

    fn accept(&self, state: &(Wrapped::State, Vec<u8>), inp: u8) -> (next: (
        Wrapped::State,
        Vec<u8>,
    )) {
        let buffer = pushed(&state.1, inp);
        assert(state.1.deep_view() =~= state.1@);
        assert(buffer.deep_view() =~= buffer@);
        match decode_first(buffer.as_slice()) {
            Some(chr) => {
                let empty: Vec<u8> = Vec::new();
                assert(empty.deep_view() =~= Seq::empty());
                (self.0.accept(&state.0, chr), empty)
            },
            None => (self.0.clone_state(&state.0), buffer),
        }
    }

    fn clone_state(&self, state: &(Wrapped::State, Vec<u8>)) -> (copy: (Wrapped::State, Vec<u8>)) {
        let mut buffer = pushed(&state.1, 0);
        buffer.pop();
        assert(buffer@ =~= state.1@);
        assert(state.1.deep_view() =~= state.1@);
        assert(buffer.deep_view() =~= buffer@);
        (self.0.clone_state(&state.0), buffer)
    }
}

/// A byte automaton ready to drive a traversal of a dictionary.
pub struct AutomatonDFAAdapter<Wrapped: DFA<InputType = u8>>(pub Wrapped);

impl<Wrapped: DFA<InputType = u8>> DFA for AutomatonDFAAdapter<Wrapped> {
    type State = Wrapped::State;

    type InputType = u8;

    open spec fn spec_start(&self) -> <Wrapped::State as DeepView>::V {
        self.0.spec_start()
    }

    open spec fn spec_is_match(&self, state: <Wrapped::State as DeepView>::V) -> bool {
        self.0.spec_is_match(state)
    }

    open spec fn spec_can_match(&self, state: <Wrapped::State as DeepView>::V) -> bool {
        self.0.spec_can_match(state)
    }

    open spec fn spec_will_always_match(&self, state: <Wrapped::State as DeepView>::V) -> bool {
        self.0.spec_will_always_match(state)
    }

    open spec fn spec_accept(
        &self,
        state: <Wrapped::State as DeepView>::V,
        inp: u8,
    ) -> <Wrapped::State as DeepView>::V {
        self.0.spec_accept(state, inp)
    }

    proof fn lemma_match_can_match(&self, state: <Wrapped::State as DeepView>::V) {
        self.0.lemma_match_can_match(state);
    }

    proof fn lemma_dead_stays_dead(&self, state: <Wrapped::State as DeepView>::V, inp: u8) {
        self.0.lemma_dead_stays_dead(state, inp);
    }

    fn start(&self) -> (s: Wrapped::State) {
        self.0.start()
    }

    fn is_match(&self, state: &Wrapped::State) -> (b: bool) {
        self.0.is_match(state)
    }

    fn can_match(&self, state: &Wrapped::State) -> (b: bool) {
        self.0.can_match(state)
    }

    fn will_always_match(&self, state: &Wrapped::State) -> (b: bool) {
        self.0.will_always_match(state)
    }

    fn accept(&self, state: &Wrapped::State, inp: u8) -> (next: Wrapped::State) {
        self.0.accept(state, inp)
    }

    fn clone_state(&self, state: &Wrapped::State) -> (copy: Wrapped::State) {
        self.0.clone_state(state)
    }
}

/// Feeds `input` to `aut` from its start state and returns the state reached.
pub fn replay<A: DFA<InputType = u8>>(aut: &A, input: &[u8]) -> (state: A::State)
    ensures
        state.deep_view() == run(aut, input@),
{
    let mut state = aut.start();
    let mut i: usize = 0;
    assert(input@.take(0) =~= Seq::<u8>::empty());
    while i < input.len()
        invariant
            i <= input.len(),
            state.deep_view() == run(aut, input@.take(i as int)),
        decreases input.len() - i,
    {
        proof {
            assert(input@.take(i + 1).drop_last() == input@.take(i as int));
            assert(input@.take(i + 1).last() == input@[i as int]);
        }
        state = aut.accept(&state, input[i]);
        i += 1;
    }
    assert(input@.take(i as int) == input@);
    state
}

/// Whether `weight` is the least accumulated cost among the entries of
/// `frontier` whose state matches.
pub open spec fn is_least_matching_weight<NFA: WeightedNFA>(
    nfa: &NFA,
    frontier: Seq<(<NFA::State as DeepView>::V, u64)>,
    weight: u64,
) -> bool {
    &&& exists|i: int|
        0 <= i < frontier.len() && nfa.spec_is_match((#[trigger] frontier[i]).0) && frontier[i].1
            == weight
    &&& forall|j: int|
        0 <= j < frontier.len() && nfa.spec_is_match((#[trigger] frontier[j]).0) ==> weight
            <= frontier[j].1
}

/// The least accumulated cost among the entries of `frontier` whose state
/// matches; `None` where no state matches.
pub fn least_matching_weight<NFA: WeightedNFA>(nfa: &NFA, frontier: &Vec<(NFA::State, u64)>) -> (w:
    Option<u64>)
    ensures
        match w {
            Some(weight) => is_least_matching_weight(nfa, frontier.deep_view(), weight),
            None => !any_is_match(nfa, frontier.deep_view()),
        },
{
    let mut best: Option<u64> = None;
    let mut i: usize = 0;
    while i < frontier.len()
        invariant
            i <= frontier.len(),
            match best {
                Some(weight) => is_least_matching_weight(
                    nfa,
                    frontier.deep_view().take(i as int),
                    weight,
                ),
                None => !any_is_match(nfa, frontier.deep_view().take(i as int)),
            },
        decreases frontier.len() - i,
    {
        let ghost seen = frontier.deep_view().take(i as int);
        let ghost more = frontier.deep_view().take(i + 1);
        proof {
            assert(forall|j: int| 0 <= j < i ==> more[j] == seen[j]);
            assert(more[i as int] == (frontier@[i as int].0.deep_view(), frontier@[i as int].1));
        }
        if nfa.is_match(&frontier[i].0) {
            let weight = frontier[i].1;
            best =
            match best {
                Some(least) => if weight < least {
                    Some(weight)
                } else {
                    proof {
                        let k = choose|k: int|
                            0 <= k < seen.len() && nfa.spec_is_match((#[trigger] seen[k]).0)
                                && seen[k].1 == least;
                        assert(more[k] == seen[k]);
                    }
                    Some(least)
                },
                None => Some(weight),
            };
            proof {
                assert(nfa.spec_is_match(more[i as int].0));
            }
        } else {
            proof {
                match best {
                    Some(least) => {
                        let k = choose|k: int|
                            0 <= k < seen.len() && nfa.spec_is_match((#[trigger] seen[k]).0)
                                && seen[k].1 == least;
                        assert(more[k] == seen[k]);
                    },
                    None => {},
                }
            }
        }
        i += 1;
    }
    assert(frontier.deep_view().take(i as int) == frontier.deep_view());
    best
}

} // verus!
