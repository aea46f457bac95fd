//! Edit distance as a weighted automaton over the characters of a query.
//!
//! A state is the number of query characters consumed so far. Reading one
//! input character from a state yields a lazy sequence of edges: match,
//! substitute and insert at the current position, then the same after each
//! further deletion of a query character.
use crate::adapters::{
    any_is_match, is_least_matching_weight, least_matching_weight, replay, run,
    AutomatonDFAAdapter, BeamSearchAdapter, DFAUtf8Adapter, EdgeIter, WeightedNFA, DFA,
};
use crate::agenda::key_less;
use crate::beam::{
    agenda_accounted, edges_sorted, initial_agenda, lemma_popped_keys_rise, popped_keys, NoExpand,
};
use crate::frontier::{accept_sorted, lemma_accept_keeps_cheapest};
use std::sync::Arc;
use vstd::prelude::*;

verus! {

/// The match edge at query position `cur`, reached after `extra` deletions.
pub open spec fn match_edge(query: Seq<char>, cur: int, inp: char, extra: int) -> Seq<
    (usize, u64),
> {
    if cur < query.len() && query[cur] == inp {
        seq![((cur + 1) as usize, extra as u64)]
    } else {
        seq![]
    }
}

/// The substitute edge at query position `cur`, reached after `extra` deletions.
pub open spec fn substitute_edge(query: Seq<char>, cur: int, extra: int) -> Seq<(usize, u64)> {
    if cur < query.len() {
        seq![((cur + 1) as usize, (1 + extra) as u64)]
    } else {
        seq![]
    }
}

/// The insert edge at query position `cur`; there is none after a deletion.
pub open spec fn insert_edge(cur: int, extra: int, deleted: bool) -> Seq<(usize, u64)> {
    if !deleted {
        seq![(cur as usize, (1 + extra) as u64)]
    } else {
        seq![]
    }
}

/// The edges that follow the insert edge at position `cur`: those reached by
/// deleting the query character at `cur`, unless that is the last one.
pub open spec fn edges_after_delete(query: Seq<char>, cur: int, inp: char, extra: int) -> Seq<
    (usize, u64),
>
    decreases query.len() - cur, 0int,
{
    if cur + 1 >= query.len() {
        seq![]
    } else {
        levenshtein_edges(query, cur + 1, inp, extra + 1, true)
    }
}

/// All edges on `inp` from query position `cur` with `extra` deletions
/// already paid for, in the order they are yielded.
pub open spec fn levenshtein_edges(
    query: Seq<char>,
    cur: int,
    inp: char,
    extra: int,
    deleted: bool,
) -> Seq<(usize, u64)>
    decreases query.len() - cur, 1int,
{
    match_edge(query, cur, inp, extra) + substitute_edge(query, cur, extra) + insert_edge(
        cur,
        extra,
        deleted,
    ) + edges_after_delete(query, cur, inp, extra)
}

pub struct WeightedLevenshteinNFA {
    query: Arc<Vec<char>>,
}

/// `Arc::clone`: the new handle points to the same value.
#[verifier::external_body]
fn share_query(query: &Arc<Vec<char>>) -> (shared: Arc<Vec<char>>)
    ensures
        shared == *query,
{
    Arc::clone(query)
}

impl WeightedLevenshteinNFA {
    /// The characters of the query.
    pub closed spec fn query(&self) -> Seq<char> {
        self.query@
    }

    /// A query is held in memory, so its length fits a machine word.
    pub proof fn lemma_query_len(&self)
        ensures
            self.query().len() <= usize::MAX,
    {
        assert(self.query@.len() == self.query.len());
    }

    pub fn new(query: &str) -> (nfa: WeightedLevenshteinNFA)
        ensures
            nfa.query() == query@,
    {
        let mut query_chars: Vec<char> = Vec::with_capacity(query.len());
        for c in it: query.chars()
            invariant
                it.seq() == query@,
                query_chars@ == query@.take(it.index() as int),
        {
            query_chars.push(c);
        }
        WeightedLevenshteinNFA { query: Arc::new(query_chars) }
    }
}

enum NextStatesState {
    Match,
    Substitute,
    Insert,
    Delete,
}

pub struct LevenshteinNextStates {
    chars: usize,
    query: Arc<Vec<char>>,
    inp: char,
    state: NextStatesState,
    extra_weight: u64,
    deleted: bool,
}

impl LevenshteinNextStates {
    #[verifier::type_invariant]
    spec fn well_formed(&self) -> bool {
        &&& self.extra_weight <= self.chars
        &&& !self.deleted ==> self.extra_weight == 0
    }

    pub fn new(chars: usize, query: &Arc<Vec<char>>, inp: char) -> (edges: LevenshteinNextStates)
        ensures
            edges.remaining() == levenshtein_edges(query@, chars as int, inp, 0, false),
    {
        LevenshteinNextStates {
            chars,
            query: share_query(query),
            inp,
            state: NextStatesState::Match,
            extra_weight: 0,
            deleted: false,
        }
    }

    /// How far the current round at `chars` has still to go, as a number
    /// that falls with every step inside a round.
    spec fn stage(&self) -> int {
        match self.state {
            NextStatesState::Match => 3,
            NextStatesState::Substitute => 2,
            NextStatesState::Insert => 1,
            NextStatesState::Delete => 0,
        }
    }
}

impl EdgeIter for LevenshteinNextStates {
    type State = usize;

    closed spec fn remaining(&self) -> Seq<(usize, u64)> {
        let q = self.query@;
        let cur = self.chars as int;
        let extra = self.extra_weight as int;
        match self.state {
            NextStatesState::Match => levenshtein_edges(q, cur, self.inp, extra, self.deleted),
            NextStatesState::Substitute => substitute_edge(q, cur, extra) + insert_edge(
                cur,
                extra,
                self.deleted,
            ) + edges_after_delete(q, cur, self.inp, extra),
            NextStatesState::Insert => insert_edge(cur, extra, self.deleted) + edges_after_delete(
                q,
                cur,
                self.inp,
                extra,
            ),
            NextStatesState::Delete => edges_after_delete(q, cur, self.inp, extra),
        }
    }

    fn next_edge(&mut self) -> (r: Option<(usize, u64)>) {
        proof {
            use_type_invariant(&*self);
        }
        loop
            invariant
                self.well_formed(),
                self.remaining() == old(self).remaining(),
            decreases
                    (if self.chars < self.query@.len() {
                        self.query@.len() - self.chars
                    } else {
                        0
                    }),
                    self.stage(),
        {
            match self.state {
                NextStatesState::Match => {
                    self.state = NextStatesState::Substitute;
                    if self.chars < self.query.len() && self.query[self.chars] == self.inp {
                        return Some((self.chars + 1, self.extra_weight));
                    }
                },
                NextStatesState::Substitute => {
                    self.state = NextStatesState::Insert;
                    if self.chars < self.query.len() {
                        return Some((self.chars + 1, 1 + self.extra_weight));
                    }
                },
                NextStatesState::Insert => {
                    self.state = NextStatesState::Delete;
                    if !self.deleted {
                        return Some((self.chars, 1 + self.extra_weight));
                    }
                },
                NextStatesState::Delete => {
                    if self.query.len() <= 1 || self.chars >= self.query.len() - 1 {
                        return None;
                    }
                    self.deleted = true;
                    self.chars += 1;
                    self.extra_weight += 1;
                    self.state = NextStatesState::Match;
                },
            }
        }
    }
}

impl WeightedNFA for WeightedLevenshteinNFA {
    type State = usize;

    type NextStateIter = LevenshteinNextStates;

    type InputType = char;

    open spec fn spec_start(&self) -> usize {
        0
    }

    open spec fn spec_is_match(&self, state: usize) -> bool {
        state == self.query().len()
    }

    open spec fn spec_can_match(&self, state: usize) -> bool {
        true
    }

    open spec fn spec_will_always_match(&self, state: usize) -> bool {
        false
    }

    open spec fn spec_accept(&self, state: usize, inp: char) -> Seq<(usize, u64)> {
        levenshtein_edges(self.query(), state as int, inp, 0, false)
    }

    proof fn lemma_match_can_match(&self, state: usize) {
    }

    proof fn lemma_dead_stays_dead(&self, state: usize, inp: char, i: int) {
    }

    fn start(&self) -> (s: usize) {
        0
    }

    fn is_match(&self, state: &usize) -> (b: bool) {
        *state == self.query.len()
    }

    fn can_match(&self, _state: &usize) -> (b: bool) {
        true
    }

    fn will_always_match(&self, _state: &usize) -> (b: bool) {
        false
    }

    fn accept(&self, state: &usize, inp: char) -> (edges: LevenshteinNextStates) {
        LevenshteinNextStates::new(*state, &self.query, inp)
    }

    fn same_state(&self, a: &usize, b: &usize) -> (eq: bool) {
        *a == *b
    }

    fn clone_state(&self, state: &usize) -> (copy: usize) {
        *state
    }
}

/// The matcher by edit distance: a beam search over the characters of the
/// keys, read as UTF-8, ready to drive a traversal.
pub type LevenshteinStack = AutomatonDFAAdapter<
    DFAUtf8Adapter<BeamSearchAdapter<WeightedLevenshteinNFA>>,
>;

pub fn mk_levenshtein(query: &str, threshold: u64, beam_size: usize) -> (stack: LevenshteinStack)
    ensures
        stack_automaton(&stack).query() == query@,
        ((stack.0).0).threshold == threshold,
        ((stack.0).0).beam_size == beam_size,
{
    AutomatonDFAAdapter(
        DFAUtf8Adapter(
            BeamSearchAdapter { aut: WeightedLevenshteinNFA::new(query), threshold, beam_size },
        ),
    )
}

/// The edit distance automaton inside a matcher.
pub open spec fn stack_automaton(aut: &LevenshteinStack) -> &WeightedLevenshteinNFA {
    &((aut.0).0).aut
}

/// The least cost among the matching states that the matcher has reached
/// after the key `result`.
pub fn get_levenshtein_weights(aut: &LevenshteinStack, result: &[u8]) -> (weight: u64)
    requires
        any_is_match(stack_automaton(aut), run(aut, result@).0),
    ensures
        is_least_matching_weight(stack_automaton(aut), run(aut, result@).0, weight),
{
    let state = replay(aut, result);
    least_matching_weight(&((aut.0).0).aut, &state.0).unwrap()
}

/// The edges from a query position are sorted by cost, and none costs
/// less than the deletions already paid for.
pub proof fn lemma_levenshtein_edges_sorted(
    query: Seq<char>,
    cur: int,
    inp: char,
    extra: int,
    deleted: bool,
)
    requires
        0 <= cur,
        0 <= extra < u64::MAX,
        cur < query.len() ==> extra + query.len() - cur <= u64::MAX,
    ensures
        edges_sorted(levenshtein_edges(query, cur, inp, extra, deleted)),
        forall|a: int|
            0 <= a < levenshtein_edges(query, cur, inp, extra, deleted).len() ==> extra <= (
            #[trigger] levenshtein_edges(query, cur, inp, extra, deleted)[a]).1,
    decreases query.len() - cur,
{
    let head = match_edge(query, cur, inp, extra) + substitute_edge(query, cur, extra)
        + insert_edge(cur, extra, deleted);
    let rest = edges_after_delete(query, cur, inp, extra);
    let all = levenshtein_edges(query, cur, inp, extra, deleted);
    assert(edges_sorted(head) && forall|a: int|
        0 <= a < head.len() ==> extra <= (#[trigger] head[a]).1 <= extra + 1);
    if cur + 1 < query.len() {
        lemma_levenshtein_edges_sorted(query, cur + 1, inp, extra + 1, true);
    }
    assert(all == head + rest);
}

/// Cost monotonicity for edit distance: the keys that a beam step over
/// the edit distance automaton takes off its agenda never fall.
pub proof fn lemma_levenshtein_costs_rise(
    adapter: &BeamSearchAdapter<WeightedLevenshteinNFA>,
    frontier: Seq<(usize, u64)>,
    inp: char,
)
    ensures
        ({
            let keys = popped_keys(
                &adapter.aut,
                &NoExpand,
                initial_agenda(&adapter.aut, frontier, inp),
                Seq::empty(),
                adapter.threshold,
                adapter.beam_size,
            );
            forall|a: int, b: int|
                0 <= a < b < keys.len() ==> !key_less(#[trigger] keys[b], #[trigger] keys[a])
        }),
{
    let nfa = &adapter.aut;
    let agenda = initial_agenda(nfa, frontier, inp);
    assert forall|k: int| 0 <= k < agenda.len() implies edges_sorted(
        (#[trigger] agenda[k]).edges,
    ) by {
        nfa.lemma_query_len();
        lemma_levenshtein_edges_sorted(nfa.query(), frontier[k].0 as int, inp, 0, false);
    }
    lemma_popped_keys_rise(
        nfa,
        &NoExpand,
        agenda,
        Seq::empty(),
        adapter.threshold,
        adapter.beam_size,
    );
}

/// Completeness for edit distance: the frontier after a character
/// accounts for every edge on that character from an entry of the frontier
/// before whose accumulated cost is within the threshold. It holds the
/// position the edge leads to at that cost at most, or the beam is full
/// and none of its entries costs more than the edge.
pub proof fn lemma_levenshtein_keeps_cheapest(
    adapter: &BeamSearchAdapter<WeightedLevenshteinNFA>,
    frontier: Seq<(usize, u64)>,
    inp: char,
)
    ensures
        agenda_accounted(
            initial_agenda(&adapter.aut, frontier, inp),
            adapter.spec_accept(frontier, inp),
            adapter.threshold,
            adapter.beam_size,
        ),
{
    let nfa = &adapter.aut;
    nfa.lemma_query_len();
    assert(accept_sorted(nfa, frontier, inp)) by {
        assert forall|i: int| 0 <= i < frontier.len() implies edges_sorted(
            nfa.spec_accept((#[trigger] frontier[i]).0, inp),
        ) by {
            lemma_levenshtein_edges_sorted(nfa.query(), frontier[i].0 as int, inp, 0, false);
        }
    }
    lemma_accept_keeps_cheapest(adapter, frontier, inp);
}

} // verus!
