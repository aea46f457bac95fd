//! Edit distance within a fixed bound, as a byte automaton that keeps every
//! reachable position of the query with the distance spent to reach it.
use crate::adapters::DFA;
use crate::utf8::{decode_first, first_char};
use vstd::prelude::*;

verus! {

/// A position in the query and the distance spent to reach it.
#[derive(Debug, Clone, Copy)]
pub struct SimpleLevenshteinState {
    pub chars: usize,
    pub distance: u64,
}

/// The states reached from `state` by reading `chr`: by inserting `chr`,
/// by matching it against the query, by deleting query characters before
/// it, and by substituting it, as far as the distance stays within
/// `threshold`.
pub open spec fn next_states(
    state: SimpleLevenshteinState,
    query: Seq<char>,
    chr: char,
    threshold: u64,
) -> Seq<SimpleLevenshteinState>
    decreases query.len() - state.chars,
{
    let have_extra_dist = state.distance < threshold;
    let inserted = if have_extra_dist {
        seq![SimpleLevenshteinState { chars: state.chars, distance: (state.distance + 1) as u64 }]
    } else {
        seq![]
    };
    if state.chars < query.len() <= usize::MAX {
        let matched = if query[state.chars as int] == chr {
            seq![
                SimpleLevenshteinState {
                    chars: (state.chars + 1) as usize,
                    distance: state.distance,
                },
            ]
        } else {
            seq![]
        };
        if have_extra_dist {
            let forward = SimpleLevenshteinState {
                chars: (state.chars + 1) as usize,
                distance: (state.distance + 1) as u64,
            };
            inserted + matched + next_states(forward, query, chr, threshold) + seq![forward]
        } else {
            inserted + matched
        }
    } else {
        inserted
    }
}

/// No state reached from `state` has a distance below that of `state`.
pub proof fn lemma_next_states_distance(
    state: SimpleLevenshteinState,
    query: Seq<char>,
    chr: char,
    threshold: u64,
    i: int,
)
    requires
        0 <= i < next_states(state, query, chr, threshold).len(),
    ensures
        next_states(state, query, chr, threshold)[i].distance >= state.distance,
        state.distance <= threshold ==> next_states(state, query, chr, threshold)[i].distance
            <= threshold,
    decreases query.len() - state.chars,
{
    if state.chars < query.len() <= usize::MAX && state.distance < threshold {
        let forward = SimpleLevenshteinState {
            chars: (state.chars + 1) as usize,
            distance: (state.distance + 1) as u64,
        };
        let inserted = seq![
            SimpleLevenshteinState { chars: state.chars, distance: (state.distance + 1) as u64 },
        ];
        let matched = if query[state.chars as int] == chr {
            seq![
                SimpleLevenshteinState {
                    chars: (state.chars + 1) as usize,
                    distance: state.distance,
                },
            ]
        } else {
            seq![]
        };
        let deeper = next_states(forward, query, chr, threshold);
        let head = inserted + matched;
        if head.len() <= i < head.len() + deeper.len() {
            lemma_next_states_distance(forward, query, chr, threshold, i - head.len());
        }
    }
}

pub fn get_next_states(
    state: &SimpleLevenshteinState,
    query: &[char],
    chr: char,
    threshold: u64,
) -> (new_states: Vec<SimpleLevenshteinState>)
    ensures
        new_states@ == next_states(*state, query@, chr, threshold),
    decreases query@.len() - state.chars,
{
    let mut new_states: Vec<SimpleLevenshteinState> = Vec::new();
    let have_extra_dist = state.distance < threshold;
    if have_extra_dist {
        new_states.push(
            SimpleLevenshteinState { chars: state.chars, distance: state.distance + 1 },
        );
    }
    if state.chars < query.len() {
        if query[state.chars] == chr {
            new_states.push(
                SimpleLevenshteinState { chars: state.chars + 1, distance: state.distance },
            );
        }
        if have_extra_dist {
            let forward_query_mod_state = SimpleLevenshteinState {
                chars: state.chars + 1,
                distance: state.distance + 1,
            };
            let deeper = get_next_states(&forward_query_mod_state, query, chr, threshold);
            let ghost head = new_states@;
            let mut i: usize = 0;
            while i < deeper.len()
                invariant
                    i <= deeper.len(),
                    new_states@ == head + deeper@.take(i as int),
                decreases deeper.len() - i,
            {
                new_states.push(deeper[i]);
                assert(new_states@ =~= head + deeper@.take(i + 1));
                i += 1;
            }
            assert(deeper@.take(i as int) == deeper@);
            new_states.push(forward_query_mod_state);
        }
    }
    assert(new_states@ =~= next_states(*state, query@, chr, threshold));
    new_states
}

impl SimpleLevenshteinState {
    pub open spec fn spec_is_match(self, query: Seq<char>, threshold: u64) -> bool {
        self.chars == query.len() && self.distance <= threshold
    }

    pub open spec fn spec_can_match(self, threshold: u64) -> bool {
        self.distance <= threshold
    }

    pub fn is_match(&self, query: &[char], threshold: u64) -> (b: bool)
        ensures
            b == self.spec_is_match(query@, threshold),
    {
        (self.chars == query.len()) && (self.distance <= threshold)
    }

    pub fn can_match(&self, _query: &[char], threshold: u64) -> (b: bool)
        ensures
            b == self.spec_can_match(threshold),
    {
        self.distance <= threshold
    }

    pub fn accept(&self, query: &[char], chr: char, threshold: u64) -> (new_states: Vec<
        SimpleLevenshteinState,
    >)
        ensures
            new_states@ == next_states(*self, query@, chr, threshold),
    {
        get_next_states(self, query, chr, threshold)
    }
}

/// The positions reached so far, and the bytes of a character that is not
/// complete yet.
#[derive(Debug)]
pub struct CompoundLevenshteinState {
    pub states: Vec<SimpleLevenshteinState>,
    pub buffer: Vec<u8>,
}

impl DeepView for CompoundLevenshteinState {
    type V = (Seq<SimpleLevenshteinState>, Seq<u8>);

    open spec fn deep_view(&self) -> (Seq<SimpleLevenshteinState>, Seq<u8>) {
        (self.states@, self.buffer@)
    }
}

#[derive(Debug)]
pub struct SimpleLevenshtein {
    query: Vec<char>,
    threshold: u64,
}

/// The states reached from any of `states` by reading `chr`, in order.
pub open spec fn all_next_states(
    states: Seq<SimpleLevenshteinState>,
    query: Seq<char>,
    chr: char,
    threshold: u64,
) -> Seq<SimpleLevenshteinState>
    decreases states.len(),
{
    if states.len() == 0 {
        seq![]
    } else {
        all_next_states(states.drop_last(), query, chr, threshold) + next_states(
            states.last(),
            query,
            chr,
            threshold,
        )
    }
}

/// Some state of `states` is at the end of the query within the threshold.
pub open spec fn any_state_matches(
    states: Seq<SimpleLevenshteinState>,
    query: Seq<char>,
    threshold: u64,
) -> bool {
    exists|i: int| 0 <= i < states.len() && (#[trigger] states[i]).spec_is_match(query, threshold)
}

/// Some state of `states` is within the threshold.
pub open spec fn any_state_can_match(states: Seq<SimpleLevenshteinState>, threshold: u64) -> bool {
    exists|i: int| 0 <= i < states.len() && (#[trigger] states[i]).spec_can_match(threshold)
}

/// From states none of which is within the threshold, reading a character
/// reaches no state within the threshold.
pub proof fn lemma_all_next_states_dead(
    states: Seq<SimpleLevenshteinState>,
    query: Seq<char>,
    chr: char,
    threshold: u64,
)
    requires
        !any_state_can_match(states, threshold),
    ensures
        !any_state_can_match(all_next_states(states, query, chr, threshold), threshold),
    decreases states.len(),
{
    if states.len() > 0 {
        let front = states.drop_last();
        assert forall|i: int| 0 <= i < front.len() implies !(#[trigger] front[i]).spec_can_match(
            threshold,
        ) by {
            assert(front[i] == states[i]);
        }
        lemma_all_next_states_dead(front, query, chr, threshold);
        let head = all_next_states(front, query, chr, threshold);
        let tail = next_states(states.last(), query, chr, threshold);
        let all = all_next_states(states, query, chr, threshold);
        assert(!states[states.len() - 1].spec_can_match(threshold));
        assert forall|i: int| 0 <= i < all.len() implies !(#[trigger] all[i]).spec_can_match(
            threshold,
        ) by {
            if i < head.len() {
                assert(all[i] == head[i]);
            } else {
                lemma_next_states_distance(states.last(), query, chr, threshold, i - head.len());
                assert(all[i] == tail[i - head.len()]);
            }
        }
    }
}

impl SimpleLevenshtein {
    /// The characters of the query.
    pub closed spec fn query(&self) -> Seq<char> {
        self.query@
    }

    /// The greatest distance at which a key still matches.
    pub closed spec fn threshold(&self) -> u64 {
        self.threshold
    }

    pub fn new(query: &str, threshold: u64) -> (aut: SimpleLevenshtein)
        ensures
            aut.query() == query@,
            aut.threshold() == threshold,
    {
        let mut query_vec: Vec<char> = Vec::new();
        for c in it: query.chars()
            invariant
                it.seq() == query@,
                query_vec@ == query@.take(it.index() as int),
        {
            query_vec.push(c);
            assert(query@.take(it.index() + 1).drop_last() == query@.take(it.index()));
        }
        assert(query@.take(query@.len() as int) == query@);
        SimpleLevenshtein { query: query_vec, threshold }
    }
}

impl DFA for SimpleLevenshtein {
    type State = CompoundLevenshteinState;

    type InputType = u8;

    open spec fn spec_start(&self) -> (Seq<SimpleLevenshteinState>, Seq<u8>) {
        (seq![SimpleLevenshteinState { chars: 0, distance: 0 }], Seq::empty())
    }

    open spec fn spec_is_match(&self, state: (Seq<SimpleLevenshteinState>, Seq<u8>)) -> bool {
        state.1.len() == 0 && any_state_matches(state.0, self.query(), self.threshold())
    }

    open spec fn spec_can_match(&self, state: (Seq<SimpleLevenshteinState>, Seq<u8>)) -> bool {
        any_state_can_match(state.0, self.threshold())
    }

    open spec fn spec_will_always_match(
        &self,
        state: (Seq<SimpleLevenshteinState>, Seq<u8>),
    ) -> bool {
        false
    }

    open spec fn spec_accept(&self, state: (Seq<SimpleLevenshteinState>, Seq<u8>), inp: u8) -> (
        Seq<SimpleLevenshteinState>,
        Seq<u8>,
    ) {
        match first_char(state.1.push(inp)) {
            Some(chr) => (
                all_next_states(state.0, self.query(), chr, self.threshold()),
                Seq::empty(),
            ),
            None => (state.0, state.1.push(inp)),
        }
    }

    proof fn lemma_match_can_match(&self, state: (Seq<SimpleLevenshteinState>, Seq<u8>)) {
        if self.spec_is_match(state) {
            let i = choose|i: int|
                0 <= i < state.0.len() && (#[trigger] state.0[i]).spec_is_match(
                    self.query(),
                    self.threshold(),
                );
            assert(state.0[i].spec_can_match(self.threshold()));
        }
    }

    proof fn lemma_dead_stays_dead(&self, state: (Seq<SimpleLevenshteinState>, Seq<u8>), inp: u8) {
        match first_char(state.1.push(inp)) {
            Some(chr) => {
                if !any_state_can_match(state.0, self.threshold()) {
                    lemma_all_next_states_dead(state.0, self.query(), chr, self.threshold());
                }
            },
            None => {},
        }
    }

    fn start(&self) -> (s: CompoundLevenshteinState) {
        let mut states: Vec<SimpleLevenshteinState> = Vec::new();
        states.push(SimpleLevenshteinState { chars: 0, distance: 0 });
        let s = CompoundLevenshteinState { states, buffer: Vec::new() };
        assert(s.deep_view().0 =~= seq![SimpleLevenshteinState { chars: 0, distance: 0 }]);
        assert(s.deep_view().1 =~= Seq::empty());
        s
    }

    fn is_match(&self, state: &CompoundLevenshteinState) -> (b: bool) {
        if state.buffer.len() != 0 {
            return false;
        }
        let mut i: usize = 0;
        while i < state.states.len()
            invariant
                i <= state.states.len(),
                state.buffer@.len() == 0,
                forall|j: int|
                    0 <= j < i ==> !(#[trigger] state.states@[j]).spec_is_match(
                        self.query(),
                        self.threshold(),
                    ),
            decreases state.states.len() - i,
        {
            if state.states[i].is_match(self.query.as_slice(), self.threshold) {
                assert(state.states@[i as int].spec_is_match(self.query(), self.threshold()));
                return true;
            }
            i += 1;
        }
        false
    }

    fn can_match(&self, state: &CompoundLevenshteinState) -> (b: bool) {
        let mut i: usize = 0;
        while i < state.states.len()
            invariant
                i <= state.states.len(),
                forall|j: int|
                    0 <= j < i ==> !(#[trigger] state.states@[j]).spec_can_match(self.threshold()),
            decreases state.states.len() - i,
        {
            if state.states[i].can_match(self.query.as_slice(), self.threshold) {
                assert(state.states@[i as int].spec_can_match(self.threshold()));
                return true;
            }
            i += 1;
        }
        false
    }

    fn will_always_match(&self, _state: &CompoundLevenshteinState) -> (b: bool) {
        false
    }

    fn accept(&self, state: &CompoundLevenshteinState, byte: u8) -> (next:
        CompoundLevenshteinState) {
        let buffer = crate::adapters::pushed(&state.buffer, byte);
        match decode_first(buffer.as_slice()) {
            Some(chr) => {
                let mut states: Vec<SimpleLevenshteinState> = Vec::new();
                let mut i: usize = 0;
                while i < state.states.len()
                    invariant
                        i <= state.states.len(),
                        states@ == all_next_states(
                            state.states@.take(i as int),
                            self.query(),
                            chr,
                            self.threshold(),
                        ),
                    decreases state.states.len() - i,
                {
                    let mut reached = state.states[i].accept(
                        self.query.as_slice(),
                        chr,
                        self.threshold,
                    );
                    proof {
                        assert(state.states@.take(i + 1).drop_last() == state.states@.take(
                            i as int,
                        ));
                    }
                    states.append(&mut reached);
                    i += 1;
                }
                assert(state.states@.take(i as int) == state.states@);
                CompoundLevenshteinState { states, buffer: Vec::new() }
            },
            None => {
                let copy = self.clone_state(state);
                CompoundLevenshteinState { states: copy.states, buffer }
            },
        }
    }

    fn clone_state(&self, state: &CompoundLevenshteinState) -> (copy: CompoundLevenshteinState) {
        let mut states: Vec<SimpleLevenshteinState> = Vec::new();
        let mut i: usize = 0;
        while i < state.states.len()
            invariant
                i <= state.states.len(),
                states@ == state.states@.take(i as int),
            decreases state.states.len() - i,
        {
            states.push(state.states[i]);
            assert(states@ =~= state.states@.take(i + 1));
            i += 1;
        }
        assert(state.states@.take(i as int) == state.states@);
        let mut buffer = crate::adapters::pushed(&state.buffer, 0);
        buffer.pop();
        assert(buffer@ =~= state.buffer@);
        CompoundLevenshteinState { states, buffer }
    }
}

} // verus!
