//! A weighted transducer over multi-byte symbols, read one byte at a time.
//!
//! A state of the automaton is a state of the transducer together with the
//! bytes read since the last symbol. While those bytes are no symbol of the
//! current state, the automaton stays there at no cost and gathers bytes,
//! four at most.
use crate::adapters::{
    is_least_matching_weight, least_matching_weight, replay, run, AutomatonDFAAdapter,
    BeamSearchAdapter, EdgeIter, EpsilonExpandingBeamSearchAdapter, FollowEpsilonNFA, WeightedNFA,
    DFA,
};
use vstd::prelude::*;
use vstd::string::StringSliceAdditionalSpecFns;

verus! {

/// A transition target and the cost of the transition.
#[derive(Copy, Clone)]
pub struct NextStates {
    pub state: u32,
    pub weight: u64,
}

/// One transition of a transducer: the bytes of its input symbol, its
/// target state and its cost.
pub struct BasicTransition {
    pub symbol: Vec<u8>,
    pub target: u32,
    pub weight: u64,
}

/// A transducer held as plain tables: for every state its transitions in
/// order, and whether it is final.
pub struct HfstBasicTransducerBox {
    pub transitions: Vec<Vec<BasicTransition>>,
    pub finals: Vec<bool>,
}

/// The targets of the transitions among `transitions` whose symbol is
/// `symbol`, in order.
pub open spec fn matching(transitions: Seq<BasicTransition>, symbol: Seq<u8>) -> Seq<NextStates>
    decreases transitions.len(),
{
    if transitions.len() == 0 {
        seq![]
    } else {
        let last = transitions.last();
        matching(transitions.drop_last(), symbol) + (if last.symbol@ == symbol {
            seq![NextStates { state: last.target, weight: last.weight }]
        } else {
            seq![]
        })
    }
}

/// The edges that lead to the given targets, each with no bytes gathered.
pub open spec fn edges_to(targets: Seq<NextStates>) -> Seq<((u64, Seq<u8>), u64)> {
    Seq::new(
        targets.len(),
        |i: int| ((targets[i].state as u64, Seq::<u8>::empty()), targets[i].weight),
    )
}

/// The symbol of the transitions that read no input.
pub open spec fn epsilon_symbol() -> Seq<u8> {
    "@_EPSILON_SYMBOL_@".spec_bytes()
}

/// The edges of a transducer automaton, handed out one by one.
pub struct TransducerEdges {
    /// What is left, last edge first.
    pending: Vec<((u64, Vec<u8>), u64)>,
}

impl TransducerEdges {
    /// A sequence of the given edges.
    pub fn new(edges: Vec<((u64, Vec<u8>), u64)>) -> (it: TransducerEdges)
        ensures
            it.remaining() == edges.deep_view(),
    {
        let mut edges = edges;
        let ghost all = edges.deep_view();
        let mut pending: Vec<((u64, Vec<u8>), u64)> = Vec::new();
        while edges.len() > 0
            invariant
                pending@.len() + edges@.len() == all.len(),
                edges.deep_view() == all.take(edges@.len() as int),
                forall|i: int|
                    0 <= i < pending@.len() ==> (#[trigger] pending@[i]).deep_view()
                        == all[all.len() - 1 - i],
            decreases edges@.len(),
        {
            let ghost before = edges.deep_view();
            let edge = edges.pop().unwrap();
            pending.push(edge);
            proof {
                assert(edge.deep_view() == before[before.len() - 1]);
                assert(edges.deep_view() =~= all.take(edges@.len() as int));
            }
        }
        let it = TransducerEdges { pending };
        assert(it.remaining() =~= all);
        it
    }
}

impl EdgeIter for TransducerEdges {
    type State = (u64, Vec<u8>);

    closed spec fn remaining(&self) -> Seq<((u64, Seq<u8>), u64)> {
        Seq::new(
            self.pending@.len(),
            |i: int| self.pending@[self.pending@.len() - 1 - i].deep_view(),
        )
    }

    fn next_edge(&mut self) -> (r: Option<((u64, Vec<u8>), u64)>) {
        let ghost before = self.remaining();
        let r = self.pending.pop();
        proof {
            if r is Some {
                assert(self.remaining() =~= before.skip(1));
            }
        }
        r
    }
}

/// Whether two byte strings hold the same bytes.
pub fn same_bytes(a: &Vec<u8>, b: &Vec<u8>) -> (eq: bool)
    ensures
        eq == (a@ == b@),
{
    if a.len() != b.len() {
        return false;
    }
    let mut i: usize = 0;
    while i < a.len()
        invariant
            i <= a.len(),
            a@.len() == b@.len(),
            a@.take(i as int) == b@.take(i as int),
        decreases a.len() - i,
    {
        if a[i] != b[i] {
            return false;
        }
        assert(a@.take(i + 1) =~= a@.take(i as int).push(a@[i as int]));
        assert(b@.take(i + 1) =~= b@.take(i as int).push(b@[i as int]));
        i += 1;
    }
    assert(a@.take(i as int) == a@);
    assert(b@.take(i as int) == b@);
    true
}

impl HfstBasicTransducerBox {
    /// The transitions of state `stateno`; none for a state that the
    /// transducer does not have.
    pub open spec fn arcs(&self, stateno: u64) -> Seq<BasicTransition> {
        if stateno < self.transitions@.len() {
            self.transitions@[stateno as int]@
        } else {
            seq![]
        }
    }

    /// Whether state `stateno` is final.
    pub open spec fn is_final_state(&self, stateno: u64) -> bool {
        stateno < self.finals@.len() && self.finals@[stateno as int]
    }

    /// The targets of the transitions of `stateno` on the symbol `inp`,
    /// and `inp` again.
    pub fn step(&self, stateno: u64, inp: Vec<u8>) -> (r: (Vec<NextStates>, Vec<u8>))
        ensures
            r.0@ == matching(self.arcs(stateno), inp@),
            r.1@ == inp@,
    {
        let mut next_states: Vec<NextStates> = Vec::new();
        if stateno < self.transitions.len() as u64 {
            let arcs = &self.transitions[stateno as usize];
            let mut i: usize = 0;
            while i < arcs.len()
                invariant
                    i <= arcs.len(),
                    arcs@ == self.arcs(stateno),
                    next_states@ == matching(arcs@.take(i as int), inp@),
                decreases arcs.len() - i,
            {
                proof {
                    assert(arcs@.take(i + 1).drop_last() == arcs@.take(i as int));
                }
                if same_bytes(&arcs[i].symbol, &inp) {
                    next_states.push(NextStates { state: arcs[i].target, weight: arcs[i].weight });
                }
                i += 1;
            }
            assert(arcs@.take(i as int) == arcs@);
        }
        (next_states, inp)
    }

    /// The edges to the given targets, as a sequence to hand out.
    pub fn get_next_state_iter(&self, next_states: Vec<NextStates>) -> (it: TransducerEdges)
        ensures
            it.remaining() == edges_to(next_states@),
    {
        let mut edges: Vec<((u64, Vec<u8>), u64)> = Vec::new();
        let mut i: usize = 0;
        while i < next_states.len()
            invariant
                i <= next_states.len(),
                edges.deep_view() == edges_to(next_states@.take(i as int)),
            decreases next_states.len() - i,
        {
            let ghost before = edges.deep_view();
            let edge = ((next_states[i].state as u64, Vec::new()), next_states[i].weight);
            edges.push(edge);
            proof {
                let target = next_states@[i as int];
                assert(edge.deep_view() == (
                    (target.state as u64, Seq::<u8>::empty()),
                    target.weight,
                )) by {
                    assert(edge.0.1.deep_view() =~= Seq::<u8>::empty());
                }
                assert(edges.deep_view() =~= before.push(edge.deep_view()));
                assert(edges.deep_view() =~= edges_to(next_states@.take(i + 1)));
            }
            i += 1;
        }
        assert(next_states@.take(i as int) == next_states@);
        TransducerEdges::new(edges)
    }
}

impl WeightedNFA for HfstBasicTransducerBox {
    type State = (u64, Vec<u8>);

    type NextStateIter = TransducerEdges;

    type InputType = u8;

    open spec fn spec_start(&self) -> (u64, Seq<u8>) {
        (0, Seq::empty())
    }

    open spec fn spec_is_match(&self, state: (u64, Seq<u8>)) -> bool {
        state.1.len() == 0 && self.is_final_state(state.0)
    }

    open spec fn spec_can_match(&self, state: (u64, Seq<u8>)) -> bool {
        true
    }

    open spec fn spec_will_always_match(&self, state: (u64, Seq<u8>)) -> bool {
        false
    }

    open spec fn spec_accept(&self, state: (u64, Seq<u8>), byte: u8) -> Seq<
        ((u64, Seq<u8>), u64),
    > {
        let new_buf = state.1.push(byte);
        let targets = matching(self.arcs(state.0), new_buf);
        if targets.len() == 0 {
            if new_buf.len() >= 4 {
                seq![]
            } else {
                seq![((state.0, new_buf), 0u64)]
            }
        } else {
            edges_to(targets)
        }
    }

    proof fn lemma_match_can_match(&self, state: (u64, Seq<u8>)) {
    }

    proof fn lemma_dead_stays_dead(&self, state: (u64, Seq<u8>), inp: u8, i: int) {
    }

    fn start(&self) -> (s: (u64, Vec<u8>)) {
        let buf: Vec<u8> = Vec::new();
        assert(buf.deep_view() =~= Seq::empty());
        (0, buf)
    }

    fn is_match(&self, state: &(u64, Vec<u8>)) -> (b: bool) {
        assert(state.1.deep_view() =~= state.1@);
        if state.1.len() != 0 {
            return false;
        }
        state.0 < self.finals.len() as u64 && self.finals[state.0 as usize]
    }

    fn can_match(&self, _state: &(u64, Vec<u8>)) -> (b: bool) {
        true
    }

    fn will_always_match(&self, _state: &(u64, Vec<u8>)) -> (b: bool) {
        false
    }

    fn accept(&self, state: &(u64, Vec<u8>), byte: u8) -> (edges: TransducerEdges) {
        assert(state.1.deep_view() =~= state.1@);
        let stateno = state.0;
        let new_buf = crate::adapters::pushed(&state.1, byte);
        let (next_states, new_buf) = self.step(stateno, new_buf);
        if next_states.len() == 0 {
            let mut edges: Vec<((u64, Vec<u8>), u64)> = Vec::new();
            if new_buf.len() < 4 {
                let ghost bytes = new_buf@;
                edges.push(((stateno, new_buf), 0));
                assert(edges.deep_view() =~= seq![((stateno, bytes), 0u64)]) by {
                    assert(edges@[0].0.1.deep_view() =~= bytes);
                }
            } else {
                assert(edges.deep_view() =~= Seq::empty());
            }
            TransducerEdges::new(edges)
        } else {
            self.get_next_state_iter(next_states)
        }
    }

    fn same_state(&self, a: &(u64, Vec<u8>), b: &(u64, Vec<u8>)) -> (eq: bool) {
        assert(a.1.deep_view() =~= a.1@);
        assert(b.1.deep_view() =~= b.1@);
        a.0 == b.0 && same_bytes(&a.1, &b.1)
    }

    fn clone_state(&self, state: &(u64, Vec<u8>)) -> (copy: (u64, Vec<u8>)) {
        let mut buf = crate::adapters::pushed(&state.1, 0);
        buf.pop();
        assert(buf@ =~= state.1@);
        assert(state.1.deep_view() =~= state.1@);
        assert(buf.deep_view() =~= buf@);
        (state.0, buf)
    }
}

impl FollowEpsilonNFA for HfstBasicTransducerBox {
    open spec fn spec_follow_epsilon(&self, state: (u64, Seq<u8>)) -> Seq<((u64, Seq<u8>), u64)> {
        if state.1.len() != 0 {
            seq![]
        } else {
            edges_to(matching(self.arcs(state.0), epsilon_symbol()))
        }
    }

    proof fn lemma_epsilon_dead_stays_dead(&self, state: (u64, Seq<u8>), i: int) {
    }

    fn follow_epsilon(&self, state: &(u64, Vec<u8>)) -> (edges: TransducerEdges) {
        assert(state.1.deep_view() =~= state.1@);
        if state.1.len() != 0 {
            let edges: Vec<((u64, Vec<u8>), u64)> = Vec::new();
            assert(edges.deep_view() =~= Seq::empty());
            return TransducerEdges::new(edges);
        }
        let epsilon = vstd::slice::slice_to_vec("@_EPSILON_SYMBOL_@".as_bytes());
        let (next_states, _buf) = self.step(state.0, epsilon);
        self.get_next_state_iter(next_states)
    }
}

/// The matcher over a transducer: a beam search that follows epsilon
/// transitions, ready to drive a traversal.
pub type AutStack = AutomatonDFAAdapter<EpsilonExpandingBeamSearchAdapter<HfstBasicTransducerBox>>;

pub fn mk_stack(aut: HfstBasicTransducerBox, threshold: u64, beam_size: usize) -> (stack: AutStack)
    ensures
        stack == AutomatonDFAAdapter(
            EpsilonExpandingBeamSearchAdapter(BeamSearchAdapter { aut, threshold, beam_size }),
        ),
{
    AutomatonDFAAdapter(
        EpsilonExpandingBeamSearchAdapter(BeamSearchAdapter { aut, threshold, beam_size }),
    )
}

/// The transducer inside a matcher.
pub open spec fn stack_transducer(aut: &AutStack) -> &HfstBasicTransducerBox {
    &((aut.0).0).aut
}

/// The least cost at which the matcher accepts the key `result`.
pub fn get_weights(aut: &AutStack, result: &[u8]) -> (weight: u64)
    requires
        aut.spec_is_match(run(aut, result@)),
    ensures
        is_least_matching_weight(stack_transducer(aut), run(aut, result@), weight),
{
    let state = replay(aut, result);
    least_matching_weight(&((aut.0).0).aut, &state).unwrap()
}

} // verus!
