//! A depth-first walk of a transducer in step with a byte automaton.
//!
//! The transducer is read through its nodes: each node has an address, may
//! be final, and has transitions in the order of their input bytes. The
//! walk yields the keys of the transducer that the automaton matches, with
//! their outputs and the automaton states they lead to, in the order of the
//! transitions, and leaves out every subtree below a state that cannot match.
use crate::adapters::{run, DFA};
use crate::ext::walk::{
    bytes_less, lemma_keys_rise, lemma_lex_le_ascend, lemma_lex_le_descend, lemma_lex_le_refl,
    lemma_lex_le_split, lemma_lex_le_trans, lemma_walk_indices, lemma_walk_node, lemma_walk_take,
    lex_le, node_work, walk_key, walk_node, walk_output, walk_valid, well_formed, yields, Graph,
};
use fst::raw::Fst;
use vstd::prelude::*;

verus! {

/// The transducer of the `fst` crate, over the bytes that hold it.
#[verifier::external_type_specification]
#[verifier::external_body]
#[verifier::reject_recursive_types(D)]
pub struct ExFst<D>(fst::raw::Fst<D>);

/// The nodes that a transducer holds, by address. A node is whether it is
/// final, its final output, and its transitions in order, each with its
/// input byte, its output and the address of the node it leads to.
pub uninterp spec fn fst_nodes(fst: &Fst<Vec<u8>>) -> Map<
    usize,
    (bool, u64, Seq<(u8, u64, usize)>),
>;

/// The address of the root node of a transducer.
pub uninterp spec fn fst_root(fst: &Fst<Vec<u8>>) -> usize;

/// The graph that a transducer holds.
pub open spec fn graph(fst: &Fst<Vec<u8>>) -> Graph {
    Graph { nodes: fst_nodes(fst), root: fst_root(fst) }
}

/// `Fst::root` and `Node::addr`: the address of the root node, where the
/// transducer holds a node there.
#[verifier::external_body]
fn root_addr(fst: &Fst<Vec<u8>>) -> (addr: usize)
    requires
        fst_nodes(fst).dom().contains(fst_root(fst)),
    ensures
        addr == fst_root(fst),
{
    fst.root().addr()
}

/// `Fst::node` and `Node::len`: the number of transitions of the node at
/// `addr`.
#[verifier::external_body]
fn node_len(fst: &Fst<Vec<u8>>, addr: usize) -> (len: usize)
    requires
        fst_nodes(fst).dom().contains(addr),
    ensures
        len == fst_nodes(fst)[addr].2.len(),
{
    fst.node(addr).len()
}

/// `Fst::node` and `Node::transition`: the transition at index `i` of the
/// node at `addr`, as its input byte, its output value and the address it
/// leads to.
#[verifier::external_body]
fn node_transition(fst: &Fst<Vec<u8>>, addr: usize, i: usize) -> (t: (u8, u64, usize))
    requires
        fst_nodes(fst).dom().contains(addr),
        i < fst_nodes(fst)[addr].2.len(),
    ensures
        t == fst_nodes(fst)[addr].2[i as int],
{
    let t = fst.node(addr).transition(i);
    (t.inp, t.out.value(), t.addr)
}

/// `Fst::node` and `Node::is_final`: whether the node at `addr` is final.
#[verifier::external_body]
fn node_is_final(fst: &Fst<Vec<u8>>, addr: usize) -> (b: bool)
    requires
        fst_nodes(fst).dom().contains(addr),
    ensures
        b == fst_nodes(fst)[addr].0,
{
    fst.node(addr).is_final()
}

/// `Fst::node` and `Node::final_output`: the final output of the node at
/// `addr`.
#[verifier::external_body]
fn node_final_output(fst: &Fst<Vec<u8>>, addr: usize) -> (out: u64)
    requires
        fst_nodes(fst).dom().contains(addr),
    ensures
        out == fst_nodes(fst)[addr].1,
{
    fst.node(addr).final_output().value()
}

/// One level of the walk: a node, the index of the transition to take
/// next from it, the output gathered on the way to it, and the state of the
/// automaton on reaching it.
struct StreamState<S> {
    addr: usize,
    trans: usize,
    out: u64,
    aut_state: S,
}

/// The steps that the frames of a stack can still take.
spec fn stack_work<S>(g: Graph, stack: Seq<StreamState<S>>) -> nat
    decreases stack.len(),
{
    if stack.len() == 0 {
        0
    } else {
        stack_work(g, stack.drop_last()) + node_work(
            g,
            stack.last().addr,
            stack.last().trans as int,
        )
    }
}

proof fn lemma_stack_work_push<S>(g: Graph, stack: Seq<StreamState<S>>, top: StreamState<S>)
    ensures
        stack_work(g, stack.push(top)) == stack_work(g, stack) + node_work(
            g,
            top.addr,
            top.trans as int,
        ),
{
    assert(stack.push(top).drop_last() == stack);
}

/// A walk through a transducer, driven by a byte automaton.
pub struct SimpleStateStream<'f, A: DFA<InputType = u8>> {
    fst: &'f Fst<Vec<u8>>,
    aut: A,
    inp: Vec<u8>,
    stack: Vec<StreamState<A::State>>,
}

impl<'f, A: DFA<InputType = u8>> SimpleStateStream<'f, A> {
    /// The graph of the transducer that the stream walks through.
    pub closed spec fn graph(&self) -> Graph {
        graph(self.fst)
    }

    /// The automaton that drives the stream.
    pub closed spec fn automaton(&self) -> &A {
        &self.aut
    }

    /// Whether the stream has nothing more to yield.
    pub closed spec fn exhausted(&self) -> bool {
        self.stack@.len() == 0
    }

    /// The walk from the root to the node the stream stands at.
    pub closed spec fn position(&self) -> Seq<int> {
        if self.stack@.len() == 0 {
            Seq::empty()
        } else {
            Seq::new((self.stack@.len() - 1) as nat, |j: int| self.stack@[j].trans - 1)
        }
    }

    /// The index of the transition that the stream takes next from the
    /// node it stands at.
    pub closed spec fn next_index(&self) -> int {
        self.stack@.last().trans as int
    }

    /// The key of `position`, as the stream holds it.
    pub closed spec fn key(&self) -> Seq<u8> {
        self.inp@
    }

    /// Whether the stream has still to come by `walk`: whether `walk` lies
    /// at or after the next transition of the stream, in the order of the
    /// transitions.
    pub open spec fn pending(&self, walk: Seq<int>) -> bool {
        !self.exhausted() && lex_le(self.position().push(self.next_index()), walk)
    }

    spec fn frame_ok(&self, j: int) -> bool {
        let walk = self.position().take(j);
        let frame = self.stack@[j];
        &&& frame.addr == walk_node(graph(self.fst), walk)
        &&& frame.out == walk_output(graph(self.fst), walk)
        &&& frame.aut_state.deep_view() == run(&self.aut, walk_key(graph(self.fst), walk))
    }

    /// The stream stands at a node of a well-formed transducer, with the
    /// key, the output and the automaton state of the walk that leads
    /// there; once it is exhausted it holds no key.
    pub closed spec fn wf(&self) -> bool {
        &&& well_formed(graph(self.fst))
        &&& self.stack@.len() == 0 ==> self.inp@.len() == 0
        &&& self.stack@.len() > 0 ==> {
            &&& walk_valid(graph(self.fst), self.position())
            &&& self.inp@ == walk_key(graph(self.fst), self.position())
            &&& forall|j: int| 0 <= j < self.stack@.len() ==> self.frame_ok(j)
            &&& forall|j: int|
                0 <= j < self.stack@.len() - 1 ==> self.aut.spec_can_match(
                    (#[trigger] self.stack@[j]).aut_state.deep_view(),
                )
        }
    }

    /// A stream at the root of `fst`, with every key still to come.
    pub fn new(fst: &'f Fst<Vec<u8>>, aut: A) -> (stream: Self)
        requires
            well_formed(graph(fst)),
        ensures
            stream.wf(),
            stream.graph() == graph(fst),
            stream.automaton() == aut,
            !stream.exhausted(),
            stream.position() == Seq::<int>::empty(),
            stream.next_index() == 0,
    {
        let mut stack: Vec<StreamState<A::State>> = Vec::new();
        stack.push(StreamState { addr: root_addr(fst), trans: 0, out: 0, aut_state: aut.start() });
        let stream = SimpleStateStream { fst, aut, inp: Vec::with_capacity(16), stack };
        proof {
            assert(stream.position() =~= Seq::<int>::empty());
            assert(stream.position().take(0) =~= Seq::<int>::empty());
            assert(stream.frame_ok(0));
        }
        stream
    }
}

/// Below a node that has no transition left, or that the automaton cannot
/// match from, no walk is yielded: every yielded walk that was still to
/// come is still to come one level up.
proof fn lemma_prune<A: DFA<InputType = u8>>(
    g: Graph,
    aut: &A,
    path: Seq<int>,
    index: int,
    other: Seq<int>,
)
    requires
        well_formed(g),
        walk_valid(g, path),
        yields(g, aut, other),
        lex_le(path.push(index), other),
        index >= g.transitions(walk_node(g, path)).len() || !aut.spec_can_match(
            run(aut, walk_key(g, path)),
        ),
    ensures
        path.len() > 0,
        lex_le(path.drop_last().push(path.last() + 1), other),
{
    lemma_lex_le_split(path, index, other);
    let n = path.len() as int;
    if other.len() > n && other.take(n) == path && other[n] >= index {
        lemma_walk_take(g, other, n + 1);
        lemma_walk_take(g, other, n);
        assert(other.take(n + 1).drop_last() == other.take(n));
        assert(other.take(n + 1).last() == other[n]);
        assert(aut.spec_can_match(run(aut, walk_key(g, other).take(n))));
        assert(false);
    }
}

/// The prefixes of the key that a stream stands at lead the automaton to
/// states that can match.
proof fn lemma_prefixes_can_match<A: DFA<InputType = u8>>(stream: &SimpleStateStream<'_, A>)
    requires
        stream.wf(),
        !stream.exhausted(),
    ensures
        forall|n: int|
            0 <= n < stream.position().len() ==> stream.aut.spec_can_match(
                run(&stream.aut, #[trigger] walk_key(graph(stream.fst), stream.position()).take(n)),
            ),
{
    let walk = stream.position();
    assert forall|n: int| 0 <= n < walk.len() implies stream.aut.spec_can_match(
        run(&stream.aut, #[trigger] walk_key(graph(stream.fst), walk).take(n)),
    ) by {
        lemma_walk_take(graph(stream.fst), walk, n);
        assert(stream.frame_ok(n));
        assert(stream.aut.spec_can_match(stream.stack@[n].aut_state.deep_view()));
    }
}

impl<'f, A: DFA<InputType = u8>> SimpleStateStream<'f, A> {
    /// The next key that the automaton matches, with its output and the
    /// state of the automaton after it; `None` when there is none left.
    ///
    /// The key is the least, in the order of the transitions, among the
    /// yielded walks that were still to come. Once the stream has returned
    /// `None` it is exhausted, holds no key, and returns `None` ever after.
    pub fn next(&mut self) -> (r: Option<(&[u8], u64, A::State)>)
        requires
            old(self).wf(),
        ensures
            final(self).wf(),
            final(self).graph() == old(self).graph(),
            final(self).automaton() == old(self).automaton(),
            match r {
                Some((key, out, state)) => {
                    let walk = final(self).position();
                    let g = old(self).graph();
                    let aut = old(self).automaton();
                    &&& !final(self).exhausted()
                    &&& final(self).next_index() == 0
                    &&& yields(g, aut, walk)
                    &&& old(self).pending(walk)
                    &&& forall|other: Seq<int>|
                        yields(g, aut, other) && old(self).pending(other) ==> lex_le(walk, other)
                    &&& key@ == walk_key(g, walk)
                    &&& key@ == final(self).key()
                    &&& out == walk_output(g, walk) + g.final_output(walk_node(g, walk))
                    &&& state.deep_view() == run(aut, key@)
                },
                None => {
                    &&& final(self).exhausted()
                    &&& final(self).key() == Seq::<u8>::empty()
                    &&& forall|other: Seq<int>|
                        yields(old(self).graph(), old(self).automaton(), other) ==> !old(
                            self,
                        ).pending(other)
                },
            },
    {
        proof {
            lemma_lex_le_refl(self.position().push(self.next_index()));
        }
        loop
            invariant
                self.wf(),
                self.fst == old(self).fst,
                self.aut == old(self).aut,
                forall|other: Seq<int>|
                    yields(graph(self.fst), &self.aut, other) && old(self).pending(other)
                        ==> self.pending(other),
                !self.exhausted() ==> old(self).pending(
                    self.position().push(self.next_index()),
                ),
            decreases stack_work(graph(self.fst), self.stack@),
        {
            let ghost before = *self;
            let ghost path = self.position();
            let ghost depth = self.stack@.len() as int;
            let state = match self.stack.pop() {
                Some(state) => state,
                None => {
                    return None;
                },
            };
            proof {
                assert(before.frame_ok(depth - 1));
                assert(path.take(depth - 1) == path);
                lemma_walk_node(graph(self.fst), path);
                assert(before.stack@.drop_last() == self.stack@);
            }
            let len = node_len(self.fst, state.addr);
            if state.trans >= len || !self.aut.can_match(&state.aut_state) {
                if state.addr != root_addr(self.fst) {
                    self.inp.pop();
                }
                proof {
                    assert forall|other: Seq<int>|
                        yields(graph(self.fst), &self.aut, other) && before.pending(
                            other,
                        ) implies self.pending(other) by {
                        lemma_prune(graph(self.fst), &self.aut, path, state.trans as int, other);
                        assert(self.position().push(self.next_index()) == path.drop_last().push(
                            path.last() + 1,
                        ));
                    }
                    if depth >= 2 {
                        assert(self.position() == path.drop_last());
                        assert(self.inp@ == walk_key(graph(self.fst), path.drop_last()));
                        assert forall|j: int| 0 <= j < self.stack@.len() implies self.frame_ok(
                            j,
                        ) by {
                            assert(before.frame_ok(j));
                            assert(self.position().take(j) == path.take(j));
                        }
                        lemma_lex_le_ascend(path, state.trans as int);
                        assert(self.position().push(self.next_index()) == path.drop_last().push(
                            path.last() + 1,
                        ));
                        lemma_lex_le_trans(
                            old(self).position().push(old(self).next_index()),
                            path.push(state.trans as int),
                            self.position().push(self.next_index()),
                        );
                    }
                }
                continue ;
            }
            let trans = node_transition(self.fst, state.addr, state.trans);
            let ghost walk = path.push(state.trans as int);
            proof {
                assert(walk.drop_last() == path);
                lemma_walk_node(graph(self.fst), walk);
            }
            let out = state.out + trans.1;
            let next_state = self.aut.accept(&state.aut_state, trans.0);
            let is_match = self.aut.is_match(&next_state);
            proof {
                assert(walk_valid(graph(self.fst), walk));
                assert(out == walk_output(graph(self.fst), walk));
                assert(trans.2 == walk_node(graph(self.fst), walk));
                assert(walk_key(self.graph(), walk).drop_last() == walk_key(self.graph(), path));
                assert(next_state.deep_view() == run(&self.aut, walk_key(graph(self.fst), walk)));
            }
            let next_addr = trans.2;
            self.inp.push(trans.0);
            self.stack.push(
                StreamState {
                    addr: state.addr,
                    trans: state.trans + 1,
                    out: state.out,
                    aut_state: state.aut_state,
                },
            );
            let matched = node_is_final(self.fst, next_addr) && is_match;
            let ghost final_out = graph(self.fst).final_output(next_addr);
            let result_out = if matched {
                out + node_final_output(self.fst, next_addr)
            } else {
                out
            };
            let cloned_next_state = if matched {
                Some(self.aut.clone_state(&next_state))
            } else {
                None
            };
            self.stack.push(
                StreamState { addr: next_addr, trans: 0, out, aut_state: next_state },
            );
            proof {
                assert(self.position() == walk);
                assert(self.inp@ == walk_key(graph(self.fst), walk));
                assert forall|j: int| 0 <= j < self.stack@.len() implies self.frame_ok(j) by {
                    if j < depth {
                        assert(before.frame_ok(j));
                        assert(self.position().take(j) == path.take(j));
                    } else {
                        assert(self.position().take(j) == walk);
                        assert(walk_key(self.graph(), walk).drop_last() == walk_key(
                            self.graph(),
                            path,
                        ));
                    }
                }
                assert(self.wf());
                lemma_stack_work_push(
                    graph(self.fst),
                    before.stack@.drop_last(),
                    before.stack@.last(),
                );
                lemma_stack_work_push(
                    graph(self.fst),
                    before.stack@.drop_last(),
                    self.stack@[depth - 1],
                );
                lemma_stack_work_push(
                    graph(self.fst),
                    before.stack@.drop_last().push(self.stack@[depth - 1]),
                    self.stack@[depth],
                );
                assert(self.stack@ == before.stack@.drop_last().push(self.stack@[depth - 1]).push(
                    self.stack@[depth],
                ));
                lemma_lex_le_refl(walk);
                assert(lex_le(walk, walk.push(0))) by {
                    assert(walk.push(0).take(walk.len() as int) == walk);
                }
                lemma_lex_le_trans(
                    old(self).position().push(old(self).next_index()),
                    walk,
                    walk.push(0),
                );
            }
            if matched {
                proof {
                    lemma_prefixes_can_match(&*self);
                }
                match cloned_next_state {
                    Some(cloned) => {
                        return Some((self.inp.as_slice(), result_out, cloned));
                    },
                    None => {},
                }
            }
            proof {
                assert forall|other: Seq<int>|
                    yields(graph(self.fst), &self.aut, other) && before.pending(
                        other,
                    ) implies self.pending(other) by {
                    lemma_walk_indices(graph(self.fst), other);
                    assert(self.pending(other)) by {
                        lemma_lex_le_descend(walk, other);
                    }
                }
            }
        }
    }
}

/// Lexicographic emission: after a stream has yielded a key, every walk
/// that is still to come has a key that stands strictly after it in the
/// order of byte strings.
pub proof fn lemma_stream_keys_rise<A: DFA<InputType = u8>>(
    stream: &SimpleStateStream<'_, A>,
    walk: Seq<int>,
)
    requires
        stream.wf(),
        stream.next_index() == 0,
        stream.pending(walk),
        walk_valid(stream.graph(), walk),
    ensures
        bytes_less(stream.key(), walk_key(stream.graph(), walk)),
{
    lemma_keys_rise(graph(stream.fst), stream.position(), walk);
}

/// Walks through a transducer in step with an automaton.
pub trait FstExt {
    /// The graph of the transducer that the stream walks through.
    spec fn graph(&self) -> Graph;

    /// A stream of the keys that `aut` matches, with every key still to come.
    fn search_state_stream<A: DFA<InputType = u8>>(&self, aut: A) -> (stream: SimpleStateStream<
        '_,
        A,
    >)
        requires
            well_formed(self.graph()),
        ensures
            stream.wf(),
            stream.graph() == self.graph(),
            stream.automaton() == aut,
            !stream.exhausted(),
            stream.position() == Seq::<int>::empty(),
            stream.next_index() == 0,
    ;
}

impl FstExt for Fst<Vec<u8>> {
    open spec fn graph(&self) -> Graph {
        graph(self)
    }

    fn search_state_stream<A: DFA<InputType = u8>>(&self, aut: A) -> (stream: SimpleStateStream<
        '_,
        A,
    >) {
        SimpleStateStream::new(self, aut)
    }
}

} // verus!
