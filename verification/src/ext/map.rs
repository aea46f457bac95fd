//! The walk of `raw`, over a map from keys to 64-bit values.
use crate::adapters::{run, DFA};
use crate::ext::raw::{fst_nodes, fst_root, FstExt};
use crate::ext::walk::{lex_le, walk_key, walk_node, walk_output, well_formed, yields, Graph};
use fst::raw::Fst;
use vstd::prelude::*;

verus! {

/// The map of the `fst` crate, over the bytes that hold it.
#[verifier::external_type_specification]
#[verifier::external_body]
#[verifier::reject_recursive_types(D)]
pub struct ExMap<D>(fst::Map<D>);

/// The nodes of the transducer that a map is made of, by address.
pub uninterp spec fn map_nodes(map: &fst::Map<Vec<u8>>) -> Map<
    usize,
    (bool, u64, Seq<(u8, u64, usize)>),
>;

/// The address of the root node of the transducer that a map is made of.
pub uninterp spec fn map_root(map: &fst::Map<Vec<u8>>) -> usize;

/// `Map::as_fst`: the transducer that the map is made of.
#[verifier::external_body]
fn as_fst(map: &fst::Map<Vec<u8>>) -> (fst: &Fst<Vec<u8>>)
    ensures
        fst_nodes(fst) == map_nodes(map),
        fst_root(fst) == map_root(map),
{
    map.as_fst()
}

/// A walk through a map, driven by a byte automaton.
pub struct SimpleStateStream<'m, A: DFA<InputType = u8>>(
    crate::ext::raw::SimpleStateStream<'m, A>,
);

impl<'m, A: DFA<InputType = u8>> SimpleStateStream<'m, A> {
    /// The walk through the transducer of the map.
    pub closed spec fn raw(&self) -> crate::ext::raw::SimpleStateStream<'m, A> {
        self.0
    }

    /// The next key that the automaton matches, with its value and the
    /// state of the automaton after it; `None` when there is none left.
    pub fn next(&mut self) -> (r: Option<(&[u8], u64, A::State)>)
        requires
            old(self).raw().wf(),
        ensures
            final(self).raw().wf(),
            final(self).raw().graph() == old(self).raw().graph(),
            final(self).raw().automaton() == old(self).raw().automaton(),
            match r {
                Some((key, out, state)) => {
                    let walk = final(self).raw().position();
                    let g = old(self).raw().graph();
                    let aut = old(self).raw().automaton();
                    &&& !final(self).raw().exhausted()
                    &&& final(self).raw().next_index() == 0
                    &&& yields(g, aut, walk)
                    &&& old(self).raw().pending(walk)
                    &&& forall|other: Seq<int>|
                        yields(g, aut, other) && old(self).raw().pending(other) ==> lex_le(
                            walk,
                            other,
                        )
                    &&& key@ == walk_key(g, walk)
                    &&& key@ == final(self).raw().key()
                    &&& out == walk_output(g, walk) + g.final_output(walk_node(g, walk))
                    &&& state.deep_view() == run(aut, key@)
                },
                None => {
                    &&& final(self).raw().exhausted()
                    &&& final(self).raw().key() == Seq::<u8>::empty()
                    &&& forall|other: Seq<int>|
                        yields(old(self).raw().graph(), old(self).raw().automaton(), other)
                            ==> !old(self).raw().pending(other)
                },
            },
    {
        self.0.next()
    }
}

/// Walks through a map in step with an automaton.
pub trait MapExt {
    /// The graph of the transducer that the stream walks through.
    spec fn graph(&self) -> Graph;

    /// A stream of the keys that `aut` matches, with every key still to come.
    fn search_state_stream<A: DFA<InputType = u8>>(&self, aut: A) -> (stream: SimpleStateStream<
        '_,
        A,
    >)
        requires
            well_formed(self.graph()),
        ensures
            stream.raw().wf(),
            stream.raw().graph() == self.graph(),
            stream.raw().automaton() == aut,
            !stream.raw().exhausted(),
            stream.raw().position() == Seq::<int>::empty(),
            stream.raw().next_index() == 0,
    ;
}

impl MapExt for fst::Map<Vec<u8>> {
    open spec fn graph(&self) -> Graph {
        Graph { nodes: map_nodes(self), root: map_root(self) }
    }

    fn search_state_stream<A: DFA<InputType = u8>>(&self, aut: A) -> (stream: SimpleStateStream<
        '_,
        A,
    >) {
        SimpleStateStream(as_fst(self).search_state_stream(aut))
    }
}

} // verus!
