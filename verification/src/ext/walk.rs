//! Walks through a transducer: what a key is, in which order keys stand,
//! and which of them a walk driven by an automaton yields.
//!
//! A transducer is a graph of nodes. A walk is the sequence of transition
//! indices taken from the root.
use crate::adapters::{run, DFA};
use vstd::prelude::*;

verus! {

/// A transducer as a graph: its nodes by address, and the address of its
/// root. A node is whether it is final, its final output, and its
/// transitions in order, each with its input byte, its output and the
/// address of the node it leads to.
pub struct Graph {
    pub nodes: Map<usize, (bool, u64, Seq<(u8, u64, usize)>)>,
    pub root: usize,
}

impl Graph {
    /// Whether the graph has a node at `addr`.
    pub open spec fn has_node(self, addr: usize) -> bool {
        self.nodes.dom().contains(addr)
    }

    /// Whether the node at `addr` is final.
    pub open spec fn is_final(self, addr: usize) -> bool {
        self.nodes[addr].0
    }

    /// The final output of the node at `addr`.
    pub open spec fn final_output(self, addr: usize) -> u64 {
        self.nodes[addr].1
    }

    /// The transitions of the node at `addr`.
    pub open spec fn transitions(self, addr: usize) -> Seq<(u8, u64, usize)> {
        self.nodes[addr].2
    }
}

/// The node a walk ends in. Meaningful for the walks of `walk_valid`.
pub open spec fn walk_node(g: Graph, walk: Seq<int>) -> usize
    decreases walk.len(),
{
    if walk.len() == 0 {
        g.root
    } else {
        g.transitions(walk_node(g, walk.drop_last()))[walk.last()].2
    }
}

/// Whether every index of a walk is a transition of the node it is taken at.
pub open spec fn walk_valid(g: Graph, walk: Seq<int>) -> bool
    decreases walk.len(),
{
    walk.len() == 0 || (walk_valid(g, walk.drop_last()) && 0 <= walk.last() < g.transitions(
        walk_node(g, walk.drop_last()),
    ).len())
}

/// The key of a walk: the input bytes of its transitions.
pub open spec fn walk_key(g: Graph, walk: Seq<int>) -> Seq<u8>
    decreases walk.len(),
{
    if walk.len() == 0 {
        Seq::empty()
    } else {
        walk_key(g, walk.drop_last()).push(
            g.transitions(walk_node(g, walk.drop_last()))[walk.last()].0,
        )
    }
}

/// The sum of the outputs of the transitions of a walk.
pub open spec fn walk_output(g: Graph, walk: Seq<int>) -> int
    decreases walk.len(),
{
    if walk.len() == 0 {
        0
    } else {
        walk_output(g, walk.drop_last()) + g.transitions(
            walk_node(g, walk.drop_last()),
        )[walk.last()].1
    }
}

/// What a traversal relies on in a transducer: the root is a node, every
/// transition leads to a node at a lower address, the input bytes of the
/// transitions of a node rise strictly, and the outputs along any walk,
/// with the final output of the node it ends in, fit in 64 bits.
pub open spec fn well_formed(g: Graph) -> bool {
    &&& g.has_node(g.root)
    &&& forall|addr: usize, i: int|
        g.has_node(addr) && 0 <= i < g.transitions(addr).len() ==> g.has_node(
            (#[trigger] g.transitions(addr)[i]).2,
        ) && g.transitions(addr)[i].2 < addr
    &&& forall|addr: usize, i: int, j: int|
        g.has_node(addr) && 0 <= i < j < g.transitions(addr).len() ==> (
        #[trigger] g.transitions(addr)[i]).0 < (#[trigger] g.transitions(addr)[j]).0
    &&& forall|walk: Seq<int>| #[trigger]
        walk_valid(g, walk) ==> walk_output(g, walk) + g.final_output(walk_node(g, walk))
            <= u64::MAX
}

/// A valid walk ends in a node; unless it is empty, that node lies below
/// the root. Its key is as long as the walk, and its output is not negative.
pub proof fn lemma_walk_node(g: Graph, walk: Seq<int>)
    requires
        well_formed(g),
        walk_valid(g, walk),
    ensures
        g.has_node(walk_node(g, walk)),
        walk.len() > 0 ==> walk_node(g, walk) < g.root,
        walk_node(g, walk) <= g.root,
        walk_key(g, walk).len() == walk.len(),
        0 <= walk_output(g, walk) <= u64::MAX,
    decreases walk.len(),
{
    if walk.len() > 0 {
        lemma_walk_node(g, walk.drop_last());
        let parent = walk_node(g, walk.drop_last());
        assert(g.has_node(g.transitions(parent)[walk.last()].2));
    }
}

/// A prefix of a valid walk is a valid walk, and its key is the prefix of
/// the key.
pub proof fn lemma_walk_take(g: Graph, walk: Seq<int>, n: int)
    requires
        walk_valid(g, walk),
        0 <= n <= walk.len(),
    ensures
        walk_valid(g, walk.take(n)),
        walk_key(g, walk.take(n)) == walk_key(g, walk).take(n),
        walk_key(g, walk).len() == walk.len(),
    decreases walk.len(),
{
    if walk.len() == 0 {
        assert(walk.take(n) == walk);
        assert(walk_key(g, walk).take(n) == walk_key(g, walk));
    } else if n == walk.len() {
        lemma_walk_take(g, walk.drop_last(), n - 1);
        assert(walk.take(n) == walk);
        assert(walk_key(g, walk).take(n) == walk_key(g, walk));
    } else {
        lemma_walk_take(g, walk.drop_last(), n);
        assert(walk.take(n) == walk.drop_last().take(n));
        assert(walk_key(g, walk).take(n) == walk_key(g, walk.drop_last()).take(n));
    }
}

/// Lexicographic order on sequences of integers, a prefix standing before
/// what extends it.
pub open spec fn lex_le(a: Seq<int>, b: Seq<int>) -> bool {
    ||| (a.len() <= b.len() && a == b.take(a.len() as int))
    ||| exists|k: int|
        0 <= k < a.len() && k < b.len() && a.take(k) == b.take(k) && #[trigger] a[k] < b[k]
}

/// Strict lexicographic order on byte strings, a prefix standing before
/// what extends it.
pub open spec fn bytes_less(a: Seq<u8>, b: Seq<u8>) -> bool {
    ||| (a.len() < b.len() && a == b.take(a.len() as int))
    ||| exists|k: int|
        0 <= k < a.len() && k < b.len() && a.take(k) == b.take(k) && #[trigger] a[k] < b[k]
}

/// Whether a traversal driven by `aut` yields the key of `walk`: the walk
/// is not empty and ends in a final node, the automaton matches its key,
/// and the automaton can match after every shorter prefix of the key.
pub open spec fn yields<A: DFA<InputType = u8>>(g: Graph, aut: &A, walk: Seq<int>) -> bool {
    &&& walk.len() > 0
    &&& walk_valid(g, walk)
    &&& g.is_final(walk_node(g, walk))
    &&& aut.spec_is_match(run(aut, walk_key(g, walk)))
    &&& forall|n: int|
        0 <= n < walk.len() ==> aut.spec_can_match(
            run(aut, #[trigger] walk_key(g, walk).take(n)),
        )
}

pub proof fn lemma_lex_le_refl(a: Seq<int>)
    ensures
        lex_le(a, a),
{
    assert(a.take(a.len() as int) == a);
}

pub proof fn lemma_lex_le_trans(a: Seq<int>, b: Seq<int>, c: Seq<int>)
    requires
        lex_le(a, b),
        lex_le(b, c),
    ensures
        lex_le(a, c),
{
    let a_prefix = a.len() <= b.len() && a == b.take(a.len() as int);
    let b_prefix = b.len() <= c.len() && b == c.take(b.len() as int);
    if a_prefix && b_prefix {
        assert(a == c.take(a.len() as int));
    } else if a_prefix {
        let k = choose|k: int|
            0 <= k < b.len() && k < c.len() && b.take(k) == c.take(k) && #[trigger] b[k] < c[k];
        if k < a.len() {
            assert(a.take(k) == b.take(k));
            assert(a[k] == b[k]);
        } else {
            assert(a == c.take(a.len() as int)) by {
                assert(b.take(k).take(a.len() as int) == c.take(k).take(a.len() as int));
                assert(b.take(k).take(a.len() as int) == b.take(a.len() as int));
                assert(c.take(k).take(a.len() as int) == c.take(a.len() as int));
            }
        }
    } else {
        let k = choose|k: int|
            0 <= k < a.len() && k < b.len() && a.take(k) == b.take(k) && #[trigger] a[k] < b[k];
        if b_prefix {
            assert(b.take(k) == c.take(k));
            assert(b[k] == c[k]);
            assert(a[k] < c[k]);
        } else {
            let m = choose|m: int|
                0 <= m < b.len() && m < c.len() && b.take(m) == c.take(m) && #[trigger] b[m] < c[m];
            if m < k {
                assert(a.take(m) == b.take(m)) by {
                    assert(a.take(k).take(m) == b.take(k).take(m));
                    assert(a.take(k).take(m) == a.take(m));
                    assert(b.take(k).take(m) == b.take(m));
                }
                assert(a[m] == b[m]) by {
                    assert(a.take(k)[m] == b.take(k)[m]);
                }
                assert(a[m] < c[m]);
            } else {
                assert(a.take(k) == c.take(k)) by {
                    assert(b.take(m).take(k) == c.take(m).take(k));
                    assert(b.take(m).take(k) == b.take(k));
                    assert(c.take(m).take(k) == c.take(k));
                }
                if m == k {
                    assert(a[k] < c[k]);
                } else {
                    assert(b[k] == c[k]) by {
                        assert(b.take(m)[k] == c.take(m)[k]);
                    }
                    assert(a[k] < c[k]);
                }
            }
        }
    }
}

/// A sequence at or above `path.push(index)` either extends `path` with an
/// index that is not below `index`, or lies at or above the sequence that
/// takes the next index one level up.
pub proof fn lemma_lex_le_split(path: Seq<int>, index: int, w: Seq<int>)
    requires
        lex_le(path.push(index), w),
    ensures
        (w.len() > path.len() && w.take(path.len() as int) == path && w[path.len() as int] >= index)
            || (path.len() > 0 && lex_le(path.drop_last().push(path.last() + 1), w)),
{
    let c = path.push(index);
    let n = path.len() as int;
    if c.len() <= w.len() && c == w.take(c.len() as int) {
        assert(w.take(n) == path) by {
            assert(w.take(c.len() as int).take(n) == w.take(n));
            assert(c.take(n) == path);
        }
        assert(w[n] == c[n]);
    } else {
        let k = choose|k: int|
            0 <= k < c.len() && k < w.len() && c.take(k) == w.take(k) && #[trigger] c[k] < w[k];
        if k == n {
            assert(c.take(n) == path);
        } else {
            let up = path.drop_last().push(path.last() + 1);
            assert(c.take(k) == path.take(k));
            if k == n - 1 {
                assert(up.take(k) == path.take(k));
                if w[k] == up[k] {
                    assert(up == w.take(up.len() as int));
                } else {
                    assert(up[k] < w[k]);
                }
            } else {
                assert(up.take(k) == path.take(k));
                assert(up[k] == path[k]);
                assert(c[k] == path[k]);
                assert(up[k] < w[k]);
            }
        }
    }
}

/// A sequence of non-negative indices at or above `path`, and other than
/// `path`, lies at or above `path.push(0)`.
pub proof fn lemma_lex_le_descend(path: Seq<int>, w: Seq<int>)
    requires
        lex_le(path, w),
        w != path,
        forall|k: int| 0 <= k < w.len() ==> w[k] >= 0,
    ensures
        lex_le(path.push(0), w),
{
    let c = path.push(0);
    let n = path.len() as int;
    if path.len() <= w.len() && path == w.take(n) {
        assert(w.len() > n) by {
            if w.len() == n {
                assert(w.take(n) == w);
            }
        }
        assert(c.take(n) == w.take(n));
        if w[n] == 0 {
            assert(c == w.take(n + 1));
        } else {
            assert(c[n] < w[n]);
        }
    } else {
        let k = choose|k: int|
            0 <= k < path.len() && k < w.len() && path.take(k) == w.take(k) && #[trigger] path[k]
                < w[k];
        assert(c.take(k) == path.take(k));
        assert(c[k] < w[k]);
    }
}

/// The sequence that takes the next index one level up lies at or above
/// every sequence that goes on from `path`.
pub proof fn lemma_lex_le_ascend(path: Seq<int>, index: int)
    requires
        path.len() > 0,
    ensures
        lex_le(path.push(index), path.drop_last().push(path.last() + 1)),
{
    let c = path.push(index);
    let up = path.drop_last().push(path.last() + 1);
    let k = path.len() - 1;
    assert(c.take(k) == up.take(k));
    assert(c[k] < up[k]);
}

/// The indices of a valid walk are not negative.
pub proof fn lemma_walk_indices(g: Graph, walk: Seq<int>)
    requires
        walk_valid(g, walk),
    ensures
        forall|k: int| 0 <= k < walk.len() ==> walk[k] >= 0,
    decreases walk.len(),
{
    if walk.len() > 0 {
        lemma_walk_indices(g, walk.drop_last());
        assert forall|k: int| 0 <= k < walk.len() implies walk[k] >= 0 by {
            if k < walk.len() - 1 {
                assert(walk.drop_last()[k] == walk[k]);
            }
        }
    }
}

/// The steps a traversal can still take below the node at `addr`, from
/// its transition `from` on.
pub open spec fn node_work(g: Graph, addr: usize, from: int) -> nat
    decreases addr, g.transitions(addr).len() - from,
{
    if well_formed(g) && g.has_node(addr) && 0 <= from < g.transitions(addr).len() {
        1 + node_work(g, g.transitions(addr)[from].2, 0) + node_work(g, addr, from + 1)
    } else {
        1
    }
}

/// The byte of a key at position `k` is the input byte of the transition
/// that the walk takes there.
pub proof fn lemma_walk_key_index(g: Graph, walk: Seq<int>, k: int)
    requires
        walk_valid(g, walk),
        0 <= k < walk.len(),
    ensures
        walk_key(g, walk).len() == walk.len(),
        walk_key(g, walk)[k] == g.transitions(walk_node(g, walk.take(k)))[walk[k]].0,
        0 <= walk[k] < g.transitions(walk_node(g, walk.take(k))).len(),
{
    lemma_walk_take(g, walk, k + 1);
    let front = walk.take(k + 1);
    assert(front.drop_last() == walk.take(k));
    assert(front.last() == walk[k]);
    assert(walk_key(g, front).last() == walk_key(g, walk).take(k + 1)[k]);
}

/// Lexicographic emission: a walk that lies at or after the first
/// transition below another walk has a key that stands strictly after the
/// key of that walk in the order of byte strings.
pub proof fn lemma_keys_rise(g: Graph, first: Seq<int>, second: Seq<int>)
    requires
        well_formed(g),
        walk_valid(g, first),
        walk_valid(g, second),
        lex_le(first.push(0), second),
    ensures
        bytes_less(walk_key(g, first), walk_key(g, second)),
{
    let below = first.push(0);
    let n = first.len() as int;
    let key1 = walk_key(g, first);
    let key2 = walk_key(g, second);
    lemma_walk_take(g, first, n);
    lemma_walk_take(g, second, 0);
    if below.len() <= second.len() && below == second.take(below.len() as int) {
        assert(second.take(n) == first) by {
            assert(second.take(n + 1).take(n) == second.take(n));
            assert(below.take(n) == first);
        }
        lemma_walk_take(g, second, n);
    } else {
        let k = choose|k: int|
            0 <= k < below.len() && k < second.len() && below.take(k) == second.take(k)
                && #[trigger] below[k] < second[k];
        if k == n {
            assert(below.take(n) == first);
            lemma_walk_take(g, second, n);
        } else {
            assert(below.take(k) == first.take(k));
            assert(below[k] == first[k]);
            lemma_walk_take(g, first, k);
            lemma_walk_take(g, second, k);
            lemma_walk_key_index(g, first, k);
            lemma_walk_key_index(g, second, k);
            lemma_walk_node(g, first.take(k));
            let node = walk_node(g, first.take(k));
            assert(g.transitions(node)[first[k]].0 < g.transitions(node)[second[k]].0);
            assert(key1.take(k) == key2.take(k));
            assert(key1[k] < key2[k]);
        }
    }
}

/// Pruning soundness: where the automaton cannot match after some prefix,
/// no key that has that prefix is yielded.
pub proof fn lemma_pruning_sound<A: DFA<InputType = u8>>(
    g: Graph,
    aut: &A,
    prefix: Seq<u8>,
    walk: Seq<int>,
)
    requires
        !aut.spec_can_match(run(aut, prefix)),
        prefix.len() <= walk_key(g, walk).len(),
        walk_key(g, walk).take(prefix.len() as int) == prefix,
    ensures
        !yields(g, aut, walk),
{
    if yields(g, aut, walk) {
        let key = walk_key(g, walk);
        let n = prefix.len() as int;
        lemma_walk_take(g, walk, 0);
        if n < walk.len() {
            assert(aut.spec_can_match(run(aut, key.take(n))));
        } else {
            assert(key.take(n) == key);
            aut.lemma_match_can_match(run(aut, key));
        }
    }
}

} // verus!
