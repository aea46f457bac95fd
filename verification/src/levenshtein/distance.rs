//! What the edit distance automaton measures.
//!
//! The automaton deletes query characters only on the way to a character
//! that it then keeps or substitutes. The cost it finds for a key is
//! therefore the least cost among the edit scripts in which the last
//! character of the query takes part. Where some cheapest script is of that
//! kind the cost is the edit distance.
use crate::adapters::{is_least_matching_weight, run, BeamSearchAdapter, WeightedNFA, DFA};
use crate::beam::{
    agenda_above, agenda_covered, agenda_sorted, covered, edges_sorted, found_contains,
    initial_agenda, lemma_beam_search_covers, no_repeated_state, states_within,
    targets_within, universe_fits,
};
use crate::frontier::{lemma_accept_frontier, reached_by_edge};
use crate::levenshtein::weighted::{stack_automaton, LevenshteinStack};
use crate::roundtrip::{lemma_automaton_adapter_run, lemma_round_trip};
use crate::levenshtein::weighted::{
    edges_after_delete, insert_edge, lemma_levenshtein_edges_sorted, levenshtein_edges,
    match_edge, substitute_edge, WeightedLevenshteinNFA,
};
use vstd::prelude::*;
use vstd::utf8::encode_utf8;

verus! {

/// The cost of putting `a` where `b` is: nothing if they are equal.
pub open spec fn substitution_cost(a: char, b: char) -> nat {
    if a == b {
        0
    } else {
        1
    }
}

/// The edit distance between `query` and `key`: the least number of
/// insertions, deletions and substitutions of characters that turn one
/// into the other.
pub open spec fn levenshtein(query: Seq<char>, key: Seq<char>) -> nat
    decreases query.len() + key.len(),
{
    if query.len() == 0 {
        key.len()
    } else if key.len() == 0 {
        query.len()
    } else {
        let paired = levenshtein(query.drop_last(), key.drop_last()) + substitution_cost(
            query.last(),
            key.last(),
        );
        let inserted = levenshtein(query, key.drop_last()) + 1;
        let deleted = levenshtein(query.drop_last(), key) + 1;
        if paired <= inserted && paired <= deleted {
            paired
        } else if inserted <= deleted {
            inserted
        } else {
            deleted
        }
    }
}

/// The lesser of two costs, `None` standing for no cost at all.
pub open spec fn least(a: Option<nat>, b: Option<nat>) -> Option<nat> {
    match (a, b) {
        (Some(x), Some(y)) => if x <= y {
            Some(x)
        } else {
            Some(y)
        },
        (Some(x), None) => Some(x),
        (None, _) => b,
    }
}

/// The least cost of turning `query` into `key` by edits among which the
/// last character of `query` is kept or substituted, not deleted; `None`
/// where there is no such way, which is where `key` is empty and `query`
/// is not.
pub open spec fn aligned(query: Seq<char>, key: Seq<char>) -> Option<nat>
    decreases key.len(),
{
    if key.len() == 0 {
        if query.len() == 0 {
            Some(0)
        } else {
            None
        }
    } else {
        let inserted = match aligned(query, key.drop_last()) {
            Some(v) => Some(v + 1),
            None => None,
        };
        let paired = if query.len() > 0 {
            Some(
                levenshtein(query.drop_last(), key.drop_last()) + substitution_cost(
                    query.last(),
                    key.last(),
                ),
            )
        } else {
            None
        };
        least(inserted, paired)
    }
}

/// An edit distance is at most the two lengths together, and so is every
/// aligned cost.
pub proof fn lemma_distance_bound(query: Seq<char>, key: Seq<char>)
    ensures
        levenshtein(query, key) <= query.len() + key.len(),
        aligned(query, key) matches Some(v) ==> v <= query.len() + key.len(),
    decreases query.len() + key.len(),
{
    if query.len() > 0 && key.len() > 0 {
        lemma_distance_bound(query.drop_last(), key.drop_last());
        lemma_distance_bound(query, key.drop_last());
        lemma_distance_bound(query.drop_last(), key);
    } else if key.len() > 0 {
        lemma_distance_bound(query, key.drop_last());
    }
}

/// Either the last character of the query takes part in a cheapest edit
/// script, or it is deleted: the edit distance is the lesser of the
/// aligned cost and one more than the distance from the query without its
/// last character.
pub proof fn lemma_distance_by_last(query: Seq<char>, key: Seq<char>)
    ensures
        query.len() == 0 ==> aligned(query, key) == Some(levenshtein(query, key)),
        query.len() > 0 ==> Some(levenshtein(query, key)) == least(
            aligned(query, key),
            Some((levenshtein(query.drop_last(), key) + 1) as nat),
        ),
    decreases key.len(),
{
    if key.len() > 0 {
        lemma_distance_by_last(query, key.drop_last());
    }
}

/// The edit distance is at most every aligned cost, and equal to it where
/// the query is empty or ends in the character that the key ends in.
pub proof fn lemma_aligned_is_distance(query: Seq<char>, key: Seq<char>)
    ensures
        aligned(query, key) matches Some(v) ==> levenshtein(query, key) <= v,
        query.len() == 0 ==> aligned(query, key) == Some(levenshtein(query, key)),
        query.len() > 0 && key.len() > 0 && query.last() == key.last() ==> aligned(query, key)
            == Some(levenshtein(query, key)),
{
    lemma_distance_by_last(query, key);
    if query.len() > 0 && key.len() > 0 && query.last() == key.last() {
        let q0 = query.drop_last();
        let k0 = key.drop_last();
        assert(q0.push(query.last()) == query);
        assert(k0.push(key.last()) == key);
        lemma_neighbours(q0, k0, query.last());
        lemma_distance_by_last(query, k0);
        assert(levenshtein(query, key) == levenshtein(q0, k0));
    }
}

/// One more character on either side changes an edit distance by one at
/// most.
pub proof fn lemma_neighbours(query: Seq<char>, key: Seq<char>, c: char)
    ensures
        levenshtein(query, key) <= levenshtein(query.push(c), key) + 1,
        levenshtein(query, key) <= levenshtein(query, key.push(c)) + 1,
        levenshtein(query.push(c), key) <= levenshtein(query, key) + 1,
        levenshtein(query, key.push(c)) <= levenshtein(query, key) + 1,
    decreases query.len() + key.len(),
{
    assert(query.push(c).drop_last() == query);
    assert(key.push(c).drop_last() == key);
    if query.len() > 0 && key.len() > 0 {
        let q0 = query.drop_last();
        let k0 = key.drop_last();
        assert(q0.push(query.last()) == query);
        assert(k0.push(key.last()) == key);
        lemma_neighbours(q0, key, c);
        lemma_neighbours(query, k0, c);
        lemma_neighbours(q0, k0, c);
        lemma_neighbours(q0, k0, query.last());
        lemma_neighbours(q0, k0, key.last());
        lemma_neighbours(q0, key, query.last());
        lemma_neighbours(query, k0, key.last());
        assert(query.push(c).drop_last().drop_last() == q0);
        assert(key.push(c).drop_last().drop_last() == k0);
    } else if query.len() > 0 {
        let q0 = query.drop_last();
        assert(q0.push(query.last()) == query);
        lemma_neighbours(q0, key, c);
        lemma_neighbours(q0, key, query.last());
    } else if key.len() > 0 {
        let k0 = key.drop_last();
        assert(k0.push(key.last()) == key);
        lemma_neighbours(query, k0, c);
        lemma_neighbours(query, k0, key.last());
    }
}

/// Deleting the query characters between two positions costs their
/// number: the distance from a longer prefix of the query is at most an
/// aligned cost from a shorter prefix and the characters in between.
pub proof fn lemma_distance_from_prefix(query: Seq<char>, key: Seq<char>, i: int, t: int)
    requires
        0 <= i <= t <= query.len(),
    ensures
        aligned(query.take(i), key) matches Some(a) ==> levenshtein(query.take(t), key) <= a + (t
            - i),
    decreases t - i,
{
    if t == i {
        lemma_aligned_is_distance(query.take(i), key);
    } else {
        lemma_distance_from_prefix(query, key, i, t - 1);
        lemma_distance_by_last(query.take(t), key);
        assert(query.take(t).drop_last() == query.take(t - 1));
    }
}

/// The distance from a prefix of the query is attained: by an aligned
/// cost from some shorter prefix and the deletion of the characters in
/// between.
pub proof fn lemma_distance_attained(query: Seq<char>, key: Seq<char>, t: int) -> (i: int)
    requires
        0 <= t <= query.len(),
    ensures
        0 <= i <= t,
        aligned(query.take(i), key) == Some((levenshtein(query.take(t), key) - (t - i)) as nat),
        levenshtein(query.take(t), key) >= t - i,
    decreases t,
{
    lemma_distance_by_last(query.take(t), key);
    if t == 0 {
        0
    } else {
        assert(query.take(t).drop_last() == query.take(t - 1));
        let here = aligned(query.take(t), key);
        let below = levenshtein(query.take(t - 1), key) + 1;
        if here is Some && here->0 <= below {
            t
        } else {
            lemma_distance_attained(query, key, t - 1)
        }
    }
}

/// `edges` holds an edge to `target` at `cost`.
pub open spec fn has_edge(edges: Seq<(usize, u64)>, target: int, cost: int) -> bool {
    exists|j: int| 0 <= j < edges.len() && #[trigger] edges[j] == (target as usize, cost as u64)
}

/// What the edges from a position are: each either inserts the input
/// character, or deletes query characters up to one that it keeps, if
/// that one is the input character, or substitutes.
pub proof fn lemma_edges_sound(
    query: Seq<char>,
    cur: int,
    inp: char,
    extra: int,
    deleted: bool,
    j: int,
)
    requires
        0 <= cur <= usize::MAX,
        query.len() <= usize::MAX,
        0 <= extra < u64::MAX,
        cur <= query.len() ==> extra + query.len() - cur + 1 <= u64::MAX,
        0 <= j < levenshtein_edges(query, cur, inp, extra, deleted).len(),
    ensures
        ({
            let edge = levenshtein_edges(query, cur, inp, extra, deleted)[j];
            let target = edge.0 as int;
            let cost = edge.1 as int;
            ||| !deleted && target == cur && cost == extra + 1
            ||| cur < target <= query.len() && cost == extra + (target - 1 - cur)
                + substitution_cost(query[target - 1], inp)
            ||| cur < target <= query.len() && cost == extra + (target - cur)
        }),
    decreases query.len() - cur,
{
    let head = match_edge(query, cur, inp, extra) + substitute_edge(query, cur, extra)
        + insert_edge(cur, extra, deleted);
    let rest = edges_after_delete(query, cur, inp, extra);
    let all = levenshtein_edges(query, cur, inp, extra, deleted);
    assert(all == head + rest);
    if j >= head.len() {
        assert(all[j] == rest[j - head.len()]);
        lemma_edges_sound(query, cur + 1, inp, extra + 1, true, j - head.len());
    } else {
        let matched = match_edge(query, cur, inp, extra);
        let substituted = substitute_edge(query, cur, extra);
        assert(all[j] == head[j]);
        if j < matched.len() {
            assert(head[j] == matched[j]);
        } else if j < matched.len() + substituted.len() {
            assert(head[j] == substituted[j - matched.len()]);
        } else {
            assert(head[j] == insert_edge(cur, extra, deleted)[j - matched.len()
                - substituted.len()]);
        }
    }
}

/// The edges from a position are all there: the insertion, unless
/// characters were deleted before; and for every later position the
/// substitution that leads there, and the match if the character before
/// that position is the input character.
pub proof fn lemma_edges_complete(
    query: Seq<char>,
    cur: int,
    inp: char,
    extra: int,
    deleted: bool,
    target: int,
)
    requires
        0 <= cur,
        query.len() <= usize::MAX,
        0 <= extra < u64::MAX,
        cur <= query.len() ==> extra + query.len() - cur + 1 <= u64::MAX,
        cur <= target <= query.len(),
    ensures
        ({
            let edges = levenshtein_edges(query, cur, inp, extra, deleted);
            &&& !deleted && target == cur ==> has_edge(edges, cur, extra + 1)
            &&& cur < target ==> has_edge(edges, target, extra + (target - cur))
            &&& cur < target && query[target - 1] == inp ==> has_edge(
                edges,
                target,
                extra + (target - 1 - cur),
            )
        }),
    decreases query.len() - cur,
{
    let matched = match_edge(query, cur, inp, extra);
    let substituted = substitute_edge(query, cur, extra);
    let inserted = insert_edge(cur, extra, deleted);
    let head = matched + substituted + inserted;
    let rest = edges_after_delete(query, cur, inp, extra);
    let all = levenshtein_edges(query, cur, inp, extra, deleted);
    assert(all == head + rest);
    if target == cur {
        if !deleted {
            let j = head.len() - 1;
            assert(all[j] == head[j]);
            assert(head[j] == (cur as usize, (extra + 1) as u64));
        }
    } else if target == cur + 1 {
        let j = matched.len() as int;
        assert(all[j] == head[j]);
        assert(head[j] == ((cur + 1) as usize, (extra + 1) as u64));
        if query[cur] == inp {
            assert(all[0] == head[0]);
            assert(head[0] == ((cur + 1) as usize, extra as u64));
        }
    } else {
        lemma_edges_complete(query, cur + 1, inp, extra + 1, true, target);
        let deeper = levenshtein_edges(query, cur + 1, inp, extra + 1, true);
        assert(rest == deeper);
        let j = choose|j: int|
            0 <= j < deeper.len() && #[trigger] deeper[j] == (
                target as usize,
                (extra + 1 + (target - cur - 1)) as u64,
            );
        assert(all[head.len() + j] == deeper[j]);
        if query[target - 1] == inp {
            let m = choose|m: int|
                0 <= m < deeper.len() && #[trigger] deeper[m] == (
                    target as usize,
                    (extra + 1 + (target - 1 - cur - 1)) as u64,
                );
            assert(all[head.len() + m] == deeper[m]);
        }
    }
}

/// A frontier of different positions, none beyond `n`, has `n + 1`
/// entries at most.
pub proof fn lemma_positions_fit(frontier: Seq<(usize, u64)>, n: nat)
    requires
        no_repeated_state(frontier),
        forall|i: int| 0 <= i < frontier.len() ==> (#[trigger] frontier[i]).0 <= n,
    ensures
        frontier.len() <= n + 1,
    decreases n,
{
    if exists|i: int| 0 <= i < frontier.len() && (#[trigger] frontier[i]).0 == n {
        let at = choose|i: int| 0 <= i < frontier.len() && (#[trigger] frontier[i]).0 == n;
        let others = frontier.remove(at);
        assert forall|i: int| 0 <= i < others.len() implies #[trigger] others[i] == frontier[if i
            < at {
            i
        } else {
            i + 1
        }] by {}
        assert forall|i: int| 0 <= i < others.len() implies (#[trigger] others[i]).0 != n by {
            let i0 = if i < at { i } else { i + 1 };
            assert(frontier[i0].0 != frontier[at].0);
        }
        assert(no_repeated_state(others)) by {
            assert forall|a: int, b: int| 0 <= a < b < others.len() implies (
            #[trigger] others[a]).0 != (#[trigger] others[b]).0 by {
                let a0 = if a < at { a } else { a + 1 };
                let b0 = if b < at { b } else { b + 1 };
                assert(frontier[a0].0 != frontier[b0].0);
            }
        }
        if n == 0 {
            if others.len() > 0 {
                assert(others[0].0 != 0);
            }
        } else {
            lemma_positions_fit(others, (n - 1) as nat);
        }
    } else {
        if n == 0 {
            if frontier.len() > 0 {
                assert(frontier[0].0 == 0);
            }
        } else {
            lemma_positions_fit(frontier, (n - 1) as nat);
        }
    }
}

/// An edge from a position that was reached at an aligned cost leads to
/// a position within the query, whose aligned cost after the input
/// character is at most that cost and the cost of the edge.
pub proof fn lemma_edge_at_least_aligned(
    query: Seq<char>,
    key: Seq<char>,
    inp: char,
    from: int,
    j: int,
)
    requires
        0 <= from <= query.len() <= usize::MAX,
        query.len() + 1 <= u64::MAX,
        aligned(query.take(from), key) is Some,
        0 <= j < levenshtein_edges(query, from, inp, 0, false).len(),
    ensures
        ({
            let edge = levenshtein_edges(query, from, inp, 0, false)[j];
            &&& edge.0 <= query.len()
            &&& aligned(query.take(edge.0 as int), key.push(inp)) matches Some(v) && v <= aligned(
                query.take(from),
                key,
            )->0 + edge.1
        }),
{
    let edge = levenshtein_edges(query, from, inp, 0, false)[j];
    let target = edge.0 as int;
    lemma_edges_sound(query, from, inp, 0, false, j);
    assert(key.push(inp).drop_last() == key);
    assert(key.push(inp).last() == inp);
    if target > from {
        lemma_distance_from_prefix(query, key, from, target - 1);
        assert(query.take(target).drop_last() == query.take(target - 1));
        assert(query.take(target).last() == query[target - 1]);
    }
}

/// An aligned cost after one more input character is attained by an
/// edge: from some position reached at an aligned cost before that
/// character, at a cost that makes up the difference.
pub proof fn lemma_aligned_has_edge(query: Seq<char>, key: Seq<char>, inp: char, target: int) -> (r:
    (int, int))
    requires
        0 <= target <= query.len() <= usize::MAX,
        query.len() + 1 <= u64::MAX,
        aligned(query.take(target), key.push(inp)) is Some,
    ensures
        0 <= r.0 <= query.len(),
        0 <= r.1,
        aligned(query.take(r.0), key) is Some,
        has_edge(levenshtein_edges(query, r.0, inp, 0, false), target, r.1),
        aligned(query.take(r.0), key)->0 + r.1 == aligned(query.take(target), key.push(inp))->0,
{
    assert(key.push(inp).drop_last() == key);
    assert(key.push(inp).last() == inp);
    let v = aligned(query.take(target), key.push(inp))->0;
    let inserted = aligned(query.take(target), key);
    if inserted is Some && inserted->0 + 1 == v {
        lemma_edges_complete(query, target, inp, 0, false, target);
        (target, 1)
    } else {
        assert(query.take(target).drop_last() == query.take(target - 1));
        assert(query.take(target).last() == query[target - 1]);
        let from = lemma_distance_attained(query, key, target - 1);
        lemma_edges_complete(query, from, inp, 0, false, target);
        (from, target - 1 - from + substitution_cost(query[target - 1], inp))
    }
}

/// Whether `frontier` holds, for the key read so far, every position of
/// the query that has an aligned cost, once, at that cost, and nothing else.
pub open spec fn measures(query: Seq<char>, key: Seq<char>, frontier: Seq<(usize, u64)>) -> bool {
    &&& no_repeated_state(frontier)
    &&& forall|r: int|
        0 <= r < frontier.len() ==> (#[trigger] frontier[r]).0 <= query.len() && aligned(
            query.take(frontier[r].0 as int),
            key,
        ) == Some(frontier[r].1 as nat)
    &&& forall|i: int|
        0 <= i <= query.len() && (#[trigger] aligned(query.take(i), key)) is Some
            ==> found_contains(frontier, i as usize)
}

/// The property of a position that it lies within a query of length `n`.
pub open spec fn within(n: nat) -> spec_fn(usize) -> bool {
    |s: usize| s <= n
}

/// The agenda of a step from a frontier that measures the key read so
/// far is sorted, leads to positions within the query, and those fit a
/// beam of more than its length and one.
proof fn lemma_step_agenda(
    nfa: &WeightedLevenshteinNFA,
    key: Seq<char>,
    inp: char,
    frontier: Seq<(usize, u64)>,
)
    requires
        nfa.query().len() + 1 <= u64::MAX,
        measures(nfa.query(), key, frontier),
    ensures
        nfa.query().len() <= usize::MAX,
        agenda_sorted(initial_agenda(nfa, frontier, inp)),
        targets_within(initial_agenda(nfa, frontier, inp), within(nfa.query().len())),
        universe_fits(within(nfa.query().len()), nfa.query().len() + 1),
        agenda_above(initial_agenda(nfa, frontier, inp), 0),
{
    let query = nfa.query();
    let n = query.len();
    let agenda = initial_agenda(nfa, frontier, inp);
    let universe = within(n);
    nfa.lemma_query_len();
    assert forall|k: int| 0 <= k < agenda.len() implies edges_sorted(
        (#[trigger] agenda[k]).edges,
    ) by {
        lemma_levenshtein_edges_sorted(query, frontier[k].0 as int, inp, 0, false);
    }
    assert forall|k: int, j: int|
        0 <= k < agenda.len() && 0 <= j < agenda[k].edges.len() implies universe(
        (#[trigger] agenda[k].edges[j]).0,
    ) by {
        lemma_edge_at_least_aligned(query, key, inp, frontier[k].0 as int, j);
    }
    assert forall|f: Seq<(usize, u64)>| #[trigger]
        no_repeated_state(f) && states_within(f, universe) implies f.len() <= n + 1 by {
        assert forall|i: int| 0 <= i < f.len() implies (#[trigger] f[i]).0 <= n by {
            assert(universe(f[i].0));
        }
        lemma_positions_fit(f, n);
    }
}

/// One step keeps the measure: from a frontier that holds the aligned
/// costs for the key read so far, a step without pruning on one more
/// character reaches the frontier that holds the aligned costs for the
/// longer key.
pub proof fn lemma_step_measures(
    adapter: &BeamSearchAdapter<WeightedLevenshteinNFA>,
    key: Seq<char>,
    inp: char,
    frontier: Seq<(usize, u64)>,
)
    requires
        adapter.threshold == u64::MAX,
        adapter.aut.query().len() + 1 < adapter.beam_size,
        adapter.aut.query().len() + key.len() + 1 <= u64::MAX,
        measures(adapter.aut.query(), key, frontier),
    ensures
        measures(adapter.aut.query(), key.push(inp), adapter.spec_accept(frontier, inp)),
{
    let nfa = &adapter.aut;
    let query = nfa.query();
    let n = query.len();
    let longer = key.push(inp);
    let agenda = initial_agenda(nfa, frontier, inp);
    let next = adapter.spec_accept(frontier, inp);
    let empty = Seq::<(usize, u64)>::empty();
    lemma_step_agenda(nfa, key, inp, frontier);
    lemma_accept_frontier(adapter, frontier, inp);
    lemma_beam_search_covers(nfa, agenda, empty, adapter.beam_size, within(n), n + 1, 0);
    assert(agenda_covered(agenda, next));
    // Every position with an aligned cost is in the frontier, at that cost at most.
    assert forall|i: int|
        0 <= i <= n && (#[trigger] aligned(query.take(i), longer)) is Some implies covered(
        next,
        i as usize,
        aligned(query.take(i), longer)->0 as int,
    ) by {
        let (from, cost) = lemma_aligned_has_edge(query, key, inp, i);
        lemma_distance_bound(query.take(i), longer);
        assert(found_contains(frontier, from as usize));
        let k = choose|k: int|
            0 <= k < frontier.len() && (#[trigger] frontier[k]).0 == from as usize;
        let edges = levenshtein_edges(query, from, inp, 0, false);
        let j = choose|j: int|
            0 <= j < edges.len() && #[trigger] edges[j] == (i as usize, cost as u64);
        assert(agenda[k].edges[j] == (i as usize, cost as u64));
        assert(agenda[k].base + agenda[k].edges[j].1 == aligned(query.take(i), longer)->0);
    }
    // Every entry of the frontier is at a position within the query, at its aligned cost.
    assert forall|r: int| 0 <= r < next.len() implies (#[trigger] next[r]).0 <= n && aligned(
        query.take(next[r].0 as int),
        longer,
    ) == Some(next[r].1 as nat) by {
        let target = next[r].0;
        let weight = next[r].1;
        assert(reached_by_edge(nfa, frontier, inp, target, weight));
        let (k, j) = choose|k: int, j: int|
            0 <= k < frontier.len() && 0 <= j < nfa.spec_accept(frontier[k].0, inp).len()
                && #[trigger] nfa.spec_accept(frontier[k].0, inp)[j] == (
                target,
                (weight - frontier[k].1) as u64,
            ) && frontier[k].1 <= weight;
        lemma_edge_at_least_aligned(query, key, inp, frontier[k].0 as int, j);
        let v = aligned(query.take(target as int), longer)->0;
        assert(v <= weight);
        assert(covered(next, target, v as int));
        let other = choose|o: int|
            0 <= o < next.len() && (#[trigger] next[o]).0 == target && next[o].1 <= v;
        assert(other == r);
    }
    assert forall|i: int|
        0 <= i <= n && (#[trigger] aligned(query.take(i), longer)) is Some implies found_contains(
        next,
        i as usize,
    ) by {
        assert(covered(next, i as usize, aligned(query.take(i), longer)->0 as int));
    }
}

/// What the automaton measures: with the greatest threshold and a beam
/// wider than the query is long, the frontier after a key holds every
/// position of the query that has an aligned cost for the key, once, at
/// that cost, and nothing else.
pub proof fn lemma_frontier_measures(
    adapter: &BeamSearchAdapter<WeightedLevenshteinNFA>,
    key: Seq<char>,
)
    requires
        adapter.threshold == u64::MAX,
        adapter.aut.query().len() + 1 < adapter.beam_size,
        adapter.aut.query().len() + key.len() <= u64::MAX,
    ensures
        measures(adapter.aut.query(), key, run(adapter, key)),
    decreases key.len(),
{
    let query = adapter.aut.query();
    if key.len() == 0 {
        let start = adapter.spec_start();
        assert(run(adapter, key) == start);
        assert(query.take(0).len() == 0);
        assert(start[0] == (0usize, 0u64));
        assert forall|i: int|
            0 <= i <= query.len() && (#[trigger] aligned(query.take(i), key))
                is Some implies found_contains(start, i as usize) by {
            assert(query.take(i).len() == i);
            assert(start[0].0 == i as usize);
        }
    } else {
        lemma_frontier_measures(adapter, key.drop_last());
        lemma_step_measures(adapter, key.drop_last(), key.last(), run(adapter, key.drop_last()));
        assert(key.drop_last().push(key.last()) == key);
    }
}

/// Edit distance without pruning: with the greatest threshold and a beam
/// wider than the query is long, the least cost among the matching
/// entries of the frontier after a key is the least cost of an edit
/// script in which the last character of the query takes part, and the
/// frontier has no matching entry where there is no such script.
pub proof fn lemma_least_weight_is_aligned(
    adapter: &BeamSearchAdapter<WeightedLevenshteinNFA>,
    key: Seq<char>,
)
    requires
        adapter.threshold == u64::MAX,
        adapter.aut.query().len() + 1 < adapter.beam_size,
        adapter.aut.query().len() + key.len() <= u64::MAX,
    ensures
        adapter.spec_is_match(run(adapter, key)) <==> aligned(adapter.aut.query(), key) is Some,
        aligned(adapter.aut.query(), key) matches Some(v) ==> v <= u64::MAX
            && is_least_matching_weight(&adapter.aut, run(adapter, key), v as u64),
{
    let query = adapter.aut.query();
    let n = query.len() as int;
    let frontier = run(adapter, key);
    lemma_frontier_measures(adapter, key);
    lemma_distance_bound(query, key);
    adapter.aut.lemma_query_len();
    assert(query.take(n) == query);
    if adapter.spec_is_match(frontier) {
        let r = choose|r: int|
            0 <= r < frontier.len() && adapter.aut.spec_is_match((#[trigger] frontier[r]).0);
        assert(frontier[r].0 as int == n);
    }
    if aligned(query, key) is Some {
        let v = aligned(query, key)->0;
        assert(aligned(query.take(n), key) is Some);
        assert(found_contains(frontier, n as usize));
        let r = choose|r: int| 0 <= r < frontier.len() && (#[trigger] frontier[r]).0 == n as usize;
        assert(adapter.aut.spec_is_match(frontier[r].0));
        assert(frontier[r].1 == v);
        assert forall|j: int|
            0 <= j < frontier.len() && adapter.aut.spec_is_match(
                (#[trigger] frontier[j]).0,
            ) implies v <= frontier[j].1 by {
            assert(frontier[j].0 as int == n);
        }
    }
}

/// Levenshtein correctness without pruning: with the greatest threshold
/// and a beam wider than the query is long, wherever some cheapest edit
/// script keeps or substitutes the last character of the query, the least
/// cost among the matching entries of the frontier after a key is the
/// edit distance between the query and the key. So it is where the query
/// is empty, and where the query and the key end in the same character.
pub proof fn lemma_least_weight_is_distance(
    adapter: &BeamSearchAdapter<WeightedLevenshteinNFA>,
    key: Seq<char>,
)
    requires
        adapter.threshold == u64::MAX,
        adapter.aut.query().len() + 1 < adapter.beam_size,
        adapter.aut.query().len() + key.len() <= u64::MAX,
        aligned(adapter.aut.query(), key) == Some(levenshtein(adapter.aut.query(), key)),
    ensures
        is_least_matching_weight(
            &adapter.aut,
            run(adapter, key),
            levenshtein(adapter.aut.query(), key) as u64,
        ),
{
    lemma_least_weight_is_aligned(adapter, key);
}

/// Levenshtein correctness of the matcher over bytes: with the greatest
/// threshold and a beam wider than the query is long, wherever some
/// cheapest edit script keeps or substitutes the last character of the
/// query, the least cost among the matching entries that the matcher has
/// reached after the UTF-8 encoding of a key is the edit distance between
/// the query and the key.
pub proof fn lemma_matcher_weight_is_distance(stack: &LevenshteinStack, key: Seq<char>)
    requires
        ((stack.0).0).threshold == u64::MAX,
        stack_automaton(stack).query().len() + 1 < ((stack.0).0).beam_size,
        stack_automaton(stack).query().len() + key.len() <= u64::MAX,
        aligned(stack_automaton(stack).query(), key) == Some(
            levenshtein(stack_automaton(stack).query(), key),
        ),
    ensures
        is_least_matching_weight(
            stack_automaton(stack),
            run(stack, encode_utf8(key)).0,
            levenshtein(stack_automaton(stack).query(), key) as u64,
        ),
{
    lemma_automaton_adapter_run(stack, encode_utf8(key));
    lemma_round_trip(&stack.0, key);
    lemma_least_weight_is_distance(&(stack.0).0, key);
}

} // verus!
