use fuzzy_fst::adapters::{replay, DFA};
use fuzzy_fst::agenda::{pop_min, weight, AgendaItem};
use fuzzy_fst::ext::map::MapExt;
use fuzzy_fst::helpers::compare_weights;
use fuzzy_fst::hfst::TransducerEdges;
use fuzzy_fst::levenshtein::unweighted::{
    get_next_states, SimpleLevenshtein, SimpleLevenshteinState,
};
use std::cmp::Ordering;

fn pairs(states: &[SimpleLevenshteinState]) -> Vec<(usize, u64)> {
    states.iter().map(|s| (s.chars, s.distance)).collect()
}

#[test]
fn next_states_in_order() {
    let query: Vec<char> = "abc".chars().collect();
    let start = SimpleLevenshteinState { chars: 0, distance: 0 };
    assert_eq!(
        pairs(&get_next_states(&start, &query, 'a', 1)),
        vec![(0, 1), (1, 0), (1, 1)]
    );
    assert_eq!(
        pairs(&get_next_states(&start, &query, 'b', 2)),
        vec![(0, 1), (1, 2), (2, 1), (2, 2), (1, 1)]
    );
    assert_eq!(pairs(&get_next_states(&start, &query, 'b', 0)), vec![]);
    assert_eq!(pairs(&get_next_states(&start, &query, 'a', 0)), vec![(1, 0)]);
    let end = SimpleLevenshteinState { chars: 3, distance: 0 };
    assert_eq!(pairs(&get_next_states(&end, &query, 'x', 1)), vec![(3, 1)]);
    assert_eq!(pairs(&end.accept(&query, 'x', 1)), vec![(3, 1)]);
}

#[test]
fn simple_state_predicates() {
    let query: Vec<char> = "ab".chars().collect();
    let at_end = SimpleLevenshteinState { chars: 2, distance: 1 };
    assert!(at_end.is_match(&query, 1));
    assert!(!at_end.is_match(&query, 0));
    assert!(at_end.can_match(&query, 1));
    assert!(!at_end.can_match(&query, 0));
    let before = SimpleLevenshteinState { chars: 1, distance: 0 };
    assert!(!before.is_match(&query, 1));
    assert!(before.can_match(&query, 0));
}

#[test]
fn simple_levenshtein_over_bytes() {
    let aut = SimpleLevenshtein::new("café", 1);
    let start = aut.start();
    assert_eq!(pairs(&start.states), vec![(0, 0)]);
    assert!(start.buffer.is_empty());
    assert!(!aut.is_match(&start));
    assert!(aut.can_match(&start));
    assert!(!aut.will_always_match(&start));

    assert!(aut.is_match(&replay(&aut, "café".as_bytes())));
    assert!(aut.is_match(&replay(&aut, "cafe".as_bytes())));
    assert!(aut.is_match(&replay(&aut, "cafés".as_bytes())));
    assert!(aut.is_match(&replay(&aut, "cfé".as_bytes())));
    assert!(!aut.is_match(&replay(&aut, "caf".as_bytes())));
    assert!(!aut.is_match(&replay(&aut, "cfe".as_bytes())));

    let inside = replay(&aut, &"café".as_bytes()[..4]);
    assert_eq!(inside.buffer, vec![0xc3]);
    assert!(!aut.is_match(&inside));
    assert_eq!(pairs(&inside.states), pairs(&replay(&aut, b"caf").states));
    let copy = aut.clone_state(&inside);
    assert_eq!(copy.buffer, inside.buffer);
    assert_eq!(pairs(&copy.states), pairs(&inside.states));

    let dead = replay(&aut, b"xyz");
    assert!(!aut.can_match(&dead));
    assert!(!aut.can_match(&aut.accept(&dead, b'c')));
}

#[test]
fn simple_levenshtein_drives_a_stream() {
    let entries = vec![("ab", 1u64), ("abc", 2), ("abcd", 3), ("abd", 4), ("xyz", 5)];
    let map = fst::Map::from_iter(entries).unwrap();
    let mut stream = map.search_state_stream(SimpleLevenshtein::new("abc", 1));
    let mut found = Vec::new();
    loop {
        match stream.next() {
            Some((key, value, _)) => found.push((key.to_vec(), value)),
            None => break,
        }
    }
    assert_eq!(
        found,
        vec![
            (b"abc".to_vec(), 2),
            (b"abcd".to_vec(), 3),
            (b"abd".to_vec(), 4),
        ]
    );
}

#[test]
fn weights_compare_as_numbers() {
    assert_eq!(compare_weights(&1, &2), Ordering::Less);
    assert_eq!(compare_weights(&2, &2), Ordering::Equal);
    assert_eq!(compare_weights(&3, &2), Ordering::Greater);
    assert_eq!(compare_weights(&0, &u64::MAX), Ordering::Less);
}

fn item(base: u64, costs: &[u64]) -> AgendaItem<TransducerEdges> {
    let edges = costs.iter().map(|c| ((*c, vec![]), *c)).collect();
    AgendaItem::new(base, TransducerEdges::new(edges))
}

#[test]
fn agenda_item_reads_one_edge_ahead() {
    let mut it = item(10, &[3, 1]);
    assert_eq!(weight(&it), Some(13));
    assert_eq!(it.next(), Some(((3, vec![]), 3)));
    assert_eq!(weight(&it), Some(11));
    assert_eq!(it.next(), Some(((1, vec![]), 1)));
    assert_eq!(weight(&it), None);
    assert_eq!(it.next(), None);
    assert_eq!(weight(&item(u64::MAX, &[1])), None);
    assert_eq!(weight(&item(u64::MAX, &[0])), Some(u64::MAX));
}

#[test]
fn cheapest_item_leaves_first_and_ties_go_to_the_earliest() {
    let mut agenda = vec![item(5, &[2]), item(1, &[3]), item(0, &[]), item(4, &[0]), item(2, &[2])];
    let mut order = Vec::new();
    loop {
        match pop_min(&mut agenda) {
            Some(it) => order.push((it.base_weight, weight(&it))),
            None => break,
        }
    }
    assert_eq!(
        order,
        vec![(1, Some(4)), (4, Some(4)), (2, Some(4)), (5, Some(7)), (0, None)]
    );
    assert!(pop_min(&mut agenda).is_none());
}
