use fuzzy_fst::adapters::{
    least_matching_weight, replay, BeamSearchAdapter, DFAUtf8Adapter, EdgeIter, WeightedNFA, DFA,
};
use fuzzy_fst::ext::map::MapExt;
use fuzzy_fst::ext::raw::FstExt;
use fuzzy_fst::levenshtein::weighted::{
    get_levenshtein_weights, mk_levenshtein, LevenshteinNextStates, WeightedLevenshteinNFA,
};

fn dictionary(keys: &[&str]) -> fst::Map<Vec<u8>> {
    let mut sorted: Vec<&str> = keys.to_vec();
    sorted.sort();
    let mut entries: Vec<(String, u64)> = Vec::new();
    for key in &sorted {
        entries.push((key.to_string(), 100 + key.len() as u64));
    }
    fst::Map::from_iter(entries).unwrap()
}

fn search(
    map: &fst::Map<Vec<u8>>,
    query: &str,
    threshold: u64,
    beam: usize,
) -> Vec<(String, u64, u64)> {
    let costs = mk_levenshtein(query, threshold, beam);
    let mut stream = map.search_state_stream(mk_levenshtein(query, threshold, beam));
    let mut found = Vec::new();
    loop {
        let (key, value) = match stream.next() {
            Some((key, value, _state)) => (key.to_vec(), value),
            None => break,
        };
        let cost = get_levenshtein_weights(&costs, &key);
        found.push((String::from_utf8(key).unwrap(), value, cost));
    }
    found
}

fn keys_and_costs(found: &[(String, u64, u64)]) -> Vec<(String, u64)> {
    found.iter().map(|(k, _, c)| (k.clone(), *c)).collect()
}

fn collect_edges(mut edges: LevenshteinNextStates) -> Vec<(usize, u64)> {
    let mut all = Vec::new();
    loop {
        match edges.next_edge() {
            Some(edge) => all.push(edge),
            None => break,
        }
    }
    all
}

#[test]
fn levenshtein_edges_come_in_fixed_order() {
    let nfa = WeightedLevenshteinNFA::new("abc");
    assert_eq!(
        collect_edges(nfa.accept(&0, 'a')),
        vec![(1, 0), (1, 1), (0, 1), (2, 2), (3, 3)]
    );
    assert_eq!(
        collect_edges(nfa.accept(&0, 'b')),
        vec![(1, 1), (0, 1), (2, 1), (2, 2), (3, 3)]
    );
    assert_eq!(collect_edges(nfa.accept(&2, 'c')), vec![(3, 0), (3, 1), (2, 1)]);
    assert_eq!(collect_edges(nfa.accept(&3, 'x')), vec![(3, 1)]);
}

#[test]
fn levenshtein_edges_stay_exhausted() {
    let nfa = WeightedLevenshteinNFA::new("a");
    let mut edges = nfa.accept(&1, 'z');
    assert_eq!(edges.next_edge(), Some((1, 1)));
    assert_eq!(edges.next_edge(), None);
    assert_eq!(edges.next_edge(), None);
}

#[test]
fn levenshtein_edges_of_empty_query() {
    let nfa = WeightedLevenshteinNFA::new("");
    assert_eq!(collect_edges(nfa.accept(&0, 'q')), vec![(0, 1)]);
    assert!(nfa.is_match(&0));
}

#[test]
fn levenshtein_predicates() {
    let nfa = WeightedLevenshteinNFA::new("héé");
    assert_eq!(nfa.start(), 0);
    assert!(!nfa.is_match(&2));
    assert!(nfa.is_match(&3));
    assert!(nfa.can_match(&7));
    assert!(!nfa.will_always_match(&3));
    assert!(nfa.same_state(&2, &2));
    assert!(!nfa.same_state(&2, &3));
    assert_eq!(nfa.clone_state(&5), 5);
}

#[test]
fn query_abc_threshold_one() {
    let map = dictionary(&["abc", "abd", "axc", "ab", "abcd", "zzz"]);
    let found = search(&map, "abc", 1, 64);
    assert_eq!(
        keys_and_costs(&found),
        vec![
            ("abc".to_string(), 0),
            ("abcd".to_string(), 1),
            ("abd".to_string(), 1),
            ("axc".to_string(), 1),
        ]
    );
    assert!(found.iter().all(|(k, _, _)| k != "zzz"));
}

#[test]
fn values_come_with_the_keys() {
    let map = dictionary(&["abc", "abd", "axc", "ab", "abcd", "zzz"]);
    let found = search(&map, "abc", 1, 64);
    let values: Vec<u64> = found.iter().map(|(_, v, _)| *v).collect();
    assert_eq!(values, vec![103, 104, 103, 103]);
}

#[test]
fn a_key_that_ends_before_the_query_needs_a_substitution() {
    // The last character of the query is never deleted: "ab" reaches the end
    // of "abc" only by deleting 'b' and substituting 'c', at cost 2.
    let map = dictionary(&["abc", "ab"]);
    assert_eq!(keys_and_costs(&search(&map, "abc", 1, 64)), vec![("abc".to_string(), 0)]);
    assert_eq!(
        keys_and_costs(&search(&map, "abc", 2, 64)),
        vec![("ab".to_string(), 2), ("abc".to_string(), 0)]
    );
}

#[test]
fn empty_query_matches_short_keys_at_their_length() {
    let map = dictionary(&["a", "ab", "abc", "b", "zz", "zzzz", "é"]);
    let found = search(&map, "", 2, 64);
    assert_eq!(
        keys_and_costs(&found),
        vec![
            ("a".to_string(), 1),
            ("ab".to_string(), 2),
            ("b".to_string(), 1),
            ("zz".to_string(), 2),
            ("é".to_string(), 1),
        ]
    );
}

#[test]
fn the_empty_key_is_never_yielded() {
    let map = dictionary(&["", "a"]);
    let found = search(&map, "", 2, 64);
    assert_eq!(keys_and_costs(&found), vec![("a".to_string(), 1)]);
}

#[test]
fn cafe_with_and_without_accent() {
    let aut = mk_levenshtein("café", 2, 64);
    assert_eq!("café".len(), 5);
    assert_eq!(get_levenshtein_weights(&aut, "cafe".as_bytes()), 1);
    assert_eq!(get_levenshtein_weights(&aut, "café".as_bytes()), 0);

    let bytes = "café".as_bytes();
    let before_last = replay(&aut, &bytes[..4]);
    assert_eq!(before_last.1, vec![0xc3]);
    assert!(!aut.is_match(&before_last));
    assert!(aut.can_match(&before_last));
    let whole = replay(&aut, bytes);
    assert!(whole.1.is_empty());
    assert!(aut.is_match(&whole));
}

#[test]
fn beam_of_one_keeps_one_state() {
    let aut = mk_levenshtein("abc", 1, 1);
    let after_ab = replay(&aut, b"ab");
    assert!(after_ab.0.len() <= 1);
    assert_eq!(after_ab.0, vec![(2, 0)]);
    let map = dictionary(&["abd", "axc", "abc"]);
    let found = search(&map, "abc", 1, 1);
    assert!(found.contains(&("abc".to_string(), 103, 0)));
}

#[test]
fn frontier_after_a_step_is_sound_deduplicated_and_bounded() {
    let adapter = BeamSearchAdapter {
        aut: WeightedLevenshteinNFA::new("abc"),
        threshold: 1,
        beam_size: 64,
    };
    let start = adapter.start();
    assert_eq!(start, vec![(0, 0)]);
    let after_a = adapter.accept(&start, 'a');
    assert_eq!(after_a, vec![(1, 0), (0, 1)]);
    let after_ab = adapter.accept(&after_a, 'b');
    assert_eq!(after_ab, vec![(2, 0), (1, 1)]);
    for frontier in [&after_a, &after_ab] {
        for (i, (state, weight)) in frontier.iter().enumerate() {
            assert!(*weight <= 1);
            assert!(frontier.iter().skip(i + 1).all(|(other, _)| other != state));
        }
        assert!(frontier.len() <= 64);
    }
}

#[test]
fn frontier_costs_rise_in_discovery_order() {
    let adapter = BeamSearchAdapter {
        aut: WeightedLevenshteinNFA::new("kitten"),
        threshold: 10,
        beam_size: 64,
    };
    let mut state = adapter.start();
    for chr in "sitting".chars() {
        state = adapter.accept(&state, chr);
        assert!(state.windows(2).all(|pair| pair[0].1 <= pair[1].1));
    }
}

#[test]
fn beam_stops_admitting_at_its_size() {
    let adapter = BeamSearchAdapter {
        aut: WeightedLevenshteinNFA::new("abcdef"),
        threshold: 10,
        beam_size: 3,
    };
    let next = adapter.accept(&adapter.start(), 'x');
    assert_eq!(next, vec![(1, 1), (0, 1), (2, 2)]);
}

#[test]
fn an_edge_above_the_threshold_ends_its_sequence() {
    let adapter = BeamSearchAdapter {
        aut: WeightedLevenshteinNFA::new("abc"),
        threshold: 0,
        beam_size: 64,
    };
    assert_eq!(adapter.accept(&adapter.start(), 'a'), vec![(1, 0)]);
    assert_eq!(adapter.accept(&adapter.start(), 'x'), vec![]);
    let dead: Vec<(usize, u64)> = vec![];
    assert!(!adapter.can_match(&dead));
    assert!(!adapter.is_match(&dead));
    assert_eq!(adapter.accept(&dead, 'a'), vec![]);
}

#[test]
fn unbounded_threshold_and_beam_give_edit_distance() {
    let cases = [
        ("kitten", "sitting", 3),
        ("abc", "abc", 0),
        ("abc", "xbc", 1),
        ("abc", "bc", 1),
        ("abc", "aXbc", 1),
        ("flaw", "lawn", 2),
        ("", "abc", 3),
    ];
    for (query, key, distance) in cases {
        let aut = mk_levenshtein(query, u64::MAX, usize::MAX);
        assert_eq!(get_levenshtein_weights(&aut, key.as_bytes()), distance);
    }
}

#[test]
fn utf8_adapter_follows_the_characters() {
    let text = "aé€😀z";
    let inner = BeamSearchAdapter {
        aut: WeightedLevenshteinNFA::new("aé€😀"),
        threshold: 3,
        beam_size: 16,
    };
    let outer = DFAUtf8Adapter(BeamSearchAdapter {
        aut: WeightedLevenshteinNFA::new("aé€😀"),
        threshold: 3,
        beam_size: 16,
    });
    let mut by_chars = inner.start();
    let mut by_bytes = outer.start();
    for chr in text.chars() {
        let mut encoded = [0u8; 4];
        let bytes = chr.encode_utf8(&mut encoded).as_bytes().to_vec();
        for (i, byte) in bytes.iter().enumerate() {
            by_bytes = outer.accept(&by_bytes, *byte);
            if i + 1 < bytes.len() {
                assert_eq!(by_bytes.0, by_chars);
                assert_eq!(by_bytes.1, bytes[..i + 1].to_vec());
                assert!(!outer.is_match(&by_bytes));
            }
        }
        by_chars = inner.accept(&by_chars, chr);
        assert_eq!(by_bytes.0, by_chars);
        assert!(by_bytes.1.is_empty());
        assert_eq!(outer.is_match(&by_bytes), inner.is_match(&by_chars));
    }
}

#[test]
fn utf8_adapter_keeps_bytes_that_do_not_decode() {
    let outer = DFAUtf8Adapter(BeamSearchAdapter {
        aut: WeightedLevenshteinNFA::new("a"),
        threshold: 1,
        beam_size: 4,
    });
    let start = outer.start();
    let stuck = outer.accept(&start, 0x80);
    assert_eq!(stuck.0, start.0);
    assert_eq!(stuck.1, vec![0x80]);
    let more = outer.accept(&stuck, b'a');
    assert_eq!(more.0, start.0);
    assert_eq!(more.1, vec![0x80, b'a']);
    assert!(outer.can_match(&more));
    assert!(!outer.will_always_match(&more));
    let copy = outer.clone_state(&more);
    assert_eq!(copy, more);
}

#[test]
fn keys_come_in_lexicographic_order() {
    let map = dictionary(&["b", "a", "ab", "abc", "ac", "ba", "c", "aa", "aab"]);
    let found = search(&map, "ab", 2, 64);
    let keys: Vec<String> = found.iter().map(|(k, _, _)| k.clone()).collect();
    assert!(keys.windows(2).all(|pair| pair[0].as_bytes() < pair[1].as_bytes()));
    assert_eq!(keys, vec!["a", "aa", "aab", "ab", "abc", "ac", "b", "ba", "c"]);
}

#[test]
fn no_key_below_a_dead_prefix_is_yielded() {
    let map = dictionary(&["abc", "abcde", "xbc", "xyc", "xyz", "xyzabc"]);
    let found = search(&map, "abc", 1, 64);
    let aut = mk_levenshtein("abc", 1, 64);
    for (key, _, _) in &found {
        for n in 0..=key.len() {
            assert!(aut.can_match(&replay(&aut, &key.as_bytes()[..n])));
        }
    }
    assert!(!aut.can_match(&replay(&aut, b"xy")));
    assert_eq!(
        keys_and_costs(&found),
        vec![("abc".to_string(), 0), ("xbc".to_string(), 1)]
    );
}

#[test]
fn raw_stream_yields_outputs_and_states() {
    let map = dictionary(&["abc", "abd"]);
    let aut = mk_levenshtein("abc", 1, 64);
    let mut stream = map.as_fst().search_state_stream(mk_levenshtein("abc", 1, 64));
    let first = stream.next().map(|(k, v, s)| (k.to_vec(), v, s));
    let (key, value, state) = first.unwrap();
    assert_eq!(key, b"abc".to_vec());
    assert_eq!(value, 103);
    assert_eq!(state, replay(&aut, b"abc"));
    assert_eq!(least_matching_weight(&WeightedLevenshteinNFA::new("abc"), &state.0), Some(0));
    let second = stream.next().map(|(k, v, _)| (k.to_vec(), v));
    assert_eq!(second, Some((b"abd".to_vec(), 103)));
    assert!(stream.next().is_none());
    assert!(stream.next().is_none());
}

#[test]
fn stream_over_an_empty_dictionary() {
    let map = dictionary(&[]);
    assert!(search(&map, "abc", 3, 64).is_empty());
}

#[test]
fn utf8_adapter_never_decodes_a_broken_start() {
    let outer = DFAUtf8Adapter(BeamSearchAdapter {
        aut: WeightedLevenshteinNFA::new("abc"),
        threshold: 1,
        beam_size: 4,
    });
    let mut state = outer.start();
    let inner = state.0.clone();
    for n in 1..=6 {
        state = outer.accept(&state, 0x80);
        assert_eq!(state.0, inner);
        assert_eq!(state.1.len(), n);
        assert!(!outer.is_match(&state));
    }
}

#[test]
fn stream_agrees_with_running_the_automaton_on_every_key() {
    let mut keys: Vec<String> = Vec::new();
    let letters = ["a", "b", "c"];
    let mut level: Vec<String> = vec![String::new()];
    for _ in 0..4 {
        let mut next = Vec::new();
        for prefix in &level {
            for letter in letters {
                next.push(format!("{}{}", prefix, letter));
            }
        }
        keys.extend(next.iter().cloned());
        level = next;
    }
    let refs: Vec<&str> = keys.iter().map(|k| k.as_str()).collect();
    let map = dictionary(&refs);
    let aut = mk_levenshtein("abca", 1, 64);
    let mut expected: Vec<(String, u64)> = Vec::new();
    let mut sorted = keys.clone();
    sorted.sort();
    for key in &sorted {
        let bytes = key.as_bytes();
        let alive = (0..bytes.len()).all(|n| aut.can_match(&replay(&aut, &bytes[..n])));
        if alive && aut.is_match(&replay(&aut, bytes)) {
            expected.push((key.clone(), get_levenshtein_weights(&aut, bytes)));
        }
    }
    assert_eq!(keys_and_costs(&search(&map, "abca", 1, 64)), expected);
    assert!(expected.contains(&("abca".to_string(), 0)));
    assert!(!expected.iter().any(|(k, _)| k == "abc"));
    assert!(expected.contains(&("bca".to_string(), 1)));
}
