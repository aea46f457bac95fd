use fuzzy_fst::adapters::{replay, EdgeIter, FollowEpsilonNFA, WeightedNFA, DFA};
use fuzzy_fst::hfst::{
    get_weights, mk_stack, same_bytes, BasicTransition, HfstBasicTransducerBox, NextStates,
    TransducerEdges,
};

const EPSILON: &[u8] = b"@_EPSILON_SYMBOL_@";

fn arc(symbol: &[u8], target: u32, weight: u64) -> BasicTransition {
    BasicTransition { symbol: symbol.to_vec(), target, weight }
}

fn drain(mut edges: TransducerEdges) -> Vec<((u64, Vec<u8>), u64)> {
    let mut all = Vec::new();
    loop {
        match edges.next_edge() {
            Some(edge) => all.push(edge),
            None => break,
        }
    }
    all
}

fn one_symbol() -> HfstBasicTransducerBox {
    HfstBasicTransducerBox {
        transitions: vec![vec![arc("😀".as_bytes(), 1, 7)], vec![]],
        finals: vec![false, true],
    }
}

fn epsilon_chain() -> HfstBasicTransducerBox {
    HfstBasicTransducerBox {
        transitions: vec![vec![arc(EPSILON, 1, 0)], vec![arc(EPSILON, 2, 0)], vec![]],
        finals: vec![false, false, true],
    }
}

#[test]
fn step_keeps_the_order_of_the_transitions() {
    let t = HfstBasicTransducerBox {
        transitions: vec![vec![arc(b"a", 3, 5), arc(b"b", 4, 1), arc(b"a", 2, 9)]],
        finals: vec![false],
    };
    let (next, inp) = t.step(0, b"a".to_vec());
    let pairs: Vec<(u32, u64)> = next.iter().map(|n| (n.state, n.weight)).collect();
    assert_eq!(pairs, vec![(3, 5), (2, 9)]);
    assert_eq!(inp, b"a".to_vec());
    assert!(t.step(0, b"c".to_vec()).0.is_empty());
    assert!(t.step(5, b"a".to_vec()).0.is_empty());
}

#[test]
fn next_state_iter_hands_out_edges_in_order() {
    let t = one_symbol();
    let targets = vec![NextStates { state: 3, weight: 5 }, NextStates { state: 2, weight: 9 }];
    assert_eq!(drain(t.get_next_state_iter(targets)), vec![((3, vec![]), 5), ((2, vec![]), 9)]);
    let mut none = t.get_next_state_iter(vec![]);
    assert_eq!(none.next_edge(), None);
    assert_eq!(none.next_edge(), None);
}

#[test]
fn transducer_edges_in_given_order() {
    let edges = vec![((1, vec![1u8]), 4), ((2, vec![]), 0), ((3, vec![9u8, 9]), 2)];
    assert_eq!(drain(TransducerEdges::new(edges.clone())), edges);
}

#[test]
fn bytes_are_gathered_until_they_make_a_symbol() {
    let t = one_symbol();
    let bytes = "😀".as_bytes();
    assert_eq!(drain(t.accept(&(0, vec![]), bytes[0])), vec![((0, vec![bytes[0]]), 0)]);
    assert_eq!(
        drain(t.accept(&(0, bytes[..3].to_vec()), bytes[3])),
        vec![((1, vec![]), 7)]
    );
    assert_eq!(drain(t.accept(&(0, bytes[..3].to_vec()), b'x')), vec![]);
    assert_eq!(drain(t.accept(&(1, vec![]), b'x')), vec![((1, vec![b'x']), 0)]);
}

#[test]
fn transducer_predicates() {
    let t = one_symbol();
    assert_eq!(t.start(), (0, vec![]));
    assert!(t.is_match(&(1, vec![])));
    assert!(!t.is_match(&(1, vec![1])));
    assert!(!t.is_match(&(0, vec![])));
    assert!(!t.is_match(&(9, vec![])));
    assert!(t.can_match(&(9, vec![1, 2, 3])));
    assert!(!t.will_always_match(&(1, vec![])));
    assert!(t.same_state(&(1, vec![1, 2]), &(1, vec![1, 2])));
    assert!(!t.same_state(&(1, vec![1, 2]), &(1, vec![1, 3])));
    assert!(!t.same_state(&(1, vec![1, 2]), &(2, vec![1, 2])));
    assert_eq!(t.clone_state(&(4, vec![5, 6])), (4, vec![5, 6]));
    assert!(same_bytes(&vec![], &vec![]));
    assert!(!same_bytes(&vec![1], &vec![1, 2]));
}

#[test]
fn epsilon_edges_only_without_gathered_bytes() {
    let t = epsilon_chain();
    assert_eq!(drain(t.follow_epsilon(&(0, vec![]))), vec![((1, vec![]), 0)]);
    assert_eq!(drain(t.follow_epsilon(&(0, vec![1]))), vec![]);
    assert_eq!(drain(t.follow_epsilon(&(2, vec![]))), vec![]);
}

#[test]
fn three_bytes_of_a_four_byte_symbol() {
    let aut = mk_stack(one_symbol(), 10, 8);
    let bytes = "😀".as_bytes();
    let after_three = replay(&aut, &bytes[..3]);
    assert_eq!(after_three, vec![((0, bytes[..3].to_vec()), 0)]);
    assert_eq!(after_three[0].0 .1.len(), 3);
    assert!(!aut.is_match(&after_three));

    let wrong_fourth = aut.accept(&after_three, b'x');
    assert_eq!(wrong_fourth, vec![]);
    let fifth = aut.accept(&wrong_fourth, b'y');
    assert_eq!(fifth, vec![]);
    assert!(!aut.can_match(&fifth));

    let whole = replay(&aut, bytes);
    assert_eq!(whole, vec![((1, vec![]), 7)]);
    assert!(aut.is_match(&whole));
    assert_eq!(get_weights(&aut, bytes), 7);
}

#[test]
fn a_byte_after_the_last_symbol_is_gathered() {
    let aut = mk_stack(one_symbol(), 10, 8);
    let mut input = "😀".as_bytes().to_vec();
    input.push(b'z');
    assert_eq!(replay(&aut, &input), vec![((1, vec![b'z']), 7)]);
}

#[test]
fn start_is_closed_under_epsilon_edges() {
    let aut = mk_stack(epsilon_chain(), 5, 8);
    let start = aut.start();
    assert_eq!(start, vec![((0, vec![]), 0), ((1, vec![]), 0), ((2, vec![]), 0)]);
    assert!(aut.is_match(&start));
    assert_eq!(get_weights(&aut, b""), 0);
}

#[test]
fn start_with_a_narrow_beam() {
    let two = mk_stack(epsilon_chain(), 5, 2);
    assert_eq!(two.start(), vec![((0, vec![]), 0), ((1, vec![]), 0)]);
    let one = mk_stack(epsilon_chain(), 5, 1);
    assert_eq!(one.start(), vec![((0, vec![]), 0), ((1, vec![]), 0)]);
}

#[test]
fn epsilon_edges_follow_an_input_edge() {
    let t = HfstBasicTransducerBox {
        transitions: vec![
            vec![arc(b"a", 1, 2)],
            vec![arc(EPSILON, 2, 3), arc(EPSILON, 0, 1)],
            vec![arc(EPSILON, 1, 0)],
        ],
        finals: vec![false, false, true],
    };
    let aut = mk_stack(t, 5, 8);
    assert_eq!(aut.start(), vec![((0, vec![]), 0)]);
    let after_a = replay(&aut, b"a");
    assert_eq!(after_a, vec![((1, vec![]), 2), ((2, vec![]), 5), ((0, vec![]), 3)]);
    assert!(aut.is_match(&after_a));
    assert_eq!(get_weights(&aut, b"a"), 5);
    for (i, (state, weight)) in after_a.iter().enumerate() {
        assert!(*weight <= 5);
        assert!(after_a.iter().skip(i + 1).all(|(other, _)| other != state));
    }
}

#[test]
fn epsilon_edges_above_the_threshold_are_left_out() {
    let t = HfstBasicTransducerBox {
        transitions: vec![vec![arc(b"a", 1, 2)], vec![arc(EPSILON, 2, 3)], vec![]],
        finals: vec![false, false, true],
    };
    let aut = mk_stack(t, 4, 8);
    let after_a = replay(&aut, b"a");
    assert_eq!(after_a, vec![((1, vec![]), 2)]);
    assert!(!aut.is_match(&after_a));
    assert!(aut.can_match(&after_a));
    assert!(!aut.will_always_match(&after_a));
    assert_eq!(aut.clone_state(&after_a), after_a);
}

#[test]
fn least_weight_among_matching_states() {
    let t = HfstBasicTransducerBox {
        transitions: vec![
            vec![arc(b"a", 1, 9), arc(b"a", 2, 4), arc(b"a", 3, 1)],
            vec![],
            vec![],
            vec![],
        ],
        finals: vec![false, true, true, false],
    };
    let aut = mk_stack(t, 100, 8);
    assert_eq!(replay(&aut, b"a"), vec![((1, vec![]), 9), ((2, vec![]), 4), ((3, vec![]), 1)]);
    assert_eq!(get_weights(&aut, b"a"), 4);
}

#[test]
fn costs_that_do_not_fit_are_left_out() {
    let t = HfstBasicTransducerBox {
        transitions: vec![
            vec![arc(b"a", 1, u64::MAX - 1)],
            vec![arc(b"b", 3, 1), arc(b"b", 2, 5), arc(b"c", 2, 5), arc(b"c", 3, 1)],
            vec![],
            vec![],
        ],
        finals: vec![false, false, true, true],
    };
    let aut = mk_stack(t, u64::MAX, 8);
    assert_eq!(replay(&aut, b"a"), vec![((1, vec![]), u64::MAX - 1)]);
    assert_eq!(replay(&aut, b"ab"), vec![((3, vec![]), u64::MAX)]);
    assert_eq!(replay(&aut, b"ac"), vec![]);
}
