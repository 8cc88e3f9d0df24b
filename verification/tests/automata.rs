use mini_haskell::rlex::ast::char_class::{UnicodeCharClass, UnicodeCharRange};
use mini_haskell::rlex::ast::RegEx;
use mini_haskell::rlex::automata::builder::{Builder, NFAInput};

fn range(a: char, b: char) -> RegEx<UnicodeCharClass> {
    RegEx::Atom(UnicodeCharClass::from_single_range(UnicodeCharRange::new(a, b)))
}

fn single(c: char) -> RegEx<UnicodeCharClass> {
    RegEx::Atom(UnicodeCharClass::from_char(c))
}

fn hex_identifier(star: bool) -> RegEx<UnicodeCharClass> {
    let head = RegEx::Alt(vec![range('a', 'f'), range('A', 'F'), single('_')]);
    let tail = RegEx::Alt(vec![range('0', '9'), range('a', 'f'), range('A', 'F'), single('_')]);
    let repeated = RegEx::OneOrMore(Box::new(tail));
    let repeated = if star { RegEx::Optional(Box::new(repeated)) } else { repeated };
    RegEx::Concat(vec![head, repeated])
}

#[test]
fn test_nfa_builder() {
    let mut builder = Builder::new();
    let r = hex_identifier(false);
    let (cls, r) = r.classify_chars();
    let m = builder.build(&r);
    assert_eq!(cls, vec![0, 48, 58, 65, 71, 95, 96, 97, 103, 1114112]);
    let expected = "digraph {\n  rankdir=\"LR\";\n  0 -> 1 [label=\"7\"];\n  1 -> 7 [label=\"\u{3b5}\"];\n  2 -> 3 [label=\"3\"];\n  3 -> 7 [label=\"\u{3b5}\"];\n  4 -> 5 [label=\"5\"];\n  5 -> 7 [label=\"\u{3b5}\"];\n  6 -> 0 [label=\"\u{3b5}\"];\n  6 -> 2 [label=\"\u{3b5}\"];\n  6 -> 4 [label=\"\u{3b5}\"];\n  7 -> 16 [label=\"\u{3b5}\"];\n  8 -> 9 [label=\"1\"];\n  9 -> 17 [label=\"\u{3b5}\"];\n  10 -> 11 [label=\"7\"];\n  11 -> 17 [label=\"\u{3b5}\"];\n  12 -> 13 [label=\"3\"];\n  13 -> 17 [label=\"\u{3b5}\"];\n  14 -> 15 [label=\"5\"];\n  15 -> 17 [label=\"\u{3b5}\"];\n  16 -> 8 [label=\"\u{3b5}\"];\n  16 -> 10 [label=\"\u{3b5}\"];\n  16 -> 12 [label=\"\u{3b5}\"];\n  16 -> 14 [label=\"\u{3b5}\"];\n  17 -> 16 [label=\"\u{3b5}\"];\n  17 -> 19 [label=\"\u{3b5}\"];\n  18 -> 6 [label=\"\u{3b5}\"];\n  start [shape=\"plaintext\"];\n  start -> 18;\n  19 [shape=\"doublecircle\"];\n}\n";
    assert_eq!(builder.debug_format_nfa(&m), expected);
}

#[test]
fn test_builder_finish() {
    let mut builder = Builder::new();
    let r = hex_identifier(true);
    let (cls, r) = r.classify_chars();
    let m = builder.build(&r);
    let n = builder.finish(m).unwrap();
    assert_eq!(cls, vec![0, 48, 58, 65, 71, 95, 96, 97, 103, 1114112]);
    let mut expected = String::from("digraph {\n  rankdir=\"LR\";\n");
    for (s, t, a) in [(0, 1, 3), (0, 2, 5), (0, 3, 7)] {
        expected += &format!("  {} -> {} [label=\"{}\"];\n", s, t, a);
    }
    for s in 1..8 {
        for (t, a) in [(4, 1), (5, 3), (6, 5), (7, 7)] {
            expected += &format!("  {} -> {} [label=\"{}\"];\n", s, t, a);
        }
    }
    expected += "  start [shape=\"plaintext\"];\n  start -> 0;\n";
    for s in 1..8 {
        expected += &format!("  {} [shape=\"doublecircle\"];\n", s);
    }
    expected += "}\n";
    assert_eq!(n.debug_format(), expected);
    let n = n.minimize();
    assert_eq!(
        n.debug_format(),
        "digraph {\n  rankdir=\"LR\";\n  0 -> 1 [label=\"3\"];\n  0 -> 1 [label=\"5\"];\n  0 -> 1 [label=\"7\"];\n  1 -> 1 [label=\"1\"];\n  1 -> 1 [label=\"3\"];\n  1 -> 1 [label=\"5\"];\n  1 -> 1 [label=\"7\"];\n  start [shape=\"plaintext\"];\n  start -> 0;\n  1 [shape=\"doublecircle\"];\n}\n"
    );
}

#[test]
fn minimize_merges_states_that_accept_the_same() {
    // a* over one block, unrolled: the automaton of `a a*` with a spare copy
    let mut builder = Builder::new();
    let a = RegEx::Atom(vec![3u32]);
    let r = RegEx::Concat(vec![
        RegEx::Atom(vec![3u32]),
        RegEx::Optional(Box::new(RegEx::OneOrMore(Box::new(a)))),
    ]);
    let m = builder.build(&r);
    let d = builder.finish(m).unwrap();
    assert_eq!(d.state_count(), 3);
    let d = d.minimize();
    assert_eq!(d.state_count(), 2);
    assert_eq!(d.transitions(), &vec![(0, 3, 1), (1, 3, 1)]);
    assert_eq!(d.accepted_states(), &vec![1]);
    assert_eq!(d.input_set(), &vec![3]);
}

#[test]
fn minimize_keeps_states_that_differ() {
    // a b | c : after a the automaton must still read b
    let mut builder = Builder::new();
    let r = RegEx::Alt(vec![
        RegEx::Concat(vec![RegEx::Atom(vec![1u32]), RegEx::Atom(vec![2u32])]),
        RegEx::Atom(vec![3u32]),
    ]);
    let m = builder.build(&r);
    let d = builder.finish(m).unwrap().minimize();
    assert_eq!(d.state_count(), 3);
    assert_eq!(d.transitions(), &vec![(0, 1, 2), (0, 3, 1), (2, 2, 1)]);
    assert_eq!(d.accepted_states(), &vec![1]);
}

#[test]
fn minimize_handles_a_chain_into_a_loop() {
    // 0 -a-> 1 -a-> 2 -a-> 2, accepting in 2: no two states are alike
    let mut builder = Builder::new();
    let a = || RegEx::Atom(vec![0u32]);
    let r = RegEx::Concat(vec![a(), a(), RegEx::Optional(Box::new(RegEx::OneOrMore(Box::new(a()))))]);
    let m = builder.build(&r);
    let d = builder.finish(m).unwrap().minimize();
    assert_eq!(d.state_count(), 3);
    assert_eq!(d.transitions(), &vec![(0, 0, 2), (1, 0, 1), (2, 0, 1)]);
    assert_eq!(d.accepted_states(), &vec![1]);
}

#[test]
fn empty_expressions_build_automata_that_accept_nothing_or_the_empty_string() {
    let mut builder = Builder::new();
    let nothing: RegEx<Vec<u32>> = RegEx::Alt(vec![]);
    let m = builder.build(&nothing);
    let d = builder.finish(m).unwrap();
    assert_eq!(d.state_count(), 1);
    assert!(d.accepted_states().is_empty());
    let mut builder = Builder::new();
    let empty: RegEx<Vec<u32>> = RegEx::Concat(vec![]);
    let m = builder.build(&empty);
    let d = builder.finish(m).unwrap();
    assert_eq!(d.accepted_states(), &vec![0]);
    let mut builder = Builder::new();
    let no_block: RegEx<Vec<u32>> = RegEx::Atom(vec![]);
    let m = builder.build(&no_block);
    let d = builder.finish(m).unwrap();
    assert!(d.accepted_states().is_empty());
}

#[test]
fn arcs_are_a_set() {
    let mut b = Builder::new();
    let s = b.state();
    let t = b.state();
    assert!(b.add_arc(s, t, NFAInput::new(1)));
    assert!(!b.add_arc(s, t, NFAInput::new(1)));
    assert!(b.add_arc(s, t, NFAInput::epsilon()));
    b.new_arc(t, s, NFAInput::epsilon());
    let m = b.new_nfa();
    assert_eq!((m.start.0, m.accepted.0), (2, 3));
}

#[test]
fn a_state_that_leads_nowhere_keeps_states_apart() {
    // 1 (2 | 3 nothing) | 4 2: after block 1 and after block 4 the automaton
    // accepts the same, but after block 1 it can still move on block 3, to
    // a state from which nothing is accepted.
    let mut builder = Builder::new();
    let nothing: RegEx<Vec<u32>> = RegEx::Atom(vec![]);
    let r = RegEx::Alt(vec![
        RegEx::Concat(vec![
            RegEx::Atom(vec![1u32]),
            RegEx::Alt(vec![RegEx::Atom(vec![2u32]), RegEx::Concat(vec![RegEx::Atom(vec![3u32]), nothing])]),
        ]),
        RegEx::Concat(vec![RegEx::Atom(vec![4u32]), RegEx::Atom(vec![2u32])]),
    ]);
    let m = builder.build(&r);
    let d = builder.finish(m).unwrap();
    assert_eq!(d.state_count(), 6);
    let d = d.minimize();
    assert_eq!(d.state_count(), 5);
}
