use mini_haskell::rlex::ast::char_class::{UnicodeCharClass, UnicodeCharRange};
use mini_haskell::rlex::ast::RegEx;
use mini_haskell::rlex::codegen::{compile, gen_dfa, tag_automaton, witnesses, Conflict, GenError, TaggedRegEx};
use mini_haskell::rlex::driver::{compile_lexer, CompileError, RuleConflict, RuleInfo};
use mini_haskell::rlex::automata::builder::{Builder, NFAInput, NFAState};
use mini_haskell::rlex::lower::lower_expr;
use mini_haskell::rlex::root::{RootDef, SCIdent};
use mini_haskell::rlex::syntax::{
    Alt, Atom, CharClass, CharRange, Concat, ConditionTrans, Group, LexemeDef, Repeat, Rule, RuleBlock,
    StartCondition, WithCondition,
};
use mini_haskell::rlex::unicode::{resolve_class, UnicodeTables};

const PROPERTY_NAMES: &[(&str, &str)] = &[
    ("alpha", "Alphabetic"),
    ("alphabetic", "Alphabetic"),
    ("space", "White_Space"),
    ("whitespace", "White_Space"),
    ("wspace", "White_Space"),
];

const GENERAL_CATEGORY_VALUES: &[(&str, &str)] = &[
    ("decimalnumber", "Decimal_Number"),
    ("digit", "Decimal_Number"),
    ("nd", "Decimal_Number"),
    ("space", "Space_Separator"),
    ("zs", "Space_Separator"),
];

const PROPERTY_BOOL: &[(&str, &[(u32, u32)])] = &[
    ("Alphabetic", &[(65, 90), (97, 122), (170, 170), (181, 181)]),
    (
        "White_Space",
        &[
            (9, 13),
            (32, 32),
            (133, 133),
            (160, 160),
            (5760, 5760),
            (8192, 8202),
            (8232, 8233),
            (8239, 8239),
            (8287, 8287),
            (12288, 12288),
        ],
    ),
];

const GENERAL_CATEGORY: &[(&str, &[(u32, u32)])] = &[
    ("Decimal_Number", &[(48, 57), (1632, 1641)]),
    ("Space_Separator", &[(32, 32), (160, 160), (5760, 5760), (8192, 8202), (8239, 8239), (8287, 8287), (12288, 12288)]),
];

fn tables() -> UnicodeTables {
    UnicodeTables {
        property_names: PROPERTY_NAMES,
        general_category_values: GENERAL_CATEGORY_VALUES,
        property_bool: PROPERTY_BOOL,
        general_category: GENERAL_CATEGORY,
    }
}

fn class(name: &str, span: usize) -> Atom {
    Atom::Class(CharClass { class_name: name.to_string(), span })
}

fn concat(items: Vec<Repeat>) -> Concat {
    Concat { items }
}

fn expr(variants: Vec<Concat>) -> Alt {
    Alt { variants }
}

fn range(a: char, b: char) -> Atom {
    Atom::Range(CharRange { begin: a, end: b })
}

fn lower(e: &Alt) -> Result<String, Vec<String>> {
    let mut errors = Vec::new();
    match lower_expr(e, &tables(), &mut errors) {
        Some(r) => {
            assert!(errors.is_empty());
            Ok(r.to_string())
        }
        None => Err(errors.iter().map(|e| e.message()).collect()),
    }
}

#[test]
fn test_ast() {
    let exprs: Vec<Alt> = vec![
        expr(vec![concat(vec![
            Repeat::Once(class("NonSense", 0)),
            Repeat::Once(class("WhiteSpace", 1)),
            Repeat::Once(class("AlsoNonSense", 2)),
        ])]),
        expr(vec![concat(vec![Repeat::Once(class("WhiteSpace", 0))])]),
        expr(vec![concat(vec![Repeat::Once(range('a', 'z'))])]),
        expr(vec![concat(vec![Repeat::Optional(Atom::Char('a'))])]),
        expr(vec![
            concat(vec![Repeat::Once(range('0', '9'))]),
            concat(vec![Repeat::Once(range('a', 'f'))]),
            concat(vec![Repeat::Once(range('A', 'F'))]),
        ]),
        expr(vec![concat(vec![
            Repeat::Once(Atom::String("Bonjour".to_string())),
            Repeat::Optional(Atom::Char(',')),
            Repeat::Many(Atom::String("le".to_string())),
            Repeat::Once(Atom::String("monde".to_string())),
        ])]),
    ];
    let expected: [Result<&str, [&str; 2]>; 6] = [
        Err([
            "'NonSense' is not a valid Unicode property, nor is it a valid value for property General_Category, even after normalization specified by UAX44-LM3 (where it becomes 'nonsense').",
            "'AlsoNonSense' is not a valid Unicode property, nor is it a valid value for property General_Category, even after normalization specified by UAX44-LM3 (where it becomes 'alsononsense').",
        ]),
        Ok("[[\t-\r] \u{85}\u{a0}\u{1680}[\u{2000}-\u{200a}][\u{2028}-\u{2029}]\u{202f}\u{205f}\u{3000}]"),
        Ok("[a-z]"),
        Ok("[a]?"),
        Ok("[0-9] | [a-f] | [A-F]"),
        Ok("[B] [o] [n] [j] [o] [u] [r] [,]? ([l] [e])+? [m] [o] [n] [d] [e]"),
    ];
    for (e, ans) in exprs.iter().zip(expected.iter()) {
        match lower(e) {
            Ok(s) => assert_eq!(s, ans.unwrap()),
            Err(msgs) => {
                let ans = ans.unwrap_err();
                assert_eq!(msgs.len(), ans.len());
                for (m, a) in msgs.iter().zip(ans.iter()) {
                    assert_eq!(m, a);
                }
            }
        }
    }
}

#[test]
fn class_names_are_matched_loosely() {
    for name in ["WhiteSpace", "White_Space", "white-space", "isWhiteSpace", "wspace", "W Space"] {
        let cls = resolve_class(name, 7, &tables()).ok().unwrap();
        assert!(cls.to_string().starts_with("[[\t-\r] \u{85}"));
    }
    // a property wins over a value of the general category with the same name
    let cls = resolve_class("space", 0, &tables()).ok().unwrap();
    assert!(cls.to_string().starts_with("[[\t-\r]"));
    let cls = resolve_class("Nd", 0, &tables()).ok().unwrap();
    assert_eq!(cls.to_string(), "[[0-9][\u{660}-\u{669}]]");
    let err = resolve_class("Non_Sense", 42, &tables()).err().unwrap();
    assert_eq!(err.original, "Non_Sense");
    assert_eq!(err.normalized, "nonsense");
    assert_eq!(err.span, 42);
    assert!(err.message().contains("'Non_Sense'") && err.message().contains("'nonsense'"));
}

#[test]
fn odd_atoms_lower_to_small_expressions() {
    assert_eq!(lower(&expr(vec![])).unwrap(), "[]");
    assert_eq!(lower(&expr(vec![concat(vec![Repeat::Once(range('z', 'a'))])])).unwrap(), "[]");
    assert_eq!(lower(&expr(vec![concat(vec![Repeat::Once(Atom::String("x".to_string()))])])).unwrap(), "[x]");
    assert_eq!(lower(&expr(vec![concat(vec![Repeat::Once(Atom::String(String::new()))])])).unwrap(), "");
    let nested = expr(vec![concat(vec![
        Repeat::OneOrMore(Atom::Paren {
            expr: Box::new(expr(vec![
                concat(vec![Repeat::Once(Atom::Char('a'))]),
                concat(vec![Repeat::Once(Atom::Char('b')), Repeat::Once(Atom::Char('c'))]),
            ])),
        }),
        Repeat::Once(Atom::Char('d')),
    ])]);
    assert_eq!(lower(&nested).unwrap(), "([a] | [b] [c])+ [d]");
}

fn rule(name: &str, body: Alt) -> Rule {
    Rule { vis: false, name: name.to_string(), body }
}

fn ident_and_keyword() -> (Alt, Alt) {
    let ident = expr(vec![concat(vec![Repeat::OneOrMore(range('a', 'z'))])]);
    let keyword = expr(vec![concat(vec![Repeat::Once(Atom::String("if".to_string()))])]);
    (ident, keyword)
}

#[test]
fn root_groups_rules_by_start_condition() {
    let (ident, keyword) = ident_and_keyword();
    let d = LexemeDef {
        name: "Lexeme".to_string(),
        body: vec![
            WithCondition {
                start_condition: Some(StartCondition {
                    condition: vec![
                        ConditionTrans::Simple("start".to_string()),
                        ConditionTrans::Trans { begin: "other".to_string(), end: "start".to_string() },
                    ],
                }),
                body: RuleBlock::Group(Group { body: vec![rule("Ident", ident)] }),
            },
            WithCondition { start_condition: None, body: RuleBlock::Single(rule("Keyword", keyword)) },
        ],
    };
    let root = RootDef::build(&d, &tables()).ok().unwrap();
    assert_eq!(root.name, "Lexeme");
    assert_eq!(root.split_points, vec![0, 97, 102, 103, 105, 106, 123, 0x110000]);
    let names: Vec<&str> = root.conditions.iter().map(|c| c.as_str()).collect();
    assert_eq!(names, vec!["start", "other"]);
    let shown: Vec<Vec<(String, Option<String>, String)>> = root
        .lexemes
        .iter()
        .map(|g| {
            g.iter()
                .map(|l| (l.lexeme_type.clone(), l.target_start_condition.clone(), l.lexeme_regex.to_string()))
                .collect()
        })
        .collect();
    assert_eq!(
        shown,
        vec![
            vec![
                ("Ident".to_string(), None, "{1, 2, 3, 4, 5}+".to_string()),
                ("Keyword".to_string(), None, "{4} {2}".to_string()),
            ],
            vec![("Ident".to_string(), Some("start".to_string()), "{1, 2, 3, 4, 5}+".to_string())],
        ]
    );
    assert!(SCIdent(None).same_as(&SCIdent(Some("start".to_string()))));
    assert!(!SCIdent(None).same_as(&SCIdent(Some("other".to_string()))));
}

#[test]
fn root_collects_unknown_classes_of_all_rules() {
    let d = LexemeDef {
        name: "Lexeme".to_string(),
        body: vec![
            WithCondition {
                start_condition: None,
                body: RuleBlock::Single(rule("A", expr(vec![concat(vec![Repeat::Once(class("Foo", 1))])]))),
            },
            WithCondition {
                start_condition: None,
                body: RuleBlock::Group(Group {
                    body: vec![
                        rule("B", expr(vec![concat(vec![Repeat::Once(class("WhiteSpace", 2))])])),
                        rule("C", expr(vec![concat(vec![Repeat::Many(class("Bar", 3))])])),
                    ],
                }),
            },
        ],
    };
    let errors = RootDef::build(&d, &tables()).err().unwrap();
    let spans: Vec<(String, usize)> = errors.iter().map(|e| (e.original.clone(), e.span)).collect();
    assert_eq!(spans, vec![("Foo".to_string(), 1), ("Bar".to_string(), 3)]);
}

fn classified_rules(rules: Vec<(&'static str, RegEx<UnicodeCharClass>)>) -> (Vec<u32>, Vec<TaggedRegEx<Vec<u32>, &'static str>>) {
    let mut table = Vec::new();
    for (_, r) in &rules {
        r.collect_split_points(&mut table);
    }
    let tagged = rules.into_iter().map(|(tag, r)| TaggedRegEx { regex: r.classify_chars_with(&table), tag }).collect();
    (table, tagged)
}

fn letters() -> RegEx<UnicodeCharClass> {
    RegEx::OneOrMore(Box::new(RegEx::Atom(UnicodeCharClass::from_single_range(UnicodeCharRange::new('a', 'z')))))
}

fn word(s: &str) -> RegEx<UnicodeCharClass> {
    RegEx::Concat(s.chars().map(|c| RegEx::Atom(UnicodeCharClass::from_char(c))).collect())
}

#[test]
fn conflicting_rules_are_reported_with_a_witness() {
    let (table, rules) = classified_rules(vec![("Ident", letters()), ("Keyword", word("if"))]);
    assert_eq!(table, vec![0, 97, 102, 103, 105, 106, 123, 0x110000]);
    match gen_dfa(&rules) {
        Err(GenError::Conflicts(conflicts)) => {
            assert_eq!(conflicts.len(), 1);
            assert_eq!(conflicts[0].rules, vec![0, 1]);
            assert_eq!(conflicts[0].witness, vec![4, 2]);
            let names: Vec<String> = rules.iter().map(|r| r.tag.to_string()).collect();
            assert_eq!(
                conflicts[0].message(&names, &table),
                "lexeme types [Ident, Keyword] conflict on input \"if\"."
            );
        }
        _ => panic!("a conflict was expected"),
    }
    // the order of declaration decides the order of the names, not the automaton
    let (table, rules) = classified_rules(vec![("Keyword", word("if")), ("Ident", letters())]);
    match gen_dfa(&rules) {
        Err(GenError::Conflicts(conflicts)) => {
            assert_eq!(conflicts[0].rules, vec![0, 1]);
            assert_eq!(conflicts[0].witness, vec![4, 2]);
            let names: Vec<String> = rules.iter().map(|r| r.tag.to_string()).collect();
            assert_eq!(
                conflicts[0].message(&names, &table),
                "lexeme types [Keyword, Ident] conflict on input \"if\"."
            );
        }
        _ => panic!("a conflict was expected"),
    }
}

#[test]
fn witness_is_escaped() {
    let (table, rules) = classified_rules(vec![("A", word("\t\"")), ("B", word("\t\""))]);
    match gen_dfa(&rules) {
        Err(GenError::Conflicts(conflicts)) => {
            let names = vec!["A".to_string(), "B".to_string()];
            assert_eq!(conflicts[0].message(&names, &table), "lexeme types [A, B] conflict on input \"\\t\\\"\".");
        }
        _ => panic!("a conflict was expected"),
    }
}

fn run(d: &mini_haskell::rlex::codegen::TaggedDFA, word: &[u32]) -> Option<u32> {
    let mut q = 0;
    for c in word {
        q = d.next_state(q, *c)?;
    }
    d.accept_tag(q)
}

#[test]
fn disjoint_rules_give_a_tagged_minimal_automaton() {
    let digits = RegEx::OneOrMore(Box::new(RegEx::Atom(UnicodeCharClass::from_single_range(UnicodeCharRange::new('0', '9')))));
    let (table, rules) = classified_rules(vec![("Number", digits), ("If", word("if")), ("In", word("in"))]);
    assert_eq!(table, vec![0, 48, 58, 102, 103, 105, 106, 110, 111, 0x110000]);
    let d = gen_dfa(&rules).ok().unwrap();
    // blocks: 1 digits, 3 f, 5 i, 7 n
    assert_eq!(run(&d, &[1]), Some(0));
    assert_eq!(run(&d, &[1, 1, 1]), Some(0));
    assert_eq!(run(&d, &[5, 3]), Some(1));
    assert_eq!(run(&d, &[5, 7]), Some(2));
    assert_eq!(run(&d, &[5]), None);
    assert_eq!(run(&d, &[]), None);
    assert_eq!(run(&d, &[5, 3, 1]), None);
    assert_eq!(run(&d, &[3]), None);
    // start, after digits, after i, after if, after in
    assert_eq!(d.state_count(), 5);
    assert_eq!(d.input_set(), &vec![1, 3, 5, 7]);
    assert_eq!(d.transitions().len(), 5);
}

#[test]
fn gen_dfa_without_rules_rejects_everything() {
    let rules: Vec<TaggedRegEx<Vec<u32>, ()>> = Vec::new();
    let d = gen_dfa(&rules).ok().unwrap();
    assert_eq!(d.state_count(), 1);
    assert_eq!(run(&d, &[]), None);
    assert_eq!(run(&d, &[0]), None);
}

#[test]
fn tag_automaton_on_a_hand_made_automaton() {
    // 0 -eps-> 1 -a-> 2 (rule 0), 0 -eps-> 3 -a-> 4 -b-> 5 (rule 1)
    let mut b = Builder::new();
    for _ in 0..6 {
        b.state();
    }
    let e = NFAInput::epsilon;
    b.add_arc(NFAState(0), NFAState(1), e());
    b.add_arc(NFAState(1), NFAState(2), NFAInput::new(10));
    b.add_arc(NFAState(0), NFAState(3), e());
    b.add_arc(NFAState(3), NFAState(4), NFAInput::new(10));
    b.add_arc(NFAState(4), NFAState(5), NFAInput::new(11));
    let d = tag_automaton(b, NFAState(0), &vec![2, 5]).ok().unwrap();
    assert_eq!(run(&d, &[10]), Some(0));
    assert_eq!(run(&d, &[10, 11]), Some(1));
    assert_eq!(run(&d, &[11]), None);
    assert_eq!(d.state_count(), 3);
}

#[test]
fn witnesses_are_shortest_inputs() {
    // 0 -1-> 1 -1-> 2, 0 -2-> 2, 3 is cut off
    let moves = vec![(0, 1, 1), (0, 2, 2), (1, 1, 2)];
    let paths = witnesses(4, &vec![1, 2], &moves);
    assert_eq!(paths, vec![Some(vec![]), Some(vec![1]), Some(vec![2]), None]);
}

#[test]
fn a_witness_is_the_first_of_the_shortest_inputs() {
    // State 3 is two blocks away by four ways; the way by the lesser blocks
    // goes through state 2, which is found after state 1.
    let moves = vec![(0, 1, 2), (0, 2, 1), (1, 1, 3), (1, 2, 3), (2, 3, 3), (2, 4, 3)];
    let paths = witnesses(4, &vec![1, 2, 3, 4], &moves);
    assert_eq!(paths, vec![Some(vec![]), Some(vec![2]), Some(vec![1]), Some(vec![1, 3])]);
}

#[test]
fn conflicts_are_reported_once_each_with_their_first_witness() {
    // Both rules match a block 0 or 1 and then a block 2: on `0 2` and on
    // `1 2` the automata reach the same states.
    let rule = || RegEx::Concat(vec![RegEx::Alt(vec![RegEx::Atom(vec![0]), RegEx::Atom(vec![1])]), RegEx::Atom(vec![2])]);
    let rules = vec![TaggedRegEx { regex: rule(), tag: "A" }, TaggedRegEx { regex: rule(), tag: "B" }];
    match compile(&rules) {
        Err(GenError::Conflicts(cs)) => {
            assert_eq!(cs.len(), 1);
            assert_eq!(cs[0].rules, vec![0, 1]);
            assert_eq!(cs[0].witness, vec![0, 2]);
        }
        _ => panic!("no conflict"),
    }
}

#[test]
fn tables_are_checked() {
    assert!(tables().check());
    let unsorted = UnicodeTables {
        property_names: &[("space", "White_Space"), ("alpha", "Alphabetic")],
        general_category_values: GENERAL_CATEGORY_VALUES,
        property_bool: PROPERTY_BOOL,
        general_category: GENERAL_CATEGORY,
    };
    assert!(!unsorted.check());
    let twice = UnicodeTables {
        property_names: &[("alpha", "Alphabetic"), ("alpha", "Alphabetic")],
        general_category_values: GENERAL_CATEGORY_VALUES,
        property_bool: PROPERTY_BOOL,
        general_category: GENERAL_CATEGORY,
    };
    assert!(!twice.check());
    let no_row = UnicodeTables {
        property_names: &[("lower", "Lowercase")],
        general_category_values: GENERAL_CATEGORY_VALUES,
        property_bool: PROPERTY_BOOL,
        general_category: GENERAL_CATEGORY,
    };
    assert!(!no_row.check());
    let touching = UnicodeTables {
        property_names: &[("alpha", "Alphabetic")],
        general_category_values: GENERAL_CATEGORY_VALUES,
        property_bool: &[("Alphabetic", &[(65, 90), (91, 122)])],
        general_category: GENERAL_CATEGORY,
    };
    assert!(!touching.check());
    let empty = UnicodeTables {
        property_names: &[],
        general_category_values: &[],
        property_bool: &[],
        general_category: &[],
    };
    assert!(empty.check());
}

fn definition(blocks: Vec<WithCondition>) -> LexemeDef {
    LexemeDef { name: "Lexeme".to_string(), body: blocks }
}

fn in_conditions(names: Vec<&str>, rules: Vec<Rule>) -> WithCondition {
    WithCondition {
        start_condition: Some(StartCondition {
            condition: names.into_iter().map(|n| ConditionTrans::Simple(n.to_string())).collect(),
        }),
        body: RuleBlock::Group(Group { body: rules }),
    }
}

#[test]
fn a_definition_is_compiled_condition_by_condition() {
    let (ident, _) = ident_and_keyword();
    let digits = expr(vec![concat(vec![Repeat::OneOrMore(range('0', '9'))])]);
    let d = definition(vec![
        in_conditions(vec!["start", "inner"], vec![rule("Ident", ident)]),
        WithCondition { start_condition: None, body: RuleBlock::Single(rule("Number", digits)) },
    ]);
    let lexer = match compile_lexer(&d, &tables()) {
        Ok(lexer) => lexer,
        Err(_) => panic!("a lexer was expected"),
    };
    assert_eq!(lexer.name, "Lexeme");
    assert_eq!(lexer.split_points, vec![0, 48, 58, 97, 123, 0x110000]);
    let names: Vec<&str> = lexer.conditions.iter().map(|c| c.as_str()).collect();
    assert_eq!(names, vec!["start", "inner"]);
    assert_eq!(
        lexer.rules,
        vec![
            vec![RuleInfo { name: "Ident".to_string(), target: None }, RuleInfo { name: "Number".to_string(), target: None }],
            vec![RuleInfo { name: "Ident".to_string(), target: None }],
        ]
    );
    assert_eq!(lexer.automata.len(), 2);
    let start = &lexer.automata[0];
    assert_eq!(start.state_count(), 3);
    let after_letter = start.next_state(0, 3).unwrap();
    let after_digit = start.next_state(0, 1).unwrap();
    assert_eq!(start.accept_tag(after_letter), Some(0));
    assert_eq!(start.accept_tag(after_digit), Some(1));
    assert_eq!(start.accept_tag(0), None);
    assert_eq!(start.next_state(after_letter, 1), None);
    let inner = &lexer.automata[1];
    assert_eq!(inner.state_count(), 2);
    assert_eq!(inner.next_state(0, 1), None);
}

#[test]
fn the_conflicts_of_all_conditions_are_handed_out_together() {
    let (ident, keyword) = ident_and_keyword();
    let (ident2, keyword2) = ident_and_keyword();
    let d = definition(vec![
        in_conditions(vec!["a"], vec![rule("Ident", ident), rule("Keyword", keyword)]),
        in_conditions(vec!["b"], vec![rule("Word", keyword2), rule("Name", ident2)]),
    ]);
    match compile_lexer(&d, &tables()) {
        Err(CompileError::Conflicts(found)) => {
            assert_eq!(found.conflicts.len(), 2);
            assert_eq!(found.conflicts[0].condition, 0);
            assert_eq!(found.conflicts[1].condition, 1);
            assert_eq!(found.conditions[1].as_str(), "b");
            assert_eq!(
                found.describe(&found.conflicts[0]).unwrap(),
                "lexeme types [Ident, Keyword] conflict on input \"if\"."
            );
            assert_eq!(
                found.describe(&found.conflicts[1]).unwrap(),
                "lexeme types [Word, Name] conflict on input \"if\"."
            );
            let elsewhere =
                RuleConflict { condition: 7, conflict: Conflict { rules: vec![0, 1], witness: vec![] } };
            assert_eq!(found.describe(&elsewhere), None);
        }
        _ => panic!("conflicts were expected"),
    }
}

#[test]
fn unknown_class_names_stop_the_compiling() {
    let d = definition(vec![WithCondition {
        start_condition: None,
        body: RuleBlock::Group(Group {
            body: vec![
                rule("A", expr(vec![concat(vec![Repeat::Once(class("NonSense", 3))])])),
                rule("B", expr(vec![concat(vec![Repeat::Once(class("WhiteSpace", 4))])])),
                rule("C", expr(vec![concat(vec![Repeat::Once(class("More", 5))])])),
            ],
        }),
    }]);
    match compile_lexer(&d, &tables()) {
        Err(CompileError::UnknownProperties { unknown, conflicts }) => {
            let spans: Vec<usize> = unknown.iter().map(|e| e.span).collect();
            assert_eq!(spans, vec![3, 5]);
            assert!(conflicts.conflicts.is_empty());
            assert_eq!(conflicts.rules, vec![vec![RuleInfo { name: "B".to_string(), target: None }]]);
        }
        _ => panic!("unknown names were expected"),
    }
    // the rules that name no unknown class are still held against each other
    let (ident, keyword) = ident_and_keyword();
    let d = definition(vec![WithCondition {
        start_condition: None,
        body: RuleBlock::Group(Group {
            body: vec![
                rule("Ident", ident),
                rule("Odd", expr(vec![concat(vec![Repeat::Once(class("NonSense", 9))])])),
                rule("Keyword", keyword),
            ],
        }),
    }]);
    match compile_lexer(&d, &tables()) {
        Err(CompileError::UnknownProperties { unknown, conflicts }) => {
            assert_eq!(unknown.len(), 1);
            assert_eq!(conflicts.conflicts.len(), 1);
            assert_eq!(
                conflicts.describe(&conflicts.conflicts[0]).unwrap(),
                "lexeme types [Ident, Keyword] conflict on input \"if\"."
            );
        }
        _ => panic!("unknown names were expected"),
    }
    let empty = definition(Vec::new());
    match compile_lexer(&empty, &tables()) {
        Ok(lexer) => {
            assert!(lexer.automata.is_empty());
            assert_eq!(lexer.split_points, vec![0, 0x110000]);
        }
        Err(_) => panic!("a lexer was expected"),
    }
}

#[test]
fn a_condition_without_rules_has_an_automaton_that_rejects() {
    let (ident, _) = ident_and_keyword();
    let d = definition(vec![
        WithCondition {
            start_condition: Some(StartCondition {
                condition: vec![ConditionTrans::Trans { begin: "a".to_string(), end: "b".to_string() }],
            }),
            body: RuleBlock::Single(rule("Ident", ident)),
        },
        in_conditions(vec!["c"], Vec::new()),
    ]);
    let root = RootDef::build(&d, &tables()).ok().unwrap();
    let names: Vec<&str> = root.conditions.iter().map(|c| c.as_str()).collect();
    assert_eq!(names, vec!["a", "b", "c"]);
    assert_eq!(root.lexemes[0].len(), 1);
    assert_eq!(root.lexemes[0][0].target_start_condition, Some("b".to_string()));
    assert!(root.lexemes[1].is_empty());
    assert!(root.lexemes[2].is_empty());
    let lexer = match compile_lexer(&d, &tables()) {
        Ok(lexer) => lexer,
        Err(_) => panic!("a lexer was expected"),
    };
    assert_eq!(lexer.automata.len(), 3);
    assert_eq!(lexer.rules[0], vec![RuleInfo { name: "Ident".to_string(), target: Some("b".to_string()) }]);
    for empty in [&lexer.automata[1], &lexer.automata[2]] {
        assert_eq!(empty.state_count(), 1);
        assert!(empty.transitions().is_empty());
        assert_eq!(empty.accept_tag(0), None);
    }
}
