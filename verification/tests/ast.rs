use mini_haskell::rlex::ast::char_class::{UnicodeCharClass, UnicodeCharRange};
use mini_haskell::rlex::ast::classify::classify_class;
use mini_haskell::rlex::ast::op::{ForEach, RegOp};
use mini_haskell::rlex::ast::RegEx;

fn range(a: char, b: char) -> RegEx<UnicodeCharClass> {
    RegEx::Atom(UnicodeCharClass::from_single_range(UnicodeCharRange::new(a, b)))
}

#[test]
fn test_classify_chars() {
    let expr = RegEx::Alt(vec![range('0', '9'), range('a', 'f'), range('A', 'F')]);
    let (chars, expr) = expr.classify_chars();
    assert_eq!(
        chars,
        vec![0, '0' as u32, '9' as u32 + 1, 'A' as u32, 'F' as u32 + 1, 'a' as u32, 'f' as u32 + 1, 0x10FFFF + 1]
    );
    assert_eq!(expr.to_string(), "{1} | {5} | {3}");
}

#[test]
fn for_each_visits_atoms_left_to_right() {
    let expr = RegEx::Concat(vec![
        RegEx::Atom(1u8),
        RegEx::Alt(vec![RegEx::Atom(2), RegEx::Optional(Box::new(RegEx::Atom(3)))]),
        RegEx::OneOrMore(Box::new(RegEx::Atom(4))),
    ]);
    let mut seen = Vec::new();
    expr.for_each(&mut seen);
    assert_eq!(seen, vec![&1, &2, &3, &4]);
}

#[test]
fn fmap_keeps_the_structure() {
    let expr = RegEx::Concat(vec![RegEx::Atom(vec![1u32, 2]), RegEx::Optional(Box::new(RegEx::Atom(vec![7])))]);
    let shifted = expr.fmap(&|v: &Vec<u32>| v.iter().map(|x| x + 1).collect::<Vec<u32>>());
    assert_eq!(shifted.to_string(), "{2, 3} {8}?");
}

#[test]
fn split_points_of_an_expression() {
    let digits = UnicodeCharClass::from_ranges(vec![UnicodeCharRange::new('0', '9'), UnicodeCharRange::new('a', 'f')]);
    let table = vec![0, 48, 50, 58, 97, 103, 0x110000];
    assert_eq!(classify_class(&digits, &table), vec![1, 2, 4]);
    assert_eq!(classify_class(&UnicodeCharClass::empty(), &table), Vec::<u32>::new());
    let whole = UnicodeCharClass::from_single_range(UnicodeCharRange::from_raw(0, 0x110000));
    assert_eq!(classify_class(&whole, &table), vec![0, 1, 2, 3, 4, 5]);
    let mut points = vec![7];
    RegEx::Atom(digits).collect_split_points(&mut points);
    assert_eq!(points, vec![0, 7, 48, 58, 97, 103, 0x110000]);
}

#[test]
fn fold_counts_the_nodes() {
    let expr = RegEx::Concat(vec![
        RegEx::Atom(1u8),
        RegEx::Alt(vec![RegEx::Atom(2), RegEx::Optional(Box::new(RegEx::Atom(3)))]),
        RegEx::OneOrMore(Box::new(RegEx::Atom(4))),
    ]);
    let nodes = expr.fold(&|op: RegOp<&u8, u32>| match op {
        RegOp::Atom(_) => 1,
        RegOp::Alt(xs) => 1 + xs.iter().sum::<u32>(),
        RegOp::Concat(xs) => 1 + xs.iter().sum::<u32>(),
        RegOp::OneOrMore(x) => 1 + *x,
        RegOp::Optional(x) => 1 + *x,
    });
    assert_eq!(nodes, 8);
    let doubled = RegOp::<u8, u8>::Alt(vec![1, 2]).bimap(|a: u8| a, |r: u8| r * 2);
    assert!(matches!(doubled, RegOp::Alt(v) if v == vec![2, 4]));
}

#[test]
fn printing_puts_parentheses_where_precedence_asks() {
    let a = || RegEx::Atom(vec![1u32]);
    let alt = RegEx::Alt(vec![a(), RegEx::Atom(vec![2, 30])]);
    assert_eq!(alt.to_string(), "{1} | {2, 30}");
    let concat = RegEx::Concat(vec![RegEx::Alt(vec![a(), a()]), a()]);
    assert_eq!(concat.to_string(), "({1} | {1}) {1}");
    let starred = RegEx::Optional(Box::new(RegEx::OneOrMore(Box::new(RegEx::Concat(vec![a(), a()])))));
    assert_eq!(starred.to_string(), "({1} {1})+?");
    assert_eq!(RegEx::<Vec<u32>>::Alt(vec![]).to_string(), "");
    assert_eq!(RegEx::Atom(Vec::<u32>::new()).to_string(), "{}");
}
