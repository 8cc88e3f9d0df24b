use mini_haskell::buffer::span_collect;
use mini_haskell::char::{AndPred, Ascii, CharPredicate, NotPred, OrPred, Stream, Unicode};
use mini_haskell::scanner::Scanner;

fn parse(scanner: &mut Scanner) -> Option<()> {
    let x = Stream::next(scanner)?;
    if !Ascii::Any.check(x) {
        return None;
    }
    let xs = span_collect(scanner, &Unicode::Alpha);
    if xs.is_empty() {
        return None;
    }
    let nl = Stream::next(scanner)?;
    if !'\n'.check(nl) {
        return None;
    }
    let _ys = span_collect(scanner, &OrPred(Unicode::Alpha, Ascii::Digit));
    let v = Stream::next(scanner)?;
    if !String::from("aeiou").check(v) {
        return None;
    }
    Some(())
}

#[test]
fn char_test_syntax() {
    let mut scanner = Scanner::new("?abc\nx1y2e".chars().collect());
    assert_eq!(parse(&mut scanner), None);
    let mut scanner = Scanner::new("?abc\nx1y2 e".chars().collect());
    assert_eq!(parse(&mut scanner), None);
    let mut scanner = Scanner::new("?abc\nx1y2+".chars().collect());
    assert_eq!(parse(&mut scanner), None);
    let mut scanner = Scanner::new("?abc\n+u".chars().collect());
    assert_eq!(parse(&mut scanner), None);
    let mut scanner = Scanner::new("?abc\nu".chars().collect());
    assert_eq!(parse(&mut scanner), None);
    let mut scanner = Scanner::new("?\u{e9}t\u{e9}\n12ab%".chars().collect());
    assert_eq!(parse(&mut scanner), None);
}

#[test]
fn ascii_classes() {
    assert!(Ascii::Any.check('\x7f'));
    assert!(!Ascii::Any.check('\u{80}'));
    assert!(Ascii::Alpha.check('Q') && Ascii::Alpha.check('q') && !Ascii::Alpha.check('1'));
    assert!(Ascii::AlphaNum.check('7') && !Ascii::AlphaNum.check('_'));
    assert!(Ascii::Digit.check('0') && Ascii::Digit.check('9') && !Ascii::Digit.check('a'));
    assert!(Ascii::Oct.check('7') && !Ascii::Oct.check('8'));
    assert!(Ascii::Hex.check('f') && Ascii::Hex.check('F') && !Ascii::Hex.check('g'));
    assert!(Ascii::Lower.check('z') && !Ascii::Lower.check('Z'));
    assert!(Ascii::Upper.check('Z') && !Ascii::Upper.check('z'));
    assert!(Ascii::White.check(' ') && Ascii::White.check('\x0C') && !Ascii::White.check('\x0B'));
}

#[test]
fn unicode_classes() {
    assert!(Unicode::Alpha.check('\u{e9}') && !Unicode::Alpha.check('1'));
    assert!(Unicode::AlphaNum.check('\u{663}'));
    assert!(Unicode::Numeric.check('\u{2167}'));
    assert!(Unicode::Digit.check('\u{663}') && !Unicode::Digit.check('\u{2167}'));
    assert!(Unicode::Lower.check('\u{e9}') && !Unicode::Lower.check('\u{c9}'));
    assert!(Unicode::Upper.check('\u{c9}'));
    assert!(Unicode::White.check('\u{2003}') && !Unicode::White.check('x'));
    assert!(Unicode::Symbol.check('+') && Unicode::Symbol.check('\u{20ac}') && !Unicode::Symbol.check('!'));
    assert!(Unicode::Punct.check('!') && !Unicode::Punct.check('+'));
}

#[test]
fn combined_classes() {
    let p = AndPred(Ascii::AlphaNum, NotPred(Ascii::Digit));
    assert!(p.check('a') && !p.check('1') && !p.check('-'));
    assert!(('a', 'a').0.check('a') && !'a'.check('b'));
    assert!(String::from("(),;").check(';') && !String::from("(),;").check('.'));
}

#[test]
fn scanner_reads_and_counts() {
    let mut scanner = Scanner::new("ab".chars().collect());
    assert_eq!(Scanner::peek(&scanner), Some('a'));
    assert_eq!(Scanner::next(&mut scanner), Some('a'));
    assert_eq!(scanner.location().column, 2);
    assert_eq!(scanner.location().offset, 1);
    assert_eq!(Scanner::next(&mut scanner), Some('b'));
    assert_eq!(Scanner::next(&mut scanner), None);
    assert_eq!(scanner.location().to_string(), "1:3");
}
