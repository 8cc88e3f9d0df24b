use mini_haskell::error::{Diagnostic, DiagnosticMessage, Error};
use mini_haskell::input::{characters, decode};
use mini_haskell::lexeme::{Lexeme, LexemeType, ModuleId, QName, RId, ROp, Ratio};
use mini_haskell::scanner::layout::{
    augment, lex, AugmentedLexeme, AugmentedLexemeIterator, EnrichedLexeme, EnrichedLexemeIterator,
    FatLexemeIterator, MismatchedBrackets, RawLexemeIterator,
};
use mini_haskell::scanner::{Location, Range, ScanResult, Scanner};
use mini_haskell::utils::Result3;
use num_bigint::BigInt;
use num_integer::Integer;

fn scanner_on(input: &str) -> Scanner {
    Scanner::new(input.chars().collect())
}

fn ratio(numerator: i64, denominator: i64) -> Ratio<String> {
    let n = BigInt::from(numerator);
    let d = BigInt::from(denominator);
    let g = n.gcd(&d);
    Ratio { numerator: (&n / &g).to_string(), denominator: (&d / &g).to_string() }
}

fn whole(numerator: i64) -> Ratio<String> {
    Ratio { numerator: BigInt::from(numerator).to_string(), denominator: "1".to_string() }
}

fn identifier_on(input: &str, res: Lexeme, next: Option<char>) {
    let mut scanner = scanner_on(input);
    assert_eq!(scanner.id_or_sym(), Result3::Success(res));
    assert_eq!(Scanner::next(&mut scanner), next);
}

#[test]
fn test_identifier() {
    identifier_on("some'Identifier_42", Lexeme::Identifier("some'Identifier_42".to_string()), None);
    identifier_on("Ctor_''233'_", Lexeme::Identifier("Ctor_''233'_".to_string()), None);
    identifier_on(
        "Mod.SubMod.Class",
        Lexeme::QIdentifier(QName {
            module: ModuleId(vec!["Mod".to_string(), "SubMod".to_string()]),
            name: "Class".to_string(),
        }),
        None,
    );
    identifier_on(
        "F..",
        Lexeme::QOperator(QName { module: ModuleId(vec!["F".to_string()]), name: ".".to_string() }),
        None,
    );
    identifier_on("F.", Lexeme::Identifier("F".to_string()), Some('.'));
}

fn char_string_on(input: &str, res: Lexeme) {
    let mut scanner = scanner_on(input);
    assert_eq!(scanner.char_or_string(), Result3::Success(res));
    assert_eq!(Scanner::next(&mut scanner), None);
}

#[test]
fn test_char_string() {
    char_string_on("'A'", Lexeme::CharLiteral('A'));
    char_string_on(r"'\r'", Lexeme::CharLiteral('\r'));
    char_string_on(r"'\ESC'", Lexeme::CharLiteral('\x1b'));
    char_string_on(r"'\^X'", Lexeme::CharLiteral('\x18'));
    char_string_on(r#""A\r\ESC\^X""#, Lexeme::StringLiteral("A\r\x1b\x18".to_string()));
    char_string_on(
        r#""\SO\&H\SOH\4\&2\
                      \Some\&Other\nText""#,
        Lexeme::StringLiteral("\x0eH\x01\x042SomeOther\nText".to_string()),
    );
}

fn whitestuff_on(input: &str) {
    let mut scanner = scanner_on(input);
    assert_eq!(scanner.whitestuff(), Result3::Success(()));
    assert_eq!(Scanner::next(&mut scanner), None);
}

#[test]
fn whitespace_test_whitespace() {
    whitestuff_on("\r\n");
    whitestuff_on("\r");
    whitestuff_on("\n");
    whitestuff_on("--- Comment123!@#$%^&*()-=_+[]{}\\|;:'\",<.>/?`~\n");
    whitestuff_on("{- {--- AA -} B--}");
}

fn numeric_on(input: &str, res: Lexeme) {
    let mut scanner = scanner_on(input);
    assert_eq!(scanner.numeric_literal(), Result3::Success(res));
    assert_eq!(Scanner::next(&mut scanner), None);
}

#[test]
fn test_numerics() {
    numeric_on("42", Lexeme::Integer(BigInt::from(42).to_string()));
    numeric_on("0xcd", Lexeme::Integer(BigInt::from(0xcd).to_string()));
    numeric_on("0o42", Lexeme::Integer(BigInt::from(0o42).to_string()));
    numeric_on("3.1415", Lexeme::Float(ratio(31415, 10000)));
    numeric_on("1.5e4", Lexeme::Float(whole(15000)));
    numeric_on("1.5e+3", Lexeme::Float(whole(1500)));
    numeric_on("1.5e-2", Lexeme::Float(ratio(15, 1000)));
}

fn test_source() -> Vec<char> {
    let lines = [
        "module Main where",
        "import Prelude hiding (Integer)",
        "main :: IO ()",
        "main = do",
        "    name <- getLine",
        "    putStrLn (\"Hello, \" <> name <> \"!\")",
        "    pure ()",
    ];
    let mut text = String::new();
    for line in lines.iter() {
        text.push_str(line);
        text.push('\n');
    }
    text.chars().collect()
}

#[test]
fn test_raw_iterator() {
    let mut it = RawLexemeIterator::new(test_source());
    let mut found = Vec::new();
    while let Some(l) = it.next() {
        found.push(l);
    }
    assert_eq!(
        found,
        vec![
            Lexeme::ReservedId(RId::Module),
            Lexeme::Identifier("Main".to_string()),
            Lexeme::ReservedId(RId::Where),
            Lexeme::ReservedId(RId::Import),
            Lexeme::Identifier("Prelude".to_string()),
            Lexeme::Identifier("hiding".to_string()),
            Lexeme::OpenParenthesis,
            Lexeme::Identifier("Integer".to_string()),
            Lexeme::CloseParenthesis,
            Lexeme::Identifier("main".to_string()),
            Lexeme::ReservedOp(ROp::ColonColon),
            Lexeme::Identifier("IO".to_string()),
            Lexeme::OpenParenthesis,
            Lexeme::CloseParenthesis,
            Lexeme::Identifier("main".to_string()),
            Lexeme::ReservedOp(ROp::EqualSign),
            Lexeme::ReservedId(RId::Do),
            Lexeme::Identifier("name".to_string()),
            Lexeme::ReservedOp(ROp::LeftArrow),
            Lexeme::Identifier("getLine".to_string()),
            Lexeme::Identifier("putStrLn".to_string()),
            Lexeme::OpenParenthesis,
            Lexeme::StringLiteral("Hello, ".to_string()),
            Lexeme::Operator("<>".to_string()),
            Lexeme::Identifier("name".to_string()),
            Lexeme::Operator("<>".to_string()),
            Lexeme::StringLiteral("!".to_string()),
            Lexeme::CloseParenthesis,
            Lexeme::Identifier("pure".to_string()),
            Lexeme::OpenParenthesis,
            Lexeme::CloseParenthesis,
        ]
    );
    let (err, _) = it.into_scanner();
    assert_eq!(err, None);
}

#[test]
fn test_enriched_iterator() {
    let mut it = EnrichedLexemeIterator::new(test_source());
    let mut res = String::new();
    while let Some(t) = it.next() {
        res += &format!("{}\n", t.to_string());
    }
    let expected = [
        "1:1-1:7: module",
        "1:8-1:12: Main",
        "1:13-1:18: where",
        "{1}",
        "2:1-2:7: import",
        "2:8-2:15: Prelude",
        "2:16-2:22: hiding",
        "2:23-2:24: (",
        "2:24-2:31: Integer",
        "2:31-2:32: )",
        "<1>",
        "3:1-3:5: main",
        "3:6-3:8: ::",
        "3:9-3:11: IO",
        "3:12-3:13: (",
        "3:13-3:14: )",
        "<1>",
        "4:1-4:5: main",
        "4:6-4:7: =",
        "4:8-4:10: do",
        "{5}",
        "5:5-5:9: name",
        "5:10-5:12: <-",
        "5:13-5:20: getLine",
        "<5>",
        "6:5-6:13: putStrLn",
        "6:14-6:15: (",
        "6:15-6:24: \"Hello, \"",
        "6:25-6:27: <>",
        "6:28-6:32: name",
        "6:33-6:35: <>",
        "6:36-6:39: \"!\"",
        "6:39-6:40: )",
        "<5>",
        "7:5-7:9: pure",
        "7:10-7:11: (",
        "7:11-7:12: )",
    ];
    let mut wanted = String::new();
    for line in expected.iter() {
        wanted.push_str(line);
        wanted.push('\n');
    }
    assert_eq!(res, wanted);
    let (err, _) = it.into_scanner();
    assert_eq!(err, None);
}

#[test]
fn layout_puts_in_braces_and_semicolons() {
    let it = AugmentedLexemeIterator::new(test_source());
    let mut it = it.ok().unwrap();
    let mut res: Vec<String> = Vec::new();
    while let Some(t) = it.next() {
        res.push(match t {
            AugmentedLexeme::Real(l, _) => l.to_string(),
            other => other.to_string(),
        });
    }
    let wanted = [
        "module", "Main", "where", "<phantom>: {", "import", "Prelude", "hiding", "(", "Integer", ")",
        "<phantom>: ;", "main", "::", "IO", "(", ")", "<phantom>: ;", "main", "=", "do", "<phantom>: {", "name",
        "<-", "getLine", "<phantom>: ;", "putStrLn", "(", "\"Hello, \"", "<>", "name", "<>", "\"!\"", ")",
        "<phantom>: ;", "pure", "(", ")", "<phantom>: }", "<phantom>: }",
    ];
    assert_eq!(res, wanted.iter().map(|s| s.to_string()).collect::<Vec<String>>());
}

fn place(line: usize, column: usize, offset: usize) -> Location {
    Location { line, column, offset }
}

#[test]
fn layout_closes_blocks_that_are_indented_more() {
    let range = Range { begin: place(1, 1, 0), end: place(1, 2, 1) };
    let x = || Lexeme::Identifier("x".to_string());
    let input = vec![
        EnrichedLexeme::CurlyN(1),
        EnrichedLexeme::Normal(x(), range),
        EnrichedLexeme::CurlyN(5),
        EnrichedLexeme::Normal(x(), range),
        EnrichedLexeme::AngleN(1),
        EnrichedLexeme::Normal(x(), range),
        EnrichedLexeme::CurlyN(1),
        EnrichedLexeme::Normal(x(), range),
    ];
    let out = augment(input).ok().unwrap();
    assert_eq!(
        out,
        vec![
            AugmentedLexeme::PhantomOpenCurlyBracket,
            AugmentedLexeme::Real(x(), range),
            AugmentedLexeme::PhantomOpenCurlyBracket,
            AugmentedLexeme::Real(x(), range),
            AugmentedLexeme::PhantomCloseCurlyBracket,
            AugmentedLexeme::PhantomSemicolon,
            AugmentedLexeme::Real(x(), range),
            AugmentedLexeme::PhantomOpenCurlyBracket,
            AugmentedLexeme::PhantomCloseCurlyBracket,
            AugmentedLexeme::PhantomSemicolon,
            AugmentedLexeme::Real(x(), range),
            AugmentedLexeme::PhantomCloseCurlyBracket,
        ]
    );
}

#[test]
fn layout_refuses_braces_that_do_not_match() {
    let range = Range { begin: place(1, 1, 0), end: place(1, 2, 1) };
    let closes_a_layout_block =
        vec![EnrichedLexeme::CurlyN(1), EnrichedLexeme::Normal(Lexeme::CloseCurlyBracket, range)];
    assert_eq!(augment(closes_a_layout_block), Err(MismatchedBrackets));
    let never_closed = vec![EnrichedLexeme::Normal(Lexeme::OpenCurlyBracket, range)];
    assert_eq!(augment(never_closed), Err(MismatchedBrackets));
    let matched = vec![
        EnrichedLexeme::Normal(Lexeme::OpenCurlyBracket, range),
        EnrichedLexeme::Normal(Lexeme::CloseCurlyBracket, range),
    ];
    assert_eq!(
        augment(matched),
        Ok(vec![
            AugmentedLexeme::Real(Lexeme::OpenCurlyBracket, range),
            AugmentedLexeme::Real(Lexeme::CloseCurlyBracket, range),
        ])
    );
    assert_eq!(augment(Vec::new()), Ok(Vec::new()));
}

#[test]
fn white_space_moves_the_place() {
    let mut scanner = scanner_on("  \t x\ny");
    assert_eq!(scanner.whitespace(), Result3::Success(()));
    assert_eq!(scanner.location(), place(1, 9, 5));
    assert_eq!(Scanner::next(&mut scanner), Some('x'));
    assert_eq!(scanner.whitespace(), Result3::Success(()));
    assert_eq!(scanner.location(), place(2, 1, 7));
    assert_eq!(scanner.whitespace(), Result3::RetryLater(()));
    assert_eq!(scanner.location(), place(2, 1, 7));
    assert!(scanner.diagnostics().is_empty());
}

#[test]
fn a_comment_needs_its_line_break_and_no_symbol() {
    let mut scanner = scanner_on("-- no end");
    assert_eq!(scanner.whitestuff(), Result3::RetryLater(()));
    assert_eq!(Scanner::next(&mut scanner), Some('-'));
    let mut scanner = scanner_on("--> x\n");
    assert_eq!(scanner.whitestuff(), Result3::RetryLater(()));
    let mut scanner = scanner_on("--\nx");
    assert_eq!(scanner.whitestuff(), Result3::Success(()));
    assert_eq!(Scanner::next(&mut scanner), Some('x'));
}

#[test]
fn an_open_block_comment_is_reported() {
    let mut scanner = scanner_on("{- {- -} x");
    assert_eq!(scanner.whitestuff(), Result3::Success(()));
    assert_eq!(Scanner::next(&mut scanner), None);
    let end = place(1, 11, 10);
    assert_eq!(
        scanner.diagnostics().clone(),
        vec![Diagnostic {
            location: end,
            range: Some(Range { begin: place(1, 1, 0), end }),
            message: DiagnosticMessage::Error(Error::IncompleteLexeme(LexemeType::Whitespace)),
        }]
    );
}

#[test]
fn a_character_that_is_not_accepted_is_reported() {
    let mut scanner = scanner_on("\"a\u{1}b\"");
    assert_eq!(scanner.char_or_string(), Result3::Success(Lexeme::StringLiteral("a\u{1}b".to_string())));
    assert_eq!(
        scanner.diagnostics().clone(),
        vec![Diagnostic {
            location: place(1, 4, 3),
            range: None,
            message: DiagnosticMessage::Error(Error::InvalidChar('\u{1}')),
        }]
    );
}

#[test]
fn reserved_words_and_operators() {
    let word = |s: &str| -> ScanResult<Lexeme> { scanner_on(s).id_or_sym() };
    assert_eq!(word("where"), Result3::Success(Lexeme::ReservedId(RId::Where)));
    assert_eq!(word("_"), Result3::Success(Lexeme::ReservedId(RId::Wildcard)));
    assert_eq!(word("wherever"), Result3::Success(Lexeme::Identifier("wherever".to_string())));
    assert_eq!(word("=>"), Result3::Success(Lexeme::ReservedOp(ROp::DoubleRightArrow)));
    assert_eq!(word(".."), Result3::Success(Lexeme::ReservedOp(ROp::DotDot)));
    assert_eq!(word(":"), Result3::Success(Lexeme::ReservedOp(ROp::Colon)));
    assert_eq!(word(":+"), Result3::Success(Lexeme::Operator(":+".to_string())));
    assert_eq!(word("^"), Result3::Success(Lexeme::ReservedOp(ROp::Tilde)));
    assert_eq!(word("~"), Result3::Success(Lexeme::Operator("~".to_string())));
    assert_eq!(word("F.where"), Result3::Success(Lexeme::Identifier("F".to_string())));
    assert_eq!(
        word("Mod.SubMod.Type.function"),
        Result3::Success(Lexeme::QIdentifier(QName {
            module: ModuleId(vec!["Mod".to_string(), "SubMod".to_string(), "Type".to_string()]),
            name: "function".to_string(),
        }))
    );
    assert_eq!(
        word("F.+"),
        Result3::Success(Lexeme::QOperator(QName { module: ModuleId(vec!["F".to_string()]), name: "+".to_string() }))
    );
    assert_eq!(word("42"), Result3::RetryLater(()));
    assert_eq!(word(""), Result3::RetryLater(()));
}

#[test]
fn special_characters() {
    let all = "(),;[]`{}";
    let wanted = [
        Lexeme::OpenParenthesis,
        Lexeme::CloseParenthesis,
        Lexeme::Comma,
        Lexeme::Semicolon,
        Lexeme::OpenSquareBracket,
        Lexeme::CloseSquareBracket,
        Lexeme::Backtick,
        Lexeme::OpenCurlyBracket,
        Lexeme::CloseCurlyBracket,
    ];
    let mut scanner = scanner_on(all);
    for l in wanted.iter() {
        assert_eq!(scanner.special(), Result3::Success(l.clone()));
    }
    assert_eq!(scanner.special(), Result3::RetryLater(()));
    assert_eq!(scanner_on("x").special(), Result3::RetryLater(()));
}

#[test]
fn integers_in_three_bases() {
    let number = |s: &str| -> ScanResult<Lexeme> { scanner_on(s).numeric_literal() };
    assert_eq!(number("0"), Result3::Success(Lexeme::Integer("0".to_string())));
    assert_eq!(number("007"), Result3::Success(Lexeme::Integer("7".to_string())));
    assert_eq!(number("0XfF"), Result3::Success(Lexeme::Integer("255".to_string())));
    assert_eq!(number("0O17"), Result3::Success(Lexeme::Integer("15".to_string())));
    assert_eq!(
        number("340282366920938463463374607431768211456"),
        Result3::Success(Lexeme::Integer("340282366920938463463374607431768211456".to_string()))
    );
    assert_eq!(
        number("0xffffffffffffffffffffffff"),
        Result3::Success(Lexeme::Integer("79228162514264337593543950335".to_string()))
    );
    assert_eq!(number("x"), Result3::RetryLater(()));
    let mut scanner = scanner_on("0o9");
    assert_eq!(scanner.numeric_literal(), Result3::Success(Lexeme::Integer("0".to_string())));
    assert_eq!(Scanner::next(&mut scanner), Some('o'));
}

#[test]
fn floats_are_fractions_in_lowest_terms() {
    let number = |s: &str| -> ScanResult<Lexeme> { scanner_on(s).numeric_literal() };
    assert_eq!(number("0.50"), Result3::Success(Lexeme::Float(ratio(1, 2))));
    assert_eq!(number("2e3"), Result3::Success(Lexeme::Float(whole(2000))));
    assert_eq!(number("2E-3"), Result3::Success(Lexeme::Float(ratio(1, 500))));
    assert_eq!(number("0.0"), Result3::Success(Lexeme::Float(ratio(0, 10))));
    assert_eq!(
        number("12.5e1"),
        Result3::Success(Lexeme::Float(Ratio { numerator: "125".to_string(), denominator: "1".to_string() }))
    );
}

#[test]
fn a_float_with_an_exponent_beyond_the_bound_is_reported() {
    let mut scanner = scanner_on("1e5000");
    assert_eq!(
        scanner.numeric_literal(),
        Result3::Success(Lexeme::Float(Ratio { numerator: "1".to_string(), denominator: "0".to_string() }))
    );
    let end = place(1, 7, 6);
    assert_eq!(
        scanner.diagnostics().clone(),
        vec![Diagnostic {
            location: end,
            range: Some(Range { begin: place(1, 1, 0), end }),
            message: DiagnosticMessage::Error(Error::FloatOutOfBound(5000)),
        }]
    );
    let mut scanner = scanner_on("1.5e-4096");
    assert_eq!(
        scanner.numeric_literal(),
        Result3::Success(Lexeme::Float(Ratio { numerator: "-1".to_string(), denominator: "0".to_string() }))
    );
    assert_eq!(scanner.diagnostics().len(), 1);
    let mut scanner = scanner_on("1e4096");
    assert!(matches!(scanner.numeric_literal(), Result3::Success(Lexeme::Float(_))));
    assert!(scanner.diagnostics().is_empty());
    let mut scanner = scanner_on("1e99999999999999999999999999");
    assert_eq!(
        scanner.numeric_literal(),
        Result3::Success(Lexeme::Float(Ratio { numerator: "1".to_string(), denominator: "0".to_string() }))
    );
    assert_eq!(scanner.diagnostics()[0].message, DiagnosticMessage::Error(Error::FloatOutOfBound(1_000_000_000_000)));
}

#[test]
fn what_stands_for_the_exponent_is_read_with_the_fraction() {
    let mut scanner = scanner_on("1.5)");
    assert_eq!(scanner.numeric_literal(), Result3::Success(Lexeme::Float(ratio(3, 2))));
    assert_eq!(Scanner::next(&mut scanner), None);
    let mut scanner = scanner_on("1.5e+x");
    assert_eq!(scanner.numeric_literal(), Result3::Success(Lexeme::Float(ratio(3, 2))));
    assert_eq!(Scanner::next(&mut scanner), Some('x'));
    let mut scanner = scanner_on("15e");
    assert_eq!(scanner.numeric_literal(), Result3::Success(Lexeme::Integer("15".to_string())));
    assert_eq!(Scanner::next(&mut scanner), Some('e'));
}

#[test]
fn numeric_escapes() {
    let literal = |s: &str| -> ScanResult<Lexeme> { scanner_on(s).char_or_string() };
    assert_eq!(literal(r"'\65'"), Result3::Success(Lexeme::CharLiteral('A')));
    assert_eq!(literal(r"'\o101'"), Result3::Success(Lexeme::CharLiteral('A')));
    assert_eq!(literal(r"'\x41'"), Result3::Success(Lexeme::CharLiteral('A')));
    assert_eq!(literal(r"'\1114111'"), Result3::Success(Lexeme::CharLiteral('\u{10FFFF}')));
    assert_eq!(literal(r"'\DEL'"), Result3::Success(Lexeme::CharLiteral('!')));
    assert_eq!(literal(r"'\^@'"), Result3::Success(Lexeme::CharLiteral('\0')));
    assert_eq!(literal(r"'\&'"), Result3::RetryLater(()));
    assert_eq!(literal("'ab'"), Result3::RetryLater(()));
    assert_eq!(literal("\"open"), Result3::RetryLater(()));
    let mut scanner = scanner_on(r"'\1114112'");
    assert_eq!(scanner.char_or_string(), Result3::Success(Lexeme::CharLiteral('\u{FFFD}')));
    let end = place(1, 10, 9);
    assert_eq!(
        scanner.diagnostics().clone(),
        vec![Diagnostic {
            location: end,
            range: Some(Range { begin: place(1, 3, 2), end }),
            message: DiagnosticMessage::Error(Error::CharOutOfBound(1114112)),
        }]
    );
    let mut scanner = scanner_on(r"'\55296'x");
    assert_eq!(scanner.char_or_string(), Result3::Success(Lexeme::CharLiteral('\u{FFFD}')));
    assert_eq!(scanner.diagnostics().len(), 1);
    let mut scanner = scanner_on(r"'\99999999999999999999'");
    assert_eq!(scanner.char_or_string(), Result3::Success(Lexeme::CharLiteral('\u{FFFD}')));
    assert_eq!(scanner.diagnostics()[0].message, DiagnosticMessage::Error(Error::CharOutOfBound(0x1_0000_0000)));
}

#[test]
fn what_failed_is_unread_and_unreported() {
    let mut scanner = scanner_on("\"\\1114112 never closed");
    assert_eq!(scanner.char_or_string(), Result3::RetryLater(()));
    assert!(scanner.diagnostics().is_empty());
    assert_eq!(scanner.location(), place(1, 1, 0));
    assert_eq!(Scanner::next(&mut scanner), Some('"'));
    let mut scanner = scanner_on("ab");
    let mark = scanner.anchor();
    scanner.advance(2);
    assert_eq!(scanner.remaining(), 0);
    scanner.revert(&mark);
    assert_eq!(scanner.remaining(), 2);
    assert_eq!(scanner.location(), place(1, 1, 0));
}

#[test]
fn a_gap_in_a_string_counts_its_lines() {
    let mut scanner = scanner_on("\"a\\\n  \\b\" c");
    assert_eq!(scanner.char_or_string(), Result3::Success(Lexeme::StringLiteral("ab".to_string())));
    assert_eq!(scanner.location(), place(2, 6, 9));
}

#[test]
fn lexemes_with_their_places() {
    let (found, scanner) = lex("f x =\n  x + 1.5e1 -- end\n".chars().collect());
    let texts: Vec<String> = found.iter().map(|(l, r)| format!("{} {}", r.to_string(), l.to_string())).collect();
    assert_eq!(
        texts,
        vec!["1:1-1:2 f", "1:3-1:4 x", "1:5-1:6 =", "2:3-2:4 x", "2:5-2:6 +", "2:7-2:12 15 % 1"]
    );
    assert!(scanner.diagnostics().is_empty());
    assert_eq!(scanner.remaining(), 0);
    assert_eq!(scanner.location().line, 3);
    let mut it = FatLexemeIterator::new("a 'b'".chars().collect());
    assert_eq!(
        it.next(),
        Some((Lexeme::Identifier("a".to_string()), Range { begin: place(1, 1, 0), end: place(1, 2, 1) }))
    );
    assert_eq!(it.next(), Some((Lexeme::CharLiteral('b'), Range { begin: place(1, 3, 2), end: place(1, 6, 5) })));
    assert_eq!(it.next(), None);
    let (err, _) = it.into_scanner();
    assert_eq!(err, None);
}

#[test]
fn lexemes_are_printed_as_written() {
    assert_eq!(Lexeme::ReservedOp(ROp::Tilde).to_string(), "~");
    assert_eq!(Lexeme::ReservedId(RId::Newtype).to_string(), "newtype");
    assert_eq!(Lexeme::CharLiteral('\n').to_string(), "'\\n'");
    assert_eq!(Lexeme::StringLiteral("a\"b".to_string()).to_string(), "\"a\\\"b\"");
    assert_eq!(Lexeme::Float(ratio(3, 6)).to_string(), "1 % 2");
    assert_eq!(
        Lexeme::QOperator(QName { module: ModuleId(vec!["A".to_string(), "B".to_string()]), name: "+".to_string() })
            .to_string(),
        "A.B.+"
    );
    assert_eq!(EnrichedLexeme::CurlyN(12).to_string(), "{12}");
    assert_eq!(EnrichedLexeme::AngleN(0).to_string(), "<0>");
    assert_eq!(AugmentedLexeme::PhantomSemicolon.to_string(), "<phantom>: ;");
}

#[test]
fn fractions_in_lowest_terms() {
    let r = Ratio::new("31415".to_string(), "10000".to_string());
    assert_eq!((r.numerator.as_str(), r.denominator.as_str()), ("6283", "2000"));
    let r = Ratio::new("0".to_string(), "8".to_string());
    assert_eq!((r.numerator.as_str(), r.denominator.as_str()), ("0", "1"));
    let r = Ratio::new("7".to_string(), "0".to_string());
    assert_eq!((r.numerator.as_str(), r.denominator.as_str()), ("1", "0"));
    let r = Ratio::whole("12".to_string());
    assert_eq!((r.numerator.as_str(), r.denominator.as_str()), ("12", "1"));
}

#[test]
fn bytes_are_taken_apart() {
    use_segments(b"", vec![]);
    use_segments("h\u{e9}".as_bytes(), vec![(0, 3, Some("h\u{e9}"))]);
    use_segments(b"ab\xFFcd", vec![(0, 2, Some("ab")), (2, 3, None), (3, 5, Some("cd"))]);
    use_segments(b"a\xE2\x82", vec![(0, 1, Some("a")), (1, 3, None)]);
    use_segments(b"\xC0\x80", vec![(0, 1, None), (1, 2, None)]);
    let segments = decode(b"ab\xFFcd");
    assert_eq!(characters(&segments), vec!['a', 'b', 'c', 'd']);
}

fn use_segments(bytes: &[u8], wanted: Vec<(usize, usize, Option<&str>)>) {
    let found: Vec<(usize, usize, Option<String>)> = decode(bytes)
        .into_iter()
        .map(|s| (s.begin, s.end, s.text.map(|t| t.into_iter().collect::<String>())))
        .collect();
    let wanted: Vec<(usize, usize, Option<String>)> =
        wanted.into_iter().map(|(b, e, t)| (b, e, t.map(|t| t.to_string()))).collect();
    assert_eq!(found, wanted);
}

#[test]
fn fractions_are_added_over_the_common_multiple() {
    let half = Ratio { numerator: "1".to_string(), denominator: "2".to_string() };
    let third = Ratio { numerator: "1".to_string(), denominator: "3".to_string() };
    let sum = half.add(third);
    assert_eq!((sum.numerator.as_str(), sum.denominator.as_str()), ("5", "6"));
    let a = Ratio { numerator: "1".to_string(), denominator: "4".to_string() };
    let b = Ratio { numerator: "1".to_string(), denominator: "4".to_string() };
    let sum = a.add(b);
    assert_eq!((sum.numerator.as_str(), sum.denominator.as_str()), ("2", "4"));
}

fn digit(s: &mut Scanner) -> Option<char> {
    match s.peek() {
        Some(c) if c.is_ascii_digit() => {
            s.advance(1);
            Some(c)
        }
        _ => None,
    }
}

fn sign(which: char) -> impl Fn(&mut Scanner) -> Option<()> {
    move |s: &mut Scanner| match s.peek() {
        Some(c) if c == which => {
            s.advance(1);
            Some(())
        }
        _ => None,
    }
}

fn push(mut acc: String, c: char) -> String {
    acc.push(c);
    acc
}

#[test]
fn a_rule_that_fails_is_undone() {
    let mut scanner = scanner_on("12x");
    let two_digits_and_a_dot = |s: &mut Scanner| -> Option<()> {
        digit(s)?;
        digit(s)?;
        sign('.')(s)
    };
    assert_eq!(scanner.anchored(two_digits_and_a_dot), None);
    assert_eq!(scanner.remaining(), 3);
    assert_eq!(scanner.location(), place(1, 1, 0));
    let two_digits = |s: &mut Scanner| -> Option<char> {
        digit(s)?;
        digit(s)
    };
    assert_eq!(scanner.anchored(two_digits), Some('2'));
    assert_eq!(scanner.remaining(), 1);
    let kept: ScanResult<u8> = scanner.anchored(|s: &mut Scanner| {
        s.advance(1);
        s.expected::<u8>(LexemeType::Integer)
    });
    assert!(matches!(kept, Result3::FailFast(_)));
    assert_eq!(scanner.remaining(), 0);
}

#[test]
fn rules_are_repeated() {
    let mut scanner = scanner_on("123,45;6;x");
    let all: Option<String> = scanner.many(&digit, String::new(), &push);
    assert_eq!(all, Some("123".to_string()));
    let none: Option<String> = scanner.many(&digit, String::new(), &push);
    assert_eq!(none, Some(String::new()));
    let missing: Option<String> = scanner.some(&digit, String::new(), &push);
    assert_eq!(missing, None);
    assert_eq!(Scanner::next(&mut scanner), Some(','));
    let more: Option<String> = scanner.some(&digit, String::new(), &push);
    assert_eq!(more, Some("45".to_string()));
    let ended: Option<String> = scanner.end_by(&digit, &sign(';'), String::new(), &push);
    assert_eq!(ended, Some(String::new()));
    assert_eq!(Scanner::next(&mut scanner), Some(';'));
    let ended: Option<String> = scanner.end_by(&digit, &sign(';'), String::new(), &push);
    assert_eq!(ended, Some("6".to_string()));
    assert_eq!(Scanner::next(&mut scanner), Some('x'));
    let mut scanner = scanner_on("1,2,3,x");
    let items: Option<String> = scanner.sep_by(&digit, &sign(','), String::new(), &push);
    assert_eq!(items, Some("123".to_string()));
    // the comma without an item behind it is not read
    assert_eq!(Scanner::next(&mut scanner), Some(','));
    let items: Option<String> = scanner.sep_by(&digit, &sign(','), String::new(), &push);
    assert_eq!(items, None);
}

#[test]
fn a_text_is_read_or_left() {
    let mut scanner = scanner_on("where x");
    assert!(!scanner.match_str("when"));
    assert_eq!(scanner.remaining(), 7);
    assert!(scanner.match_str("where"));
    assert_eq!(scanner.location(), place(1, 6, 5));
    assert!(scanner.match_str(""));
    assert!(!scanner.match_str(" x and more"));
}
