use mini_haskell::lexeme::{Lexeme, LexemeType, QName, RId, ROp};
use mini_haskell::scanner::layout::{enrich, EnrichedLexeme};
use mini_haskell::scanner::{Location, Range, Scanner, TAB_SIZE};
use mini_haskell::utils::iter::IterStream;
use mini_haskell::utils::{round_to, Either, Maybe, Result3};

#[test]
fn round_to_rounds_up() {
    assert_eq!(round_to(20, 42), 42);
    assert_eq!(round_to(1120, 1024), 2048);
    assert_eq!(round_to(2048, 32), 2048);
    assert_eq!(round_to(0, 8), 0);
}

#[test]
fn location_moves() {
    let mut l = Location::new();
    assert_eq!((l.line, l.column, l.offset), (1, 1, 0));
    l.step();
    assert_eq!((l.line, l.column, l.offset), (1, 2, 1));
    l.newline();
    assert_eq!((l.line, l.column, l.offset), (2, 1, 1));
    l.tablise();
    assert_eq!((l.line, l.column, l.offset), (2, TAB_SIZE, 2));
    l.tablise();
    assert_eq!((l.line, l.column, l.offset), (2, 2 * TAB_SIZE, 3));
    let r = Range { begin: Location::new(), end: l };
    assert_eq!(r.to_string(), "1:1-2:16");
}

#[test]
fn qualified_names() {
    let mut q = QName::new("Mod".to_string());
    assert_eq!(q.to_string(), "Mod");
    q.append("SubMod".to_string());
    q.append("function".to_string());
    assert_eq!(q.module.0, vec!["Mod".to_string(), "SubMod".to_string()]);
    assert_eq!(q.name, "function");
    assert_eq!(q.to_string(), "Mod.SubMod.function");
}

#[test]
fn lexeme_types() {
    assert_eq!(Lexeme::Identifier("x".to_string()).get_type(), LexemeType::Identifier);
    assert_eq!(Lexeme::ReservedOp(ROp::ColonColon).get_type(), LexemeType::ReservedOp);
    assert_eq!(Lexeme::Comma.get_type(), LexemeType::Special);
    assert!(Lexeme::ReservedId(RId::Do).opens_block());
    assert!(!Lexeme::ReservedId(RId::If).opens_block());
    assert!(Lexeme::ReservedId(RId::Module).is_module());
    assert!(Lexeme::OpenCurlyBracket.is_open_curly());
    assert!(Lexeme::CloseCurlyBracket.is_close_curly());
}

#[test]
fn results_convert() {
    let s: Result3<u8, (), ()> = Maybe::just(3);
    assert!(s.is_just());
    assert_eq!(s.into_optional(), Some(3));
    let r: Result3<u8, char, ()> = Result3::FailFast('x');
    assert!(r.is_nothing());
    assert!(matches!(r.into_result(), Ok(Err('x'))));
    let l: Result3<u8, char, u16> = Either::left(9);
    assert!(matches!(l.into_result(), Err(9)));
    let o: Option<u8> = Either::right(1);
    assert_eq!(o, Some(1));
    assert_eq!(Option::<u8>::None.into_result(), Err(()));
    let ok: Result<u8, char> = Maybe::just(2);
    assert_eq!(ok.into_optional(), Some(2));
}

#[test]
fn scanner_errors() {
    let scanner = Scanner::new("x".chars().collect());
    let e = scanner.err_expected(LexemeType::Integer);
    assert_eq!(e.expected, LexemeType::Integer);
    assert_eq!(e.unexpected, Some('x'));
    assert!(matches!(scanner.expected::<u8>(LexemeType::Float), Result3::FailFast(_)));
    assert!(matches!(Scanner::keep_trying::<u8>(), Result3::RetryLater(())));
}

fn at(line: usize, column: usize, width: usize) -> Range {
    Range {
        begin: Location { line, column, offset: 0 },
        end: Location { line, column: column + width, offset: 0 },
    }
}

fn show(e: &EnrichedLexeme) -> String {
    match e {
        EnrichedLexeme::CurlyN(n) => format!("{{{}}}", n),
        EnrichedLexeme::AngleN(n) => format!("<{}>", n),
        EnrichedLexeme::Normal(_, r) => r.to_string(),
    }
}

#[test]
fn enrich_marks_blocks_and_lines() {
    let source = vec![
        (Lexeme::ReservedId(RId::Module), at(1, 1, 6)),
        (Lexeme::Identifier("Main".to_string()), at(1, 8, 4)),
        (Lexeme::ReservedId(RId::Where), at(1, 13, 5)),
        (Lexeme::Identifier("main".to_string()), at(2, 1, 4)),
        (Lexeme::ReservedOp(ROp::EqualSign), at(2, 6, 1)),
        (Lexeme::ReservedId(RId::Do), at(2, 8, 2)),
        (Lexeme::Identifier("pure".to_string()), at(3, 5, 4)),
        (Lexeme::Identifier("x".to_string()), at(4, 5, 1)),
        (Lexeme::ReservedId(RId::Of), at(4, 7, 2)),
    ];
    let shown: Vec<String> = enrich(source).iter().map(show).collect();
    assert_eq!(
        shown,
        vec![
            "1:1-1:7", "1:8-1:12", "1:13-1:18", "{1}", "2:1-2:5", "2:6-2:7", "2:8-2:10", "{5}", "3:5-3:9",
            "<5>", "4:5-4:6", "4:7-4:9", "{0}"
        ]
    );
    let shown: Vec<String> = enrich(vec![(Lexeme::Identifier("x".to_string()), at(1, 3, 1))]).iter().map(show).collect();
    assert_eq!(shown, vec!["{3}", "1:3-1:4"]);
    assert!(enrich(Vec::new()).is_empty());
}

fn kind_on(input: &str, kind: LexemeType, slice: &str) {
    let mut scanner = Scanner::new(input.chars().collect());
    let before = scanner.remaining();
    match scanner.id_or_sym() {
        Result3::Success(l) => assert_eq!(l.get_type(), kind),
        _ => panic!("no lexeme"),
    }
    assert_eq!(before - scanner.remaining(), slice.chars().count());
}

#[test]
fn lexeme_test_whitespace() {
    let input = " \r\n\n\r\t\u{C}";
    let mut scanner = Scanner::new(input.chars().collect());
    assert_eq!(scanner.whitespace(), Result3::Success(()));
    assert_eq!(scanner.remaining(), 0);
    let mut scanner = Scanner::new("--- | test comment here\n".chars().collect());
    assert_eq!(scanner.comment(), Some(()));
    assert_eq!(scanner.remaining(), 0);
    let mut scanner = Scanner::new("{- some {{-- nest -- -} block comment -}".chars().collect());
    assert_eq!(scanner.ncomment(), Some(()));
    assert_eq!(scanner.remaining(), 0);
    assert!(scanner.diagnostics().is_empty());
}

#[test]
fn test_identifiers() {
    kind_on("some'Identifier_42", LexemeType::Identifier, "some'Identifier_42");
    kind_on("Ctor_''233'_", LexemeType::Identifier, "Ctor_''233'_");
    kind_on("Mod.SubMod.Class", LexemeType::QIdentifier, "Mod.SubMod.Class");
    kind_on("Mod.SubMod.Type.function", LexemeType::QIdentifier, "Mod.SubMod.Type.function");
    kind_on("+", LexemeType::Operator, "+");
    kind_on(".", LexemeType::Operator, ".");
    kind_on("F.+", LexemeType::QOperator, "F.+");
    kind_on("F..", LexemeType::QOperator, "F..");
    kind_on("F.", LexemeType::Identifier, "F");
}

#[test]
fn items_of_a_stream_are_looked_at_and_put_back() {
    let mut stream = IterStream::from(vec![1, 2, 3, 4].into_iter());
    assert_eq!(stream.peek(1), Some(&2));
    assert_eq!(stream.peek(0), Some(&1));
    assert_eq!(stream.peek(4), None);
    assert_eq!(stream.next(), Some(1));
    stream.put_back(7);
    assert_eq!(stream.next(), Some(7));
    {
        let mut ahead = stream.multi_peek();
        assert_eq!(ahead.peek(), Some(2));
        assert_eq!(ahead.peek_ref(), Some(&3));
        assert_eq!(ahead.peek(), Some(4));
        assert_eq!(ahead.peek(), None);
    }
    assert_eq!(stream.next(), Some(2));
    assert_eq!(stream.prepare(2), Some(()));
    assert_eq!(stream.prepare(3), None);
    let (rest, waiting) = stream.unwrap_full();
    assert_eq!(waiting.into_iter().collect::<Vec<i32>>(), vec![3, 4]);
    assert_eq!(rest.collect::<Vec<i32>>(), Vec::<i32>::new());
    let fresh = IterStream::from(vec!['a'].into_iter());
    assert_eq!(fresh.unwrap().collect::<Vec<char>>(), vec!['a']);
}
