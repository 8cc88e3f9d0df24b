use mini_haskell::rlex::ast::char_class::{check_normal, UnicodeCharClass, UnicodeCharRange};

#[test]
fn test_range() {
    assert_eq!(UnicodeCharRange::new('a', 'z').to_string(), "[a-z]");
    assert_eq!(UnicodeCharRange::new_exclusive('a', 'z').to_string(), "[a-y]");
    assert_eq!(UnicodeCharRange::from('a'..'z').to_string(), "[a-y]");
    assert_eq!(UnicodeCharRange::from('a'..).to_string(), "[a-\u{10FFFF}]");
    assert_eq!(UnicodeCharRange::from('a'..='z').to_string(), "[a-z]");
    assert_eq!(UnicodeCharRange::from(..'z').to_string(), "[\0-y]");
    assert_eq!(UnicodeCharRange::from(..='z').to_string(), "[\0-z]");
}

#[test]
fn test_class() {
    assert_eq!(
        UnicodeCharClass::from_ranges(vec![
            UnicodeCharRange::new('2', '3'),
            UnicodeCharRange::new('0', '5'),
            UnicodeCharRange::new('a', 'z'),
            UnicodeCharRange::new('A', 'Z'),
            UnicodeCharRange::new('6', '6'),
        ])
        .to_string(),
        "[[0-6][A-Z][a-z]]"
    );
}

#[test]
fn single_character_range_prints_bare() {
    assert_eq!(UnicodeCharRange::from_char('q').to_string(), "q");
    assert_eq!(UnicodeCharClass::from_char('q').to_string(), "[q]");
    assert_eq!(
        UnicodeCharClass::from_single_range(UnicodeCharRange::new('a', 'z')).to_string(),
        "[a-z]"
    );
    assert_eq!(UnicodeCharClass::empty().to_string(), "[]");
}

#[test]
fn from_ranges_gives_normal_form() {
    let class = UnicodeCharClass::from_ranges(vec![
        UnicodeCharRange::from_raw(10, 20),
        UnicodeCharRange::from_raw(20, 30),
        UnicodeCharRange::from_raw(5, 8),
        UnicodeCharRange::from_raw(7, 9),
        UnicodeCharRange::from_raw(40, 41),
    ]);
    let ranges: Vec<(u32, u32)> = class.iter().iter().map(|r| (r.begin, r.end)).collect();
    assert_eq!(ranges, vec![(5, 9), (10, 30), (40, 41)]);
    assert!(check_normal(class.iter()));
    assert!(!check_normal(&vec![
        UnicodeCharRange::from_raw(1, 2),
        UnicodeCharRange::from_raw(2, 3)
    ]));
}

#[test]
fn end_points_come_in_order() {
    let mut it = UnicodeCharRange::from_raw(3, 9).end_points();
    assert_eq!(it.next(), Some(3));
    assert_eq!(it.next(), Some(9));
    assert_eq!(it.next(), None);
}

#[test]
fn surrogate_end_points_print_as_replacement() {
    assert_eq!(UnicodeCharRange::from_raw(0xD800, 0xE000).to_string(), "[\u{FFFD}-\u{FFFD}]");
}

#[test]
fn ranges_from_characters_and_std_ranges() {
    assert_eq!(UnicodeCharRange::from('a'), UnicodeCharRange { begin: 97, end: 98 });
    assert_eq!(UnicodeCharRange::from('a'..'d'), UnicodeCharRange { begin: 97, end: 100 });
    assert_eq!(UnicodeCharRange::from('a'..='d'), UnicodeCharRange { begin: 97, end: 101 });
    assert_eq!(UnicodeCharRange::from('a'..), UnicodeCharRange { begin: 97, end: 0x110000 });
    assert_eq!(UnicodeCharRange::from(..'d'), UnicodeCharRange { begin: 0, end: 100 });
    assert_eq!(UnicodeCharRange::from(..='d'), UnicodeCharRange { begin: 0, end: 101 });
    let r: UnicodeCharRange = ('x'..='z').into();
    assert_eq!(r.to_string(), "[x-z]");
}
