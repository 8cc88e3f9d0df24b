//! Character classes by name: a symbolic name is normalised by the loose
//! matching rule of Unicode and looked up among the binary properties, then
//! among the values of the general category.

use vstd::prelude::*;
use vstd::string::StrSliceExecFns;
use crate::rlex::ast::char_class::{ranges_normal, UnicodeCharClass, UnicodeCharRange, CODE_POINT_LIMIT};
use crate::text::{push_str, str_eq};

verus! {

/// The tables of Unicode that the lookup of a class needs. The two tables of
/// names map normalised names to canonical ones and are sorted by the
/// normalised name; the two tables of ranges map canonical names to the code
/// points, as ranges with both ends included.
pub struct UnicodeTables {
    pub property_names: &'static [(&'static str, &'static str)],
    pub general_category_values: &'static [(&'static str, &'static str)],
    pub property_bool: &'static [(&'static str, &'static [(u32, u32)])],
    pub general_category: &'static [(&'static str, &'static [(u32, u32)])],
}

/// The order of strings: code point by code point, and a prefix before what
/// it is a prefix of.
pub open spec fn text_lt(a: Seq<char>, b: Seq<char>) -> bool
    decreases a.len(),
{
    if b.len() == 0 {
        false
    } else if a.len() == 0 {
        true
    } else if a[0] != b[0] {
        (a[0] as u32) < (b[0] as u32)
    } else {
        text_lt(a.drop_first(), b.drop_first())
    }
}

/// The table is sorted by its first column, strictly.
pub open spec fn names_sorted(table: Seq<(&'static str, &'static str)>) -> bool {
    forall|i: int, j: int|
        0 <= i < j < table.len() ==> text_lt((#[trigger] table[i]).0@, (#[trigger] table[j]).0@)
}

/// The table has a row for `name`.
pub open spec fn has_name(table: Seq<(&'static str, &'static str)>, name: Seq<char>) -> bool {
    exists|i: int| 0 <= i < table.len() && (#[trigger] table[i]).0@ == name
}

/// The table maps `name` to `canonical`.
pub open spec fn maps_name(table: Seq<(&'static str, &'static str)>, name: Seq<char>, canonical: Seq<char>) -> bool {
    exists|i: int| 0 <= i < table.len() && (#[trigger] table[i]).0@ == name && table[i].1@ == canonical
}

/// Row `i` is the first row of the table of ranges for `canonical`.
pub open spec fn first_row(table: Seq<(&'static str, &'static [(u32, u32)])>, canonical: Seq<char>, i: int) -> bool {
    &&& 0 <= i < table.len()
    &&& table[i].0@ == canonical
    &&& forall|k: int| 0 <= k < i ==> (#[trigger] table[k]).0@ != canonical
}

/// The pairs are ranges in normal form when taken with both ends included.
pub open spec fn pairs_normal(pairs: Seq<(u32, u32)>) -> bool {
    &&& forall|i: int| 0 <= i < pairs.len() ==> (#[trigger] pairs[i]).0 <= pairs[i].1 < CODE_POINT_LIMIT
    &&& forall|i: int, j: int| 0 <= i < j < pairs.len() ==> (#[trigger] pairs[i]).1 + 1 < (#[trigger] pairs[j]).0
}

/// The ranges that the pairs stand for.
pub open spec fn pairs_ranges(pairs: Seq<(u32, u32)>) -> Seq<UnicodeCharRange> {
    Seq::new(pairs.len(), |i: int| UnicodeCharRange { begin: pairs[i].0, end: (pairs[i].1 + 1) as u32 })
}

/// The table of ranges has a first row for `canonical`, with ranges in
/// normal form.
pub open spec fn row_found(ranges: Seq<(&'static str, &'static [(u32, u32)])>, canonical: Seq<char>) -> bool {
    exists|j: int| first_row(ranges, canonical, j) && pairs_normal(ranges[j].1@)
}

/// Every canonical name of the table of names has a row of ranges in normal
/// form in the table of ranges.
pub open spec fn ranges_for_all(
    names: Seq<(&'static str, &'static str)>,
    ranges: Seq<(&'static str, &'static [(u32, u32)])>,
) -> bool {
    forall|i: int| 0 <= i < names.len() ==> row_found(ranges, (#[trigger] names[i]).1@)
}

impl UnicodeTables {
    /// What is asked of the tables: the tables of names are sorted, and the
    /// tables of ranges hold ranges in normal form for every canonical name.
    pub open spec fn wf(&self) -> bool {
        &&& names_sorted(self.property_names@)
        &&& names_sorted(self.general_category_values@)
        &&& ranges_for_all(self.property_names@, self.property_bool@)
        &&& ranges_for_all(self.general_category_values@, self.general_category@)
    }
}

/// The normal form of a symbolic name by the rule UAX44-LM3, as
/// `ucd_util::symbolic_name_normalize` computes it.
pub uninterp spec fn symbolic_name_normal(name: Seq<char>) -> Seq<char>;

/// Normalises a symbolic name. `ucd_util::symbolic_name_normalize`: the
/// result depends on the name alone.
#[verifier::external_body]
fn normalize_name(name: &str) -> (r: String)
    ensures
        r@ == symbolic_name_normal(name@),
{
    let mut s = name.to_string();
    ucd_util::symbolic_name_normalize(&mut s);
    s
}

/// Looks a normalised property name up. `ucd_util::canonical_property_name`
/// searches the table by bisection on its first column: what it finds is
/// the second column of a row for the name, and in a sorted table it finds
/// the name if there is a row for it.
#[verifier::external_body]
fn canonical_name(table: &'static [(&'static str, &'static str)], normalized: &str) -> (r: Option<&'static str>)
    ensures
        match r {
            Some(v) => maps_name(table@, normalized@, v@),
            None => names_sorted(table@) ==> !has_name(table@, normalized@),
        },
{
    ucd_util::canonical_property_name(table, normalized)
}

/// Looks a normalised property value up. `ucd_util::canonical_property_value`
/// searches the table as `canonical_property_name` does.
#[verifier::external_body]
fn canonical_value(table: &'static [(&'static str, &'static str)], normalized: &str) -> (r: Option<&'static str>)
    ensures
        match r {
            Some(v) => maps_name(table@, normalized@, v@),
            None => names_sorted(table@) ==> !has_name(table@, normalized@),
        },
{
    ucd_util::canonical_property_value(table, normalized)
}

/// A class name that is no property of Unicode and no value of the general
/// category.
pub struct UnknownProperty {
    /// The name as it was written.
    pub original: String,
    /// The name after normalisation.
    pub normalized: String,
    /// The number by which the parser knows the place of the name.
    pub span: usize,
}

/// The message for an unknown class name.
pub open spec fn unknown_text(original: Seq<char>, normalized: Seq<char>) -> Seq<char> {
    "'"@ + original
        + "' is not a valid Unicode property, nor is it a valid value for property General_Category, even after normalization specified by UAX44-LM3 (where it becomes '"@
        + normalized + "')."@
}

impl UnknownProperty {
    /// The message: it names the original and the normalised spelling.
    pub fn message(&self) -> (text: String)
        ensures
            text@ == unknown_text(self.original@, self.normalized@),
    {
        let mut text = String::new();
        push_str(&mut text, "'");
        push_str(&mut text, self.original.as_str());
        push_str(
            &mut text,
            "' is not a valid Unicode property, nor is it a valid value for property General_Category, even after normalization specified by UAX44-LM3 (where it becomes '",
        );
        push_str(&mut text, self.normalized.as_str());
        push_str(&mut text, "').");
        proof {
            assert(text@ =~= unknown_text(self.original@, self.normalized@));
        }
        text
    }
}

/// The class of the ranges that the table holds for `canonical`.
fn make_char_class(by_names: &'static [(&'static str, &'static [(u32, u32)])], canonical: &str) -> (r: UnicodeCharClass)
    requires
        exists|j: int| first_row(by_names@, canonical@, j) && pairs_normal(by_names@[j].1@),
    ensures
        exists|j: int| first_row(by_names@, canonical@, j) && r@ == pairs_ranges(by_names@[j].1@),
        r.wf(),
{
    let ghost row = choose|j: int| first_row(by_names@, canonical@, j) && pairs_normal(by_names@[j].1@);
    let mut i: usize = 0;
    while i < by_names.len() && !str_eq(by_names[i].0, canonical)
        invariant
            i <= row,
            first_row(by_names@, canonical@, row),
            forall|k: int| 0 <= k < i ==> (#[trigger] by_names@[k]).0@ != canonical@,
        decreases by_names@.len() - i,
    {
        i += 1;
    }
    proof {
        assert(i == row);
    }
    let pairs = by_names[i].1;
    let mut ranges: Vec<UnicodeCharRange> = Vec::new();
    let mut k: usize = 0;
    while k < pairs.len()
        invariant
            k <= pairs@.len(),
            pairs_normal(pairs@),
            ranges@.len() == k,
            forall|x: int| 0 <= x < k ==> ranges@[x] == pairs_ranges(pairs@)[x],
        decreases pairs@.len() - k,
    {
        let (l, r) = pairs[k];
        proof {
            assert(pairs@[k as int].1 < CODE_POINT_LIMIT);
        }
        ranges.push(UnicodeCharRange::from_raw(l, r + 1));
        k += 1;
    }
    proof {
        assert(ranges@ =~= pairs_ranges(pairs@));
        assert(ranges_normal(ranges@)) by {
            assert forall|x: int| 0 <= x < ranges@.len() implies (#[trigger] ranges@[x]).wf() by {
                assert(pairs@[x].0 <= pairs@[x].1 < CODE_POINT_LIMIT);
            }
            assert forall|x: int, y: int| 0 <= x < y < ranges@.len() implies (#[trigger] ranges@[x]).end < (
            #[trigger] ranges@[y]).begin by {
                assert(pairs@[x].1 + 1 < pairs@[y].0);
                assert(pairs@[x].1 < CODE_POINT_LIMIT);
            }
        }
    }
    UnicodeCharClass::from_sorted(ranges)
}

/// What the lookup of a normalised name gives: `cls` is the class of a
/// binary property to which the name is mapped, or, if it is no such
/// name, of a value of the general category.
pub open spec fn resolved_normal(tables: UnicodeTables, normal: Seq<char>, cls: Seq<UnicodeCharRange>) -> bool {
    if has_name(tables.property_names@, normal) {
        exists|canonical: Seq<char>, j: int|
            maps_name(tables.property_names@, normal, canonical) && #[trigger] first_row(
                tables.property_bool@,
                canonical,
                j,
            ) && cls == pairs_ranges(tables.property_bool@[j].1@)
    } else {
        exists|canonical: Seq<char>, j: int|
            maps_name(tables.general_category_values@, normal, canonical) && #[trigger] first_row(
                tables.general_category@,
                canonical,
                j,
            ) && cls == pairs_ranges(tables.general_category@[j].1@)
    }
}

/// What the lookup of a class name gives: what the lookup of its normal
/// form gives.
pub open spec fn resolved(tables: UnicodeTables, name: Seq<char>, cls: Seq<UnicodeCharRange>) -> bool {
    resolved_normal(tables, symbolic_name_normal(name), cls)
}

/// Whether the normalised name is one of a binary property or of a value
/// of the general category.
pub open spec fn known_normal(tables: UnicodeTables, normal: Seq<char>) -> bool {
    has_name(tables.property_names@, normal) || has_name(tables.general_category_values@, normal)
}

/// Whether the name is one of a binary property or of a value of the
/// general category, after normalisation.
pub open spec fn class_known(tables: UnicodeTables, name: Seq<char>) -> bool {
    known_normal(tables, symbolic_name_normal(name))
}

/// What holds of the outcome of the lookup of the name `original` whose
/// normal form is `normal`: the class of the normal form, or, where the
/// tables have none, the two names and the place.
pub open spec fn found_outcome(
    tables: UnicodeTables,
    original: Seq<char>,
    normal: Seq<char>,
    span: usize,
    r: Result<UnicodeCharClass, UnknownProperty>,
) -> bool {
    match r {
        Ok(cls) => known_normal(tables, normal) && resolved_normal(tables, normal, cls@) && cls.wf(),
        Err(e) => !known_normal(tables, normal) && e.original@ == original && e.normalized@ == normal && e.span
            == span,
    }
}

/// What holds of the outcome of a lookup, whatever the two searches gave.
pub open spec fn lookup_outcome(
    tables: UnicodeTables,
    name: Seq<char>,
    span: usize,
    r: Result<UnicodeCharClass, UnknownProperty>,
) -> bool {
    found_outcome(tables, name, symbolic_name_normal(name), span, r)
}

/// The class with the symbolic name `class_name`: the name is normalised
/// and looked up among the binary properties, then among the values of the
/// general category. `span` is handed on to the error.
pub fn resolve_class(class_name: &str, span: usize, tables: &UnicodeTables) -> (r: Result<
    UnicodeCharClass,
    UnknownProperty,
>)
    requires
        tables.wf(),
    ensures
        lookup_outcome(*tables, class_name@, span, r),
{
    let normalized = normalize_name(class_name);
    let property = canonical_name(tables.property_names, normalized.as_str());
    let value = canonical_value(tables.general_category_values, normalized.as_str());
    finish_lookup(class_name, span, tables, normalized, property, value)
}

/// The second half of the lookup: what is returned for each outcome of the
/// two searches. `property` is what the search among the binary properties
/// gave for the normalised name, `value` what the search among the values of
/// the general category gave.
pub fn finish_lookup(
    class_name: &str,
    span: usize,
    tables: &UnicodeTables,
    normalized: String,
    property: Option<&'static str>,
    value: Option<&'static str>,
) -> (r: Result<UnicodeCharClass, UnknownProperty>)
    requires
        tables.wf(),
        match property {
            Some(v) => maps_name(tables.property_names@, normalized@, v@),
            None => !has_name(tables.property_names@, normalized@),
        },
        match value {
            Some(v) => maps_name(tables.general_category_values@, normalized@, v@),
            None => !has_name(tables.general_category_values@, normalized@),
        },
    ensures
        found_outcome(*tables, class_name@, normalized@, span, r),
        r.is_ok() == (property.is_some() || value.is_some()),
{
    match property {
        Some(prop) => {
            proof {
                let i = choose|i: int|
                    0 <= i < tables.property_names@.len() && (#[trigger] tables.property_names@[i]).0@ == normalized@
                        && tables.property_names@[i].1@ == prop@;
                assert(has_name(tables.property_names@, normalized@));
                let j = choose|j: int|
                    first_row(tables.property_bool@, tables.property_names@[i].1@, j) && pairs_normal(
                        tables.property_bool@[j].1@,
                    );
                assert(first_row(tables.property_bool@, prop@, j));
            }
            let cls = make_char_class(tables.property_bool, prop);
            proof {
                let j = choose|j: int|
                    first_row(tables.property_bool@, prop@, j) && cls@ == pairs_ranges(tables.property_bool@[j].1@);
                assert(first_row(tables.property_bool@, prop@, j));
            }
            Ok(cls)
        },
        None => match value {
            Some(cat) => {
                proof {
                    let i = choose|i: int|
                        0 <= i < tables.general_category_values@.len() && (
                        #[trigger] tables.general_category_values@[i]).0@ == normalized@
                            && tables.general_category_values@[i].1@ == cat@;
                    assert(has_name(tables.general_category_values@, normalized@));
                    let j = choose|j: int|
                        first_row(tables.general_category@, tables.general_category_values@[i].1@, j)
                            && pairs_normal(tables.general_category@[j].1@);
                    assert(first_row(tables.general_category@, cat@, j));
                }
                let cls = make_char_class(tables.general_category, cat);
                proof {
                    let j = choose|j: int|
                        first_row(tables.general_category@, cat@, j) && cls@ == pairs_ranges(
                            tables.general_category@[j].1@,
                        );
                    assert(first_row(tables.general_category@, cat@, j));
                }
                Ok(cls)
            },
            None => Err(UnknownProperty { original: class_name.to_owned(), normalized, span }),
        },
    }
}

/// No text comes before itself.
pub proof fn lemma_text_lt_irreflexive(a: Seq<char>)
    ensures
        !text_lt(a, a),
    decreases a.len(),
{
    if a.len() > 0 {
        lemma_text_lt_irreflexive(a.drop_first());
    }
}

/// In tables that are in order a class name has one class.
pub proof fn lemma_resolved_unique(
    t: UnicodeTables,
    name: Seq<char>,
    a: Seq<UnicodeCharRange>,
    b: Seq<UnicodeCharRange>,
)
    requires
        t.wf(),
        resolved(t, name, a),
        resolved(t, name, b),
    ensures
        a == b,
{
    let normal = symbolic_name_normal(name);
    lemma_text_lt_irreflexive(normal);
    if has_name(t.property_names@, normal) {
        let (c1, j1) = choose|canonical: Seq<char>, j: int|
            maps_name(t.property_names@, normal, canonical) && #[trigger] first_row(t.property_bool@, canonical, j) && a
                == pairs_ranges(t.property_bool@[j].1@);
        let (c2, j2) = choose|canonical: Seq<char>, j: int|
            maps_name(t.property_names@, normal, canonical) && #[trigger] first_row(t.property_bool@, canonical, j) && b
                == pairs_ranges(t.property_bool@[j].1@);
        lemma_one_row(t.property_names@, normal, c1, c2);
        assert(j1 == j2);
    } else {
        let (c1, j1) = choose|canonical: Seq<char>, j: int|
            maps_name(t.general_category_values@, normal, canonical) && #[trigger] first_row(
                t.general_category@,
                canonical,
                j,
            ) && a == pairs_ranges(t.general_category@[j].1@);
        let (c2, j2) = choose|canonical: Seq<char>, j: int|
            maps_name(t.general_category_values@, normal, canonical) && #[trigger] first_row(
                t.general_category@,
                canonical,
                j,
            ) && b == pairs_ranges(t.general_category@[j].1@);
        lemma_one_row(t.general_category_values@, normal, c1, c2);
        assert(j1 == j2);
    }
}

/// A sorted table of names maps a name to one canonical name.
pub proof fn lemma_one_row(table: Seq<(&'static str, &'static str)>, name: Seq<char>, a: Seq<char>, b: Seq<char>)
    requires
        names_sorted(table),
        maps_name(table, name, a),
        maps_name(table, name, b),
    ensures
        a == b,
{
    let i = choose|i: int| 0 <= i < table.len() && (#[trigger] table[i]).0@ == name && table[i].1@ == a;
    let j = choose|j: int| 0 <= j < table.len() && (#[trigger] table[j]).0@ == name && table[j].1@ == b;
    lemma_text_lt_irreflexive(name);
    if i < j {
        assert(text_lt(table[i].0@, table[j].0@));
    }
    if j < i {
        assert(text_lt(table[j].0@, table[i].0@));
    }
}


/// What comes before a text comes before what that text comes before.
pub proof fn lemma_text_lt_transitive(a: Seq<char>, b: Seq<char>, c: Seq<char>)
    requires
        text_lt(a, b),
        text_lt(b, c),
    ensures
        text_lt(a, c),
    decreases a.len(),
{
    if a.len() > 0 && a[0] == b[0] && b[0] == c[0] {
        lemma_text_lt_transitive(a.drop_first(), b.drop_first(), c.drop_first());
    }
}

/// Decides [`text_lt`].
pub fn text_less(a: &str, b: &str) -> (r: bool)
    ensures
        r == text_lt(a@, b@),
{
    let n = a.unicode_len();
    let m = b.unicode_len();
    let mut i: usize = 0;
    proof {
        assert(a@.skip(0) =~= a@);
        assert(b@.skip(0) =~= b@);
    }
    while i < n && i < m
        invariant
            n == a@.len(),
            m == b@.len(),
            i <= n,
            i <= m,
            text_lt(a@, b@) == text_lt(a@.skip(i as int), b@.skip(i as int)),
        decreases n - i,
    {
        let x = a.get_char(i);
        let y = b.get_char(i);
        proof {
            assert(a@.skip(i as int)[0] == x);
            assert(b@.skip(i as int)[0] == y);
            assert(a@.skip(i as int).drop_first() =~= a@.skip(i + 1));
            assert(b@.skip(i as int).drop_first() =~= b@.skip(i + 1));
        }
        if x != y {
            return (x as u32) < (y as u32);
        }
        i += 1;
    }
    i < m
}

/// Decides [`names_sorted`].
pub fn check_names(table: &'static [(&'static str, &'static str)]) -> (r: bool)
    ensures
        r == names_sorted(table@),
{
    let mut i: usize = 1;
    while i < table.len()
        invariant
            1 <= i,
            forall|x: int, y: int| 0 <= x < y < i && y < table@.len() ==> text_lt(
                (#[trigger] table@[x]).0@,
                (#[trigger] table@[y]).0@,
            ),
        decreases table@.len() - i,
    {
        if !text_less(table[i - 1].0, table[i].0) {
            return false;
        }
        proof {
            assert forall|x: int, y: int| 0 <= x < y < i + 1 && y < table@.len() implies text_lt(
                (#[trigger] table@[x]).0@,
                (#[trigger] table@[y]).0@,
            ) by {
                if y == i && x < i - 1 {
                    assert(text_lt(table@[x].0@, table@[i - 1].0@));
                    lemma_text_lt_transitive(table@[x].0@, table@[i - 1].0@, table@[i as int].0@);
                }
            }
        }
        i += 1;
    }
    true
}

/// Decides [`pairs_normal`].
pub fn check_pairs(pairs: &'static [(u32, u32)]) -> (r: bool)
    ensures
        r == pairs_normal(pairs@),
{
    let mut i: usize = 0;
    while i < pairs.len()
        invariant
            i <= pairs@.len(),
            forall|x: int| 0 <= x < i ==> (#[trigger] pairs@[x]).0 <= pairs@[x].1 < CODE_POINT_LIMIT,
            forall|x: int, y: int| 0 <= x < y < i ==> (#[trigger] pairs@[x]).1 + 1 < (#[trigger] pairs@[y]).0,
        decreases pairs@.len() - i,
    {
        let p = pairs[i];
        if !(p.0 <= p.1 && p.1 < CODE_POINT_LIMIT) {
            return false;
        }
        if i > 0 {
            let before = pairs[i - 1];
            if !(before.1 + 1 < p.0) {
                proof {
                    assert(!(pairs@[i - 1].1 + 1 < pairs@[i as int].0));
                }
                return false;
            }
        }
        proof {
            assert forall|x: int, y: int| 0 <= x < y < i + 1 implies (#[trigger] pairs@[x]).1 + 1 < (
            #[trigger] pairs@[y]).0 by {
                if y == i && x < i - 1 {
                    assert(pairs@[x].1 + 1 < pairs@[i - 1].0);
                }
            }
        }
        i += 1;
    }
    true
}

/// Decides [`ranges_for_all`].
pub fn check_ranges(
    names: &'static [(&'static str, &'static str)],
    ranges: &'static [(&'static str, &'static [(u32, u32)])],
) -> (r: bool)
    ensures
        r == ranges_for_all(names@, ranges@),
{
    let mut i: usize = 0;
    while i < names.len()
        invariant
            i <= names@.len(),
            forall|x: int| 0 <= x < i ==> row_found(ranges@, (#[trigger] names@[x]).1@),
        decreases names@.len() - i,
    {
        let canonical = names[i].1;
        let mut j: usize = 0;
        while j < ranges.len() && !str_eq(ranges[j].0, canonical)
            invariant
                j <= ranges@.len(),
                forall|k: int| 0 <= k < j ==> (#[trigger] ranges@[k]).0@ != canonical@,
            decreases ranges@.len() - j,
        {
            j += 1;
        }
        if j >= ranges.len() {
            proof {
                assert forall|k: int| !first_row(ranges@, names@[i as int].1@, k) by {
                }
                assert(!row_found(ranges@, names@[i as int].1@));
            }
            return false;
        }
        proof {
            assert(first_row(ranges@, canonical@, j as int));
        }
        if !check_pairs(ranges[j].1) {
            proof {
                assert forall|k: int| !(first_row(ranges@, names@[i as int].1@, k) && pairs_normal(
                    ranges@[k].1@,
                )) by {
                    if first_row(ranges@, names@[i as int].1@, k) {
                        assert(k == j);
                    }
                }
                assert(!row_found(ranges@, names@[i as int].1@));
            }
            return false;
        }
        proof {
            assert(first_row(ranges@, names@[i as int].1@, j as int) && pairs_normal(ranges@[j as int].1@));
            assert(row_found(ranges@, names@[i as int].1@));
        }
        i += 1;
    }
    true
}

impl UnicodeTables {
    /// Whether the tables are as the lookup needs them.
    pub fn check(&self) -> (r: bool)
        ensures
            r == self.wf(),
    {
        check_names(self.property_names) && check_names(self.general_category_values) && check_ranges(
            self.property_names,
            self.property_bool,
        ) && check_ranges(self.general_category_values, self.general_category)
    }
}

} // verus!
