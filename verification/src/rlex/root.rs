//! The driver: from the definition of a lexer to its rules, classified over
//! one table of split points and grouped by start condition.

use vstd::prelude::*;
use crate::rlex::ast::char_class::{UnicodeCharClass, CODE_POINT_LIMIT};
use crate::rlex::ast::classify::split_table;
use crate::rlex::ast::RegEx;
use crate::rlex::lower::{error_keys, lower_expr, lowered_expr, unknown_expr};
use crate::rlex::syntax::{ConditionTrans, LexemeDef, Rule, WithCondition};
use crate::rlex::unicode::{UnicodeTables, UnknownProperty};
use crate::text::str_eq;

verus! {

/// A start condition by name; without a name it is the default condition.
pub struct SCIdent(pub Option<String>);

impl SCIdent {
    /// The default condition.
    pub fn default_condition() -> (r: Self)
        ensures
            r.0.is_none(),
    {
        SCIdent(None)
    }

    /// The name by which conditions are told apart; the default condition
    /// has the reserved name `start`.
    pub open spec fn name(&self) -> Seq<char> {
        match self.0 {
            Some(s) => s@,
            None => "start"@,
        }
    }

    /// The name as a string slice.
    pub fn as_str(&self) -> (r: &str)
        ensures
            r@ == self.name(),
    {
        match &self.0 {
            Some(s) => s.as_str(),
            None => "start",
        }
    }

    /// Whether two conditions are the same: they are if their names are.
    pub fn same_as(&self, other: &Self) -> (r: bool)
        ensures
            r == (self.name() == other.name()),
    {
        str_eq(self.as_str(), other.as_str())
    }
}

/// One rule as it is active in one start condition.
pub struct SingleLexeme {
    /// The name of the rule.
    pub lexeme_type: String,
    /// The condition to which a match switches, if any.
    pub target_start_condition: Option<String>,
    /// The expression of the rule over the blocks of the alphabet.
    pub lexeme_regex: RegEx<Vec<u32>>,
}

/// A lexer: for each start condition the rules that are active in it, in
/// the order of their declaration, and the table of split points that all
/// of them share.
pub struct RootDef {
    pub name: String,
    /// The start conditions, in the order in which they first occur.
    pub conditions: Vec<SCIdent>,
    /// For each start condition, in the same order, its rules.
    pub lexemes: Vec<Vec<SingleLexeme>>,
    pub split_points: Vec<u32>,
}

/// The same expression: the same structure, with the same blocks at every
/// atom.
pub open spec fn same_regex(a: RegEx<Vec<u32>>, b: RegEx<Vec<u32>>) -> bool
    decreases a,
{
    match a {
        RegEx::Atom(v) => b matches RegEx::Atom(u) && u@ == v@,
        RegEx::Alt(rs) => b matches RegEx::Alt(ss) && ss@.len() == rs@.len() && forall|i: int|
            0 <= i < rs@.len() ==> same_regex(#[trigger] rs@[i], ss@[i]),
        RegEx::Concat(rs) => b matches RegEx::Concat(ss) && ss@.len() == rs@.len() && forall|i: int|
            0 <= i < rs@.len() ==> same_regex(#[trigger] rs@[i], ss@[i]),
        RegEx::OneOrMore(r) => b matches RegEx::OneOrMore(s) && same_regex(*r, *s),
        RegEx::Optional(r) => b matches RegEx::Optional(s) && same_regex(*r, *s),
    }
}

/// A copy of a classified expression.
pub fn copy_regex(r: &RegEx<Vec<u32>>) -> (c: RegEx<Vec<u32>>)
    ensures
        same_regex(*r, c),
    decreases r,
{
    match r {
        RegEx::Atom(v) => RegEx::Atom(crate::rlex::automata::builder::determine::copy_numbers(v)),
        RegEx::Alt(rs) => RegEx::Alt(copy_all(rs)),
        RegEx::Concat(rs) => RegEx::Concat(copy_all(rs)),
        RegEx::OneOrMore(x) => RegEx::OneOrMore(Box::new(copy_regex(x))),
        RegEx::Optional(x) => RegEx::Optional(Box::new(copy_regex(x))),
    }
}

fn copy_all(rs: &Vec<RegEx<Vec<u32>>>) -> (c: Vec<RegEx<Vec<u32>>>)
    ensures
        c@.len() == rs@.len(),
        forall|i: int| 0 <= i < rs@.len() ==> same_regex(#[trigger] rs@[i], c@[i]),
    decreases rs,
{
    let mut c: Vec<RegEx<Vec<u32>>> = Vec::new();
    let mut i: usize = 0;
    while i < rs.len()
        invariant
            i <= rs@.len(),
            c@.len() == i,
            forall|k: int| 0 <= k < i ==> same_regex(#[trigger] rs@[k], c@[k]),
        decreases rs@.len() - i,
    {
        let x = copy_regex(&rs[i]);
        c.push(x);
        i += 1;
    }
    c
}

/// A copy is classified as what it was copied from.
pub proof fn lemma_copy_classified(
    x: RegEx<UnicodeCharClass>,
    t: Seq<u32>,
    a: RegEx<Vec<u32>>,
    b: RegEx<Vec<u32>>,
)
    requires
        x.classified(t, a),
        same_regex(a, b),
    ensures
        x.classified(t, b),
    decreases x,
{
    match x {
        RegEx::Atom(c) => {},
        RegEx::Alt(rs) => {
            let aa = a->Alt_0;
            let bb = b->Alt_0;
            assert forall|i: int| 0 <= i < rs@.len() implies (#[trigger] rs@[i]).classified(t, bb@[i]) by {
                assert(same_regex(aa@[i], bb@[i]));
                lemma_copy_classified(rs@[i], t, aa@[i], bb@[i]);
            }
        },
        RegEx::Concat(rs) => {
            let aa = a->Concat_0;
            let bb = b->Concat_0;
            assert forall|i: int| 0 <= i < rs@.len() implies (#[trigger] rs@[i]).classified(t, bb@[i]) by {
                assert(same_regex(aa@[i], bb@[i]));
                lemma_copy_classified(rs@[i], t, aa@[i], bb@[i]);
            }
        },
        RegEx::OneOrMore(r) => {
            lemma_copy_classified(*r, t, *a->OneOrMore_0, *b->OneOrMore_0);
        },
        RegEx::Optional(r) => {
            lemma_copy_classified(*r, t, *a->Optional_0, *b->Optional_0);
        },
    }
}

/// The start conditions of a block: the name of each, with the condition to
/// which a match switches. A block without start conditions is active in
/// the default condition.
pub open spec fn conditions_of(wc: WithCondition) -> Seq<(Seq<char>, Option<Seq<char>>)> {
    match wc.start_condition {
        None => seq![("start"@, None)],
        Some(sc) => Seq::new(
            sc.condition@.len(),
            |i: int|
                match sc.condition@[i] {
                    ConditionTrans::Simple(a) => (a@, None),
                    ConditionTrans::Trans { begin, end } => (begin@, Some(end@)),
                },
        ),
    }
}

/// The unknown class names of the first `n` rules of a block.
pub open spec fn unknown_rules(rules: Seq<Rule>, n: nat, t: UnicodeTables) -> Seq<(Seq<char>, usize)>
    decreases n,
{
    if n == 0 || n > rules.len() {
        Seq::empty()
    } else {
        unknown_rules(rules, (n - 1) as nat, t) + unknown_expr(rules[n - 1].body, t)
    }
}

/// The unknown class names of the first `n` blocks of a definition.
pub open spec fn unknown_blocks(body: Seq<WithCondition>, n: nat, t: UnicodeTables) -> Seq<(Seq<char>, usize)>
    decreases n,
{
    if n == 0 || n > body.len() {
        Seq::empty()
    } else {
        unknown_blocks(body, (n - 1) as nat, t) + unknown_rules(
            body[n - 1].body.rules(),
            body[n - 1].body.rules().len(),
            t,
        )
    }
}

/// The places of the rules of the first `n` blocks, in order: for each rule
/// the number of its block and its number in the block.
pub open spec fn rule_places(body: Seq<WithCondition>, n: nat) -> Seq<(int, int)>
    decreases n,
{
    if n == 0 || n > body.len() {
        Seq::empty()
    } else {
        rule_places(body, (n - 1) as nat) + Seq::new(body[n - 1].body.rules().len(), |k: int| (n - 1, k))
    }
}

/// The places of the first `k` rules of block `b` that name no unknown
/// class.
pub open spec fn known_in_block(rules: Seq<Rule>, t: UnicodeTables, b: int, k: nat) -> Seq<(int, int)>
    decreases k,
{
    if k == 0 || k > rules.len() {
        Seq::empty()
    } else if unknown_expr(rules[k - 1].body, t).len() == 0 {
        known_in_block(rules, t, b, (k - 1) as nat).push((b, k - 1))
    } else {
        known_in_block(rules, t, b, (k - 1) as nat)
    }
}

/// The places of the rules of the first `n` blocks that name no unknown
/// class, in order.
pub open spec fn known_places(body: Seq<WithCondition>, t: UnicodeTables, n: nat) -> Seq<(int, int)>
    decreases n,
{
    if n == 0 || n > body.len() {
        Seq::empty()
    } else {
        known_places(body, t, (n - 1) as nat) + known_in_block(
            body[n - 1].body.rules(),
            t,
            n - 1,
            body[n - 1].body.rules().len(),
        )
    }
}

/// Where no rule names an unknown class, the places of the rules without
/// unknown classes are the places of all rules.
pub proof fn lemma_known_all(body: Seq<WithCondition>, t: UnicodeTables, n: nat)
    requires
        n <= body.len(),
        unknown_blocks(body, n, t).len() == 0,
    ensures
        known_places(body, t, n) == rule_places(body, n),
    decreases n,
{
    if n > 0 {
        let rules = body[n - 1].body.rules();
        assert(unknown_blocks(body, (n - 1) as nat, t).len() == 0);
        assert(unknown_rules(rules, rules.len(), t).len() == 0);
        lemma_known_all(body, t, (n - 1) as nat);
        lemma_known_block(rules, t, n - 1, rules.len());
    }
}

/// Where no rule of a block names an unknown class, the places of its
/// rules without unknown classes are the places of all its rules.
pub proof fn lemma_known_block(rules: Seq<Rule>, t: UnicodeTables, b: int, k: nat)
    requires
        k <= rules.len(),
        unknown_rules(rules, k, t).len() == 0,
    ensures
        known_in_block(rules, t, b, k) == Seq::new(k, |j: int| (b, j)),
    decreases k,
{
    if k > 0 {
        assert(unknown_rules(rules, (k - 1) as nat, t).len() == 0);
        assert(unknown_expr(rules[k - 1].body, t).len() == 0);
        lemma_known_block(rules, t, b, (k - 1) as nat);
        assert(known_in_block(rules, t, b, k) =~= Seq::new(k, |j: int| (b, j)));
    }
}

/// A rule as it is active in one start condition: the place of the rule,
/// the name of the condition, and the condition to which a match switches.
pub ghost struct Entry {
    pub block: int,
    pub rule: int,
    pub condition: Seq<char>,
    pub target: Option<Seq<char>>,
}

/// The start conditions in the order in which they first occur, and for
/// each of them the rules that are active in it, in order.
pub ghost struct Groups {
    pub names: Seq<Seq<char>>,
    pub groups: Seq<Seq<Entry>>,
}

/// The groups with one entry more: it is the last of the group of its
/// condition, which is a new group behind the others if the condition has
/// none yet.
pub open spec fn with_entry(g: Groups, e: Entry) -> Groups {
    if g.names.contains(e.condition) {
        let i = g.names.index_of(e.condition);
        Groups { names: g.names, groups: g.groups.update(i, g.groups[i].push(e)) }
    } else {
        Groups { names: g.names.push(e.condition), groups: g.groups.push(seq![e]) }
    }
}

/// Rule `k` of block `b` as it is active in condition `i` of the block.
pub open spec fn entry_of(d: LexemeDef, b: int, k: int, i: int) -> Entry {
    Entry { block: b, rule: k, condition: conditions_of(d.body@[b])[i].0, target: conditions_of(d.body@[b])[i].1 }
}

/// The groups with rule `k` of block `b` added for the first `j` start
/// conditions of the block.
pub open spec fn with_conditions(d: LexemeDef, g: Groups, b: int, k: int, j: nat) -> Groups
    decreases j,
{
    if j == 0 || j > conditions_of(d.body@[b]).len() {
        g
    } else {
        with_entry(with_conditions(d, g, b, k, (j - 1) as nat), entry_of(d, b, k, j - 1))
    }
}

/// The groups of the first `n` of the rules at `places`, each added for
/// all start conditions of its block.
pub open spec fn with_rules(d: LexemeDef, places: Seq<(int, int)>, n: nat) -> Groups
    decreases n,
{
    if n == 0 || n > places.len() {
        Groups { names: Seq::empty(), groups: Seq::empty() }
    } else {
        let p = places[n - 1];
        with_conditions(d, with_rules(d, places, (n - 1) as nat), p.0, p.1, conditions_of(d.body@[p.0]).len())
    }
}

/// The groups with a group for the condition `name`: an empty one behind
/// the others, if the condition has none yet.
pub open spec fn with_name(g: Groups, name: Seq<char>) -> Groups {
    if g.names.contains(name) {
        g
    } else {
        Groups { names: g.names.push(name), groups: g.groups.push(Seq::empty()) }
    }
}

/// The groups with groups for the first `j` start conditions of block `b`
/// and for the conditions to which they switch.
pub open spec fn with_declared(d: LexemeDef, g: Groups, b: int, j: nat) -> Groups
    decreases j,
{
    if j == 0 || j > conditions_of(d.body@[b]).len() {
        g
    } else {
        let before = with_name(with_declared(d, g, b, (j - 1) as nat), conditions_of(d.body@[b])[j - 1].0);
        match conditions_of(d.body@[b])[j - 1].1 {
            Some(target) => with_name(before, target),
            None => before,
        }
    }
}

/// The groups with groups for all start conditions that the first `n`
/// blocks name.
pub open spec fn with_blocks(d: LexemeDef, g: Groups, n: nat) -> Groups
    decreases n,
{
    if n == 0 || n > d.body@.len() {
        g
    } else {
        with_declared(d, with_blocks(d, g, (n - 1) as nat), n - 1, conditions_of(d.body@[n - 1]).len())
    }
}

/// The groups of the rules at `places` of a definition: every rule in the
/// group of each of its start conditions, the rules in the order of their
/// declaration and the conditions in the order in which they first have a
/// rule; behind them, with empty groups, the start conditions that are
/// named without a rule of their own, as a condition of a block without
/// such rules or as a condition to switch to.
pub open spec fn groups_at(d: LexemeDef, places: Seq<(int, int)>) -> Groups {
    with_blocks(d, with_rules(d, places, places.len()), d.body@.len())
}

/// The lexeme is what the entry says: it has the name of the rule and the
/// target of the entry, and its expression is the expression of the rule,
/// classified over the table.
pub open spec fn lexeme_of(d: LexemeDef, t: UnicodeTables, table: Seq<u32>, lexeme: SingleLexeme, e: Entry) -> bool {
    &&& 0 <= e.block < d.body@.len()
    &&& 0 <= e.rule < d.body@[e.block].body.rules().len()
    &&& lexeme.lexeme_type@ == d.body@[e.block].body.rules()[e.rule].name@
    &&& e.target == match lexeme.target_start_condition {
        Some(s) => Some(s@),
        None => None,
    }
    &&& exists|x: RegEx<UnicodeCharClass>| #[trigger]
        lowered_expr(d.body@[e.block].body.rules()[e.rule].body, t, x) && x.classified(table, lexeme.lexeme_regex)
}

/// The conditions and their lexemes are the groups `g`.
pub open spec fn groups_ok(
    d: LexemeDef,
    t: UnicodeTables,
    table: Seq<u32>,
    conditions: Seq<SCIdent>,
    groups: Seq<Vec<SingleLexeme>>,
    g: Groups,
) -> bool {
    &&& conditions.len() == g.names.len()
    &&& groups.len() == g.names.len()
    &&& g.groups.len() == g.names.len()
    &&& forall|i: int| 0 <= i < conditions.len() ==> (#[trigger] conditions[i]).name() == g.names[i]
    &&& forall|i: int, j: int| 0 <= i < j < g.names.len() ==> #[trigger] g.names[i] != #[trigger] g.names[j]
    &&& forall|i: int| 0 <= i < groups.len() ==> (#[trigger] groups[i])@.len() == g.groups[i].len()
    &&& forall|i: int, l: int|
        #![trigger groups[i]@[l]]
        0 <= i < groups.len() && 0 <= l < groups[i]@.len() ==> lexeme_of(d, t, table, groups[i]@[l], g.groups[i][l])
}

/// `y` is an end point of a range of a class of a rule at one of the
/// places.
pub open spec fn point_at(d: LexemeDef, t: UnicodeTables, places: Seq<(int, int)>, y: u32) -> bool {
    exists|i: int, x: RegEx<UnicodeCharClass>|
        0 <= i < places.len() && 0 <= places[i].0 < d.body@.len() && 0 <= places[i].1 < d.body@[places[i].0].body.rules().len()
            && #[trigger] lowered_expr(d.body@[places[i].0].body.rules()[places[i].1].body, t, x) && x.is_point(y)
}

/// What is owed for the rules at `places` of a definition: the name of
/// the definition; the table of split points, which holds the two ends of
/// Unicode, the end points of the classes of these rules, and nothing
/// else; and the groups of these rules.
pub open spec fn root_at(d: LexemeDef, t: UnicodeTables, root: RootDef, places: Seq<(int, int)>) -> bool {
    &&& root.name@ == d.name@
    &&& split_table(root.split_points@)
    &&& forall|y: u32|
        #![trigger root.split_points@.contains(y)]
        root.split_points@.contains(y) <==> (y == 0 || y == CODE_POINT_LIMIT || point_at(d, t, places, y))
    &&& groups_ok(d, t, root.split_points@, root.conditions@, root.lexemes@, groups_at(d, places))
}

/// What is owed for a definition without unknown class names: what is
/// owed for all its rules.
pub open spec fn root_ok(d: LexemeDef, t: UnicodeTables, root: RootDef) -> bool {
    root_at(d, t, root, rule_places(d.body@, d.body@.len()))
}

/// A rule that was lowered, with its place in the definition.
pub struct LoweredRule {
    pub block: usize,
    pub rule: usize,
    pub regex: RegEx<UnicodeCharClass>,
}

/// The places of lowered rules.
pub open spec fn places(rules: Seq<LoweredRule>) -> Seq<(int, int)> {
    Seq::new(rules.len(), |i: int| (rules[i].block as int, rules[i].rule as int))
}

/// The lowered rule is what it says: the expression of that rule of that
/// block.
pub open spec fn lowered_rule_ok(d: LexemeDef, t: UnicodeTables, r: LoweredRule) -> bool {
    &&& r.block < d.body@.len()
    &&& r.rule < d.body@[r.block as int].body.rules().len()
    &&& lowered_expr(d.body@[r.block as int].body.rules()[r.rule as int].body, t, r.regex)
}

/// Lowers every rule of the definition. Unknown class names are collected
/// from all rules; the rules that name none are handed out lowered, in
/// order.
pub fn lower_rules(d: &LexemeDef, tables: &UnicodeTables) -> (r: (Vec<LoweredRule>, Vec<UnknownProperty>))
    requires
        tables.wf(),
    ensures
        error_keys(r.1@) == unknown_blocks(d.body@, d.body@.len(), *tables),
        places(r.0@) == known_places(d.body@, *tables, d.body@.len()),
        forall|i: int| 0 <= i < r.0@.len() ==> lowered_rule_ok(*d, *tables, #[trigger] r.0@[i]),
{
    let mut rules: Vec<LoweredRule> = Vec::new();
    let mut errors: Vec<UnknownProperty> = Vec::new();
    let mut b: usize = 0;
    proof {
        assert(error_keys(errors@) =~= unknown_blocks(d.body@, 0, *tables));
        assert(places(rules@) =~= known_places(d.body@, *tables, 0));
    }
    while b < d.body.len()
        invariant
            b <= d.body@.len(),
            tables.wf(),
            error_keys(errors@) == unknown_blocks(d.body@, b as nat, *tables),
            places(rules@) == known_places(d.body@, *tables, b as nat),
            forall|i: int| 0 <= i < rules@.len() ==> lowered_rule_ok(*d, *tables, #[trigger] rules@[i]),
        decreases d.body@.len() - b,
    {
        let block = &d.body[b].body;
        let n = block.rule_count();
        let ghost before = error_keys(errors@);
        let ghost placed = known_places(d.body@, *tables, b as nat);
        let mut k: usize = 0;
        proof {
            assert(error_keys(errors@) =~= before + unknown_rules(block.rules(), 0, *tables));
            assert(placed + known_in_block(block.rules(), *tables, b as int, 0) =~= placed);
        }
        while k < n
            invariant
                k <= n,
                n == block.rules().len(),
                b < d.body@.len(),
                *block == d.body@[b as int].body,
                tables.wf(),
                error_keys(errors@) == before + unknown_rules(block.rules(), k as nat, *tables),
                placed == known_places(d.body@, *tables, b as nat),
                places(rules@) == placed + known_in_block(block.rules(), *tables, b as int, k as nat),
                forall|i: int| 0 <= i < rules@.len() ==> lowered_rule_ok(*d, *tables, #[trigger] rules@[i]),
            decreases n - k,
        {
            let rule = block.rule(k);
            let ghost rules_before = rules@;
            match lower_expr(&rule.body, tables, &mut errors) {
                Some(x) => {
                    rules.push(LoweredRule { block: b, rule: k, regex: x });
                    proof {
                        assert forall|i: int| 0 <= i < rules@.len() implies lowered_rule_ok(
                            *d,
                            *tables,
                            #[trigger] rules@[i],
                        ) by {
                            if i < rules_before.len() {
                                assert(rules@[i] == rules_before[i]);
                            }
                        }
                        assert(places(rules@) =~= places(rules_before).push((b as int, k as int)));
                        assert(places(rules@) =~= placed + known_in_block(
                            block.rules(),
                            *tables,
                            b as int,
                            (k + 1) as nat,
                        ));
                    }
                },
                None => {
                    proof {
                        assert(places(rules@) =~= placed + known_in_block(
                            block.rules(),
                            *tables,
                            b as int,
                            (k + 1) as nat,
                        ));
                    }
                },
            }
            proof {
                assert(error_keys(errors@) =~= before + unknown_rules(block.rules(), (k + 1) as nat, *tables));
            }
            k += 1;
        }
        proof {
            assert(error_keys(errors@) =~= unknown_blocks(d.body@, (b + 1) as nat, *tables));
            assert(places(rules@) =~= known_places(d.body@, *tables, (b + 1) as nat));
        }
        b += 1;
    }
    (rules, errors)
}

/// The start conditions of a block, as values.
pub fn conditions(wc: &WithCondition) -> (r: Vec<(SCIdent, Option<String>)>)
    ensures
        r@.len() == conditions_of(*wc).len(),
        forall|i: int|
            0 <= i < r@.len() ==> conditions_of(*wc)[i] == ((#[trigger] r@[i]).0.name(), match r@[i].1 {
                Some(s) => Some(s@),
                None => None,
            }),
{
    let mut r: Vec<(SCIdent, Option<String>)> = Vec::new();
    match &wc.start_condition {
        None => {
            r.push((SCIdent::default_condition(), None));
        },
        Some(sc) => {
            let mut i: usize = 0;
            while i < sc.condition.len()
                invariant
                    i <= sc.condition@.len(),
                    wc.start_condition == Some(*sc),
                    r@.len() == i,
                    forall|k: int|
                        0 <= k < i ==> conditions_of(*wc)[k] == ((#[trigger] r@[k]).0.name(), match r@[k].1 {
                            Some(s) => Some(s@),
                            None => None,
                        }),
                decreases sc.condition@.len() - i,
            {
                match &sc.condition[i] {
                    ConditionTrans::Simple(a) => {
                        r.push((SCIdent(Some(a.clone())), None));
                    },
                    ConditionTrans::Trans { begin, end } => {
                        r.push((SCIdent(Some(begin.clone())), Some(end.clone())));
                    },
                }
                i += 1;
            }
        },
    }
    r
}

/// The place of the condition among `conditions`, if it is there.
fn find_condition(conditions: &Vec<SCIdent>, c: &SCIdent) -> (r: Option<usize>)
    ensures
        match r {
            Some(g) => g < conditions@.len() && conditions@[g as int].name() == c.name(),
            None => forall|g: int| 0 <= g < conditions@.len() ==> (#[trigger] conditions@[g]).name() != c.name(),
        },
{
    let mut g: usize = 0;
    while g < conditions.len()
        invariant
            g <= conditions@.len(),
            forall|x: int| 0 <= x < g ==> (#[trigger] conditions@[x]).name() != c.name(),
        decreases conditions@.len() - g,
    {
        if conditions[g].same_as(c) {
            return Some(g);
        }
        g += 1;
    }
    None
}

/// Puts the lexeme into the group of its condition, which is added if it
/// is new.
fn add_lexeme(
    conditions: &mut Vec<SCIdent>,
    groups: &mut Vec<Vec<SingleLexeme>>,
    condition: SCIdent,
    lexeme: SingleLexeme,
    d: Ghost<LexemeDef>,
    t: Ghost<UnicodeTables>,
    table: Ghost<Seq<u32>>,
    g: Ghost<Groups>,
    e: Ghost<Entry>,
)
    requires
        groups_ok(d@, t@, table@, old(conditions)@, old(groups)@, g@),
        lexeme_of(d@, t@, table@, lexeme, e@),
        e@.condition == condition.name(),
    ensures
        groups_ok(d@, t@, table@, final(conditions)@, final(groups)@, with_entry(g@, e@)),
{
    let ghost before = groups@;
    let ghost names = conditions@;
    let ghost after = with_entry(g@, e@);
    match find_condition(conditions, &condition) {
        Some(i) => {
            proof {
                assert(g@.names[i as int] == e@.condition);
                assert(g@.names.contains(e@.condition));
                let at = g@.names.index_of(e@.condition);
                assert(g@.names[at] == e@.condition);
                assert(at == i);
            }
            let mut group = groups.remove(i);
            let ghost group_before = group@;
            group.push(lexeme);
            groups.insert(i, group);
            proof {
                assert forall|h: int| 0 <= h < groups@.len() implies (#[trigger] groups@[h])@.len()
                    == after.groups[h].len() by {
                    if h != i {
                        assert(groups@[h] == before[h]);
                    }
                }
                assert forall|h: int, l: int|
                    #![trigger groups@[h]@[l]]
                    0 <= h < groups@.len() && 0 <= l < groups@[h]@.len() implies lexeme_of(
                    d@,
                    t@,
                    table@,
                    groups@[h]@[l],
                    after.groups[h][l],
                ) by {
                    if h == i {
                        if l < group_before.len() {
                            assert(groups@[h]@[l] == before[i as int]@[l]);
                        } else {
                            assert(groups@[h]@[l] == lexeme);
                        }
                    } else {
                        assert(groups@[h] == before[h]);
                        assert(lexeme_of(d@, t@, table@, before[h]@[l], g@.groups[h][l]));
                    }
                }
            }
        },
        None => {
            proof {
                if g@.names.contains(e@.condition) {
                    let at = g@.names.index_of(e@.condition);
                    assert(names[at].name() == g@.names[at]);
                }
            }
            let mut group: Vec<SingleLexeme> = Vec::new();
            group.push(lexeme);
            conditions.push(condition);
            groups.push(group);
            proof {
                assert forall|h: int| 0 <= h < conditions@.len() implies (#[trigger] conditions@[h]).name()
                    == after.names[h] by {
                    if h < names.len() {
                        assert(conditions@[h] == names[h]);
                    }
                }
                assert forall|x: int, y: int| 0 <= x < y < after.names.len() implies #[trigger] after.names[x]
                    != #[trigger] after.names[y] by {
                    if y == g@.names.len() {
                        assert(names[x].name() == g@.names[x]);
                    }
                }
                assert forall|h: int| 0 <= h < groups@.len() implies (#[trigger] groups@[h])@.len()
                    == after.groups[h].len() by {
                    if h < before.len() {
                        assert(groups@[h] == before[h]);
                    }
                }
                assert forall|h: int, l: int|
                    #![trigger groups@[h]@[l]]
                    0 <= h < groups@.len() && 0 <= l < groups@[h]@.len() implies lexeme_of(
                    d@,
                    t@,
                    table@,
                    groups@[h]@[l],
                    after.groups[h][l],
                ) by {
                    if h < before.len() {
                        assert(groups@[h] == before[h]);
                        assert(lexeme_of(d@, t@, table@, before[h]@[l], g@.groups[h][l]));
                    } else {
                        assert(groups@[h]@[l] == lexeme);
                    }
                }
            }
        },
    }
}

/// Gives the condition a group, an empty one, if it has none yet.
fn declare(
    conditions: &mut Vec<SCIdent>,
    groups: &mut Vec<Vec<SingleLexeme>>,
    condition: SCIdent,
    d: Ghost<LexemeDef>,
    t: Ghost<UnicodeTables>,
    table: Ghost<Seq<u32>>,
    g: Ghost<Groups>,
)
    requires
        groups_ok(d@, t@, table@, old(conditions)@, old(groups)@, g@),
    ensures
        groups_ok(d@, t@, table@, final(conditions)@, final(groups)@, with_name(g@, condition.name())),
{
    let ghost before = groups@;
    let ghost names = conditions@;
    let ghost after = with_name(g@, condition.name());
    match find_condition(conditions, &condition) {
        Some(i) => {
            proof {
                assert(g@.names[i as int] == condition.name());
                assert(g@.names.contains(condition.name()));
            }
        },
        None => {
            proof {
                if g@.names.contains(condition.name()) {
                    let at = g@.names.index_of(condition.name());
                    assert(names[at].name() == g@.names[at]);
                }
            }
            let group: Vec<SingleLexeme> = Vec::new();
            conditions.push(condition);
            groups.push(group);
            proof {
                assert forall|h: int| 0 <= h < conditions@.len() implies (#[trigger] conditions@[h]).name()
                    == after.names[h] by {
                    if h < names.len() {
                        assert(conditions@[h] == names[h]);
                    }
                }
                assert forall|x: int, y: int| 0 <= x < y < after.names.len() implies #[trigger] after.names[x]
                    != #[trigger] after.names[y] by {
                    if y == g@.names.len() {
                        assert(names[x].name() == g@.names[x]);
                    }
                }
                assert forall|h: int| 0 <= h < groups@.len() implies (#[trigger] groups@[h])@.len()
                    == after.groups[h].len() by {
                    if h < before.len() {
                        assert(groups@[h] == before[h]);
                    }
                }
                assert forall|h: int, l: int|
                    #![trigger groups@[h]@[l]]
                    0 <= h < groups@.len() && 0 <= l < groups@[h]@.len() implies lexeme_of(
                    d@,
                    t@,
                    table@,
                    groups@[h]@[l],
                    after.groups[h][l],
                ) by {
                    if h < before.len() {
                        assert(groups@[h] == before[h]);
                        assert(lexeme_of(d@, t@, table@, before[h]@[l], g@.groups[h][l]));
                    }
                }
            }
        },
    }
}

impl RootDef {
    /// The lexer of a definition: every rule is lowered, one table of split
    /// points is made for all rules together, and every rule is classified
    /// over it and put into the group of each of its start conditions.
    /// Fails with all unknown class names if there are any.
    pub fn build(d: &LexemeDef, tables: &UnicodeTables) -> (r: Result<RootDef, Vec<UnknownProperty>>)
        requires
            tables.wf(),
        ensures
            match r {
                Ok(root) => unknown_blocks(d.body@, d.body@.len(), *tables).len() == 0 && root_ok(*d, *tables, root),
                Err(es) => es@.len() > 0 && error_keys(es@) == unknown_blocks(d.body@, d.body@.len(), *tables),
            },
    {
        let (rules, errors) = lower_rules(d, tables);
        if errors.len() > 0 {
            return Err(errors);
        }
        proof {
            assert(error_keys(errors@).len() == 0);
            lemma_known_all(d.body@, *tables, d.body@.len());
        }
        Ok(RootDef::from_lowered(d, tables, rules))
    }

    /// The lexer of the rules of a definition that were lowered: one table
    /// of split points is made for them together, and each is classified
    /// over it and put into the group of each of its start conditions.
    pub fn from_lowered(d: &LexemeDef, tables: &UnicodeTables, rules: Vec<LoweredRule>) -> (root: RootDef)
        requires
            tables.wf(),
            forall|i: int| 0 <= i < rules@.len() ==> lowered_rule_ok(*d, *tables, #[trigger] rules@[i]),
        ensures
            root_at(*d, *tables, root, places(rules@)),
    {
        let ghost all = places(rules@);
        let mut split_points: Vec<u32> = Vec::new();
        let _ = crate::rlex::ordered::insert(&mut split_points, 0);
        let ghost first = split_points@;
        let _ = crate::rlex::ordered::insert(&mut split_points, CODE_POINT_LIMIT);
        proof {
            assert(first.contains(0));
            assert(split_points@.contains(0));
            assert(split_points@.contains(CODE_POINT_LIMIT));
            assert forall|y: u32| split_points@.contains(y) implies y == 0 || y == CODE_POINT_LIMIT by {
                if y != CODE_POINT_LIMIT {
                    assert(first.contains(y));
                }
            }
            crate::rlex::ast::lemma_table_of_points(split_points@);
        }
        let mut i: usize = 0;
        while i < rules.len()
            invariant
                i <= rules@.len(),
                split_table(split_points@),
                forall|y: u32| split_points@.contains(y) ==> y <= CODE_POINT_LIMIT,
                forall|y: u32|
                    #![trigger split_points@.contains(y)]
                    split_points@.contains(y) <==> (y == 0 || y == CODE_POINT_LIMIT || exists|n: int|
                        0 <= n < i && (#[trigger] rules@[n]).regex.is_point(y)),
            decreases rules@.len() - i,
        {
            let ghost before = split_points@;
            rules[i].regex.collect_split_points(&mut split_points);
            proof {
                assert forall|y: u32| split_points@.contains(y) implies y <= CODE_POINT_LIMIT by {
                    let k = choose|k: int| 0 <= k < split_points@.len() && split_points@[k] == y;
                    assert(split_points@[k] <= split_points@[split_points@.len() - 1]);
                }
                assert forall|y: u32|
                    #![trigger split_points@.contains(y)]
                    split_points@.contains(y) <==> (y == 0 || y == CODE_POINT_LIMIT || exists|n: int|
                        0 <= n < i + 1 && (#[trigger] rules@[n]).regex.is_point(y)) by {
                    if split_points@.contains(y) && !(y == 0 || y == CODE_POINT_LIMIT) {
                        if before.contains(y) {
                            let n = choose|n: int| 0 <= n < i && (#[trigger] rules@[n]).regex.is_point(y);
                            assert(rules@[n].regex.is_point(y));
                        } else {
                            assert(rules@[i as int].regex.is_point(y));
                        }
                    }
                    if exists|n: int| 0 <= n < i + 1 && (#[trigger] rules@[n]).regex.is_point(y) {
                        let n = choose|n: int| 0 <= n < i + 1 && (#[trigger] rules@[n]).regex.is_point(y);
                        if n < i {
                            assert(before.contains(y));
                        }
                    }
                }
            }
            i += 1;
        }
        proof {
            assert forall|y: u32|
                #![trigger split_points@.contains(y)]
                split_points@.contains(y) <==> (y == 0 || y == CODE_POINT_LIMIT || point_at(*d, *tables, all, y)) by {
                if split_points@.contains(y) && !(y == 0 || y == CODE_POINT_LIMIT) {
                    let n = choose|n: int| 0 <= n < rules@.len() && (#[trigger] rules@[n]).regex.is_point(y);
                    assert(lowered_rule_ok(*d, *tables, rules@[n]));
                    assert(all[n] == (rules@[n].block as int, rules@[n].rule as int));
                    assert(lowered_expr(d.body@[all[n].0].body.rules()[all[n].1].body, *tables, rules@[n].regex));
                }
                if point_at(*d, *tables, all, y) {
                    let (i, x) = choose|i: int, x: RegEx<UnicodeCharClass>|
                        0 <= i < all.len() && 0 <= all[i].0 < d.body@.len() && 0 <= all[i].1
                            < d.body@[all[i].0].body.rules().len() && #[trigger] lowered_expr(
                            d.body@[all[i].0].body.rules()[all[i].1].body,
                            *tables,
                            x,
                        ) && x.is_point(y);
                    assert(lowered_rule_ok(*d, *tables, rules@[i]));
                    assert(all[i] == (rules@[i].block as int, rules@[i].rule as int));
                    crate::rlex::lower::lemma_lowered_points(
                        d.body@[all[i].0].body.rules()[all[i].1].body,
                        *tables,
                        x,
                        rules@[i].regex,
                        y,
                    );
                    assert(rules@[i].regex.is_point(y));
                }
            }
        }
        let mut names: Vec<SCIdent> = Vec::new();
        let mut groups: Vec<Vec<SingleLexeme>> = Vec::new();
        let mut n: usize = 0;
        let ghost mut made = with_rules(*d, all, 0);
        while n < rules.len()
            invariant
                n <= rules@.len(),
                places(rules@) == all,
                split_table(split_points@),
                forall|i: int| 0 <= i < rules@.len() ==> lowered_rule_ok(*d, *tables, #[trigger] rules@[i]),
                forall|x: int, y: u32|
                    0 <= x < rules@.len() && #[trigger] rules@[x].regex.is_point(y) ==> split_points@.contains(y),
                made == with_rules(*d, all, n as nat),
                groups_ok(*d, *tables, split_points@, names@, groups@, made),
            decreases rules@.len() - n,
        {
            let lowered = &rules[n];
            proof {
                assert(lowered_rule_ok(*d, *tables, rules@[n as int]));
                assert(places(rules@)[n as int] == (lowered.block as int, lowered.rule as int));
                assert forall|y: u32| lowered.regex.is_point(y) implies split_points@.contains(y) by {
                    assert(rules@[n as int].regex.is_point(y));
                }
            }
            let regex = lowered.regex.classify_ref(split_points.as_slice());
            let block = &d.body[lowered.block];
            let rule = block.body.rule(lowered.rule);
            let mut conds = conditions(block);
            let ghost every = conds@;
            let ghost b = lowered.block as int;
            let ghost k = lowered.rule as int;
            let ghost start = made;
            proof {
                assert(conds@ =~= every.subrange(0, every.len() as int));
            }
            while conds.len() > 0
                invariant
                    n < rules@.len(),
                    *lowered == rules@[n as int],
                    lowered_rule_ok(*d, *tables, *lowered),
                    b == lowered.block,
                    k == lowered.rule,
                    *block == d.body@[b],
                    *rule == block.body.rules()[k],
                    split_table(split_points@),
                    forall|y: u32| lowered.regex.is_point(y) ==> split_points@.contains(y),
                    lowered.regex.classified(split_points@, regex),
                    conds@.len() <= every.len(),
                    conds@ == every.subrange(every.len() - conds@.len(), every.len() as int),
                    every.len() == conditions_of(*block).len(),
                    forall|i: int|
                        0 <= i < every.len() ==> conditions_of(*block)[i] == ((#[trigger] every[i]).0.name(), match every[i].1 {
                            Some(s) => Some(s@),
                            None => None,
                        }),
                    made == with_conditions(*d, start, b, k, (every.len() - conds@.len()) as nat),
                    groups_ok(*d, *tables, split_points@, names@, groups@, made),
                decreases conds@.len(),
            {
                let ghost place = every.len() - conds@.len();
                let (condition, target) = conds.remove(0);
                proof {
                    assert(conds@ =~= every.subrange(every.len() - conds@.len(), every.len() as int));
                    assert((condition, target) == every[place]);
                }
                let copy = copy_regex(&regex);
                let lexeme = SingleLexeme {
                    lexeme_type: rule.name.clone(),
                    target_start_condition: target,
                    lexeme_regex: copy,
                };
                let ghost entry = entry_of(*d, b, k, place);
                proof {
                    lemma_copy_classified(lowered.regex, split_points@, regex, copy);
                    assert(conditions_of(*block)[place] == (condition.name(), match lexeme.target_start_condition {
                        Some(s) => Some(s@),
                        None => None,
                    }));
                    assert(lowered_expr(d.body@[b].body.rules()[k].body, *tables, lowered.regex));
                    assert(lexeme_of(*d, *tables, split_points@, lexeme, entry));
                }
                add_lexeme(
                    &mut names,
                    &mut groups,
                    condition,
                    lexeme,
                    Ghost(*d),
                    Ghost(*tables),
                    Ghost(split_points@),
                    Ghost(made),
                    Ghost(entry),
                );
                proof {
                    made = with_entry(made, entry);
                }
            }
            proof {
                assert(made == with_rules(*d, all, (n + 1) as nat));
            }
            n += 1;
        }
        let ghost ruled = made;
        let mut b: usize = 0;
        while b < d.body.len()
            invariant
                b <= d.body@.len(),
                ruled == with_rules(*d, all, all.len()),
                made == with_blocks(*d, ruled, b as nat),
                groups_ok(*d, *tables, split_points@, names@, groups@, made),
            decreases d.body@.len() - b,
        {
            let block = &d.body[b];
            let mut conds = conditions(block);
            let ghost every = conds@;
            let ghost start = made;
            proof {
                assert(conds@ =~= every.subrange(0, every.len() as int));
            }
            while conds.len() > 0
                invariant
                    b < d.body@.len(),
                    *block == d.body@[b as int],
                    conds@.len() <= every.len(),
                    conds@ == every.subrange(every.len() - conds@.len(), every.len() as int),
                    every.len() == conditions_of(*block).len(),
                    forall|i: int|
                        0 <= i < every.len() ==> conditions_of(*block)[i] == ((#[trigger] every[i]).0.name(), match every[i].1 {
                            Some(s) => Some(s@),
                            None => None,
                        }),
                    made == with_declared(*d, start, b as int, (every.len() - conds@.len()) as nat),
                    groups_ok(*d, *tables, split_points@, names@, groups@, made),
                decreases conds@.len(),
            {
                let ghost place = every.len() - conds@.len();
                let (condition, target) = conds.remove(0);
                proof {
                    assert(conds@ =~= every.subrange(every.len() - conds@.len(), every.len() as int));
                    assert((condition, target) == every[place]);
                }
                declare(
                    &mut names,
                    &mut groups,
                    condition,
                    Ghost(*d),
                    Ghost(*tables),
                    Ghost(split_points@),
                    Ghost(made),
                );
                proof {
                    made = with_name(made, conditions_of(*block)[place].0);
                }
                match target {
                    Some(t) => {
                        let named = SCIdent(Some(t));
                        declare(
                            &mut names,
                            &mut groups,
                            named,
                            Ghost(*d),
                            Ghost(*tables),
                            Ghost(split_points@),
                            Ghost(made),
                        );
                        proof {
                            made = with_name(made, named.name());
                        }
                    },
                    None => {},
                }
            }
            b += 1;
        }
        RootDef { name: d.name.clone(), conditions: names, lexemes: groups, split_points }
    }
}

} // verus!
