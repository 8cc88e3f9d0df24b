//! The syntax of lexer rules, as the parser hands it over: names and
//! literals are plain values, and places in the source are numbers that the
//! parser knows how to resolve.

use vstd::prelude::*;

verus! {

/// A rule: a name, and the expression that its lexemes match.
pub struct Rule {
    /// Whether the rule is visible outside the lexer.
    pub vis: bool,
    pub name: String,
    pub body: Expr,
}

/// An expression is an alternation.
pub type Expr = Alt;

/// One of several concatenations, separated by `|`.
pub struct Alt {
    pub variants: Vec<Concat>,
}

/// Several repetitions in a row.
pub struct Concat {
    pub items: Vec<Repeat>,
}

/// An atom with a quantifier, or without.
pub enum Repeat {
    /// The atom once.
    Once(Atom),
    /// The atom any number of times (`*`).
    Many(Atom),
    /// The atom once or more often (`+`).
    OneOrMore(Atom),
    /// The atom once or not at all (`?`).
    Optional(Atom),
}

/// What a concatenation is made of.
pub enum Atom {
    /// A character literal.
    Char(char),
    /// A string literal: its characters in a row.
    String(String),
    /// A range of characters, both ends included.
    Range(CharRange),
    /// A class of Unicode by name (`$Name`).
    Class(CharClass),
    /// An expression in parentheses.
    Paren { expr: Box<Expr> },
}

/// A class of Unicode by name.
pub struct CharClass {
    pub class_name: String,
    /// The number by which the parser knows the place of the name.
    pub span: usize,
}

/// A range of characters, both ends included.
pub struct CharRange {
    pub begin: char,
    pub end: char,
}

/// A start condition in which rules are active, with or without a condition
/// to switch to on a match.
pub enum ConditionTrans {
    /// Active in the condition.
    Simple(String),
    /// Active in `begin`; a match switches to `end`.
    Trans { begin: String, end: String },
}

/// The start conditions of a block of rules.
pub struct StartCondition {
    pub condition: Vec<ConditionTrans>,
}

/// Rules in braces.
pub struct Group {
    pub body: Vec<Rule>,
}

/// A group of rules, or a single rule.
pub enum RuleBlock {
    Group(Group),
    Single(Rule),
}

/// A block of rules with the start conditions in which they are active; with
/// none given they are active in the default condition.
pub struct WithCondition {
    pub start_condition: Option<StartCondition>,
    pub body: RuleBlock,
}

/// The definition of a lexer: its name and its rules.
pub struct LexemeDef {
    pub name: String,
    pub body: Vec<WithCondition>,
}

impl RuleBlock {
    /// The rules of the block, in order.
    pub open spec fn rules(self) -> Seq<Rule> {
        match self {
            RuleBlock::Group(g) => g.body@,
            RuleBlock::Single(r) => seq![r],
        }
    }

    /// The number of rules of the block.
    pub fn rule_count(&self) -> (n: usize)
        ensures
            n == self.rules().len(),
    {
        match self {
            RuleBlock::Group(g) => g.body.len(),
            RuleBlock::Single(_) => 1,
        }
    }

    /// Rule `i` of the block.
    pub fn rule(&self, i: usize) -> (r: &Rule)
        requires
            i < self.rules().len(),
        ensures
            *r == self.rules()[i as int],
    {
        match self {
            RuleBlock::Group(g) => &g.body[i],
            RuleBlock::Single(r) => r,
        }
    }
}

} // verus!
