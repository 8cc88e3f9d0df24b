//! The lexemes of Haskell.

use vstd::prelude::*;
use crate::number::{
    common_divisor,
    divisor_and_multiple,
    gcd,
    is_numeral,
    lcm,
    lemma_decimal_numeral,
    lemma_gcd_positive,
    product,
    quotient,
    radix_value,
    total,
};
use vstd::string::StrSliceExecFns;
use crate::text::{decimal, escaped, push_char, push_escaped, push_str};

verus! {

/// The name of a module: `M1.M2.(...).Mn`, part by part.
#[derive(Debug, Clone, PartialEq, Eq)]
pub struct ModuleId(pub Vec<String>);

/// A qualified name: `Module.name`.
#[derive(Debug, Clone, PartialEq, Eq)]
pub struct QName {
    /// The module of the name.
    pub module: ModuleId,
    /// The name itself.
    pub name: String,
}

/// The parts of a module name, each followed by a dot.
pub open spec fn module_text(parts: Seq<String>, n: nat) -> Seq<char>
    decreases n,
{
    if n == 0 || n > parts.len() {
        Seq::empty()
    } else {
        module_text(parts, (n - 1) as nat) + parts[n - 1]@ + seq!['.']
    }
}

impl QName {
    /// The name `name` without a module.
    pub fn new(name: String) -> (r: Self)
        ensures
            r.module.0@.len() == 0,
            r.name == name,
    {
        QName { module: ModuleId(Vec::new()), name }
    }

    /// Appends a part: what was the name becomes the last part of the
    /// module, and `name` the name.
    pub fn append(&mut self, name: String)
        ensures
            final(self).module.0@ == old(self).module.0@.push(old(self).name),
            final(self).name == name,
    {
        let mut last = name;
        core::mem::swap(&mut self.name, &mut last);
        self.module.0.push(last);
    }

    /// The printed form: the parts of the module and the name, with dots
    /// between.
    pub open spec fn text(&self) -> Seq<char> {
        module_text(self.module.0@, self.module.0@.len()) + self.name@
    }

    /// The printed form as a string.
    pub fn to_string(&self) -> (s: String)
        ensures
            s@ == self.text(),
    {
        let mut s = String::new();
        let mut i: usize = 0;
        proof {
            assert(s@ =~= module_text(self.module.0@, 0));
        }
        while i < self.module.0.len()
            invariant
                i <= self.module.0@.len(),
                s@ == module_text(self.module.0@, i as nat),
            decreases self.module.0@.len() - i,
        {
            push_str(&mut s, self.module.0[i].as_str());
            push_char(&mut s, '.');
            proof {
                assert(s@ =~= module_text(self.module.0@, (i + 1) as nat));
            }
            i += 1;
        }
        push_str(&mut s, self.name.as_str());
        s
    }
}

/// A fraction.
#[derive(Debug, Clone, PartialEq, Eq)]
pub struct Ratio<T> {
    pub numerator: T,
    pub denominator: T,
}

impl Ratio<String> {
    /// The fraction of two numbers in decimal digits, in lowest terms.
    pub fn new(numerator: String, denominator: String) -> (r: Self)
        requires
            is_numeral(numerator@, 10),
            is_numeral(denominator@, 10),
            radix_value(numerator@, 10) > 0 || radix_value(denominator@, 10) > 0,
        ensures
            r.numerator@ == decimal(
                radix_value(numerator@, 10) / gcd(radix_value(numerator@, 10), radix_value(denominator@, 10)),
            ),
            r.denominator@ == decimal(
                radix_value(denominator@, 10) / gcd(radix_value(numerator@, 10), radix_value(denominator@, 10)),
            ),
    {
        let g = common_divisor(numerator.as_str(), denominator.as_str());
        proof {
            let n = radix_value(numerator@, 10);
            let d = radix_value(denominator@, 10);
            lemma_gcd_positive(n, d);
            lemma_decimal_numeral(gcd(n, d));
        }
        Ratio {
            numerator: quotient(numerator.as_str(), g.as_str()),
            denominator: quotient(denominator.as_str(), g.as_str()),
        }
    }

    /// The sum of two fractions, over the least common multiple of their
    /// denominators. The sum is not brought to lowest terms.
    pub fn add(self, rhs: Self) -> (r: Self)
        requires
            is_numeral(self.numerator@, 10),
            is_numeral(self.denominator@, 10),
            is_numeral(rhs.numerator@, 10),
            is_numeral(rhs.denominator@, 10),
            radix_value(self.denominator@, 10) > 0 || radix_value(rhs.denominator@, 10) > 0,
        ensures
            r.denominator@ == decimal(lcm(radix_value(self.denominator@, 10), radix_value(rhs.denominator@, 10))),
            r.numerator@ == decimal(
                (radix_value(self.numerator@, 10) * radix_value(rhs.denominator@, 10) + radix_value(
                    rhs.numerator@,
                    10,
                ) * radix_value(self.denominator@, 10)) / gcd(
                    radix_value(self.denominator@, 10),
                    radix_value(rhs.denominator@, 10),
                ),
            ),
    {
        let (g, l) = divisor_and_multiple(self.denominator.as_str(), rhs.denominator.as_str());
        let left = product(self.numerator.as_str(), rhs.denominator.as_str());
        let right = product(rhs.numerator.as_str(), self.denominator.as_str());
        proof {
            let a = radix_value(self.numerator@, 10);
            let b = radix_value(self.denominator@, 10);
            let c = radix_value(rhs.numerator@, 10);
            let d = radix_value(rhs.denominator@, 10);
            lemma_decimal_numeral(a * d);
            lemma_decimal_numeral(c * b);
            lemma_decimal_numeral(a * d + c * b);
            lemma_gcd_positive(b, d);
            lemma_decimal_numeral(gcd(b, d));
        }
        let sum = total(left.as_str(), right.as_str());
        Ratio { numerator: quotient(sum.as_str(), g.as_str()), denominator: l }
    }

    /// The whole number `numerator`, as a fraction.
    pub fn whole(numerator: String) -> (r: Self)
        ensures
            r.numerator@ == numerator@,
            r.denominator@ == seq!['1'],
    {
        let mut one = String::new();
        push_char(&mut one, '1');
        proof {
            assert(one@ =~= seq!['1']);
        }
        Ratio { numerator, denominator: one }
    }
}

/// The reserved words.
#[derive(Debug, Copy, Clone, PartialEq, Eq, Structural)]
pub enum RId {
    Case,
    Class,
    Data,
    Default,
    Deriving,
    Do,
    Else,
    Foreign,
    If,
    Import,
    In,
    Infix,
    Infixl,
    Infixr,
    Instance,
    Let,
    Module,
    Newtype,
    Of,
    Then,
    Type,
    Where,
    Wildcard,
}

/// The reserved operators.
#[derive(Debug, Copy, Clone, PartialEq, Eq, Structural)]
pub enum ROp {
    DotDot,
    Colon,
    ColonColon,
    EqualSign,
    Backslash,
    Pipe,
    LeftArrow,
    RightArrow,
    AtSign,
    Tilde,
    DoubleRightArrow,
}

/// The kinds of lexemes.
#[derive(Debug, Copy, Clone, PartialEq, Eq, Structural)]
pub enum LexemeType {
    Whitespace,
    Identifier,
    Operator,
    QIdentifier,
    QOperator,
    Integer,
    Float,
    CharLiteral,
    StringLiteral,
    ReservedId,
    ReservedOp,
    Special,
}

/// What a lexeme says, with the text of every name and literal.
pub ghost enum Token {
    Identifier(Seq<char>),
    Operator(Seq<char>),
    /// The parts of the module, and the name.
    QIdentifier(Seq<Seq<char>>, Seq<char>),
    /// The parts of the module, and the operator.
    QOperator(Seq<Seq<char>>, Seq<char>),
    Integer(Seq<char>),
    /// Numerator and denominator.
    Float(Seq<char>, Seq<char>),
    CharLiteral(char),
    StringLiteral(Seq<char>),
    ReservedId(RId),
    ReservedOp(ROp),
    Comma,
    Semicolon,
    Backtick,
    OpenCurlyBracket,
    CloseCurlyBracket,
    OpenParenthesis,
    CloseParenthesis,
    OpenSquareBracket,
    CloseSquareBracket,
}

/// The texts of strings.
pub open spec fn texts(parts: Seq<String>) -> Seq<Seq<char>> {
    Seq::new(parts.len(), |i: int| parts[i]@)
}

/// A lexeme.
#[derive(Debug, Clone, PartialEq, Eq)]
pub enum Lexeme {
    /// An identifier.
    Identifier(String),
    /// An operator.
    Operator(String),
    /// A qualified identifier.
    QIdentifier(QName),
    /// A qualified operator.
    QOperator(QName),
    /// An integer literal, by its decimal digits.
    Integer(String),
    /// A float literal: a fraction in lowest terms, numerator and
    /// denominator by their decimal digits.
    Float(Ratio<String>),
    /// A character literal.
    CharLiteral(char),
    /// A string literal.
    StringLiteral(String),
    /// A reserved word.
    ReservedId(RId),
    /// A reserved operator.
    ReservedOp(ROp),
    Comma,
    Semicolon,
    Backtick,
    OpenCurlyBracket,
    CloseCurlyBracket,
    OpenParenthesis,
    CloseParenthesis,
    OpenSquareBracket,
    CloseSquareBracket,
}

impl View for Lexeme {
    type V = Token;

    open spec fn view(&self) -> Token {
        match self {
            Lexeme::Identifier(s) => Token::Identifier(s@),
            Lexeme::Operator(s) => Token::Operator(s@),
            Lexeme::QIdentifier(q) => Token::QIdentifier(texts(q.module.0@), q.name@),
            Lexeme::QOperator(q) => Token::QOperator(texts(q.module.0@), q.name@),
            Lexeme::Integer(s) => Token::Integer(s@),
            Lexeme::Float(r) => Token::Float(r.numerator@, r.denominator@),
            Lexeme::CharLiteral(c) => Token::CharLiteral(*c),
            Lexeme::StringLiteral(s) => Token::StringLiteral(s@),
            Lexeme::ReservedId(w) => Token::ReservedId(*w),
            Lexeme::ReservedOp(w) => Token::ReservedOp(*w),
            Lexeme::Comma => Token::Comma,
            Lexeme::Semicolon => Token::Semicolon,
            Lexeme::Backtick => Token::Backtick,
            Lexeme::OpenCurlyBracket => Token::OpenCurlyBracket,
            Lexeme::CloseCurlyBracket => Token::CloseCurlyBracket,
            Lexeme::OpenParenthesis => Token::OpenParenthesis,
            Lexeme::CloseParenthesis => Token::CloseParenthesis,
            Lexeme::OpenSquareBracket => Token::OpenSquareBracket,
            Lexeme::CloseSquareBracket => Token::CloseSquareBracket,
        }
    }
}

impl Lexeme {
    /// The kind of the lexeme.
    pub fn get_type(&self) -> (t: LexemeType)
        ensures
            t == self.spec_type(),
    {
        match self {
            Lexeme::Identifier(_) => LexemeType::Identifier,
            Lexeme::Operator(_) => LexemeType::Operator,
            Lexeme::QIdentifier(_) => LexemeType::QIdentifier,
            Lexeme::QOperator(_) => LexemeType::QOperator,
            Lexeme::Integer(_) => LexemeType::Integer,
            Lexeme::Float(_) => LexemeType::Float,
            Lexeme::CharLiteral(_) => LexemeType::CharLiteral,
            Lexeme::StringLiteral(_) => LexemeType::StringLiteral,
            Lexeme::ReservedId(_) => LexemeType::ReservedId,
            Lexeme::ReservedOp(_) => LexemeType::ReservedOp,
            _ => LexemeType::Special,
        }
    }

    /// The kind of the lexeme.
    pub open spec fn spec_type(&self) -> LexemeType {
        match self {
            Lexeme::Identifier(_) => LexemeType::Identifier,
            Lexeme::Operator(_) => LexemeType::Operator,
            Lexeme::QIdentifier(_) => LexemeType::QIdentifier,
            Lexeme::QOperator(_) => LexemeType::QOperator,
            Lexeme::Integer(_) => LexemeType::Integer,
            Lexeme::Float(_) => LexemeType::Float,
            Lexeme::CharLiteral(_) => LexemeType::CharLiteral,
            Lexeme::StringLiteral(_) => LexemeType::StringLiteral,
            Lexeme::ReservedId(_) => LexemeType::ReservedId,
            Lexeme::ReservedOp(_) => LexemeType::ReservedOp,
            _ => LexemeType::Special,
        }
    }

    /// Whether the lexeme is `{`.
    pub fn is_open_curly(&self) -> (r: bool)
        ensures
            r == (self is OpenCurlyBracket),
    {
        match self {
            Lexeme::OpenCurlyBracket => true,
            _ => false,
        }
    }

    /// Whether the lexeme is `}`.
    pub fn is_close_curly(&self) -> (r: bool)
        ensures
            r == (self is CloseCurlyBracket),
    {
        match self {
            Lexeme::CloseCurlyBracket => true,
            _ => false,
        }
    }

    /// Whether the lexeme is the reserved word `module`.
    pub open spec fn spec_is_module(&self) -> bool {
        self matches Lexeme::ReservedId(w) && w == RId::Module
    }

    /// Whether the lexeme is `let`, `where`, `do` or `of`.
    pub open spec fn spec_opens_block(&self) -> bool {
        self matches Lexeme::ReservedId(w) && (w == RId::Let || w == RId::Where || w == RId::Do || w == RId::Of)
    }

    /// Whether the lexeme is the reserved word `module`.
    pub fn is_module(&self) -> (r: bool)
        ensures
            r == self.spec_is_module(),
    {
        match self {
            Lexeme::ReservedId(RId::Module) => true,
            _ => false,
        }
    }

    /// Whether the lexeme opens a block that the layout rule may close:
    /// `let`, `where`, `do` or `of`.
    pub fn opens_block(&self) -> (r: bool)
        ensures
            r == self.spec_opens_block(),
    {
        match self {
            Lexeme::ReservedId(RId::Let) => true,
            Lexeme::ReservedId(RId::Where) => true,
            Lexeme::ReservedId(RId::Do) => true,
            Lexeme::ReservedId(RId::Of) => true,
            _ => false,
        }
    }
}


impl RId {
    /// The reserved word as it is written.
    pub open spec fn text(self) -> Seq<char> {
        match self {
            RId::Case => "case"@,
            RId::Class => "class"@,
            RId::Data => "data"@,
            RId::Default => "default"@,
            RId::Deriving => "deriving"@,
            RId::Do => "do"@,
            RId::Else => "else"@,
            RId::Foreign => "foreign"@,
            RId::If => "if"@,
            RId::Import => "import"@,
            RId::In => "in"@,
            RId::Infix => "infix"@,
            RId::Infixl => "infixl"@,
            RId::Infixr => "infixr"@,
            RId::Instance => "instance"@,
            RId::Let => "let"@,
            RId::Module => "module"@,
            RId::Newtype => "newtype"@,
            RId::Of => "of"@,
            RId::Then => "then"@,
            RId::Type => "type"@,
            RId::Where => "where"@,
            RId::Wildcard => "_"@,
        }
    }

    /// The reserved word as it is written.
    pub fn as_str(&self) -> (r: &'static str)
        ensures
            r@ == self.text(),
    {
        match self {
            RId::Case => "case",
            RId::Class => "class",
            RId::Data => "data",
            RId::Default => "default",
            RId::Deriving => "deriving",
            RId::Do => "do",
            RId::Else => "else",
            RId::Foreign => "foreign",
            RId::If => "if",
            RId::Import => "import",
            RId::In => "in",
            RId::Infix => "infix",
            RId::Infixl => "infixl",
            RId::Infixr => "infixr",
            RId::Instance => "instance",
            RId::Let => "let",
            RId::Module => "module",
            RId::Newtype => "newtype",
            RId::Of => "of",
            RId::Then => "then",
            RId::Type => "type",
            RId::Where => "where",
            RId::Wildcard => "_",
        }
    }
}

impl ROp {
    /// The reserved operator as it is written.
    pub open spec fn text(self) -> Seq<char> {
        match self {
            ROp::DotDot => ".."@,
            ROp::Colon => ":"@,
            ROp::ColonColon => "::"@,
            ROp::EqualSign => "="@,
            ROp::Backslash => "\\"@,
            ROp::Pipe => "|"@,
            ROp::LeftArrow => "<-"@,
            ROp::RightArrow => "->"@,
            ROp::AtSign => "@"@,
            ROp::Tilde => "~"@,
            ROp::DoubleRightArrow => "=>"@,
        }
    }

    /// The reserved operator as it is written.
    pub fn as_str(&self) -> (r: &'static str)
        ensures
            r@ == self.text(),
    {
        match self {
            ROp::DotDot => "..",
            ROp::Colon => ":",
            ROp::ColonColon => "::",
            ROp::EqualSign => "=",
            ROp::Backslash => "\\",
            ROp::Pipe => "|",
            ROp::LeftArrow => "<-",
            ROp::RightArrow => "->",
            ROp::AtSign => "@",
            ROp::Tilde => "~",
            ROp::DoubleRightArrow => "=>",
        }
    }
}

/// The first `n` characters of `s`, each as it is written in a literal.
pub open spec fn escaped_text(s: Seq<char>, n: nat) -> Seq<char>
    decreases n,
{
    if n == 0 || n > s.len() {
        Seq::empty()
    } else {
        escaped_text(s, (n - 1) as nat) + escaped(s[n - 1])
    }
}

/// Appends the characters of `t` to `out`, each as it is written in a
/// literal.
pub fn push_escaped_text(out: &mut String, t: &str)
    ensures
        final(out)@ == old(out)@ + escaped_text(t@, t@.len()),
{
    let n = t.unicode_len();
    let mut i: usize = 0;
    proof {
        assert(out@ =~= old(out)@ + escaped_text(t@, 0));
    }
    while i < n
        invariant
            i <= n,
            n == t@.len(),
            out@ == old(out)@ + escaped_text(t@, i as nat),
        decreases n - i,
    {
        push_escaped(out, t.get_char(i));
        proof {
            assert(out@ =~= old(out)@ + escaped_text(t@, (i + 1) as nat));
        }
        i += 1;
    }
}

impl Token {
    /// The printed form of a lexeme: names, operators and numbers as they
    /// are written, a fraction with `%` between numerator and denominator,
    /// and literals between their quotes.
    pub open spec fn text(self) -> Seq<char> {
        match self {
            Token::Identifier(s) => s,
            Token::Operator(s) => s,
            Token::QIdentifier(m, s) => parts_text(m, m.len()) + s,
            Token::QOperator(m, s) => parts_text(m, m.len()) + s,
            Token::Integer(s) => s,
            Token::Float(n, d) => n + " % "@ + d,
            Token::CharLiteral(c) => seq!['\''] + escaped(c) + seq!['\''],
            Token::StringLiteral(s) => seq!['"'] + escaped_text(s, s.len()) + seq!['"'],
            Token::ReservedId(w) => w.text(),
            Token::ReservedOp(w) => w.text(),
            Token::Comma => seq![','],
            Token::Semicolon => seq![';'],
            Token::Backtick => seq!['`'],
            Token::OpenCurlyBracket => seq!['{'],
            Token::CloseCurlyBracket => seq!['}'],
            Token::OpenParenthesis => seq!['('],
            Token::CloseParenthesis => seq![')'],
            Token::OpenSquareBracket => seq!['['],
            Token::CloseSquareBracket => seq![']'],
        }
    }
}

/// The first `n` parts of a module name, each followed by a dot.
pub open spec fn parts_text(parts: Seq<Seq<char>>, n: nat) -> Seq<char>
    decreases n,
{
    if n == 0 || n > parts.len() {
        Seq::empty()
    } else {
        parts_text(parts, (n - 1) as nat) + parts[n - 1] + seq!['.']
    }
}

/// The text of the parts of a module name is the text of their texts.
pub proof fn lemma_parts_text(parts: Seq<String>, n: nat)
    requires
        n <= parts.len(),
    ensures
        module_text(parts, n) == parts_text(texts(parts), n),
    decreases n,
{
    if n > 0 {
        lemma_parts_text(parts, (n - 1) as nat);
    }
}

impl Lexeme {
    /// Appends the printed form of the lexeme to `out`.
    pub fn write_to(&self, out: &mut String)
        ensures
            final(out)@ == old(out)@ + self@.text(),
    {
        match self {
            Lexeme::Identifier(s) => push_str(out, s.as_str()),
            Lexeme::Operator(s) => push_str(out, s.as_str()),
            Lexeme::QIdentifier(q) => {
                let t = q.to_string();
                proof {
                    lemma_parts_text(q.module.0@, q.module.0@.len());
                }
                push_str(out, t.as_str());
            },
            Lexeme::QOperator(q) => {
                let t = q.to_string();
                proof {
                    lemma_parts_text(q.module.0@, q.module.0@.len());
                }
                push_str(out, t.as_str());
            },
            Lexeme::Integer(s) => push_str(out, s.as_str()),
            Lexeme::Float(r) => {
                push_str(out, r.numerator.as_str());
                push_str(out, " % ");
                push_str(out, r.denominator.as_str());
                proof {
                    assert(out@ =~= old(out)@ + self@.text());
                }
            },
            Lexeme::CharLiteral(c) => {
                push_char(out, '\'');
                push_escaped(out, *c);
                push_char(out, '\'');
                proof {
                    assert(out@ =~= old(out)@ + self@.text());
                }
            },
            Lexeme::StringLiteral(s) => {
                push_char(out, '"');
                push_escaped_text(out, s.as_str());
                push_char(out, '"');
                proof {
                    assert(out@ =~= old(out)@ + self@.text());
                }
            },
            Lexeme::ReservedId(w) => push_str(out, w.as_str()),
            Lexeme::ReservedOp(w) => push_str(out, w.as_str()),
            Lexeme::Comma => {
                push_char(out, ',');
                proof {
                    assert(out@ =~= old(out)@ + self@.text());
                }
            },
            Lexeme::Semicolon => {
                push_char(out, ';');
                proof {
                    assert(out@ =~= old(out)@ + self@.text());
                }
            },
            Lexeme::Backtick => {
                push_char(out, '`');
                proof {
                    assert(out@ =~= old(out)@ + self@.text());
                }
            },
            Lexeme::OpenCurlyBracket => {
                push_char(out, '{');
                proof {
                    assert(out@ =~= old(out)@ + self@.text());
                }
            },
            Lexeme::CloseCurlyBracket => {
                push_char(out, '}');
                proof {
                    assert(out@ =~= old(out)@ + self@.text());
                }
            },
            Lexeme::OpenParenthesis => {
                push_char(out, '(');
                proof {
                    assert(out@ =~= old(out)@ + self@.text());
                }
            },
            Lexeme::CloseParenthesis => {
                push_char(out, ')');
                proof {
                    assert(out@ =~= old(out)@ + self@.text());
                }
            },
            Lexeme::OpenSquareBracket => {
                push_char(out, '[');
                proof {
                    assert(out@ =~= old(out)@ + self@.text());
                }
            },
            Lexeme::CloseSquareBracket => {
                push_char(out, ']');
                proof {
                    assert(out@ =~= old(out)@ + self@.text());
                }
            },
        }
    }

    /// The printed form of the lexeme.
    pub fn to_string(&self) -> (s: String)
        ensures
            s@ == self@.text(),
    {
        let mut s = String::new();
        self.write_to(&mut s);
        proof {
            assert(s@ =~= self@.text());
        }
        s
    }
}

} // verus!
