//! Identifiers and operators.

use vstd::prelude::*;
use crate::buffer::{lemma_run_bound, run_length};
use crate::char::CharPredicate;
use crate::lexeme::{texts, Lexeme, ModuleId, QName, RId, ROp, Token};
use crate::scanner::basic::{Large, NameChar, Small, Symbol};
use crate::scanner::whitespace::read;
use crate::scanner::{ScanResult, Scanner};
use crate::text::{push_char, str_eq};
use crate::utils::Result3;

verus! {

/// The reserved word that `name` is, if it is one.
pub open spec fn reserved_id(name: Seq<char>) -> Option<RId> {
    if name == "case"@ {
        Some(RId::Case)
    } else if name == "class"@ {
        Some(RId::Class)
    } else if name == "data"@ {
        Some(RId::Data)
    } else if name == "default"@ {
        Some(RId::Default)
    } else if name == "deriving"@ {
        Some(RId::Deriving)
    } else if name == "do"@ {
        Some(RId::Do)
    } else if name == "else"@ {
        Some(RId::Else)
    } else if name == "foreign"@ {
        Some(RId::Foreign)
    } else if name == "if"@ {
        Some(RId::If)
    } else if name == "import"@ {
        Some(RId::Import)
    } else if name == "in"@ {
        Some(RId::In)
    } else if name == "infix"@ {
        Some(RId::Infix)
    } else if name == "infixl"@ {
        Some(RId::Infixl)
    } else if name == "infixr"@ {
        Some(RId::Infixr)
    } else if name == "instance"@ {
        Some(RId::Instance)
    } else if name == "let"@ {
        Some(RId::Let)
    } else if name == "module"@ {
        Some(RId::Module)
    } else if name == "newtype"@ {
        Some(RId::Newtype)
    } else if name == "of"@ {
        Some(RId::Of)
    } else if name == "then"@ {
        Some(RId::Then)
    } else if name == "type"@ {
        Some(RId::Type)
    } else if name == "where"@ {
        Some(RId::Where)
    } else if name == "_"@ {
        Some(RId::Wildcard)
    } else {
        None
    }
}

/// Decides [`reserved_id`].
pub fn find_reserved_id(name: &str) -> (r: Option<RId>)
    ensures
        r == reserved_id(name@),
{
    if str_eq(name, "case") {
        Some(RId::Case)
    } else if str_eq(name, "class") {
        Some(RId::Class)
    } else if str_eq(name, "data") {
        Some(RId::Data)
    } else if str_eq(name, "default") {
        Some(RId::Default)
    } else if str_eq(name, "deriving") {
        Some(RId::Deriving)
    } else if str_eq(name, "do") {
        Some(RId::Do)
    } else if str_eq(name, "else") {
        Some(RId::Else)
    } else if str_eq(name, "foreign") {
        Some(RId::Foreign)
    } else if str_eq(name, "if") {
        Some(RId::If)
    } else if str_eq(name, "import") {
        Some(RId::Import)
    } else if str_eq(name, "in") {
        Some(RId::In)
    } else if str_eq(name, "infix") {
        Some(RId::Infix)
    } else if str_eq(name, "infixl") {
        Some(RId::Infixl)
    } else if str_eq(name, "infixr") {
        Some(RId::Infixr)
    } else if str_eq(name, "instance") {
        Some(RId::Instance)
    } else if str_eq(name, "let") {
        Some(RId::Let)
    } else if str_eq(name, "module") {
        Some(RId::Module)
    } else if str_eq(name, "newtype") {
        Some(RId::Newtype)
    } else if str_eq(name, "of") {
        Some(RId::Of)
    } else if str_eq(name, "then") {
        Some(RId::Then)
    } else if str_eq(name, "type") {
        Some(RId::Type)
    } else if str_eq(name, "where") {
        Some(RId::Where)
    } else if str_eq(name, "_") {
        Some(RId::Wildcard)
    } else {
        None
    }
}

/// The reserved operator that a name of symbols which does not begin with
/// a colon is, if it is one.
pub open spec fn reserved_var_op(name: Seq<char>) -> Option<ROp> {
    if name == ".."@ {
        Some(ROp::DotDot)
    } else if name == "="@ {
        Some(ROp::EqualSign)
    } else if name == "\\"@ {
        Some(ROp::Backslash)
    } else if name == "|"@ {
        Some(ROp::Pipe)
    } else if name == "<-"@ {
        Some(ROp::LeftArrow)
    } else if name == "->"@ {
        Some(ROp::RightArrow)
    } else if name == "@"@ {
        Some(ROp::AtSign)
    } else if name == "^"@ {
        Some(ROp::Tilde)
    } else if name == "=>"@ {
        Some(ROp::DoubleRightArrow)
    } else {
        None
    }
}

/// Decides [`reserved_var_op`].
pub fn find_reserved_var_op(name: &str) -> (r: Option<ROp>)
    ensures
        r == reserved_var_op(name@),
{
    if str_eq(name, "..") {
        Some(ROp::DotDot)
    } else if str_eq(name, "=") {
        Some(ROp::EqualSign)
    } else if str_eq(name, "\\") {
        Some(ROp::Backslash)
    } else if str_eq(name, "|") {
        Some(ROp::Pipe)
    } else if str_eq(name, "<-") {
        Some(ROp::LeftArrow)
    } else if str_eq(name, "->") {
        Some(ROp::RightArrow)
    } else if str_eq(name, "@") {
        Some(ROp::AtSign)
    } else if str_eq(name, "^") {
        Some(ROp::Tilde)
    } else if str_eq(name, "=>") {
        Some(ROp::DoubleRightArrow)
    } else {
        None
    }
}

/// The reserved operator that a name of symbols which begins with a colon
/// is, if it is one.
pub open spec fn reserved_con_op(name: Seq<char>) -> Option<ROp> {
    if name == ":"@ {
        Some(ROp::Colon)
    } else if name == "::"@ {
        Some(ROp::ColonColon)
    } else {
        None
    }
}

/// Decides [`reserved_con_op`].
pub fn find_reserved_con_op(name: &str) -> (r: Option<ROp>)
    ensures
        r == reserved_con_op(name@),
{
    if str_eq(name, ":") {
        Some(ROp::Colon)
    } else if str_eq(name, "::") {
        Some(ROp::ColonColon)
    } else {
        None
    }
}

/// The length of the name that `s` begins with: `conid`, a large letter
/// and then letters, digits and `'`.
pub open spec fn con_id(s: Seq<char>) -> Option<nat> {
    if s.len() > 0 && Large.holds(s[0]) {
        Some(1 + run_length(NameChar, s.skip(1)))
    } else {
        None
    }
}

/// What `s` begins with, and its length, if that is a `varid` or a
/// reserved word: a small letter and then letters, digits and `'`.
pub open spec fn var_id(s: Seq<char>) -> Option<(Token, nat)> {
    if s.len() > 0 && Small.holds(s[0]) {
        let n = 1 + run_length(NameChar, s.skip(1));
        let name = s.take(n as int);
        Some(
            (
                match reserved_id(name) {
                    Some(w) => Token::ReservedId(w),
                    None => Token::Identifier(name),
                },
                n,
            ),
        )
    } else {
        None
    }
}

/// What `s` begins with, and its length, if that is a `varsym` or a
/// reserved operator: symbols, the first of them no colon.
pub open spec fn var_sym(s: Seq<char>) -> Option<(Token, nat)> {
    if s.len() > 0 && Symbol.holds(s[0]) && s[0] != ':' {
        let n = 1 + run_length(Symbol, s.skip(1));
        let name = s.take(n as int);
        Some(
            (
                match reserved_var_op(name) {
                    Some(w) => Token::ReservedOp(w),
                    None => Token::Operator(name),
                },
                n,
            ),
        )
    } else {
        None
    }
}

/// What `s` begins with, and its length, if that is a `consym` or a
/// reserved operator: a colon and then symbols.
pub open spec fn con_sym(s: Seq<char>) -> Option<(Token, nat)> {
    if s.len() > 0 && s[0] == ':' {
        let n = 1 + run_length(Symbol, s.skip(1));
        let name = s.take(n as int);
        Some(
            (
                match reserved_con_op(name) {
                    Some(w) => Token::ReservedOp(w),
                    None => Token::Operator(name),
                },
                n,
            ),
        )
    } else {
        None
    }
}

/// Whether another part of a module name follows the part of length `n`
/// that `s` begins with: a dot and a `conid`.
pub open spec fn part_follows(s: Seq<char>, n: nat) -> bool {
    n < s.len() && s[n as int] == '.' && con_id(s.skip(n as int + 1)) is Some
}

/// The parts of the module name that `s` begins with: `conid`s with dots
/// between, as many as there are.
pub open spec fn mod_parts(s: Seq<char>) -> Seq<Seq<char>>
    decreases s.len(),
{
    match con_id(s) {
        None => Seq::empty(),
        Some(n) => if part_follows(s, n) {
            seq![s.take(n as int)] + mod_parts(s.skip(n as int + 1))
        } else {
            seq![s.take(n as int)]
        },
    }
}

/// The length of the module name that `s` begins with.
pub open spec fn mod_len(s: Seq<char>) -> nat
    decreases s.len(),
{
    match con_id(s) {
        None => 0,
        Some(n) => if part_follows(s, n) {
            n + 1 + mod_len(s.skip(n as int + 1))
        } else {
            n
        },
    }
}

/// A module name is no longer than what it begins.
pub proof fn lemma_mod_len(s: Seq<char>)
    ensures
        mod_len(s) <= s.len(),
        con_id(s) is Some ==> mod_len(s) > 0 && mod_parts(s).len() > 0,
    decreases s.len(),
{
    match con_id(s) {
        None => {},
        Some(n) => {
            lemma_run_bound(NameChar, s.skip(1));
            if part_follows(s, n) {
                lemma_mod_len(s.skip(n as int + 1));
            }
        },
    }
}

/// What `s` begins with, and its length, if that is a name or an operator
/// of a module: the module name, a dot, and a `varid`, `varsym` or
/// `consym` that is not reserved.
pub open spec fn q_var(s: Seq<char>) -> Option<(Token, nat)> {
    let parts = mod_parts(s);
    let m = mod_len(s);
    if parts.len() > 0 && m < s.len() && s[m as int] == '.' {
        let t = s.skip(m as int + 1);
        let found = if var_id(t) is Some {
            var_id(t)
        } else if var_sym(t) is Some {
            var_sym(t)
        } else {
            con_sym(t)
        };
        match found {
            Some((Token::Identifier(name), n)) => Some((Token::QIdentifier(parts, name), m + 1 + n)),
            Some((Token::Operator(name), n)) => Some((Token::QOperator(parts, name), m + 1 + n)),
            _ => None,
        }
    } else {
        None
    }
}

/// What `s` begins with, and its length, if that is a `conid` of a module:
/// a module name of two parts at least, the last of which is the name.
pub open spec fn q_con(s: Seq<char>) -> Option<(Token, nat)> {
    let parts = mod_parts(s);
    if parts.len() >= 2 {
        Some((Token::QIdentifier(parts.drop_last(), parts.last()), mod_len(s)))
    } else {
        None
    }
}

/// The identifier or operator that `s` begins with, and its length: the
/// first of a qualified name or operator, a qualified `conid`, a `conid`,
/// a `consym`, a `varsym` and a `varid` that is there.
pub open spec fn id_or_sym(s: Seq<char>) -> Option<(Token, nat)> {
    if q_var(s) is Some {
        q_var(s)
    } else if q_con(s) is Some {
        q_con(s)
    } else if con_id(s) is Some {
        Some((Token::Identifier(s.take(con_id(s)->Some_0 as int)), con_id(s)->Some_0))
    } else if con_sym(s) is Some {
        con_sym(s)
    } else if var_sym(s) is Some {
        var_sym(s)
    } else {
        var_id(s)
    }
}

impl Scanner {
    /// The characters from `from` up to `to` places on, as a string.
    pub fn text(&self, from: usize, to: usize) -> (r: String)
        requires
            self.wf(),
            from <= to <= self.rest().len(),
        ensures
            r@ == self.rest().subrange(from as int, to as int),
    {
        let mut r = String::new();
        let mut i: usize = from;
        proof {
            assert(r@ =~= self.rest().subrange(from as int, from as int));
        }
        while i < to
            invariant
                self.wf(),
                from <= i <= to <= self.rest().len(),
                r@ == self.rest().subrange(from as int, i as int),
            decreases to - i,
        {
            push_char(&mut r, self.peek_at(i).unwrap());
            proof {
                assert(r@ =~= self.rest().subrange(from as int, i + 1));
            }
            i += 1;
        }
        r
    }

    /// The length of the `conid` that begins `at` places on.
    fn con_id_at(&self, at: usize) -> (r: Option<usize>)
        requires
            self.wf(),
            at <= self.rest().len(),
        ensures
            match con_id(self.rest().skip(at as int)) {
                Some(n) => r == Some(n as usize) && at + n <= self.rest().len(),
                None => r is None,
            },
    {
        match self.peek_at(at) {
            Some(c) => {
                if Large.check(c) {
                    let n = self.count_run(&NameChar, at + 1);
                    proof {
                        assert(self.rest().skip(at as int).skip(1) =~= self.rest().skip(at + 1));
                    }
                    Some(1 + n)
                } else {
                    None
                }
            },
            None => None,
        }
    }

    /// The `varid` or reserved word that begins `at` places on.
    fn var_id_at(&self, at: usize) -> (r: Option<(Lexeme, usize)>)
        requires
            self.wf(),
            at <= self.rest().len(),
        ensures
            match var_id(self.rest().skip(at as int)) {
                Some((t, n)) => r matches Some((l, k)) && l@ == t && k == n && at + n <= self.rest().len(),
                None => r is None,
            },
    {
        match self.peek_at(at) {
            Some(c) => {
                if Small.check(c) {
                    let n = 1 + self.count_run(&NameChar, at + 1);
                    let name = self.text(at, at + n);
                    proof {
                        let s = self.rest().skip(at as int);
                        assert(s.skip(1) =~= self.rest().skip(at + 1));
                        assert(s.take(n as int) =~= self.rest().subrange(at as int, at + n));
                    }
                    match find_reserved_id(name.as_str()) {
                        Some(w) => Some((Lexeme::ReservedId(w), n)),
                        None => Some((Lexeme::Identifier(name), n)),
                    }
                } else {
                    None
                }
            },
            None => None,
        }
    }

    /// The `varsym` or reserved operator that begins `at` places on.
    fn var_sym_at(&self, at: usize) -> (r: Option<(Lexeme, usize)>)
        requires
            self.wf(),
            at <= self.rest().len(),
        ensures
            match var_sym(self.rest().skip(at as int)) {
                Some((t, n)) => r matches Some((l, k)) && l@ == t && k == n && at + n <= self.rest().len(),
                None => r is None,
            },
    {
        match self.peek_at(at) {
            Some(c) => {
                if Symbol.check(c) && c != ':' {
                    let n = 1 + self.count_run(&Symbol, at + 1);
                    let name = self.text(at, at + n);
                    proof {
                        let s = self.rest().skip(at as int);
                        assert(s.skip(1) =~= self.rest().skip(at + 1));
                        assert(s.take(n as int) =~= self.rest().subrange(at as int, at + n));
                    }
                    match find_reserved_var_op(name.as_str()) {
                        Some(w) => Some((Lexeme::ReservedOp(w), n)),
                        None => Some((Lexeme::Operator(name), n)),
                    }
                } else {
                    None
                }
            },
            None => None,
        }
    }

    /// The `consym` or reserved operator that begins `at` places on.
    fn con_sym_at(&self, at: usize) -> (r: Option<(Lexeme, usize)>)
        requires
            self.wf(),
            at <= self.rest().len(),
        ensures
            match con_sym(self.rest().skip(at as int)) {
                Some((t, n)) => r matches Some((l, k)) && l@ == t && k == n && at + n <= self.rest().len(),
                None => r is None,
            },
    {
        match self.peek_at(at) {
            Some(c) => {
                if c == ':' {
                    let n = 1 + self.count_run(&Symbol, at + 1);
                    let name = self.text(at, at + n);
                    proof {
                        let s = self.rest().skip(at as int);
                        assert(s.skip(1) =~= self.rest().skip(at + 1));
                        assert(s.take(n as int) =~= self.rest().subrange(at as int, at + n));
                    }
                    match find_reserved_con_op(name.as_str()) {
                        Some(w) => Some((Lexeme::ReservedOp(w), n)),
                        None => Some((Lexeme::Operator(name), n)),
                    }
                } else {
                    None
                }
            },
            None => None,
        }
    }

    /// The module name that is next: its parts, and its length.
    fn mod_id(&self) -> (r: (Vec<String>, usize))
        requires
            self.wf(),
        ensures
            texts(r.0@) == mod_parts(self.rest()),
            r.1 == mod_len(self.rest()),
            r.1 <= self.rest().len(),
    {
        let ghost s = self.rest();
        let mut parts: Vec<String> = Vec::new();
        let mut at: usize = 0;
        proof {
            lemma_mod_len(s);
            assert(s.skip(0) =~= s);
            assert(texts(parts@) =~= Seq::<Seq<char>>::empty());
        }
        let first = self.con_id_at(0);
        if first.is_none() {
            return (parts, 0);
        }
        let mut n: usize = first.unwrap();
        loop
            invariant_except_break
                con_id(s.skip(at as int)) == Some(n as nat),
                at + n <= s.len(),
                mod_parts(s) == texts(parts@) + mod_parts(s.skip(at as int)),
                mod_len(s) == at + mod_len(s.skip(at as int)),
            invariant
                self.wf(),
                s == self.rest(),
                at <= s.len(),
            ensures
                texts(parts@) == mod_parts(s),
                at == mod_len(s),
                at <= s.len(),
            decreases s.len() - at,
        {
            let ghost t = s.skip(at as int);
            let ghost before = parts@;
            let name = self.text(at, at + n);
            parts.push(name);
            proof {
                assert(t.take(n as int) =~= s.subrange(at as int, at + n));
                assert(texts(parts@) =~= texts(before) + seq![t.take(n as int)]);
            }
            let dot = at + n;
            let follows = match self.peek_at(dot) {
                Some(c) => c == '.',
                None => false,
            };
            let next = if follows {
                self.con_id_at(dot + 1)
            } else {
                None
            };
            proof {
                if dot < s.len() {
                    assert(t.skip(n + 1) =~= s.skip(dot + 1));
                }
                assert(part_follows(t, n as nat) == (next is Some));
            }
            match next {
                Some(k) => {
                    proof {
                        assert(mod_parts(s) =~= texts(parts@) + mod_parts(s.skip(dot + 1)));
                    }
                    at = dot + 1;
                    n = k;
                },
                None => {
                    proof {
                        assert(mod_parts(s) =~= texts(parts@));
                    }
                    at = dot;
                    break ;
                },
            }
        }
        (parts, at)
    }

    /// The qualified name or operator that is next.
    fn q_var(&self) -> (r: Option<(Lexeme, usize)>)
        requires
            self.wf(),
        ensures
            match q_var(self.rest()) {
                Some((t, n)) => r matches Some((l, k)) && l@ == t && k == n && n <= self.rest().len(),
                None => r is None,
            },
    {
        let (parts, m) = self.mod_id();
        if parts.len() == 0 {
            return None;
        }
        match self.peek_at(m) {
            Some(c) => {
                if c != '.' {
                    return None;
                }
            },
            None => {
                return None;
            },
        }
        let at = m + 1;
        let mut found = self.var_id_at(at);
        if found.is_none() {
            found = self.var_sym_at(at);
        }
        if found.is_none() {
            found = self.con_sym_at(at);
        }
        match found {
            Some((Lexeme::Identifier(name), n)) => Some(
                (Lexeme::QIdentifier(QName { module: ModuleId(parts), name }), at + n),
            ),
            Some((Lexeme::Operator(name), n)) => Some(
                (Lexeme::QOperator(QName { module: ModuleId(parts), name }), at + n),
            ),
            _ => None,
        }
    }

    /// The qualified `conid` that is next.
    fn q_con(&self) -> (r: Option<(Lexeme, usize)>)
        requires
            self.wf(),
        ensures
            match q_con(self.rest()) {
                Some((t, n)) => r matches Some((l, k)) && l@ == t && k == n && n <= self.rest().len(),
                None => r is None,
            },
    {
        let (parts, m) = self.mod_id();
        if parts.len() < 2 {
            return None;
        }
        let mut parts = parts;
        let ghost all = parts@;
        let name = parts.pop().unwrap();
        proof {
            assert(texts(parts@) =~= texts(all).drop_last());
            assert(name@ == texts(all).last());
        }
        Some((Lexeme::QIdentifier(QName { module: ModuleId(parts), name }), m))
    }

    /// The identifier or operator that is next, and its length.
    pub fn find_id_or_sym(&self) -> (r: Option<(Lexeme, usize)>)
        requires
            self.wf(),
        ensures
            match id_or_sym(self.rest()) {
                Some((t, n)) => r matches Some((l, k)) && l@ == t && k == n && n <= self.rest().len(),
                None => r is None,
            },
    {
        proof {
            assert(self.rest().skip(0) =~= self.rest());
        }
        let r = self.q_var();
        if r.is_some() {
            return r;
        }
        let r = self.q_con();
        if r.is_some() {
            return r;
        }
        match self.con_id_at(0) {
            Some(n) => {
                let name = self.text(0, n);
                proof {
                    assert(self.rest().take(n as int) =~= self.rest().subrange(0, n as int));
                }
                return Some((Lexeme::Identifier(name), n));
            },
            None => {},
        }
        let r = self.con_sym_at(0);
        if r.is_some() {
            return r;
        }
        let r = self.var_sym_at(0);
        if r.is_some() {
            return r;
        }
        self.var_id_at(0)
    }

    /// Reads an identifier or an operator; fails, for another rule to be
    /// tried, if none is next.
    pub fn id_or_sym(&mut self) -> (r: ScanResult<Lexeme>)
        requires
            old(self).wf(),
        ensures
            match id_or_sym(old(self).rest()) {
                Some((t, n)) => r matches Result3::Success(l) && l@ == t && old(self).went(
                    final(self),
                    read(old(self).rest(), old(self).place(), n),
                ),
                None => r is RetryLater && old(self).same(final(self)),
            },
    {
        match self.find_id_or_sym() {
            Some((l, n)) => {
                self.advance(n);
                Result3::Success(l)
            },
            None => Scanner::keep_trying(),
        }
    }
}

} // verus!
