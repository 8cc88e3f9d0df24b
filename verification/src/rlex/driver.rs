//! From the definition of a lexer to its automata: the rules are lowered
//! and classified over one table of split points, grouped by their start
//! conditions, and every group is compiled into one tagged automaton.

use vstd::prelude::*;
use crate::rlex::ast::char_class::UnicodeCharClass;
use crate::rlex::ast::RegEx;
use crate::rlex::automata::thompson::{atoms_below, lemma_matched_below};
use crate::rlex::codegen::{
    compile,
    compile_ok,
    conflict_among,
    conflict_text,
    names_text,
    rule_matches,
    too_many,
    Conflict,
    GenError,
    TaggedDFA,
    TaggedRegEx,
};
use crate::rlex::lower::{error_keys, lowered_expr};
use crate::rlex::root::{
    groups_at,
    known_places,
    lexeme_of,
    lower_rules,
    root_at,
    unknown_blocks,
    RootDef,
    SCIdent,
    SingleLexeme,
};
use crate::rlex::syntax::LexemeDef;
use crate::rlex::unicode::{UnicodeTables, UnknownProperty};

verus! {

/// What is told of a rule beside its automaton: its name, and the start
/// condition to which a match switches, if any.
#[derive(Debug, Clone, PartialEq, Eq)]
pub struct RuleInfo {
    pub name: String,
    pub target: Option<String>,
}

/// A lexer: the table of split points that all its automata share, and
/// for each start condition, in the order in which they first occur, its
/// rules and the automaton of these rules. The tag of a state of an
/// automaton is the place of the rule among the rules of the condition.
pub struct Lexer {
    pub name: String,
    pub split_points: Vec<u32>,
    pub conditions: Vec<SCIdent>,
    pub rules: Vec<Vec<RuleInfo>>,
    pub automata: Vec<TaggedDFA>,
}

/// A conflict among the rules of a start condition.
pub struct RuleConflict {
    /// The place of the start condition among the start conditions.
    pub condition: usize,
    /// The rules, by their places among the rules of the condition, and
    /// the witness.
    pub conflict: Conflict,
}

/// The conflicts of a definition, with what it takes to tell of them: the
/// start conditions, the rules of each, and the table of split points.
pub struct Conflicts {
    pub conflicts: Vec<RuleConflict>,
    pub conditions: Vec<SCIdent>,
    pub rules: Vec<Vec<RuleInfo>>,
    pub split_points: Vec<u32>,
}

/// Why a definition has no lexer.
pub enum CompileError {
    /// Class names that are no properties of Unicode: all of them, and
    /// with them the conflicts among the rules that name no such class.
    UnknownProperties { unknown: Vec<UnknownProperty>, conflicts: Conflicts },
    /// Rules of a start condition that accept the same input: all
    /// conflicts of all start conditions.
    Conflicts(Conflicts),
    /// The automaton of the start condition at this place would have more
    /// states than a `u32` counts.
    TooManyStates(usize),
}

/// The names of the rules.
pub open spec fn names_of(infos: Seq<RuleInfo>) -> Seq<String> {
    Seq::new(infos.len(), |i: int| infos[i].name)
}

impl Conflicts {
    /// Whether the conflict speaks of a start condition, of rules and of
    /// blocks that are there.
    pub open spec fn speaks_of(&self, c: RuleConflict) -> bool {
        &&& c.condition < self.rules@.len()
        &&& forall|i: int| 0 <= i < c.conflict.rules@.len() ==> c.conflict.rules@[i] < self.rules@[c.condition as int]@.len()
        &&& forall|i: int| 0 <= i < c.conflict.witness@.len() ==> c.conflict.witness@[i] < self.split_points@.len()
    }

    /// The message for a conflict: the names of the rules, and the
    /// witness, each block shown by its least character. None if the
    /// conflict speaks of what is not there.
    pub fn describe(&self, c: &RuleConflict) -> (r: Option<String>)
        ensures
            match r {
                Some(text) => self.speaks_of(*c) && text@ == conflict_text(
                    names_of(self.rules@[c.condition as int]@),
                    self.split_points@,
                    c.conflict,
                ),
                None => !self.speaks_of(*c),
            },
    {
        if c.condition >= self.rules.len() {
            return None;
        }
        let infos = &self.rules[c.condition];
        let mut i: usize = 0;
        while i < c.conflict.rules.len()
            invariant
                c.condition < self.rules@.len(),
                infos@ == self.rules@[c.condition as int]@,
                i <= c.conflict.rules@.len(),
                forall|k: int| 0 <= k < i ==> c.conflict.rules@[k] < infos@.len(),
            decreases c.conflict.rules@.len() - i,
        {
            if c.conflict.rules[i] as usize >= infos.len() {
                proof {
                    assert(!(c.conflict.rules@[i as int] < self.rules@[c.condition as int]@.len()));
                }
                return None;
            }
            i += 1;
        }
        let mut i: usize = 0;
        while i < c.conflict.witness.len()
            invariant
                c.condition < self.rules@.len(),
                infos@ == self.rules@[c.condition as int]@,
                forall|k: int| 0 <= k < c.conflict.rules@.len() ==> c.conflict.rules@[k] < infos@.len(),
                i <= c.conflict.witness@.len(),
                forall|k: int| 0 <= k < i ==> c.conflict.witness@[k] < self.split_points@.len(),
            decreases c.conflict.witness@.len() - i,
        {
            if c.conflict.witness[i] as usize >= self.split_points.len() {
                proof {
                    assert(!(c.conflict.witness@[i as int] < self.split_points@.len()));
                }
                return None;
            }
            i += 1;
        }
        let mut names: Vec<String> = Vec::new();
        let mut i: usize = 0;
        while i < infos.len()
            invariant
                i <= infos@.len(),
                names@.len() == i,
                forall|k: int| 0 <= k < i ==> (#[trigger] names@[k])@ == infos@[k].name@,
            decreases infos@.len() - i,
        {
            names.push(infos[i].name.clone());
            i += 1;
        }
        let text = c.conflict.message(&names, self.split_points.as_slice());
        proof {
            let rules = c.conflict.rules@;
            lemma_names_text(names@, names_of(infos@), rules, rules.len());
        }
        Some(text)
    }
}

/// The rules of a group as they are compiled: the expression of each, with
/// its place as its tag.
pub open spec fn group_rules(group: Seq<SingleLexeme>) -> Seq<TaggedRegEx<Vec<u32>, usize>> {
    Seq::new(group.len(), |i: int| TaggedRegEx { regex: group[i].lexeme_regex, tag: i as usize })
}

/// What is told of the rules of a group.
pub open spec fn group_infos(group: Seq<SingleLexeme>) -> Seq<RuleInfo> {
    Seq::new(group.len(), |i: int| RuleInfo { name: group[i].lexeme_type, target: group[i].target_start_condition })
}

/// The conflicts of the first `n` groups, in order, each with the place
/// of its group.
pub open spec fn gathered(results: Seq<Result<TaggedDFA, GenError>>, n: nat) -> Seq<RuleConflict>
    decreases n,
{
    if n == 0 || n > results.len() {
        Seq::empty()
    } else {
        gathered(results, (n - 1) as nat) + match results[n - 1] {
            Err(GenError::Conflicts(cs)) => Seq::new(
                cs@.len(),
                |i: int| RuleConflict { condition: (n - 1) as usize, conflict: cs@[i] },
            ),
            _ => Seq::empty(),
        }
    }
}

/// The conflicts are those of the groups, with the tables of `root`.
pub open spec fn conflicts_of(root: RootDef, results: Seq<Result<TaggedDFA, GenError>>, c: Conflicts) -> bool {
    &&& c.conflicts@ == gathered(results, results.len())
    &&& c.split_points == root.split_points
    &&& c.conditions == root.conditions
    &&& c.rules@.len() == results.len()
    &&& forall|g: int| 0 <= g < results.len() ==> (#[trigger] c.rules@[g])@ == group_infos(root.lexemes@[g]@)
}

/// What is handed out for the groups of `root`, of which `results` are
/// what the compiling of each gave, where `unknown` are the unknown class
/// names of the definition: if there are unknown names, these and all
/// conflicts of all groups; otherwise the lexer with all automata if
/// there are automata for all groups; the first group whose automaton is
/// too large, if there is one; otherwise all conflicts of all groups.
pub open spec fn delivered(
    root: RootDef,
    results: Seq<Result<TaggedDFA, GenError>>,
    unknown: Seq<(Seq<char>, usize)>,
    r: Result<Lexer, CompileError>,
) -> bool {
    match r {
        Ok(l) => {
            &&& unknown.len() == 0
            &&& l.name == root.name
            &&& l.split_points == root.split_points
            &&& l.conditions == root.conditions
            &&& l.rules@.len() == results.len()
            &&& l.automata@.len() == results.len()
            &&& forall|g: int|
                0 <= g < results.len() ==> #[trigger] results[g] == Ok::<TaggedDFA, GenError>(l.automata@[g])
                    && l.rules@[g]@ == group_infos(root.lexemes@[g]@)
        },
        Err(CompileError::TooManyStates(g)) => {
            &&& unknown.len() == 0
            &&& g < results.len()
            &&& too_many(results[g as int])
            &&& forall|h: int| 0 <= h < g ==> !too_many(#[trigger] results[h])
        },
        Err(CompileError::Conflicts(c)) => {
            &&& unknown.len() == 0
            &&& c.conflicts@.len() > 0
            &&& conflicts_of(root, results, c)
            &&& forall|h: int| 0 <= h < results.len() ==> !too_many(#[trigger] results[h])
        },
        Err(CompileError::UnknownProperties { unknown: es, conflicts }) => {
            &&& es@.len() > 0
            &&& error_keys(es@) == unknown
            &&& conflicts_of(root, results, conflicts)
        },
    }
}

/// Takes the rules of a group apart: the expressions to be compiled, and
/// what is told of the rules.
fn split_group(group: Vec<SingleLexeme>) -> (r: (Vec<TaggedRegEx<Vec<u32>, usize>>, Vec<RuleInfo>))
    ensures
        r.0@ == group_rules(group@),
        r.1@ == group_infos(group@),
{
    let ghost all = group@;
    let mut rules: Vec<TaggedRegEx<Vec<u32>, usize>> = Vec::new();
    let mut infos: Vec<RuleInfo> = Vec::new();
    let mut count: Ghost<nat> = Ghost(0);
    for lexeme in it: group
        invariant
            it.index() == count@,
            count@ <= all.len(),
            it.seq() == all,
            rules@.len() == count@,
            infos@.len() == count@,
            forall|i: int| 0 <= i < count@ ==> #[trigger] rules@[i] == group_rules(all)[i],
            forall|i: int| 0 <= i < count@ ==> #[trigger] infos@[i] == group_infos(all)[i],
    {
        let SingleLexeme { lexeme_type, target_start_condition, lexeme_regex } = lexeme;
        let tag = rules.len();
        rules.push(TaggedRegEx { regex: lexeme_regex, tag });
        infos.push(RuleInfo { name: lexeme_type, target: target_start_condition });
        proof {
            count@ = count@ + 1;
        }
    }
    proof {
        assert(rules@ =~= group_rules(all));
        assert(infos@ =~= group_infos(all));
    }
    (rules, infos)
}

/// The lexer of a definition.
///
/// Every rule that names no unknown class is lowered, classified and put
/// into the groups of its start conditions, and every group is compiled.
/// Where the definition names unknown classes, all of them are handed
/// out, together with the conflicts among the other rules. Otherwise,
/// where the automaton of a group would be too large, the first such
/// group is named; otherwise, where rules are in conflict, all conflicts
/// of all groups are handed out together.
pub fn compile_lexer(d: &LexemeDef, tables: &UnicodeTables) -> (r: Result<Lexer, CompileError>)
    requires
        tables.wf(),
    ensures
        exists|root: RootDef, results: Seq<Result<TaggedDFA, GenError>>|
            #![trigger delivered(root, results, unknown_blocks(d.body@, d.body@.len(), *tables), r)]
            root_at(*d, *tables, root, known_places(d.body@, *tables, d.body@.len())) && results.len()
                == root.lexemes@.len() && (forall|g: int|
                0 <= g < results.len() ==> compile_ok(group_rules(root.lexemes@[g]@), #[trigger] results[g]))
                && delivered(root, results, unknown_blocks(d.body@, d.body@.len(), *tables), r),
{
    let (lowered, unknown) = lower_rules(d, tables);
    let root = RootDef::from_lowered(d, tables, lowered);
    let ghost whole = root;
    let RootDef { name, conditions, lexemes, split_points } = root;
    let ghost groups = lexemes@;
    let mut rules: Vec<Vec<RuleInfo>> = Vec::new();
    let mut automata: Vec<TaggedDFA> = Vec::new();
    let mut conflicts: Vec<RuleConflict> = Vec::new();
    let mut first_large: Option<usize> = None;
    let ghost mut results: Seq<Result<TaggedDFA, GenError>> = Seq::empty();
    let mut count: Ghost<nat> = Ghost(0);
    proof {
        assert(conflicts@ =~= gathered(results, 0));
    }
    for group in it: lexemes
        invariant
            it.index() == count@,
            count@ <= groups.len(),
            it.seq() == groups,
            groups == whole.lexemes@,
            results.len() == count@,
            rules@.len() == count@,
            forall|g: int| 0 <= g < count@ ==> compile_ok(group_rules(groups[g]@), #[trigger] results[g]),
            forall|g: int| 0 <= g < count@ ==> (#[trigger] rules@[g])@ == group_infos(groups[g]@),
            conflicts@ == gathered(results, count@),
            match first_large {
                Some(g) => g < count@ && too_many(results[g as int]) && forall|h: int|
                    0 <= h < g ==> !too_many(#[trigger] results[h]),
                None => forall|h: int| 0 <= h < count@ ==> !too_many(#[trigger] results[h]),
            },
            first_large is None && conflicts@.len() == 0 ==> automata@.len() == count@ && forall|g: int|
                0 <= g < count@ ==> #[trigger] results[g] == Ok::<TaggedDFA, GenError>(automata@[g]),
    {
        let ghost g = count@;
        let ghost before = results;
        let ghost conflicts_before = conflicts@;
        let ghost automata_before = automata@;
        let ghost rules_before = rules@;
        let at = rules.len();
        let (rs, infos) = split_group(group);
        rules.push(infos);
        let out = compile(&rs);
        proof {
            results = results.push(out);
            count@ = count@ + 1;
            assert(before =~= results.drop_last());
            assert forall|h: int| 0 <= h < count@ implies compile_ok(group_rules(groups[h]@), #[trigger] results[h]) by {
                if h < g {
                    assert(results[h] == before[h]);
                }
            }
            assert forall|h: int| 0 <= h < count@ implies (#[trigger] rules@[h])@ == group_infos(groups[h]@) by {
                if h < g {
                    assert(rules@[h] == rules_before[h]);
                }
            }
            lemma_gathered_prefix(before, results, g);
        }
        match out {
            Ok(dfa) => {
                automata.push(dfa);
                proof {
                    assert(conflicts@ =~= gathered(results, count@));
                    if first_large is None && conflicts@.len() == 0 {
                        assert forall|h: int| 0 <= h < count@ implies #[trigger] results[h] == Ok::<
                            TaggedDFA,
                            GenError,
                        >(automata@[h]) by {
                            if h < g {
                                assert(results[h] == before[h]);
                                assert(automata@[h] == automata_before[h]);
                            }
                        }
                    }
                }
            },
            Err(GenError::TooManyStates) => {
                proof {
                    assert(conflicts@ =~= gathered(results, count@));
                }
                if first_large.is_none() {
                    first_large = Some(at);
                }
            },
            Err(GenError::Conflicts(cs)) => {
                let ghost found = cs@;
                let mut k: Ghost<nat> = Ghost(0);
                for c in inner: cs
                    invariant
                        inner.index() == k@,
                        k@ <= found.len(),
                        inner.seq() == found,
                        at == g,
                        conflicts@ == conflicts_before + Seq::new(
                            k@,
                            |i: int| RuleConflict { condition: g as usize, conflict: found[i] },
                        ),
                {
                    conflicts.push(RuleConflict { condition: at, conflict: c });
                    proof {
                        k@ = k@ + 1;
                        assert(conflicts@ =~= conflicts_before + Seq::new(
                            k@,
                            |i: int| RuleConflict { condition: g as usize, conflict: found[i] },
                        ));
                    }
                }
                proof {
                    assert(conflicts@ =~= gathered(results, count@));
                    assert(found.len() > 0);
                    assert(conflicts@.len() > 0);
                }
            },
        }
    }
    proof {
        assert(error_keys(unknown@).len() == unknown@.len());
    }
    let r = if unknown.len() > 0 {
        Err(
            CompileError::UnknownProperties {
                unknown,
                conflicts: Conflicts { conflicts, conditions, rules, split_points },
            },
        )
    } else {
        match first_large {
            Some(g) => Err(CompileError::TooManyStates(g)),
            None => {
                if conflicts.len() > 0 {
                    Err(CompileError::Conflicts(Conflicts { conflicts, conditions, rules, split_points }))
                } else {
                    Ok(Lexer { name, split_points, conditions, rules, automata })
                }
            },
        }
    };
    proof {
        assert(delivered(whole, results, unknown_blocks(d.body@, d.body@.len(), *tables), r));
    }
    r
}

/// The classified form of an expression names blocks of the table only.
pub proof fn lemma_classified_below(x: RegEx<UnicodeCharClass>, t: Seq<u32>, out: RegEx<Vec<u32>>)
    requires
        x.classified(t, out),
    ensures
        atoms_below(out, t.len() - 1),
    decreases x,
{
    match x {
        RegEx::Atom(c) => {
            let v = out->Atom_0;
            assert forall|k: int| 0 <= k < v@.len() implies (#[trigger] v@[k]) < t.len() - 1 by {
                assert(v@.contains(v@[k]));
            }
        },
        RegEx::Alt(rs) => {
            let ss = out->Alt_0;
            assert forall|i: int| 0 <= i < ss@.len() implies atoms_below(#[trigger] ss@[i], t.len() - 1) by {
                assert(rs@[i].classified(t, ss@[i]));
                lemma_classified_below(rs@[i], t, ss@[i]);
            }
        },
        RegEx::Concat(rs) => {
            let ss = out->Concat_0;
            assert forall|i: int| 0 <= i < ss@.len() implies atoms_below(#[trigger] ss@[i], t.len() - 1) by {
                assert(rs@[i].classified(t, ss@[i]));
                lemma_classified_below(rs@[i], t, ss@[i]);
            }
        },
        RegEx::OneOrMore(r) => {
            lemma_classified_below(*r, t, *out->OneOrMore_0);
        },
        RegEx::Optional(r) => {
            lemma_classified_below(*r, t, *out->Optional_0);
        },
    }
}

/// Every conflict that was gathered is a conflict of one of the groups,
/// and has the place of that group.
pub proof fn lemma_gathered_member(results: Seq<Result<TaggedDFA, GenError>>, n: nat, k: int) -> (at: (int, int))
    requires
        n <= results.len(),
        0 <= k < gathered(results, n).len(),
    ensures
        0 <= at.0 < n,
        results[at.0] matches Err(GenError::Conflicts(cs)) && 0 <= at.1 < cs@.len() && gathered(results, n)[k] == (
        RuleConflict { condition: at.0 as usize, conflict: cs@[at.1] }),
    decreases n,
{
    let before = gathered(results, (n - 1) as nat);
    if k < before.len() {
        lemma_gathered_member(results, (n - 1) as nat, k)
    } else {
        (n - 1, k - before.len())
    }
}

/// Every conflict that is handed out can be told of: it speaks of a start
/// condition of the definition, of rules of that condition, and of blocks
/// of the table of split points.
pub proof fn lemma_conflicts_described(
    d: LexemeDef,
    t: UnicodeTables,
    root: RootDef,
    places: Seq<(int, int)>,
    results: Seq<Result<TaggedDFA, GenError>>,
    c: Conflicts,
    k: int,
)
    requires
        root_at(d, t, root, places),
        results.len() == root.lexemes@.len(),
        forall|g: int| 0 <= g < results.len() ==> compile_ok(group_rules(root.lexemes@[g]@), #[trigger] results[g]),
        conflicts_of(root, results, c),
        0 <= k < c.conflicts@.len(),
    ensures
        c.speaks_of(c.conflicts@[k]),
{
    let (g, i) = lemma_gathered_member(results, results.len(), k);
    let group = root.lexemes@[g]@;
    let rs = group_rules(group);
    let table = root.split_points@;
    assert(compile_ok(rs, results[g]));
    let cs = results[g]->Err_0->Conflicts_0;
    let conflict = cs@[i];
    assert(c.conflicts@[k].conflict == conflict);
    assert(conflict_among(rs, conflict));
    assert(c.rules@[g]@ == group_infos(group));
    assert forall|j: int| 0 <= j < conflict.rules@.len() implies conflict.rules@[j] < c.rules@[g]@.len() by {
        assert(conflict.rules@.contains(conflict.rules@[j]));
        assert(rule_matches(rs, conflict.rules@[j], conflict.witness@));
    }
    let first = conflict.rules@[0];
    assert(conflict.rules@.contains(first));
    assert(rule_matches(rs, first, conflict.witness@));
    let place = groups_at(d, places).groups[g][first as int];
    assert(lexeme_of(d, t, table, group[first as int], place));
    let x = choose|x: RegEx<UnicodeCharClass>| #[trigger]
        lowered_expr(d.body@[place.block].body.rules()[place.rule].body, t, x) && x.classified(
            table,
            group[first as int].lexeme_regex,
        );
    lemma_classified_below(x, table, group[first as int].lexeme_regex);
    lemma_matched_below(rs[first as int].regex, conflict.witness@, table.len() - 1);
    assert forall|j: int| 0 <= j < conflict.witness@.len() implies conflict.witness@[j] < c.split_points@.len() by {
        assert(conflict.witness@[j] < table.len() - 1);
    }
    let told = c.conflicts@[k];
    assert(root.lexemes@.len() == root.lexemes.len());
    assert(told.condition == g);
    assert(told.conflict == conflict);
    assert(c.rules@[told.condition as int]@.len() == c.rules@[g]@.len());
}

/// Names that read the same give the same text.
proof fn lemma_names_text(a: Seq<String>, b: Seq<String>, rules: Seq<u32>, n: nat)
    requires
        a.len() == b.len(),
        forall|k: int| 0 <= k < a.len() ==> (#[trigger] a[k])@ == b[k]@,
        forall|i: int| 0 <= i < rules.len() ==> rules[i] < a.len(),
        n <= rules.len(),
    ensures
        names_text(a, rules, n) == names_text(b, rules, n),
    decreases n,
{
    if n > 1 {
        lemma_names_text(a, b, rules, (n - 1) as nat);
    }
}

/// The conflicts of the groups before a place stay what they are when a
/// group is added behind them.
proof fn lemma_gathered_prefix(
    before: Seq<Result<TaggedDFA, GenError>>,
    after: Seq<Result<TaggedDFA, GenError>>,
    n: nat,
)
    requires
        n <= before.len(),
        before.len() <= after.len(),
        forall|i: int| 0 <= i < n ==> before[i] == after[i],
    ensures
        gathered(before, n) == gathered(after, n),
    decreases n,
{
    if n > 0 {
        lemma_gathered_prefix(before, after, (n - 1) as nat);
    }
}

} // verus!
