use vstd::prelude::*;

use crate::lr::Error;
use crate::text::{dec, push_dec};

verus! {

// ---------------------------------------------------------------------------
// Regular expressions of terminals

/// A term of a regular expression: a negated or plain character group, a
/// parenthesized pattern, a character, or an alternative; `PatternImpl` and
/// `OrImpl` refer to patterns by their index in a list.
#[derive(Debug, Hash, PartialEq, Eq)]
pub enum Term {
    NGroup(Vec<char>),
    Group(Vec<char>),
    Pattern(Vec<Regexpr>),
    PatternImpl(usize),
    Char(char),
    Or(Vec<Regexpr>, Vec<Regexpr>),
    OrImpl(usize, usize),
}

/// A term that must match once, may match, may repeat, or must match at
/// least once.
#[derive(Debug, Hash, PartialEq, Eq)]
pub enum Regexpr {
    Match(Term),
    Maybe(Term),
    Any(Term),
    More(Term),
}

/// The lexemes of the regular expression language.
#[derive(Debug, Clone, Copy, PartialEq, Eq, Structural)]
pub enum Token {
    EOF,
    L1,
    L2,
    L3,
    L4,
    L5,
    L6,
    L7,
    L8,
    L9,
    L10,
    L11,
    L12,
    L13,
}

pub enum TermV {
    NGroup(Seq<char>),
    Group(Seq<char>),
    Pattern(Seq<RegexprV>),
    PatternImpl(usize),
    Char(char),
    Or(Seq<RegexprV>, Seq<RegexprV>),
    OrImpl(usize, usize),
}

pub enum RegexprV {
    Match(TermV),
    Maybe(TermV),
    Any(TermV),
    More(TermV),
}

pub open spec fn term_view(t: Term) -> TermV
    decreases t,
{
    match t {
        Term::NGroup(v) => TermV::NGroup(v@),
        Term::Group(v) => TermV::Group(v@),
        Term::Pattern(p) => TermV::Pattern(exprs_view(p@)),
        Term::PatternImpl(i) => TermV::PatternImpl(i),
        Term::Char(c) => TermV::Char(c),
        Term::Or(a, b) => TermV::Or(exprs_view(a@), exprs_view(b@)),
        Term::OrImpl(a, b) => TermV::OrImpl(a, b),
    }
}

pub open spec fn expr_view(r: Regexpr) -> RegexprV
    decreases r,
{
    match r {
        Regexpr::Match(t) => RegexprV::Match(term_view(t)),
        Regexpr::Maybe(t) => RegexprV::Maybe(term_view(t)),
        Regexpr::Any(t) => RegexprV::Any(term_view(t)),
        Regexpr::More(t) => RegexprV::More(term_view(t)),
    }
}

pub open spec fn exprs_view(s: Seq<Regexpr>) -> Seq<RegexprV>
    decreases s,
{
    if s.len() == 0 {
        Seq::empty()
    } else {
        exprs_view(s.drop_last()).push(expr_view(s.last()))
    }
}

pub open spec fn regexes_view(s: Seq<Vec<Regexpr>>) -> Seq<Seq<RegexprV>>
    decreases s.len(),
{
    if s.len() == 0 {
        Seq::empty()
    } else {
        regexes_view(s.drop_last()).push(exprs_view(s.last()@))
    }
}

pub proof fn lemma_exprs_view(s: Seq<Regexpr>)
    ensures
        exprs_view(s).len() == s.len(),
        forall|i: int| 0 <= i < s.len() ==> #[trigger] exprs_view(s)[i] == expr_view(s[i]),
    decreases s.len(),
{
    if s.len() > 0 {
        lemma_exprs_view(s.drop_last());
        assert forall|i: int| 0 <= i < s.len() implies #[trigger] exprs_view(s)[i] == expr_view(s[i]) by {
            if i < s.len() - 1 {
                assert(s.drop_last()[i] == s[i]);
            }
        }
    }
}

pub proof fn lemma_regexes_view(s: Seq<Vec<Regexpr>>)
    ensures
        regexes_view(s).len() == s.len(),
        forall|i: int| 0 <= i < s.len() ==> #[trigger] regexes_view(s)[i] == exprs_view(s[i]@),
    decreases s.len(),
{
    if s.len() > 0 {
        lemma_regexes_view(s.drop_last());
        assert forall|i: int| 0 <= i < s.len() implies #[trigger] regexes_view(s)[i] == exprs_view(s[i]@) by {
            if i < s.len() - 1 {
                assert(s.drop_last()[i] == s[i]);
            }
        }
    }
}

/// A copy of the characters `v`.
fn copy_chars(v: &Vec<char>) -> (r: Vec<char>)
    ensures
        r@ == v@,
{
    let mut r: Vec<char> = Vec::new();
    let mut i: usize = 0;
    while i < v.len()
        invariant
            i <= v@.len(),
            r@ == v@.take(i as int),
        decreases v@.len() - i,
    {
        r.push(v[i]);
        i = i + 1;
        proof {
            assert(r@ =~= v@.take(i as int));
        }
    }
    proof {
        assert(v@.take(v@.len() as int) =~= v@);
    }
    r
}

/// A copy of the term `t`.
pub fn copy_term(t: &Term) -> (r: Term)
    ensures
        term_view(r) == term_view(*t),
    decreases t,
{
    match t {
        Term::NGroup(v) => Term::NGroup(copy_chars(v)),
        Term::Group(v) => Term::Group(copy_chars(v)),
        Term::Pattern(p) => Term::Pattern(copy_exprs(p)),
        Term::PatternImpl(i) => Term::PatternImpl(*i),
        Term::Char(c) => Term::Char(*c),
        Term::Or(a, b) => Term::Or(copy_exprs(a), copy_exprs(b)),
        Term::OrImpl(a, b) => Term::OrImpl(*a, *b),
    }
}

/// A copy of the expression `e`.
pub fn copy_expr(e: &Regexpr) -> (r: Regexpr)
    ensures
        expr_view(r) == expr_view(*e),
    decreases e,
{
    match e {
        Regexpr::Match(t) => Regexpr::Match(copy_term(t)),
        Regexpr::Maybe(t) => Regexpr::Maybe(copy_term(t)),
        Regexpr::Any(t) => Regexpr::Any(copy_term(t)),
        Regexpr::More(t) => Regexpr::More(copy_term(t)),
    }
}

/// A copy of the expressions `v`.
pub fn copy_exprs(v: &Vec<Regexpr>) -> (r: Vec<Regexpr>)
    ensures
        exprs_view(r@) == exprs_view(v@),
    decreases v,
{
    let mut r: Vec<Regexpr> = Vec::new();
    let mut i: usize = 0;
    proof {
        assert(exprs_view(r@) =~= exprs_view(v@.take(0)));
    }
    while i < v.len()
        invariant
            i <= v@.len(),
            exprs_view(r@) == exprs_view(v@.take(i as int)),
        decreases v@.len() - i,
    {
        assert(decreases_to!(v => v@[i as int]));
        let e = copy_expr(&v[i]);
        let ghost r0 = r@;
        r.push(e);
        proof {
            assert(r@.drop_last() =~= r0);
            assert(v@.take(i + 1).drop_last() =~= v@.take(i as int));
        }
        i = i + 1;
    }
    proof {
        assert(v@.take(v@.len() as int) =~= v@);
    }
    r
}

// ---------------------------------------------------------------------------
// Patterns lifted out of expressions

/// The patterns that an expression holds: the pattern of a parenthesized
/// term, or both branches of an alternative.
pub open spec fn lifted(e: RegexprV) -> Seq<Seq<RegexprV>> {
    match e {
        RegexprV::Any(t) | RegexprV::Match(t) | RegexprV::Maybe(t) => match t {
            TermV::Pattern(p) => seq![p],
            TermV::Or(a, b) => seq![a, b],
            _ => Seq::empty(),
        },
        RegexprV::More(_) => Seq::empty(),
    }
}

/// The patterns lifted out of the expressions of `r`, in order.
pub open spec fn lifted_regex(r: Seq<RegexprV>) -> Seq<Seq<RegexprV>>
    decreases r.len(),
{
    if r.len() == 0 {
        Seq::empty()
    } else {
        lifted_regex(r.drop_last()) + lifted(r.last())
    }
}

/// The patterns lifted out of all regular expressions `rs`, in order.
pub open spec fn lifted_all(rs: Seq<Seq<RegexprV>>) -> Seq<Seq<RegexprV>>
    decreases rs.len(),
{
    if rs.len() == 0 {
        Seq::empty()
    } else {
        lifted_all(rs.drop_last()) + lifted_regex(rs.last())
    }
}

/// No expression repeats at least once (`+`).
pub open spec fn without_more(rs: Seq<Seq<RegexprV>>) -> bool {
    forall|i: int, j: int| 0 <= i < rs.len() && 0 <= j < rs[i].len() ==> !(#[trigger] rs[i][j] is More)
}

/// The regular expressions followed by the patterns lifted out of them: the
/// pattern of each parenthesized term, and both branches of each
/// alternative.
pub fn post_process(regexes: Vec<Vec<Regexpr>>) -> (r: Vec<Vec<Regexpr>>)
    requires
        without_more(regexes_view(regexes@)),
    ensures
        regexes_view(r@) == regexes_view(regexes@) + lifted_all(regexes_view(regexes@)),
{
    let ghost rv = regexes_view(regexes@);
    proof {
        lemma_regexes_view(regexes@);
    }
    let n = regexes.len();
    let mut res: Vec<Vec<Regexpr>> = Vec::new();
    let mut i: usize = 0;
    proof {
        assert(regexes_view(res@) =~= rv.take(0));
    }
    while i < n
        invariant
            n == regexes@.len(),
            rv == regexes_view(regexes@),
            rv.len() == n,
            forall|x: int| 0 <= x < n ==> #[trigger] rv[x] == exprs_view(regexes@[x]@),
            i <= n,
            regexes_view(res@) == rv.take(i as int),
        decreases n - i,
    {
        let c = copy_exprs(&regexes[i]);
        let ghost r0 = res@;
        res.push(c);
        proof {
            assert(res@.drop_last() =~= r0);
            assert(rv.take(i + 1) =~= rv.take(i as int).push(rv[i as int]));
        }
        i = i + 1;
    }
    proof {
        assert(rv.take(n as int) =~= rv);
        assert(rv + lifted_all(rv.take(0)) =~= rv);
    }
    let mut i: usize = 0;
    while i < n
        invariant
            n == regexes@.len(),
            rv == regexes_view(regexes@),
            rv.len() == n,
            forall|x: int| 0 <= x < n ==> #[trigger] rv[x] == exprs_view(regexes@[x]@),
            without_more(rv),
            i <= n,
            regexes_view(res@) == rv + lifted_all(rv.take(i as int)),
        decreases n - i,
    {
        let regex = &regexes[i];
        let m = regex.len();
        proof {
            lemma_exprs_view(regex@);
        }
        let ghost ev = exprs_view(regex@);
        let mut j: usize = 0;
        proof {
            assert(lifted_regex(ev.take(0)) =~= Seq::<Seq<RegexprV>>::empty());
            assert(rv + lifted_all(rv.take(i as int)) + lifted_regex(ev.take(0)) =~= rv + lifted_all(rv.take(i as int)));
        }
        while j < m
            invariant
                n == regexes@.len(),
                i < n,
                rv == regexes_view(regexes@),
                rv.len() == n,
                regex@ == regexes@[i as int]@,
                m == regex@.len(),
                ev == exprs_view(regex@),
                ev == rv[i as int],
                ev.len() == m,
                forall|x: int| 0 <= x < m ==> #[trigger] ev[x] == expr_view(regex@[x]),
                without_more(rv),
                j <= m,
                regexes_view(res@) == rv + lifted_all(rv.take(i as int)) + lifted_regex(ev.take(j as int)),
            decreases m - j,
        {
            let ghost before = res@;
            assert(!(rv[i as int][j as int] is More));
            match &regex[j] {
                Regexpr::Any(t) | Regexpr::Match(t) | Regexpr::Maybe(t) => {
                    match t {
                        Term::Pattern(p) => {
                            let c = copy_exprs(p);
                            res.push(c);
                            proof {
                                assert(res@.drop_last() =~= before);
                                assert(regexes_view(res@) == regexes_view(before).push(exprs_view(p@)));
                                assert(lifted(ev[j as int]) == seq![exprs_view(p@)]);
                                assert(regexes_view(res@) =~= regexes_view(before) + lifted(ev[j as int]));
                            }
                        },
                        Term::Or(p1, p2) => {
                            let c1 = copy_exprs(p1);
                            res.push(c1);
                            let ghost mid = res@;
                            let c2 = copy_exprs(p2);
                            res.push(c2);
                            proof {
                                assert(mid.drop_last() =~= before);
                                assert(res@.drop_last() =~= mid);
                                assert(regexes_view(mid) == regexes_view(before).push(exprs_view(p1@)));
                                assert(regexes_view(res@) == regexes_view(mid).push(exprs_view(p2@)));
                                assert(lifted(ev[j as int]) == seq![exprs_view(p1@), exprs_view(p2@)]);
                                assert(regexes_view(res@) =~= regexes_view(before) + lifted(ev[j as int]));
                            }
                        },
                        _ => {
                            assert(lifted(ev[j as int]) =~= Seq::<Seq<RegexprV>>::empty());
                            assert(regexes_view(res@) =~= regexes_view(before) + lifted(ev[j as int]));
                        },
                    }
                },
                Regexpr::More(_) => {},
            }
            proof {
                assert(ev.take(j + 1).drop_last() =~= ev.take(j as int));
                let lhs = rv + lifted_all(rv.take(i as int));
                assert(lhs + lifted_regex(ev.take(j + 1)) =~= lhs + lifted_regex(ev.take(j as int)) + lifted(ev[j as int]));
            }
            j = j + 1;
        }
        proof {
            assert(ev.take(m as int) =~= ev);
            assert(rv.take(i + 1).drop_last() =~= rv.take(i as int));
            assert(rv.take(i + 1).last() == ev);
            assert(rv + lifted_all(rv.take(i + 1)) =~= rv + lifted_all(rv.take(i as int)) + lifted_regex(ev));
        }
        i = i + 1;
    }
    proof {
        assert(rv.take(n as int) =~= rv);
    }
    res
}

impl Regexpr {
    /// Whether the expression must match: it cannot be skipped.
    pub fn opaque(&self) -> (r: bool)
        ensures
            r == (self is Match || self is More),
    {
        match self {
            Regexpr::Match(_) => true,
            Regexpr::More(_) => true,
            Regexpr::Any(_) => false,
            Regexpr::Maybe(_) => false,
        }
    }
}

// ---------------------------------------------------------------------------
// Positions within nested regular expressions

/// An expression of a regular expression: the index of the regular
/// expression and that of the expression in it.
#[derive(Debug, Clone, Copy, PartialEq, Eq, Structural)]
pub struct Position {
    pub regex: usize,
    pub index: usize,
}

/// A stack of positions, the innermost last.
#[derive(Debug)]
pub struct RegexPos {
    pub stack: Vec<Position>,
}

/// The message of the error raised for a position in a regular expression
/// that does not exist.
pub open spec fn out_of_range_message(regex: usize) -> Seq<char> {
    "Regex "@ + dec(regex as nat) + " is out of range"@
}

/// Where the position `p` stands in `lens`, the numbers of expressions of
/// the regular expressions: `None` past the end of its regular expression,
/// `Err` where its regular expression does not exist.
pub open spec fn pos_state(p: Position, lens: Seq<int>) -> Result<bool, ()> {
    if p.regex < lens.len() {
        Ok(p.index < lens[p.regex as int])
    } else {
        Err(())
    }
}

pub open spec fn expr_lens(from: Seq<Vec<Regexpr>>) -> Seq<int> {
    from.map_values(|v: Vec<Regexpr>| v@.len() as int)
}

/// The stack after moving to the next expression: the innermost position
/// moves on, and positions past the end of their regular expression are
/// dropped, each moving its outer position on.
pub open spec fn advanced(stack: Seq<Position>, lens: Seq<int>) -> Seq<Position>
    decreases stack.len(),
{
    if stack.len() == 0 {
        stack
    } else {
        let p = stack.last();
        let s1 = stack.drop_last().push(Position { index: (p.index + 1) as usize, ..p });
        if pos_state(s1.last(), lens) == Ok::<bool, ()>(false) {
            advanced(s1.drop_last(), lens)
        } else {
            s1
        }
    }
}

/// No position is at the last index a machine integer holds.
pub open spec fn indices_fit(stack: Seq<Position>) -> bool {
    forall|i: int| 0 <= i < stack.len() ==> (#[trigger] stack[i]).index < usize::MAX
}

impl RegexPos {
    /// The expression at the innermost position, if any: `None` where the
    /// stack is empty or the position is past the end of its regular
    /// expression, an error where its regular expression does not exist.
    pub fn get<'a>(&self, from: &'a Vec<Vec<Regexpr>>) -> (r: Result<Option<&'a Regexpr>, Error>)
        ensures
            self.stack@.len() == 0 ==> r matches Ok(None),
            self.stack@.len() > 0 ==> ({
                let p = self.stack@.last();
                match pos_state(p, expr_lens(from@)) {
                    Ok(true) => r matches Ok(Some(e)) && *e == from@[p.regex as int]@[p.index as int],
                    Ok(false) => r matches Ok(None),
                    Err(_) => r matches Err(Error::Error(m)) && m@ == out_of_range_message(p.regex),
                }
            }),
    {
        let n = self.stack.len();
        if n == 0 {
            return Ok(None);
        }
        let pos = self.stack[n - 1];
        if pos.regex < from.len() {
            let regex = &from[pos.regex];
            if pos.index < regex.len() {
                Ok(Some(&regex[pos.index]))
            } else {
                Ok(None)
            }
        } else {
            let mut m = String::from_str("Regex ");
            push_dec(&mut m, pos.regex);
            m.append(" is out of range");
            proof {
                reveal_strlit("Regex ");
                reveal_strlit(" is out of range");
            }
            Err(Error::Error(m))
        }
    }

    /// Moves on to the next expression, leaving the regular expressions
    /// that end.
    pub fn next(&mut self, from: &Vec<Vec<Regexpr>>)
        requires
            indices_fit(old(self).stack@),
        ensures
            final(self).stack@ == advanced(old(self).stack@, expr_lens(from@)),
        decreases old(self).stack@.len(),
    {
        let n = self.stack.len();
        if n == 0 {
            return;
        }
        let p = self.stack[n - 1];
        self.stack.set(n - 1, Position { regex: p.regex, index: p.index + 1 });
        proof {
            assert(self.stack@ =~= old(self).stack@.drop_last().push(Position { index: (p.index + 1) as usize, ..p }));
        }
        match self.get(from) {
            Ok(Some(_)) | Err(_) => {},
            Ok(None) => {
                self.stack.pop();
                proof {
                    assert(indices_fit(self.stack@)) by {
                        assert forall|i: int| 0 <= i < self.stack@.len() implies (#[trigger] self.stack@[i]).index < usize::MAX by {
                            assert(self.stack@[i] == old(self).stack@[i]);
                        }
                    }
                }
                self.next(from);
            },
        }
    }
}

// ---------------------------------------------------------------------------
// The automaton of the terminals' regular expressions

/// A state: the terminal it accepts, and the state after each term.
#[derive(Debug)]
pub struct State {
    result: usize,
    next: Vec<(Term, usize)>,
}

/// The deterministic automaton of a list of regular expressions, its states
/// found so far by their sets of positions, and the terminals that each
/// accepting state may stand for.
#[derive(Debug)]
pub struct DFA {
    regex_list: Vec<Vec<Regexpr>>,
    states: Vec<State>,
    state_map: Vec<(Vec<RegexPos>, usize)>,
    map: Vec<Vec<String>>,
}

impl DFA {
    pub closed spec fn regexes(&self) -> Seq<Vec<Regexpr>> {
        self.regex_list@
    }

    /// Whether no state is built yet.
    pub closed spec fn unbuilt(&self) -> bool {
        self.states@.len() == 0 && self.state_map@.len() == 0 && self.map@.len() == 0
    }

    /// The automaton of `regexes`, before any state is built.
    pub fn new(regexes: Vec<Vec<Regexpr>>) -> (r: Result<DFA, Error>)
        ensures
            r matches Ok(d) && d.regexes() == regexes@ && d.unbuilt(),
    {
        let dfa = DFA { states: Vec::new(), map: Vec::new(), regex_list: regexes, state_map: Vec::new() };
        Ok(dfa)
    }
}

/// A state of a nondeterministic automaton: the terminal it accepts, if any,
/// and the states it goes on to.
#[derive(Debug)]
pub struct NDAState {
    fin: Option<usize>,
    next: Vec<NDAState>,
}

} // verus!
