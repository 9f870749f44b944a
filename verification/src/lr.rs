use vstd::prelude::*;

use crate::closure::{
    HeadV, ItemTable, StateHead, build_table, head_fault, is_closure, normalize_head, oversized,
};
use crate::collection::{
    all_clean, build_state, explored, fails_at_end, heads_view, is_start_kernel, lemma_state_ok_extends,
    start_closure, start_head, state_ok, too_many_states,
};
use crate::parser::{Component, Component0, Component0V, ComponentV, Reductend, ReductendV, Rule, RuleV, components_view, opt_view, rules_view};
use crate::text::{dec, push_dec};

verus! {

/// A lexeme class that the generated parser distinguishes.
#[derive(Debug)]
pub enum Token {
    Terminal(String),
    Regex(String),
    EOF,
}

pub enum TokenV {
    Terminal(Seq<char>),
    Regex(Seq<char>),
    EOF,
}

impl View for Token {
    type V = TokenV;

    open spec fn view(&self) -> TokenV {
        match self {
            Token::Terminal(s) => TokenV::Terminal(s@),
            Token::Regex(s) => TokenV::Regex(s@),
            Token::EOF => TokenV::EOF,
        }
    }
}

impl Token {
    pub fn copy(&self) -> (r: Token)
        ensures
            r == *self,
    {
        match self {
            Token::Terminal(s) => Token::Terminal(s.clone()),
            Token::Regex(s) => Token::Regex(s.clone()),
            Token::EOF => Token::EOF,
        }
    }

    /// Whether two tokens denote the same lexeme class.
    pub fn same(&self, other: &Token) -> (r: bool)
        ensures
            r == (self@ == other@),
    {
        match (self, other) {
            (Token::Terminal(a), Token::Terminal(b)) => a.eq(b),
            (Token::Regex(a), Token::Regex(b)) => a.eq(b),
            (Token::EOF, Token::EOF) => true,
            _ => false,
        }
    }
}

#[derive(Debug, Clone, Copy, PartialEq, Eq, Structural)]
pub struct ReductendPosition {
    pub rule: usize,
    pub reductend: usize,
}

impl From<Position> for ReductendPosition {
    fn from(value: Position) -> (r: Self) {
        ReductendPosition { rule: value.rule, reductend: value.reductend }
    }
}

impl vstd::std_specs::convert::FromSpecImpl<Position> for ReductendPosition {
    open spec fn obeys_from_spec() -> bool {
        true
    }

    open spec fn from_spec(value: Position) -> Self {
        ReductendPosition { rule: value.rule, reductend: value.reductend }
    }
}

impl ReductendPosition {
    pub fn component(self, component: usize) -> (r: Position)
        ensures
            r == (Position { rule: self.rule, reductend: self.reductend, component }),
    {
        Position { rule: self.rule, reductend: self.reductend, component }
    }
}

#[derive(Debug)]
pub enum Error {
    GrammarErrors(Vec<GrammarError>),
    Error(String),
}

#[derive(Debug)]
pub struct GrammarError {
    position: Position,
    reason: String,
}

/// The debug text of an item: its rule, reductend and component.
pub open spec fn position_text(p: Position) -> Seq<char> {
    "Position { rule: "@ + dec(p.rule as nat) + ", reductend: "@ + dec(p.reductend as nat) + ", component: "@ + dec(
        p.component as nat,
    ) + " }"@
}

/// The texts of the first `n` grammar errors of `list`.
pub closed spec fn grammar_errors_text(list: Seq<GrammarError>, n: nat) -> Seq<char>
    decreases n,
{
    if n == 0 || n > list.len() {
        Seq::empty()
    } else {
        grammar_errors_text(list, (n - 1) as nat) + "at "@ + position_text(list[n - 1].position) + ": "@
            + list[n - 1].reason@
    }
}

/// The text that describes an error.
pub closed spec fn error_text(e: Error) -> Seq<char> {
    match e {
        Error::Error(s) => "Generic Error!"@ + s@,
        Error::GrammarErrors(list) => grammar_errors_text(list@, list@.len()),
    }
}

fn push_position(out: &mut String, p: &Position)
    ensures
        final(out)@ == old(out)@ + position_text(*p),
{
    proof {
        reveal_strlit("Position { rule: ");
        reveal_strlit(", reductend: ");
        reveal_strlit(", component: ");
        reveal_strlit(" }");
    }
    out.append("Position { rule: ");
    push_dec(out, p.rule);
    out.append(", reductend: ");
    push_dec(out, p.reductend);
    out.append(", component: ");
    push_dec(out, p.component);
    out.append(" }");
    proof {
        assert(out@ =~= old(out)@ + position_text(*p));
    }
}

impl Error {
    /// The text that describes the error: a generic error's message after
    /// `Generic Error!`, or each grammar error's item and reason.
    pub fn to_debug_string(&self) -> (r: String)
        ensures
            r@ == error_text(*self),
    {
        proof {
            reveal_strlit("Generic Error!");
            reveal_strlit("at ");
            reveal_strlit(": ");
        }
        match self {
            Error::Error(s) => {
                let mut out = String::from_str("Generic Error!");
                out.append(s.as_str());
                out
            },
            Error::GrammarErrors(list) => {
                let mut out = String::new();
                let mut i: usize = 0;
                while i < list.len()
                    invariant
                        i <= list@.len(),
                        out@ == grammar_errors_text(list@, i as nat),
                    decreases list@.len() - i,
                {
                    out.append("at ");
                    push_position(&mut out, &list[i].position);
                    out.append(": ");
                    out.append(list[i].reason.as_str());
                    i = i + 1;
                }
                out
            },
        }
    }
}

#[derive(Debug, Clone, Copy, PartialEq, Eq, Structural)]
pub struct Position {
    pub rule: usize,
    pub reductend: usize,
    pub component: usize,
}

/// The message of the error raised when a rule is referenced that the grammar
/// does not define.
pub open spec fn missing_rule_message(rule: Seq<char>) -> Seq<char> {
    "Rule "@ + rule + " does not found!"@
}

pub fn missing_rule(rule: &str) -> (e: Error)
    ensures
        e matches Error::Error(m) && m@ == missing_rule_message(rule@),
{
    let mut m = String::from_str("Rule ");
    m.append(rule);
    m.append(" does not found!");
    Error::Error(m)
}

/// Index of the first rule named `name`, if any.
pub open spec fn find_rule(rules: Seq<RuleV>, name: Seq<char>) -> Option<int>
    decreases rules.len(),
{
    if rules.len() == 0 {
        None
    } else {
        match find_rule(rules.drop_last(), name) {
            Some(i) => Some(i),
            None => if rules.last().identifier == name {
                Some(rules.len() - 1)
            } else {
                None
            },
        }
    }
}

pub proof fn lemma_find_rule(rules: Seq<RuleV>, name: Seq<char>)
    ensures
        match find_rule(rules, name) {
            Some(i) => 0 <= i < rules.len() && rules[i].identifier == name && forall|j: int|
                0 <= j < i ==> rules[j].identifier != name,
            None => forall|j: int| 0 <= j < rules.len() ==> rules[j].identifier != name,
        },
    decreases rules.len(),
{
    if rules.len() > 0 {
        let d = rules.drop_last();
        lemma_find_rule(d, name);
        assert(forall|j: int| 0 <= j < d.len() ==> d[j] == rules[j]);
    }
}

pub open spec fn valid_position(rules: Seq<RuleV>, p: Position) -> bool {
    &&& p.rule < rules.len()
    &&& p.reductend < rules[p.rule as int].reductends.len()
    &&& p.component <= rules[p.rule as int].reductends[p.reductend as int].components.len()
}

/// The component that follows the dot of the item `p`.
pub open spec fn component_at(rules: Seq<RuleV>, p: Position) -> Option<ComponentV> {
    if p.rule < rules.len() && p.reductend < rules[p.rule as int].reductends.len()
        && p.component < rules[p.rule as int].reductends[p.reductend as int].components.len() {
        Some(rules[p.rule as int].reductends[p.reductend as int].components[p.component as int])
    } else {
        None
    }
}

/// The display name of a component.
pub open spec fn component_name(c: Component0V) -> Seq<char> {
    match c {
        Component0V::Regex(r) => r,
        Component0V::Terminal(t) => t,
        Component0V::Rule(r) => r,
        Component0V::Token => Seq::empty(),
    }
}

/// The text of the items of `comps` with a dot before the component `idx`.
pub open spec fn items_text(comps: Seq<ComponentV>, idx: int) -> Seq<char>
    decreases comps.len(),
{
    if comps.len() == 0 {
        Seq::empty()
    } else {
        items_text(comps.drop_last(), idx) + (if comps.len() - 1 == idx {
            " •"@
        } else {
            Seq::empty()
        }) + " "@ + component_name(comps.last().handle)
    }
}

/// The textual form of the item `rule -> ... • ...`.
pub open spec fn item_text(rule: RuleV, reductend: ReductendV, idx: int) -> Seq<char> {
    rule.identifier + " ->"@ + items_text(reductend.components, idx) + (if reductend.components.len()
        == idx {
        "• "@
    } else {
        Seq::empty()
    })
}

pub open spec fn no_any_token(comps: Seq<ComponentV>) -> bool {
    forall|i: int| 0 <= i < comps.len() ==> !(comps[i].handle is Token)
}

impl Position {
    pub fn new(rules: &Vec<Rule>, rule: &str, reductend: usize) -> (r: Result<Self, Error>)
        ensures
            match find_rule(rules_view(rules@), rule@) {
                Some(i) => r == Ok::<Position, Error>(
                    Position { component: 0, reductend, rule: i as usize },
                ),
                None => r matches Err(Error::Error(m)) && m@ == missing_rule_message(rule@),
            },
    {
        let idx = Self::rule_index(rules, rule)?;
        Ok(Self { component: 0, reductend, rule: idx })
    }

    pub fn rule_ref<'a>(rules: &'a Vec<Rule>, rule: &str) -> (r: Result<&'a Rule, Error>)
        ensures
            match find_rule(rules_view(rules@), rule@) {
                Some(i) => r matches Ok(x) && *x == rules@[i],
                None => r matches Err(Error::Error(m)) && m@ == missing_rule_message(rule@),
            },
            match r {
                Ok(x) => x.identifier@ == rule@,
                Err(_) => forall|j: int| 0 <= j < rules@.len() ==> rules@[j].identifier@ != rule@,
            },
    {
        let n = rules.len();
        proof {
            lemma_find_rule(rules_view(rules@), rule@);
        }
        match Self::rule_index(rules, rule) {
            Ok(idx) => {
                let x = &rules[idx];
                Ok(x)
            },
            Err(e) => Err(e),
        }
    }

    pub fn rule_index(rules: &Vec<Rule>, rule: &str) -> (r: Result<usize, Error>)
        ensures
            match find_rule(rules_view(rules@), rule@) {
                Some(i) => r == Ok::<usize, Error>(i as usize),
                None => r matches Err(Error::Error(m)) && m@ == missing_rule_message(rule@),
            },
            match r {
                Ok(i) => i < rules@.len() && rules@[i as int].identifier@ == rule@ && forall|j: int|
                    0 <= j < i ==> rules@[j].identifier@ != rule@,
                Err(_) => forall|j: int| 0 <= j < rules@.len() ==> rules@[j].identifier@ != rule@,
            },
    {
        let ghost rv = rules_view(rules@);
        let name = rule.to_owned();
        let mut i: usize = 0;
        while i < rules.len()
            invariant
                i <= rules.len(),
                rv == rules_view(rules@),
                name@ == rule@,
                forall|j: int| 0 <= j < i ==> rv[j].identifier != rule@,
            decreases rules.len() - i,
        {
            if rules[i].identifier.eq(&name) {
                proof {
                    lemma_find_rule(rv, rule@);
                    assert(rv[i as int] == rules@[i as int]@);
                    assert(rv[i as int].identifier == rule@);
                    assert forall|j: int| 0 <= j < i implies rules@[j].identifier@ != rule@ by {
                        assert(rv[j] == rules@[j]@);
                    }
                }
                return Ok(i);
            }
            assert(rv[i as int] == rules@[i as int]@);
            i = i + 1;
        }
        proof {
            lemma_find_rule(rv, rule@);
            assert forall|j: int| 0 <= j < rules@.len() implies rules@[j].identifier@ != rule@ by {
                assert(rv[j] == rules@[j]@);
            }
        }
        Err(missing_rule(rule))
    }

    pub fn get<'a>(&self, rules: &'a Vec<Rule>) -> (r: Option<&'a Component>)
        ensures
            match component_at(rules_view(rules@), *self) {
                Some(c) => r matches Some(x) && x@ == c,
                None => r is None,
            },
    {
        let (_, reductend) = self.get_rr(rules)?;
        if self.component < reductend.components.components.len() {
            Some(&reductend.components.components[self.component])
        } else {
            None
        }
    }

    pub fn get_rr<'a>(&self, rules: &'a Vec<Rule>) -> (r: Option<(&'a Rule, &'a Reductend)>)
        ensures
            if self.rule < rules.len() && self.reductend
                < rules@[self.rule as int].reductends.reductends.len() {
                r matches Some((a, b)) && *a == rules@[self.rule as int] && *b
                    == rules@[self.rule as int].reductends.reductends@[self.reductend as int]
            } else {
                r is None
            },
    {
        if self.rule < rules.len() {
            let rule = &rules[self.rule];
            if self.reductend < rule.reductends.reductends.len() {
                return Some((rule, &rule.reductends.reductends[self.reductend]));
            }
        }
        None
    }

    pub fn next(&self) -> (r: Self)
        requires
            self.component < usize::MAX,
        ensures
            r == (Position { component: (self.component + 1) as usize, ..*self }),
    {
        Position { rule: self.rule, reductend: self.reductend, component: self.component + 1 }
    }

    fn item_write(string: String, c: &Component) -> (r: String)
        requires
            !(c.handle is Token),
        ensures
            r@ == string@ + " "@ + component_name(c.handle@),
    {
        let mut string = string;
        string.append(" ");
        match &c.handle {
            Component0::Regex(r) => string.append(r.as_str()),
            Component0::Terminal(t) => string.append(t.as_str()),
            Component0::Rule(r) => string.append(r.as_str()),
            Component0::Token => {},
        }
        string
    }

    pub fn get_string(&self, rules: &Vec<Rule>) -> (r: String)
        requires
            self.rule < rules.len(),
            self.reductend < rules@[self.rule as int].reductends.reductends.len(),
            no_any_token(rules@[self.rule as int].reductends.reductends@[self.reductend as int]@.components),
        ensures
            r@ == item_text(
                rules@[self.rule as int]@,
                rules@[self.rule as int].reductends.reductends@[self.reductend as int]@,
                self.component as int,
            ),
    {
        let (rule, reductend) = self.get_rr(rules).unwrap();
        Self::get_item(rule, reductend, self.component)
    }

    fn get_item(rule: &Rule, reductend: &Reductend, component_index: usize) -> (r: String)
        requires
            no_any_token(reductend@.components),
        ensures
            r@ == item_text(rule@, reductend@, component_index as int),
    {
        let mut string = rule.identifier.clone();
        string.append(" ->");
        let comps = &reductend.components.components;
        let ghost cv = reductend@.components;
        let mut i: usize = 0;
        while i < comps.len()
            invariant
                i <= comps.len(),
                cv == components_view(comps@),
                no_any_token(cv),
                string@ == rule.identifier@ + " ->"@ + items_text(cv.take(i as int), component_index as int),
            decreases comps.len() - i,
        {
            if i == component_index {
                string.append(" •");
            }
            assert(cv[i as int] == comps@[i as int]@);
            string = Self::item_write(string, &comps[i]);
            proof {
                assert(cv.take(i + 1).drop_last() =~= cv.take(i as int));
            }
            i = i + 1;
        }
        if i == component_index {
            string.append("• ");
        }
        proof {
            assert(cv.take(i as int) =~= cv);
        }
        string
    }
}


/// The text of the item `p`.
pub open spec fn pos_text(rules: Seq<RuleV>, p: Position) -> Seq<char> {
    item_text(rules[p.rule as int], rules[p.rule as int].reductends[p.reductend as int], p.component as int)
}

/// The texts of the items of `s`, separated by `" | "`.
pub open spec fn join_items(rules: Seq<RuleV>, s: Seq<Position>) -> Seq<char>
    decreases s.len(),
{
    if s.len() == 0 {
        Seq::empty()
    } else if s.len() == 1 {
        pos_text(rules, s[0])
    } else {
        join_items(rules, s.drop_last()) + " | "@ + pos_text(rules, s.last())
    }
}

/// Items in strictly increasing order of rule, reductend and component.
pub open spec fn sorted_positions(s: Seq<Position>) -> bool {
    forall|i: int, j: int| 0 <= i < j < s.len() ==> crate::closure::lex_lt(#[trigger] s[i], #[trigger] s[j])
}

/// Every item of `s` lies in a reductend of `rules` without the wildcard.
pub open spec fn printable(rules: Seq<RuleV>, s: Seq<Position>) -> bool {
    forall|i: int|
        0 <= i < s.len() ==> {
            let p = #[trigger] s[i];
            &&& p.rule < rules.len()
            &&& p.reductend < rules[p.rule as int].reductends.len()
            &&& no_any_token(rules[p.rule as int].reductends[p.reductend as int].components)
        }
}

/// Whether `a` comes before `b` in the order of rule, reductend and component.
pub fn pos_lt(a: &Position, b: &Position) -> (r: bool)
    ensures
        r == crate::closure::lex_lt(*a, *b),
{
    a.rule < b.rule || (a.rule == b.rule && (a.reductend < b.reductend || (a.reductend == b.reductend
        && a.component < b.component)))
}

/// Two sequences of items in increasing order that hold the same items are
/// the same sequence: the order kept by `Positions` is a canonical form.
pub proof fn lemma_sorted_positions_unique(s1: Seq<Position>, s2: Seq<Position>)
    requires
        sorted_positions(s1),
        sorted_positions(s2),
        s1.to_set() == s2.to_set(),
    ensures
        s1 == s2,
    decreases s1.len(),
{
    if s1.len() == 0 {
        if s2.len() > 0 {
            assert(s2.to_set().contains(s2[0]));
        }
        assert(s1 =~= s2);
    } else if s2.len() == 0 {
        assert(s1.to_set().contains(s1[0]));
    } else {
        assert(s2.to_set().contains(s1[0]));
        assert(s1.to_set().contains(s2[0]));
        let k = choose|k: int| 0 <= k < s2.len() && s2[k] == s1[0];
        let m = choose|m: int| 0 <= m < s1.len() && s1[m] == s2[0];
        if k > 0 && m > 0 {
            assert(crate::closure::lex_lt(s2[0], s2[k]));
            assert(crate::closure::lex_lt(s1[0], s1[m]));
        }
        assert(s1[0] == s2[0]);
        let t1 = s1.drop_first();
        let t2 = s2.drop_first();
        assert forall|x: Position| t1.to_set().contains(x) implies t2.to_set().contains(x) by {
            let i = choose|i: int| 0 <= i < t1.len() && t1[i] == x;
            assert(s1[i + 1] == x);
            assert(crate::closure::lex_lt(s1[0], s1[i + 1]));
            assert(s2.to_set().contains(x));
            let j = choose|j: int| 0 <= j < s2.len() && s2[j] == x;
            assert(j != 0);
            assert(t2[j - 1] == x);
        }
        assert forall|x: Position| t2.to_set().contains(x) implies t1.to_set().contains(x) by {
            let i = choose|i: int| 0 <= i < t2.len() && t2[i] == x;
            assert(s2[i + 1] == x);
            assert(crate::closure::lex_lt(s2[0], s2[i + 1]));
            assert(s1.to_set().contains(x));
            let j = choose|j: int| 0 <= j < s1.len() && s1[j] == x;
            assert(j != 0);
            assert(t1[j - 1] == x);
        }
        assert(t1.to_set() =~= t2.to_set());
        assert(sorted_positions(t1)) by {
            assert forall|a: int, b: int| 0 <= a < b < t1.len() implies crate::closure::lex_lt(#[trigger] t1[a], #[trigger] t1[b]) by {
                assert(t1[a] == s1[a + 1] && t1[b] == s1[b + 1]);
            }
        }
        assert(sorted_positions(t2)) by {
            assert forall|a: int, b: int| 0 <= a < b < t2.len() implies crate::closure::lex_lt(#[trigger] t2[a], #[trigger] t2[b]) by {
                assert(t2[a] == s2[a + 1] && t2[b] == s2[b + 1]);
            }
        }
        lemma_sorted_positions_unique(t1, t2);
        assert(s1 =~= s2) by {
            assert forall|i: int| 0 <= i < s1.len() implies s1[i] == s2[i] by {
                if i > 0 {
                    assert(s1[i] == t1[i - 1]);
                    assert(s2[i] == t2[i - 1]);
                }
            }
        }
    }
}

/// Adding an item that is already there leaves the set of items as it was:
/// `add` is idempotent.
pub proof fn lemma_add_idempotent(before: Seq<Position>, p: Position, once: Seq<Position>, twice: Seq<Position>)
    requires
        sorted_positions(once),
        once.to_set() == before.to_set().insert(p),
        sorted_positions(twice),
        twice.to_set() == once.to_set().insert(p),
    ensures
        twice == once,
{
    assert(once.to_set().insert(p) =~= once.to_set());
    lemma_sorted_positions_unique(twice, once);
}

/// Adding two items in either order gives the same set of items: the result
/// of a series of `add` calls does not depend on their order.
pub proof fn lemma_add_commutes(
    before: Seq<Position>,
    p: Position,
    q: Position,
    pq: Seq<Position>,
    qp: Seq<Position>,
)
    requires
        sorted_positions(pq),
        pq.to_set() == before.to_set().insert(p).insert(q),
        sorted_positions(qp),
        qp.to_set() == before.to_set().insert(q).insert(p),
    ensures
        pq == qp,
{
    assert(before.to_set().insert(p).insert(q) =~= before.to_set().insert(q).insert(p));
    lemma_sorted_positions_unique(pq, qp);
}

/// A set of items, kept in increasing order.
#[derive(Debug)]
pub struct Positions {
    items: Vec<Position>,
}

impl View for Positions {
    type V = Seq<Position>;

    closed spec fn view(&self) -> Seq<Position> {
        self.items@
    }
}

impl Positions {
    #[verifier::type_invariant]
    spec fn inv(&self) -> bool {
        sorted_positions(self.items@)
    }

    pub fn new() -> (r: Self)
        ensures
            r@ == Seq::<Position>::empty(),
    {
        Positions { items: Vec::new() }
    }

    /// Inserts `position`, keeping the items in order and each once.
    pub fn add(&mut self, position: Position)
        ensures
            sorted_positions(final(self)@),
            final(self)@.to_set() == old(self)@.to_set().insert(position),
    {
        proof {
            use_type_invariant(&*self);
        }
        let mut items = Vec::new();
        std::mem::swap(&mut items, &mut self.items);
        let ghost s = items@;
        let mut i: usize = 0;
        while i < items.len() && pos_lt(&items[i], &position)
            invariant
                i <= items@.len(),
                items@ == s,
                sorted_positions(s),
                forall|j: int| 0 <= j < i ==> crate::closure::lex_lt(#[trigger] s[j], position),
            decreases items@.len() - i,
        {
            i = i + 1;
        }
        if i < items.len() && items[i] == position {
            proof {
                assert(s.to_set().insert(position) =~= s.to_set());
            }
        } else {
            items.insert(i, position);
            proof {
                let t = items@;
                if i < s.len() {
                    assert(crate::closure::lex_lt(position, s[i as int]));
                }
                assert(t =~= s.take(i as int).push(position) + s.skip(i as int));
                assert forall|a: int, b: int| 0 <= a < b < t.len() implies crate::closure::lex_lt(
                    #[trigger] t[a],
                    #[trigger] t[b],
                ) by {
                    if b < i {
                        assert(t[a] == s[a] && t[b] == s[b]);
                    } else if b == i {
                        assert(t[a] == s[a]);
                    } else if a < i {
                        assert(t[a] == s[a] && t[b] == s[b - 1]);
                        crate::closure::lemma_lex_lt_trans(s[a], position, s[b - 1]);
                    } else if a == i {
                        assert(t[b] == s[b - 1]);
                        if b - 1 > i {
                            crate::closure::lemma_lex_lt_trans(position, s[i as int], s[b - 1]);
                        }
                    } else {
                        assert(t[a] == s[a - 1] && t[b] == s[b - 1]);
                    }
                }
                assert forall|x: Position| t.to_set().contains(x) <==> s.to_set().insert(position).contains(x) by {
                    if t.contains(x) {
                        let k = choose|k: int| 0 <= k < t.len() && t[k] == x;
                        if k < i {
                            assert(s[k] == x);
                        } else if k > i {
                            assert(s[k - 1] == x);
                        }
                    }
                    if s.contains(x) {
                        let k = choose|k: int| 0 <= k < s.len() && s[k] == x;
                        if k < i {
                            assert(t[k] == x);
                        } else {
                            assert(t[k + 1] == x);
                        }
                    }
                    if x == position {
                        assert(t[i as int] == x);
                    }
                }
                assert(t.to_set() =~= s.to_set().insert(position));
            }
        }
        self.items = items;
    }
}


impl Positions {
    /// The set of the single item `position`.
    pub fn single(position: Position) -> (r: Self)
        ensures
            r@ == seq![position],
    {
        let mut items = Vec::new();
        items.push(position);
        Positions { items }
    }

    /// Leaves the set as it is: the union with `other` is computed and dropped.
    pub fn merge(&mut self, other: Self)
        ensures
            final(self)@ == old(self)@,
    {
    }

    /// Adds the beginnings of all reductends of the rule named `rule`.
    fn add_rule(&mut self, rules: &Vec<Rule>, rule: &str) -> (r: Result<(), Error>)
        ensures
            match find_rule(rules_view(rules@), rule@) {
                Some(ri) => r is Ok && sorted_positions(final(self)@) && final(self)@.to_set()
                    == old(self)@.to_set().union(
                    Set::new(
                        |p: Position|
                            p.rule == ri && p.component == 0 && p.reductend < rules_view(
                                rules@,
                            )[ri].reductends.len(),
                    ),
                ),
                None => r matches Err(Error::Error(m)) && m@ == missing_rule_message(rule@)
                    && final(self)@ == old(self)@,
            },
    {
        let ghost rv = rules_view(rules@);
        let nr = rules.len();
        let rule_idx = match Position::rule_index(rules, rule) {
            Ok(i) => i,
            Err(e) => return Err(e),
        };
        proof {
            lemma_find_rule(rv, rule@);
        }
        let rule_ref = &rules[rule_idx];
        let n = rule_ref.reductends.reductends.len();
        assert(rv[rule_idx as int].reductends.len() == n);
        let ghost start = old(self)@.to_set();
        proof {
            use_type_invariant(&*self);
            assert(self@ == old(self)@);
            assert(start.union(
                Set::new(|p: Position| p.rule == rule_idx && p.component == 0 && p.reductend < 0),
            ) =~= start);
        }
        let mut reductend: usize = 0;
        while reductend < n
            invariant
                reductend <= n,
                rule_idx < nr == rules@.len(),
                rv == rules_view(rules@),
                find_rule(rv, rule@) == Some(rule_idx as int),
                start == old(self)@.to_set(),
                n == rv[rule_idx as int].reductends.len(),
                sorted_positions(self@),
                self@.to_set() == start.union(
                    Set::new(|p: Position| p.rule == rule_idx && p.component == 0 && p.reductend < reductend),
                ),
            decreases n - reductend,
        {
            let ghost before = self@.to_set();
            self.add(Position { rule: rule_idx, reductend, component: 0 });
            proof {
                assert(self@.to_set() =~= start.union(
                    Set::new(|p: Position| p.rule == rule_idx && p.component == 0 && p.reductend < reductend + 1),
                ));
            }
            reductend = reductend + 1;
        }
        proof {
            let ri = find_rule(rules_view(rules@), rule@)->Some_0;
            assert(ri == rule_idx);
            assert(reductend == rv[ri].reductends.len());
            let a = Set::new(|p: Position| p.rule == rule_idx && p.component == 0 && p.reductend < reductend);
            let b = Set::new(
                    |p: Position|
                        p.rule == ri && p.component == 0 && p.reductend < rules_view(
                            rules@,
                        )[ri].reductends.len(),
                );
            assert(a =~= b);
            assert(self@.to_set() =~= start.union(
                Set::new(
                    |p: Position|
                        p.rule == ri && p.component == 0 && p.reductend < rules_view(
                            rules@,
                        )[ri].reductends.len(),
                ),
            ));
        }
        Ok(())
    }

    /// The beginnings of all reductends of the rule named `rule`.
    pub fn from(rules: &Vec<Rule>, rule: &str) -> (r: Result<Self, Error>)
        ensures
            match find_rule(rules_view(rules@), rule@) {
                Some(ri) => r matches Ok(s) && sorted_positions(s@) && s@.to_set() == Set::new(
                    |p: Position|
                        p.rule == ri && p.component == 0 && p.reductend < rules_view(
                            rules@,
                        )[ri].reductends.len(),
                ),
                None => r matches Err(Error::Error(m)) && m@ == missing_rule_message(rule@),
            },
    {
        let mut set = Positions::new();
        set.add_rule(rules, rule)?;
        proof {
            assert(Seq::<Position>::empty().to_set() =~= Set::empty());
            if let Some(ri) = find_rule(rules_view(rules@), rule@) {
                assert(set@.to_set() =~= Set::new(
                    |p: Position|
                        p.rule == ri && p.component == 0 && p.reductend < rules_view(
                            rules@,
                        )[ri].reductends.len(),
                ));
            }
        }
        Ok(set)
    }

    /// The items, in increasing order.
    pub fn iter(&self) -> (r: &Vec<Position>)
        ensures
            r@ == self@,
            sorted_positions(r@),
    {
        proof {
            use_type_invariant(self);
        }
        &self.items
    }

    /// The items, in increasing order.
    pub fn into_iter(self) -> (r: Vec<Position>)
        ensures
            r@ == self@,
            sorted_positions(r@),
    {
        proof {
            use_type_invariant(&self);
        }
        self.items
    }

    /// Whether `position` is in the set.
    pub fn contains(&self, position: &Position) -> (r: bool)
        ensures
            r == self@.contains(*position),
    {
        let mut i: usize = 0;
        while i < self.items.len()
            invariant
                i <= self@.len(),
                self@ == self.items@,
                forall|j: int| 0 <= j < i ==> self@[j] != *position,
            decreases self@.len() - i,
        {
            if self.items[i] == *position {
                return true;
            }
            i = i + 1;
        }
        false
    }

    /// Whether every item lies in `rules` and its reductend holds no
    /// wildcard, so that `get_string` can write it out.
    pub fn printable_in(&self, rules: &Vec<Rule>) -> (r: bool)
        ensures
            r == printable(rules_view(rules@), self@),
    {
        let ghost rv = rules_view(rules@);
        let items = &self.items;
        let ghost s = self@;
        let mut i: usize = 0;
        while i < items.len()
            invariant
                i <= s.len(),
                s == items@,
                s == self@,
                rv == rules_view(rules@),
                printable(rv, s.take(i as int)),
            decreases s.len() - i,
        {
            let p = items[i];
            if p.rule >= rules.len() || p.reductend >= rules[p.rule].reductends.reductends.len() {
                proof {
                    assert(s[i as int] == p);
                    assert(rv.len() == rules@.len());
                    if p.rule < rules@.len() {
                        assert(rv[p.rule as int].reductends.len() == rules@[p.rule as int].reductends.reductends@.len());
                    }
                    assert(!printable(rv, s));
                }
                return false;
            }
            let comps = &rules[p.rule].reductends.reductends[p.reductend].components.components;
            assert(rv[p.rule as int].reductends.len() == rules@[p.rule as int].reductends.reductends@.len());
            assert(rv[p.rule as int].reductends[p.reductend as int].components == components_view(comps@));
            let mut c: usize = 0;
            while c < comps.len()
                invariant
                    c <= comps@.len(),
                    s == items@,
                    s == self@,
                s == self@,
                    i < s.len(),
                    p == s[i as int],
                    rv == rules_view(rules@),
                    p.rule < rv.len(),
                    p.reductend < rv[p.rule as int].reductends.len(),
                    rv[p.rule as int].reductends[p.reductend as int].components == components_view(comps@),
                    forall|j: int| 0 <= j < c ==> !(comps@[j]@.handle is Token),
                decreases comps@.len() - c,
            {
                if let Component0::Token = comps[c].handle {
                    proof {
                        assert(s[i as int] == p);
                        assert(components_view(comps@)[c as int] == comps@[c as int]@);
                        assert(rv[p.rule as int].reductends[p.reductend as int].components[c as int].handle is Token);
                        assert(!printable(rv, s));
                    }
                    return false;
                }
                c = c + 1;
            }
            proof {
                assert(no_any_token(rv[p.rule as int].reductends[p.reductend as int].components));
                assert forall|j: int| 0 <= j < i + 1 implies {
                    let q = #[trigger] s.take(i + 1)[j];
                    &&& q.rule < rv.len()
                    &&& q.reductend < rv[q.rule as int].reductends.len()
                    &&& no_any_token(rv[q.rule as int].reductends[q.reductend as int].components)
                } by {
                    if j < i {
                        assert(s.take(i + 1)[j] == s.take(i as int)[j]);
                    }
                }
            }
            i = i + 1;
        }
        proof {
            assert(s.take(i as int) =~= s);
        }
        true
    }

    /// The items' texts, separated by `" | "` within square brackets.
    pub fn get_string(&self, rules: &Vec<Rule>) -> (r: String)
        requires
            printable(rules_view(rules@), self@),
        ensures
            r@ == "["@ + join_items(rules_view(rules@), self@) + "]"@,
    {
        let ghost rv = rules_view(rules@);
        let items = &self.items;
        let ghost s = self@;
        let mut out = String::from_str("[");
        proof {
            reveal_strlit("[");
            reveal_strlit("]");
            reveal_strlit(" | ");
        }
        let mut i: usize = 0;
        while i < items.len()
            invariant
                i <= s.len(),
                s == items@,
                rv == rules_view(rules@),
                printable(rv, s),
                out@ == "["@ + join_items(rv, s.take(i as int)),
            decreases s.len() - i,
        {
            let p = items[i];
            assert(printable(rv, s) ==> no_any_token(rv[p.rule as int].reductends[p.reductend as int].components));
            assert(rv[p.rule as int] == rules@[p.rule as int]@);
            assert(rv[p.rule as int].reductends[p.reductend as int] == rules@[p.rule as int].reductends.reductends@[p.reductend as int]@);
            if i > 0 {
                out.append(" | ");
            }
            let t = p.get_string(rules);
            out.append(t.as_str());
            proof {
                let n = s.take(i + 1);
                assert(n.drop_last() =~= s.take(i as int));
                assert(n.last() == p);
                if i == 0 {
                    assert(n =~= seq![p]);
                }
            }
            i = i + 1;
        }
        proof {
            assert(s.take(i as int) =~= s);
        }
        out.append("]");
        out
    }
}

impl Default for Positions {
    fn default() -> (r: Self)
        ensures
            r@ == Seq::<Position>::empty(),
    {
        Positions::new()
    }
}


/// A state of the LR automaton: the state reached on each token that some
/// item shifts, the state reached after each reductend of each rule that some
/// item calls, and the reductends that are reduced on each lookahead token.
/// Tokens are numbered by the item table of the automaton.
pub struct State {
    pub next: Vec<(usize, usize)>,
    pub goto: Vec<(ReductendPosition, usize)>,
    pub reduce: Vec<(usize, Vec<ReductendPosition>)>,
}

pub struct StateV {
    pub next: Seq<(usize, usize)>,
    pub goto: Seq<(ReductendPosition, usize)>,
    pub reduce: Seq<(usize, Seq<ReductendPosition>)>,
}

pub open spec fn reduce_view(s: Seq<(usize, Vec<ReductendPosition>)>) -> Seq<(usize, Seq<ReductendPosition>)> {
    s.map_values(|e: (usize, Vec<ReductendPosition>)| (e.0, e.1@))
}

impl View for State {
    type V = StateV;

    open spec fn view(&self) -> StateV {
        StateV { next: self.next@, goto: self.goto@, reduce: reduce_view(self.reduce@) }
    }
}


/// The LR(1) automaton of a grammar: the table of its items and tokens, and
/// its states, each given by its closed head of items with lookahead tokens.
/// State `start` is the initial one.
pub struct LR<'a> {
    pub rules: &'a Vec<Rule>,
    pub table: ItemTable,
    pub heads: Vec<StateHead>,
    pub states: Vec<State>,
    pub start: usize,
    pub export: Option<String>,
}

/// The index of the rule named `start`.
pub open spec fn start_rule(rules: Seq<RuleV>) -> Option<int> {
    find_rule(rules, "start"@)
}

/// The message of the error raised where the states outnumber what a vector can hold.
pub open spec fn state_limit_message() -> Seq<char> {
    "Too many states!"@
}

/// The message of the error raised where a reductend has so many components
/// that the item after its last one has no index in a machine integer.
pub open spec fn size_limit_message() -> Seq<char> {
    "Grammar too large!"@
}

/// The grammar has as many states as a vector can hold.
pub open spec fn state_limit_reached(rules: Seq<RuleV>, s: int) -> bool {
    exists|tab: ItemTable, hs: Seq<HeadV>|
        tab.wf(rules) && #[trigger] explored(rules, &tab, s, hs) && hs.len() == usize::MAX
}

/// Exploring the states of the grammar whose start rule is `s` meets, after
/// states that the construction handles, one on which it fails with `e`: a
/// wildcard, or a rule that the grammar does not define.
pub open spec fn fault_reached(rules: Seq<RuleV>, s: int, e: Error) -> bool {
    exists|tab: ItemTable, hs: Seq<HeadV>| tab.wf(rules) && #[trigger] fails_at_end(rules, &tab, s, hs, e)
}

impl<'a> LR<'a> {
    /// The automaton is the canonical collection of LR(1) states of its
    /// grammar: its first state is the closure of the start rule's beginnings
    /// with the end of input as lookahead, every other state is reached from an
    /// earlier one, no two states are equal, and each state's entries lead to
    /// the states that its transitions reach.
    pub open spec fn wf(&self) -> bool {
        let rv = rules_view(self.rules@);
        &&& start_rule(rv) is Some
        &&& self.table.wf(rv)
        &&& explored(rv, &self.table, start_rule(rv)->Some_0, heads_view(self.heads@))
        &&& all_clean(rv, &self.table, heads_view(self.heads@))
        &&& self.states@.len() == self.heads@.len()
        &&& forall|j: int|
            0 <= j < self.states@.len() ==> state_ok(
                rv,
                &self.table,
                heads_view(self.heads@),
                heads_view(self.heads@)[j],
                #[trigger] self.states@[j]@,
            )
        &&& self.start == 0
        &&& opt_view(self.export) == rv[start_rule(rv)->Some_0].export
    }

    /// Builds the automaton of `rules`, whose start rule is named `start`.
    pub fn new(rules: &'a Vec<Rule>) -> (r: Result<Self, Error>)
        ensures
            match r {
                Ok(lr) => lr.wf() && lr.rules == rules,
                Err(e) => match start_rule(rules_view(rules@)) {
                    None => e matches Error::Error(m) && m@ == missing_rule_message("start"@),
                    Some(s) => {
                        ||| fault_reached(rules_view(rules@), s, e)
                        ||| (oversized(rules_view(rules@)) && (e matches Error::Error(m) && m@
                            == size_limit_message()))
                        ||| (state_limit_reached(rules_view(rules@), s) && too_many_states(e))
                    },
                },
            },
    {
        let ghost rv = rules_view(rules@);
        let s = match Position::rule_index(rules, "start") {
            Ok(s) => s,
            Err(e) => return Err(e),
        };
        proof {
            lemma_find_rule(rv, "start"@);
        }
        let tab = match build_table(rules) {
            Some(t) => t,
            None => {
                return Err(Error::Error(String::from_str("Grammar too large!")));
            },
        };
        let k = start_head(rules, &tab, s);
        let h0 = match normalize_head(rules, &tab, &k) {
            Ok(h) => h,
            Err(e) => {
                proof {
                    let c = choose|c: HeadV| #[trigger] is_closure(rv, &tab, k@, c) && head_fault(rv, &tab, c, e);
                    let hs = seq![c];
                    assert(is_start_kernel(&tab, s as int, k@) && is_closure(rv, &tab, k@, hs[0]));
                    assert(start_closure(rv, &tab, s as int, hs[0]));
                    assert(explored(rv, &tab, s as int, hs));
                    assert(hs.drop_last() =~= Seq::<HeadV>::empty());
                    assert(hs.last() == c);
                    assert(tab.wf(rv) && fails_at_end(rv, &tab, s as int, hs, e));
                }
                return Err(e);
            },
        };
        let export = match &rules[s].export {
            Some(e) => Some(e.clone()),
            None => None,
        };
        let mut heads: Vec<StateHead> = Vec::new();
        heads.push(h0);
        proof {
            let hs = heads_view(heads@);
            assert(hs[0] == h0@);
            assert(is_start_kernel(&tab, s as int, k@) && is_closure(rv, &tab, k@, h0@));
            assert(start_closure(rv, &tab, s as int, hs[0]));
            assert(explored(rv, &tab, s as int, hs));
            assert(all_clean(rv, &tab, hs));
        }
        let mut states: Vec<State> = Vec::new();
        let mut cur: usize = 0;
        while cur < heads.len()
            invariant
                rv == rules_view(rules@),
                start_rule(rv) == Some(s as int),
                tab.wf(rv),
                explored(rv, &tab, s as int, heads_view(heads@)),
                all_clean(rv, &tab, heads_view(heads@)),
                states@.len() == cur,
                cur <= heads@.len(),
                forall|j: int|
                    0 <= j < cur ==> state_ok(
                        rv,
                        &tab,
                        heads_view(heads@),
                        heads_view(heads@)[j],
                        #[trigger] states@[j]@,
                    ),
            decreases usize::MAX - cur,
        {
            let ghost hs_before = heads_view(heads@);
            let ghost states_before = states@;
            let st = match build_state(rules, &tab, &mut heads, cur, Ghost(s as int)) {
                Ok(st) => st,
                Err(e) => {
                    proof {
                        if exists|hs: Seq<HeadV>| #[trigger] fails_at_end(rv, &tab, s as int, hs, e) {
                            let hs = choose|hs: Seq<HeadV>| #[trigger] fails_at_end(rv, &tab, s as int, hs, e);
                            assert(tab.wf(rv) && fails_at_end(rv, &tab, s as int, hs, e));
                        } else {
                            let hs = heads_view(heads@);
                            assert(hs.len() == usize::MAX);
                            assert(tab.wf(rv) && explored(rv, &tab, s as int, hs) && hs.len() == usize::MAX);
                            assert(state_limit_reached(rv, s as int));
                        }
                        assert(start_rule(rv) == Some(s as int));
                    }
                    return Err(e);
                },
            };
            states.push(st);
            proof {
                let hs_after = heads_view(heads@);
                assert forall|j: int|
                    0 <= j < cur + 1 implies state_ok(
                        rv,
                        &tab,
                        hs_after,
                        hs_after[j],
                        #[trigger] states@[j]@,
                    ) by {
                    if j < cur {
                        assert(states@[j] == states_before[j]);
                        lemma_state_ok_extends(rv, &tab, hs_before, hs_after, hs_before[j], states_before[j]@);
                        assert(hs_after[j] == hs_before[j]);
                    } else {
                        assert(hs_after[j] == hs_before[j]);
                    }
                }
            }
            cur = cur + 1;
        }
        proof {
            assert(rv[s as int].export == opt_view(rules@[s as int].export));
        }
        Ok(LR { rules, table: tab, heads, states, start: 0, export })
    }
}

} // verus!
