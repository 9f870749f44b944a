use vstd::prelude::*;

use crate::lr::{
    Error, Position, Token, TokenV, component_at, find_rule, lemma_find_rule, missing_rule_message,
    valid_position,
};
use crate::parser::{Component0, Component0V, Rule, RuleV, components_view, rules_view};

verus! {

// ---------------------------------------------------------------------------
// What follows the dot of an item

pub enum EventV {
    Shift(TokenV),
    Rule(Seq<char>),
    Reduce,
    Wild,
}

pub open spec fn event(rules: Seq<RuleV>, p: Position) -> EventV {
    match component_at(rules, p) {
        Some(c) => match c.handle {
            Component0V::Regex(r) => EventV::Shift(TokenV::Regex(r)),
            Component0V::Terminal(t) => EventV::Shift(TokenV::Terminal(t)),
            Component0V::Rule(r) => EventV::Rule(r),
            Component0V::Token => EventV::Wild,
        },
        None => EventV::Reduce,
    }
}

pub enum Event {
    Shift(Token),
    Rule(String),
    Reduce,
    Wild,
}

pub open spec fn event_view(e: Event) -> EventV {
    match e {
        Event::Shift(t) => EventV::Shift(t@),
        Event::Rule(r) => EventV::Rule(r@),
        Event::Reduce => EventV::Reduce,
        Event::Wild => EventV::Wild,
    }
}

/// What follows the dot of `position`: a token to shift, a rule to enter,
/// the end of the reductend, or the "any token" wildcard `*`.
pub fn next_event(position: &Position, rules: &Vec<Rule>) -> (e: Event)
    ensures
        event_view(e) == event(rules_view(rules@), *position),
{
    match position.get(rules) {
        Some(component) => {
            proof {
                let rv = rules_view(rules@);
                let p = *position;
                assert(rv[p.rule as int].reductends[p.reductend as int].components[p.component as int]
                    == component@);
            }
            match &component.handle {
                Component0::Regex(r) => Event::Shift(Token::Regex(r.clone())),
                Component0::Terminal(t) => Event::Shift(Token::Terminal(t.clone())),
                Component0::Rule(r) => Event::Rule(r.clone()),
                Component0::Token => Event::Wild,
            }
        },
        None => Event::Reduce,
    }
}

/// The message of the error raised where the construction meets the
/// wildcard `*`, which the LR(1) construction does not implement.
pub open spec fn wildcard_message() -> Seq<char> {
    "Not implemented!"@
}

/// An event that the construction can handle: no wildcard, and no reference
/// to an undefined rule.
pub open spec fn event_clean(rules: Seq<RuleV>, ev: EventV) -> bool {
    match ev {
        EventV::Wild => false,
        EventV::Rule(n) => find_rule(rules, n) is Some,
        _ => true,
    }
}

/// `e` is the error that the construction raises on meeting the event `ev`.
pub open spec fn event_fault(rules: Seq<RuleV>, ev: EventV, e: Error) -> bool {
    match ev {
        EventV::Wild => e matches Error::Error(m) && m@ == wildcard_message(),
        EventV::Rule(n) => find_rule(rules, n) is None && (e matches Error::Error(m) && m@
            == missing_rule_message(n)),
        _ => false,
    }
}

// ---------------------------------------------------------------------------
// Tables of the items and of the tokens of a grammar

pub open spec fn lex_lt(a: Position, b: Position) -> bool {
    a.rule < b.rule || (a.rule == b.rule && (a.reductend < b.reductend || (a.reductend
        == b.reductend && a.component < b.component)))
}

/// All items of a grammar, and all its tokens with `EOF` first.
pub struct ItemTable {
    pub positions: Vec<Position>,
    pub tokens: Vec<Token>,
}

pub open spec fn tokens_view(s: Seq<Token>) -> Seq<TokenV> {
    s.map_values(|t: Token| t@)
}

pub open spec fn positions_complete(rules: Seq<RuleV>, positions: Seq<Position>) -> bool {
    &&& forall|i: int| 0 <= i < positions.len() ==> valid_position(rules, #[trigger] positions[i])
    &&& forall|i: int, j: int|
        0 <= i < j < positions.len() ==> lex_lt(#[trigger] positions[i], #[trigger] positions[j])
    &&& forall|p: Position| valid_position(rules, p) ==> #[trigger] positions.contains(p)
}

pub open spec fn tokens_complete(rules: Seq<RuleV>, tokens: Seq<TokenV>) -> bool {
    &&& tokens.len() >= 1
    &&& tokens[0] == TokenV::EOF
    &&& forall|i: int, j: int| 0 <= i < j < tokens.len() ==> #[trigger] tokens[i] != #[trigger] tokens[j]
    &&& forall|p: Position| #[trigger]
        event(rules, p) matches EventV::Shift(tv) ==> tokens.contains(tv)
}

/// Every token but the first is shifted by some item.
pub open spec fn tokens_used(rules: Seq<RuleV>, tokens: Seq<TokenV>) -> bool {
    forall|i: int| 1 <= i < tokens.len() ==> exists|p: Position| #[trigger] event(rules, p) == EventV::Shift(#[trigger] tokens[i])
}

/// Every length in the grammar fits a machine integer, with room for one more item.
pub open spec fn grammar_bounded(rules: Seq<RuleV>) -> bool {
    &&& rules.len() <= usize::MAX
    &&& forall|r: int| 0 <= r < rules.len() ==> (#[trigger] rules[r]).reductends.len() <= usize::MAX
    &&& forall|r: int, k: int|
        0 <= r < rules.len() && 0 <= k < rules[r].reductends.len() ==> (
        #[trigger] rules[r].reductends[k]).components.len() < usize::MAX
}

impl ItemTable {
    pub open spec fn wf(&self, rules: Seq<RuleV>) -> bool {
        &&& grammar_bounded(rules)
        &&& positions_complete(rules, self.positions@)
        &&& tokens_complete(rules, tokens_view(self.tokens@))
    }

    pub open spec fn np(&self) -> int {
        self.positions@.len() as int
    }

    pub open spec fn nt(&self) -> int {
        self.tokens@.len() as int
    }

    /// The index of an item in the table.
    pub open spec fn pid(&self, p: Position) -> int {
        choose|i: int| 0 <= i < self.positions@.len() && self.positions@[i] == p
    }

    /// The index of a token in the table.
    pub open spec fn tid(&self, t: TokenV) -> int {
        choose|i: int| 0 <= i < self.tokens@.len() && self.tokens@[i]@ == t
    }
}

pub proof fn lemma_pid(tab: &ItemTable, rules: Seq<RuleV>, p: Position)
    requires
        tab.wf(rules),
        valid_position(rules, p),
    ensures
        0 <= tab.pid(p) < tab.np(),
        tab.positions@[tab.pid(p)] == p,
        forall|i: int| 0 <= i < tab.np() && tab.positions@[i] == p ==> i == tab.pid(p),
{
    assert(tab.positions@.contains(p));
    let i = choose|i: int| 0 <= i < tab.positions@.len() && tab.positions@[i] == p;
    assert forall|j: int| 0 <= j < tab.np() && tab.positions@[j] == p implies j == tab.pid(p) by {
        let k = tab.pid(p);
        if j < k {
            assert(lex_lt(tab.positions@[j], tab.positions@[k]));
        } else if k < j {
            assert(lex_lt(tab.positions@[k], tab.positions@[j]));
        }
    }
}

pub proof fn lemma_tid(tab: &ItemTable, rules: Seq<RuleV>, t: TokenV)
    requires
        tab.wf(rules),
        tokens_view(tab.tokens@).contains(t),
    ensures
        0 <= tab.tid(t) < tab.nt(),
        tab.tokens@[tab.tid(t)]@ == t,
        forall|i: int| 0 <= i < tab.nt() && tab.tokens@[i]@ == t ==> i == tab.tid(t),
{
    let tv = tokens_view(tab.tokens@);
    let i = choose|i: int| 0 <= i < tv.len() && tv[i] == t;
    assert(tab.tokens@[i]@ == t);
    assert forall|j: int| 0 <= j < tab.nt() && tab.tokens@[j]@ == t implies j == tab.tid(t) by {
        let k = tab.tid(t);
        if j < k {
            assert(tv[j] != tv[k]);
        } else if k < j {
            assert(tv[k] != tv[j]);
        }
    }
}

/// Index of the token that denotes the same lexeme class as `t`.
pub fn token_index(tokens: &Vec<Token>, t: &Token) -> (r: Option<usize>)
    ensures
        match r {
            Some(i) => i < tokens@.len() && tokens@[i as int]@ == t@,
            None => !tokens_view(tokens@).contains(t@),
        },
{
    let mut i: usize = 0;
    while i < tokens.len()
        invariant
            i <= tokens.len(),
            forall|j: int| 0 <= j < i ==> tokens@[j]@ != t@,
        decreases tokens.len() - i,
    {
        if tokens[i].same(t) {
            return Some(i);
        }
        i = i + 1;
    }
    proof {
        if tokens_view(tokens@).contains(t@) {
            let j = choose|j: int| 0 <= j < tokens@.len() && tokens_view(tokens@)[j] == t@;
            assert(tokens@[j]@ == t@);
        }
    }
    None
}

/// Index of an item in the table.
pub fn position_index(tab: &ItemTable, p: &Position, Ghost(rules): Ghost<Seq<RuleV>>) -> (r: usize)
    requires
        tab.wf(rules),
        valid_position(rules, *p),
    ensures
        r == tab.pid(*p),
        r < tab.np(),
{
    proof {
        lemma_pid(tab, rules, *p);
    }
    let mut i: usize = 0;
    while i < tab.positions.len()
        invariant
            i <= tab.positions.len(),
            tab.wf(rules),
            valid_position(rules, *p),
            0 <= tab.pid(*p) < tab.np(),
            tab.positions@[tab.pid(*p)] == *p,
            forall|j: int| 0 <= j < tab.np() && tab.positions@[j] == *p ==> j == tab.pid(*p),
            i <= tab.pid(*p),
        decreases tab.positions.len() - i,
    {
        if tab.positions[i] == *p {
            return i;
        }
        i = i + 1;
    }
    i
}

} // verus!

verus! {

pub proof fn lemma_lex_lt_trans(a: Position, b: Position, c: Position)
    requires
        lex_lt(a, b),
        lex_lt(b, c),
    ensures
        lex_lt(a, c),
{
}

/// The items of `rules`, in increasing order.
pub fn collect_positions(rules: &Vec<Rule>) -> (r: Vec<Position>)
    ensures
        positions_complete(rules_view(rules@), r@),
{
    let ghost rv = rules_view(rules@);
    let mut out: Vec<Position> = Vec::new();
    let mut r: usize = 0;
    while r < rules.len()
        invariant
            r <= rules.len(),
            rv == rules_view(rules@),
            forall|i: int| 0 <= i < out@.len() ==> valid_position(rv, #[trigger] out@[i]),
            forall|i: int| 0 <= i < out@.len() ==> (#[trigger] out@[i]).rule < r,
            forall|i: int, j: int| 0 <= i < j < out@.len() ==> lex_lt(#[trigger] out@[i], #[trigger] out@[j]),
            forall|p: Position| valid_position(rv, p) && p.rule < r ==> #[trigger] out@.contains(p),
        decreases rules.len() - r,
    {
        let reds = &rules[r].reductends.reductends;
        assert(rv[r as int].reductends == crate::parser::reductends_view(reds@));
        let mut k: usize = 0;
        while k < reds.len()
            invariant
                r < rules.len(),
                k <= reds.len(),
                rv == rules_view(rules@),
                reds == &rules@[r as int].reductends.reductends,
                rv[r as int].reductends.len() == reds@.len(),
                forall|i: int| 0 <= i < out@.len() ==> valid_position(rv, #[trigger] out@[i]),
                forall|i: int| 0 <= i < out@.len() ==> (#[trigger] out@[i]).rule < r || (out@[i].rule == r && out@[i].reductend < k),
                forall|i: int, j: int| 0 <= i < j < out@.len() ==> lex_lt(#[trigger] out@[i], #[trigger] out@[j]),
                forall|p: Position| valid_position(rv, p) && (p.rule < r || (p.rule == r && p.reductend < k)) ==> #[trigger] out@.contains(p),
            decreases reds.len() - k,
        {
            let n = reds[k].components.components.len();
            assert(rv[r as int].reductends[k as int].components.len() == n);
            let mut c: usize = 0;
            while c < n
                invariant
                    r < rules.len(),
                    k < reds.len(),
                    c <= n,
                    rv == rules_view(rules@),
                    rv[r as int].reductends.len() == reds@.len(),
                    rv[r as int].reductends[k as int].components.len() == n,
                    forall|i: int| 0 <= i < out@.len() ==> valid_position(rv, #[trigger] out@[i]),
                    forall|i: int| 0 <= i < out@.len() ==> (#[trigger] out@[i]).rule < r || (out@[i].rule == r && out@[i].reductend < k) || (out@[i].rule == r && out@[i].reductend == k && out@[i].component < c),
                    forall|i: int, j: int| 0 <= i < j < out@.len() ==> lex_lt(#[trigger] out@[i], #[trigger] out@[j]),
                    forall|p: Position| valid_position(rv, p) && (p.rule < r || (p.rule == r && p.reductend < k) || (p.rule == r && p.reductend == k && p.component < c)) ==> #[trigger] out@.contains(p),
                decreases n - c,
            {
                let p = Position { rule: r, reductend: k, component: c };
                let ghost old_out = out@;
                out.push(p);
                proof {
                    assert forall|q: Position| valid_position(rv, q) && (q.rule < r || (q.rule == r && q.reductend < k) || (q.rule == r && q.reductend == k && q.component < c + 1)) implies #[trigger] out@.contains(q) by {
                        if q == p {
                            assert(out@[old_out.len() as int] == p);
                        } else {
                            assert(old_out.contains(q));
                            let i = choose|i: int| 0 <= i < old_out.len() && old_out[i] == q;
                            assert(out@[i] == q);
                        }
                    }
                }
                c = c + 1;
            }
            let p = Position { rule: r, reductend: k, component: n };
            let ghost old_out = out@;
            out.push(p);
            proof {
                assert forall|q: Position| valid_position(rv, q) && (q.rule < r || (q.rule == r && q.reductend < k + 1)) implies #[trigger] out@.contains(q) by {
                    if q == p {
                        assert(out@[old_out.len() as int] == p);
                    } else {
                        assert(old_out.contains(q));
                        let i = choose|i: int| 0 <= i < old_out.len() && old_out[i] == q;
                        assert(out@[i] == q);
                    }
                }
            }
            k = k + 1;
        }
        r = r + 1;
    }
    out
}

/// All tokens of `rules`, `EOF` first, each once.
pub fn collect_grammar_tokens(rules: &Vec<Rule>) -> (r: Vec<Token>)
    ensures
        tokens_complete(rules_view(rules@), tokens_view(r@)),
        tokens_used(rules_view(rules@), tokens_view(r@)),
{
    let ghost rv = rules_view(rules@);
    let mut out: Vec<Token> = Vec::new();
    out.push(Token::EOF);
    let mut r: usize = 0;
    while r < rules.len()
        invariant
            r <= rules.len(),
            rv == rules_view(rules@),
            out@.len() >= 1,
            out@[0]@ == TokenV::EOF,
            tokens_used(rv, tokens_view(out@)),
            forall|i: int, j: int| 0 <= i < j < out@.len() ==> #[trigger] out@[i]@ != #[trigger] out@[j]@,
            forall|p: Position| p.rule < r ==> (#[trigger] event(rv, p) matches EventV::Shift(tv) ==> tokens_view(out@).contains(tv)),
        decreases rules.len() - r,
    {
        let reds = &rules[r].reductends.reductends;
        assert(rv[r as int].reductends == crate::parser::reductends_view(reds@));
        let mut k: usize = 0;
        while k < reds.len()
            invariant
                r < rules.len(),
                k <= reds.len(),
                rv == rules_view(rules@),
                reds == &rules@[r as int].reductends.reductends,
                rv[r as int].reductends.len() == reds@.len(),
                out@.len() >= 1,
                out@[0]@ == TokenV::EOF,
                tokens_used(rv, tokens_view(out@)),
                forall|i: int, j: int| 0 <= i < j < out@.len() ==> #[trigger] out@[i]@ != #[trigger] out@[j]@,
                forall|p: Position| (p.rule < r || (p.rule == r && p.reductend < k)) ==> (#[trigger] event(rv, p) matches EventV::Shift(tv) ==> tokens_view(out@).contains(tv)),
            decreases reds.len() - k,
        {
            let comps = &reds[k].components.components;
            assert(rv[r as int].reductends[k as int].components == components_view(comps@));
            let mut c: usize = 0;
            while c < comps.len()
                invariant
                    r < rules.len(),
                    k < reds.len(),
                    c <= comps.len(),
                    rv == rules_view(rules@),
                    rv[r as int].reductends.len() == reds@.len(),
                    rv[r as int].reductends[k as int].components == components_view(comps@),
                    out@.len() >= 1,
                    out@[0]@ == TokenV::EOF,
                    tokens_used(rv, tokens_view(out@)),
                    forall|i: int, j: int| 0 <= i < j < out@.len() ==> #[trigger] out@[i]@ != #[trigger] out@[j]@,
                    forall|p: Position| (p.rule < r || (p.rule == r && p.reductend < k) || (p.rule == r && p.reductend == k && p.component < c)) ==> (#[trigger] event(rv, p) matches EventV::Shift(tv) ==> tokens_view(out@).contains(tv)),
                decreases comps.len() - c,
            {
                let t = match &comps[c].handle {
                    Component0::Regex(s) => Some(Token::Regex(s.clone())),
                    Component0::Terminal(s) => Some(Token::Terminal(s.clone())),
                    _ => None,
                };
                let ghost p = Position { rule: r, reductend: k, component: c };
                assert(component_at(rv, p) == Some(comps@[c as int]@));
                let ghost old_out = out@;
                match t {
                    Some(t) => {
                        assert(event(rv, p) == EventV::Shift(t@));
                        match token_index(&out, &t) {
                            Some(i) => {
                                assert(tokens_view(out@)[i as int] == t@);
                            },
                            None => {
                                out.push(t);
                                proof {
                                    assert(tokens_view(out@) == tokens_view(old_out).push(out@[old_out.len() as int]@));
                                    assert forall|i: int, j: int| 0 <= i < j < out@.len() implies #[trigger] out@[i]@ != #[trigger] out@[j]@ by {
                                        if j == old_out.len() {
                                            assert(tokens_view(old_out)[i] == old_out[i]@);
                                        }
                                    }
                                    assert(tokens_view(out@)[old_out.len() as int] == t@);
                                    assert forall|i: int| 1 <= i < out@.len() implies exists|q: Position| #[trigger] event(rv, q) == EventV::Shift(#[trigger] tokens_view(out@)[i]) by {
                                        if i < old_out.len() {
                                            assert(tokens_view(out@)[i] == tokens_view(old_out)[i]);
                                        } else {
                                            assert(event(rv, p) == EventV::Shift(tokens_view(out@)[i]));
                                        }
                                    }
                                }
                            },
                        }
                    },
                    None => {},
                }
                proof {
                    assert forall|q: Position| (q.rule < r || (q.rule == r && q.reductend < k) || (q.rule == r && q.reductend == k && q.component < c + 1)) implies (#[trigger] event(rv, q) matches EventV::Shift(tv) ==> tokens_view(out@).contains(tv)) by {
                        if let EventV::Shift(tv) = event(rv, q) {
                            if q == p {
                                assert(tokens_view(out@).contains(tv));
                            } else {
                                assert(tokens_view(old_out).contains(tv));
                                let i = choose|i: int| 0 <= i < old_out.len() && tokens_view(old_out)[i] == tv;
                                assert(tokens_view(out@)[i] == tv);
                            }
                        }
                    }
                }
                c = c + 1;
            }
            proof {
                assert forall|q: Position| (q.rule < r || (q.rule == r && q.reductend < k + 1)) implies (#[trigger] event(rv, q) matches EventV::Shift(tv) ==> tokens_view(out@).contains(tv)) by {
                    if q.rule == r && q.reductend == k && q.component >= c {
                        assert(component_at(rv, q) is None);
                    }
                }
            }
            k = k + 1;
        }
        proof {
            assert forall|q: Position| q.rule < r + 1 implies (#[trigger] event(rv, q) matches EventV::Shift(tv) ==> tokens_view(out@).contains(tv)) by {
                if q.rule == r && q.reductend >= k {
                    assert(component_at(rv, q) is None);
                }
            }
        }
        r = r + 1;
    }
    proof {
        assert forall|q: Position| (#[trigger] event(rv, q) matches EventV::Shift(tv) ==> tokens_view(out@).contains(tv)) by {
            if q.rule >= r {
                assert(component_at(rv, q) is None);
            }
        }
    }
    out
}

} // verus!

verus! {

// ---------------------------------------------------------------------------
// Counting unset flags

pub open spec fn count_false(s: Seq<bool>) -> nat
    decreases s.len(),
{
    if s.len() == 0 {
        0
    } else {
        count_false(s.drop_last()) + if s.last() {
            0nat
        } else {
            1nat
        }
    }
}

pub proof fn lemma_count_false_set(s: Seq<bool>, i: int)
    requires
        0 <= i < s.len(),
        !s[i],
    ensures
        count_false(s.update(i, true)) + 1 == count_false(s),
    decreases s.len(),
{
    if i == s.len() - 1 {
        assert(s.update(i, true).drop_last() =~= s.drop_last());
    } else {
        assert(s.update(i, true).drop_last() =~= s.drop_last().update(i, true));
        lemma_count_false_set(s.drop_last(), i);
    }
}

// ---------------------------------------------------------------------------
// The tokens that can begin what follows the dot of an item

pub open spec fn nred(rules: Seq<RuleV>, ri: int) -> int {
    rules[ri].reductends.len() as int
}

pub open spec fn start_pos(ri: int, k: int) -> Position {
    Position { rule: ri as usize, reductend: k as usize, component: 0 }
}

/// The rule that an item refers to after its dot, where it refers to a defined one.
pub open spec fn rule_target(rules: Seq<RuleV>, e: EventV) -> Option<int> {
    match e {
        EventV::Rule(n) => find_rule(rules, n),
        _ => None,
    }
}

/// `v` holds the rules that the item `q` refers to and is closed under the
/// rules that begin the reductends of its members.
pub open spec fn first_closed(rules: Seq<RuleV>, q: Position, v: Set<int>) -> bool {
    &&& (rule_target(rules, event(rules, q)) matches Some(ri) ==> v.contains(ri))
    &&& forall|ri: int, k: int|
        #![trigger v.contains(ri), event(rules, start_pos(ri, k))]
        v.contains(ri) && 0 <= ri < rules.len() && 0 <= k < nred(rules, ri) ==> (rule_target(
            rules,
            event(rules, start_pos(ri, k)),
        ) matches Some(rj) ==> v.contains(rj))
}

/// The rule `ri` can begin what follows the dot of `q`.
pub open spec fn first_reaches(rules: Seq<RuleV>, q: Position, ri: int) -> bool {
    forall|v: Set<int>| #[trigger] first_closed(rules, q, v) ==> v.contains(ri)
}

/// The token `tv` can begin what follows the dot of `q`.
pub open spec fn in_first(rules: Seq<RuleV>, q: Position, tv: TokenV) -> bool {
    ||| event(rules, q) == EventV::Shift(tv)
    ||| exists|ri: int, k: int|
        #![trigger first_reaches(rules, q, ri), event(rules, start_pos(ri, k))]
        first_reaches(rules, q, ri) && 0 <= ri < rules.len() && 0 <= k < nred(rules, ri) && event(
            rules,
            start_pos(ri, k),
        ) == EventV::Shift(tv)
}

/// Computing what can begin what follows the dot of `q` meets no wildcard
/// and no undefined rule.
pub open spec fn first_clean(rules: Seq<RuleV>, q: Position) -> bool {
    &&& event_clean(rules, event(rules, q))
    &&& forall|ri: int, k: int|
        #![trigger first_reaches(rules, q, ri), event(rules, start_pos(ri, k))]
        first_reaches(rules, q, ri) && 0 <= ri < rules.len() && 0 <= k < nred(rules, ri)
            ==> event_clean(rules, event(rules, start_pos(ri, k)))
}

/// Computing what can begin what follows the dot of `q` meets an event on
/// which it fails with `e`.
pub open spec fn first_fault(rules: Seq<RuleV>, q: Position, e: Error) -> bool {
    ||| event_fault(rules, event(rules, q), e)
    ||| exists|ri: int, k: int|
        #![trigger first_reaches(rules, q, ri), event(rules, start_pos(ri, k))]
        first_reaches(rules, q, ri) && 0 <= ri < rules.len() && 0 <= k < nred(rules, ri)
            && event_fault(rules, event(rules, start_pos(ri, k)), e)
}

pub proof fn lemma_rule_target_range(rules: Seq<RuleV>, e: EventV)
    ensures
        rule_target(rules, e) matches Some(ri) ==> 0 <= ri < rules.len() && rules[ri].identifier
            == e->Rule_0,
{
    if let EventV::Rule(n) = e {
        lemma_find_rule(rules, n);
    }
}

/// The index of a token of the grammar in the table.
pub fn token_id(tab: &ItemTable, t: &Token, Ghost(rules): Ghost<Seq<RuleV>>) -> (r: usize)
    requires
        tab.wf(rules),
        tokens_view(tab.tokens@).contains(t@),
    ensures
        r == tab.tid(t@),
        r < tab.nt(),
{
    proof {
        lemma_tid(tab, rules, t@);
    }
    match token_index(&tab.tokens, t) {
        Some(i) => i,
        None => 0,
    }
}

/// The rule named `name`.
pub fn resolve(rules: &Vec<Rule>, name: &String) -> (r: Result<usize, Error>)
    ensures
        match find_rule(rules_view(rules@), name@) {
            Some(i) => r == Ok::<usize, Error>(i as usize) && i < rules@.len(),
            None => r matches Err(Error::Error(m)) && m@ == missing_rule_message(name@),
        },
{
    proof {
        lemma_find_rule(rules_view(rules@), name@);
    }
    Position::rule_index(rules, name.as_str())
}

/// The first rule index at or after `from` that is marked in `a` and not in `b`.
pub fn find_pending(a: &Vec<bool>, b: &Vec<bool>) -> (r: Option<usize>)
    requires
        a@.len() == b@.len(),
    ensures
        match r {
            Some(i) => i < a@.len() && a@[i as int] && !b@[i as int],
            None => forall|i: int| 0 <= i < a@.len() && #[trigger] a@[i] ==> b@[i],
        },
{
    let mut i: usize = 0;
    while i < a.len()
        invariant
            i <= a@.len(),
            a@.len() == b@.len(),
            forall|j: int| 0 <= j < i && #[trigger] a@[j] ==> b@[j],
        decreases a@.len() - i,
    {
        if a[i] && !b[i] {
            return Some(i);
        }
        i = i + 1;
    }
    None
}

/// The tokens that can begin what follows the dot of `q`, as flags over the
/// token table, with the first failure met on the way, if any: a wildcard or
/// a rule that the grammar does not define. The walk goes on past a failure.
fn first_tokens(rules: &Vec<Rule>, tab: &ItemTable, q: &Position) -> (r: (Vec<bool>, Option<Error>))
    requires
        tab.wf(rules_view(rules@)),
    ensures
        r.0@.len() == tab.nt(),
        forall|u: int|
            0 <= u < tab.nt() ==> (#[trigger] r.0@[u] <==> in_first(rules_view(rules@), *q, tab.tokens@[u]@)),
        match r.1 {
            Some(e) => first_fault(rules_view(rules@), *q, e),
            None => first_clean(rules_view(rules@), *q),
        },
{
    let ghost rv = rules_view(rules@);
    let nr = rules.len();
    let nt = tab.tokens.len();
    let mut visited: Vec<bool> = vec![false; nr];
    let mut done: Vec<bool> = vec![false; nr];
    let mut f: Vec<bool> = vec![false; nt];
    let mut fault: Option<Error> = None;
    proof {
        lemma_rule_target_range(rv, event(rv, *q));
    }
    match next_event(q, rules) {
        Event::Shift(t) => {
            let u = token_id(tab, &t, Ghost(rv));
            f.set(u, true);
        },
        Event::Rule(n) => {
            match resolve(rules, &n) {
                Ok(ri) => {
                    proof {
                        assert forall|v: Set<int>| #[trigger] first_closed(rv, *q, v) implies v.contains(ri as int) by {}
                    }
                    visited.set(ri, true);
                },
                Err(e) => {
                    fault = Some(e);
                },
            }
        },
        Event::Reduce => {},
        Event::Wild => {
            fault = Some(Error::Error(String::from_str("Not implemented!")));
        },
    }
    loop
        invariant
            rv == rules_view(rules@),
            tab.wf(rv),
            nr == rv.len(),
            nt == tab.nt(),
            visited@.len() == nr,
            done@.len() == nr,
            f@.len() == nt,
            forall|ri: int| 0 <= ri < nr && #[trigger] done@[ri] ==> visited@[ri],
            forall|ri: int| 0 <= ri < nr && #[trigger] visited@[ri] ==> first_reaches(rv, *q, ri),
            forall|u: int| 0 <= u < nt && #[trigger] f@[u] ==> in_first(rv, *q, tab.tokens@[u]@),
            rule_target(rv, event(rv, *q)) matches Some(ri) ==> 0 <= ri < nr && visited@[ri],
            event(rv, *q) matches EventV::Shift(tv) ==> f@[tab.tid(tv)],
            fault matches Some(e) ==> first_fault(rv, *q, e),
            fault is None ==> event_clean(rv, event(rv, *q)),
            forall|ri: int, k: int|
                #![trigger done@[ri], event(rv, start_pos(ri, k))]
                0 <= ri < nr && done@[ri] && 0 <= k < nred(rv, ri)
                    ==> (event(rv, start_pos(ri, k)) matches EventV::Shift(tv) ==> f@[tab.tid(tv)])
                    && (rule_target(rv, event(rv, start_pos(ri, k))) matches Some(rj)
                    ==> 0 <= rj < nr && visited@[rj])
                    && (fault is None ==> event_clean(rv, event(rv, start_pos(ri, k)))),
        ensures
            forall|i: int| 0 <= i < nr && #[trigger] visited@[i] ==> done@[i],
        decreases count_false(visited@) + count_false(done@),
    {
        let ri = match find_pending(&visited, &done) {
            Some(ri) => ri,
            None => break,
        };
        let ghost m0 = count_false(visited@) + count_false(done@);
        let reds = &rules[ri].reductends.reductends;
        let ghost nk = nred(rv, ri as int);
        assert(nk == reds@.len());
        let mut k: usize = 0;
        while k < reds.len()
            invariant
                rv == rules_view(rules@),
                tab.wf(rv),
                nr == rv.len(),
                nt == tab.nt(),
                ri < nr,
                visited@[ri as int],
                !done@[ri as int],
                k <= reds@.len(),
                nk == reds@.len(),
                reds == &rules@[ri as int].reductends.reductends,
                visited@.len() == nr,
                done@.len() == nr,
                f@.len() == nt,
                count_false(visited@) + count_false(done@) <= m0,
                forall|r2: int| 0 <= r2 < nr && #[trigger] done@[r2] ==> visited@[r2],
                forall|r2: int| 0 <= r2 < nr && #[trigger] visited@[r2] ==> first_reaches(rv, *q, r2),
                forall|u: int| 0 <= u < nt && #[trigger] f@[u] ==> in_first(rv, *q, tab.tokens@[u]@),
                rule_target(rv, event(rv, *q)) matches Some(r2) ==> 0 <= r2 < nr && visited@[r2],
                event(rv, *q) matches EventV::Shift(tv) ==> f@[tab.tid(tv)],
                fault matches Some(e) ==> first_fault(rv, *q, e),
                fault is None ==> event_clean(rv, event(rv, *q)),
                forall|r2: int, k2: int|
                    #![trigger done@[r2], event(rv, start_pos(r2, k2))]
                    0 <= r2 < nr && done@[r2] && 0 <= k2 < nred(rv, r2)
                        ==> (event(rv, start_pos(r2, k2)) matches EventV::Shift(tv) ==> f@[tab.tid(tv)])
                        && (rule_target(rv, event(rv, start_pos(r2, k2))) matches Some(rj)
                        ==> 0 <= rj < nr && visited@[rj])
                        && (fault is None ==> event_clean(rv, event(rv, start_pos(r2, k2)))),
                forall|k2: int|
                    #![trigger event(rv, start_pos(ri as int, k2))]
                    0 <= k2 < k ==> (event(rv, start_pos(ri as int, k2)) matches EventV::Shift(tv) ==> f@[tab.tid(tv)])
                        && (rule_target(rv, event(rv, start_pos(ri as int, k2))) matches Some(rj)
                        ==> 0 <= rj < nr && visited@[rj])
                        && (fault is None ==> event_clean(rv, event(rv, start_pos(ri as int, k2)))),
            decreases reds@.len() - k,
        {
            let sp = Position { rule: ri, reductend: k, component: 0 };
            assert(sp == start_pos(ri as int, k as int));
            proof {
                lemma_rule_target_range(rv, event(rv, sp));
            }
            match next_event(&sp, rules) {
                Event::Shift(t) => {
                    proof {
                        assert(tokens_view(tab.tokens@).contains(t@));
                    }
                    let u = token_id(tab, &t, Ghost(rv));
                    proof {
                        lemma_tid(tab, rv, t@);
                        assert(in_first(rv, *q, tab.tokens@[u as int]@)) by {
                            assert(first_reaches(rv, *q, ri as int));
                            assert(event(rv, start_pos(ri as int, k as int)) == EventV::Shift(tab.tokens@[u as int]@));
                        }
                    }
                    f.set(u, true);
                },
                Event::Rule(n) => {
                    match resolve(rules, &n) {
                        Ok(rj) => {
                            if !visited[rj] {
                                proof {
                                    assert forall|v: Set<int>| #[trigger] first_closed(rv, *q, v) implies v.contains(rj as int) by {
                                        assert(v.contains(ri as int));
                                        assert(rule_target(rv, event(rv, start_pos(ri as int, k as int))) == Some(rj as int));
                                    }
                                    lemma_count_false_set(visited@, rj as int);
                                }
                                visited.set(rj, true);
                            }
                        },
                        Err(e) => {
                            if fault.is_none() {
                                proof {
                                    assert(first_reaches(rv, *q, ri as int));
                                    assert(event_fault(rv, event(rv, start_pos(ri as int, k as int)), e));
                                }
                                fault = Some(e);
                            }
                        },
                    }
                },
                Event::Reduce => {},
                Event::Wild => {
                    if fault.is_none() {
                        let e = Error::Error(String::from_str("Not implemented!"));
                        proof {
                            assert(first_reaches(rv, *q, ri as int));
                            assert(event_fault(rv, event(rv, start_pos(ri as int, k as int)), e));
                        }
                        fault = Some(e);
                    }
                },
            }
            k = k + 1;
        }
        proof {
            lemma_count_false_set(done@, ri as int);
        }
        done.set(ri, true);
    }
    proof {
        let vset = Set::new(|r2: int| 0 <= r2 < nr && visited@[r2]);
        assert(first_closed(rv, *q, vset)) by {
            assert forall|r2: int, k2: int|
                #![trigger vset.contains(r2), event(rv, start_pos(r2, k2))]
                vset.contains(r2) && 0 <= r2 < rv.len() && 0 <= k2 < nred(rv, r2) implies (rule_target(
                    rv,
                    event(rv, start_pos(r2, k2)),
                ) matches Some(rj) ==> vset.contains(rj)) by {
                assert(visited@[r2]);
                assert(done@[r2]);
            }
        }
        assert forall|u: int| 0 <= u < nt implies (#[trigger] f@[u] <==> in_first(rv, *q, tab.tokens@[u]@)) by {
            if in_first(rv, *q, tab.tokens@[u]@) {
                lemma_tid(tab, rv, tab.tokens@[u]@);
                assert(tokens_view(tab.tokens@)[u] == tab.tokens@[u]@);
                if event(rv, *q) == EventV::Shift(tab.tokens@[u]@) {
                } else {
                    let (r2, k2) = choose|r2: int, k2: int|
                        #![trigger first_reaches(rv, *q, r2), event(rv, start_pos(r2, k2))]
                        first_reaches(rv, *q, r2) && 0 <= r2 < rv.len() && 0 <= k2 < nred(rv, r2) && event(
                            rv,
                            start_pos(r2, k2),
                        ) == EventV::Shift(tab.tokens@[u]@);
                    assert(vset.contains(r2));
                    assert(visited@[r2]);
                    assert(done@[r2]);
                }
            }
        }
        if fault is None {
            assert forall|r2: int, k2: int|
                #![trigger first_reaches(rv, *q, r2), event(rv, start_pos(r2, k2))]
                first_reaches(rv, *q, r2) && 0 <= r2 < rv.len() && 0 <= k2 < nred(rv, r2)
                    implies event_clean(rv, event(rv, start_pos(r2, k2))) by {
                assert(vset.contains(r2));
                assert(visited@[r2]);
                assert(done@[r2]);
            }
        }
    }
    (f, fault)
}

/// The tokens that can begin what follows the dot of `q`, as flags over the
/// token table. Fails where the way there meets a wildcard or a rule that the
/// grammar does not define.
pub fn collect_tokens(rules: &Vec<Rule>, tab: &ItemTable, q: &Position) -> (r: Result<Vec<bool>, Error>)
    requires
        tab.wf(rules_view(rules@)),
    ensures
        match r {
            Ok(f) => first_clean(rules_view(rules@), *q) && f@.len() == tab.nt() && forall|u: int|
                0 <= u < tab.nt() ==> (#[trigger] f@[u] <==> in_first(rules_view(rules@), *q, tab.tokens@[u]@)),
            Err(e) => first_fault(rules_view(rules@), *q, e),
        },
{
    let (f, fault) = first_tokens(rules, tab, q);
    match fault {
        Some(e) => Err(e),
        None => Ok(f),
    }
}

} // verus!

verus! {

// ---------------------------------------------------------------------------
// State heads: the items of a state with their lookahead tokens

/// The items of a state: `present[i]` marks the item `i` of the table,
/// `lookahead[i][u]` marks the token `u` in its lookahead set.
pub struct StateHead {
    pub present: Vec<bool>,
    pub lookahead: Vec<Vec<bool>>,
}

pub struct HeadV {
    pub present: Seq<bool>,
    pub lookahead: Seq<Seq<bool>>,
}

pub open spec fn rows_view(v: Seq<Vec<bool>>) -> Seq<Seq<bool>> {
    v.map_values(|r: Vec<bool>| r@)
}

impl View for StateHead {
    type V = HeadV;

    open spec fn view(&self) -> HeadV {
        HeadV { present: self.present@, lookahead: rows_view(self.lookahead@) }
    }
}

/// `rows` has `np` rows of `nt` flags each.
pub open spec fn rows_shaped(rows: Seq<Seq<bool>>, np: int, nt: int) -> bool {
    &&& rows.len() == np
    &&& forall|i: int| 0 <= i < np ==> (#[trigger] rows[i]).len() == nt
}

/// The unset flags of all rows.
pub open spec fn count_false2(rows: Seq<Seq<bool>>) -> nat
    decreases rows.len(),
{
    if rows.len() == 0 {
        0
    } else {
        count_false2(rows.drop_last()) + count_false(rows.last())
    }
}

pub proof fn lemma_count_false2_set(rows: Seq<Seq<bool>>, i: int, u: int)
    requires
        0 <= i < rows.len(),
        0 <= u < rows[i].len(),
    ensures
        count_false2(rows.update(i, rows[i].update(u, true))) <= count_false2(rows),
        !rows[i][u] ==> count_false2(rows.update(i, rows[i].update(u, true))) + 1 == count_false2(rows),
    decreases rows.len(),
{
    let r2 = rows.update(i, rows[i].update(u, true));
    if i == rows.len() - 1 {
        assert(r2.drop_last() =~= rows.drop_last());
        if rows[i][u] {
            assert(rows[i].update(u, true) =~= rows[i]);
        } else {
            lemma_count_false_set(rows[i], u);
        }
    } else {
        assert(r2.drop_last() =~= rows.drop_last().update(i, rows[i].update(u, true)));
        lemma_count_false2_set(rows.drop_last(), i, u);
    }
}

/// `np` rows of `nt` unset flags.
pub fn new_rows(np: usize, nt: usize) -> (r: Vec<Vec<bool>>)
    ensures
        rows_shaped(rows_view(r@), np as int, nt as int),
        forall|i: int, u: int| 0 <= i < np && 0 <= u < nt ==> !(#[trigger] rows_view(r@)[i][u]),
{
    let mut r: Vec<Vec<bool>> = Vec::new();
    let mut i: usize = 0;
    while i < np
        invariant
            i <= np,
            rows_shaped(rows_view(r@), i as int, nt as int),
            forall|i2: int, u: int| 0 <= i2 < i && 0 <= u < nt ==> !(#[trigger] rows_view(r@)[i2][u]),
        decreases np - i,
    {
        let row: Vec<bool> = vec![false; nt];
        let ghost r0 = rows_view(r@);
        r.push(row);
        proof {
            assert(rows_view(r@) =~= r0.push(row@));
        }
        i = i + 1;
    }
    r
}

/// Copies the rows of flags.
pub fn copy_rows(v: &Vec<Vec<bool>>) -> (r: Vec<Vec<bool>>)
    ensures
        rows_view(r@) == rows_view(v@),
{
    let mut r: Vec<Vec<bool>> = Vec::new();
    let mut i: usize = 0;
    while i < v.len()
        invariant
            i <= v@.len(),
            rows_view(r@) == rows_view(v@).take(i as int),
        decreases v@.len() - i,
    {
        let row = copy_flags(&v[i]);
        let ghost r0 = rows_view(r@);
        r.push(row);
        proof {
            assert(rows_view(r@) =~= r0.push(row@));
            assert(rows_view(v@).take(i + 1) =~= rows_view(v@).take(i as int).push(v@[i as int]@));
        }
        i = i + 1;
    }
    proof {
        assert(rows_view(v@).take(i as int) =~= rows_view(v@));
    }
    r
}

/// Sets the flag in row `i` and column `u`.
pub fn set_cell(v: &mut Vec<Vec<bool>>, i: usize, u: usize)
    requires
        i < old(v)@.len(),
        u < old(v)@[i as int]@.len(),
    ensures
        rows_view(final(v)@) == rows_view(old(v)@).update(i as int, rows_view(old(v)@)[i as int].update(u as int, true)),
        count_false2(rows_view(final(v)@)) <= count_false2(rows_view(old(v)@)),
        !rows_view(old(v)@)[i as int][u as int] ==> count_false2(rows_view(final(v)@)) + 1 == count_false2(
            rows_view(old(v)@),
        ),
{
    let ghost r0 = rows_view(v@);
    proof {
        lemma_count_false2_set(r0, i as int, u as int);
    }
    let mut row = copy_flags(&v[i]);
    set_flag(&mut row, u);
    v.set(i, row);
    proof {
        assert(rows_view(v@) =~= r0.update(i as int, r0[i as int].update(u as int, true)));
    }
}

/// A cell set in `a` and not in `b`, where there is one.
pub fn find_pending2(a: &Vec<Vec<bool>>, b: &Vec<Vec<bool>>) -> (r: Option<(usize, usize)>)
    requires
        a@.len() == b@.len(),
        forall|i: int| 0 <= i < a@.len() ==> (#[trigger] a@[i])@.len() == b@[i]@.len(),
    ensures
        match r {
            Some((i, u)) => i < a@.len() && u < a@[i as int]@.len() && rows_view(a@)[i as int][u as int]
                && !rows_view(b@)[i as int][u as int],
            None => forall|i: int, u: int|
                0 <= i < a@.len() && 0 <= u < a@[i]@.len() && #[trigger] rows_view(a@)[i][u] ==> rows_view(b@)[i][u],
        },
{
    let mut i: usize = 0;
    while i < a.len()
        invariant
            i <= a@.len(),
            a@.len() == b@.len(),
            forall|i: int| 0 <= i < a@.len() ==> (#[trigger] a@[i])@.len() == b@[i]@.len(),
            forall|i2: int, u: int|
                0 <= i2 < i && 0 <= u < a@[i2]@.len() && #[trigger] rows_view(a@)[i2][u] ==> rows_view(b@)[i2][u],
        decreases a@.len() - i,
    {
        match find_pending(&a[i], &b[i]) {
            Some(u) => {
                return Some((i, u));
            },
            None => {},
        }
        i = i + 1;
    }
    None
}

/// Whether two rows of flags are equal.
pub fn same_rows(a: &Vec<Vec<bool>>, b: &Vec<Vec<bool>>) -> (r: bool)
    ensures
        r == (rows_view(a@) == rows_view(b@)),
{
    if a.len() != b.len() {
        proof {
            assert(rows_view(a@).len() != rows_view(b@).len());
        }
        return false;
    }
    let mut i: usize = 0;
    while i < a.len()
        invariant
            i <= a@.len(),
            a@.len() == b@.len(),
            forall|j: int| 0 <= j < i ==> rows_view(a@)[j] == rows_view(b@)[j],
        decreases a@.len() - i,
    {
        if !same_flags(&a[i], &b[i]) {
            proof {
                assert(rows_view(a@)[i as int] != rows_view(b@)[i as int]);
            }
            return false;
        }
        i = i + 1;
    }
    proof {
        assert(rows_view(a@) =~= rows_view(b@));
    }
    true
}

pub open spec fn la(h: HeadV, nt: int, i: int, u: int) -> bool {
    h.lookahead[i][u]
}

impl ItemTable {
    pub open spec fn hwf(&self, h: HeadV) -> bool {
        &&& h.present.len() == self.np()
        &&& rows_shaped(h.lookahead, self.np(), self.nt())
        &&& forall|i: int, u: int|
            0 <= i < self.np() && 0 <= u < self.nt() && #[trigger] la(h, self.nt(), i, u) ==> h.present[i]
    }

    /// `big` holds every item and lookahead token of `small`.
    pub open spec fn includes(&self, big: HeadV, small: HeadV) -> bool {
        &&& forall|i: int| 0 <= i < self.np() && #[trigger] small.present[i] ==> big.present[i]
        &&& forall|i: int, u: int|
            0 <= i < self.np() && 0 <= u < self.nt() && #[trigger] la(small, self.nt(), i, u) ==> la(
                big,
                self.nt(),
                i,
                u,
            )
    }
}

pub open spec fn next_pos(p: Position) -> Position {
    Position { component: (p.component + 1) as usize, ..p }
}

/// The reductend `k` of the rule `ri` begins an item of `h` whose lookahead
/// holds what can follow the dot of `p`, and `u` where nothing follows in `p`'s reductend.
pub open spec fn start_ok(
    rules: Seq<RuleV>,
    tab: &ItemTable,
    h: HeadV,
    p: Position,
    u: int,
    ri: int,
    k: int,
) -> bool {
    &&& h.present[tab.pid(start_pos(ri, k))]
    &&& forall|w: int|
        #![trigger la(h, tab.nt(), tab.pid(start_pos(ri, k)), w)]
        0 <= w < tab.nt() && in_first(rules, next_pos(p), tab.tokens@[w]@) ==> la(
            h,
            tab.nt(),
            tab.pid(start_pos(ri, k)),
            w,
        )
    &&& (event(rules, next_pos(p)) is Reduce ==> la(h, tab.nt(), tab.pid(start_pos(ri, k)), u))
}

/// The closure obligation of the item `i` with lookahead token `u`: every
/// reductend of the rule after its dot begins an item of `h`, whose lookahead
/// holds what can follow that rule.
pub open spec fn prop_ok(rules: Seq<RuleV>, tab: &ItemTable, h: HeadV, i: int, u: int) -> bool {
    forall|ri: int, k: int|
        rule_target(rules, event(rules, tab.positions@[i])) == Some(ri) && 0 <= k < nred(rules, ri)
            ==> #[trigger] start_ok(rules, tab, h, tab.positions@[i], u, ri, k)
}

pub open spec fn closed(rules: Seq<RuleV>, tab: &ItemTable, h: HeadV) -> bool {
    forall|i: int, u: int|
        0 <= i < tab.np() && 0 <= u < tab.nt() && #[trigger] la(h, tab.nt(), i, u) ==> prop_ok(
            rules,
            tab,
            h,
            i,
            u,
        )
}

/// Every closed head that holds `kernel` holds the lookahead token `u` of item `i`.
pub open spec fn closure_has(rules: Seq<RuleV>, tab: &ItemTable, kernel: HeadV, i: int, u: int) -> bool {
    forall|h: HeadV|
        #![trigger tab.includes(h, kernel), la(h, tab.nt(), i, u)]
        tab.hwf(h) && tab.includes(h, kernel) && closed(rules, tab, h) ==> la(h, tab.nt(), i, u)
}

/// Every closed head that holds `kernel` holds the item `i`.
pub open spec fn closure_has_item(rules: Seq<RuleV>, tab: &ItemTable, kernel: HeadV, i: int) -> bool {
    forall|h: HeadV|
        #![trigger tab.includes(h, kernel), h.present[i]]
        tab.hwf(h) && tab.includes(h, kernel) && closed(rules, tab, h) ==> h.present[i]
}

/// `h` is the least closed head that holds `kernel`.
pub open spec fn is_closure(rules: Seq<RuleV>, tab: &ItemTable, kernel: HeadV, h: HeadV) -> bool {
    &&& tab.hwf(h)
    &&& forall|i: int| 0 <= i < tab.np() ==> (#[trigger] h.present[i] <==> closure_has_item(rules, tab, kernel, i))
    &&& forall|i: int, u: int|
        0 <= i < tab.np() && 0 <= u < tab.nt() ==> (#[trigger] la(h, tab.nt(), i, u) <==> closure_has(
            rules,
            tab,
            kernel,
            i,
            u,
        ))
}

/// Item `i` of `h` has some lookahead token.
pub open spec fn has_la(h: HeadV, nt: int, i: int) -> bool {
    exists|u: int| 0 <= u < nt && #[trigger] la(h, nt, i, u)
}

/// The construction can handle item `i` of `h`: what follows its dot is no
/// wildcard and no undefined rule, and where it is a rule and the item has
/// lookahead, the same holds of all that can begin what comes after that rule.
pub open spec fn item_clean(rules: Seq<RuleV>, tab: &ItemTable, h: HeadV, i: int) -> bool {
    h.present[i] ==> {
        let p = tab.positions@[i];
        &&& event_clean(rules, event(rules, p))
        &&& (event(rules, p) is Rule && has_la(h, tab.nt(), i)) ==> first_clean(rules, next_pos(p))
    }
}

/// The construction can handle every item of `h`.
pub open spec fn head_clean(rules: Seq<RuleV>, tab: &ItemTable, h: HeadV) -> bool {
    forall|i: int| 0 <= i < tab.np() ==> #[trigger] item_clean(rules, tab, h, i)
}

/// The construction fails with `e` on the item `i` of `h`.
pub open spec fn item_fault(rules: Seq<RuleV>, tab: &ItemTable, h: HeadV, i: int, e: Error) -> bool {
    let p = tab.positions@[i];
    &&& h.present[i]
    &&& {
        ||| event_fault(rules, event(rules, p), e)
        ||| (event(rules, p) is Rule && has_la(h, tab.nt(), i) && first_fault(rules, next_pos(p), e))
    }
}

/// The construction fails with `e` on some item of `h`.
pub open spec fn head_fault(rules: Seq<RuleV>, tab: &ItemTable, h: HeadV, e: Error) -> bool {
    exists|i: int| 0 <= i < tab.np() && #[trigger] item_fault(rules, tab, h, i, e)
}

pub proof fn lemma_fault_not_clean(rules: Seq<RuleV>, tab: &ItemTable, h: HeadV, e: Error)
    requires
        head_fault(rules, tab, h, e),
    ensures
        !head_clean(rules, tab, h),
{
    let i = choose|i: int| 0 <= i < tab.np() && #[trigger] item_fault(rules, tab, h, i, e);
    let p = tab.positions@[i];
    if !event_fault(rules, event(rules, p), e) && event_clean(rules, event(rules, p)) {
        let q = next_pos(p);
        if !event_fault(rules, event(rules, q), e) {
            let (ri, k) = choose|ri: int, k: int|
                #![trigger first_reaches(rules, q, ri), event(rules, start_pos(ri, k))]
                first_reaches(rules, q, ri) && 0 <= ri < rules.len() && 0 <= k < nred(rules, ri)
                    && event_fault(rules, event(rules, start_pos(ri, k)), e);
            assert(!first_clean(rules, q));
        }
    }
    assert(!item_clean(rules, tab, h, i));
}

pub proof fn lemma_start_ok_mono(
    rules: Seq<RuleV>,
    tab: &ItemTable,
    h: HeadV,
    h2: HeadV,
    p: Position,
    u: int,
    ri: int,
    k: int,
)
    requires
        tab.wf(rules),
        0 <= ri < rules.len(),
        0 <= k < nred(rules, ri),
        0 <= u < tab.nt(),
        tab.includes(h2, h),
        start_ok(rules, tab, h, p, u, ri, k),
    ensures
        start_ok(rules, tab, h2, p, u, ri, k),
{
    let j = tab.pid(start_pos(ri, k));
    assert(valid_position(rules, start_pos(ri, k)));
    lemma_pid(tab, rules, start_pos(ri, k));
    assert(h.present[j]);
    assert forall|w: int|
        #![trigger la(h2, tab.nt(), tab.pid(start_pos(ri, k)), w)]
        0 <= w < tab.nt() && in_first(rules, next_pos(p), tab.tokens@[w]@) implies la(
            h2,
            tab.nt(),
            tab.pid(start_pos(ri, k)),
            w,
        ) by {
        assert(la(h, tab.nt(), j, w));
    }
    if event(rules, next_pos(p)) is Reduce {
        assert(la(h, tab.nt(), j, u));
    }
}

pub proof fn lemma_prop_ok_mono(rules: Seq<RuleV>, tab: &ItemTable, h: HeadV, h2: HeadV, i: int, u: int)
    requires
        tab.wf(rules),
        0 <= i < tab.np(),
        0 <= u < tab.nt(),
        tab.includes(h2, h),
        prop_ok(rules, tab, h, i, u),
    ensures
        prop_ok(rules, tab, h2, i, u),
{
    let p = tab.positions@[i];
    lemma_rule_target_range(rules, event(rules, p));
    assert forall|ri: int, k: int|
        rule_target(rules, event(rules, p)) == Some(ri) && 0 <= k < nred(rules, ri) implies #[trigger] start_ok(
        rules,
        tab,
        h2,
        p,
        u,
        ri,
        k,
    ) by {
        assert(start_ok(rules, tab, h, p, u, ri, k));
        lemma_start_ok_mono(rules, tab, h, h2, p, u, ri, k);
    }
}

/// A closure holds its kernel and is closed.
pub proof fn lemma_closure_closed(rules: Seq<RuleV>, tab: &ItemTable, kernel: HeadV, h: HeadV)
    requires
        tab.wf(rules),
        is_closure(rules, tab, kernel, h),
    ensures
        tab.includes(h, kernel),
        closed(rules, tab, h),
{
    assert forall|i: int| 0 <= i < tab.np() && #[trigger] kernel.present[i] implies h.present[i] by {
        assert(closure_has_item(rules, tab, kernel, i));
    }
    assert forall|i: int, u: int|
        0 <= i < tab.np() && 0 <= u < tab.nt() && #[trigger] la(kernel, tab.nt(), i, u) implies la(h, tab.nt(), i, u) by {
        assert(closure_has(rules, tab, kernel, i, u));
    }
    assert forall|i: int, u: int|
        0 <= i < tab.np() && 0 <= u < tab.nt() && #[trigger] la(h, tab.nt(), i, u) implies prop_ok(rules, tab, h, i, u) by {
        assert(closure_has(rules, tab, kernel, i, u));
        let p = tab.positions@[i];
        assert forall|ri: int, k: int|
            rule_target(rules, event(rules, p)) == Some(ri) && 0 <= k < nred(rules, ri) implies #[trigger] start_ok(
            rules,
            tab,
            h,
            p,
            u,
            ri,
            k,
        ) by {
            let sp = start_pos(ri, k);
            lemma_rule_target_range(rules, event(rules, p));
            assert(valid_position(rules, sp));
            lemma_pid(tab, rules, sp);
            let j = tab.pid(sp);
            assert(closure_has_item(rules, tab, kernel, j)) by {
                assert forall|hh: HeadV|
                    #![trigger tab.includes(hh, kernel), hh.present[j]]
                    tab.hwf(hh) && tab.includes(hh, kernel) && closed(rules, tab, hh) implies hh.present[j] by {
                    assert(la(hh, tab.nt(), i, u));
                    assert(prop_ok(rules, tab, hh, i, u));
                    assert(start_ok(rules, tab, hh, p, u, ri, k));
                }
            }
            assert forall|w: int|
                #![trigger la(h, tab.nt(), j, w)]
                0 <= w < tab.nt() && in_first(rules, next_pos(p), tab.tokens@[w]@) implies la(h, tab.nt(), j, w) by {
                assert(closure_has(rules, tab, kernel, j, w)) by {
                    assert forall|hh: HeadV|
                        #![trigger tab.includes(hh, kernel), la(hh, tab.nt(), j, w)]
                        tab.hwf(hh) && tab.includes(hh, kernel) && closed(rules, tab, hh) implies la(hh, tab.nt(), j, w) by {
                        assert(la(hh, tab.nt(), i, u));
                        assert(prop_ok(rules, tab, hh, i, u));
                        assert(start_ok(rules, tab, hh, p, u, ri, k));
                    }
                }
            }
            if event(rules, next_pos(p)) is Reduce {
                assert(closure_has(rules, tab, kernel, j, u)) by {
                    assert forall|hh: HeadV|
                        #![trigger tab.includes(hh, kernel), la(hh, tab.nt(), j, u)]
                        tab.hwf(hh) && tab.includes(hh, kernel) && closed(rules, tab, hh) implies la(hh, tab.nt(), j, u) by {
                        assert(la(hh, tab.nt(), i, u));
                        assert(prop_ok(rules, tab, hh, i, u));
                        assert(start_ok(rules, tab, hh, p, u, ri, k));
                    }
                }
            }
        }
    }
}

/// Closing a closure again changes nothing: where `h` is the closure of
/// `kernel`, the closure of `h` is `h` itself.
pub proof fn lemma_closure_idempotent(rules: Seq<RuleV>, tab: &ItemTable, kernel: HeadV, h: HeadV, h2: HeadV)
    requires
        tab.wf(rules),
        is_closure(rules, tab, kernel, h),
        is_closure(rules, tab, h, h2),
    ensures
        h2 == h,
{
    lemma_closure_closed(rules, tab, kernel, h);
    lemma_closure_closed(rules, tab, h, h2);
    assert(tab.includes(h, h));
    assert forall|i: int| 0 <= i < tab.np() implies h2.present[i] == h.present[i] by {
        if h2.present[i] {
            assert(closure_has_item(rules, tab, h, i));
            assert(tab.includes(h, h) && h.present[i] == h.present[i]);
        }
    }
    assert forall|i: int, u: int| 0 <= i < tab.np() && 0 <= u < tab.nt() implies la(h2, tab.nt(), i, u) == la(
        h,
        tab.nt(),
        i,
        u,
    ) by {
        if la(h2, tab.nt(), i, u) {
            assert(closure_has(rules, tab, h, i, u));
            assert(tab.includes(h, h) && la(h, tab.nt(), i, u) == la(h, tab.nt(), i, u));
        }
    }
    assert(h2.present =~= h.present);
    assert forall|i: int| 0 <= i < h.lookahead.len() implies h2.lookahead[i] =~= h.lookahead[i] by {
        assert forall|u: int| 0 <= u < h.lookahead[i].len() implies h2.lookahead[i][u] == h.lookahead[i][u] by {
            assert(la(h2, tab.nt(), i, u) == la(h, tab.nt(), i, u));
        }
    }
    assert(h2.lookahead =~= h.lookahead);
}

/// The flags of `v`, copied.
pub fn copy_flags(v: &Vec<bool>) -> (r: Vec<bool>)
    ensures
        r@ == v@,
{
    let mut r: Vec<bool> = Vec::new();
    let mut i: usize = 0;
    while i < v.len()
        invariant
            i <= v@.len(),
            r@ == v@.take(i as int),
        decreases v@.len() - i,
    {
        r.push(v[i]);
        proof {
            assert(v@.take(i + 1) =~= v@.take(i as int).push(v@[i as int]));
        }
        i = i + 1;
    }
    proof {
        assert(v@.take(i as int) =~= v@);
    }
    r
}

/// Marks the flag `i`.
pub fn set_flag(v: &mut Vec<bool>, i: usize)
    requires
        i < old(v)@.len(),
    ensures
        final(v)@ == old(v)@.update(i as int, true),
        count_false(final(v)@) <= count_false(old(v)@),
{
    if v[i] {
        proof {
            assert(v@.update(i as int, true) =~= v@);
        }
    } else {
        proof {
            lemma_count_false_set(v@, i as int);
        }
        v.set(i, true);
    }
}

impl StateHead {
    pub fn copy(&self) -> (r: StateHead)
        ensures
            r@ == self@,
    {
        StateHead { present: copy_flags(&self.present), lookahead: copy_rows(&self.lookahead) }
    }
}

} // verus!

verus! {

/// Some length in the grammar leaves no room to number one more item.
pub open spec fn oversized(rules: Seq<RuleV>) -> bool {
    !grammar_bounded(rules)
}

/// Whether every length in the grammar fits a machine integer with room for one more.
pub fn check_bounded(rules: &Vec<Rule>) -> (r: bool)
    ensures
        r == grammar_bounded(rules_view(rules@)),
{
    let ghost rv = rules_view(rules@);
    let mut r: usize = 0;
    while r < rules.len()
        invariant
            r <= rules.len(),
            rv == rules_view(rules@),
            forall|r2: int| 0 <= r2 < r ==> (#[trigger] rv[r2]).reductends.len() <= usize::MAX,
            forall|r2: int, k: int|
                0 <= r2 < r && 0 <= k < rv[r2].reductends.len() ==> (
                #[trigger] rv[r2].reductends[k]).components.len() < usize::MAX,
        decreases rules.len() - r,
    {
        let reds = &rules[r].reductends.reductends;
        assert(rv[r as int].reductends == crate::parser::reductends_view(reds@));
        let nk = reds.len();
        let mut k: usize = 0;
        while k < nk
            invariant
                r < rules.len(),
                k <= nk,
                nk == reds@.len(),
                rv == rules_view(rules@),
                reds == &rules@[r as int].reductends.reductends,
                rv[r as int].reductends.len() == nk,
                forall|k2: int| 0 <= k2 < k ==> (#[trigger] rv[r as int].reductends[k2]).components.len() < usize::MAX,
            decreases nk - k,
        {
            let n = reds[k].components.components.len();
            assert(rv[r as int].reductends[k as int].components.len() == n);
            if n == usize::MAX {
                proof {
                    assert(!((rv[r as int].reductends[k as int]).components.len() < usize::MAX));
                }
                return false;
            }
            k = k + 1;
        }
        r = r + 1;
    }
    true
}

/// The items and tokens of `rules`; `None` where they exceed the machine's integers.
pub fn build_table(rules: &Vec<Rule>) -> (r: Option<ItemTable>)
    ensures
        r matches Some(t) ==> t.wf(rules_view(rules@)),
        r is None <==> oversized(rules_view(rules@)),
{
    if !check_bounded(rules) {
        return None;
    }
    let positions = collect_positions(rules);
    let tokens = collect_grammar_tokens(rules);
    Some(ItemTable { positions, tokens })
}

} // verus!

verus! {


/// Whether token `u` is in the lookahead of item `i` of `h`.
pub fn la_at(h: &StateHead, tab: &ItemTable, i: usize, u: usize) -> (r: bool)
    requires
        tab.hwf(h@),
        i < tab.np(),
        u < tab.nt(),
    ensures
        r == la(h@, tab.nt(), i as int, u as int),
{
    assert(h@.lookahead[i as int] == h.lookahead@[i as int]@);
    h.lookahead[i][u]
}

/// Sets the lookahead flag of item `j` and token `w`.
pub fn add_lookahead(h: &mut StateHead, tab: &ItemTable, j: usize, w: usize, Ghost(rules): Ghost<Seq<RuleV>>)
    requires
        tab.wf(rules),
        tab.hwf(old(h)@),
        j < tab.np(),
        w < tab.nt(),
        old(h)@.present[j as int],
    ensures
        tab.hwf(final(h)@),
        final(h)@.present == old(h)@.present,
        final(h)@.lookahead == old(h)@.lookahead.update(j as int, old(h)@.lookahead[j as int].update(w as int, true)),
        la(final(h)@, tab.nt(), j as int, w as int),
        tab.includes(final(h)@, old(h)@),
        forall|i: int, u: int|
            0 <= i < tab.np() && 0 <= u < tab.nt() && #[trigger] la(final(h)@, tab.nt(), i, u) ==> la(
                old(h)@,
                tab.nt(),
                i,
                u,
            ) || (i == j && u == w),
        count_false2(final(h)@.lookahead) <= count_false2(old(h)@.lookahead),
{
    set_cell(&mut h.lookahead, j, w);
    proof {
        assert forall|i: int, u: int|
            0 <= i < tab.np() && 0 <= u < tab.nt() && #[trigger] la(old(h)@, tab.nt(), i, u) implies la(
                h@,
                tab.nt(),
                i,
                u,
            ) by {
        }
        assert forall|i: int, u: int|
            0 <= i < tab.np() && 0 <= u < tab.nt() && #[trigger] la(h@, tab.nt(), i, u) implies la(
                old(h)@,
                tab.nt(),
                i,
                u,
            ) || (i == j && u == w) by {
        }
    }
}

/// The least closed state head that holds `kernel`: every item whose dot
/// stands before a rule brings in the beginnings of that rule's reductends,
/// with the tokens that can follow the rule as their lookahead. Fails, as
/// `check_head` does, where the construction cannot handle an item of it.
pub fn normalize_head(rules: &Vec<Rule>, tab: &ItemTable, kernel: &StateHead) -> (r: Result<StateHead, Error>)
    requires
        tab.wf(rules_view(rules@)),
        tab.hwf(kernel@),
    ensures
        match r {
            Ok(h) => {
                &&& is_closure(rules_view(rules@), tab, kernel@, h@)
                &&& tab.includes(h@, kernel@)
                &&& closed(rules_view(rules@), tab, h@)
                &&& head_clean(rules_view(rules@), tab, h@)
            },
            Err(e) => exists|c: HeadV|
                #[trigger] is_closure(rules_view(rules@), tab, kernel@, c) && head_fault(rules_view(rules@), tab, c, e),
        },
{
    let ghost rv = rules_view(rules@);
    let nt = tab.tokens.len();
    let np = tab.positions.len();
    let mut h = kernel.copy();
    let mut done: Vec<Vec<bool>> = new_rows(np, nt);
    proof {
        assert forall|i: int, u: int|
            0 <= i < np && 0 <= u < nt && #[trigger] rows_view(done@)[i][u] implies la(h@, nt as int, i, u) && prop_ok(rv, tab, h@, i, u) by {
        }
        assert forall|i: int, u: int|
            0 <= i < np && 0 <= u < nt && #[trigger] la(h@, nt as int, i, u) implies closure_has(rv, tab, kernel@, i, u) by {}
        assert forall|i: int| 0 <= i < np && #[trigger] h@.present[i] implies closure_has_item(rv, tab, kernel@, i) by {}
    }
    loop
        invariant
            rv == rules_view(rules@),
            tab.wf(rv),
            tab.hwf(kernel@),
            nt == tab.nt(),
            np == tab.np(),
            nt >= 1,
            tab.hwf(h@),
            rows_shaped(rows_view(done@), np as int, nt as int),
            tab.includes(h@, kernel@),
            forall|i: int, u: int|
                0 <= i < np && 0 <= u < nt && #[trigger] rows_view(done@)[i][u] ==> la(h@, nt as int, i, u) && prop_ok(rv, tab, h@, i, u),
            forall|i: int, u: int|
                0 <= i < np && 0 <= u < nt && #[trigger] la(h@, nt as int, i, u) ==> closure_has(rv, tab, kernel@, i, u),
            forall|i: int| 0 <= i < np && #[trigger] h@.present[i] ==> closure_has_item(rv, tab, kernel@, i),
        ensures
            forall|i: int, u: int|
                0 <= i < np && 0 <= u < nt && #[trigger] la(h@, nt as int, i, u) ==> rows_view(done@)[i][u],
        decreases count_false2(h@.lookahead) + count_false2(rows_view(done@)) + count_false(h@.present),
    {
        proof {
            assert forall|i2: int| 0 <= i2 < h.lookahead@.len() implies (#[trigger] h.lookahead@[i2])@.len() == done@[i2]@.len() by {
                assert(h@.lookahead[i2] == h.lookahead@[i2]@);
                assert(rows_view(done@)[i2] == done@[i2]@);
            }
        }
        let (i, u) = match find_pending2(&h.lookahead, &done) {
            Some(c) => c,
            None => break,
        };
        let ghost h0 = h@;
        let ghost m0 = count_false2(h@.lookahead) + count_false2(rows_view(done@)) + count_false(h@.present);
        assert(la(h0, nt as int, i as int, u as int));
        let p = tab.positions[i];
        assert(valid_position(rv, p));
        proof {
            lemma_rule_target_range(rv, event(rv, p));
        }
        let target: Option<usize> = match next_event(&p, rules) {
            Event::Rule(n) => match resolve(rules, &n) {
                Ok(ri) => Some(ri),
                Err(_) => None,
            },
            _ => None,
        };
        assert(match target {
            Some(ri) => rule_target(rv, event(rv, p)) == Some(ri as int),
            None => rule_target(rv, event(rv, p)) is None,
        });
        match target {
            Some(ri) => {
                let q = p.next();
                assert(q == next_pos(p));
                let (first, _) = first_tokens(rules, tab, &q);
                let red = match next_event(&q, rules) {
                    Event::Reduce => true,
                    _ => false,
                };
                let nk = rules[ri].reductends.reductends.len();
                assert(nk == nred(rv, ri as int));
                let mut k: usize = 0;
                while k < nk
                    invariant
                        rv == rules_view(rules@),
                        tab.wf(rv),
                                    tab.hwf(kernel@),
                        nt == tab.nt(),
                        np == tab.np(),
                        nt >= 1,
                        i < np,
                        u < nt,
                        p == tab.positions@[i as int],
                        rule_target(rv, event(rv, p)) == Some(ri as int),
                        ri < rv.len(),
                        nk == nred(rv, ri as int),
                        k <= nk,
                        first@.len() == nt,
                        forall|w: int| 0 <= w < nt ==> (#[trigger] first@[w] <==> in_first(rv, next_pos(p), tab.tokens@[w]@)),
                        red == (event(rv, next_pos(p)) is Reduce),
                        tab.hwf(h@),
                        rows_shaped(rows_view(done@), np as int, nt as int),
                        tab.includes(h@, h0),
                        tab.includes(h0, kernel@),
                        la(h0, nt as int, i as int, u as int),
                        count_false2(h@.lookahead) + count_false2(rows_view(done@)) + count_false(h@.present) <= m0,
                        forall|i2: int, u2: int|
                            0 <= i2 < np && 0 <= u2 < nt && #[trigger] rows_view(done@)[i2][u2] ==> la(h0, nt as int, i2, u2) && prop_ok(rv, tab, h0, i2, u2),
                        forall|i2: int, u2: int|
                            0 <= i2 < np && 0 <= u2 < nt && #[trigger] la(h@, nt as int, i2, u2) ==> closure_has(rv, tab, kernel@, i2, u2),
                        forall|i2: int| 0 <= i2 < np && #[trigger] h@.present[i2] ==> closure_has_item(rv, tab, kernel@, i2),
                        forall|k2: int| 0 <= k2 < k ==> #[trigger] start_ok(rv, tab, h@, p, u as int, ri as int, k2),
                        forall|k2: int| 0 <= k2 < k ==> 0 <= #[trigger] tab.pid(start_pos(ri as int, k2)) < np,
                    decreases nk - k,
                {
                    let sp = Position { rule: ri, reductend: k, component: 0 };
                    assert(sp == start_pos(ri as int, k as int));
                    assert(valid_position(rv, sp));
                    proof {
                        lemma_pid(tab, rv, sp);
                    }
                    let j = position_index(tab, &sp, Ghost(rv));
                    let ghost hk = h@;
                    let ghost hb = h@;
                    set_flag(&mut h.present, j);
                    proof {
                        assert(h@.lookahead == hb.lookahead);
                        assert(h@.present == hb.present.update(j as int, true));
                        assert(tab.hwf(hb));
                        assert(forall|i3: int, u3: int| 0 <= i3 < tab.np() && 0 <= u3 < tab.nt() && #[trigger] la(h@, tab.nt(), i3, u3) ==> la(hb, tab.nt(), i3, u3));
                        assert(closure_has_item(rv, tab, kernel@, j as int)) by {
                            assert forall|hh: HeadV|
                                #![trigger tab.includes(hh, kernel@), hh.present[j as int]]
                                tab.hwf(hh) && tab.includes(hh, kernel@) && closed(rv, tab, hh) implies hh.present[j as int] by {
                                assert(closure_has(rv, tab, kernel@, i as int, u as int));
                                assert(la(hh, nt as int, i as int, u as int));
                                assert(prop_ok(rv, tab, hh, i as int, u as int));
                                assert(rule_target(rv, event(rv, tab.positions@[i as int])) == Some(ri as int));
                                assert(forall|k3: int| 0 <= k3 < nred(rv, ri as int) ==> #[trigger] start_ok(rv, tab, hh, tab.positions@[i as int], u as int, ri as int, k3));
                                assert(start_ok(rv, tab, hh, p, u as int, ri as int, k as int));
                                assert(start_pos(ri as int, k as int) == sp);
                            }
                        }
                        assert forall|i2: int| 0 <= i2 < np && #[trigger] h@.present[i2] implies closure_has_item(rv, tab, kernel@, i2) by {
                            if i2 != j {
                                assert(hb.present[i2]);
                            }
                        }
                        assert(tab.hwf(h@));
                        assert(tab.includes(h@, h0));
                    }
                    let mut w: usize = 0;
                    while w < nt
                        invariant
                            rv == rules_view(rules@),
                            tab.wf(rv),
                                            tab.hwf(kernel@),
                            nt == tab.nt(),
                            np == tab.np(),
                            nt >= 1,
                            i < np,
                            u < nt,
                            j < np,
                            j == tab.pid(start_pos(ri as int, k as int)),
                            p == tab.positions@[i as int],
                            rule_target(rv, event(rv, p)) == Some(ri as int),
                            ri < rv.len(),
                            nk == nred(rv, ri as int),
                            k < nk,
                            w <= nt,
                            first@.len() == nt,
                            forall|w2: int| 0 <= w2 < nt ==> (#[trigger] first@[w2] <==> in_first(rv, next_pos(p), tab.tokens@[w2]@)),
                            tab.hwf(h@),
                            h@.present[j as int],
                            rows_shaped(rows_view(done@), np as int, nt as int),
                            tab.includes(h@, h0),
                            tab.includes(h0, kernel@),
                            la(h0, nt as int, i as int, u as int),
                            count_false2(h@.lookahead) + count_false2(rows_view(done@)) + count_false(h@.present) <= m0,
                            forall|i2: int, u2: int|
                                0 <= i2 < np && 0 <= u2 < nt && #[trigger] rows_view(done@)[i2][u2] ==> la(h0, nt as int, i2, u2) && prop_ok(rv, tab, h0, i2, u2),
                            forall|i2: int, u2: int|
                                0 <= i2 < np && 0 <= u2 < nt && #[trigger] la(h@, nt as int, i2, u2) ==> closure_has(rv, tab, kernel@, i2, u2),
                            forall|i2: int| 0 <= i2 < np && #[trigger] h@.present[i2] ==> closure_has_item(rv, tab, kernel@, i2),
                            forall|w2: int| 0 <= w2 < w && #[trigger] first@[w2] ==> la(h@, nt as int, j as int, w2),
                            tab.includes(h@, hk),
                        decreases nt - w,
                    {
                        if first[w] {
                            let ghost hb = h@;
                            add_lookahead(&mut h, tab, j, w, Ghost(rv));
                            proof {
                                assert(closure_has(rv, tab, kernel@, j as int, w as int)) by {
                                    assert forall|hh: HeadV|
                                        #![trigger tab.includes(hh, kernel@), la(hh, nt as int, j as int, w as int)]
                                        tab.hwf(hh) && tab.includes(hh, kernel@) && closed(rv, tab, hh) implies la(hh, nt as int, j as int, w as int) by {
                                        assert(closure_has(rv, tab, kernel@, i as int, u as int));
                                        assert(la(hh, nt as int, i as int, u as int));
                                        assert(prop_ok(rv, tab, hh, i as int, u as int));
                                        assert(start_ok(rv, tab, hh, p, u as int, ri as int, k as int));
                                        assert(first@[w as int]);
                                    }
                                }
                                assert forall|i2: int, u2: int|
                                    0 <= i2 < np && 0 <= u2 < nt && #[trigger] la(h@, nt as int, i2, u2) implies closure_has(rv, tab, kernel@, i2, u2) by {
                                    if !(i2 == j && u2 == w) {
                                        assert(la(hb, nt as int, i2, u2));
                                    }
                                }
                            }
                        }
                        w = w + 1;
                    }
                    if red {
                        let ghost hb = h@;
                        add_lookahead(&mut h, tab, j, u, Ghost(rv));
                        proof {
                            assert(closure_has(rv, tab, kernel@, j as int, u as int)) by {
                                assert forall|hh: HeadV|
                                    #![trigger tab.includes(hh, kernel@), la(hh, nt as int, j as int, u as int)]
                                    tab.hwf(hh) && tab.includes(hh, kernel@) && closed(rv, tab, hh) implies la(hh, nt as int, j as int, u as int) by {
                                    assert(closure_has(rv, tab, kernel@, i as int, u as int));
                                    assert(la(hh, nt as int, i as int, u as int));
                                    assert(prop_ok(rv, tab, hh, i as int, u as int));
                                    assert(start_ok(rv, tab, hh, p, u as int, ri as int, k as int));
                                }
                            }
                            assert forall|i2: int, u2: int|
                                0 <= i2 < np && 0 <= u2 < nt && #[trigger] la(h@, nt as int, i2, u2) implies closure_has(rv, tab, kernel@, i2, u2) by {
                                if !(i2 == j && u2 == u) {
                                    assert(la(hb, nt as int, i2, u2));
                                }
                            }
                        }
                    }
                    proof {
                        assert forall|k2: int| 0 <= k2 < k + 1 implies #[trigger] start_ok(rv, tab, h@, p, u as int, ri as int, k2) by {
                            if k2 == k {
                                assert(start_pos(ri as int, k2) == sp);
                                assert forall|w3: int|
                                    #![trigger la(h@, nt as int, tab.pid(start_pos(ri as int, k2)), w3)]
                                    0 <= w3 < nt && in_first(rv, next_pos(p), tab.tokens@[w3]@) implies la(h@, nt as int, tab.pid(start_pos(ri as int, k2)), w3) by {
                                    assert(first@[w3]);
                                }
                            } else {
                                assert(start_ok(rv, tab, hk, p, u as int, ri as int, k2));
                                lemma_start_ok_mono(rv, tab, hk, h@, p, u as int, ri as int, k2);
                            }
                        }
                        assert forall|k2: int| 0 <= k2 < k + 1 implies 0 <= #[trigger] tab.pid(start_pos(ri as int, k2)) < np by {
                            assert(valid_position(rv, start_pos(ri as int, k2)));
                            lemma_pid(tab, rv, start_pos(ri as int, k2));
                        }
                    }
                    k = k + 1;
                }
                proof {
                    assert(prop_ok(rv, tab, h@, i as int, u as int));
                }
            },
            None => {
                proof {
                    assert(prop_ok(rv, tab, h@, i as int, u as int));
                }
            },
        }
        let ghost d0 = rows_view(done@);
        set_cell(&mut done, i, u);
        proof {
            assert forall|i2: int, u2: int|
                0 <= i2 < np && 0 <= u2 < nt && #[trigger] rows_view(done@)[i2][u2] implies la(h@, nt as int, i2, u2) && prop_ok(rv, tab, h@, i2, u2) by {
                if i2 == i && u2 == u {
                } else {
                    assert(d0[i2][u2]);
                    lemma_prop_ok_mono(rv, tab, h0, h@, i2, u2);
                }
            }
        }
    }
    proof {
        assert(closed(rv, tab, h@)) by {
            assert forall|i2: int, u2: int|
                0 <= i2 < np && 0 <= u2 < nt && #[trigger] la(h@, nt as int, i2, u2) implies prop_ok(rv, tab, h@, i2, u2) by {
                assert(rows_view(done@)[i2][u2]);
            }
        }
        assert(is_closure(rv, tab, kernel@, h@));
    }
    match check_head(rules, tab, &h) {
        Ok(()) => Ok(h),
        Err(e) => Err(e),
    }
}

} // verus!

verus! {

// ---------------------------------------------------------------------------
// Kernels of the successor states

/// Item `i` of `h` shifts the token `t`.
pub open spec fn shift_src(rules: Seq<RuleV>, tab: &ItemTable, h: HeadV, i: int, t: int) -> bool {
    h.present[i] && event(rules, tab.positions@[i]) == EventV::Shift(tab.tokens@[t]@)
}

/// Item `i` of `h` calls the rule `ri`.
pub open spec fn call_src(rules: Seq<RuleV>, tab: &ItemTable, h: HeadV, i: int, ri: int) -> bool {
    h.present[i] && rule_target(rules, event(rules, tab.positions@[i])) == Some(ri)
}

/// Item `i` of `h` reduces on the token `t`.
pub open spec fn reduce_src(rules: Seq<RuleV>, tab: &ItemTable, h: HeadV, i: int, t: int) -> bool {
    h.present[i] && event(rules, tab.positions@[i]) is Reduce && la(h, tab.nt(), i, t)
}

/// `k` holds exactly the items of `h` that `src` selects, with their dots
/// moved one component on and their lookahead kept.
pub open spec fn is_advance(tab: &ItemTable, h: HeadV, src: spec_fn(int) -> bool, k: HeadV) -> bool {
    &&& tab.hwf(k)
    &&& forall|j: int|
        0 <= j < tab.np() ==> (#[trigger] k.present[j] <==> exists|i: int|
            0 <= i < tab.np() && src(i) && tab.pid(next_pos(tab.positions@[i])) == j)
    &&& forall|j: int, u: int|
        0 <= j < tab.np() && 0 <= u < tab.nt() ==> (#[trigger] la(k, tab.nt(), j, u) <==> exists|i: int|
            0 <= i < tab.np() && src(i) && tab.pid(next_pos(tab.positions@[i])) == j && la(h, tab.nt(), i, u))
}

pub open spec fn empty_head(tab: &ItemTable, k: HeadV) -> bool {
    forall|j: int| 0 <= j < tab.np() ==> !(#[trigger] k.present[j])
}

/// A head of `np` items and `nt` tokens with nothing in it.
pub fn new_head(np: usize, nt: usize) -> (r: StateHead)
    ensures
        r@.present.len() == np,
        rows_shaped(r@.lookahead, np as int, nt as int),
        forall|j: int| 0 <= j < np ==> !(#[trigger] r@.present[j]),
        forall|i: int, u: int| 0 <= i < np && 0 <= u < nt ==> !(#[trigger] la(r@, nt as int, i, u)),
{
    StateHead { present: vec![false; np], lookahead: new_rows(np, nt) }
}

/// Whether two flag vectors are equal.
pub fn same_flags(a: &Vec<bool>, b: &Vec<bool>) -> (r: bool)
    ensures
        r == (a@ == b@),
{
    if a.len() != b.len() {
        return false;
    }
    let mut i: usize = 0;
    while i < a.len()
        invariant
            i <= a@.len(),
            a@.len() == b@.len(),
            forall|j: int| 0 <= j < i ==> a@[j] == b@[j],
        decreases a@.len() - i,
    {
        if a[i] != b[i] {
            return false;
        }
        i = i + 1;
    }
    proof {
        assert(a@ =~= b@);
    }
    true
}

impl StateHead {
    pub fn same(&self, other: &StateHead) -> (r: bool)
        ensures
            r == (self@ == other@),
    {
        same_flags(&self.present, &other.present) && same_rows(&self.lookahead, &other.lookahead)
    }

    /// Whether the head holds any item.
    pub fn is_empty(&self) -> (r: bool)
        ensures
            r == forall|j: int| 0 <= j < self@.present.len() ==> !(#[trigger] self@.present[j]),
    {
        let mut i: usize = 0;
        while i < self.present.len()
            invariant
                i <= self@.present.len(),
                forall|j: int| 0 <= j < i ==> !(#[trigger] self@.present[j]),
            decreases self@.present.len() - i,
        {
            if self.present[i] {
                return false;
            }
            i = i + 1;
        }
        true
    }
}

} // verus!

verus! {

/// Which items of a state move on together into a successor.
pub enum Selector {
    /// The items that shift the token with this index.
    Shift(usize),
    /// The items that call the rule with this index.
    Call(usize),
}

pub open spec fn sel_src(rules: Seq<RuleV>, tab: &ItemTable, h: HeadV, sel: Selector) -> spec_fn(int) -> bool {
    |i: int|
        match sel {
            Selector::Shift(t) => t < tab.nt() && shift_src(rules, tab, h, i, t as int),
            Selector::Call(ri) => call_src(rules, tab, h, i, ri as int),
        }
}

/// Whether item `i` of `h` is selected by `sel`.
fn selected(rules: &Vec<Rule>, tab: &ItemTable, h: &StateHead, i: usize, sel: &Selector) -> (r: bool)
    requires
        tab.wf(rules_view(rules@)),
        tab.hwf(h@),
        i < tab.np(),
    ensures
        r == (sel_src(rules_view(rules@), tab, h@, *sel))(i as int),
{
    let ghost rv = rules_view(rules@);
    if !h.present[i] {
        return false;
    }
    let p = tab.positions[i];
    proof {
        lemma_rule_target_range(rv, event(rv, p));
    }
    match (next_event(&p, rules), sel) {
        (Event::Shift(tok), Selector::Shift(t)) => {
            proof {
                assert(tokens_view(tab.tokens@).contains(tok@));
                lemma_tid(tab, rv, tok@);
            }
            let id = token_id(tab, &tok, Ghost(rv));
            proof {
                if *t < tab.nt() && tab.tokens@[*t as int]@ == tok@ {
                    assert(*t == id);
                }
            }
            id == *t
        },
        (Event::Rule(n), Selector::Call(ri)) => {
            match resolve(rules, &n) {
                Ok(x) => x == *ri,
                Err(_) => false,
            }
        },
        _ => false,
    }
}

/// Whether some item of `h` is selected by `sel`.
pub fn any_selected(rules: &Vec<Rule>, tab: &ItemTable, h: &StateHead, sel: &Selector) -> (r: bool)
    requires
        tab.wf(rules_view(rules@)),
        tab.hwf(h@),
    ensures
        r == exists|i: int| 0 <= i < tab.np() && #[trigger] (sel_src(rules_view(rules@), tab, h@, *sel))(i),
{
    let np = tab.positions.len();
    let mut i: usize = 0;
    while i < np
        invariant
            tab.wf(rules_view(rules@)),
                tab.hwf(h@),
            np == tab.np(),
            i <= np,
            forall|j: int| 0 <= j < i ==> !#[trigger] (sel_src(rules_view(rules@), tab, h@, *sel))(j),
        decreases np - i,
    {
        if selected(rules, tab, h, i, sel) {
            return true;
        }
        i = i + 1;
    }
    false
}

/// Every item of `h` whose dot stands before a rule name refers to a defined rule.
pub open spec fn calls_resolved(rules: Seq<RuleV>, tab: &ItemTable, h: HeadV) -> bool {
    forall|i: int|
        0 <= i < tab.np() && h.present[i] ==> (#[trigger] event(rules, tab.positions@[i]) matches EventV::Rule(n)
            ==> find_rule(rules, n) is Some)
}

/// Whether item `i` of `h` has some lookahead token.
fn item_has_la(h: &StateHead, tab: &ItemTable, i: usize, Ghost(rules): Ghost<Seq<RuleV>>) -> (r: bool)
    requires
        tab.wf(rules),
        tab.hwf(h@),
        i < tab.np(),
    ensures
        r == has_la(h@, tab.nt(), i as int),
{
    let nt = tab.tokens.len();
    let mut u: usize = 0;
    while u < nt
        invariant
            tab.wf(rules),
            tab.hwf(h@),
            i < tab.np(),
            nt == tab.nt(),
            u <= nt,
            forall|w: int| 0 <= w < u ==> !#[trigger] la(h@, nt as int, i as int, w),
        decreases nt - u,
    {
        proof {
        }
        if la_at(h, tab, i, u) {
            assert(la(h@, nt as int, i as int, u as int));
            return true;
        }
        u = u + 1;
    }
    false
}

/// Fails where the construction cannot handle an item of `h`: a wildcard or
/// an undefined rule after its dot, or, for an item with lookahead whose dot
/// stands before a rule, one met among what can begin what follows that rule.
pub fn check_head(rules: &Vec<Rule>, tab: &ItemTable, h: &StateHead) -> (r: Result<(), Error>)
    requires
        tab.wf(rules_view(rules@)),
        tab.hwf(h@),
    ensures
        match r {
            Ok(()) => head_clean(rules_view(rules@), tab, h@),
            Err(e) => head_fault(rules_view(rules@), tab, h@, e),
        },
{
    let ghost rv = rules_view(rules@);
    let np = tab.positions.len();
    let mut i: usize = 0;
    while i < np
        invariant
            rv == rules_view(rules@),
            tab.wf(rv),
            tab.hwf(h@),
            np == tab.np(),
            i <= np,
            forall|j: int| 0 <= j < i ==> #[trigger] item_clean(rv, tab, h@, j),
        decreases np - i,
    {
        if h.present[i] {
            let p = tab.positions[i];
            match next_event(&p, rules) {
                Event::Rule(n) => {
                    match resolve(rules, &n) {
                        Ok(_) => {},
                        Err(e) => {
                            proof {
                                assert(item_fault(rv, tab, h@, i as int, e));
                            }
                            return Err(e);
                        },
                    }
                    if item_has_la(h, tab, i, Ghost(rv)) {
                        let q = p.next();
                        assert(q == next_pos(p));
                        match collect_tokens(rules, tab, &q) {
                            Ok(_) => {},
                            Err(e) => {
                                proof {
                                    assert(item_fault(rv, tab, h@, i as int, e));
                                }
                                return Err(e);
                            },
                        }
                    }
                },
                Event::Wild => {
                    let e = Error::Error(String::from_str("Not implemented!"));
                    proof {
                        assert(item_fault(rv, tab, h@, i as int, e));
                    }
                    return Err(e);
                },
                _ => {},
            }
        }
        assert(item_clean(rv, tab, h@, i as int));
        i = i + 1;
    }
    Ok(())
}

/// The kernel of the successor of `h` along `sel`.
pub fn advance(rules: &Vec<Rule>, tab: &ItemTable, h: &StateHead, sel: &Selector) -> (r: StateHead)
    requires
        tab.wf(rules_view(rules@)),
        tab.hwf(h@),
    ensures
        is_advance(tab, h@, sel_src(rules_view(rules@), tab, h@, *sel), r@),
{
    let ghost rv = rules_view(rules@);
    let ghost src = sel_src(rv, tab, h@, *sel);
    let np = tab.positions.len();
    let nt = tab.tokens.len();
    let mut k = new_head(np, nt);
    proof {
        assert forall|i: int, u: int| 0 <= i < np && 0 <= u < nt && #[trigger] la(k@, nt as int, i, u) implies k@.present[i] by {
        }
    }
    let mut i: usize = 0;
    while i < np
        invariant
            rv == rules_view(rules@),
            tab.wf(rv),
            tab.hwf(h@),
            src == sel_src(rv, tab, h@, *sel),
            np == tab.np(),
            nt == tab.nt(),
            i <= np,
            tab.hwf(k@),
            forall|j: int|
                0 <= j < np ==> (#[trigger] k@.present[j] <==> exists|i2: int|
                    0 <= i2 < i && src(i2) && tab.pid(next_pos(tab.positions@[i2])) == j),
            forall|j: int, u: int|
                0 <= j < np && 0 <= u < nt ==> (#[trigger] la(k@, nt as int, j, u) <==> exists|i2: int|
                    0 <= i2 < i && src(i2) && tab.pid(next_pos(tab.positions@[i2])) == j && la(h@, nt as int, i2, u)),
        decreases np - i,
    {
        if selected(rules, tab, h, i, sel) {
            let p = tab.positions[i];
            assert(valid_position(rv, p));
            proof {
                lemma_rule_target_range(rv, event(rv, p));
            }
            assert(component_at(rv, p) is Some);
            let q = p.next();
            assert(q == next_pos(p));
            assert(valid_position(rv, q));
            let j = position_index(tab, &q, Ghost(rv));
            let ghost k0 = k@;
            set_flag(&mut k.present, j);
            proof {
                assert(tab.hwf(k@)) by {
                    assert forall|i3: int, u3: int| 0 <= i3 < np && 0 <= u3 < nt && #[trigger] la(k@, nt as int, i3, u3) implies k@.present[i3] by {
                        assert(la(k0, nt as int, i3, u3));
                    }
                }
                assert forall|j2: int|
                    0 <= j2 < np implies (#[trigger] k@.present[j2] <==> exists|i2: int|
                        0 <= i2 < i + 1 && src(i2) && tab.pid(next_pos(tab.positions@[i2])) == j2) by {
                    if j2 == j {
                        assert(src(i as int));
                    } else {
                        if exists|i2: int| 0 <= i2 < i + 1 && src(i2) && tab.pid(next_pos(tab.positions@[i2])) == j2 {
                            let i2 = choose|i2: int| 0 <= i2 < i + 1 && src(i2) && tab.pid(next_pos(tab.positions@[i2])) == j2;
                            assert(i2 != i);
                            assert(k0.present[j2]);
                        }
                    }
                }
            }
            let ghost k1 = k@;
            let mut u: usize = 0;
            while u < nt
                invariant
                    rv == rules_view(rules@),
                    tab.wf(rv),
                    tab.hwf(h@),
                    src == sel_src(rv, tab, h@, *sel),
                    np == tab.np(),
                    nt == tab.nt(),
                    i < np,
                    j < np,
                    j == tab.pid(next_pos(tab.positions@[i as int])),
                    src(i as int),
                    u <= nt,
                    tab.hwf(k@),
                    k@.present == k1.present,
                    k@.present[j as int],
                    forall|j2: int, u2: int|
                        0 <= j2 < np && 0 <= u2 < nt ==> (#[trigger] la(k@, nt as int, j2, u2) <==> (la(k1, nt as int, j2, u2) || (j2 == j && u2 < u && la(h@, nt as int, i as int, u2)))),
                decreases nt - u,
            {
                let ghost kb = k@;
                proof {
                }
                if la_at(h, tab, i, u) {
                    add_lookahead(&mut k, tab, j, u, Ghost(rv));
                    proof {
                        assert forall|j2: int, u2: int|
                            0 <= j2 < np && 0 <= u2 < nt implies (#[trigger] la(k@, nt as int, j2, u2) <==> (la(k1, nt as int, j2, u2) || (j2 == j && u2 < u + 1 && la(h@, nt as int, i as int, u2)))) by {
                            if j2 == j && u2 == u {
                                assert(la(k@, nt as int, j as int, u as int));
                            } else {
                                assert(la(k@, nt as int, j2, u2) == la(kb, nt as int, j2, u2));
                            }
                        }
                    }
                }
                u = u + 1;
            }
            proof {
                assert forall|j2: int, u2: int|
                    0 <= j2 < np && 0 <= u2 < nt implies (#[trigger] la(k@, nt as int, j2, u2) <==> exists|i2: int|
                        0 <= i2 < i + 1 && src(i2) && tab.pid(next_pos(tab.positions@[i2])) == j2 && la(h@, nt as int, i2, u2)) by {
                    if la(k@, nt as int, j2, u2) {
                        if la(k1, nt as int, j2, u2) {
                            assert(la(k0, nt as int, j2, u2));
                        }
                    }
                    if exists|i2: int| 0 <= i2 < i + 1 && src(i2) && tab.pid(next_pos(tab.positions@[i2])) == j2 && la(h@, nt as int, i2, u2) {
                        let i2 = choose|i2: int| 0 <= i2 < i + 1 && src(i2) && tab.pid(next_pos(tab.positions@[i2])) == j2 && la(h@, nt as int, i2, u2);
                        if i2 < i {
                            assert(la(k0, nt as int, j2, u2));
                        }
                    }
                }
            }
        } else {
            proof {
                assert forall|j2: int|
                    0 <= j2 < np implies (#[trigger] k@.present[j2] <==> exists|i2: int|
                        0 <= i2 < i + 1 && src(i2) && tab.pid(next_pos(tab.positions@[i2])) == j2) by {
                    if exists|i2: int| 0 <= i2 < i + 1 && src(i2) && tab.pid(next_pos(tab.positions@[i2])) == j2 {
                        let i2 = choose|i2: int| 0 <= i2 < i + 1 && src(i2) && tab.pid(next_pos(tab.positions@[i2])) == j2;
                        assert(i2 != i);
                    }
                }
                assert forall|j2: int, u2: int|
                    0 <= j2 < np && 0 <= u2 < nt implies (#[trigger] la(k@, nt as int, j2, u2) <==> exists|i2: int|
                        0 <= i2 < i + 1 && src(i2) && tab.pid(next_pos(tab.positions@[i2])) == j2 && la(h@, nt as int, i2, u2)) by {
                    if exists|i2: int| 0 <= i2 < i + 1 && src(i2) && tab.pid(next_pos(tab.positions@[i2])) == j2 && la(h@, nt as int, i2, u2) {
                        let i2 = choose|i2: int| 0 <= i2 < i + 1 && src(i2) && tab.pid(next_pos(tab.positions@[i2])) == j2 && la(h@, nt as int, i2, u2);
                        assert(i2 != i);
                    }
                }
            }
        }
        i = i + 1;
    }
    k
}

} // verus!

verus! {

pub open spec fn rp_of(p: Position) -> crate::lr::ReductendPosition {
    crate::lr::ReductendPosition { rule: p.rule, reductend: p.reductend }
}

/// The reductends that the items of `h` reduce on the token `t`, in item order.
pub fn reductions_on(rules: &Vec<Rule>, tab: &ItemTable, h: &StateHead, t: usize) -> (r: Vec<crate::lr::ReductendPosition>)
    requires
        tab.wf(rules_view(rules@)),
        tab.hwf(h@),
        t < tab.nt(),
    ensures
        r@.no_duplicates(),
        forall|rp: crate::lr::ReductendPosition| #[trigger] r@.contains(rp) <==> exists|i: int|
            0 <= i < tab.np() && reduce_src(rules_view(rules@), tab, h@, i, t as int) && rp_of(tab.positions@[i]) == rp,
{
    let ghost rv = rules_view(rules@);
    let np = tab.positions.len();
    let nt = tab.tokens.len();
    let mut out: Vec<crate::lr::ReductendPosition> = Vec::new();
    let ghost mut srcs: Seq<int> = Seq::empty();
    let mut i: usize = 0;
    while i < np
        invariant
            rv == rules_view(rules@),
            tab.wf(rv),
            tab.hwf(h@),
            np == tab.np(),
            nt == tab.nt(),
            t < nt,
            i <= np,
            srcs.len() == out@.len(),
            forall|x: int| 0 <= x < out@.len() ==> 0 <= #[trigger] srcs[x] < i && reduce_src(rv, tab, h@, srcs[x], t as int) && rp_of(tab.positions@[srcs[x]]) == out@[x],
            forall|x: int, y: int| 0 <= x < y < out@.len() ==> #[trigger] srcs[x] < #[trigger] srcs[y],
            forall|i2: int| 0 <= i2 < i && #[trigger] reduce_src(rv, tab, h@, i2, t as int) ==> out@.contains(rp_of(tab.positions@[i2])),
        decreases np - i,
    {
        proof {
        }
        let p = tab.positions[i];
        let is_red = match next_event(&p, rules) {
            Event::Reduce => true,
            _ => false,
        };
        if h.present[i] && is_red && la_at(h, tab, i, t) {
            let rp = crate::lr::ReductendPosition { rule: p.rule, reductend: p.reductend };
            let ghost old_out = out@;
            assert(reduce_src(rv, tab, h@, i as int, t as int));
            out.push(rp);
            proof {
                srcs = srcs.push(i as int);
                assert forall|i2: int| 0 <= i2 < i + 1 && #[trigger] reduce_src(rv, tab, h@, i2, t as int) implies out@.contains(rp_of(tab.positions@[i2])) by {
                    if i2 == i {
                        assert(out@[old_out.len() as int] == rp);
                    } else {
                        let x = choose|x: int| 0 <= x < old_out.len() && old_out[x] == rp_of(tab.positions@[i2]);
                        assert(out@[x] == old_out[x]);
                    }
                }
            }
        } else {
            proof {
                assert(!reduce_src(rv, tab, h@, i as int, t as int));
            }
        }
        i = i + 1;
    }
    proof {
        assert forall|a: int, b: int| 0 <= a < b < out@.len() implies out@[a] != out@[b] by {
            let pa = tab.positions@[srcs[a]];
            let pb = tab.positions@[srcs[b]];
            assert(srcs[a] < srcs[b]);
            assert(lex_lt(pa, pb));
            assert(valid_position(rv, pa));
            assert(valid_position(rv, pb));
            assert(component_at(rv, pa) is None);
            assert(component_at(rv, pb) is None);
        }
        assert forall|rp: crate::lr::ReductendPosition| #[trigger] out@.contains(rp) <==> exists|i2: int|
            0 <= i2 < np && reduce_src(rv, tab, h@, i2, t as int) && rp_of(tab.positions@[i2]) == rp by {
            if out@.contains(rp) {
                let x = choose|x: int| 0 <= x < out@.len() && out@[x] == rp;
                assert(reduce_src(rv, tab, h@, srcs[x], t as int));
            }
            if exists|i2: int| 0 <= i2 < np && reduce_src(rv, tab, h@, i2, t as int) && rp_of(tab.positions@[i2]) == rp {
                let i2 = choose|i2: int| 0 <= i2 < np && reduce_src(rv, tab, h@, i2, t as int) && rp_of(tab.positions@[i2]) == rp;
                assert(out@.contains(rp_of(tab.positions@[i2])));
            }
        }
    }
    out
}

} // verus!
