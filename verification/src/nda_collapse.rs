use vstd::prelude::*;

use crate::lr::{Position, find_rule, lemma_find_rule};
use crate::nda::{covers, grows, lemma_unvisited_covers, lemma_unvisited_none, lemma_unvisited_set, unvisited};
use crate::parser::{Component0, Component0V, Rule, RuleV, rules_view};

verus! {

// ---------------------------------------------------------------------------
// A state machine with one task per state, built from the rules of a grammar

/// A terminal that a state can match.
#[derive(Debug)]
pub enum Terminal {
    Terminal(String),
    Regex(String),
}

pub enum TerminalV {
    Terminal(Seq<char>),
    Regex(Seq<char>),
}

impl View for Terminal {
    type V = TerminalV;

    open spec fn view(&self) -> TerminalV {
        match self {
            Terminal::Terminal(s) => TerminalV::Terminal(s@),
            Terminal::Regex(s) => TerminalV::Regex(s@),
        }
    }
}

impl Terminal {
    pub fn copy(&self) -> (r: Terminal)
        ensures
            r@ == self@,
    {
        match self {
            Terminal::Terminal(s) => Terminal::Terminal(s.clone()),
            Terminal::Regex(s) => Terminal::Regex(s.clone()),
        }
    }

    pub fn same(&self, other: &Terminal) -> (r: bool)
        ensures
            r == (self@ == other@),
    {
        match (self, other) {
            (Terminal::Terminal(x), Terminal::Terminal(y)) => x.eq(y),
            (Terminal::Regex(x), Terminal::Regex(y)) => x.eq(y),
            _ => false,
        }
    }
}

/// The indices of a reduction's code and of the type it returns.
#[derive(Debug)]
pub struct Reduction {
    reduction_code: usize,
    reduction_type: usize,
}

/// The task of a state: match one of several terminals, each leading to its
/// state; reduce and go on; call a state and return to another; return; or
/// nothing yet (`Nothing`).
#[derive(Debug)]
pub enum Task {
    Match(Vec<(Terminal, usize)>),
    Shift(usize, usize),
    Reduce(usize, Reduction),
    Push(usize, usize),
    Pop,
    Nothing,
}

pub enum TaskV {
    Match(Seq<(TerminalV, usize)>),
    Shift(usize, usize),
    Reduce(usize, usize, usize),
    Push(usize, usize),
    Pop,
    Nothing,
}

pub open spec fn matches_view(m: Seq<(Terminal, usize)>) -> Seq<(TerminalV, usize)> {
    m.map_values(|e: (Terminal, usize)| (e.0@, e.1))
}

impl View for Task {
    type V = TaskV;

    closed spec fn view(&self) -> TaskV {
        match self {
            Task::Match(m) => TaskV::Match(matches_view(m@)),
            Task::Shift(a, b) => TaskV::Shift(*a, *b),
            Task::Reduce(n, r) => TaskV::Reduce(*n, r.reduction_code, r.reduction_type),
            Task::Push(a, b) => TaskV::Push(*a, *b),
            Task::Pop => TaskV::Pop,
            Task::Nothing => TaskV::Nothing,
        }
    }
}

#[derive(Debug)]
pub struct State {
    task: Task,
    index: Option<usize>,
}

pub struct SStateV {
    pub task: TaskV,
    pub index: Option<usize>,
}

impl View for State {
    type V = SStateV;

    closed spec fn view(&self) -> SStateV {
        SStateV { task: self.task@, index: self.index }
    }
}

#[derive(Debug)]
pub struct StateMaschine {
    pub terminals: Vec<Terminal>,
    pub states: Vec<State>,
    start: u32,
    reduction_rules: Vec<String>,
    types: Vec<String>,
}

pub struct MaschineV {
    pub terminals: Seq<TerminalV>,
    pub states: Seq<SStateV>,
    pub start: u32,
    pub reduction_rules: Seq<Seq<char>>,
    pub types: Seq<Seq<char>>,
}

pub open spec fn terminals_view(s: Seq<Terminal>) -> Seq<TerminalV> {
    s.map_values(|t: Terminal| t@)
}

pub open spec fn states_view(s: Seq<State>) -> Seq<SStateV> {
    s.map_values(|st: State| st@)
}

pub open spec fn strings_view(s: Seq<String>) -> Seq<Seq<char>> {
    s.map_values(|t: String| t@)
}

impl View for StateMaschine {
    type V = MaschineV;

    closed spec fn view(&self) -> MaschineV {
        MaschineV {
            terminals: terminals_view(self.terminals@),
            states: states_view(self.states@),
            start: self.start,
            reduction_rules: strings_view(self.reduction_rules@),
            types: strings_view(self.types@),
        }
    }
}

// ---------------------------------------------------------------------------
// The construction, step by step

pub open spec fn with_state(g: MaschineV) -> MaschineV {
    MaschineV { states: g.states.push(SStateV { task: TaskV::Nothing, index: None }), ..g }
}

pub open spec fn with_task(g: MaschineV, s: int, t: TaskV) -> MaschineV {
    MaschineV { states: g.states.update(s, SStateV { task: t, ..g.states[s] }), ..g }
}

/// Whether the matches `m` have an entry for the terminal `t`.
pub open spec fn has_key(m: Seq<(TerminalV, usize)>, t: TerminalV) -> bool {
    exists|i: int| 0 <= i < m.len() && (#[trigger] m[i]).0 == t
}

/// The state `cur` matches the terminal `t` to go on to `next`, unless it
/// already matches it; the terminal is recorded in any case.
pub open spec fn with_match(g: MaschineV, cur: int, t: TerminalV, next: int) -> MaschineV {
    let g1 = MaschineV { terminals: g.terminals.push(t), ..g };
    match g.states[cur].task {
        TaskV::Match(m) => if has_key(m, t) {
            g1
        } else {
            with_task(g1, cur, TaskV::Match(m.push((t, next as usize))))
        },
        _ => with_task(g1, cur, TaskV::Match(seq![(t, next as usize)])),
    }
}

/// The state `cur` reduces with the next code and type and goes on to `next`.
pub open spec fn with_reduce(g: MaschineV, cur: int, code: Seq<char>, ty: Seq<char>, next: int) -> MaschineV {
    let g1 = with_task(g, cur, TaskV::Reduce(next as usize, g.reduction_rules.len() as usize, g.types.len() as usize));
    MaschineV { types: g1.types.push(ty), reduction_rules: g1.reduction_rules.push(code), ..g1 }
}

pub struct CBuild {
    pub g: MaschineV,
    pub visited: Seq<Option<usize>>,
}

pub open spec fn nreds(rules: Seq<RuleV>, ri: int) -> int {
    rules[ri].reductends.len() as int
}

pub open spec fn ncomps(rules: Seq<RuleV>, ri: int, k: int) -> int {
    rules[ri].reductends[k].components.len() as int
}

/// The reductends of rule `ri`, each beginning at the state `st` and ending
/// in a reduction and a return. `None` where the construction fails: a rule
/// that does not exist, the wildcard, a reductend without code or a rule
/// without an export type. `fuel` bounds how many rules are still to be
/// visited.
pub open spec fn fill_tree_s(fuel: nat, rules: Seq<RuleV>, ri: int, st: int, b: CBuild) -> Option<CBuild>
    decreases fuel, nreds(rules, ri) + 2, 0int,
{
    if !(0 <= ri < rules.len()) {
        None
    } else {
        reds_s(fuel, rules, ri, 0, st, b)
    }
}

pub open spec fn reds_s(fuel: nat, rules: Seq<RuleV>, ri: int, k: int, st: int, b: CBuild) -> Option<CBuild>
    decreases fuel, nreds(rules, ri) - k + 1, if 0 <= k < nreds(rules, ri) {
        ncomps(rules, ri, k) + 1
    } else {
        0
    },
{
    if !(0 <= ri < rules.len()) || k < 0 || k >= nreds(rules, ri) {
        Some(b)
    } else {
        match comps_s(fuel, rules, ri, k, 0, st, b) {
            None => None,
            Some((b1, end)) => {
                let next = b1.g.states.len() as int;
                let g2 = with_state(b1.g);
                match (rules[ri].reductends[k].code, rules[ri].export) {
                    (Some(code), Some(ty)) => {
                        let g3 = with_task(with_reduce(g2, end, code, ty, next), next, TaskV::Pop);
                        reds_s(fuel, rules, ri, k + 1, st, CBuild { g: g3, ..b1 })
                    },
                    _ => None,
                }
            },
        }
    }
}

/// The components `j..` of reductend `k` of rule `ri`, from the state `cur`,
/// and the state where they end.
pub open spec fn comps_s(fuel: nat, rules: Seq<RuleV>, ri: int, k: int, j: int, cur: int, b: CBuild) -> Option<(CBuild, int)>
    decreases fuel, nreds(rules, ri) - k + 1, ncomps(rules, ri, k) - j,
{
    if !(0 <= ri < rules.len()) || !(0 <= k < nreds(rules, ri)) || j < 0 {
        None
    } else if j >= ncomps(rules, ri, k) {
        Some((b, cur))
    } else {
        let n0 = b.g.states.len() as int;
        match rules[ri].reductends[k].components[j].handle {
            Component0V::Rule(s) => match find_rule(rules, s) {
                None => None,
                Some(r) => {
                    let g1 = with_state(b.g);
                    let called = match b.visited[r] {
                        Some(e) => Some((CBuild { g: g1, ..b }, e as int)),
                        None => if fuel == 0 {
                            None
                        } else {
                            let b2 = CBuild { g: with_state(g1), visited: b.visited.update(r, Some((n0 + 1) as usize)) };
                            match fill_tree_s((fuel - 1) as nat, rules, r, n0 + 1, b2) {
                                Some(b3) => Some((b3, n0 + 1)),
                                None => None,
                            }
                        },
                    };
                    match called {
                        None => None,
                        Some((b3, nxt)) => comps_s(
                            fuel,
                            rules,
                            ri,
                            k,
                            j + 1,
                            n0,
                            CBuild { g: with_task(b3.g, cur, TaskV::Push(nxt as usize, n0 as usize)), ..b3 },
                        ),
                    }
                },
            },
            Component0V::Token => None,
            Component0V::Regex(s) => comps_s(
                fuel,
                rules,
                ri,
                k,
                j + 1,
                n0,
                CBuild { g: with_match(with_state(b.g), cur, TerminalV::Regex(s), n0), ..b },
            ),
            Component0V::Terminal(s) => comps_s(
                fuel,
                rules,
                ri,
                k,
                j + 1,
                n0,
                CBuild { g: with_match(with_state(b.g), cur, TerminalV::Terminal(s), n0), ..b },
            ),
        }
    }
}

/// The state machine of `rules`, from its first rule at the state 0. `None`
/// where the construction fails.
pub open spec fn maschine_of(rules: Seq<RuleV>) -> Option<MaschineV> {
    let g = MaschineV {
        terminals: Seq::empty(),
        states: seq![SStateV { task: TaskV::Match(Seq::empty()), index: None }],
        start: 0,
        reduction_rules: Seq::empty(),
        types: Seq::empty(),
    };
    if rules.len() == 0 {
        Some(g)
    } else {
        match fill_tree_s(rules.len(), rules, 0, 0, CBuild { g, visited: Seq::new(rules.len(), |i: int| None) }) {
            Some(b) => Some(b.g),
            None => None,
        }
    }
}

// ---------------------------------------------------------------------------
// Where the terminals come from

/// Some component of the grammar stands for the terminal `t`, with the same
/// kind: a literal terminal component for a literal terminal, a regular
/// expression component for a regular expression.
pub open spec fn from_component(rules: Seq<RuleV>, t: TerminalV) -> bool {
    exists|r: int, k: int, j: int|
        0 <= r < rules.len() && 0 <= k < rules[r].reductends.len() && 0 <= j < rules[r].reductends[k].components.len()
            && #[trigger] comp_stands_for(rules[r].reductends[k].components[j].handle, t)
}

pub open spec fn comp_stands_for(c: Component0V, t: TerminalV) -> bool {
    match t {
        TerminalV::Terminal(s) => c == Component0V::Terminal(s),
        TerminalV::Regex(s) => c == Component0V::Regex(s),
    }
}

/// Every terminal that the task matches stands for a component.
pub open spec fn match_from(rules: Seq<RuleV>, t: TaskV) -> bool {
    match t {
        TaskV::Match(m) => forall|e: int| 0 <= e < m.len() ==> from_component(rules, (#[trigger] m[e]).0),
        _ => true,
    }
}

/// The terminals of `g`, and those its states match, all stand for
/// components of the same kind.
pub open spec fn built_from(rules: Seq<RuleV>, g: MaschineV) -> bool {
    &&& forall|i: int| 0 <= i < g.terminals.len() ==> from_component(rules, #[trigger] g.terminals[i])
    &&& forall|s: int| 0 <= s < g.states.len() ==> match_from(rules, #[trigger] g.states[s].task)
}

/// Each terminal that the machine records, and each terminal that a state
/// matches, has the kind and the text of a component of the grammar: a
/// regular expression component gives a regular expression match, a literal
/// terminal component a literal one.
pub proof fn lemma_maschine_matches_from_components(rules: Seq<RuleV>)
    ensures
        maschine_of(rules) matches Some(g) ==> built_from(rules, g),
{
    let g = MaschineV {
        terminals: Seq::empty(),
        states: seq![SStateV { task: TaskV::Match(Seq::empty()), index: None }],
        start: 0,
        reduction_rules: Seq::empty(),
        types: Seq::empty(),
    };
    assert(built_from(rules, g)) by {
        assert forall|s: int| 0 <= s < g.states.len() implies match_from(rules, #[trigger] g.states[s].task) by {
            assert(g.states[s].task == TaskV::Match(Seq::<(TerminalV, usize)>::empty()));
        }
    }
    if rules.len() > 0 {
        lemma_tree_from(rules.len(), rules, 0, 0, CBuild { g, visited: Seq::new(rules.len(), |i: int| None) });
    }
}

proof fn lemma_state_from(rules: Seq<RuleV>, g: MaschineV)
    requires
        built_from(rules, g),
    ensures
        built_from(rules, with_state(g)),
        with_state(g).states.len() == g.states.len() + 1,
{
    let t = with_state(g).states;
    assert forall|s: int| 0 <= s < t.len() implies match_from(rules, #[trigger] t[s].task) by {
        if s < g.states.len() {
            assert(t[s] == g.states[s]);
        }
    }
}

proof fn lemma_task_from(rules: Seq<RuleV>, g: MaschineV, cur: int, t: TaskV)
    requires
        built_from(rules, g),
        0 <= cur < g.states.len(),
        match_from(rules, t),
    ensures
        built_from(rules, with_task(g, cur, t)),
        with_task(g, cur, t).states.len() == g.states.len(),
{
    let u = with_task(g, cur, t).states;
    assert forall|s: int| 0 <= s < u.len() implies match_from(rules, #[trigger] u[s].task) by {
        if s != cur {
            assert(u[s] == g.states[s]);
        }
    }
}

proof fn lemma_match_from(rules: Seq<RuleV>, g: MaschineV, cur: int, t: TerminalV, next: int)
    requires
        built_from(rules, g),
        0 <= cur < g.states.len(),
        from_component(rules, t),
    ensures
        built_from(rules, with_match(g, cur, t, next)),
        with_match(g, cur, t, next).states.len() == g.states.len(),
{
    let g1 = MaschineV { terminals: g.terminals.push(t), ..g };
    assert forall|i: int| 0 <= i < g1.terminals.len() implies from_component(rules, #[trigger] g1.terminals[i]) by {
        if i < g.terminals.len() {
            assert(g1.terminals[i] == g.terminals[i]);
        }
    }
    assert(built_from(rules, g1));
    match g.states[cur].task {
        TaskV::Match(m) => {
            if !has_key(m, t) {
                let m2 = m.push((t, next as usize));
                assert(match_from(rules, g.states[cur].task));
                assert forall|e: int| 0 <= e < m2.len() implies from_component(rules, (#[trigger] m2[e]).0) by {
                    if e < m.len() {
                        assert(m2[e] == m[e]);
                    }
                }
                lemma_task_from(rules, g1, cur, TaskV::Match(m2));
            }
        },
        _ => {
            let m2 = seq![(t, next as usize)];
            assert forall|e: int| 0 <= e < m2.len() implies from_component(rules, (#[trigger] m2[e]).0) by {}
            lemma_task_from(rules, g1, cur, TaskV::Match(m2));
        },
    }
}

proof fn lemma_tree_from(fuel: nat, rules: Seq<RuleV>, ri: int, st: int, b: CBuild)
    requires
        built_from(rules, b.g),
        0 <= st < b.g.states.len(),
    ensures
        fill_tree_s(fuel, rules, ri, st, b) matches Some(b2) ==> built_from(rules, b2.g) && b.g.states.len()
            <= b2.g.states.len(),
    decreases fuel, nreds(rules, ri) + 2, 0int,
{
    if 0 <= ri < rules.len() {
        lemma_reds_from(fuel, rules, ri, 0, st, b);
    }
}

proof fn lemma_reds_from(fuel: nat, rules: Seq<RuleV>, ri: int, k: int, st: int, b: CBuild)
    requires
        built_from(rules, b.g),
        0 <= st < b.g.states.len(),
    ensures
        reds_s(fuel, rules, ri, k, st, b) matches Some(b2) ==> built_from(rules, b2.g) && b.g.states.len()
            <= b2.g.states.len(),
    decreases fuel, nreds(rules, ri) - k + 1, if 0 <= k < nreds(rules, ri) {
        ncomps(rules, ri, k) + 1
    } else {
        0
    },
{
    if 0 <= ri < rules.len() && 0 <= k < nreds(rules, ri) {
        lemma_comps_from(fuel, rules, ri, k, 0, st, b);
        if let Some((b1, end)) = comps_s(fuel, rules, ri, k, 0, st, b) {
            let next = b1.g.states.len() as int;
            let g2 = with_state(b1.g);
            lemma_state_from(rules, b1.g);
            if let (Some(code), Some(ty)) = (rules[ri].reductends[k].code, rules[ri].export) {
                let g2r = with_task(g2, end, TaskV::Reduce(next as usize, g2.reduction_rules.len() as usize, g2.types.len() as usize));
                lemma_task_from(rules, g2, end, TaskV::Reduce(next as usize, g2.reduction_rules.len() as usize, g2.types.len() as usize));
                let gr = with_reduce(g2, end, code, ty, next);
                assert(gr.states == g2r.states);
                assert(gr.terminals == g2r.terminals);
                assert(built_from(rules, gr));
                let g3 = with_task(gr, next, TaskV::Pop);
                lemma_task_from(rules, gr, next, TaskV::Pop);
                lemma_reds_from(fuel, rules, ri, k + 1, st, CBuild { g: g3, ..b1 });
            }
        }
    }
}

proof fn lemma_comps_from(fuel: nat, rules: Seq<RuleV>, ri: int, k: int, j: int, cur: int, b: CBuild)
    requires
        built_from(rules, b.g),
        0 <= cur < b.g.states.len(),
    ensures
        comps_s(fuel, rules, ri, k, j, cur, b) matches Some((b2, e)) ==> built_from(rules, b2.g) && b.g.states.len()
            <= b2.g.states.len() && 0 <= e < b2.g.states.len(),
    decreases fuel, nreds(rules, ri) - k + 1, ncomps(rules, ri, k) - j,
{
    if 0 <= ri < rules.len() && 0 <= k < nreds(rules, ri) && 0 <= j < ncomps(rules, ri, k) {
        let n0 = b.g.states.len() as int;
        match rules[ri].reductends[k].components[j].handle {
            Component0V::Rule(s) => {
                if let Some(r) = find_rule(rules, s) {
                    let g1 = with_state(b.g);
                    lemma_state_from(rules, b.g);
                    let called = match b.visited[r] {
                        Some(e) => Some((CBuild { g: g1, ..b }, e as int)),
                        None => if fuel == 0 {
                            None
                        } else {
                            let b2 = CBuild { g: with_state(g1), visited: b.visited.update(r, Some((n0 + 1) as usize)) };
                            match fill_tree_s((fuel - 1) as nat, rules, r, n0 + 1, b2) {
                                Some(b3) => Some((b3, n0 + 1)),
                                None => None,
                            }
                        },
                    };
                    if b.visited[r] is None && fuel > 0 {
                        let b2 = CBuild { g: with_state(g1), visited: b.visited.update(r, Some((n0 + 1) as usize)) };
                        lemma_state_from(rules, g1);
                        lemma_tree_from((fuel - 1) as nat, rules, r, n0 + 1, b2);
                    }
                    if let Some((b3, nxt)) = called {
                        lemma_task_from(rules, b3.g, cur, TaskV::Push(nxt as usize, n0 as usize));
                        lemma_comps_from(
                            fuel,
                            rules,
                            ri,
                            k,
                            j + 1,
                            n0,
                            CBuild { g: with_task(b3.g, cur, TaskV::Push(nxt as usize, n0 as usize)), ..b3 },
                        );
                    }
                }
            },
            Component0V::Token => {},
            Component0V::Regex(s) => {
                lemma_state_from(rules, b.g);
                assert(comp_stands_for(rules[ri].reductends[k].components[j].handle, TerminalV::Regex(s)));
                lemma_match_from(rules, with_state(b.g), cur, TerminalV::Regex(s), n0);
                lemma_comps_from(fuel, rules, ri, k, j + 1, n0, CBuild { g: with_match(with_state(b.g), cur, TerminalV::Regex(s), n0), ..b });
            },
            Component0V::Terminal(s) => {
                lemma_state_from(rules, b.g);
                assert(comp_stands_for(rules[ri].reductends[k].components[j].handle, TerminalV::Terminal(s)));
                lemma_match_from(rules, with_state(b.g), cur, TerminalV::Terminal(s), n0);
                lemma_comps_from(fuel, rules, ri, k, j + 1, n0, CBuild { g: with_match(with_state(b.g), cur, TerminalV::Terminal(s), n0), ..b });
            },
        }
    }
}

/// A match task holds at most one target for each terminal.
pub open spec fn keys_distinct(m: Seq<(TerminalV, usize)>) -> bool {
    forall|a: int, b: int| 0 <= a < b < m.len() ==> (#[trigger] m[a]).0 != (#[trigger] m[b]).0
}

/// Every match task of the states holds at most one target for each terminal.
pub open spec fn matches_distinct(states: Seq<SStateV>) -> bool {
    forall|s: int| 0 <= s < states.len() ==> (#[trigger] states[s].task matches TaskV::Match(m) ==> keys_distinct(m))
}

proof fn lemma_distinct_state(g: MaschineV)
    requires
        matches_distinct(g.states),
    ensures
        matches_distinct(with_state(g).states),
{
    let t = with_state(g).states;
    assert forall|s: int| 0 <= s < t.len() implies (#[trigger] t[s].task matches TaskV::Match(m) ==> keys_distinct(m)) by {
        if s < g.states.len() {
            assert(t[s] == g.states[s]);
        }
    }
}

proof fn lemma_distinct_task(g: MaschineV, cur: int, t: TaskV)
    requires
        matches_distinct(g.states),
        0 <= cur < g.states.len(),
        t matches TaskV::Match(m) ==> keys_distinct(m),
    ensures
        matches_distinct(with_task(g, cur, t).states),
{
    let u = with_task(g, cur, t).states;
    assert forall|s: int| 0 <= s < u.len() implies (#[trigger] u[s].task matches TaskV::Match(m) ==> keys_distinct(m)) by {
        if s != cur {
            assert(u[s] == g.states[s]);
        }
    }
}

proof fn lemma_distinct_match(g: MaschineV, cur: int, t: TerminalV, next: int)
    requires
        matches_distinct(g.states),
        0 <= cur < g.states.len(),
    ensures
        matches_distinct(with_match(g, cur, t, next).states),
{
    let g1 = MaschineV { terminals: g.terminals.push(t), ..g };
    match g.states[cur].task {
        TaskV::Match(m) => {
            if !has_key(m, t) {
                let m2 = m.push((t, next as usize));
                assert(keys_distinct(m)) by {
                    assert(g.states[cur].task matches TaskV::Match(m0) ==> keys_distinct(m0));
                }
                assert forall|a: int, b: int| 0 <= a < b < m2.len() implies (#[trigger] m2[a]).0 != (#[trigger] m2[b]).0 by {
                    if b == m.len() {
                        assert(m2[a] == m[a]);
                        if m[a].0 == t {
                            assert(has_key(m, t));
                        }
                    } else {
                        assert(m2[a] == m[a] && m2[b] == m[b]);
                    }
                }
                lemma_distinct_task(g1, cur, TaskV::Match(m2));
            }
        },
        _ => {
            lemma_distinct_task(g1, cur, TaskV::Match(seq![(t, next as usize)]));
        },
    }
}

// ---------------------------------------------------------------------------
// Building it

impl StateMaschine {
    /// The state machine of `rules`. The grammar's first rule starts at the
    /// state 0.
    pub fn new(rules: Vec<Rule>) -> (r: StateMaschine)
        requires
            maschine_of(rules_view(rules@)) is Some,
        ensures
            maschine_of(rules_view(rules@)) == Some(r@),
            matches_distinct(r@.states),
    {
        match Self::try_new(rules) {
            Some(m) => m,
            None => vstd::pervasive::unreached(),
        }
    }

    /// The state machine of `rules`, or `None` where a rule that the first
    /// one reaches names a rule that does not exist, holds the wildcard, or
    /// has a reductend without code or no export type.
    pub fn try_new(rules: Vec<Rule>) -> (r: Option<StateMaschine>)
        ensures
            match r {
                Some(m) => maschine_of(rules_view(rules@)) == Some(m@) && matches_distinct(m@.states),
                None => maschine_of(rules_view(rules@)) is None,
            },
    {
        let mut states: Vec<State> = Vec::new();
        states.push(State { task: Task::Match(Vec::new()), index: None });
        let mut maschine = StateMaschine {
            terminals: Vec::new(),
            states,
            start: 0,
            reduction_rules: Vec::new(),
            types: Vec::new(),
        };
        proof {
            assert(matches_view(Seq::<(Terminal, usize)>::empty()) =~= Seq::<(TerminalV, usize)>::empty());
            assert(maschine@.terminals =~= Seq::<TerminalV>::empty());
            assert(maschine@.states =~= seq![SStateV { task: TaskV::Match(Seq::empty()), index: None }]);
            assert(maschine@.reduction_rules =~= Seq::<Seq<char>>::empty());
            assert(maschine@.types =~= Seq::<Seq<char>>::empty());
        }
        let n = rules.len();
        if n == 0 {
            return Some(maschine);
        }
        let mut visited: Vec<Option<usize>> = Vec::new();
        let mut i: usize = 0;
        while i < n
            invariant
                i <= n,
                n == rules@.len(),
                visited@ == Seq::new(i as nat, |x: int| None::<usize>),
            decreases n - i,
        {
            visited.push(None);
            i = i + 1;
            proof {
                assert(visited@ =~= Seq::new(i as nat, |x: int| None::<usize>));
            }
        }
        proof {
            lemma_unvisited_none(n as nat);
        }
        if maschine.fill_tree(0, 0, &rules, &mut visited, Ghost(n as nat)) {
            Some(maschine)
        } else {
            None
        }
    }

    fn new_state(&mut self) -> (r: usize)
        ensures
            r == old(self)@.states.len(),
            final(self)@ == with_state(old(self)@),
            matches_distinct(old(self)@.states) ==> matches_distinct(final(self)@.states),
    {
        proof {
            if matches_distinct(old(self)@.states) {
                lemma_distinct_state(old(self)@);
            }
        }
        self.states.push(State { task: Task::Nothing, index: None });
        proof {
            assert(self@.states =~= old(self)@.states.push(SStateV { task: TaskV::Nothing, index: None }));
        }
        self.states.len() - 1
    }

    /// The state `current` matches `token` to go on to `next`, unless it
    /// already matches it.
    fn set_match(&mut self, current: usize, token: Terminal, next: usize)
        requires
            current < old(self)@.states.len(),
        ensures
            final(self)@ == with_match(old(self)@, current as int, token@, next as int),
            matches_distinct(old(self)@.states) ==> matches_distinct(final(self)@.states),
    {
        proof {
            if matches_distinct(old(self)@.states) {
                lemma_distinct_match(old(self)@, current as int, token@, next as int);
            }
        }
        let ghost g0 = self@;
        self.terminals.push(token.copy());
        let ghost g1 = self@;
        proof {
            assert(g1.terminals =~= g0.terminals.push(token@));
            assert(g1 == MaschineV { terminals: g0.terminals.push(token@), ..g0 });
        }
        let ghost tv = g1.states[current as int].task;
        let mut is_match = false;
        let mut found = false;
        let ghost mut mv: Seq<(TerminalV, usize)> = Seq::empty();
        match &self.states[current].task {
            Task::Match(m) => {
                is_match = true;
                proof {
                    mv = matches_view(m@);
                    assert(tv == TaskV::Match(mv));
                }
                let mut i: usize = 0;
                while i < m.len()
                    invariant_except_break
                        !found,
                    invariant
                        i <= m@.len(),
                        mv == matches_view(m@),
                        forall|j: int| 0 <= j < i ==> (#[trigger] mv[j]).0 != token@,
                    ensures
                        found ==> has_key(mv, token@),
                        !found ==> !has_key(mv, token@),
                    decreases m@.len() - i,
                {
                    if m[i].0.same(&token) {
                        found = true;
                        assert(mv[i as int].0 == token@);
                        break;
                    }
                    i = i + 1;
                }
            },
            _ => {
                assert(!(tv is Match));
            },
        }
        if is_match {
            if !found {
                let ghost tm = token@;
                match &mut self.states[current].task {
                    Task::Match(m) => {
                        let ghost m0 = m@;
                        m.push((token, next));
                        proof {
                            assert(matches_view(m@) =~= matches_view(m0).push((tm, next)));
                        }
                    },
                    _ => {},
                }
                proof {
                    assert(self@.states =~= g1.states.update(current as int, SStateV { task: TaskV::Match(mv.push((tm, next))), ..g1.states[current as int] }));
                }
            } else {
                assert(self@ == g1);
            }
        } else {
            let mut m: Vec<(Terminal, usize)> = Vec::new();
            let ghost tm = token@;
            m.push((token, next));
            proof {
                assert(matches_view(m@) =~= seq![(tm, next)]);
            }
            self.states[current].task = Task::Match(m);
            proof {
                assert(self@.states =~= g1.states.update(current as int, SStateV { task: TaskV::Match(seq![(tm, next)]), ..g1.states[current as int] }));
            }
        }
    }

    fn set_return(&mut self, state_index: usize)
        requires
            state_index < old(self)@.states.len(),
        ensures
            final(self)@ == with_task(old(self)@, state_index as int, TaskV::Pop),
            matches_distinct(old(self)@.states) ==> matches_distinct(final(self)@.states),
    {
        proof {
            if matches_distinct(old(self)@.states) {
                lemma_distinct_task(old(self)@, state_index as int, TaskV::Pop);
            }
        }
        self.states[state_index].task = Task::Pop;
        proof {
            assert(self@.states =~= old(self)@.states.update(state_index as int, SStateV { task: TaskV::Pop, ..old(self)@.states[state_index as int] }));
        }
    }

    fn set_call(&mut self, current: usize, destination: usize, next: usize)
        requires
            current < old(self)@.states.len(),
        ensures
            final(self)@ == with_task(old(self)@, current as int, TaskV::Push(next, destination)),
            matches_distinct(old(self)@.states) ==> matches_distinct(final(self)@.states),
    {
        proof {
            if matches_distinct(old(self)@.states) {
                lemma_distinct_task(old(self)@, current as int, TaskV::Push(next, destination));
            }
        }
        self.states[current].task = Task::Push(next, destination);
        proof {
            assert(self@.states =~= old(self)@.states.update(current as int, SStateV { task: TaskV::Push(next, destination), ..old(self)@.states[current as int] }));
        }
    }

    fn set_reduce(&mut self, current: usize, reduction_code: String, reduction_type: String, next: usize)
        requires
            current < old(self)@.states.len(),
        ensures
            final(self)@ == with_reduce(old(self)@, current as int, reduction_code@, reduction_type@, next as int),
            matches_distinct(old(self)@.states) ==> matches_distinct(final(self)@.states),
    {
        proof {
            if matches_distinct(old(self)@.states) {
                let g = old(self)@;
                lemma_distinct_task(g, current as int, TaskV::Reduce(next, g.reduction_rules.len() as usize, g.types.len() as usize));
            }
        }
        let t = self.types.len();
        let c = self.reduction_rules.len();
        self.states[current].task = Task::Reduce(next, Reduction { reduction_type: t, reduction_code: c });
        let ghost g1 = self@;
        proof {
            assert(self@.states =~= old(self)@.states.update(current as int, SStateV { task: TaskV::Reduce(next, c, t), ..old(self)@.states[current as int] }));
        }
        self.types.push(reduction_type);
        self.reduction_rules.push(reduction_code);
        proof {
            assert(self@.types =~= g1.types.push(reduction_type@));
            assert(self@.reduction_rules =~= g1.reduction_rules.push(reduction_code@));
        }
    }
}

impl StateMaschine {
    /// The reductends of rule `ri`, each from the state `state_index` to a
    /// reduction and a return. Whether it succeeded.
    fn fill_tree(
        &mut self,
        state_index: usize,
        ri: usize,
        rules: &Vec<Rule>,
        visited: &mut Vec<Option<usize>>,
        Ghost(fuel): Ghost<nat>,
    ) -> (ok: bool)
        requires
            ri < rules@.len(),
            old(visited)@.len() == rules@.len(),
            fuel >= unvisited(old(visited)@),
            state_index < old(self)@.states.len(),
            matches_distinct(old(self)@.states),
        ensures
            match fill_tree_s(fuel, rules_view(rules@), ri as int, state_index as int, CBuild { g: old(self)@, visited: old(visited)@ }) {
                Some(b) => ok && final(self)@ == b.g && final(visited)@ == b.visited,
                None => !ok,
            },
            ok ==> grows(old(visited)@, final(visited)@) && final(self)@.states.len() >= old(self)@.states.len()
                && matches_distinct(final(self)@.states),
        decreases fuel, 1int,
    {
        let ghost rv = rules_view(rules@);
        let ghost v0 = visited@;
        let ghost target = fill_tree_s(fuel, rv, ri as int, state_index as int, CBuild { g: self@, visited: visited@ });
        assert(rv[ri as int] == rules@[ri as int]@);
        let rule = &rules[ri];
        let nr = rule.reductends.reductends.len();
        let mut k: usize = 0;
        while k < nr
            invariant
                rv == rules_view(rules@),
                ri < rules@.len(),
                *rule == rules@[ri as int],
                rv[ri as int] == rules@[ri as int]@,
                nr == nreds(rv, ri as int),
                k <= nr,
                visited@.len() == rules@.len(),
                grows(v0, visited@),
                v0 == old(visited)@,
                fuel >= unvisited(visited@),
                state_index < self@.states.len(),
                self@.states.len() >= old(self)@.states.len(),
                matches_distinct(self@.states),
                target == fill_tree_s(fuel, rv, ri as int, state_index as int, CBuild { g: old(self)@, visited: old(visited)@ }),
                target == reds_s(fuel, rv, ri as int, k as int, state_index as int, CBuild { g: self@, visited: visited@ }),
            decreases nr - k,
        {
            let red = &rule.reductends.reductends[k];
            assert(rv[ri as int].reductends[k as int] == red@);
            let ghost v1 = visited@;
            let end = match self.fill_tree_components(state_index, ri, k, rules, visited, Ghost(fuel)) {
                Some(e) => e,
                None => {
                    return false;
                },
            };
            proof {
                lemma_unvisited_covers(v1, visited@);
            }
            let next = self.new_state();
            let code = match &red.code {
                Some(c) => c.clone(),
                None => {
                    return false;
                },
            };
            let ty = match &rule.export {
                Some(e) => e.clone(),
                None => {
                    return false;
                },
            };
            self.set_reduce(end, code, ty, next);
            self.set_return(next);
            k = k + 1;
        }
        true
    }

    /// The components of reductend `k` of rule `ri`, from the state
    /// `current`; the state where they end.
    fn fill_tree_components(
        &mut self,
        current: usize,
        ri: usize,
        k: usize,
        rules: &Vec<Rule>,
        visited: &mut Vec<Option<usize>>,
        Ghost(fuel): Ghost<nat>,
    ) -> (r: Option<usize>)
        requires
            ri < rules@.len(),
            k < nreds(rules_view(rules@), ri as int),
            old(visited)@.len() == rules@.len(),
            fuel >= unvisited(old(visited)@),
            current < old(self)@.states.len(),
            matches_distinct(old(self)@.states),
        ensures
            match comps_s(fuel, rules_view(rules@), ri as int, k as int, 0, current as int, CBuild { g: old(self)@, visited: old(visited)@ }) {
                Some((b, e)) => r is Some && r->Some_0 as int == e && final(self)@ == b.g && final(visited)@ == b.visited,
                None => r is None,
            },
            r is Some ==> grows(old(visited)@, final(visited)@) && final(self)@.states.len() >= old(self)@.states.len()
                && r->Some_0 < final(self)@.states.len() && matches_distinct(final(self)@.states),
        decreases fuel, 0int,
    {
        let ghost rv = rules_view(rules@);
        let ghost v0 = visited@;
        let ghost target = comps_s(fuel, rv, ri as int, k as int, 0, current as int, CBuild { g: self@, visited: visited@ });
        assert(rv[ri as int] == rules@[ri as int]@);
        let rule = &rules[ri];
        let red = &rule.reductends.reductends[k];
        assert(rv[ri as int].reductends[k as int] == red@);
        let comps = &red.components.components;
        let nc = comps.len();
        let mut cur = current;
        let mut j: usize = 0;
        while j < nc
            invariant
                rv == rules_view(rules@),
                ri < rules@.len(),
                rv[ri as int] == rules@[ri as int]@,
                k < nreds(rv, ri as int),
                rv[ri as int].reductends[k as int] == red@,
                comps@ == red.components.components@,
                nc == ncomps(rv, ri as int, k as int),
                j <= nc,
                visited@.len() == rules@.len(),
                grows(v0, visited@),
                v0 == old(visited)@,
                fuel >= unvisited(visited@),
                cur < self@.states.len(),
                self@.states.len() >= old(self)@.states.len(),
                matches_distinct(self@.states),
                target == comps_s(fuel, rv, ri as int, k as int, 0, current as int, CBuild { g: old(self)@, visited: old(visited)@ }),
                target == comps_s(fuel, rv, ri as int, k as int, j as int, cur as int, CBuild { g: self@, visited: visited@ }),
            decreases nc - j,
        {
            assert(rv[ri as int].reductends[k as int].components[j as int] == comps@[j as int]@);
            match &comps[j].handle {
                Component0::Rule(s) => {
                    proof {
                        lemma_find_rule(rv, s@);
                    }
                    let callee = match Position::rule_index(rules, s.as_str()) {
                        Ok(x) => x,
                        Err(_) => {
                            assert(find_rule(rv, s@) is None);
                            return None;
                        },
                    };
                    let nrules = rules.len();
                    assert(find_rule(rv, s@) == Some(callee as int));
                    let destination = self.new_state();
                    let next = match visited[callee] {
                        Some(st) => st,
                        None => {
                            proof {
                                lemma_unvisited_set(visited@, callee as int, self@.states.len() as usize);
                            }
                            let next = self.new_state();
                            let ghost v1 = visited@;
                            visited.set(callee, Some(next));
                            proof {
                                assert(grows(v0, visited@));
                            }
                            let ghost v2 = visited@;
                            if !self.fill_tree(next, callee, rules, visited, Ghost((fuel - 1) as nat)) {
                                return None;
                            }
                            proof {
                                lemma_unvisited_covers(v2, visited@);
                            }
                            next
                        },
                    };
                    self.set_call(cur, destination, next);
                    cur = destination;
                },
                Component0::Token => {
                    return None;
                },
                Component0::Regex(s) => {
                    let next = self.new_state();
                    self.set_match(cur, Terminal::Regex(s.clone()), next);
                    cur = next;
                },
                Component0::Terminal(s) => {
                    let next = self.new_state();
                    self.set_match(cur, Terminal::Terminal(s.clone()), next);
                    cur = next;
                },
            }
            j = j + 1;
        }
        Some(cur)
    }
}

} // verus!
