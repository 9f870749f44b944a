use vstd::prelude::*;

use crate::lr::{Position, find_rule, lemma_find_rule};
use crate::parser::{Component0, Component0V, Rule, RuleV, rules_view};

verus! {

// ---------------------------------------------------------------------------
// A nondeterministic automaton with a stack, built from the rules of a grammar

/// A terminal that a state can match.
#[derive(Debug)]
pub enum Terminal {
    Terminal(String),
    Regex(String),
}

pub enum TerminalV {
    Terminal(Seq<char>),
    Regex(Seq<char>),
}

impl View for Terminal {
    type V = TerminalV;

    open spec fn view(&self) -> TerminalV {
        match self {
            Terminal::Terminal(s) => TerminalV::Terminal(s@),
            Terminal::Regex(s) => TerminalV::Regex(s@),
        }
    }
}

/// The user code that a reductend runs, and the type that it returns.
#[derive(Debug)]
pub struct Reduction {
    reduction_code: String,
    reduction_type: String,
}

pub struct ReductionV {
    pub code: Seq<char>,
    pub ty: Seq<char>,
}

impl View for Reduction {
    type V = ReductionV;

    closed spec fn view(&self) -> ReductionV {
        ReductionV { code: self.reduction_code@, ty: self.reduction_type@ }
    }
}

/// What a state can do: match a terminal and go on to a state, go on to a
/// state without reading, reduce and return to the state on the stack, or
/// push a state to return to and go on to another.
#[derive(Debug, Clone, Copy, PartialEq, Eq, Structural, Hash)]
pub enum Task {
    Match(usize, usize),
    Jump(usize),
    Pop(usize),
    Push(usize, usize),
}

/// A state: the tasks it can choose from.
#[derive(Debug)]
pub struct State {
    pub tasks: Vec<Task>,
}

impl View for State {
    type V = Seq<Task>;

    open spec fn view(&self) -> Seq<Task> {
        self.tasks@
    }
}

#[derive(Debug)]
pub struct NDA {
    pub terminals: Vec<Terminal>,
    pub states: Vec<State>,
    pub start: usize,
    pub reductions: Vec<Reduction>,
}

pub struct NdaV {
    pub terminals: Seq<TerminalV>,
    pub states: Seq<Seq<Task>>,
    pub start: usize,
    pub reductions: Seq<ReductionV>,
}

pub open spec fn terminals_view(s: Seq<Terminal>) -> Seq<TerminalV> {
    s.map_values(|t: Terminal| t@)
}

pub open spec fn states_view(s: Seq<State>) -> Seq<Seq<Task>> {
    s.map_values(|st: State| st@)
}

pub open spec fn reductions_view(s: Seq<Reduction>) -> Seq<ReductionV> {
    s.map_values(|r: Reduction| r@)
}

impl View for NDA {
    type V = NdaV;

    open spec fn view(&self) -> NdaV {
        NdaV {
            terminals: terminals_view(self.terminals@),
            states: states_view(self.states@),
            start: self.start,
            reductions: reductions_view(self.reductions@),
        }
    }
}

// ---------------------------------------------------------------------------
// The construction, step by step

/// The automaton with one more state, without tasks.
pub open spec fn with_state(g: NdaV) -> NdaV {
    NdaV { states: g.states.push(Seq::empty()), ..g }
}

/// The automaton with the task `t` added to the state `s`.
pub open spec fn with_task(g: NdaV, s: int, t: Task) -> NdaV {
    NdaV { states: g.states.update(s, g.states[s].push(t)), ..g }
}

/// The index of the first terminal equal to `t`.
pub open spec fn terminal_index(ts: Seq<TerminalV>, t: TerminalV) -> Option<int>
    decreases ts.len(),
{
    if ts.len() == 0 {
        None
    } else {
        match terminal_index(ts.drop_last(), t) {
            Some(i) => Some(i),
            None => if ts.last() == t {
                Some(ts.len() - 1)
            } else {
                None
            },
        }
    }
}

/// No terminal occurs twice.
pub open spec fn terminals_distinct(ts: Seq<TerminalV>) -> bool {
    forall|a: int, b: int| 0 <= a < b < ts.len() ==> #[trigger] ts[a] != #[trigger] ts[b]
}

/// The automaton where the terminal `t` has an index, and that index.
pub open spec fn with_terminal(g: NdaV, t: TerminalV) -> (NdaV, int) {
    match terminal_index(g.terminals, t) {
        Some(i) => (g, i),
        None => (NdaV { terminals: g.terminals.push(t), ..g }, g.terminals.len() as int),
    }
}

/// The automaton under construction, and the entry state of each rule
/// visited so far.
pub struct Build {
    pub nda: NdaV,
    pub visited: Seq<Option<usize>>,
}

/// The entry state of rule `ri`, built where it is not yet: a new state from
/// which each reductend of the rule begins. `None` where the construction
/// fails: a rule that does not exist, the wildcard, a reductend without code
/// or a rule without an export type. `fuel` bounds how many rules are still
/// to be visited.
pub open spec fn fill(fuel: nat, rules: Seq<RuleV>, ri: int, b: Build) -> Option<(Build, int)>
    decreases fuel, 0int, 0int,
{
    if !(0 <= ri < rules.len() && ri < b.visited.len()) {
        None
    } else {
        match b.visited[ri] {
            Some(s) => Some((b, s as int)),
            None => if fuel == 0 {
                None
            } else {
                let st = b.nda.states.len() as int;
                let b1 = Build { nda: with_state(b.nda), visited: b.visited.update(ri, Some(st as usize)) };
                match fill_reds((fuel - 1) as nat, rules, ri, 0, st, b1) {
                    Some(b2) => Some((b2, st)),
                    None => None,
                }
            },
        }
    }
}

pub open spec fn ncomps(rules: Seq<RuleV>, ri: int, k: int) -> int {
    rules[ri].reductends[k].components.len() as int
}

/// The reductends `k..` of rule `ri`, each beginning at the state `st`.
pub open spec fn fill_reds(fuel: nat, rules: Seq<RuleV>, ri: int, k: int, st: int, b: Build) -> Option<Build>
    decreases fuel, rules[ri].reductends.len() - k, if 0 <= k < rules[ri].reductends.len() {
        ncomps(rules, ri, k) + 1
    } else {
        0
    },
{
    if !(0 <= ri < rules.len()) || k < 0 || k >= rules[ri].reductends.len() {
        Some(b)
    } else {
        then_reds(fill_comps(fuel, rules, ri, k, 0, st, b), fuel, rules, ri, k + 1, st)
    }
}

/// The reductends `k..` of rule `ri` after `o`, where `o` is a success.
pub open spec fn then_reds(o: Option<Build>, fuel: nat, rules: Seq<RuleV>, ri: int, k: int, st: int) -> Option<Build>
    decreases fuel, rules[ri].reductends.len() - k + 1, 0int,
{
    if k > rules[ri].reductends.len() {
        None
    } else {
        match o {
            Some(b) => fill_reds(fuel, rules, ri, k, st, b),
            None => None,
        }
    }
}

/// The components `j..` of reductend `k` of rule `ri`, from the state `cur`,
/// and then the reduction that ends the reductend.
pub open spec fn fill_comps(fuel: nat, rules: Seq<RuleV>, ri: int, k: int, j: int, cur: int, b: Build) -> Option<Build>
    decreases fuel, rules[ri].reductends.len() - k, ncomps(rules, ri, k) - j,
{
    if !(0 <= ri < rules.len()) || !(0 <= k < rules[ri].reductends.len()) || j < 0 {
        None
    } else if j >= ncomps(rules, ri, k) {
        let rule = rules[ri];
        match (rule.reductends[k].code, rule.export) {
            (Some(code), Some(ty)) => {
                let g = NdaV { reductions: b.nda.reductions.push(ReductionV { code, ty }), ..b.nda };
                Some(Build { nda: with_task(g, cur, Task::Pop(b.nda.reductions.len() as usize)), ..b })
            },
            _ => None,
        }
    } else {
        let next = b.nda.states.len() as int;
        match rules[ri].reductends[k].components[j].handle {
            Component0V::Rule(s) => match find_rule(rules, s) {
                None => None,
                Some(r) => {
                    let ret = next + 1;
                    let g1 = with_task(with_state(with_state(b.nda)), cur, Task::Push(ret as usize, next as usize));
                    match fill(fuel, rules, r, Build { nda: g1, ..b }) {
                        None => None,
                        Some((b2, e)) => fill_comps(
                            fuel,
                            rules,
                            ri,
                            k,
                            j + 1,
                            ret,
                            Build { nda: with_task(b2.nda, next, Task::Jump(e as usize)), ..b2 },
                        ),
                    }
                },
            },
            Component0V::Token => None,
            Component0V::Regex(s) => {
                let (g1, t) = with_terminal(with_state(b.nda), TerminalV::Regex(s));
                fill_comps(fuel, rules, ri, k, j + 1, next, Build { nda: with_task(g1, cur, Task::Match(t as usize, next as usize)), ..b })
            },
            Component0V::Terminal(s) => {
                let (g1, t) = with_terminal(with_state(b.nda), TerminalV::Terminal(s));
                fill_comps(fuel, rules, ri, k, j + 1, next, Build { nda: with_task(g1, cur, Task::Match(t as usize, next as usize)), ..b })
            },
        }
    }
}

/// The automaton of `rules`: the tree of its first rule, each rule visited
/// once. `None` where the construction fails.
pub open spec fn nda_of(rules: Seq<RuleV>) -> Option<NdaV> {
    let g = NdaV { terminals: Seq::empty(), states: Seq::empty(), start: 0, reductions: Seq::empty() };
    if rules.len() == 0 {
        Some(g)
    } else {
        match fill(rules.len(), rules, 0, Build { nda: g, visited: Seq::new(rules.len(), |i: int| None) }) {
            Some((b, _)) => Some(b.nda),
            None => None,
        }
    }
}

// ---------------------------------------------------------------------------
// Where the terminals come from

/// Some component of the grammar stands for the terminal `t`, with the same
/// kind: a literal terminal component for a literal terminal, a regular
/// expression component for a regular expression.
pub open spec fn from_component(rules: Seq<RuleV>, t: TerminalV) -> bool {
    exists|r: int, k: int, j: int|
        0 <= r < rules.len() && 0 <= k < rules[r].reductends.len() && 0 <= j < rules[r].reductends[k].components.len()
            && #[trigger] comp_stands_for(rules[r].reductends[k].components[j].handle, t)
}

pub open spec fn comp_stands_for(c: Component0V, t: TerminalV) -> bool {
    match t {
        TerminalV::Terminal(s) => c == Component0V::Terminal(s),
        TerminalV::Regex(s) => c == Component0V::Regex(s),
    }
}

pub open spec fn terms_from(rules: Seq<RuleV>, ts: Seq<TerminalV>) -> bool {
    forall|i: int| 0 <= i < ts.len() ==> from_component(rules, #[trigger] ts[i])
}

/// Each terminal of the automaton keeps the kind and the text of a component
/// it comes from: a regular expression component gives a regular expression
/// terminal, a literal terminal component a literal one.
pub proof fn lemma_nda_terminals_from_components(rules: Seq<RuleV>)
    ensures
        nda_of(rules) matches Some(n) ==> terms_from(rules, n.terminals),
{
    if rules.len() > 0 {
        let g = NdaV { terminals: Seq::empty(), states: Seq::empty(), start: 0, reductions: Seq::empty() };
        lemma_fill_terms(rules.len(), rules, 0, Build { nda: g, visited: Seq::new(rules.len(), |i: int| None) });
    }
}

proof fn lemma_fill_terms(fuel: nat, rules: Seq<RuleV>, ri: int, b: Build)
    requires
        terms_from(rules, b.nda.terminals),
    ensures
        fill(fuel, rules, ri, b) matches Some((b2, _)) ==> terms_from(rules, b2.nda.terminals),
    decreases fuel, 0int, 0int,
{
    if 0 <= ri < rules.len() && ri < b.visited.len() && b.visited[ri] is None && fuel > 0 {
        let st = b.nda.states.len() as int;
        let b1 = Build { nda: with_state(b.nda), visited: b.visited.update(ri, Some(st as usize)) };
        lemma_fill_reds_terms((fuel - 1) as nat, rules, ri, 0, st, b1);
    }
}

proof fn lemma_fill_reds_terms(fuel: nat, rules: Seq<RuleV>, ri: int, k: int, st: int, b: Build)
    requires
        terms_from(rules, b.nda.terminals),
    ensures
        fill_reds(fuel, rules, ri, k, st, b) matches Some(b2) ==> terms_from(rules, b2.nda.terminals),
    decreases fuel, rules[ri].reductends.len() - k, if 0 <= k < rules[ri].reductends.len() {
        ncomps(rules, ri, k) + 1
    } else {
        0
    },
{
    if 0 <= ri < rules.len() && 0 <= k < rules[ri].reductends.len() {
        lemma_fill_comps_terms(fuel, rules, ri, k, 0, st, b);
        if let Some(b1) = fill_comps(fuel, rules, ri, k, 0, st, b) {
            lemma_fill_reds_terms(fuel, rules, ri, k + 1, st, b1);
        }
    }
}

proof fn lemma_fill_comps_terms(fuel: nat, rules: Seq<RuleV>, ri: int, k: int, j: int, cur: int, b: Build)
    requires
        terms_from(rules, b.nda.terminals),
    ensures
        fill_comps(fuel, rules, ri, k, j, cur, b) matches Some(b2) ==> terms_from(rules, b2.nda.terminals),
    decreases fuel, rules[ri].reductends.len() - k, ncomps(rules, ri, k) - j,
{
    if 0 <= ri < rules.len() && 0 <= k < rules[ri].reductends.len() && 0 <= j < ncomps(rules, ri, k) {
        let next = b.nda.states.len() as int;
        match rules[ri].reductends[k].components[j].handle {
            Component0V::Rule(s) => {
                if let Some(r) = find_rule(rules, s) {
                    let ret = next + 1;
                    let g1 = with_task(with_state(with_state(b.nda)), cur, Task::Push(ret as usize, next as usize));
                    lemma_fill_terms(fuel, rules, r, Build { nda: g1, ..b });
                    if let Some((b2, e)) = fill(fuel, rules, r, Build { nda: g1, ..b }) {
                        lemma_fill_comps_terms(
                            fuel,
                            rules,
                            ri,
                            k,
                            j + 1,
                            ret,
                            Build { nda: with_task(b2.nda, next, Task::Jump(e as usize)), ..b2 },
                        );
                    }
                }
            },
            Component0V::Token => {},
            Component0V::Regex(s) => {
                let (g1, t) = with_terminal(with_state(b.nda), TerminalV::Regex(s));
                lemma_with_terminal_from(rules, with_state(b.nda), TerminalV::Regex(s), ri, k, j);
                lemma_fill_comps_terms(fuel, rules, ri, k, j + 1, next, Build { nda: with_task(g1, cur, Task::Match(t as usize, next as usize)), ..b });
            },
            Component0V::Terminal(s) => {
                let (g1, t) = with_terminal(with_state(b.nda), TerminalV::Terminal(s));
                lemma_with_terminal_from(rules, with_state(b.nda), TerminalV::Terminal(s), ri, k, j);
                lemma_fill_comps_terms(fuel, rules, ri, k, j + 1, next, Build { nda: with_task(g1, cur, Task::Match(t as usize, next as usize)), ..b });
            },
        }
    }
}

proof fn lemma_with_terminal_from(rules: Seq<RuleV>, g: NdaV, t: TerminalV, ri: int, k: int, j: int)
    requires
        terms_from(rules, g.terminals),
        0 <= ri < rules.len(),
        0 <= k < rules[ri].reductends.len(),
        0 <= j < rules[ri].reductends[k].components.len(),
        comp_stands_for(rules[ri].reductends[k].components[j].handle, t),
    ensures
        terms_from(rules, with_terminal(g, t).0.terminals),
{
    assert(from_component(rules, t));
    if terminal_index(g.terminals, t) is None {
        let ts = g.terminals.push(t);
        assert forall|i: int| 0 <= i < ts.len() implies from_component(rules, #[trigger] ts[i]) by {
            if i < g.terminals.len() {
                assert(ts[i] == g.terminals[i]);
            }
        }
    }
}

// ---------------------------------------------------------------------------
// Counting the rules not yet visited

pub open spec fn unvisited(v: Seq<Option<usize>>) -> nat
    decreases v.len(),
{
    if v.len() == 0 {
        0
    } else {
        unvisited(v.drop_last()) + if v.last() is None {
            1nat
        } else {
            0nat
        }
    }
}

/// `v2` keeps every entry of `v1`.
pub open spec fn grows(v1: Seq<Option<usize>>, v2: Seq<Option<usize>>) -> bool {
    v1.len() == v2.len() && forall|i: int| 0 <= i < v1.len() && (#[trigger] v1[i]) is Some ==> v2[i] == v1[i]
}

/// Every entry of `v1` has one in `v2`.
pub open spec fn covers(v1: Seq<Option<usize>>, v2: Seq<Option<usize>>) -> bool {
    v1.len() == v2.len() && forall|i: int| 0 <= i < v1.len() && (#[trigger] v1[i]) is Some ==> v2[i] is Some
}

pub proof fn lemma_unvisited_covers(v1: Seq<Option<usize>>, v2: Seq<Option<usize>>)
    requires
        covers(v1, v2),
    ensures
        unvisited(v2) <= unvisited(v1),
    decreases v1.len(),
{
    if v1.len() > 0 {
        let d1 = v1.drop_last();
        let d2 = v2.drop_last();
        assert forall|i: int| 0 <= i < d1.len() && (#[trigger] d1[i]) is Some implies d2[i] is Some by {
            assert(v1[i] == d1[i]);
        }
        lemma_unvisited_covers(d1, d2);
        if v1.last() is Some {
            assert(v1[v1.len() - 1] is Some);
        }
    }
}

pub proof fn lemma_unvisited_set(v: Seq<Option<usize>>, i: int, s: usize)
    requires
        0 <= i < v.len(),
        v[i] is None,
    ensures
        unvisited(v) >= 1,
        unvisited(v.update(i, Some(s))) == unvisited(v) - 1,
    decreases v.len(),
{
    let w = v.update(i, Some(s));
    if i < v.len() - 1 {
        assert(w.drop_last() =~= v.drop_last().update(i, Some(s)));
        lemma_unvisited_set(v.drop_last(), i, s);
    } else {
        assert(w.drop_last() =~= v.drop_last());
    }
}

pub proof fn lemma_unvisited_none(n: nat)
    ensures
        unvisited(Seq::new(n, |i: int| None::<usize>)) == n,
    decreases n,
{
    if n > 0 {
        assert(Seq::new(n, |i: int| None::<usize>).drop_last() =~= Seq::new((n - 1) as nat, |i: int| None::<usize>));
        lemma_unvisited_none((n - 1) as nat);
    }
}

// ---------------------------------------------------------------------------
// What the construction keeps

/// What `merge` needs of the states: they name only existing states, no
/// chain of jumps comes back to where it started, and there is a first state
/// where `nonempty` holds.
pub open spec fn mergeable(states: Seq<Seq<Task>>, nonempty: bool) -> bool {
    &&& states_wf(states)
    &&& jumps_acyclic(states)
    &&& nonempty ==> states.len() > 0
}

/// Some visited rule has the entry state `x`.
pub open spec fn is_entry(visited: Seq<Option<usize>>, x: int) -> bool {
    exists|r: int| 0 <= r < visited.len() && #[trigger] visited[r] == Some(x as usize)
}

/// The tasks name only existing states, every jump leads to the entry state
/// of a visited rule, and no entry state jumps.
pub open spec fn built_ok(states: Seq<Seq<Task>>, visited: Seq<Option<usize>>) -> bool {
    &&& states_wf(states)
    &&& forall|s: int, i: int|
        0 <= s < states.len() && 0 <= i < states[s].len() ==> (#[trigger] states[s][i] matches Task::Jump(x) ==> is_entry(
            visited,
            x as int,
        ))
    &&& forall|r: int|
        0 <= r < visited.len() && (#[trigger] visited[r]) is Some ==> visited[r]->Some_0 < states.len() && jump_free(
            states[visited[r]->Some_0 as int],
        )
}

proof fn lemma_built_jumps_acyclic(states: Seq<Seq<Task>>, visited: Seq<Option<usize>>)
    requires
        built_ok(states, visited),
    ensures
        jumps_acyclic(states),
{
    let rank = Seq::new(states.len(), |s: int| if jump_free(states[s]) { 0nat } else { 1nat });
    assert forall|s: int, i: int|
        0 <= s < states.len() && 0 <= i < states[s].len() implies (#[trigger] states[s][i] matches Task::Jump(x) ==> (
        x < states.len() && rank[x as int] < rank[s])) by {
        if let Task::Jump(x) = states[s][i] {
            assert(is_entry(visited, x as int));
            let r = choose|r: int| 0 <= r < visited.len() && #[trigger] visited[r] == Some(x as usize);
            assert(visited[r] is Some);
            assert(!jump_free(states[s]));
        }
    }
    assert forall|s: int| 0 <= s < states.len() implies #[trigger] rank[s] < states.len() by {
        if !jump_free(states[s]) {
            let i = choose|i: int| 0 <= i < states[s].len() && #[trigger] states[s][i] is Jump;
            let x = states[s][i]->Jump_0;
            assert(states[s][i] matches Task::Jump(x2) ==> (x2 < states.len() && rank[x2 as int] < rank[s]));
            assert(x as int != s);
        }
    }
    assert(jumps_ranked(states, rank));
}

proof fn lemma_built_new_state(states: Seq<Seq<Task>>, visited: Seq<Option<usize>>)
    requires
        built_ok(states, visited),
    ensures
        built_ok(states.push(Seq::empty()), visited),
{
    let t = states.push(Seq::empty());
    assert forall|s: int, i: int| 0 <= s < t.len() && 0 <= i < t[s].len() implies task_in(#[trigger] t[s][i], t.len() as int) by {
        assert(t[s] == states[s]);
        assert(task_in(states[s][i], states.len() as int));
    }
    assert forall|s: int, i: int|
        0 <= s < t.len() && 0 <= i < t[s].len() implies (#[trigger] t[s][i] matches Task::Jump(x) ==> is_entry(visited, x as int)) by {
        assert(t[s] == states[s]);
    }
    assert forall|r: int| 0 <= r < visited.len() && (#[trigger] visited[r]) is Some implies visited[r]->Some_0 < t.len() && jump_free(
        t[visited[r]->Some_0 as int],
    ) by {
        assert(t[visited[r]->Some_0 as int] == states[visited[r]->Some_0 as int]);
    }
}

proof fn lemma_built_register(states: Seq<Seq<Task>>, visited: Seq<Option<usize>>, ri: int, st: usize)
    requires
        built_ok(states, visited),
        0 <= ri < visited.len(),
        visited[ri] is None,
        st < states.len(),
        states[st as int].len() == 0,
    ensures
        built_ok(states, visited.update(ri, Some(st))),
{
    let v = visited.update(ri, Some(st));
    assert forall|s: int, i: int|
        0 <= s < states.len() && 0 <= i < states[s].len() implies (#[trigger] states[s][i] matches Task::Jump(x) ==> is_entry(v, x as int)) by {
        if let Task::Jump(x) = states[s][i] {
            assert(is_entry(visited, x as int));
            let r = choose|r: int| 0 <= r < visited.len() && #[trigger] visited[r] == Some(x as usize);
            assert(v[r] == visited[r]);
        }
    }
    assert forall|r: int| 0 <= r < v.len() && (#[trigger] v[r]) is Some implies v[r]->Some_0 < states.len() && jump_free(
        states[v[r]->Some_0 as int],
    ) by {
        if r != ri {
            assert(v[r] == visited[r]);
        }
    }
}

// ---------------------------------------------------------------------------
// Building it

/// Whether two terminals are the same.
fn same_terminal(a: &Terminal, b: &Terminal) -> (r: bool)
    ensures
        r == (a@ == b@),
{
    match (a, b) {
        (Terminal::Terminal(x), Terminal::Terminal(y)) => x.eq(y),
        (Terminal::Regex(x), Terminal::Regex(y)) => x.eq(y),
        _ => false,
    }
}

impl NDA {
    /// The automaton of `rules`. The grammar's first rule is where it starts.
    pub fn new(rules: Vec<Rule>) -> (r: NDA)
        requires
            nda_of(rules_view(rules@)) is Some,
        ensures
            nda_of(rules_view(rules@)) == Some(r@),
            mergeable(r@.states, rules@.len() > 0),
            terminals_distinct(r@.terminals),
    {
        match Self::try_new(rules) {
            Some(n) => n,
            None => vstd::pervasive::unreached(),
        }
    }

    /// The automaton of `rules`, or `None` where a rule that the first one
    /// reaches names a rule that does not exist, holds the wildcard, or has a
    /// reductend without code or no export type.
    pub fn try_new(rules: Vec<Rule>) -> (r: Option<NDA>)
        ensures
            match r {
                Some(n) => nda_of(rules_view(rules@)) == Some(n@) && mergeable(n@.states, rules@.len() > 0)
                    && terminals_distinct(n@.terminals),
                None => nda_of(rules_view(rules@)) is None,
            },
    {
        let ghost rv = rules_view(rules@);
        let mut maschine = NDA { terminals: Vec::new(), states: Vec::new(), start: 0, reductions: Vec::new() };
        proof {
            assert(maschine@.terminals =~= Seq::<TerminalV>::empty());
            assert(maschine@.states =~= Seq::<Seq<Task>>::empty());
            assert(maschine@.reductions =~= Seq::<ReductionV>::empty());
        }
        let n = rules.len();
        if n == 0 {
            proof {
                assert(jumps_ranked(maschine@.states, Seq::<nat>::empty()));
            }
            return Some(maschine);
        }
        proof {
            assert(built_ok(maschine@.states, Seq::new(n as nat, |x: int| None::<usize>)));
        }
        let mut visited: Vec<Option<usize>> = Vec::new();
        let mut i: usize = 0;
        while i < n
            invariant
                i <= n,
                n == rules@.len(),
                visited@ == Seq::new(i as nat, |x: int| None::<usize>),
            decreases n - i,
        {
            visited.push(None);
            i = i + 1;
            proof {
                assert(visited@ =~= Seq::new(i as nat, |x: int| None::<usize>));
            }
        }
        proof {
            lemma_unvisited_none(n as nat);
        }
        match maschine.fill_tree(0, &rules, &mut visited, Ghost(n as nat)) {
            Some(_) => {
                proof {
                    lemma_built_jumps_acyclic(maschine@.states, visited@);
                }
                Some(maschine)
            },
            None => None,
        }
    }

    /// Adds a state without tasks and gives its index.
    fn new_state(&mut self) -> (r: usize)
        ensures
            r == old(self)@.states.len(),
            final(self)@ == with_state(old(self)@),
    {
        let state = State { tasks: Vec::new() };
        self.states.push(state);
        proof {
            assert(self@.states =~= old(self)@.states.push(Seq::empty()));
        }
        self.states.len() - 1
    }

    /// Adds the task `t` to the state `s`.
    fn add_task(&mut self, s: usize, t: Task)
        requires
            s < old(self)@.states.len(),
        ensures
            final(self)@ == with_task(old(self)@, s as int, t),
    {
        self.states[s].tasks.push(t);
        proof {
            assert(self@.states =~= old(self)@.states.update(s as int, old(self)@.states[s as int].push(t)));
        }
    }

    /// The index of `terminal`, added where it is new.
    fn new_terminal(&mut self, terminal: Terminal) -> (r: usize)
        ensures
            (final(self)@, r as int) == with_terminal(old(self)@, terminal@),
            terminals_distinct(old(self)@.terminals) ==> terminals_distinct(final(self)@.terminals),
    {
        let ghost ts = self@.terminals;
        let n = self.terminals.len();
        let mut i: usize = 0;
        while i < n
            invariant
                i <= n,
                n == self.terminals@.len(),
                ts == self@.terminals,
                self == old(self),
                forall|j: int| 0 <= j < i ==> ts[j] != terminal@,
            decreases n - i,
        {
            if same_terminal(&self.terminals[i], &terminal) {
                proof {
                    lemma_terminal_index(ts, terminal@);
                    assert(ts[i as int] == terminal@);
                }
                return i;
            }
            i = i + 1;
        }
        proof {
            lemma_terminal_index(ts, terminal@);
        }
        let ghost tv = terminal@;
        self.terminals.push(terminal);
        proof {
            assert(self@.terminals =~= ts.push(tv));
            if terminals_distinct(ts) {
                assert forall|a: int, b: int| 0 <= a < b < self@.terminals.len() implies #[trigger] self@.terminals[a]
                    != #[trigger] self@.terminals[b] by {
                    if b == ts.len() {
                        assert(self@.terminals[a] == ts[a]);
                    } else {
                        assert(self@.terminals[a] == ts[a] && self@.terminals[b] == ts[b]);
                    }
                }
            }
        }
        n
    }

    /// The entry state of rule `ri`, built where the rule is not yet visited.
    fn fill_tree(&mut self, ri: usize, rules: &Vec<Rule>, visited: &mut Vec<Option<usize>>, Ghost(fuel): Ghost<nat>) -> (r: Option<usize>)
        requires
            ri < rules@.len(),
            old(visited)@.len() == rules@.len(),
            fuel >= unvisited(old(visited)@),
            built_ok(old(self)@.states, old(visited)@),
            terminals_distinct(old(self)@.terminals),
        ensures
            match fill(fuel, rules_view(rules@), ri as int, Build { nda: old(self)@, visited: old(visited)@ }) {
                Some((b, s)) => r == Some(s as usize) && final(self)@ == b.nda && final(visited)@ == b.visited,
                None => r is None,
            },
            r is Some ==> grows(old(visited)@, final(visited)@) && final(self)@.states.len() >= old(self)@.states.len()
                && built_ok(final(self)@.states, final(visited)@) && final(visited)@[ri as int] == r
                && terminals_distinct(final(self)@.terminals)
                && forall|x: int|
                0 <= x < old(visited)@.len() && old(visited)@[x] is None && (#[trigger] final(visited)@[x]) is Some
                    ==> final(visited)@[x]->Some_0 >= old(self)@.states.len(),
        decreases fuel,
    {
        let ghost rv = rules_view(rules@);
        assert(rv[ri as int] == rules@[ri as int]@);
        match visited[ri] {
            Some(s) => {
                return Some(s);
            },
            None => {},
        }
        proof {
            lemma_unvisited_set(visited@, ri as int, self@.states.len() as usize);
            lemma_built_new_state(self@.states, visited@);
        }
        let state = self.new_state();
        proof {
            lemma_built_register(self@.states, visited@, ri as int, state);
        }
        visited.set(ri, Some(state));
        let ghost v0 = old(visited)@;
        let ghost f1: nat = (fuel - 1) as nat;
        let ghost target = fill_reds(f1, rv, ri as int, 0, state as int, Build { nda: self@, visited: visited@ });
        proof {
            assert(grows(v0, visited@));
            assert(visited@ == v0.update(ri as int, Some(state)));
            assert(fill(fuel, rv, ri as int, Build { nda: old(self)@, visited: v0 }) == match target {
                Some(b2) => Some((b2, state as int)),
                None => None,
            });
        }
        let rule = &rules[ri];
        let nreds = rule.reductends.reductends.len();
        let mut k: usize = 0;
        while k < nreds
            invariant
                rv == rules_view(rules@),
                ri < rules@.len(),
                *rule == rules@[ri as int],
                rv[ri as int] == rules@[ri as int]@,
                nreds == rv[ri as int].reductends.len(),
                k <= nreds,
                visited@.len() == rules@.len(),
                grows(v0, visited@),
                v0 == old(visited)@,
                f1 >= unvisited(visited@),
                f1 == fuel - 1,
                state < self@.states.len(),
                state == old(self)@.states.len(),
                built_ok(self@.states, visited@),
                terminals_distinct(self@.terminals),
                visited@[ri as int] == Some(state),
                forall|x: int|
                    0 <= x < v0.len() && v0[x] is None && (#[trigger] visited@[x]) is Some ==> visited@[x]->Some_0 >= old(self)@.states.len(),
                fill(fuel, rv, ri as int, Build { nda: old(self)@, visited: v0 }) == match target {
                    Some(b2) => Some((b2, state as int)),
                    None => None,
                },
                target == fill_reds(f1, rv, ri as int, k as int, state as int, Build { nda: self@, visited: visited@ }),
            decreases nreds - k,
        {
            let red = &rule.reductends.reductends[k];
            assert(rv[ri as int].reductends[k as int] == red@);
            let comps = &red.components.components;
            let nc = comps.len();
            let mut current = state;
            let mut j: usize = 0;
            while j < nc
                invariant
                    rv == rules_view(rules@),
                    ri < rules@.len(),
                    *rule == rules@[ri as int],
                    rv[ri as int] == rules@[ri as int]@,
                    nreds == rv[ri as int].reductends.len(),
                    k < nreds,
                    *red == rules@[ri as int].reductends.reductends@[k as int],
                    nc == ncomps(rv, ri as int, k as int),
                    comps@ == red.components.components@,
                    j <= nc,
                    visited@.len() == rules@.len(),
                    grows(v0, visited@),
                    v0 == old(visited)@,
                    f1 >= unvisited(visited@),
                    f1 == fuel - 1,
                    state < self@.states.len(),
                    current < self@.states.len(),
                    state == old(self)@.states.len(),
                    built_ok(self@.states, visited@),
                    terminals_distinct(self@.terminals),
                    visited@[ri as int] == Some(state),
                    forall|x: int|
                        0 <= x < v0.len() && v0[x] is None && (#[trigger] visited@[x]) is Some ==> visited@[x]->Some_0 >= old(self)@.states.len(),
                    fill(fuel, rv, ri as int, Build { nda: old(self)@, visited: v0 }) == match target {
                        Some(b2) => Some((b2, state as int)),
                        None => None,
                    },
                    target == then_reds(
                        fill_comps(f1, rv, ri as int, k as int, j as int, current as int, Build { nda: self@, visited: visited@ }),
                        f1,
                        rv,
                        ri as int,
                        k + 1,
                        state as int,
                    ),
                decreases nc - j,
            {
                assert(rv[ri as int].reductends[k as int].components[j as int] == comps@[j as int]@);
                match &comps[j].handle {
                    Component0::Rule(s) => {
                        proof {
                            lemma_find_rule(rv, s@);
                        }
                        let callee = match Position::rule_index(rules, s.as_str()) {
                            Ok(x) => x,
                            Err(_) => {
                                assert(find_rule(rv, s@) is None);
                                return None;
                            },
                        };
                        let nrules = rules.len();
                        assert(find_rule(rv, s@) == Some(callee as int));
                        let ghost v1 = visited@;
                        let next = self.new_state();
                        let ret = self.new_state();
                        self.add_task(current, Task::Push(ret, next));

                        let e = match self.fill_tree(callee, rules, visited, Ghost(f1)) {
                            Some(e) => e,
                            None => {
                                return None;
                            },
                        };
                        proof {
                            lemma_unvisited_covers(v1, visited@);
                            assert(grows(v0, visited@));
                        }
                        self.add_task(next, Task::Jump(e));
                        current = ret;
                    },
                    Component0::Token => {
                        return None;
                    },
                    Component0::Regex(s) => {
                        let next = self.new_state();
                        let t = self.new_terminal(Terminal::Regex(s.clone()));
                        self.add_task(current, Task::Match(t, next));
                        current = next;
                    },
                    Component0::Terminal(s) => {
                        let next = self.new_state();
                        let t = self.new_terminal(Terminal::Terminal(s.clone()));
                        self.add_task(current, Task::Match(t, next));
                        current = next;
                    },
                }
                j = j + 1;
            }
            let code = match &red.code {
                Some(c) => c.clone(),
                None => {
                    return None;
                },
            };
            let ty = match &rule.export {
                Some(e) => e.clone(),
                None => {
                    return None;
                },
            };
            let idx = self.reductions.len();
            let ghost rs = self@.reductions;
            self.reductions.push(Reduction { reduction_code: code, reduction_type: ty });
            proof {
                assert(self@.reductions =~= rs.push(ReductionV { code: code@, ty: ty@ }));
            }
            self.add_task(current, Task::Pop(idx));
            k = k + 1;
        }
        Some(state)
    }
}

// ---------------------------------------------------------------------------
// Merging states

/// Every task names only states of `g`.
pub open spec fn task_in(t: Task, n: int) -> bool {
    match t {
        Task::Match(_, x) => x < n,
        Task::Jump(x) => x < n,
        Task::Pop(_) => true,
        Task::Push(a, b) => a < n && b < n,
    }
}

pub open spec fn states_wf(g: Seq<Seq<Task>>) -> bool {
    forall|s: int, i: int| 0 <= s < g.len() && 0 <= i < g[s].len() ==> task_in(#[trigger] g[s][i], g.len() as int)
}

pub open spec fn jump_free(ts: Seq<Task>) -> bool {
    forall|i: int| 0 <= i < ts.len() ==> !(#[trigger] ts[i] is Jump)
}

/// `rank` orders the jumps: every jump leads to a state of lower rank, and
/// every rank is below the number of states.
pub open spec fn jumps_ranked(g: Seq<Seq<Task>>, rank: Seq<nat>) -> bool {
    &&& rank.len() == g.len()
    &&& forall|s: int| 0 <= s < g.len() ==> #[trigger] rank[s] < g.len()
    &&& forall|s: int, i: int|
        0 <= s < g.len() && 0 <= i < g[s].len() ==> (#[trigger] g[s][i] matches Task::Jump(x) ==> (x < g.len()
            && rank[x as int] < rank[s]))
}

/// No chain of jumps comes back to where it started.
pub open spec fn jumps_acyclic(g: Seq<Seq<Task>>) -> bool {
    exists|rank: Seq<nat>| jumps_ranked(g, rank)
}

pub open spec fn jrank(g: Seq<Seq<Task>>) -> Seq<nat> {
    choose|rank: Seq<nat>| jumps_ranked(g, rank)
}

/// What following jumps may cost, for each state given a new state.
pub open spec fn kk(g: Seq<Seq<Task>>) -> int {
    g.len() + 4int
}

proof fn lemma_pot(k: int, a: int, b: int)
    requires
        0 <= k,
        0 <= b <= a,
    ensures
        k * b <= k * a,
        k * a == k * b + k * (a - b),
{
    assert(k * b <= k * a) by (nonlinear_arith)
        requires
            0 <= k,
            0 <= b <= a,
    ;
    assert(k * a == k * b + k * (a - b)) by (nonlinear_arith);
}

/// The states built so far, and the new state of each old one reached.
pub struct Merge {
    pub out: Seq<Seq<Task>>,
    pub map: Seq<Option<usize>>,
}

pub open spec fn push_task(m: Merge, s: int, t: Task) -> Merge {
    Merge { out: m.out.update(s, m.out[s].push(t)), ..m }
}

/// The state `n` of `g` and all it reaches, each made a new state where it
/// has none yet.
pub open spec fn merge_state_s(fuel: nat, g: Seq<Seq<Task>>, n: int, m: Merge) -> Merge
    decreases fuel, 0int,
{
    if fuel == 0 || !(0 <= n < m.map.len()) || m.map[n] is Some {
        m
    } else {
        collect_s((fuel - 1) as nat, g, m.out.len() as int, n, Merge { out: m.out.push(Seq::empty()), ..m })
    }
}

/// The tasks of the old state `from` gathered into the new state `state`,
/// following jumps.
pub open spec fn collect_s(fuel: nat, g: Seq<Seq<Task>>, state: int, from: int, m: Merge) -> Merge
    decreases fuel, g[from].len() + 1,
{
    if fuel == 0 || !(0 <= from < g.len()) || !(0 <= from < m.map.len()) {
        m
    } else {
        collect_tasks_s(fuel, g, state, from, 0, Merge { map: m.map.update(from, Some(state as usize)), ..m })
    }
}

pub open spec fn collect_tasks_s(fuel: nat, g: Seq<Seq<Task>>, state: int, from: int, i: int, m: Merge) -> Merge
    decreases fuel, g[from].len() - i,
{
    if fuel == 0 || !(0 <= from < g.len()) || i < 0 || i >= g[from].len() {
        m
    } else {
        let t = g[from][i];
        let f = (fuel - 1) as nat;
        let m2 = match t {
            Task::Jump(x) => collect_s(f, g, state, x as int, m),
            Task::Match(_, x) => push_task(merge_state_s(f, g, x as int, m), state, t),
            Task::Push(a, b) => push_task(merge_state_s(f, g, b as int, merge_state_s(f, g, a as int, m)), state, t),
            Task::Pop(_) => push_task(m, state, t),
        };
        collect_tasks_s(fuel, g, state, from, i + 1, m2)
    }
}

pub open spec fn opt_index(o: Option<usize>) -> usize {
    match o {
        Some(x) => x,
        None => 0,
    }
}

/// The task with its states renamed by `map`.
pub open spec fn remap_task(t: Task, map: Seq<Option<usize>>) -> Task {
    match t {
        Task::Push(a, b) => Task::Push(opt_index(map[a as int]), opt_index(map[b as int])),
        Task::Match(x, b) => Task::Match(x, opt_index(map[b as int])),
        _ => t,
    }
}

pub open spec fn remap_s(states: Seq<Seq<Task>>, map: Seq<Option<usize>>) -> Seq<Seq<Task>> {
    states.map_values(|ts: Seq<Task>| ts.map_values(|t: Task| remap_task(t, map)))
}

/// The new states where every state reached from the first one is one
/// state, with the tasks of the states it jumps to.
pub open spec fn collapse_jumps(g: Seq<Seq<Task>>) -> Seq<Seq<Task>> {
    let m = merge_state_s(((g.len() + 4) * g.len() + 2) as nat, g, 0, Merge { out: Seq::empty(), map: Seq::new(g.len(), |i: int| None) });
    remap_s(m.out, m.map)
}

/// The index of the first state equal to `s`.
pub open spec fn state_index(kept: Seq<Seq<Task>>, s: Seq<Task>) -> Option<int>
    decreases kept.len(),
{
    if kept.len() == 0 {
        None
    } else {
        match state_index(kept.drop_last(), s) {
            Some(i) => Some(i),
            None => if kept.last() == s {
                Some(kept.len() - 1)
            } else {
                None
            },
        }
    }
}

/// The states `states[i..]` kept where not equal to an earlier one, and where
/// each goes.
pub open spec fn dedup_from(states: Seq<Seq<Task>>, i: int, kept: Seq<Seq<Task>>, map: Seq<Option<usize>>) -> (Seq<Seq<Task>>, Seq<Option<usize>>)
    decreases states.len() - i,
{
    if i < 0 || i >= states.len() {
        (kept, map)
    } else {
        match state_index(kept, states[i]) {
            Some(k) => dedup_from(states, i + 1, kept, map.push(Some(k as usize))),
            None => dedup_from(states, i + 1, kept.push(states[i]), map.push(Some(kept.len() as usize))),
        }
    }
}

pub open spec fn dedup(states: Seq<Seq<Task>>) -> (Seq<Seq<Task>>, Seq<Option<usize>>) {
    dedup_from(states, 0, Seq::empty(), Seq::empty())
}

/// Equal states merged into the first of them, again and again until no two
/// are equal.
pub open spec fn dedup_all(states: Seq<Seq<Task>>) -> Seq<Seq<Task>>
    decreases states.len(),
{
    let (kept, map) = dedup(states);
    if kept.len() < states.len() {
        dedup_all(remap_s(kept, map))
    } else {
        states
    }
}

/// What the tasks gathered so far name: states already given a new state,
/// and no jump.
pub open spec fn task_ok(t: Task, map: Seq<Option<usize>>) -> bool {
    match t {
        Task::Match(_, x) => x < map.len() && map[x as int] is Some,
        Task::Push(a, b) => a < map.len() && map[a as int] is Some && b < map.len() && map[b as int] is Some,
        Task::Jump(_) => false,
        Task::Pop(_) => true,
    }
}

pub open spec fn merge_inv(g: Seq<Seq<Task>>, m: Merge) -> bool {
    &&& m.map.len() == g.len()
    &&& forall|i: int| 0 <= i < m.map.len() && (#[trigger] m.map[i]) is Some ==> m.map[i]->Some_0 < m.out.len()
    &&& forall|s: int, k: int| 0 <= s < m.out.len() && 0 <= k < m.out[s].len() ==> task_ok(#[trigger] m.out[s][k], m.map)
}

proof fn lemma_task_ok_covers(t: Task, m1: Seq<Option<usize>>, m2: Seq<Option<usize>>)
    requires
        task_ok(t, m1),
        covers(m1, m2),
    ensures
        task_ok(t, m2),
{
    match t {
        Task::Match(_, x) => {
            assert(m1[x as int] is Some);
        },
        Task::Push(a, b) => {
            assert(m1[a as int] is Some);
            assert(m1[b as int] is Some);
        },
        _ => {},
    }
}

proof fn lemma_merge_inv_covers(g: Seq<Seq<Task>>, m: Merge, map2: Seq<Option<usize>>)
    requires
        merge_inv(g, m),
        covers(m.map, map2),
        forall|i: int| 0 <= i < map2.len() && (#[trigger] map2[i]) is Some ==> map2[i]->Some_0 < m.out.len(),
    ensures
        merge_inv(g, Merge { map: map2, ..m }),
{
    assert forall|s: int, k: int| 0 <= s < m.out.len() && 0 <= k < m.out[s].len() implies task_ok(#[trigger] m.out[s][k], map2) by {
        lemma_task_ok_covers(m.out[s][k], m.map, map2);
    }
}

/// A copy of the tasks `ts`.
fn copy_tasks(ts: &Vec<Task>) -> (r: Vec<Task>)
    ensures
        r@ == ts@,
{
    let mut r: Vec<Task> = Vec::new();
    let mut i: usize = 0;
    while i < ts.len()
        invariant
            i <= ts@.len(),
            r@ == ts@.take(i as int),
        decreases ts@.len() - i,
    {
        r.push(ts[i]);
        i = i + 1;
        proof {
            assert(r@ =~= ts@.take(i as int));
        }
    }
    proof {
        assert(ts@.take(ts@.len() as int) =~= ts@);
    }
    r
}

pub open spec fn merge_view(out: Seq<State>, map: Seq<Option<usize>>) -> Merge {
    Merge { out: states_view(out), map }
}

/// Adds the task `t` to the new state `s`.
fn push_out(out: &mut Vec<State>, s: usize, t: Task)
    requires
        s < old(out)@.len(),
    ensures
        states_view(final(out)@) == states_view(old(out)@).update(s as int, states_view(old(out)@)[s as int].push(t)),
        final(out)@.len() == old(out)@.len(),
{
    out[s].tasks.push(t);
    proof {
        assert(states_view(out@) =~= states_view(old(out)@).update(s as int, states_view(old(out)@)[s as int].push(t)));
    }
}

impl NDA {
    /// Gives the state `state` and all it reaches a new state each, where it
    /// has none yet.
    fn merge_state(&self, state: usize, out: &mut Vec<State>, map: &mut Vec<Option<usize>>, Ghost(fuel): Ghost<nat>)
        requires
            states_wf(self@.states),
            jumps_acyclic(self@.states),
            state < self@.states.len(),
            merge_inv(self@.states, merge_view(old(out)@, old(map)@)),
            fuel >= kk(self@.states) * unvisited(old(map)@) + 2,
        ensures
            merge_view(final(out)@, final(map)@) == merge_state_s(fuel, self@.states, state as int, merge_view(old(out)@, old(map)@)),
            merge_inv(self@.states, merge_view(final(out)@, final(map)@)),
            covers(old(map)@, final(map)@),
            final(map)@[state as int] is Some,
            final(out)@.len() >= old(out)@.len(),
        decreases fuel, 1int,
    {
        if map[state].is_none() {
            let ghost m0 = merge_view(out@, map@);
            let ghost n0 = out@.len();
            out.push(State { tasks: Vec::new() });
            proof {
                assert(states_view(out@) =~= states_view(old(out)@).push(Seq::empty()));
                assert(merge_inv(self@.states, merge_view(out@, map@)));
            }
            let s = out.len() - 1;
            self.merge_state_collect(s, state, out, map, Ghost((fuel - 1) as nat));
        }
    }

    /// Gathers the tasks of the old state `from` into the new state `state`,
    /// following its jumps.
    fn merge_state_collect(
        &self,
        state: usize,
        from: usize,
        out: &mut Vec<State>,
        map: &mut Vec<Option<usize>>,
        Ghost(fuel): Ghost<nat>,
    )
        requires
            states_wf(self@.states),
            jumps_acyclic(self@.states),
            from < self@.states.len(),
            state < old(out)@.len(),
            merge_inv(self@.states, merge_view(old(out)@, old(map)@)),
            old(map)@[from as int] is None ==> fuel >= kk(self@.states) * unvisited(old(map)@) + 1,
            old(map)@[from as int] is Some ==> fuel >= kk(self@.states) * unvisited(old(map)@) + jrank(self@.states)[from as int] + 3,
        ensures
            merge_view(final(out)@, final(map)@) == collect_s(fuel, self@.states, state as int, from as int, merge_view(old(out)@, old(map)@)),
            merge_inv(self@.states, merge_view(final(out)@, final(map)@)),
            covers(old(map)@, final(map)@),
            final(map)@[from as int] is Some,
            final(out)@.len() >= old(out)@.len(),
        decreases fuel, 0int,
    {
        let ghost g = self@.states;
        let ghost was_unmapped = map@[from as int] is None;
        let ghost map0 = map@;
        proof {
            if was_unmapped {
                lemma_unvisited_set(map@, from as int, state);
            }
            assert(jumps_ranked(g, jrank(g)));
        }
        map.set(from, Some(state));
        proof {
            assert(covers(map0, map@));
            lemma_merge_inv_covers(g, merge_view(out@, map0), map@);
            if was_unmapped {
                let u0 = unvisited(map0) as int;
                let k0 = kk(g);
                assert(k0 * u0 == k0 * (u0 - 1) + k0) by (nonlinear_arith);
                assert(unvisited(map@) == u0 - 1);
                assert(fuel >= k0 * unvisited(map@) + k0 + 1);
            }
            if !was_unmapped {
                assert(map@ =~= map0.update(from as int, Some(state)));
                assert(unvisited(map@) == unvisited(map0)) by {
                    lemma_unvisited_covers(map0, map@);
                    lemma_unvisited_covers(map@, map0);
                }
            }
        }
        let ghost target = collect_s(fuel, g, state as int, from as int, merge_view(old(out)@, old(map)@));
        assert(target == collect_tasks_s(fuel, g, state as int, from as int, 0, merge_view(out@, map@)));
        let tasks = &self.states[from].tasks;
        assert(tasks@ == g[from as int]);
        let n = tasks.len();
        let mut i: usize = 0;
        while i < n
            invariant
                g == self@.states,
                states_wf(g),
                jumps_acyclic(g),
                jumps_ranked(g, jrank(g)),
                from < g.len(),
                tasks@ == g[from as int],
                n == tasks@.len(),
                i <= n,
                state < out@.len(),
                old(out)@.len() <= out@.len(),
                merge_inv(g, merge_view(out@, map@)),
                covers(map0, map@),
                map0 == old(map)@,
                map@[from as int] is Some,
                was_unmapped == (old(map)@[from as int] is None),
                was_unmapped ==> fuel >= kk(g) * unvisited(map@) + kk(g) + 1,
                !was_unmapped ==> fuel >= kk(g) * unvisited(map@) + jrank(g)[from as int] + 3,
                target == collect_tasks_s(fuel, g, state as int, from as int, i as int, merge_view(out@, map@)),
            decreases n - i,
        {
            let t = tasks[i];
            let ghost mi = merge_view(out@, map@);
            let ghost mapi = map@;
            proof {
                assert(task_in(g[from as int][i as int], g.len() as int));
            }
            match t {
                Task::Jump(x) => {
                    proof {
                        assert(g[from as int][i as int] is Jump);
                        assert(jrank(g)[x as int] < jrank(g)[from as int]);
                        assert(jrank(g)[x as int] < g.len());
                    }
                    self.merge_state_collect(state, x, out, map, Ghost((fuel - 1) as nat));
                },
                Task::Match(_, x) => {
                    self.merge_state(x, out, map, Ghost((fuel - 1) as nat));
                    let ghost m1 = merge_view(out@, map@);
                    push_out(out, state, t);
                    proof {
                        assert(merge_view(out@, map@) == push_task(m1, state as int, t));
                        assert forall|s: int, k: int| 0 <= s < out@.len() && 0 <= k < states_view(out@)[s].len() implies task_ok(
                            #[trigger] states_view(out@)[s][k],
                            map@,
                        ) by {
                            if s != state || k < m1.out[s].len() {
                                assert(states_view(out@)[s][k] == m1.out[s][k]);
                            }
                        }
                    }
                },
                Task::Push(a, b) => {
                    self.merge_state(a, out, map, Ghost((fuel - 1) as nat));
                    let ghost mapa = map@;
                    proof {
                        lemma_unvisited_covers(mapi, map@);
                        lemma_pot(kk(g), unvisited(mapi) as int, unvisited(map@) as int);
                    }
                    self.merge_state(b, out, map, Ghost((fuel - 1) as nat));
                    let ghost m1 = merge_view(out@, map@);
                    proof {
                        assert(map@[a as int] is Some) by {
                            assert(mapa[a as int] is Some);
                        }
                    }
                    push_out(out, state, t);
                    proof {
                        assert(merge_view(out@, map@) == push_task(m1, state as int, t));
                        assert forall|s: int, k: int| 0 <= s < out@.len() && 0 <= k < states_view(out@)[s].len() implies task_ok(
                            #[trigger] states_view(out@)[s][k],
                            map@,
                        ) by {
                            if s != state || k < m1.out[s].len() {
                                assert(states_view(out@)[s][k] == m1.out[s][k]);
                            }
                        }
                    }
                },
                Task::Pop(_) => {
                    let ghost m1 = merge_view(out@, map@);
                    push_out(out, state, t);
                    proof {
                        assert(merge_view(out@, map@) == push_task(m1, state as int, t));
                        assert forall|s: int, k: int| 0 <= s < out@.len() && 0 <= k < states_view(out@)[s].len() implies task_ok(
                            #[trigger] states_view(out@)[s][k],
                            map@,
                        ) by {
                            if s != state || k < m1.out[s].len() {
                                assert(states_view(out@)[s][k] == m1.out[s][k]);
                            }
                        }
                    }
                },
            }
            proof {
                lemma_unvisited_covers(mapi, map@);
                lemma_pot(kk(g), unvisited(mapi) as int, unvisited(map@) as int);
            }
            i = i + 1;
        }
    }
}

/// No two states are equal.
pub open spec fn distinct_states(ss: Seq<Seq<Task>>) -> bool {
    forall|a: int, b: int| 0 <= a < b < ss.len() ==> #[trigger] ss[a] != #[trigger] ss[b]
}

/// Every task of `ss` names states of `ss`, and none jumps.
pub open spec fn states_ok(ss: Seq<Seq<Task>>) -> bool {
    forall|s: int, k: int|
        0 <= s < ss.len() && 0 <= k < ss[s].len() ==> match #[trigger] ss[s][k] {
            Task::Match(_, x) => x < ss.len(),
            Task::Push(a, b) => a < ss.len() && b < ss.len(),
            Task::Jump(_) => false,
            Task::Pop(_) => true,
        }
}

proof fn lemma_collapsed_ok(g: Seq<Seq<Task>>, m: Merge)
    requires
        merge_inv(g, m),
    ensures
        states_ok(remap_s(m.out, m.map)),
{
    let r = remap_s(m.out, m.map);
    assert forall|s: int, k: int| 0 <= s < r.len() && 0 <= k < r[s].len() implies match #[trigger] r[s][k] {
        Task::Match(_, x) => x < r.len(),
        Task::Push(a, b) => a < r.len() && b < r.len(),
        Task::Jump(_) => false,
        Task::Pop(_) => true,
    } by {
        let t = m.out[s][k];
        assert(task_ok(t, m.map));
        assert(r[s][k] == remap_task(t, m.map));
        match t {
            Task::Match(_, x) => {
                assert(m.map[x as int] is Some);
            },
            Task::Push(a, b) => {
                assert(m.map[a as int] is Some);
                assert(m.map[b as int] is Some);
            },
            _ => {},
        }
    }
}

proof fn lemma_state_index(kept: Seq<Seq<Task>>, st: Seq<Task>)
    ensures
        match state_index(kept, st) {
            Some(i) => 0 <= i < kept.len() && kept[i] == st && forall|j: int| 0 <= j < i ==> kept[j] != st,
            None => forall|j: int| 0 <= j < kept.len() ==> kept[j] != st,
        },
    decreases kept.len(),
{
    if kept.len() > 0 {
        let d = kept.drop_last();
        lemma_state_index(d, st);
        assert(forall|j: int| 0 <= j < d.len() ==> d[j] == kept[j]);
    }
}

/// What the deduplication of `states` gives: an entry for each state, naming
/// one of the states kept, which are states of `states`; all of them where
/// none was dropped.
proof fn lemma_dedup_from(states: Seq<Seq<Task>>, i: int, kept: Seq<Seq<Task>>, map: Seq<Option<usize>>)
    requires
        0 <= i <= states.len(),
        map.len() == i,
        forall|j: int| 0 <= j < i ==> (#[trigger] map[j]) is Some && map[j]->Some_0 < kept.len(),
        forall|x: int| 0 <= x < kept.len() ==> states.contains(#[trigger] kept[x]),
        kept.len() <= i,
        kept.len() == i ==> kept == states.take(i),
        distinct_states(kept),
    ensures
        ({
            let (k2, m2) = dedup_from(states, i, kept, map);
            &&& distinct_states(k2)
            &&& m2.len() == states.len()
            &&& forall|j: int| 0 <= j < states.len() ==> (#[trigger] m2[j]) is Some && m2[j]->Some_0 < k2.len()
            &&& forall|x: int| 0 <= x < k2.len() ==> states.contains(#[trigger] k2[x])
            &&& k2.len() <= states.len()
            &&& k2.len() == states.len() ==> k2 == states
        }),
    decreases states.len() - i,
{
    if i < states.len() {
        lemma_state_index(kept, states[i]);
        match state_index(kept, states[i]) {
            Some(k) => {
                let m1 = map.push(Some(k as usize));
                assert forall|j: int| 0 <= j < i + 1 implies (#[trigger] m1[j]) is Some && m1[j]->Some_0 < kept.len() by {
                    if j < i {
                        assert(m1[j] == map[j]);
                    }
                }
                lemma_dedup_from(states, i + 1, kept, m1);
            },
            None => {
                let k1 = kept.push(states[i]);
                let m1 = map.push(Some(kept.len() as usize));
                assert forall|j: int| 0 <= j < i + 1 implies (#[trigger] m1[j]) is Some && m1[j]->Some_0 < k1.len() by {
                    if j < i {
                        assert(m1[j] == map[j]);
                    }
                }
                assert forall|x: int| 0 <= x < k1.len() implies states.contains(#[trigger] k1[x]) by {
                    if x < kept.len() {
                        assert(k1[x] == kept[x]);
                    } else {
                        assert(states[i] == k1[x]);
                    }
                }
                if k1.len() == i + 1 {
                    assert(k1 =~= states.take(i + 1));
                }
                assert(distinct_states(k1)) by {
                    assert forall|a: int, b: int| 0 <= a < b < k1.len() implies #[trigger] k1[a] != #[trigger] k1[b] by {
                        if b < kept.len() {
                            assert(k1[a] == kept[a] && k1[b] == kept[b]);
                        } else {
                            assert(k1[a] == kept[a]);
                        }
                    }
                }
                lemma_dedup_from(states, i + 1, k1, m1);
            },
        }
    } else {
        if kept.len() == states.len() {
            assert(kept =~= states);
        }
    }
}

/// Whether two states have the same tasks.
fn same_tasks(a: &Vec<Task>, b: &Vec<Task>) -> (r: bool)
    ensures
        r == (a@ == b@),
{
    if a.len() != b.len() {
        return false;
    }
    let mut i: usize = 0;
    while i < a.len()
        invariant
            a@.len() == b@.len(),
            i <= a@.len(),
            forall|j: int| 0 <= j < i ==> a@[j] == b@[j],
        decreases a@.len() - i,
    {
        if a[i] != b[i] {
            return false;
        }
        i = i + 1;
    }
    proof {
        assert(a@ =~= b@);
    }
    true
}

impl NDA {
    /// Renames the states that the tasks name by `map`.
    fn remap(states: &mut Vec<State>, map: &Vec<Option<usize>>)
        requires
            forall|s: int, k: int|
                0 <= s < old(states)@.len() && 0 <= k < states_view(old(states)@)[s].len() ==> task_ok(
                    #[trigger] states_view(old(states)@)[s][k],
                    map@,
                ),
        ensures
            states_view(final(states)@) == remap_s(states_view(old(states)@), map@),
    {
        let ghost old_v = states_view(states@);
        let n = states.len();
        let mut i: usize = 0;
        while i < n
            invariant
                n == states@.len(),
                n == old_v.len(),
                i <= n,
                forall|s: int, k: int|
                    0 <= s < old_v.len() && 0 <= k < old_v[s].len() ==> task_ok(#[trigger] old_v[s][k], map@),
                forall|j: int| 0 <= j < i ==> states_view(states@)[j] == remap_s(old_v, map@)[j],
                forall|j: int| i <= j < n ==> states_view(states@)[j] == old_v[j],
            decreases n - i,
        {
            let tasks = copy_tasks(&states[i].tasks);
            assert(tasks@ == old_v[i as int]);
            let m = tasks.len();
            let mut newt: Vec<Task> = Vec::new();
            let mut k: usize = 0;
            while k < m
                invariant
                    m == tasks@.len(),
                    tasks@ == old_v[i as int],
                    i < n,
                    n == old_v.len(),
                    k <= m,
                    forall|s: int, k2: int|
                        0 <= s < old_v.len() && 0 <= k2 < old_v[s].len() ==> task_ok(#[trigger] old_v[s][k2], map@),
                    newt@ == tasks@.take(k as int).map_values(|t: Task| remap_task(t, map@)),
                decreases m - k,
            {
                let t = tasks[k];
                assert(task_ok(old_v[i as int][k as int], map@));
                let t2 = match t {
                    Task::Push(a, b) => Task::Push(map[a].unwrap(), map[b].unwrap()),
                    Task::Match(x, b) => Task::Match(x, map[b].unwrap()),
                    _ => t,
                };
                newt.push(t2);
                k = k + 1;
                proof {
                    assert(newt@ =~= tasks@.take(k as int).map_values(|t: Task| remap_task(t, map@)));
                }
            }
            proof {
                assert(tasks@.take(m as int) =~= tasks@);
            }
            let ghost before = states@;
            states.set(i, State { tasks: newt });
            proof {
                assert forall|j: int| 0 <= j < i + 1 implies states_view(states@)[j] == remap_s(old_v, map@)[j] by {
                    if j < i {
                        assert(states@[j] == before[j]);
                    }
                }
                assert forall|j: int| i + 1 <= j < n implies states_view(states@)[j] == old_v[j] by {
                    assert(states@[j] == before[j]);
                }
            }
            i = i + 1;
        }
        proof {
            assert(states_view(states@) =~= remap_s(old_v, map@));
        }
    }

    /// Keeps the first of each group of equal states, and maps each state to
    /// the one kept for it. Whether a state was dropped.
    fn merge_dup(states: &mut Vec<State>, map: &mut Vec<Option<usize>>) -> (r: bool)
        requires
            old(map)@.len() == 0,
        ensures
            (states_view(final(states)@), final(map)@) == dedup(states_view(old(states)@)),
            r == (final(states)@.len() < old(states)@.len()),
    {
        let ghost sv = states_view(states@);
        let n = states.len();
        let mut kept: Vec<State> = Vec::new();
        let mut changed = false;
        let mut i: usize = 0;
        proof {
            assert(states_view(kept@) =~= Seq::<Seq<Task>>::empty());
            assert(map@ =~= Seq::<Option<usize>>::empty());
        }
        while i < n
            invariant
                n == states@.len(),
                sv == states_view(states@),
                i <= n,
                kept@.len() <= i,
                changed == (kept@.len() < i),
                dedup(sv) == dedup_from(sv, i as int, states_view(kept@), map@),
            decreases n - i,
        {
            let nk = kept.len();
            let mut k: usize = 0;
            let mut found = false;
            while k < nk
                invariant_except_break
                    !found,
                invariant
                    nk == kept@.len(),
                    k <= nk,
                    i < n,
                    n == states@.len(),
                    sv == states_view(states@),
                    forall|j: int| 0 <= j < k ==> states_view(kept@)[j] != sv[i as int],
                ensures
                    found ==> k < nk && states_view(kept@)[k as int] == sv[i as int],
                    !found ==> k == nk,
                decreases nk - k,
            {
                if same_tasks(&kept[k].tasks, &states[i].tasks) {
                    found = true;
                    break;
                }
                k = k + 1;
            }
            proof {
                lemma_state_index(states_view(kept@), sv[i as int]);
                if found {
                    assert(state_index(states_view(kept@), sv[i as int]) == Some(k as int));
                } else {
                    assert(state_index(states_view(kept@), sv[i as int]) is None);
                }
            }
            if found {
                assert(states_view(kept@)[k as int] == sv[i as int]);
                map.push(Some(k));
                changed = true;
            } else {
                map.push(Some(nk));
                let ghost kv = states_view(kept@);
                let copy = copy_tasks(&states[i].tasks);
                kept.push(State { tasks: copy });
                proof {
                    assert(states_view(kept@) =~= kv.push(sv[i as int]));
                }
            }
            i = i + 1;
        }
        let nk = kept.len();
        *states = kept;
        nk < n
    }
}

proof fn lemma_kept_tasks_ok(cur: Seq<Seq<Task>>, kept: Seq<Seq<Task>>, m: Seq<Option<usize>>)
    requires
        states_ok(cur),
        m.len() == cur.len(),
        forall|j: int| 0 <= j < cur.len() ==> (#[trigger] m[j]) is Some && m[j]->Some_0 < kept.len(),
        forall|x: int| 0 <= x < kept.len() ==> cur.contains(#[trigger] kept[x]),
    ensures
        forall|s: int, k: int| 0 <= s < kept.len() && 0 <= k < kept[s].len() ==> task_ok(#[trigger] kept[s][k], m),
        states_ok(remap_s(kept, m)),
{
    assert forall|s: int, k: int| 0 <= s < kept.len() && 0 <= k < kept[s].len() implies task_ok(#[trigger] kept[s][k], m) by {
        assert(cur.contains(kept[s]));
        let j = choose|j: int| 0 <= j < cur.len() && cur[j] == kept[s];
        assert(cur[j][k] == kept[s][k]);
        match kept[s][k] {
            Task::Match(_, x) => {
                assert(m[x as int] is Some);
            },
            Task::Push(a, b) => {
                assert(m[a as int] is Some);
                assert(m[b as int] is Some);
            },
            _ => {},
        }
    }
    let r = remap_s(kept, m);
    assert forall|s: int, k: int| 0 <= s < r.len() && 0 <= k < r[s].len() implies match #[trigger] r[s][k] {
        Task::Match(_, x) => x < r.len(),
        Task::Push(a, b) => a < r.len() && b < r.len(),
        Task::Jump(_) => false,
        Task::Pop(_) => true,
    } by {
        let t = kept[s][k];
        assert(task_ok(t, m));
        assert(r[s][k] == remap_task(t, m));
        match t {
            Task::Match(_, x) => {
                assert(m[x as int] is Some);
            },
            Task::Push(a, b) => {
                assert(m[a as int] is Some);
                assert(m[b as int] is Some);
            },
            _ => {},
        }
    }
}

impl NDA {
    /// Collapses the jumps of the automaton: each state reached from the
    /// first one becomes one state with the tasks of the states it jumps to;
    /// then equal states are merged until no two are equal.
    pub fn merge(&mut self)
        requires
            mergeable(old(self)@.states, true),
        ensures
            final(self)@ == (NdaV { states: dedup_all(collapse_jumps(old(self)@.states)), ..old(self)@ }),
            distinct_states(final(self)@.states),
            states_ok(final(self)@.states),
    {
        let ghost g = self@.states;
        let n = self.states.len();
        let mut new_states: Vec<State> = Vec::new();
        let mut map: Vec<Option<usize>> = Vec::new();
        let mut i: usize = 0;
        while i < n
            invariant
                i <= n,
                map@ == Seq::new(i as nat, |x: int| None::<usize>),
            decreases n - i,
        {
            map.push(None);
            i = i + 1;
            proof {
                assert(map@ =~= Seq::new(i as nat, |x: int| None::<usize>));
            }
        }
        proof {
            lemma_unvisited_none(n as nat);
            assert(states_view(new_states@) =~= Seq::<Seq<Task>>::empty());
        }
        self.merge_state(0, &mut new_states, &mut map, Ghost(((n + 4) * n + 2) as nat));
        proof {
            lemma_collapsed_ok(g, merge_view(new_states@, map@));
        }
        Self::remap(&mut new_states, &map);
        let ghost target = dedup_all(collapse_jumps(g));
        loop
            invariant
                dedup_all(states_view(new_states@)) == target,
                states_ok(states_view(new_states@)),
            ensures
                states_view(new_states@) == target,
                distinct_states(target),
                states_ok(target),
            decreases new_states@.len(),
        {
            let ghost cur = states_view(new_states@);
            let mut map2: Vec<Option<usize>> = Vec::new();
            let changed = Self::merge_dup(&mut new_states, &mut map2);
            proof {
                assert(cur.take(0) =~= Seq::<Seq<Task>>::empty());
                lemma_dedup_from(cur, 0, Seq::empty(), Seq::empty());
            }
            if !changed {
                assert(states_view(new_states@) == cur);
                break;
            }
            proof {
                lemma_kept_tasks_ok(cur, states_view(new_states@), map2@);
            }
            let ghost kept_len = new_states@.len();
            Self::remap(&mut new_states, &map2);
            assert(new_states@.len() == states_view(new_states@).len());
            assert(new_states@.len() == kept_len);
        }
        self.states = new_states;
    }
}

proof fn lemma_terminal_index(ts: Seq<TerminalV>, t: TerminalV)
    ensures
        match terminal_index(ts, t) {
            Some(i) => 0 <= i < ts.len() && ts[i] == t && forall|j: int| 0 <= j < i ==> ts[j] != t,
            None => forall|j: int| 0 <= j < ts.len() ==> ts[j] != t,
        },
    decreases ts.len(),
{
    if ts.len() > 0 {
        let d = ts.drop_last();
        lemma_terminal_index(d, t);
        assert(forall|j: int| 0 <= j < d.len() ==> d[j] == ts[j]);
    }
}

} // verus!
