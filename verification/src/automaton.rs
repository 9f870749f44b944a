use vstd::prelude::*;

use crate::closure::{ItemTable, tokens_view};
use crate::collection::{heads_view, shifts};
use crate::lr::{
    Error, LR, Position, Positions, ReductendPosition, StateV, Token, TokenV, find_rule,
    lemma_find_rule, missing_rule, missing_rule_message, sorted_positions,
};
use crate::parser::{Component0, Component0V, ComponentV, Rule, RuleV, opt_view, rules_view};

verus! {

// ---------------------------------------------------------------------------
// The parts of an automaton

/// What the generated parser runs when it reduces a reductend.
#[derive(Debug)]
pub struct Reduction {
    pub task: Option<ReductionTask>,
}

/// The user code of a reductend, with its arguments and the type it returns.
#[derive(Debug)]
pub struct ReductionTask {
    pub code: String,
    pub args: Vec<Option<Arg>>,
    pub return_type: String,
}

/// A named component passed to the user code, with its type.
#[derive(Debug)]
pub struct Arg {
    pub identifier: String,
    pub arg_type: String,
}

#[derive(Debug, Clone, Copy, PartialEq, Eq, Structural)]
pub enum Action {
    Shift(usize),
    Reduce(usize),
    Halt,
}

/// A state of the automaton: its items, its action on each terminal (by
/// index), and the state it moves to after each reduction (by index).
#[derive(Debug)]
pub struct State {
    pub position: Positions,
    pub lookahead: Vec<(usize, Action)>,
    pub goto: Vec<(usize, usize)>,
}

/// A parse table: the terminals, the reductions and the states, state 0 the
/// initial one, and the type that the start rule exports. `reductends` gives
/// the reductend behind each reduction.
pub struct Automaton {
    pub terminals: Vec<Token>,
    pub reductions: Vec<Reduction>,
    pub states: Vec<State>,
    pub export: Option<String>,
    pub reductends: Ghost<Seq<ReductendPosition>>,
}

pub struct ArgV {
    pub identifier: Seq<char>,
    pub arg_type: Seq<char>,
}

pub struct TaskV {
    pub code: Seq<char>,
    pub args: Seq<Option<ArgV>>,
    pub return_type: Seq<char>,
}

pub struct ReductionV {
    pub task: Option<TaskV>,
}

impl View for Arg {
    type V = ArgV;

    open spec fn view(&self) -> ArgV {
        ArgV { identifier: self.identifier@, arg_type: self.arg_type@ }
    }
}

pub open spec fn arg_opt_view(a: Option<Arg>) -> Option<ArgV> {
    match a {
        Some(x) => Some(x@),
        None => None,
    }
}

impl View for ReductionTask {
    type V = TaskV;

    open spec fn view(&self) -> TaskV {
        TaskV {
            code: self.code@,
            args: self.args@.map_values(|a: Option<Arg>| arg_opt_view(a)),
            return_type: self.return_type@,
        }
    }
}

impl View for Reduction {
    type V = ReductionV;

    open spec fn view(&self) -> ReductionV {
        ReductionV {
            task: match self.task {
                Some(t) => Some(t@),
                None => None,
            },
        }
    }
}

// ---------------------------------------------------------------------------
// The reduction of a reductend

/// What the arguments of a reductend's code come to: all fine, a rule that
/// is not defined, or a rule without an exported type.
pub enum ArgsStatus {
    Fine,
    Missing(Seq<char>),
    NoExport,
}

pub open spec fn arg_status(rules: Seq<RuleV>, c: ComponentV) -> ArgsStatus {
    match c.var {
        None => ArgsStatus::Fine,
        Some(_) => match c.handle {
            Component0V::Rule(n) => match find_rule(rules, n) {
                None => ArgsStatus::Missing(n),
                Some(j) => if rules[j].export is Some {
                    ArgsStatus::Fine
                } else {
                    ArgsStatus::NoExport
                },
            },
            _ => ArgsStatus::Fine,
        },
    }
}

/// The status of the first component of `comps` whose argument is not fine.
pub open spec fn args_status(rules: Seq<RuleV>, comps: Seq<ComponentV>) -> ArgsStatus
    decreases comps.len(),
{
    if comps.len() == 0 {
        ArgsStatus::Fine
    } else {
        match arg_status(rules, comps[0]) {
            ArgsStatus::Fine => args_status(rules, comps.drop_first()),
            s => s,
        }
    }
}

/// Whether the reduction of `rp` can be built: `NoExport` where a type that
/// its code needs is missing.
pub open spec fn task_status(rules: Seq<RuleV>, rp: ReductendPosition) -> ArgsStatus {
    let red = rules[rp.rule as int].reductends[rp.reductend as int];
    if red.code is None {
        ArgsStatus::Fine
    } else {
        match args_status(rules, red.components) {
            ArgsStatus::Fine => if rules[rp.rule as int].export is Some {
                ArgsStatus::Fine
            } else {
                ArgsStatus::NoExport
            },
            s => s,
        }
    }
}

/// The argument that the code receives for the component `c`.
pub open spec fn arg_of(rules: Seq<RuleV>, c: ComponentV) -> Option<ArgV> {
    match c.var {
        None => None,
        Some(id) => Some(
            ArgV {
                identifier: id,
                arg_type: match c.handle {
                    Component0V::Rule(n) => rules[find_rule(rules, n)->Some_0].export->Some_0,
                    _ => "&str"@,
                },
            },
        ),
    }
}

/// The reduction of the reductend `rp`.
pub open spec fn reduction_of(rules: Seq<RuleV>, rp: ReductendPosition) -> ReductionV {
    let red = rules[rp.rule as int].reductends[rp.reductend as int];
    ReductionV {
        task: match red.code {
            None => None,
            Some(code) => Some(
                TaskV {
                    code,
                    args: red.components.map_values(|c: ComponentV| arg_of(rules, c)),
                    return_type: rules[rp.rule as int].export->Some_0,
                },
            ),
        },
    }
}

pub open spec fn valid_rp(rules: Seq<RuleV>, rp: ReductendPosition) -> bool {
    rp.rule < rules.len() && rp.reductend < rules[rp.rule as int].reductends.len()
}

proof fn lemma_args_status_skip(rules: Seq<RuleV>, comps: Seq<ComponentV>, i: int)
    requires
        0 <= i < comps.len(),
        forall|j: int| 0 <= j < i ==> arg_status(rules, #[trigger] comps[j]) is Fine,
    ensures
        args_status(rules, comps) == (match arg_status(rules, comps[i]) {
            ArgsStatus::Fine => args_status(rules, comps.skip(i + 1)),
            s => s,
        }),
    decreases i,
{
    if i > 0 {
        let d = comps.drop_first();
        assert forall|j: int| 0 <= j < i - 1 implies arg_status(rules, #[trigger] d[j]) is Fine by {
            assert(d[j] == comps[j + 1]);
        }
        lemma_args_status_skip(rules, d, i - 1);
        assert(d[i - 1] == comps[i]);
        assert(d.skip(i) =~= comps.skip(i + 1));
        assert(arg_status(rules, comps[0]) is Fine);
    }
}

/// The reduction of the reductend `rp`.
pub fn make_reduction(rules: &Vec<Rule>, rp: ReductendPosition) -> (r: Result<Reduction, Error>)
    requires
        valid_rp(rules_view(rules@), rp),
        !(task_status(rules_view(rules@), rp) is NoExport),
    ensures
        match r {
            Ok(red) => task_status(rules_view(rules@), rp) is Fine && red@ == reduction_of(rules_view(rules@), rp),
            Err(e) => task_status(rules_view(rules@), rp) matches ArgsStatus::Missing(n) && (e matches Error::Error(m)
                && m@ == missing_rule_message(n)),
        },
{
    let ghost rv = rules_view(rules@);
    let nr = rules.len();
    let rule_ref = &rules[rp.rule];
    let reductend = &rule_ref.reductends.reductends[rp.reductend];
    proof {
        assert(rv[rp.rule as int] == rule_ref@);
        assert(rv[rp.rule as int].reductends[rp.reductend as int] == reductend@);
    }
    let task = match &reductend.code {
        None => None,
        Some(code) => {
            let components = &reductend.components.components;
            let ghost cv = reductend@.components;
            let mut args: Vec<Option<Arg>> = Vec::new();
            let mut i: usize = 0;
            while i < components.len()
                invariant
                    rv == rules_view(rules@),
                    nr == rules@.len(),
                    cv == crate::parser::components_view(components@),
                    i <= components.len(),
                    !(task_status(rv, rp) is NoExport),
                    task_status(rv, rp) == (match args_status(rv, cv) {
                        ArgsStatus::Fine => if rv[rp.rule as int].export is Some {
                            ArgsStatus::Fine
                        } else {
                            ArgsStatus::NoExport
                        },
                        s => s,
                    }),
                    forall|j: int| 0 <= j < i ==> arg_status(rv, #[trigger] cv[j]) is Fine,
                    args@.len() == i,
                    forall|j: int| 0 <= j < i ==> arg_opt_view(#[trigger] args@[j]) == arg_of(rv, cv[j]),
                decreases components.len() - i,
            {
                let component = &components[i];
                proof {
                    assert(cv[i as int] == component@);
                    lemma_args_status_skip(rv, cv, i as int);
                }
                let arg = match &component.var {
                    None => None,
                    Some(identifier) => {
                        let arg_type = match &component.handle {
                            Component0::Rule(n) => {
                                proof {
                                    lemma_find_rule(rv, n@);
                                }
                                let j = match Position::rule_index(rules, n.as_str()) {
                                    Ok(j) => j,
                                    Err(e) => return Err(e),
                                };
                                assert(rv[j as int] == rules@[j as int]@);
                                match &rules[j].export {
                                    Some(t) => t.clone(),
                                    None => {
                                        proof {
                                            assert(arg_status(rv, cv[i as int]) is NoExport);
                                        }
                                        return Err(missing_rule(n.as_str()));
                                    },
                                }
                            },
                            _ => String::from_str("&str"),
                        };
                        Some(Arg { identifier: identifier.clone(), arg_type })
                    },
                };
                args.push(arg);
                i = i + 1;
            }
            proof {
                assert(cv.skip(i as int) =~= Seq::<ComponentV>::empty());
                if i > 0 {
                    lemma_args_status_skip(rv, cv, i - 1);
                }
                assert(args_status(rv, cv) is Fine);
            }
            let return_type = match &rule_ref.export {
                Some(t) => t.clone(),
                None => {
                    return Err(missing_rule(rule_ref.identifier.as_str()));
                },
            };
            proof {
                assert(args@.map_values(|a: Option<Arg>| arg_opt_view(a)) =~= cv.map_values(
                    |c: ComponentV| arg_of(rv, c),
                ));
            }
            Some(ReductionTask { code: code.clone(), args, return_type })
        },
    };
    Ok(Reduction { task })
}


// ---------------------------------------------------------------------------
// Baking the states of an LR automaton into a table

pub struct AStateV {
    pub position: Seq<Position>,
    pub lookahead: Seq<(usize, Action)>,
    pub goto: Seq<(usize, usize)>,
}

impl View for State {
    type V = AStateV;

    open spec fn view(&self) -> AStateV {
        AStateV { position: self.position@, lookahead: self.lookahead@, goto: self.goto@ }
    }
}

pub open spec fn astates_view(s: Seq<State>) -> Seq<AStateV> {
    s.map_values(|st: State| st@)
}

pub open spec fn reductions_view(s: Seq<Reduction>) -> Seq<ReductionV> {
    s.map_values(|r: Reduction| r@)
}

/// The token of the table with index `u`.
pub open spec fn tok(tab: &ItemTable, u: int) -> TokenV {
    tab.tokens@[u]@
}

/// The token `t` is that of a key of some shift or reduce entry of `s`.
pub open spec fn keyed(tab: &ItemTable, s: StateV, t: TokenV) -> bool {
    ||| exists|y: int| 0 <= y < s.next.len() && tok(tab, (#[trigger] s.next[y]).0 as int) == t
    ||| exists|y: int| 0 <= y < s.reduce.len() && tok(tab, (#[trigger] s.reduce[y]).0 as int) == t
}

/// The terminals of `terms` from `from` on are all keyed in `s`.
pub open spec fn terms_keyed(tab: &ItemTable, s: StateV, terms: Seq<TokenV>, from: int) -> bool {
    forall|x: int| from <= x < terms.len() ==> #[trigger] keyed(tab, s, terms[x])
}

/// The reductends of `rps` from `from` on are all used in `s`.
pub open spec fn rps_used(s: StateV, rps: Seq<ReductendPosition>, from: int) -> bool {
    forall|x: int| from <= x < rps.len() ==> state_uses(s, #[trigger] rps[x])
}

/// One of the first `n` states of `sts` shifts or reduces on a table token
/// whose lexeme class is `t`.
pub open spec fn keyed_before(tab: &ItemTable, sts: Seq<StateV>, n: int, t: TokenV) -> bool {
    exists|j: int| 0 <= j < n && #[trigger] keyed(tab, sts[j], t)
}

/// One of the first `n` states of `sts` reduces, or returns after, `rp`.
pub open spec fn used_before(sts: Seq<StateV>, n: int, rp: ReductendPosition) -> bool {
    exists|j: int| 0 <= j < n && #[trigger] state_uses(sts[j], rp)
}

/// Some state of `sts` shifts or reduces on a table token whose lexeme class is `t`.
pub open spec fn terminal_used(tab: &ItemTable, sts: Seq<StateV>, t: TokenV) -> bool {
    exists|j: int| 0 <= j < sts.len() && #[trigger] keyed(tab, sts[j], t)
}

/// The items of `h`.
pub open spec fn items_of(tab: &ItemTable, h: crate::closure::HeadV) -> Set<Position> {
    Set::new(|p: Position| exists|i: int| 0 <= i < tab.np() && h.present[i] && tab.positions@[i] == p)
}

/// `la` holds the entry `(x, a)`.
pub open spec fn has_action(la: Seq<(usize, Action)>, x: int, a: Action) -> bool {
    exists|k: int| 0 <= k < la.len() && #[trigger] la[k] == (x as usize, a)
}

/// `goto` holds the entry `(r, s)`.
pub open spec fn has_pair(goto: Seq<(usize, usize)>, r: int, s: int) -> bool {
    exists|k: int| 0 <= k < goto.len() && #[trigger] goto[k] == (r as usize, s as usize)
}

/// No two entries of `la` have the same key.
pub open spec fn la_keys_distinct(la: Seq<(usize, Action)>) -> bool {
    forall|a: int, b: int| 0 <= a < b < la.len() ==> (#[trigger] la[a]).0 != (#[trigger] la[b]).0
}

pub open spec fn pair_keys_distinct(g: Seq<(usize, usize)>) -> bool {
    forall|a: int, b: int| 0 <= a < b < g.len() ==> (#[trigger] g[a]).0 != (#[trigger] g[b]).0
}

/// The state `s` shifts or reduces on the table token `u`.
pub open spec fn acts_on(s: StateV, u: int) -> bool {
    (exists|x: int| 0 <= x < s.next.len() && (#[trigger] s.next[x]).0 == u) || (exists|x: int|
        0 <= x < s.reduce.len() && (#[trigger] s.reduce[x]).0 == u)
}

/// The entry `k` of the lookahead of a baked state comes from the LR state `s`.
pub open spec fn la_justified(
    tab: &ItemTable,
    s: StateV,
    terms: Seq<TokenV>,
    rps: Seq<ReductendPosition>,
    e: (usize, Action),
) -> bool {
    match e.1 {
        Action::Shift(t) => exists|x: int|
            0 <= x < s.next.len() && (#[trigger] s.next[x]).1 == t && tok(tab, s.next[x].0 as int) == terms[e.0 as int],
        Action::Reduce(r) => exists|x: int|
            0 <= x < s.reduce.len() && tok(tab, (#[trigger] s.reduce[x]).0 as int) == terms[e.0 as int] && r
                < rps.len() && s.reduce[x].1 == seq![rps[r as int]],
        Action::Halt => e.0 == 0 && !acts_on(s, 0),
    }
}

/// The entry of the return table of a baked state comes from the LR state `s`.
pub open spec fn goto_justified(s: StateV, rps: Seq<ReductendPosition>, e: (usize, usize)) -> bool {
    exists|x: int| 0 <= x < s.goto.len() && (#[trigger] s.goto[x]).0 == rps[e.0 as int] && s.goto[x].1 == e.1
}

/// The lookahead table `la` has exactly the entries of `s`: a shift for each
/// token it shifts, a reduction for each token it reduces on, and a halt on the
/// end of input where it does neither, with terminals and reductions numbered
/// by `terms` and `rps`.
pub open spec fn lookahead_baked(
    tab: &ItemTable,
    s: StateV,
    terms: Seq<TokenV>,
    rps: Seq<ReductendPosition>,
    la: Seq<(usize, Action)>,
) -> bool {
    &&& la_keys_distinct(la)
    &&& forall|k: int| 0 <= k < la.len() ==> (#[trigger] la[k]).0 < terms.len() && la_justified(tab, s, terms, rps, la[k])
    &&& forall|x: int| 0 <= x < s.next.len() ==> #[trigger] shift_covered(tab, terms, la, s.next[x])
    &&& forall|x: int| 0 <= x < s.reduce.len() ==> #[trigger] reduce_covered(tab, terms, rps, la, s.reduce[x])
    &&& !acts_on(s, 0) ==> has_action(la, 0, Action::Halt)
}

/// `la` shifts to the state `e.1` on the terminal of the table token `e.0`.
pub open spec fn shift_covered(tab: &ItemTable, terms: Seq<TokenV>, la: Seq<(usize, Action)>, e: (usize, usize)) -> bool {
    exists|k: int| 0 <= k < terms.len() && terms[k] == tok(tab, e.0 as int) && #[trigger] has_action(la, k, Action::Shift(e.1))
}

/// `la` reduces the single reductend of `e.1` on the terminal of the table token `e.0`.
pub open spec fn reduce_covered(
    tab: &ItemTable,
    terms: Seq<TokenV>,
    rps: Seq<ReductendPosition>,
    la: Seq<(usize, Action)>,
    e: (usize, Seq<ReductendPosition>),
) -> bool {
    exists|k: int, r: int|
        0 <= k < terms.len() && terms[k] == tok(tab, e.0 as int) && 0 <= r < rps.len() && e.1 == seq![rps[r]]
            && #[trigger] has_action(la, k, Action::Reduce(r as usize))
}

/// `g` returns to the state `e.1` after the reduction of `e.0`.
pub open spec fn goto_covered(rps: Seq<ReductendPosition>, g: Seq<(usize, usize)>, e: (ReductendPosition, usize)) -> bool {
    exists|r: int| 0 <= r < rps.len() && rps[r] == e.0 && #[trigger] has_pair(g, r, e.1 as int)
}

/// The return table `g` has exactly the entries of `s`, with reductions
/// numbered by `rps`.
pub open spec fn goto_baked(s: StateV, rps: Seq<ReductendPosition>, g: Seq<(usize, usize)>) -> bool {
    &&& pair_keys_distinct(g)
    &&& forall|k: int| 0 <= k < g.len() ==> (#[trigger] g[k]).0 < rps.len() && goto_justified(s, rps, g[k])
    &&& forall|x: int| 0 <= x < s.goto.len() ==> #[trigger] goto_covered(rps, g, s.goto[x])
}

/// The baked state `a` has the items of `h` and exactly the entries of `s`,
/// with terminals and reductions numbered by `terms` and `rps`.
pub open spec fn state_baked(
    tab: &ItemTable,
    h: crate::closure::HeadV,
    s: StateV,
    terms: Seq<TokenV>,
    rps: Seq<ReductendPosition>,
    a: AStateV,
) -> bool {
    &&& sorted_positions(a.position)
    &&& a.position.to_set() == items_of(tab, h)
    &&& lookahead_baked(tab, s, terms, rps, a.lookahead)
    &&& goto_baked(s, rps, a.goto)
}

/// Some state of the automaton reduces on a token with more than one
/// reductend, or on a token that it also shifts.
pub open spec fn conflicted(rules: Seq<RuleV>, tab: &ItemTable, hs: Seq<crate::closure::HeadV>, sts: Seq<StateV>) -> bool {
    exists|j: int| 0 <= j < sts.len() && #[trigger] state_conflict(rules, tab, hs[j], sts[j])
}

/// Some entry of some state reduces, or returns after, the reductend `rp`.
pub open spec fn uses(sts: Seq<StateV>, rp: ReductendPosition) -> bool {
    exists|j: int| 0 <= j < sts.len() && #[trigger] state_uses(sts[j], rp)
}

/// The reduction of a reductend used by some state fails for a missing rule, with the error `e`.
pub open spec fn missing_anywhere(rules: Seq<RuleV>, sts: Seq<StateV>, e: Error) -> bool {
    exists|j: int| 0 <= j < sts.len() && #[trigger] missing_in(rules, sts[j], e)
}

pub open spec fn lr_states_view(s: Seq<crate::lr::State>) -> Seq<StateV> {
    s.map_values(|st: crate::lr::State| st@)
}

impl<'a> LR<'a> {
    /// The code of every reductend that the automaton reduces or returns
    /// after finds the types it needs.
    pub open spec fn bakeable(&self) -> bool {
        forall|rp: ReductendPosition|
            #[trigger] uses(lr_states_view(self.states@), rp) ==> !(task_status(rules_view(self.rules@), rp) is NoExport)
    }
}

impl Automaton {
    /// The automaton is the table of `lr`: state `j` has the items and the
    /// entries of state `j` of `lr`, terminal 0 is the end of input.
    pub open spec fn bakes(&self, lr: &LR) -> bool {
        let rv = rules_view(lr.rules@);
        let tab = &lr.table;
        let terms = tokens_view(self.terminals@);
        let rps = self.reductends@;
        &&& opt_view(self.export) == opt_view(lr.export)
        &&& terms.len() >= 1
        &&& terms[0] == TokenV::EOF
        &&& forall|a: int, b: int| 0 <= a < b < terms.len() ==> #[trigger] terms[a] != #[trigger] terms[b]
        &&& forall|x: int| 0 <= x < terms.len() ==> tokens_view(tab.tokens@).contains(#[trigger] terms[x])
        &&& rps.len() == self.reductions@.len()
        &&& forall|a: int, b: int| 0 <= a < b < rps.len() ==> #[trigger] rps[a] != #[trigger] rps[b]
        &&& forall|r: int|
            0 <= r < rps.len() ==> valid_rp(rv, #[trigger] rps[r]) && reductions_view(self.reductions@)[r]
                == reduction_of(rv, rps[r]) && task_status(rv, rps[r]) is Fine
        &&& forall|x: int| 1 <= x < terms.len() ==> #[trigger] terminal_used(tab, lr_states_view(lr.states@), terms[x])
        &&& forall|r: int| 0 <= r < rps.len() ==> uses(lr_states_view(lr.states@), #[trigger] rps[r])
        &&& self.states@.len() == lr.states@.len()
        &&& forall|j: int|
            0 <= j < self.states@.len() ==> state_baked(
                tab,
                heads_view(lr.heads@)[j],
                lr.states@[j]@,
                terms,
                rps,
                #[trigger] astates_view(self.states@)[j],
            )
    }
}


/// Tables are only ever built for a grammar without conflicts: where
/// `Automaton::new` gives an automaton, no state of the LR collection reduces
/// on a token with more than one reductend or on a token it also shifts. With
/// the error contract of `Automaton::new`, a grammar whose reductions find
/// their rules gets tables exactly when it has no conflict.
pub proof fn lemma_baked_not_conflicted(lr: &LR, a: &Automaton)
    requires
        lr.wf(),
        a.bakes(lr),
    ensures
        !conflicted(rules_view(lr.rules@), &lr.table, heads_view(lr.heads@), lr_states_view(lr.states@)),
{
    let rv = rules_view(lr.rules@);
    let tab = &lr.table;
    let hs = heads_view(lr.heads@);
    let sts = lr_states_view(lr.states@);
    let terms = tokens_view(a.terminals@);
    let rps = a.reductends@;
    if conflicted(rv, tab, hs, sts) {
        let j = choose|j: int| 0 <= j < sts.len() && #[trigger] state_conflict(rv, tab, hs[j], sts[j]);
        let s = sts[j];
        assert(s == lr.states@[j]@);
        let x = choose|x: int|
            0 <= x < s.reduce.len() && ((#[trigger] s.reduce[x]).1.len() != 1 || shifts(rv, tab, hs[j], s.reduce[x].0 as int));
        let e = s.reduce[x];
        assert(astates_view(a.states@)[j] == a.states@[j]@);
        assert(state_baked(tab, hs[j], s, terms, rps, astates_view(a.states@)[j]));
        let la = a.states@[j].lookahead@;
        assert(reduce_covered(tab, terms, rps, la, s.reduce[x]));
        let (k, r) = choose|k: int, r: int|
            0 <= k < terms.len() && terms[k] == tok(tab, e.0 as int) && 0 <= r < rps.len() && e.1 == seq![rps[r]]
                && #[trigger] has_action(la, k, Action::Reduce(r as usize));
        assert(e.1.len() == 1);
        assert(shifts(rv, tab, hs[j], e.0 as int));
        assert(crate::collection::state_ok(rv, tab, hs, hs[j], lr.states@[j]@));
        assert(crate::collection::next_ok(rv, tab, hs, hs[j], s.next));
        let y = choose|y: int| 0 <= y < s.next.len() && (#[trigger] s.next[y]).0 == e.0;
        assert(shift_covered(tab, terms, la, s.next[y]));
        let k2 = choose|k2: int|
            0 <= k2 < terms.len() && terms[k2] == tok(tab, s.next[y].0 as int) && #[trigger] has_action(
                la,
                k2,
                Action::Shift(s.next[y].1),
            );
        assert(k2 == k);
        let i1 = choose|i1: int| 0 <= i1 < la.len() && #[trigger] la[i1] == (k as usize, Action::Reduce(r as usize));
        let i2 = choose|i2: int| 0 <= i2 < la.len() && #[trigger] la[i2] == (k2 as usize, Action::Shift(s.next[y].1));
        assert(la_keys_distinct(la));
        if i1 < i2 {
            assert(la[i1].0 != la[i2].0);
        } else if i2 < i1 {
            assert(la[i2].0 != la[i1].0);
        }
    }
}

/// Tables are only ever built where the code of every reduction that a state
/// uses finds the rules of its arguments: with the error contract of
/// `Automaton::new`, a grammar without conflicts gets tables exactly when no
/// used reduction misses a rule.
pub proof fn lemma_baked_not_missing(lr: &LR, a: &Automaton, e: Error)
    requires
        lr.wf(),
        a.bakes(lr),
    ensures
        !missing_anywhere(rules_view(lr.rules@), lr_states_view(lr.states@), e),
{
    let rv = rules_view(lr.rules@);
    let tab = &lr.table;
    let hs = heads_view(lr.heads@);
    let sts = lr_states_view(lr.states@);
    let terms = tokens_view(a.terminals@);
    let rps = a.reductends@;
    if missing_anywhere(rv, sts, e) {
        let j = choose|j: int| 0 <= j < sts.len() && #[trigger] missing_in(rv, sts[j], e);
        let s = sts[j];
        assert(s == lr.states@[j]@);
        let rp = choose|rp: ReductendPosition| #[trigger] state_uses(s, rp) && missing_error(rv, rp, e);
        assert(astates_view(a.states@)[j] == a.states@[j]@);
        assert(state_baked(tab, hs[j], s, terms, rps, astates_view(a.states@)[j]));
        let la = a.states@[j].lookahead@;
        let g = a.states@[j].goto@;
        if exists|x: int| 0 <= x < s.reduce.len() && (#[trigger] s.reduce[x]).1.contains(rp) {
            let x = choose|x: int| 0 <= x < s.reduce.len() && (#[trigger] s.reduce[x]).1.contains(rp);
            assert(reduce_covered(tab, terms, rps, la, s.reduce[x]));
            let (k, r) = choose|k: int, r: int|
                0 <= k < terms.len() && terms[k] == tok(tab, s.reduce[x].0 as int) && 0 <= r < rps.len() && s.reduce[x].1
                    == seq![rps[r]] && #[trigger] has_action(la, k, Action::Reduce(r as usize));
            assert(s.reduce[x].1[0] == rps[r]);
            assert(task_status(rv, rps[r]) is Fine);
        } else {
            let x = choose|x: int| 0 <= x < s.goto.len() && (#[trigger] s.goto[x]).0 == rp;
            assert(goto_covered(rps, g, s.goto[x]));
            let r = choose|r: int| 0 <= r < rps.len() && rps[r] == s.goto[x].0 && #[trigger] has_pair(g, r, s.goto[x].1 as int);
            assert(task_status(rv, rps[r]) is Fine);
        }
    }
}

/// One reduction per reductend: every reductend that a state reduces, or
/// returns after, has exactly one reduction in the table.
pub proof fn lemma_one_reduction_per_reductend(lr: &LR, a: &Automaton, rp: ReductendPosition)
    requires
        a.bakes(lr),
        uses(lr_states_view(lr.states@), rp),
    ensures
        exists|r: int| 0 <= r < a.reductends@.len() && #[trigger] a.reductends@[r] == rp,
        forall|r1: int, r2: int|
            0 <= r1 < a.reductends@.len() && 0 <= r2 < a.reductends@.len() && #[trigger] a.reductends@[r1] == rp
                && #[trigger] a.reductends@[r2] == rp ==> r1 == r2,
{
    let tab = &lr.table;
    let hs = heads_view(lr.heads@);
    let sts = lr_states_view(lr.states@);
    let terms = tokens_view(a.terminals@);
    let rps = a.reductends@;
    let j = choose|j: int| 0 <= j < sts.len() && #[trigger] state_uses(sts[j], rp);
    let s = sts[j];
    assert(s == lr.states@[j]@);
    assert(astates_view(a.states@)[j] == a.states@[j]@);
    assert(state_baked(tab, hs[j], s, terms, rps, astates_view(a.states@)[j]));
    let la = a.states@[j].lookahead@;
    let g = a.states@[j].goto@;
    if exists|x: int| 0 <= x < s.reduce.len() && (#[trigger] s.reduce[x]).1.contains(rp) {
        let x = choose|x: int| 0 <= x < s.reduce.len() && (#[trigger] s.reduce[x]).1.contains(rp);
        assert(reduce_covered(tab, terms, rps, la, s.reduce[x]));
        let (k, r) = choose|k: int, r: int|
            0 <= k < terms.len() && terms[k] == tok(tab, s.reduce[x].0 as int) && 0 <= r < rps.len() && s.reduce[x].1
                == seq![rps[r]] && #[trigger] has_action(la, k, Action::Reduce(r as usize));
        assert(s.reduce[x].1[0] == rps[r]);
        assert(rps[r] == rp);
    } else {
        let x = choose|x: int| 0 <= x < s.goto.len() && (#[trigger] s.goto[x]).0 == rp;
        assert(goto_covered(rps, g, s.goto[x]));
        let r = choose|r: int| 0 <= r < rps.len() && rps[r] == s.goto[x].0 && #[trigger] has_pair(g, r, s.goto[x].1 as int);
        assert(rps[r] == rp);
    }
    assert forall|r1: int, r2: int|
        0 <= r1 < rps.len() && 0 <= r2 < rps.len() && #[trigger] rps[r1] == rp && #[trigger] rps[r2] == rp implies r1 == r2 by {
        if r1 < r2 {
            assert(rps[r1] != rps[r2]);
        } else if r2 < r1 {
            assert(rps[r2] != rps[r1]);
        }
    }
}

/// `tmap` numbers the table tokens that are terminals of `terms`.
pub open spec fn term_map_ok(tab: &ItemTable, terms: Seq<TokenV>, tmap: Seq<Option<usize>>) -> bool {
    &&& tmap.len() == tab.nt()
    &&& terms.len() >= 1
    &&& terms[0] == TokenV::EOF
    &&& tmap[0] == Some(0usize)
    &&& forall|a: int, b: int| 0 <= a < b < terms.len() ==> #[trigger] terms[a] != #[trigger] terms[b]
    &&& forall|x: int| 0 <= x < terms.len() ==> tokens_view(tab.tokens@).contains(#[trigger] terms[x])
    &&& forall|u: int|
        0 <= u < tab.nt() ==> match #[trigger] tmap[u] {
            Some(x) => x < terms.len() && terms[x as int] == tok(tab, u),
            None => !terms.contains(tok(tab, u)),
        }
}

/// `reds` are the reductions of the distinct reductends `rps`.
pub open spec fn red_map_ok(rules: Seq<RuleV>, reds: Seq<ReductionV>, rps: Seq<ReductendPosition>) -> bool {
    &&& reds.len() == rps.len()
    &&& forall|a: int, b: int| 0 <= a < b < rps.len() ==> #[trigger] rps[a] != #[trigger] rps[b]
    &&& forall|r: int|
        0 <= r < rps.len() ==> valid_rp(rules, #[trigger] rps[r]) && reds[r] == reduction_of(rules, rps[r])
            && task_status(rules, rps[r]) is Fine
}

pub open spec fn prefix_of<A>(a: Seq<A>, b: Seq<A>) -> bool {
    a.len() <= b.len() && forall|i: int| 0 <= i < a.len() ==> #[trigger] b[i] == a[i]
}

/// The terminal of the table token `u`, added where it is new.
fn intern_terminal(
    tab: &ItemTable,
    terms: &mut Vec<Token>,
    tmap: &mut Vec<Option<usize>>,
    u: usize,
    Ghost(rules): Ghost<Seq<RuleV>>,
) -> (k: usize)
    requires
        tab.wf(rules),
        u < tab.nt(),
        term_map_ok(tab, tokens_view(old(terms)@), old(tmap)@),
    ensures
        term_map_ok(tab, tokens_view(final(terms)@), final(tmap)@),
        prefix_of(tokens_view(old(terms)@), tokens_view(final(terms)@)),
        k < final(terms)@.len(),
        tokens_view(final(terms)@)[k as int] == tok(tab, u as int),
        final(tmap)@[u as int] == Some(k),
        forall|x: int| old(terms)@.len() <= x < final(terms)@.len() ==> tokens_view(final(terms)@)[x] == tok(tab, u as int),
{
    match tmap[u] {
        Some(k) => k,
        None => {
            let ghost t0 = tokens_view(terms@);
            let ghost m0 = tmap@;
            let k = terms.len();
            terms.push(tab.tokens[u].copy());
            tmap.set(u, Some(k));
            proof {
                let t1 = tokens_view(terms@);
                assert(t1 =~= t0.push(tok(tab, u as int)));
                assert(tokens_view(tab.tokens@)[u as int] == tok(tab, u as int));
                assert forall|a: int, b: int| 0 <= a < b < t1.len() implies #[trigger] t1[a] != #[trigger] t1[b] by {
                    if b == t0.len() {
                        assert(t1[a] == t0[a]);
                        assert(t0.contains(t0[a]));
                    }
                }
                assert forall|u2: int| 0 <= u2 < tab.nt() implies match #[trigger] tmap@[u2] {
                    Some(x) => x < t1.len() && t1[x as int] == tok(tab, u2),
                    None => !t1.contains(tok(tab, u2)),
                } by {
                    if u2 != u {
                        assert(tmap@[u2] == m0[u2]);
                        if tok(tab, u2) == tok(tab, u as int) {
                            assert(tokens_view(tab.tokens@)[u2] == tokens_view(tab.tokens@)[u as int]);
                        }
                        if let None = m0[u2] {
                            if t1.contains(tok(tab, u2)) {
                                let x = choose|x: int| 0 <= x < t1.len() && t1[x] == tok(tab, u2);
                                if x < t0.len() {
                                    assert(t0[x] == tok(tab, u2));
                                }
                            }
                        }
                    }
                }
                assert(tmap@[0] == m0[0]) by {
                    if u == 0 {
                        assert(m0[0] == Some(0usize));
                    }
                }
            }
            k
        },
    }
}

/// The index of the reduction of `rp`, added where it is new.
fn intern_reduction(
    rules: &Vec<Rule>,
    reds: &mut Vec<Reduction>,
    rps: &mut Vec<ReductendPosition>,
    rp: ReductendPosition,
) -> (r: Result<usize, Error>)
    requires
        valid_rp(rules_view(rules@), rp),
        !(task_status(rules_view(rules@), rp) is NoExport),
        red_map_ok(rules_view(rules@), reductions_view(old(reds)@), old(rps)@),
    ensures
        red_map_ok(rules_view(rules@), reductions_view(final(reds)@), final(rps)@),
        prefix_of(old(rps)@, final(rps)@),
        prefix_of(reductions_view(old(reds)@), reductions_view(final(reds)@)),
        forall|x: int| old(rps)@.len() <= x < final(rps)@.len() ==> final(rps)@[x] == rp,
        match r {
            Ok(i) => i < final(rps)@.len() && final(rps)@[i as int] == rp,
            Err(e) => task_status(rules_view(rules@), rp) matches ArgsStatus::Missing(n) && (e matches Error::Error(m)
                && m@ == missing_rule_message(n)),
        },
{
    let n = rps.len();
    let mut i: usize = 0;
    while i < n
        invariant
            n == rps@.len(),
            i <= n,
            rps@ == old(rps)@,
            reds@ == old(reds)@,
            red_map_ok(rules_view(rules@), reductions_view(reds@), rps@),
            forall|j: int| 0 <= j < i ==> rps@[j] != rp,
        decreases n - i,
    {
        if rps[i] == rp {
            return Ok(i);
        }
        i = i + 1;
    }
    let red = match make_reduction(rules, rp) {
        Ok(red) => red,
        Err(e) => return Err(e),
    };
    let ghost r0 = reductions_view(reds@);
    let ghost p0 = rps@;
    let ghost redv = red@;
    reds.push(red);
    rps.push(rp);
    proof {
        assert(reductions_view(reds@) =~= r0.push(redv));
        assert forall|a: int, b: int| 0 <= a < b < rps@.len() implies #[trigger] rps@[a] != #[trigger] rps@[b] by {
            if b == n {
                assert(rps@[a] == p0[a]);
            }
        }
        assert forall|r: int| 0 <= r < rps@.len() implies valid_rp(rules_view(rules@), #[trigger] rps@[r]) && reductions_view(reds@)[r]
            == reduction_of(rules_view(rules@), rps@[r]) by {
            if r < n {
                assert(rps@[r] == p0[r]);
                assert(reductions_view(reds@)[r] == r0[r]);
            }
        }
    }
    Ok(n)
}

/// The items of `h`, in increasing order.
fn state_positions(tab: &ItemTable, h: &crate::closure::StateHead, Ghost(rules): Ghost<Seq<RuleV>>) -> (r: Positions)
    requires
        tab.wf(rules),
        tab.hwf(h@),
    ensures
        sorted_positions(r@),
        r@.to_set() == items_of(tab, h@),
{
    let np = tab.positions.len();
    let mut out = Positions::new();
    let mut i: usize = 0;
    proof {
        assert(out@.to_set() =~= Set::<Position>::empty());
    }
    while i < np
        invariant
            np == tab.np(),
            tab.hwf(h@),
            i <= np,
            sorted_positions(out@),
            out@.to_set() == Set::new(|p: Position| exists|i2: int| 0 <= i2 < i && h@.present[i2] && tab.positions@[i2] == p),
        decreases np - i,
    {
        let ghost before = out@.to_set();
        if h.present[i] {
            out.add(tab.positions[i]);
        }
        proof {
            assert(out@.to_set() =~= Set::new(|p: Position| exists|i2: int| 0 <= i2 < i + 1 && h@.present[i2] && tab.positions@[i2] == p)) by {
                assert forall|p: Position| out@.to_set().contains(p) implies exists|i2: int| 0 <= i2 < i + 1 && h@.present[i2] && tab.positions@[i2] == p by {
                    if !before.contains(p) {
                        assert(h@.present[i as int] && tab.positions@[i as int] == p);
                    }
                }
                assert forall|p: Position| (exists|i2: int| 0 <= i2 < i + 1 && h@.present[i2] && tab.positions@[i2] == p) implies out@.to_set().contains(p) by {
                    let i2 = choose|i2: int| 0 <= i2 < i + 1 && h@.present[i2] && tab.positions@[i2] == p;
                    if i2 < i {
                        assert(before.contains(p));
                    }
                }
            }
        }
        i = i + 1;
    }
    proof {
        assert(out@.to_set() =~= items_of(tab, h@));
    }
    out
}


/// The state `s` reduces on a token with more than one reductend, or on a
/// token that it also shifts.
pub open spec fn state_conflict(rules: Seq<RuleV>, tab: &ItemTable, h: crate::closure::HeadV, s: StateV) -> bool {
    exists|x: int|
        0 <= x < s.reduce.len() && ((#[trigger] s.reduce[x]).1.len() != 1 || shifts(rules, tab, h, s.reduce[x].0 as int))
}

/// Some entry of `s` reduces, or returns after, the reductend `rp`.
pub open spec fn state_uses(s: StateV, rp: ReductendPosition) -> bool {
    ||| exists|x: int| 0 <= x < s.reduce.len() && (#[trigger] s.reduce[x]).1.contains(rp)
    ||| exists|x: int| 0 <= x < s.goto.len() && (#[trigger] s.goto[x]).0 == rp
}

pub open spec fn ambiguity_message() -> Seq<char> {
    "Ambiguous grammar! Not LR"@
}

/// The reduction of a reductend used by `s` fails for a missing rule.
pub open spec fn missing_in(rules: Seq<RuleV>, s: StateV, e: Error) -> bool {
    exists|rp: ReductendPosition| #[trigger] state_uses(s, rp) && missing_error(rules, rp, e)
}

/// The reduction of `rp` fails for a missing rule, with the error `e`.
pub open spec fn missing_error(rules: Seq<RuleV>, rp: ReductendPosition, e: Error) -> bool {
    task_status(rules, rp) matches ArgsStatus::Missing(n) && (e matches Error::Error(m) && m@ == missing_rule_message(n))
}

/// Whether `la` has an entry for the terminal `k`.
fn la_has_key(la: &Vec<(usize, Action)>, k: usize) -> (r: bool)
    ensures
        r == exists|y: int| 0 <= y < la@.len() && (#[trigger] la@[y]).0 == k,
{
    let mut y: usize = 0;
    while y < la.len()
        invariant
            y <= la@.len(),
            forall|z: int| 0 <= z < y ==> (#[trigger] la@[z]).0 != k,
        decreases la@.len() - y,
    {
        if la[y].0 == k {
            return true;
        }
        y = y + 1;
    }
    false
}

proof fn lemma_tok_injective(tab: &ItemTable, rules: Seq<RuleV>, u1: int, u2: int)
    requires
        tab.wf(rules),
        0 <= u1 < tab.nt(),
        0 <= u2 < tab.nt(),
        tok(tab, u1) == tok(tab, u2),
    ensures
        u1 == u2,
{
    let tv = tokens_view(tab.tokens@);
    assert(tv[u1] == tok(tab, u1) && tv[u2] == tok(tab, u2));
    if u1 < u2 {
        assert(tv[u1] != tv[u2]);
    } else if u2 < u1 {
        assert(tv[u2] != tv[u1]);
    }
}

/// The lookahead table of the LR state `s` with head `h`.
fn bake_lookahead(
    rules: &Vec<Rule>,
    tab: &ItemTable,
    Ghost(hs): Ghost<Seq<crate::closure::HeadV>>,
    h: &crate::closure::StateHead,
    s: &crate::lr::State,
    terms: &mut Vec<Token>,
    tmap: &mut Vec<Option<usize>>,
    reds: &mut Vec<Reduction>,
    rps: &mut Vec<ReductendPosition>,
) -> (r: Result<Vec<(usize, Action)>, Error>)
    requires
        tab.wf(rules_view(rules@)),
        tab.hwf(h@),
        crate::collection::state_ok(rules_view(rules@), tab, hs, h@, s@),
        forall|rp: ReductendPosition| #[trigger] state_uses(s@, rp) ==> valid_rp(rules_view(rules@), rp) && !(task_status(rules_view(rules@), rp) is NoExport),
        term_map_ok(tab, tokens_view(old(terms)@), old(tmap)@),
        red_map_ok(rules_view(rules@), reductions_view(old(reds)@), old(rps)@),
    ensures
        term_map_ok(tab, tokens_view(final(terms)@), final(tmap)@),
        red_map_ok(rules_view(rules@), reductions_view(final(reds)@), final(rps)@),
        prefix_of(tokens_view(old(terms)@), tokens_view(final(terms)@)),
        prefix_of(old(rps)@, final(rps)@),
        prefix_of(reductions_view(old(reds)@), reductions_view(final(reds)@)),
        match r {
            Ok(la) => lookahead_baked(tab, s@, tokens_view(final(terms)@), final(rps)@, la@)
                && terms_keyed(tab, s@, tokens_view(final(terms)@), old(terms)@.len() as int)
                && rps_used(s@, final(rps)@, old(rps)@.len() as int),
            Err(e) => (state_conflict(rules_view(rules@), tab, h@, s@) && (e matches Error::Error(m) && m@
                == ambiguity_message())) || missing_in(rules_view(rules@), s@, e),
        },
{
    let ghost rv = rules_view(rules@);
    let ghost sv = s@;
    let ghost t0 = tokens_view(terms@);
    let ghost p0 = rps@;
    let ghost r0 = reductions_view(reds@);
    let mut la: Vec<(usize, Action)> = Vec::new();
    let nn = s.next.len();
    let mut x: usize = 0;
    while x < nn
        invariant
            rv == rules_view(rules@),
            sv == s@,
            tab.wf(rv),
            crate::collection::state_ok(rv, tab, hs, h@, sv),
            nn == sv.next.len(),
            x <= nn,
            term_map_ok(tab, tokens_view(terms@), tmap@),
            prefix_of(t0, tokens_view(terms@)),
            t0 == tokens_view(old(terms)@),
            p0 == old(rps)@,
            r0 == reductions_view(old(reds)@),
            rps@ == p0,
            reductions_view(reds@) == r0,
            red_map_ok(rv, reductions_view(reds@), rps@),
            forall|rp: ReductendPosition| #[trigger] state_uses(sv, rp) ==> valid_rp(rv, rp) && !(task_status(rv, rp) is NoExport),
            terms_keyed(tab, sv, tokens_view(terms@), t0.len() as int),
            la@.len() == x,
            forall|y: int|
                0 <= y < x ==> {
                    let e = #[trigger] la@[y];
                    &&& e.1 == Action::Shift(sv.next[y].1)
                    &&& e.0 < terms@.len()
                    &&& tokens_view(terms@)[e.0 as int] == tok(tab, sv.next[y].0 as int)
                },
        decreases nn - x,
    {
        let (u, t) = s.next[x];
        let ghost tb = tokens_view(terms@);
        let k = intern_terminal(tab, terms, tmap, u, Ghost(rv));
        la.push((k, Action::Shift(t)));
        proof {
            assert forall|y: int|
                0 <= y < x + 1 implies {
                    let e = #[trigger] la@[y];
                    &&& e.1 == Action::Shift(sv.next[y].1)
                    &&& e.0 < terms@.len()
                    &&& tokens_view(terms@)[e.0 as int] == tok(tab, sv.next[y].0 as int)
                } by {
                if y < x {
                    assert(tokens_view(terms@)[la@[y].0 as int] == tb[la@[y].0 as int]);
                }
            }
            assert forall|x2: int| t0.len() <= x2 < tokens_view(terms@).len() implies #[trigger] keyed(
                tab,
                sv,
                tokens_view(terms@)[x2],
            ) by {
                if x2 < tb.len() {
                    assert(tokens_view(terms@)[x2] == tb[x2]);
                    assert(keyed(tab, sv, tb[x2]));
                } else {
                    assert(tokens_view(terms@)[x2] == tok(tab, sv.next[x as int].0 as int));
                }
            }
        }
        x = x + 1;
    }
    let nr = s.reduce.len();
    let mut x: usize = 0;
    while x < nr
        invariant
            rv == rules_view(rules@),
            sv == s@,
            tab.wf(rv),
            crate::collection::state_ok(rv, tab, hs, h@, sv),
            forall|rp: ReductendPosition| #[trigger] state_uses(sv, rp) ==> valid_rp(rv, rp) && !(task_status(rv, rp) is NoExport),
            nn == sv.next.len(),
            nr == sv.reduce.len(),
            x <= nr,
            term_map_ok(tab, tokens_view(terms@), tmap@),
            red_map_ok(rv, reductions_view(reds@), rps@),
            prefix_of(t0, tokens_view(terms@)),
            prefix_of(p0, rps@),
            prefix_of(r0, reductions_view(reds@)),
            t0 == tokens_view(old(terms)@),
            p0 == old(rps)@,
            r0 == reductions_view(old(reds)@),
            terms_keyed(tab, sv, tokens_view(terms@), t0.len() as int),
            rps_used(sv, rps@, p0.len() as int),
            la@.len() == nn + x,
            forall|y: int|
                0 <= y < nn ==> {
                    let e = #[trigger] la@[y];
                    &&& e.1 == Action::Shift(sv.next[y].1)
                    &&& e.0 < terms@.len()
                    &&& tokens_view(terms@)[e.0 as int] == tok(tab, sv.next[y].0 as int)
                },
            forall|y: int|
                nn <= y < nn + x ==> {
                    let e = #[trigger] la@[y];
                    &&& e.1 matches Action::Reduce(r) && r < rps@.len() && sv.reduce[y - nn].1 == seq![rps@[r as int]]
                    &&& e.0 < terms@.len()
                    &&& tokens_view(terms@)[e.0 as int] == tok(tab, sv.reduce[y - nn].0 as int)
                },
            forall|y: int| 0 <= y < x ==> !shifts(rv, tab, h@, (#[trigger] sv.reduce[y]).0 as int),
        decreases nr - x,
    {
        let e = &s.reduce[x];
        assert(sv.reduce[x as int] == (e.0, e.1@));
        if e.1.len() != 1 {
            return Err(Error::Error(String::from_str("Ambiguous grammar! Not LR")));
        }
        let u = e.0;
        let rp = e.1[0];
        proof {
            assert(sv.reduce[x as int].1.contains(rp));
            assert(state_uses(sv, rp));
        }
        let ghost tb = tokens_view(terms@);
        let ghost pb = rps@;
        let r = match intern_reduction(rules, reds, rps, rp) {
            Ok(r) => r,
            Err(err) => {
                proof {
                    assert(state_uses(sv, rp));
                }
                return Err(err);
            },
        };
        let k = intern_terminal(tab, terms, tmap, u, Ghost(rv));
        if la_has_key(&la, k) {
            proof {
                let y = choose|y: int| 0 <= y < la@.len() && (#[trigger] la@[y]).0 == k;
                if y < nn {
                    let u2 = sv.next[y].0;
                    assert(tokens_view(terms@)[k as int] == tb[k as int]);
                    lemma_tok_injective(tab, rv, u2 as int, u as int);
                    assert(shifts(rv, tab, h@, u as int));
                } else {
                    let u2 = sv.reduce[y - nn].0;
                    assert(tokens_view(terms@)[k as int] == tb[k as int]);
                    lemma_tok_injective(tab, rv, u2 as int, u as int);
                    assert(sv.reduce[y - nn].0 < sv.reduce[x as int].0);
                }
                assert(state_conflict(rv, tab, h@, sv));
            }
            return Err(Error::Error(String::from_str("Ambiguous grammar! Not LR")));
        }
        la.push((k, Action::Reduce(r)));
        proof {
            assert forall|y: int|
                0 <= y < nn implies {
                    let e = #[trigger] la@[y];
                    &&& e.1 == Action::Shift(sv.next[y].1)
                    &&& e.0 < terms@.len()
                    &&& tokens_view(terms@)[e.0 as int] == tok(tab, sv.next[y].0 as int)
                } by {
                assert(tokens_view(terms@)[la@[y].0 as int] == tb[la@[y].0 as int]);
            }
            assert forall|y: int|
                nn <= y < nn + x + 1 implies {
                    let e = #[trigger] la@[y];
                    &&& e.1 matches Action::Reduce(r) && r < rps@.len() && sv.reduce[y - nn].1 == seq![rps@[r as int]]
                    &&& e.0 < terms@.len()
                    &&& tokens_view(terms@)[e.0 as int] == tok(tab, sv.reduce[y - nn].0 as int)
                } by {
                if y < nn + x {
                    assert(tokens_view(terms@)[la@[y].0 as int] == tb[la@[y].0 as int]);
                    if let Action::Reduce(r2) = la@[y].1 {
                        assert(rps@[r2 as int] == pb[r2 as int]);
                    }
                } else {
                    assert(e.1@ =~= seq![rp]);
                }
            }
            assert forall|x2: int| t0.len() <= x2 < tokens_view(terms@).len() implies #[trigger] keyed(
                tab,
                sv,
                tokens_view(terms@)[x2],
            ) by {
                if x2 < tb.len() {
                    assert(tokens_view(terms@)[x2] == tb[x2]);
                    assert(keyed(tab, sv, tb[x2]));
                } else {
                    assert(tokens_view(terms@)[x2] == tok(tab, sv.reduce[x as int].0 as int));
                }
            }
            assert forall|x2: int| p0.len() <= x2 < rps@.len() implies state_uses(sv, #[trigger] rps@[x2]) by {
                if x2 < pb.len() {
                    assert(rps@[x2] == pb[x2]);
                    assert(state_uses(sv, pb[x2]));
                } else {
                    assert(rps@[x2] == rp);
                }
            }
            if shifts(rv, tab, h@, u as int) {
                assert(crate::collection::next_ok(rv, tab, hs, h@, sv.next));
                let y = choose|y: int| 0 <= y < sv.next.len() && (#[trigger] sv.next[y]).0 == u as int;
                assert(la@[y].0 < terms@.len());
                assert(tokens_view(terms@)[la@[y].0 as int] == tok(tab, u as int));
                assert(tokens_view(terms@)[k as int] == tok(tab, u as int));
                assert(la@[y].0 == k) by {
                    let a = la@[y].0 as int;
                    if a < k {
                        assert(tokens_view(terms@)[a] != tokens_view(terms@)[k as int]);
                    } else if k < a {
                        assert(tokens_view(terms@)[k as int] != tokens_view(terms@)[a]);
                    }
                }
                assert(false);
            }
        }
        x = x + 1;
    }
    let ghost la1 = la@;
    let has_eof = la_has_key(&la, 0);
    proof {
        let terms_v = tokens_view(terms@);
        assert(tok(tab, 0) == TokenV::EOF);
        assert(has_eof <==> acts_on(sv, 0)) by {
            if has_eof {
                let y = choose|y: int| 0 <= y < la1.len() && (#[trigger] la1[y]).0 == 0usize;
                if y < nn {
                    assert(terms_v[0] == tok(tab, sv.next[y].0 as int));
                    lemma_tok_injective(tab, rv, sv.next[y].0 as int, 0);
                    assert(sv.next[y].0 == 0);
                } else {
                    assert(terms_v[0] == tok(tab, sv.reduce[y - nn].0 as int));
                    lemma_tok_injective(tab, rv, sv.reduce[y - nn].0 as int, 0);
                    assert(sv.reduce[y - nn].0 == 0);
                }
            }
            if acts_on(sv, 0) {
                if exists|x: int| 0 <= x < sv.next.len() && (#[trigger] sv.next[x]).0 == 0 {
                    let x = choose|x: int| 0 <= x < sv.next.len() && (#[trigger] sv.next[x]).0 == 0;
                    let k = la1[x].0 as int;
                    assert(terms_v[k] == terms_v[0]);
                    if k > 0 {
                        assert(terms_v[0] != terms_v[k]);
                    }
                    assert(la1[x].0 == 0);
                } else {
                    let x = choose|x: int| 0 <= x < sv.reduce.len() && (#[trigger] sv.reduce[x]).0 == 0;
                    let k = la1[nn + x].0 as int;
                    assert(terms_v[k] == terms_v[0]);
                    if k > 0 {
                        assert(terms_v[0] != terms_v[k]);
                    }
                    assert(la1[nn + x].0 == 0);
                }
            }
        }
    }
    if !has_eof {
        la.push((0, Action::Halt));
    }
    proof {
        let terms_v = tokens_view(terms@);
        let rpsv = rps@;
        let lav = la@;
        assert forall|y: int| 0 <= y < lav.len() implies {
            &&& (#[trigger] lav[y]).0 < terms_v.len()
            &&& la_justified(tab, sv, terms_v, rpsv, lav[y])
        } by {
            if y < nn {
                assert(lav[y] == la1[y]);
                assert(sv.next[y].1 == sv.next[y].1);
            } else if y < la1.len() {
                assert(lav[y] == la1[y]);
                let x2 = y - nn;
                assert(sv.reduce[x2] == sv.reduce[x2]);
            }
        }
        assert(la_keys_distinct(lav)) by {
            assert forall|a: int, b: int| 0 <= a < b < lav.len() implies (#[trigger] lav[a]).0 != (#[trigger] lav[b]).0 by {
                if b < la1.len() {
                    let ka = lav[a].0 as int;
                    let kb = lav[b].0 as int;
                    if ka == kb {
                        if b < nn {
                            lemma_tok_injective(tab, rv, sv.next[a].0 as int, sv.next[b].0 as int);
                        } else if a < nn {
                            assert(!shifts(rv, tab, h@, sv.reduce[b - nn].0 as int));
                            lemma_tok_injective(tab, rv, sv.next[a].0 as int, sv.reduce[b - nn].0 as int);
                        } else {
                            lemma_tok_injective(tab, rv, sv.reduce[a - nn].0 as int, sv.reduce[b - nn].0 as int);
                        }
                    }
                } else {
                    assert(lav[a] == la1[a]);
                }
            }
        }
        assert forall|x2: int| 0 <= x2 < sv.next.len() implies #[trigger] shift_covered(tab, terms_v, lav, sv.next[x2]) by {
            let k = lav[x2].0 as int;
            assert(lav[x2] == (k as usize, Action::Shift(sv.next[x2].1)));
            assert(has_action(lav, k, Action::Shift(sv.next[x2].1)));
        }
        assert forall|x2: int| 0 <= x2 < sv.reduce.len() implies #[trigger] reduce_covered(tab, terms_v, rpsv, lav, sv.reduce[x2]) by {
            let y = nn + x2;
            let k = lav[y].0 as int;
            let r = lav[y].1->Reduce_0 as int;
            assert(lav[y] == (k as usize, Action::Reduce(r as usize)));
            assert(has_action(lav, k, Action::Reduce(r as usize)));
        }
        if !acts_on(sv, 0) {
            assert(lav[la1.len() as int] == (0usize, Action::Halt));
        }
    }
    Ok(la)
}


/// The return table of the LR state `s`.
fn bake_goto(
    rules: &Vec<Rule>,
    Ghost(tab): Ghost<&ItemTable>,
    Ghost(hs): Ghost<Seq<crate::closure::HeadV>>,
    Ghost(h): Ghost<crate::closure::HeadV>,
    s: &crate::lr::State,
    reds: &mut Vec<Reduction>,
    rps: &mut Vec<ReductendPosition>,
) -> (r: Result<Vec<(usize, usize)>, Error>)
    requires
        crate::collection::state_ok(rules_view(rules@), tab, hs, h, s@),
        forall|rp: ReductendPosition| #[trigger] state_uses(s@, rp) ==> valid_rp(rules_view(rules@), rp) && !(task_status(rules_view(rules@), rp) is NoExport),
        red_map_ok(rules_view(rules@), reductions_view(old(reds)@), old(rps)@),
    ensures
        red_map_ok(rules_view(rules@), reductions_view(final(reds)@), final(rps)@),
        prefix_of(old(rps)@, final(rps)@),
        prefix_of(reductions_view(old(reds)@), reductions_view(final(reds)@)),
        match r {
            Ok(g) => goto_baked(s@, final(rps)@, g@) && rps_used(s@, final(rps)@, old(rps)@.len() as int),
            Err(e) => missing_in(rules_view(rules@), s@, e),
        },
{
    let ghost rv = rules_view(rules@);
    let ghost sv = s@;
    let ghost p0 = rps@;
    let ghost r0 = reductions_view(reds@);
    let mut g: Vec<(usize, usize)> = Vec::new();
    let ng = s.goto.len();
    let mut x: usize = 0;
    while x < ng
        invariant
            rv == rules_view(rules@),
            sv == s@,
            crate::collection::state_ok(rv, tab, hs, h, sv),
            forall|rp: ReductendPosition| #[trigger] state_uses(sv, rp) ==> valid_rp(rv, rp) && !(task_status(rv, rp) is NoExport),
            ng == sv.goto.len(),
            x <= ng,
            red_map_ok(rv, reductions_view(reds@), rps@),
            prefix_of(p0, rps@),
            prefix_of(r0, reductions_view(reds@)),
            p0 == old(rps)@,
            r0 == reductions_view(old(reds)@),
            rps_used(sv, rps@, p0.len() as int),
            g@.len() == x,
            forall|y: int|
                0 <= y < x ==> {
                    let e = #[trigger] g@[y];
                    &&& e.0 < rps@.len()
                    &&& rps@[e.0 as int] == sv.goto[y].0
                    &&& e.1 == sv.goto[y].1
                },
        decreases ng - x,
    {
        let (rp, t) = s.goto[x];
        proof {
            assert(state_uses(sv, rp));
        }
        let ghost pb = rps@;
        let r = match intern_reduction(rules, reds, rps, rp) {
            Ok(r) => r,
            Err(err) => {
                proof {
                    assert(state_uses(sv, rp) && missing_error(rv, rp, err));
                }
                return Err(err);
            },
        };
        g.push((r, t));
        proof {
            assert forall|y: int|
                0 <= y < x + 1 implies {
                    let e = #[trigger] g@[y];
                    &&& e.0 < rps@.len()
                    &&& rps@[e.0 as int] == sv.goto[y].0
                    &&& e.1 == sv.goto[y].1
                } by {
                if y < x {
                    assert(rps@[g@[y].0 as int] == pb[g@[y].0 as int]);
                }
            }
            assert forall|x2: int| p0.len() <= x2 < rps@.len() implies state_uses(sv, #[trigger] rps@[x2]) by {
                if x2 < pb.len() {
                    assert(rps@[x2] == pb[x2]);
                    assert(state_uses(sv, pb[x2]));
                } else {
                    assert(rps@[x2] == rp);
                }
            }
        }
        x = x + 1;
    }
    proof {
        let rpsv = rps@;
        let gv = g@;
        assert(crate::collection::goto_ok(rv, tab, hs, h, sv.goto));
        assert forall|a: int, b: int| 0 <= a < b < gv.len() implies (#[trigger] gv[a]).0 != (#[trigger] gv[b]).0 by {
            assert(crate::collection::rp_lt(sv.goto[a].0, sv.goto[b].0));
        }
        assert forall|k: int| 0 <= k < gv.len() implies (#[trigger] gv[k]).0 < rpsv.len() && goto_justified(sv, rpsv, gv[k]) by {
            assert(sv.goto[k] == sv.goto[k]);
        }
        assert forall|x2: int| 0 <= x2 < sv.goto.len() implies #[trigger] goto_covered(rpsv, gv, sv.goto[x2]) by {
            let r = gv[x2].0 as int;
            assert(gv[x2] == (r as usize, sv.goto[x2].1));
            assert(rpsv[r] == sv.goto[x2].0);
            assert(has_pair(gv, r, sv.goto[x2].1 as int));
        }
    }
    Ok(g)
}

/// The state of the table for the LR state `s` with head `h`.
fn bake_state(
    rules: &Vec<Rule>,
    tab: &ItemTable,
    Ghost(hs): Ghost<Seq<crate::closure::HeadV>>,
    h: &crate::closure::StateHead,
    s: &crate::lr::State,
    terms: &mut Vec<Token>,
    tmap: &mut Vec<Option<usize>>,
    reds: &mut Vec<Reduction>,
    rps: &mut Vec<ReductendPosition>,
) -> (r: Result<State, Error>)
    requires
        tab.wf(rules_view(rules@)),
        tab.hwf(h@),
        crate::collection::state_ok(rules_view(rules@), tab, hs, h@, s@),
        forall|rp: ReductendPosition| #[trigger] state_uses(s@, rp) ==> valid_rp(rules_view(rules@), rp) && !(task_status(rules_view(rules@), rp) is NoExport),
        term_map_ok(tab, tokens_view(old(terms)@), old(tmap)@),
        red_map_ok(rules_view(rules@), reductions_view(old(reds)@), old(rps)@),
    ensures
        term_map_ok(tab, tokens_view(final(terms)@), final(tmap)@),
        red_map_ok(rules_view(rules@), reductions_view(final(reds)@), final(rps)@),
        prefix_of(tokens_view(old(terms)@), tokens_view(final(terms)@)),
        prefix_of(old(rps)@, final(rps)@),
        prefix_of(reductions_view(old(reds)@), reductions_view(final(reds)@)),
        match r {
            Ok(a) => state_baked(tab, h@, s@, tokens_view(final(terms)@), final(rps)@, a@)
                && terms_keyed(tab, s@, tokens_view(final(terms)@), old(terms)@.len() as int)
                && rps_used(s@, final(rps)@, old(rps)@.len() as int),
            Err(e) => (state_conflict(rules_view(rules@), tab, h@, s@) && (e matches Error::Error(m) && m@
                == ambiguity_message())) || missing_in(rules_view(rules@), s@, e),
        },
{
    let ghost p0 = rps@;
    let position = state_positions(tab, h, Ghost(rules_view(rules@)));
    let lookahead = bake_lookahead(rules, tab, Ghost(hs), h, s, terms, tmap, reds, rps)?;
    let ghost t1 = tokens_view(terms@);
    let ghost p1 = rps@;
    let goto = bake_goto(rules, Ghost(tab), Ghost(hs), Ghost(h@), s, reds, rps)?;
    proof {
        lemma_lookahead_baked_extends(tab, s@, t1, p1, tokens_view(terms@), rps@, lookahead@);
        assert forall|x: int| p0.len() <= x < rps@.len() implies state_uses(s@, #[trigger] rps@[x]) by {
            if x < p1.len() {
                assert(rps@[x] == p1[x]);
                assert(state_uses(s@, p1[x]));
            }
        }
    }
    Ok(State { position, lookahead, goto })
}

proof fn lemma_la_justified_extends(
    tab: &ItemTable,
    s: StateV,
    terms: Seq<TokenV>,
    rps: Seq<ReductendPosition>,
    terms2: Seq<TokenV>,
    rps2: Seq<ReductendPosition>,
    e: (usize, Action),
)
    requires
        e.0 < terms.len(),
        la_justified(tab, s, terms, rps, e),
        prefix_of(terms, terms2),
        prefix_of(rps, rps2),
    ensures
        la_justified(tab, s, terms2, rps2, e),
{
    assert(terms2[e.0 as int] == terms[e.0 as int]);
    if let Action::Reduce(r) = e.1 {
        let x = choose|x: int|
            0 <= x < s.reduce.len() && tok(tab, (#[trigger] s.reduce[x]).0 as int) == terms[e.0 as int] && r
                < rps.len() && s.reduce[x].1 == seq![rps[r as int]];
        assert(rps2[r as int] == rps[r as int]);
    }
}

proof fn lemma_lookahead_baked_extends(
    tab: &ItemTable,
    s: StateV,
    terms: Seq<TokenV>,
    rps: Seq<ReductendPosition>,
    terms2: Seq<TokenV>,
    rps2: Seq<ReductendPosition>,
    la: Seq<(usize, Action)>,
)
    requires
        lookahead_baked(tab, s, terms, rps, la),
        prefix_of(terms, terms2),
        prefix_of(rps, rps2),
    ensures
        lookahead_baked(tab, s, terms2, rps2, la),
{
    assert forall|k: int| 0 <= k < la.len() implies (#[trigger] la[k]).0 < terms2.len() && la_justified(tab, s, terms2, rps2, la[k]) by {
        lemma_la_justified_extends(tab, s, terms, rps, terms2, rps2, la[k]);
    }
    assert forall|x: int| 0 <= x < s.next.len() implies #[trigger] shift_covered(tab, terms2, la, s.next[x]) by {
        assert(shift_covered(tab, terms, la, s.next[x]));
        let k = choose|k: int| 0 <= k < terms.len() && terms[k] == tok(tab, s.next[x].0 as int) && #[trigger] has_action(la, k, Action::Shift(s.next[x].1));
        assert(terms2[k] == terms[k]);
    }
    assert forall|x: int| 0 <= x < s.reduce.len() implies #[trigger] reduce_covered(tab, terms2, rps2, la, s.reduce[x]) by {
        assert(reduce_covered(tab, terms, rps, la, s.reduce[x]));
        let (k, r) = choose|k: int, r: int|
            0 <= k < terms.len() && terms[k] == tok(tab, s.reduce[x].0 as int) && 0 <= r < rps.len() && s.reduce[x].1 == seq![rps[r]]
                && #[trigger] has_action(la, k, Action::Reduce(r as usize));
        assert(terms2[k] == terms[k]);
        assert(rps2[r] == rps[r]);
    }
}


proof fn lemma_goto_baked_extends(s: StateV, rps: Seq<ReductendPosition>, rps2: Seq<ReductendPosition>, g: Seq<(usize, usize)>)
    requires
        goto_baked(s, rps, g),
        prefix_of(rps, rps2),
    ensures
        goto_baked(s, rps2, g),
{
    assert forall|k: int| 0 <= k < g.len() implies (#[trigger] g[k]).0 < rps2.len() && goto_justified(s, rps2, g[k]) by {
        assert(rps2[g[k].0 as int] == rps[g[k].0 as int]);
    }
    assert forall|x: int| 0 <= x < s.goto.len() implies #[trigger] goto_covered(rps2, g, s.goto[x]) by {
        assert(goto_covered(rps, g, s.goto[x]));
        let r = choose|r: int| 0 <= r < rps.len() && rps[r] == s.goto[x].0 && #[trigger] has_pair(g, r, s.goto[x].1 as int);
        assert(rps2[r] == rps[r]);
    }
}

proof fn lemma_state_baked_extends(
    tab: &ItemTable,
    h: crate::closure::HeadV,
    s: StateV,
    terms: Seq<TokenV>,
    rps: Seq<ReductendPosition>,
    terms2: Seq<TokenV>,
    rps2: Seq<ReductendPosition>,
    a: AStateV,
)
    requires
        state_baked(tab, h, s, terms, rps, a),
        prefix_of(terms, terms2),
        prefix_of(rps, rps2),
    ensures
        state_baked(tab, h, s, terms2, rps2, a),
{
    lemma_lookahead_baked_extends(tab, s, terms, rps, terms2, rps2, a.lookahead);
    lemma_goto_baked_extends(s, rps, rps2, a.goto);
}

proof fn lemma_uses_valid(
    rules: Seq<RuleV>,
    tab: &ItemTable,
    hs: Seq<crate::closure::HeadV>,
    h: crate::closure::HeadV,
    s: StateV,
    rp: ReductendPosition,
)
    requires
        tab.wf(rules),
        crate::collection::state_ok(rules, tab, hs, h, s),
        state_uses(s, rp),
    ensures
        valid_rp(rules, rp),
{
    if exists|x: int| 0 <= x < s.reduce.len() && (#[trigger] s.reduce[x]).1.contains(rp) {
        let x = choose|x: int| 0 <= x < s.reduce.len() && (#[trigger] s.reduce[x]).1.contains(rp);
        let e = s.reduce[x];
        assert(crate::collection::reduce_ok(rules, tab, h, s.reduce));
        assert(e.1.contains(rp));
        let i = choose|i: int| 0 <= i < tab.np() && crate::closure::reduce_src(rules, tab, h, i, e.0 as int)
            && crate::closure::rp_of(tab.positions@[i]) == rp;
        assert(crate::lr::valid_position(rules, tab.positions@[i]));
    } else {
        let x = choose|x: int| 0 <= x < s.goto.len() && (#[trigger] s.goto[x]).0 == rp;
        assert(crate::collection::goto_ok(rules, tab, hs, h, s.goto));
        let e = s.goto[x];
        assert(crate::collection::calls(rules, tab, h, e.0.rule as int));
        let i = choose|i: int| 0 <= i < tab.np() && #[trigger] crate::closure::call_src(rules, tab, h, i, e.0.rule as int);
        crate::closure::lemma_rule_target_range(rules, crate::closure::event(rules, tab.positions@[i]));
    }
}

impl Automaton {
    /// The parse table of `lr`: its states in the same order, each terminal
    /// and each reduction numbered when first met, the end of input first.
    pub fn new(lr: &LR) -> (r: Result<Automaton, Error>)
        requires
            lr.wf(),
            lr.bakeable(),
        ensures
            match r {
                Ok(a) => a.bakes(lr),
                Err(e) => {
                    ||| (conflicted(rules_view(lr.rules@), &lr.table, heads_view(lr.heads@), lr_states_view(lr.states@))
                        && (e matches Error::Error(m) && m@ == ambiguity_message()))
                    ||| missing_anywhere(rules_view(lr.rules@), lr_states_view(lr.states@), e)
                },
            },
    {
        let ghost rv = rules_view(lr.rules@);
        let ghost hs = heads_view(lr.heads@);
        let ghost sts = lr_states_view(lr.states@);
        let rules = lr.rules;
        let tab = &lr.table;
        let nt = tab.tokens.len();
        let mut terms: Vec<Token> = Vec::new();
        terms.push(Token::EOF);
        let mut tmap: Vec<Option<usize>> = Vec::new();
        let mut u: usize = 0;
        while u < nt
            invariant
                u <= nt,
                tmap@.len() == u,
                forall|v: int| 0 <= v < u ==> #[trigger] tmap@[v] == (if v == 0 { Some(0usize) } else { None }),
            decreases nt - u,
        {
            if u == 0 {
                tmap.push(Some(0));
            } else {
                tmap.push(None);
            }
            u = u + 1;
        }
        proof {
            let tv = tokens_view(terms@);
            assert(tv =~= seq![TokenV::EOF]);
            assert(tokens_view(tab.tokens@)[0] == TokenV::EOF);
            assert forall|v: int| 0 <= v < tab.nt() implies match #[trigger] tmap@[v] {
                Some(x) => x < tv.len() && tv[x as int] == tok(tab, v),
                None => !tv.contains(tok(tab, v)),
            } by {
                if v != 0 {
                    if tv.contains(tok(tab, v)) {
                        assert(tok(tab, v) == tok(tab, 0));
                        lemma_tok_injective(tab, rv, v, 0);
                    }
                }
            }
            assert(tv[0] == TokenV::EOF);
            assert(tokens_view(tab.tokens@).contains(tv[0]));
        }
        let mut reds: Vec<Reduction> = Vec::new();
        let mut rps: Vec<ReductendPosition> = Vec::new();
        let mut states: Vec<State> = Vec::new();
        let n = lr.states.len();
        let mut j: usize = 0;
        while j < n
            invariant
                rv == rules_view(lr.rules@),
                hs == heads_view(lr.heads@),
                sts == lr_states_view(lr.states@),
                rules == lr.rules,
                tab == &lr.table,
                lr.wf(),
                lr.bakeable(),
                n == lr.states@.len(),
                j <= n,
                term_map_ok(tab, tokens_view(terms@), tmap@),
                red_map_ok(rv, reductions_view(reds@), rps@),
                forall|x: int| 1 <= x < tokens_view(terms@).len() ==> #[trigger] keyed_before(tab, sts, j as int, tokens_view(terms@)[x]),
                forall|r: int| 0 <= r < rps@.len() ==> #[trigger] used_before(sts, j as int, rps@[r]),
                states@.len() == j,
                forall|j2: int|
                    0 <= j2 < j ==> state_baked(
                        tab,
                        hs[j2],
                        sts[j2],
                        tokens_view(terms@),
                        rps@,
                        #[trigger] astates_view(states@)[j2],
                    ),
            decreases n - j,
        {
            let ghost t0 = tokens_view(terms@);
            let ghost p0 = rps@;
            let ghost a0 = astates_view(states@);
            proof {
                assert(sts[j as int] == lr.states@[j as int]@);
                assert(hs[j as int] == lr.heads@[j as int]@);
                assert(crate::collection::explored(rv, tab, crate::lr::start_rule(rv)->Some_0, hs));
                assert(tab.hwf(hs[j as int]));
                assert forall|rp: ReductendPosition| #[trigger] state_uses(sts[j as int], rp) implies valid_rp(rv, rp)
                    && !(task_status(rv, rp) is NoExport) by {
                    lemma_uses_valid(rv, tab, hs, hs[j as int], sts[j as int], rp);
                    assert(uses(sts, rp));
                }
            }
            let st = match bake_state(rules, tab, Ghost(hs), &lr.heads[j], &lr.states[j], &mut terms, &mut tmap, &mut reds, &mut rps) {
                Ok(st) => st,
                Err(e) => {
                    proof {
                        if state_conflict(rv, tab, hs[j as int], sts[j as int]) {
                            assert(conflicted(rv, tab, hs, sts));
                        } else {
                            assert(missing_anywhere(rv, sts, e));
                        }
                    }
                    return Err(e);
                },
            };
            states.push(st);
            proof {
                assert forall|x: int| 1 <= x < tokens_view(terms@).len() implies #[trigger] keyed_before(
                    tab,
                    sts,
                    j + 1,
                    tokens_view(terms@)[x],
                ) by {
                    if x < t0.len() {
                        assert(tokens_view(terms@)[x] == t0[x]);
                        assert(keyed_before(tab, sts, j as int, t0[x]));
                        let j2 = choose|j2: int| 0 <= j2 < j && #[trigger] keyed(tab, sts[j2], t0[x]);
                        assert(keyed(tab, sts[j2], tokens_view(terms@)[x]));
                    } else {
                        assert(keyed(tab, sts[j as int], tokens_view(terms@)[x]));
                    }
                }
                assert forall|r: int| 0 <= r < rps@.len() implies #[trigger] used_before(sts, j + 1, rps@[r]) by {
                    if r < p0.len() {
                        assert(rps@[r] == p0[r]);
                        assert(used_before(sts, j as int, p0[r]));
                        let j2 = choose|j2: int| 0 <= j2 < j && #[trigger] state_uses(sts[j2], p0[r]);
                        assert(state_uses(sts[j2], rps@[r]));
                    } else {
                        assert(state_uses(sts[j as int], rps@[r]));
                    }
                }
            }
            proof {
                assert forall|j2: int|
                    0 <= j2 < j + 1 implies state_baked(
                        tab,
                        hs[j2],
                        sts[j2],
                        tokens_view(terms@),
                        rps@,
                        #[trigger] astates_view(states@)[j2],
                    ) by {
                    if j2 < j {
                        assert(astates_view(states@)[j2] == a0[j2]);
                        lemma_state_baked_extends(tab, hs[j2], sts[j2], t0, p0, tokens_view(terms@), rps@, a0[j2]);
                    } else {
                        assert(astates_view(states@)[j2] == st@);
                    }
                }
            }
            j = j + 1;
        }
        let export = match &lr.export {
            Some(e) => Some(e.clone()),
            None => None,
        };
        let ghost rpsv = rps@;
        proof {
            let tv = tokens_view(terms@);
            assert forall|x: int| 1 <= x < tv.len() implies #[trigger] terminal_used(tab, sts, tv[x]) by {
                assert(keyed_before(tab, sts, n as int, tv[x]));
                let j2 = choose|j2: int| 0 <= j2 < n && #[trigger] keyed(tab, sts[j2], tv[x]);
            }
            assert forall|r: int| 0 <= r < rpsv.len() implies uses(sts, #[trigger] rpsv[r]) by {
                assert(used_before(sts, n as int, rpsv[r]));
                let j2 = choose|j2: int| 0 <= j2 < n && #[trigger] state_uses(sts[j2], rpsv[r]);
            }
        }
        Ok(Automaton { terminals: terms, reductions: reds, states, export, reductends: Ghost(rpsv) })
    }
}


/// Whether the code of the reductend `rp` lacks a type it needs.
fn lacks_export(rules: &Vec<Rule>, rp: ReductendPosition) -> (r: bool)
    requires
        valid_rp(rules_view(rules@), rp),
    ensures
        r == task_status(rules_view(rules@), rp) is NoExport,
{
    let ghost rv = rules_view(rules@);
    let nr = rules.len();
    let rule_ref = &rules[rp.rule];
    let reductend = &rule_ref.reductends.reductends[rp.reductend];
    proof {
        assert(rv[rp.rule as int] == rule_ref@);
        assert(rv[rp.rule as int].reductends[rp.reductend as int] == reductend@);
    }
    if reductend.code.is_none() {
        return false;
    }
    let components = &reductend.components.components;
    let ghost cv = reductend@.components;
    let mut i: usize = 0;
    while i < components.len()
        invariant
            rv == rules_view(rules@),
            nr == rules@.len(),
            cv == crate::parser::components_view(components@),
            i <= components.len(),
            task_status(rv, rp) == (match args_status(rv, cv) {
                ArgsStatus::Fine => if rv[rp.rule as int].export is Some {
                    ArgsStatus::Fine
                } else {
                    ArgsStatus::NoExport
                },
                s => s,
            }),
            forall|j: int| 0 <= j < i ==> arg_status(rv, #[trigger] cv[j]) is Fine,
        decreases components.len() - i,
    {
        let component = &components[i];
        proof {
            assert(cv[i as int] == component@);
            lemma_args_status_skip(rv, cv, i as int);
        }
        if component.var.is_some() {
            match &component.handle {
                Component0::Rule(n) => {
                    proof {
                        lemma_find_rule(rv, n@);
                    }
                    match Position::rule_index(rules, n.as_str()) {
                        Ok(j) => {
                            assert(rv[j as int] == rules@[j as int]@);
                            if rules[j].export.is_none() {
                                return true;
                            }
                        },
                        Err(_) => {
                            return false;
                        },
                    }
                },
                _ => {},
            }
        }
        i = i + 1;
    }
    proof {
        assert(cv.skip(i as int) =~= Seq::<ComponentV>::empty());
        if i > 0 {
            lemma_args_status_skip(rv, cv, i - 1);
        }
    }
    rule_ref.export.is_none()
}

impl<'a> LR<'a> {
    /// Whether the code of every reductend that the automaton reduces or
    /// returns after finds the types it needs.
    pub fn can_bake(&self) -> (r: bool)
        requires
            self.wf(),
        ensures
            r == self.bakeable(),
    {
        let ghost rv = rules_view(self.rules@);
        let ghost hs = heads_view(self.heads@);
        let ghost sts = lr_states_view(self.states@);
        let n = self.states.len();
        let mut j: usize = 0;
        while j < n
            invariant
                rv == rules_view(self.rules@),
                hs == heads_view(self.heads@),
                sts == lr_states_view(self.states@),
                self.wf(),
                n == sts.len(),
                j <= n,
                forall|j2: int, rp: ReductendPosition|
                    0 <= j2 < j && #[trigger] state_uses(sts[j2], rp) ==> !(task_status(rv, rp) is NoExport),
            decreases n - j,
        {
            let st = &self.states[j];
            proof {
                assert(sts[j as int] == st@);
                assert(crate::collection::explored(rv, &self.table, crate::lr::start_rule(rv)->Some_0, hs));
            }
            let mut x: usize = 0;
            while x < st.reduce.len()
                invariant
                    rv == rules_view(self.rules@),
                    sts == lr_states_view(self.states@),
                    self.wf(),
                    j < n == sts.len(),
                    sts[j as int] == st@,
                    x <= st.reduce@.len(),
                    forall|x2: int, rp: ReductendPosition|
                        0 <= x2 < x && #[trigger] st@.reduce[x2].1.contains(rp) ==> !(task_status(rv, rp) is NoExport),
                decreases st.reduce@.len() - x,
            {
                let rs = &st.reduce[x].1;
                assert(st@.reduce[x as int].1 == rs@);
                let mut y: usize = 0;
                while y < rs.len()
                    invariant
                        rv == rules_view(self.rules@),
                        sts == lr_states_view(self.states@),
                        self.wf(),
                        j < n == sts.len(),
                        sts[j as int] == st@,
                        x < st.reduce@.len(),
                        st@.reduce[x as int].1 == rs@,
                        y <= rs@.len(),
                        forall|y2: int| 0 <= y2 < y ==> !(task_status(rv, #[trigger] rs@[y2]) is NoExport),
                    decreases rs@.len() - y,
                {
                    let rp = rs[y];
                    proof {
                        assert(state_uses(sts[j as int], rp));
                        lemma_uses_valid(rv, &self.table, heads_view(self.heads@), heads_view(self.heads@)[j as int], sts[j as int], rp);
                    }
                    if lacks_export(self.rules, rp) {
                        proof {
                            assert(uses(sts, rp));
                        }
                        return false;
                    }
                    y = y + 1;
                }
                proof {
                    assert forall|x2: int, rp: ReductendPosition|
                        0 <= x2 < x + 1 && #[trigger] st@.reduce[x2].1.contains(rp) implies !(task_status(rv, rp) is NoExport) by {
                        if x2 == x {
                            let y2 = choose|y2: int| 0 <= y2 < rs@.len() && rs@[y2] == rp;
                        }
                    }
                }
                x = x + 1;
            }
            let mut x: usize = 0;
            while x < st.goto.len()
                invariant
                    rv == rules_view(self.rules@),
                    sts == lr_states_view(self.states@),
                    self.wf(),
                    j < n == sts.len(),
                    sts[j as int] == st@,
                    x <= st.goto@.len(),
                    forall|x2: int| 0 <= x2 < x ==> !(task_status(rv, (#[trigger] st@.goto[x2]).0) is NoExport),
                decreases st.goto@.len() - x,
            {
                let rp = st.goto[x].0;
                proof {
                    assert(state_uses(sts[j as int], rp));
                    lemma_uses_valid(rv, &self.table, heads_view(self.heads@), heads_view(self.heads@)[j as int], sts[j as int], rp);
                }
                if lacks_export(self.rules, rp) {
                    proof {
                        assert(uses(sts, rp));
                    }
                    return false;
                }
                x = x + 1;
            }
            proof {
                assert forall|j2: int, rp: ReductendPosition|
                    0 <= j2 < j + 1 && #[trigger] state_uses(sts[j2], rp) implies !(task_status(rv, rp) is NoExport) by {
                    if j2 == j {
                        if exists|x2: int| 0 <= x2 < sts[j2].reduce.len() && (#[trigger] sts[j2].reduce[x2]).1.contains(rp) {
                            let x2 = choose|x2: int| 0 <= x2 < sts[j2].reduce.len() && (#[trigger] sts[j2].reduce[x2]).1.contains(rp);
                            assert(st@.reduce[x2].1.contains(rp));
                        } else {
                            let x2 = choose|x2: int| 0 <= x2 < sts[j2].goto.len() && (#[trigger] sts[j2].goto[x2]).0 == rp;
                            assert(st@.goto[x2].0 == rp);
                        }
                    }
                }
            }
            j = j + 1;
        }
        proof {
            assert forall|rp: ReductendPosition| #[trigger] uses(sts, rp) implies !(task_status(rv, rp) is NoExport) by {
                let j2 = choose|j2: int| 0 <= j2 < sts.len() && #[trigger] state_uses(sts[j2], rp);
            }
        }
        true
    }
}

} // verus!
