use vstd::prelude::*;
use vstd::string::StringSliceAdditionalSpecFns;

use crate::parser::{
    Component, Component0, Component0V, ComponentV, GAst, GAstV, GError, Member, MemberV, Reductend,
    ReductendV, Rule, RuleV, Statement, StatementV, code_user_0, code_user_1, component_user_0,
    component_user_1, components_user_0, components_user_1, components_view, gTokens, generics_user_0,
    generics_user_1, member_user, members_view, reductends_view, reductent_user_0, reductent_user_1,
    reductents_user_0, reductents_user_1, rule_user_0, rule_user_1, rules_view, start_user_0,
    start_user_1, statement_user_0, statement_user_1, stmt_user, type_user_0, type_user_1,
};

verus! {

// ---------------------------------------------------------------------------
// The input: the lexemes of a grammar text

/// A lexeme: its kind (`None` where the lexer recognized no token), its text
/// and its byte span in the source.
pub struct Lexeme {
    pub kind: Option<gTokens>,
    pub text: String,
    pub start: usize,
    pub end: usize,
}

/// The lexemes of a source text, and where its end lies.
pub struct Lexemes {
    pub source: String,
    pub tokens: Vec<Lexeme>,
    pub eof: usize,
}

pub open spec fn src_bytes(lx: &Lexemes) -> Seq<u8> {
    vstd::utf8::encode_utf8(lx.source@)
}

/// Every span lies within the source and on character boundaries, the end of
/// input included.
pub open spec fn lexemes_ok(lx: &Lexemes) -> bool {
    let b = src_bytes(lx);
    &&& forall|i: int|
        0 <= i < lx.tokens@.len() ==> {
            let t = #[trigger] lx.tokens@[i];
            &&& t.start <= t.end <= b.len()
            &&& vstd::utf8::is_char_boundary(b, t.start as int)
            &&& vstd::utf8::is_char_boundary(b, t.end as int)
        }
    &&& lx.eof <= b.len()
    &&& vstd::utf8::is_char_boundary(b, lx.eof as int)
    &&& b.len() < usize::MAX
}

impl Lexemes {
    /// Whether the spans of the lexemes fit their source, as `lexemes_ok` says.
    pub fn well_formed(&self) -> (r: bool)
        ensures
            r == lexemes_ok(self),
    {
        let src = self.source.as_str();
        let bytes = src.as_bytes();
        let blen = bytes.len();
        if blen == usize::MAX {
            return false;
        }
        if self.eof > blen || !src.is_char_boundary(self.eof) {
            return false;
        }
        let n = self.tokens.len();
        let mut i: usize = 0;
        while i < n
            invariant
                n == self.tokens@.len(),
                i <= n,
                blen == src_bytes(self).len(),
                src.spec_bytes() == src_bytes(self),
                forall|j: int|
                    0 <= j < i ==> {
                        let t = #[trigger] self.tokens@[j];
                        &&& t.start <= t.end <= src_bytes(self).len()
                        &&& vstd::utf8::is_char_boundary(src_bytes(self), t.start as int)
                        &&& vstd::utf8::is_char_boundary(src_bytes(self), t.end as int)
                    },
            decreases n - i,
        {
            let t = &self.tokens[i];
            if !(t.start <= t.end && t.end <= blen && src.is_char_boundary(t.start) && src.is_char_boundary(t.end)) {
                return false;
            }
            i = i + 1;
        }
        true
    }
}

/// The first lexeme at or after `pos` that is not white space.
pub open spec fn skip_ws(toks: Seq<Lexeme>, pos: int) -> int
    decreases toks.len() - pos,
{
    if pos < 0 || pos >= toks.len() {
        toks.len() as int
    } else if toks[pos].kind == Some(gTokens::WhiteSpace) {
        skip_ws(toks, pos + 1)
    } else {
        pos
    }
}

/// The lexeme `q` has the kind `k`.
pub open spec fn is_kind(lx: &Lexemes, q: int, k: gTokens) -> bool {
    0 <= q < lx.tokens@.len() && lx.tokens@[q].kind == Some(k)
}

pub open spec fn text_at(lx: &Lexemes, q: int) -> Seq<char> {
    lx.tokens@[q].text@
}

/// The text of the lexeme last read, empty at the end of input.
pub open spec fn slice_at(lx: &Lexemes, cur: Option<usize>) -> Seq<char> {
    match cur {
        Some(q) => if q < lx.tokens@.len() {
            text_at(lx, q as int)
        } else {
            Seq::empty()
        },
        None => Seq::empty(),
    }
}

// ---------------------------------------------------------------------------
// Syntax errors

pub struct GErrorV {
    pub expected: Seq<gTokens>,
    pub found: Option<Result<gTokens, ()>>,
    pub text: Seq<char>,
    pub line: int,
    pub offset: int,
    pub len: int,
}

impl View for GError {
    type V = GErrorV;

    open spec fn view(&self) -> GErrorV {
        GErrorV {
            expected: self.expected@,
            found: self.found,
            text: self.text@,
            line: self.line as int,
            offset: self.offset as int,
            len: self.len as int,
        }
    }
}

/// The number of line feeds in `b`.
pub open spec fn count_nl(b: Seq<u8>) -> nat
    decreases b.len(),
{
    if b.len() == 0 {
        0
    } else {
        count_nl(b.drop_last()) + (if b.last() == 10u8 {
            1nat
        } else {
            0nat
        })
    }
}

/// Where the last line of `b` begins: after its last line feed, or at 0.
pub open spec fn line_start(b: Seq<u8>) -> int
    decreases b.len(),
{
    if b.len() == 0 {
        0
    } else if b.last() == 10u8 {
        b.len() as int
    } else {
        line_start(b.drop_last())
    }
}

pub open spec fn span_start(lx: &Lexemes, q: int) -> int {
    if 0 <= q < lx.tokens@.len() {
        lx.tokens@[q].start as int
    } else {
        lx.eof as int
    }
}

pub open spec fn span_end(lx: &Lexemes, q: int) -> int {
    if 0 <= q < lx.tokens@.len() {
        lx.tokens@[q].end as int
    } else {
        lx.eof as int
    }
}

/// What the lexer gave at `q`: a token, a lexer error, or nothing at the end.
pub open spec fn found_at(lx: &Lexemes, q: int) -> Option<Result<gTokens, ()>> {
    if 0 <= q < lx.tokens@.len() {
        match lx.tokens@[q].kind {
            Some(k) => Some(Ok(k)),
            None => Some(Err(())),
        }
    } else {
        None
    }
}

/// The error reported where one of `expected` was wanted at the lexeme `q`
/// (the end of input where `q` is past the last lexeme): the line (from 1),
/// the byte offset within it, and the text from the start of that line to the
/// end of the lexeme.
pub open spec fn gerror(lx: &Lexemes, expected: Seq<gTokens>, q: int) -> GErrorV {
    let b = src_bytes(lx);
    let s = span_start(lx, q);
    let e = span_end(lx, q);
    let pre = b.subrange(0, s);
    let ls = line_start(pre);
    GErrorV {
        expected,
        found: found_at(lx, q),
        text: vstd::utf8::decode_utf8(b.subrange(ls, e)),
        line: count_nl(pre) as int + 1,
        offset: s - ls,
        len: e - s,
    }
}

// ---------------------------------------------------------------------------
// The parse machine

#[derive(Debug, Clone, Copy, PartialEq, Eq, Structural)]
pub enum States {
    Start,
    Member,
    Rule,
    Reductends,
    ReduceC0,
    ReduceR0,
    ReduceC1,
    ReduceRN,
    ReduceRC,
    ReduceR1,
    ReduceRule0,
    ReduceRule1,
    ReduceStatement,
    Export,
    Type,
    Assign,
    RBegin,
    RStart,
    Code,
    Generics,
    Generics1,
    Code1,
    CodeR,
    CodeC,
    CodeE,
    PushR,
    PushT,
    PushX,
    PushS,
    RAst0,
    RAst1,
}

/// A value on the value stack.
pub enum Val {
    Ast(GAstV),
    Statement(StatementV),
    Member(MemberV),
    Rule(RuleV),
    Component(ComponentV),
    Component0(Component0V),
    VecComponent(Seq<ComponentV>),
    VecReductend(Seq<ReductendV>),
    Reductend(ReductendV),
    Token(Seq<char>),
}

/// A configuration of the machine: its state, its stack of states to return
/// to, its value stack, the next lexeme, the lexeme last read, and the states
/// that reduce the next component and reductend.
pub struct Cfg {
    pub state: States,
    pub stack: Seq<States>,
    pub vals: Seq<Val>,
    pub pos: int,
    pub cur: Option<usize>,
    pub c: States,
    pub r: States,
}

pub enum Step {
    Go(Cfg),
    Done(GAstV),
    Fail(GErrorV),
    Panic,
}

pub enum Outcome {
    Parsed(GAstV),
    Failed(GErrorV),
    Panic,
}

pub open spec fn init_cfg() -> Cfg {
    Cfg {
        state: States::Start,
        stack: seq![States::RAst0],
        vals: Seq::empty(),
        pos: 0,
        cur: None,
        c: States::ReduceC0,
        r: States::ReduceR0,
    }
}

/// The state goes to the one on top of the stack.
pub open spec fn ret(cfg: Cfg) -> Step {
    if cfg.stack.len() == 0 {
        Step::Panic
    } else {
        Step::Go(Cfg { state: cfg.stack.last(), stack: cfg.stack.drop_last(), ..cfg })
    }
}

/// `cfg` after reading the lexeme `q`.
pub open spec fn read(cfg: Cfg, q: int) -> Cfg {
    Cfg { pos: q + 1, cur: Some(q as usize), ..cfg }
}

pub open spec fn top(vals: Seq<Val>, i: int) -> Val {
    vals[vals.len() - 1 - i]
}

pub open spec fn drop(vals: Seq<Val>, n: int) -> Seq<Val> {
    vals.subrange(0, vals.len() - n)
}

pub open spec fn start0(s: StatementV) -> GAstV {
    match s {
        StatementV::Member(t) => GAstV { members: seq![t], rules: Seq::empty() },
        StatementV::Rule(t) => GAstV { members: Seq::empty(), rules: seq![t] },
    }
}

pub open spec fn start1(s: StatementV, a: GAstV) -> GAstV {
    match s {
        StatementV::Member(t) => GAstV { members: a.members.push(t), ..a },
        StatementV::Rule(t) => GAstV { rules: a.rules.push(t), ..a },
    }
}

/// The value on top becomes the component without a name over it.
pub open spec fn wrap_component(cfg: Cfg) -> Option<Seq<Val>> {
    if cfg.vals.len() >= 1 && top(cfg.vals, 0) is Component0 {
        Some(drop(cfg.vals, 1).push(Val::Component(ComponentV { handle: top(cfg.vals, 0)->Component0_0, var: None })))
    } else {
        None
    }
}

/// Pushes `extra` onto the stack of states, first the deepest.
pub open spec fn push_states(cfg: Cfg, extra: Seq<States>) -> Cfg {
    Cfg { stack: cfg.stack + extra, ..cfg }
}

pub open spec fn step_start(lx: &Lexemes, cfg: Cfg) -> Step {
    let q = skip_ws(lx.tokens@, cfg.pos);
    if q >= lx.tokens@.len() {
        if cfg.vals.len() >= 1 && top(cfg.vals, 0) is Ast {
            Step::Done(top(cfg.vals, 0)->Ast_0)
        } else {
            Step::Panic
        }
    } else if is_kind(lx, q, gTokens::Var) {
        Step::Go(Cfg { state: States::Member, ..read(cfg, q) })
    } else if is_kind(lx, q, gTokens::Identifier) {
        Step::Go(Cfg { state: States::Rule, vals: cfg.vals.push(Val::Token(text_at(lx, q))), ..read(cfg, q) })
    } else {
        Step::Fail(gerror(lx, seq![gTokens::Var, gTokens::Identifier], q))
    }
}

pub open spec fn step_rast(cfg: Cfg, first: bool) -> Step {
    if first {
        if cfg.vals.len() >= 1 && top(cfg.vals, 0) is Statement {
            Step::Go(
                Cfg {
                    state: States::Start,
                    stack: cfg.stack.push(States::RAst1),
                    vals: drop(cfg.vals, 1).push(Val::Ast(start0(top(cfg.vals, 0)->Statement_0))),
                    ..cfg
                },
            )
        } else {
            Step::Panic
        }
    } else {
        if cfg.vals.len() >= 2 && top(cfg.vals, 0) is Statement && top(cfg.vals, 1) is Ast {
            Step::Go(
                Cfg {
                    state: States::Start,
                    stack: cfg.stack.push(States::RAst1),
                    vals: drop(cfg.vals, 2).push(
                        Val::Ast(start1(top(cfg.vals, 0)->Statement_0, top(cfg.vals, 1)->Ast_0)),
                    ),
                    ..cfg
                },
            )
        } else {
            Step::Panic
        }
    }
}

pub open spec fn step_member(lx: &Lexemes, cfg: Cfg) -> Step {
    let q1 = skip_ws(lx.tokens@, cfg.pos);
    let q2 = skip_ws(lx.tokens@, q1 + 1);
    let q3 = skip_ws(lx.tokens@, q2 + 1);
    let q4 = skip_ws(lx.tokens@, q3 + 1);
    if !is_kind(lx, q1, gTokens::Identifier) {
        Step::Fail(gerror(lx, seq![gTokens::Identifier], q1))
    } else if !is_kind(lx, q2, gTokens::Colon) {
        Step::Fail(gerror(lx, seq![gTokens::Colon], q2))
    } else if !is_kind(lx, q3, gTokens::Identifier) {
        Step::Fail(gerror(lx, seq![gTokens::Identifier], q3))
    } else if !is_kind(lx, q4, gTokens::Semicolon) {
        Step::Fail(gerror(lx, seq![gTokens::Semicolon], q4))
    } else {
        ret(
            Cfg {
                vals: cfg.vals.push(
                    Val::Statement(StatementV::Member(MemberV { name: text_at(lx, q1), member_type: text_at(lx, q3) })),
                ),
                ..read(cfg, q4)
            },
        )
    }
}

pub open spec fn step_rule(lx: &Lexemes, cfg: Cfg) -> Step {
    let q = skip_ws(lx.tokens@, cfg.pos);
    if !is_kind(lx, q, gTokens::Colon) {
        Step::Fail(gerror(lx, seq![gTokens::Colon], q))
    } else {
        Step::Go(Cfg { state: States::RStart, ..read(cfg, q) })
    }
}

/// The states that only rearrange the value stack and return.
pub open spec fn step_reduce(lx: &Lexemes, cfg: Cfg) -> Step {
    let v = cfg.vals;
    match cfg.state {
        States::ReduceRule0 => if v.len() >= 2 && top(v, 0) is VecReductend && top(v, 1) is Token {
            ret(
                Cfg {
                    vals: drop(v, 2).push(
                        Val::Rule(RuleV { identifier: top(v, 1)->Token_0, reductends: top(v, 0)->VecReductend_0, export: None }),
                    ),
                    ..cfg
                },
            )
        } else {
            Step::Panic
        },
        States::ReduceRule1 => if v.len() >= 3 && top(v, 0) is Token && top(v, 1) is VecReductend && top(v, 2) is Token {
            ret(
                Cfg {
                    vals: drop(v, 3).push(
                        Val::Rule(
                            RuleV {
                                identifier: top(v, 2)->Token_0,
                                reductends: top(v, 1)->VecReductend_0,
                                export: Some(top(v, 0)->Token_0),
                            },
                        ),
                    ),
                    ..cfg
                },
            )
        } else {
            Step::Panic
        },
        States::ReduceStatement => if v.len() >= 1 && top(v, 0) is Rule {
            ret(
                Cfg {
                    c: States::ReduceC0,
                    r: States::ReduceR0,
                    vals: drop(v, 1).push(Val::Statement(StatementV::Rule(top(v, 0)->Rule_0))),
                    ..cfg
                },
            )
        } else {
            Step::Panic
        },
        States::ReduceC0 => if v.len() >= 1 && top(v, 0) is Component {
            ret(Cfg { c: States::ReduceC1, vals: drop(v, 1).push(Val::VecComponent(seq![top(v, 0)->Component_0])), ..cfg })
        } else {
            Step::Panic
        },
        States::ReduceR0 => if v.len() >= 1 && top(v, 0) is Reductend {
            ret(
                Cfg {
                    c: States::ReduceC0,
                    r: States::ReduceR1,
                    vals: drop(v, 1).push(Val::VecReductend(seq![top(v, 0)->Reductend_0])),
                    ..cfg
                },
            )
        } else {
            Step::Panic
        },
        States::ReduceC1 => if v.len() >= 2 && top(v, 0) is Component && top(v, 1) is VecComponent {
            ret(
                Cfg {
                    vals: drop(v, 2).push(Val::VecComponent(top(v, 1)->VecComponent_0.push(top(v, 0)->Component_0))),
                    ..cfg
                },
            )
        } else {
            Step::Panic
        },
        States::ReduceRN => if v.len() >= 1 && top(v, 0) is VecComponent {
            ret(
                Cfg {
                    vals: drop(v, 1).push(Val::Reductend(ReductendV { components: top(v, 0)->VecComponent_0, code: None })),
                    ..cfg
                },
            )
        } else {
            Step::Panic
        },
        States::ReduceRC => if v.len() >= 2 && top(v, 0) is Token && top(v, 1) is VecComponent {
            ret(
                Cfg {
                    vals: drop(v, 2).push(
                        Val::Reductend(ReductendV { components: top(v, 1)->VecComponent_0, code: Some(top(v, 0)->Token_0) }),
                    ),
                    ..cfg
                },
            )
        } else {
            Step::Panic
        },
        States::ReduceR1 => if v.len() >= 2 && top(v, 0) is Reductend && top(v, 1) is VecReductend {
            ret(
                Cfg {
                    c: States::ReduceC0,
                    vals: drop(v, 2).push(Val::VecReductend(top(v, 1)->VecReductend_0.push(top(v, 0)->Reductend_0))),
                    ..cfg
                },
            )
        } else {
            Step::Panic
        },
        States::PushR => ret(Cfg { vals: v.push(Val::Component0(Component0V::Rule(slice_at(lx, cfg.cur)))), ..cfg }),
        States::PushT => ret(Cfg { vals: v.push(Val::Component0(Component0V::Terminal(slice_at(lx, cfg.cur)))), ..cfg }),
        States::PushX => ret(Cfg { vals: v.push(Val::Component0(Component0V::Regex(slice_at(lx, cfg.cur)))), ..cfg }),
        States::PushS => ret(Cfg { vals: v.push(Val::Component0(Component0V::Token)), ..cfg }),
        States::CodeR => if v.len() >= 1 && top(v, 0) is Token {
            ret(Cfg { vals: drop(v, 1).push(Val::Token(seq!['{'] + top(v, 0)->Token_0 + seq!['}'])), ..cfg })
        } else {
            Step::Panic
        },
        States::CodeC => if v.len() >= 2 && top(v, 0) is Token && top(v, 1) is Token {
            ret(Cfg { vals: drop(v, 2).push(Val::Token(top(v, 1)->Token_0 + top(v, 0)->Token_0)), ..cfg })
        } else {
            Step::Panic
        },
        _ => Step::Panic,
    }
}

pub open spec fn reductends_expected() -> Seq<gTokens> {
    seq![
        gTokens::Assign,
        gTokens::Or,
        gTokens::Identifier,
        gTokens::Terminal,
        gTokens::Regex,
        gTokens::Star,
        gTokens::CurleyOpen,
        gTokens::Semicolon,
        gTokens::Arrow,
    ]
}

/// The lexeme kinds, other than `=`, that end a component.
pub open spec fn ends_component(k: gTokens) -> bool {
    match k {
        gTokens::Or => true,
        gTokens::Identifier => true,
        gTokens::Terminal => true,
        gTokens::Regex => true,
        gTokens::Star => true,
        gTokens::CurleyOpen => true,
        gTokens::Semicolon => true,
        gTokens::Arrow => true,
        _ => false,
    }
}

/// The states pushed after the component that precedes the lexeme of kind `k`.
pub open spec fn reductends_pushes(k: gTokens, r: States) -> Seq<States> {
    match k {
        gTokens::Or => seq![States::RStart, r, States::ReduceRN],
        gTokens::Identifier => seq![States::Reductends, States::PushR],
        gTokens::Terminal => seq![States::Reductends, States::PushT],
        gTokens::Regex => seq![States::Reductends, States::PushX],
        gTokens::Star => seq![States::Reductends, States::PushS],
        gTokens::CurleyOpen => seq![States::CodeE, States::CodeR, States::Code],
        gTokens::Semicolon => seq![States::ReduceStatement, States::ReduceRule0, r, States::ReduceRN],
        _ => seq![States::ReduceStatement, States::ReduceRule1, States::Export, r, States::ReduceRN],
    }
}

pub open spec fn step_reductends(lx: &Lexemes, cfg: Cfg) -> Step {
    let q = skip_ws(lx.tokens@, cfg.pos);
    if is_kind(lx, q, gTokens::Assign) {
        Step::Go(Cfg { state: States::Assign, ..read(cfg, q) })
    } else if 0 <= q < lx.tokens@.len() && (lx.tokens@[q].kind matches Some(k) && ends_component(k)) {
        let k = lx.tokens@[q].kind->Some_0;
        match wrap_component(cfg) {
            Some(v) => Step::Go(
                Cfg { state: cfg.c, vals: v, stack: cfg.stack + reductends_pushes(k, cfg.r), ..read(cfg, q) },
            ),
            None => Step::Panic,
        }
    } else {
        Step::Fail(gerror(lx, reductends_expected(), q))
    }
}

pub open spec fn step_type(lx: &Lexemes, cfg: Cfg) -> Step {
    let v = cfg.vals;
    let q = skip_ws(lx.tokens@, cfg.pos);
    if !(v.len() >= 2 && top(v, 0) is Token && top(v, 1) is Token) {
        Step::Panic
    } else if !is_kind(lx, q, gTokens::Semicolon) {
        Step::Fail(gerror(lx, seq![gTokens::Semicolon], q))
    } else {
        ret(Cfg { vals: drop(v, 2).push(Val::Token(top(v, 1)->Token_0 + top(v, 0)->Token_0)), ..read(cfg, q) })
    }
}

pub open spec fn step_export(lx: &Lexemes, cfg: Cfg) -> Step {
    let q1 = skip_ws(lx.tokens@, cfg.pos);
    let q2 = skip_ws(lx.tokens@, q1 + 1);
    if !is_kind(lx, q1, gTokens::Identifier) {
        Step::Fail(gerror(lx, seq![gTokens::Identifier], q1))
    } else {
        let v = cfg.vals.push(Val::Token(text_at(lx, q1)));
        if is_kind(lx, q2, gTokens::Semicolon) {
            ret(Cfg { vals: v, ..read(cfg, q2) })
        } else if is_kind(lx, q2, gTokens::DiamondOpen) {
            Step::Go(Cfg { state: States::Generics, vals: v, stack: cfg.stack.push(States::Type), ..read(cfg, q2) })
        } else {
            Step::Fail(gerror(lx, seq![gTokens::Semicolon, gTokens::DiamondOpen], q2))
        }
    }
}

/// The states that read one lexeme of a type's generic arguments or of code,
/// white space included.
pub open spec fn step_nested(lx: &Lexemes, cfg: Cfg) -> Step {
    let q = cfg.pos;
    let v = cfg.vals;
    if q >= lx.tokens@.len() {
        Step::Fail(gerror(lx, Seq::empty(), lx.tokens@.len() as int))
    } else {
        let c1 = read(cfg, q);
        let generics = cfg.state is Generics || cfg.state is Generics1;
        let close = if generics {
            gTokens::DiamondClose
        } else {
            gTokens::CurleyClose
        };
        let open = if generics {
            gTokens::DiamondOpen
        } else {
            gTokens::CurleyOpen
        };
        if is_kind(lx, q, close) {
            if cfg.state is Code1 {
                ret(c1)
            } else if v.len() >= 1 && top(v, 0) is Token {
                ret(
                    Cfg {
                        vals: drop(v, 1).push(
                            Val::Token(
                                if generics {
                                    seq!['<'] + top(v, 0)->Token_0 + seq!['>']
                                } else {
                                    seq!['{'] + top(v, 0)->Token_0 + seq!['}']
                                },
                            ),
                        ),
                        ..c1
                    },
                )
            } else {
                Step::Panic
            }
        } else if is_kind(lx, q, open) {
            match cfg.state {
                States::Generics => Step::Go(Cfg { stack: cfg.stack.push(States::Generics1), ..c1 }),
                States::Generics1 => Step::Go(Cfg { state: States::Generics, stack: cfg.stack.push(States::Generics1), ..c1 }),
                States::Code => Step::Go(Cfg { stack: cfg.stack + seq![States::Code1, States::CodeR], ..c1 }),
                _ => Step::Go(
                    Cfg { state: States::Code, stack: cfg.stack + seq![States::Code1, States::CodeC, States::CodeR], ..c1 },
                ),
            }
        } else {
            let v1 = v.push(Val::Token(text_at(lx, q)));
            match cfg.state {
                States::Generics => Step::Go(Cfg { state: States::Generics1, vals: v1, ..c1 }),
                States::Generics1 => if v.len() >= 1 && top(v, 0) is Token {
                    Step::Go(Cfg { vals: drop(v, 1).push(Val::Token(top(v, 0)->Token_0 + text_at(lx, q))), ..c1 })
                } else {
                    Step::Panic
                },
                States::Code => Step::Go(Cfg { state: States::Code1, vals: v1, ..c1 }),
                _ => Step::Go(Cfg { state: States::CodeC, vals: v1, stack: cfg.stack.push(States::Code1), ..c1 }),
            }
        }
    }
}

/// The component that an identifier, a terminal, a regular expression or the
/// wildcard at `q` stands for.
pub open spec fn component_at(lx: &Lexemes, q: int) -> Option<Component0V> {
    if is_kind(lx, q, gTokens::Identifier) {
        Some(Component0V::Rule(text_at(lx, q)))
    } else if is_kind(lx, q, gTokens::Terminal) {
        Some(Component0V::Terminal(text_at(lx, q)))
    } else if is_kind(lx, q, gTokens::Regex) {
        Some(Component0V::Regex(text_at(lx, q)))
    } else if is_kind(lx, q, gTokens::Star) {
        Some(Component0V::Token)
    } else {
        None
    }
}

pub open spec fn step_rbegin(lx: &Lexemes, cfg: Cfg, begin: bool) -> Step {
    let q = skip_ws(lx.tokens@, cfg.pos);
    match component_at(lx, q) {
        Some(h) => Step::Go(Cfg { state: States::Reductends, vals: cfg.vals.push(Val::Component0(h)), ..read(cfg, q) }),
        None => if begin && is_kind(lx, q, gTokens::CurleyOpen) {
            Step::Go(Cfg { state: States::Code, stack: cfg.stack + seq![States::CodeE, States::CodeR], ..read(cfg, q) })
        } else if begin {
            Step::Fail(
                gerror(
                    lx,
                    seq![gTokens::Identifier, gTokens::Terminal, gTokens::Regex, gTokens::Star, gTokens::CurleyOpen],
                    q,
                ),
            )
        } else {
            Step::Fail(gerror(lx, seq![gTokens::Identifier, gTokens::Terminal, gTokens::Regex, gTokens::Star], q))
        },
    }
}

pub open spec fn step_assign(lx: &Lexemes, cfg: Cfg) -> Step {
    let q = skip_ws(lx.tokens@, cfg.pos);
    let v = cfg.vals;
    if !is_kind(lx, q, gTokens::Identifier) {
        Step::Fail(gerror(lx, seq![gTokens::Identifier], q))
    } else if v.len() >= 1 && top(v, 0) is Component0 {
        Step::Go(
            Cfg {
                state: cfg.c,
                vals: drop(v, 1).push(Val::Component(ComponentV { handle: top(v, 0)->Component0_0, var: Some(text_at(lx, q)) })),
                stack: cfg.stack.push(States::RBegin),
                ..read(cfg, q)
            },
        )
    } else {
        Step::Panic
    }
}

pub open spec fn step_code_end(lx: &Lexemes, cfg: Cfg) -> Step {
    let q = skip_ws(lx.tokens@, cfg.pos);
    let c1 = Cfg { state: States::ReduceRC, ..read(cfg, q) };
    if is_kind(lx, q, gTokens::Or) {
        Step::Go(Cfg { stack: cfg.stack + seq![States::RStart, cfg.r], ..c1 })
    } else if is_kind(lx, q, gTokens::Arrow) {
        Step::Go(Cfg { stack: cfg.stack + seq![States::ReduceStatement, States::ReduceRule1, States::Export, cfg.r], ..c1 })
    } else if is_kind(lx, q, gTokens::Semicolon) {
        Step::Go(Cfg { stack: cfg.stack + seq![States::ReduceStatement, States::ReduceRule0, cfg.r], ..c1 })
    } else {
        Step::Fail(gerror(lx, seq![gTokens::Or, gTokens::Arrow, gTokens::Semicolon], q))
    }
}

/// One state of the machine.
pub open spec fn step(lx: &Lexemes, cfg: Cfg) -> Step {
    match cfg.state {
        States::Start => step_start(lx, cfg),
        States::RAst0 => step_rast(cfg, true),
        States::RAst1 => step_rast(cfg, false),
        States::Member => step_member(lx, cfg),
        States::Rule => step_rule(lx, cfg),
        States::Reductends => step_reductends(lx, cfg),
        States::Type => step_type(lx, cfg),
        States::Export => step_export(lx, cfg),
        States::Generics => step_nested(lx, cfg),
        States::Generics1 => step_nested(lx, cfg),
        States::Code => step_nested(lx, cfg),
        States::Code1 => step_nested(lx, cfg),
        States::RStart => step_rbegin(lx, cfg, false),
        States::RBegin => step_rbegin(lx, cfg, true),
        States::Assign => step_assign(lx, cfg),
        States::CodeE => step_code_end(lx, cfg),
        _ => step_reduce(lx, cfg),
    }
}


pub open spec fn weight(s: States) -> nat {
    match s {
        States::Start => 0,
        States::RAst0 => 3,
        States::RAst1 => 3,
        _ => 2,
    }
}

/// Decreases at every step that reads no lexeme.
pub open spec fn measure(cfg: Cfg) -> nat {
    2 * cfg.stack.len() + weight(cfg.state)
}

pub proof fn lemma_skip_ws(toks: Seq<Lexeme>, pos: int)
    requires
        0 <= pos,
    ensures
        pos <= skip_ws(toks, pos) || pos > toks.len(),
        skip_ws(toks, pos) <= toks.len(),
        skip_ws(toks, pos) < toks.len() ==> toks[skip_ws(toks, pos)].kind != Some(gTokens::WhiteSpace),
        forall|j: int| pos <= j < skip_ws(toks, pos) ==> toks[j].kind == Some(gTokens::WhiteSpace),
    decreases toks.len() - pos,
{
    if pos < toks.len() && toks[pos].kind == Some(gTokens::WhiteSpace) {
        lemma_skip_ws(toks, pos + 1);
    }
}

pub proof fn lemma_skip_ws_idempotent(toks: Seq<Lexeme>, pos: int)
    requires
        0 <= pos,
    ensures
        skip_ws(toks, skip_ws(toks, pos)) == skip_ws(toks, pos),
    decreases toks.len() - pos,
{
    if pos < toks.len() && toks[pos].kind == Some(gTokens::WhiteSpace) {
        lemma_skip_ws_idempotent(toks, pos + 1);
    }
}

/// A state that reads the next lexeme, skipping the white space before it.
pub open spec fn reads_past_ws(s: States) -> bool {
    match s {
        States::Start | States::Member | States::Rule | States::Reductends | States::Type | States::Export
        | States::RStart | States::RBegin | States::Assign | States::CodeE => true,
        _ => false,
    }
}

/// White space between lexemes does not matter outside code and generic
/// arguments: in a state that reads the next lexeme, the machine comes to the
/// same whether it starts before the white space that precedes that lexeme or
/// after it.
pub proof fn lemma_whitespace_skipped(lx: &Lexemes, cfg: Cfg)
    requires
        0 <= cfg.pos <= lx.tokens@.len(),
        reads_past_ws(cfg.state),
    ensures
        step(lx, Cfg { pos: skip_ws(lx.tokens@, cfg.pos), ..cfg }) == step(lx, cfg),
        run(lx, Cfg { pos: skip_ws(lx.tokens@, cfg.pos), ..cfg }) == run(lx, cfg),
{
    let toks = lx.tokens@;
    lemma_skip_ws(toks, cfg.pos);
    lemma_skip_ws_idempotent(toks, cfg.pos);
    let c2 = Cfg { pos: skip_ws(toks, cfg.pos), ..cfg };
    assert(step(lx, c2) == step(lx, cfg));
    assert(run(lx, c2) == run(lx, cfg));
}

pub proof fn lemma_step_progress(lx: &Lexemes, cfg: Cfg)
    requires
        0 <= cfg.pos <= lx.tokens@.len(),
    ensures
        step(lx, cfg) is Go ==> ({
            let c2 = step(lx, cfg)->Go_0;
            0 <= c2.pos <= lx.tokens@.len() && (c2.pos > cfg.pos || (c2.pos == cfg.pos && measure(c2) < measure(cfg)))
        }),
{
    let toks = lx.tokens@;
    lemma_skip_ws(toks, cfg.pos);
    let q1 = skip_ws(toks, cfg.pos);
    if q1 + 1 <= toks.len() {
        lemma_skip_ws(toks, q1 + 1);
        let q2 = skip_ws(toks, q1 + 1);
        if q2 + 1 <= toks.len() {
            lemma_skip_ws(toks, q2 + 1);
            let q3 = skip_ws(toks, q2 + 1);
            if q3 + 1 <= toks.len() {
                lemma_skip_ws(toks, q3 + 1);
            }
        }
    }
}

/// What the machine comes to from `cfg`.
pub open spec fn run(lx: &Lexemes, cfg: Cfg) -> Outcome
    decreases lx.tokens@.len() - cfg.pos, measure(cfg),
    when 0 <= cfg.pos <= lx.tokens@.len()
{
    match step(lx, cfg) {
        Step::Go(c2) => {
            proof {
                lemma_step_progress(lx, cfg);
            }
            run(lx, c2)
        },
        Step::Done(a) => Outcome::Parsed(a),
        Step::Fail(e) => Outcome::Failed(e),
        Step::Panic => Outcome::Panic,
    }
}

/// What parsing the lexemes comes to.
pub open spec fn parse_outcome(lx: &Lexemes) -> Outcome {
    run(lx, init_cfg())
}

// ---------------------------------------------------------------------------
// Components come out in the order of the text

/// The lexeme kinds that a component is made of.
pub open spec fn component_kind(k: Option<gTokens>) -> bool {
    k == Some(gTokens::Identifier) || k == Some(gTokens::Terminal) || k == Some(gTokens::Regex) || k == Some(
        gTokens::Star,
    )
}

/// The component that the lexeme `t` of a reductend stands for.
pub open spec fn lexeme_component(t: Lexeme) -> Component0V {
    if t.kind == Some(gTokens::Identifier) {
        Component0V::Rule(t.text@)
    } else if t.kind == Some(gTokens::Terminal) {
        Component0V::Terminal(t.text@)
    } else if t.kind == Some(gTokens::Regex) {
        Component0V::Regex(t.text@)
    } else {
        Component0V::Token
    }
}

/// The lexemes of a single rule with one alternative of plain components,
/// without white space, names, code or export: `name: c1 c2 ... cn;`.
pub open spec fn plain_rule(lx: &Lexemes) -> bool {
    let t = lx.tokens@;
    &&& t.len() >= 4
    &&& t[0].kind == Some(gTokens::Identifier)
    &&& t[1].kind == Some(gTokens::Colon)
    &&& t[t.len() - 1].kind == Some(gTokens::Semicolon)
    &&& forall|i: int| 2 <= i < t.len() - 1 ==> component_kind(#[trigger] t[i].kind)
}

/// The first `j` components of a plain rule, from its lexemes in order.
pub open spec fn plain_components(lx: &Lexemes, j: int) -> Seq<ComponentV> {
    Seq::new(j as nat, |i: int| ComponentV { handle: lexeme_component(lx.tokens@[i + 2]), var: None })
}

/// The syntax tree of a plain rule.
pub open spec fn plain_tree(lx: &Lexemes) -> GAstV {
    let t = lx.tokens@;
    GAstV {
        members: Seq::empty(),
        rules: seq![
            RuleV {
                identifier: t[0].text@,
                reductends: seq![ReductendV { components: plain_components(lx, t.len() - 3), code: None }],
                export: None,
            },
        ],
    }
}

/// The machine after reading the component `j` (from 1) of a plain rule.
pub open spec fn plain_cfg(lx: &Lexemes, j: int) -> Cfg {
    let t = lx.tokens@;
    let h = Val::Component0(lexeme_component(t[j + 1]));
    Cfg {
        state: States::Reductends,
        stack: seq![States::RAst0],
        vals: if j == 1 {
            seq![Val::Token(t[0].text@), h]
        } else {
            seq![Val::Token(t[0].text@), Val::VecComponent(plain_components(lx, j - 1)), h]
        },
        pos: j + 2,
        cur: Some((j + 1) as usize),
        c: if j == 1 {
            States::ReduceC0
        } else {
            States::ReduceC1
        },
        r: States::ReduceR0,
    }
}

/// The state that pushes the component of a lexeme of kind `k`.
pub open spec fn component_push_state(k: Option<gTokens>) -> States {
    if k == Some(gTokens::Identifier) {
        States::PushR
    } else if k == Some(gTokens::Terminal) {
        States::PushT
    } else if k == Some(gTokens::Regex) {
        States::PushX
    } else {
        States::PushS
    }
}

proof fn lemma_plain_start(lx: &Lexemes)
    requires
        plain_rule(lx),
    ensures
        run(lx, init_cfg()) == run(lx, plain_cfg(lx, 1)),
{
    let t = lx.tokens@;
    let c0 = init_cfg();
    let c1 = Cfg { state: States::Rule, vals: seq![Val::Token(t[0].text@)], pos: 1, cur: Some(0usize), ..c0 };
    assert(skip_ws(t, 0) == 0);
    assert(step(lx, c0) == Step::Go(c1)) by {
        assert(c0.vals.push(Val::Token(text_at(lx, 0))) =~= seq![Val::Token(t[0].text@)]);
    }
    let c2 = Cfg { state: States::RStart, pos: 2, cur: Some(1usize), ..c1 };
    assert(skip_ws(t, 1) == 1);
    assert(step(lx, c1) == Step::Go(c2));
    assert(component_kind(t[2].kind));
    assert(skip_ws(t, 2) == 2);
    let c3 = plain_cfg(lx, 1);
    assert(step(lx, c2) == Step::Go(c3)) by {
        assert(c2.vals.push(Val::Component0(lexeme_component(t[2]))) =~= c3.vals);
    }
    assert(run(lx, c2) == run(lx, c3));
    assert(run(lx, c1) == run(lx, c2));
    assert(run(lx, c0) == run(lx, c1));
}

/// The values below the component just read, at component `j`.
pub open spec fn plain_below(lx: &Lexemes, j: int) -> Seq<Val> {
    let t = lx.tokens@;
    if j == 1 {
        seq![Val::Token(t[0].text@)]
    } else {
        seq![Val::Token(t[0].text@), Val::VecComponent(plain_components(lx, j - 1))]
    }
}

pub open spec fn plain_comp(lx: &Lexemes, j: int) -> ComponentV {
    ComponentV { handle: lexeme_component(lx.tokens@[j + 1]), var: None }
}

/// The machine after reading the lexeme that ends the component `j`.
pub open spec fn plain_read(lx: &Lexemes, j: int, stack: Seq<States>) -> Cfg {
    let c = plain_cfg(lx, j);
    Cfg {
        state: c.c,
        vals: plain_below(lx, j).push(Val::Component(plain_comp(lx, j))),
        stack,
        pos: j + 3,
        cur: Some((j + 2) as usize),
        ..c
    }
}

/// The machine after adding the component `j` to the list, about to go to
/// the state on top of `stack`.
pub open spec fn plain_listed(lx: &Lexemes, j: int, state: States, stack: Seq<States>) -> Cfg {
    Cfg {
        state,
        stack,
        vals: seq![Val::Token(lx.tokens@[0].text@), Val::VecComponent(plain_components(lx, j))],
        c: States::ReduceC1,
        ..plain_read(lx, j, stack)
    }
}

proof fn lemma_plain_read(lx: &Lexemes, j: int)
    requires
        plain_rule(lx),
        1 <= j <= lx.tokens@.len() - 3,
    ensures
        step(lx, plain_cfg(lx, j)) == Step::Go(
            plain_read(lx, j, plain_cfg(lx, j).stack + reductends_pushes(lx.tokens@[j + 2].kind->Some_0, States::ReduceR0)),
        ),
        lx.tokens@[j + 2].kind is Some,
{
    let t = lx.tokens@;
    let c = plain_cfg(lx, j);
    let q = j + 2;
    assert(skip_ws(t, q) == q);
    assert(drop(c.vals, 1) =~= plain_below(lx, j));
}

proof fn lemma_plain_list(lx: &Lexemes, j: int, stack: Seq<States>)
    requires
        plain_rule(lx),
        1 <= j <= lx.tokens@.len() - 3,
        stack.len() >= 2,
    ensures
        step(lx, plain_read(lx, j, stack)) == Step::Go(plain_listed(lx, j, stack.last(), stack.drop_last())),
{
    let c1 = plain_read(lx, j, stack);
    let comp = plain_comp(lx, j);
    if j == 1 {
        assert(plain_components(lx, 1) =~= seq![comp]);
        assert(drop(c1.vals, 1).push(Val::VecComponent(seq![comp])) =~= plain_listed(lx, j, stack.last(), stack.drop_last()).vals);
    } else {
        assert(plain_components(lx, j - 1).push(comp) =~= plain_components(lx, j));
        assert(drop(c1.vals, 2).push(Val::VecComponent(plain_components(lx, j - 1).push(comp))) =~= plain_listed(
            lx,
            j,
            stack.last(),
            stack.drop_last(),
        ).vals);
    }
}

proof fn lemma_plain_push(lx: &Lexemes, j: int)
    requires
        plain_rule(lx),
        1 <= j < lx.tokens@.len() - 3,
    ensures
        step(lx, plain_listed(lx, j, component_push_state(lx.tokens@[j + 2].kind), seq![States::RAst0, States::Reductends]))
            == Step::Go(plain_cfg(lx, j + 1)),
{
    let t = lx.tokens@;
    let q = j + 2;
    assert(lx.tokens.len() == t.len());
    assert(component_kind(t[q].kind));
    let c2 = plain_listed(lx, j, component_push_state(t[q].kind), seq![States::RAst0, States::Reductends]);
    assert(slice_at(lx, c2.cur) == t[q].text@);
    let c3 = plain_cfg(lx, j + 1);
    assert(c2.stack.drop_last() =~= c3.stack);
    assert(c2.vals.push(Val::Component0(lexeme_component(t[q]))) =~= c3.vals);
}

proof fn lemma_plain_next(lx: &Lexemes, j: int)
    requires
        plain_rule(lx),
        1 <= j < lx.tokens@.len() - 3,
    ensures
        run(lx, plain_cfg(lx, j)) == run(lx, plain_cfg(lx, j + 1)),
{
    let t = lx.tokens@;
    let k = t[j + 2].kind;
    assert(component_kind(k));
    lemma_plain_read(lx, j);
    let stack = plain_cfg(lx, j).stack + reductends_pushes(k->Some_0, States::ReduceR0);
    assert(stack =~= seq![States::RAst0, States::Reductends, component_push_state(k)]);
    lemma_plain_list(lx, j, stack);
    assert(stack.drop_last() =~= seq![States::RAst0, States::Reductends]);
    lemma_plain_push(lx, j);
    let c1 = plain_read(lx, j, stack);
    let c2 = plain_listed(lx, j, component_push_state(k), seq![States::RAst0, States::Reductends]);
    assert(run(lx, c2) == run(lx, plain_cfg(lx, j + 1)));
    assert(run(lx, c1) == run(lx, c2));
    assert(run(lx, plain_cfg(lx, j)) == run(lx, c1));
}

proof fn lemma_plain_close(lx: &Lexemes, comps: Seq<ComponentV>, c2: Cfg)
    requires
        plain_rule(lx),
        c2.pos == lx.tokens@.len(),
        c2.state == States::ReduceRN,
        c2.stack == seq![States::RAst0, States::ReduceStatement, States::ReduceRule0, States::ReduceR0],
        c2.vals == seq![Val::Token(lx.tokens@[0].text@), Val::VecComponent(comps)],
    ensures
        run(lx, c2) == Outcome::Parsed(
            start0(
                StatementV::Rule(
                    RuleV {
                        identifier: lx.tokens@[0].text@,
                        reductends: seq![ReductendV { components: comps, code: None }],
                        export: None,
                    },
                ),
            ),
        ),
{
    let t = lx.tokens@;
    let red = ReductendV { components: comps, code: None };
    let c3 = Cfg {
        state: States::ReduceR0,
        stack: seq![States::RAst0, States::ReduceStatement, States::ReduceRule0],
        vals: seq![Val::Token(t[0].text@), Val::Reductend(red)],
        ..c2
    };
    assert(step(lx, c2) == Step::Go(c3)) by {
        assert(c2.stack.drop_last() =~= c3.stack);
        assert(drop(c2.vals, 1).push(Val::Reductend(red)) =~= c3.vals);
    }
    let c4 = Cfg {
        state: States::ReduceRule0,
        stack: seq![States::RAst0, States::ReduceStatement],
        vals: seq![Val::Token(t[0].text@), Val::VecReductend(seq![red])],
        c: States::ReduceC0,
        r: States::ReduceR1,
        ..c3
    };
    assert(step(lx, c3) == Step::Go(c4)) by {
        assert(c3.stack.drop_last() =~= c4.stack);
        assert(drop(c3.vals, 1).push(Val::VecReductend(seq![red])) =~= c4.vals);
    }
    let rule = RuleV { identifier: t[0].text@, reductends: seq![red], export: None };
    let c5 = Cfg { state: States::ReduceStatement, stack: seq![States::RAst0], vals: seq![Val::Rule(rule)], ..c4 };
    assert(step(lx, c4) == Step::Go(c5)) by {
        assert(c4.stack.drop_last() =~= c5.stack);
        assert(drop(c4.vals, 2).push(Val::Rule(rule)) =~= c5.vals);
    }
    let c6 = Cfg {
        state: States::RAst0,
        stack: Seq::empty(),
        vals: seq![Val::Statement(StatementV::Rule(rule))],
        c: States::ReduceC0,
        r: States::ReduceR0,
        ..c5
    };
    assert(step(lx, c5) == Step::Go(c6)) by {
        assert(c5.stack.drop_last() =~= c6.stack);
        assert(drop(c5.vals, 1).push(Val::Statement(StatementV::Rule(rule))) =~= c6.vals);
    }
    let ast = start0(StatementV::Rule(rule));
    let c7 = Cfg { state: States::Start, stack: seq![States::RAst1], vals: seq![Val::Ast(ast)], ..c6 };
    assert(step(lx, c6) == Step::Go(c7)) by {
        assert(c6.stack.push(States::RAst1) =~= c7.stack);
        assert(drop(c6.vals, 1).push(Val::Ast(ast)) =~= c7.vals);
    }
    assert(skip_ws(t, c7.pos) == t.len());
    assert(step(lx, c7) == Step::Done(ast));
    assert(run(lx, c7) == Outcome::Parsed(ast));
    assert(run(lx, c6) == run(lx, c7));
    assert(run(lx, c5) == run(lx, c6));
    assert(run(lx, c4) == run(lx, c5));
    assert(run(lx, c3) == run(lx, c4));
    assert(run(lx, c2) == run(lx, c3));
}

proof fn lemma_plain_end(lx: &Lexemes)
    requires
        plain_rule(lx),
    ensures
        run(lx, plain_cfg(lx, lx.tokens@.len() - 3)) == Outcome::Parsed(plain_tree(lx)),
{
    let t = lx.tokens@;
    let n = t.len() - 3;
    lemma_plain_read(lx, n);
    let stack = plain_cfg(lx, n).stack + reductends_pushes(gTokens::Semicolon, States::ReduceR0);
    assert(stack =~= seq![States::RAst0, States::ReduceStatement, States::ReduceRule0, States::ReduceR0, States::ReduceRN]);
    lemma_plain_list(lx, n, stack);
    let c1 = plain_read(lx, n, stack);
    let c2 = plain_listed(lx, n, stack.last(), stack.drop_last());
    assert(stack.drop_last() =~= seq![States::RAst0, States::ReduceStatement, States::ReduceRule0, States::ReduceR0]);
    lemma_plain_close(lx, plain_components(lx, n), c2);
    let rule = RuleV {
        identifier: t[0].text@,
        reductends: seq![ReductendV { components: plain_components(lx, n), code: None }],
        export: None,
    };
    assert(start0(StatementV::Rule(rule)) == plain_tree(lx));
    assert(run(lx, c1) == run(lx, c2));
    assert(run(lx, plain_cfg(lx, n)) == run(lx, c1));
}

proof fn lemma_plain_from(lx: &Lexemes, j: int)
    requires
        plain_rule(lx),
        1 <= j <= lx.tokens@.len() - 3,
    ensures
        run(lx, plain_cfg(lx, j)) == Outcome::Parsed(plain_tree(lx)),
    decreases lx.tokens@.len() - 3 - j,
{
    if j < lx.tokens@.len() - 3 {
        lemma_plain_next(lx, j);
        lemma_plain_from(lx, j + 1);
    } else {
        lemma_plain_end(lx);
    }
}

/// Parsing a rule gives its components in the order of the text: for the
/// lexemes `name: c1 c2 ... cn;` the rule `name` has one reductend whose
/// `i`-th component is the one that the `i`-th component lexeme stands for.
pub proof fn lemma_components_in_text_order(lx: &Lexemes)
    requires
        plain_rule(lx),
    ensures
        parse_outcome(lx) == Outcome::Parsed(plain_tree(lx)),
        forall|i: int|
            0 <= i < lx.tokens@.len() - 3 ==> (#[trigger] plain_tree(lx).rules[0].reductends[0].components[i]).handle
                == lexeme_component(lx.tokens@[i + 2]),
{
    lemma_plain_start(lx);
    lemma_plain_from(lx, 1);
}

// ---------------------------------------------------------------------------
// White space between lexemes

/// `lx2` has the lexemes of `lx` with the white space lexemes `w` put in
/// before the lexeme `k` (at the end where `k` is the number of lexemes).
pub open spec fn ws_inserted(lx: &Lexemes, lx2: &Lexemes, k: int, w: Seq<Lexeme>) -> bool {
    &&& 0 <= k <= lx.tokens@.len()
    &&& forall|i: int| 0 <= i < w.len() ==> (#[trigger] w[i]).kind == Some(gTokens::WhiteSpace)
    &&& lx2.tokens@ == lx.tokens@.take(k) + w + lx.tokens@.skip(k)
}

/// Where the machine stands in `lx2` when it stands at `p` in `lx`.
pub open spec fn ws_shift(k: int, m: int, p: int) -> int {
    if p <= k {
        p
    } else {
        p + m
    }
}

/// Where the lexeme `q` of `lx` lies in `lx2`.
pub open spec fn ws_map(k: int, m: int, q: int) -> int {
    if q < k {
        q
    } else {
        q + m
    }
}

pub open spec fn ws_cfg(k: int, m: int, cfg: Cfg) -> Cfg {
    Cfg {
        pos: ws_shift(k, m, cfg.pos),
        cur: match cfg.cur {
            Some(q) => Some(ws_map(k, m, q as int) as usize),
            None => None,
        },
        ..cfg
    }
}

/// The states that read white space as part of code or generic arguments.
pub open spec fn nested(s: States) -> bool {
    s is Generics || s is Generics1 || s is Code || s is Code1
}

/// Running from `cfg`, the machine reads the lexeme `k` inside code or
/// generic arguments.
pub open spec fn reads_nested_at(lx: &Lexemes, cfg: Cfg, k: int) -> bool
    decreases lx.tokens@.len() - cfg.pos, measure(cfg),
    when 0 <= cfg.pos <= lx.tokens@.len()
{
    (nested(cfg.state) && cfg.pos == k) || match step(lx, cfg) {
        Step::Go(c2) => {
            proof {
                lemma_step_progress(lx, cfg);
            }
            reads_nested_at(lx, c2, k)
        },
        _ => false,
    }
}

proof fn lemma_ws_index(lx: &Lexemes, lx2: &Lexemes, k: int, w: Seq<Lexeme>)
    requires
        ws_inserted(lx, lx2, k, w),
    ensures
        lx2.tokens@.len() == lx.tokens@.len() + w.len(),
        forall|i: int| 0 <= i < k ==> lx2.tokens@[i] == #[trigger] lx.tokens@[i],
        forall|i: int| k <= i < lx.tokens@.len() ==> lx2.tokens@[i + w.len()] == #[trigger] lx.tokens@[i],
        forall|j: int| 0 <= j < w.len() ==> #[trigger] lx2.tokens@[k + j] == w[j],
{
    let t = lx.tokens@;
    let t2 = lx2.tokens@;
    assert forall|i: int| k <= i < t.len() implies t2[i + w.len()] == #[trigger] t[i] by {
        assert(t.skip(k)[i - k] == t[i]);
    }
}

/// Inside the white space put in, the machine skips to its end.
proof fn lemma_ws_skip_inserted(lx: &Lexemes, lx2: &Lexemes, k: int, w: Seq<Lexeme>, j: int)
    requires
        ws_inserted(lx, lx2, k, w),
        k <= j <= k + w.len(),
    ensures
        skip_ws(lx2.tokens@, j) == skip_ws(lx2.tokens@, k + w.len()),
    decreases k + w.len() - j,
{
    lemma_ws_index(lx, lx2, k, w);
    if j < k + w.len() {
        assert(lx2.tokens@[k + (j - k)] == w[j - k]);
        lemma_ws_skip_inserted(lx, lx2, k, w, j + 1);
    }
}

proof fn lemma_ws_skip_after(lx: &Lexemes, lx2: &Lexemes, k: int, w: Seq<Lexeme>, p: int)
    requires
        ws_inserted(lx, lx2, k, w),
        k <= p,
    ensures
        skip_ws(lx2.tokens@, p + w.len()) == ws_map(k, w.len() as int, skip_ws(lx.tokens@, p)),
    decreases lx.tokens@.len() - p,
{
    lemma_ws_index(lx, lx2, k, w);
    if p < lx.tokens@.len() {
        assert(lx2.tokens@[p + w.len()] == lx.tokens@[p]);
        if lx.tokens@[p].kind == Some(gTokens::WhiteSpace) {
            lemma_ws_skip_after(lx, lx2, k, w, p + 1);
        }
    }
}

proof fn lemma_ws_skip_before(lx: &Lexemes, lx2: &Lexemes, k: int, w: Seq<Lexeme>, p: int)
    requires
        ws_inserted(lx, lx2, k, w),
        0 <= p <= k,
    ensures
        skip_ws(lx2.tokens@, p) == ws_map(k, w.len() as int, skip_ws(lx.tokens@, p)),
    decreases k - p,
{
    lemma_ws_index(lx, lx2, k, w);
    if p == k {
        lemma_ws_skip_inserted(lx, lx2, k, w, k);
        lemma_ws_skip_after(lx, lx2, k, w, k);
    } else {
        assert(lx2.tokens@[p] == lx.tokens@[p]);
        if lx.tokens@[p].kind == Some(gTokens::WhiteSpace) {
            lemma_ws_skip_before(lx, lx2, k, w, p + 1);
        }
    }
}

/// Skipping white space from `p` in `lx` and from where that stands in `lx2`
/// comes to the same lexeme.
proof fn lemma_ws_skip(lx: &Lexemes, lx2: &Lexemes, k: int, w: Seq<Lexeme>, p: int)
    requires
        ws_inserted(lx, lx2, k, w),
        0 <= p,
    ensures
        skip_ws(lx2.tokens@, ws_shift(k, w.len() as int, p)) == ws_map(k, w.len() as int, skip_ws(lx.tokens@, p)),
        0 <= skip_ws(lx.tokens@, p) <= lx.tokens@.len(),
        ws_shift(k, w.len() as int, p + 1) == ws_map(k, w.len() as int, p) + 1,
{
    lemma_skip_ws(lx.tokens@, p);
    if p <= k {
        lemma_ws_skip_before(lx, lx2, k, w, p);
    } else {
        lemma_ws_skip_after(lx, lx2, k, w, p);
    }
}

/// The lexeme at `q` of `lx` and the one at its place in `lx2` agree.
pub open spec fn ws_same_at(lx: &Lexemes, lx2: &Lexemes, k: int, m: int, q: int) -> bool {
    &&& (q < lx.tokens@.len() ==> lx2.tokens@[ws_map(k, m, q)] == lx.tokens@[q])
    &&& (ws_map(k, m, q) < lx2.tokens@.len()) == (q < lx.tokens@.len())
    &&& 0 <= ws_map(k, m, q) <= lx2.tokens@.len()
    &&& forall|kd: gTokens| is_kind(lx2, ws_map(k, m, q), kd) == is_kind(lx, q, kd)
    &&& (q < lx.tokens@.len() ==> text_at(lx2, ws_map(k, m, q)) == text_at(lx, q))
    &&& component_at(lx2, ws_map(k, m, q)) == component_at(lx, q)
    &&& ws_shift(k, m, q + 1) == ws_map(k, m, q) + 1
}

proof fn lemma_ws_at(lx: &Lexemes, lx2: &Lexemes, k: int, w: Seq<Lexeme>, q: int)
    requires
        ws_inserted(lx, lx2, k, w),
        0 <= q <= lx.tokens@.len(),
    ensures
        ws_same_at(lx, lx2, k, w.len() as int, q),
{
    lemma_ws_index(lx, lx2, k, w);
}

/// What the step functions read, from `p` on, agrees in `lx` and `lx2`.
pub open spec fn ws_chain(lx: &Lexemes, lx2: &Lexemes, k: int, m: int, p: int) -> bool {
    let t = lx.tokens@;
    let t2 = lx2.tokens@;
    let q1 = skip_ws(t, p);
    let q2 = skip_ws(t, q1 + 1);
    let q3 = skip_ws(t, q2 + 1);
    let q4 = skip_ws(t, q3 + 1);
    &&& skip_ws(t2, ws_shift(k, m, p)) == ws_map(k, m, q1)
    &&& skip_ws(t2, ws_map(k, m, q1) + 1) == ws_map(k, m, q2)
    &&& skip_ws(t2, ws_map(k, m, q2) + 1) == ws_map(k, m, q3)
    &&& skip_ws(t2, ws_map(k, m, q3) + 1) == ws_map(k, m, q4)
    &&& ws_same_at(lx, lx2, k, m, q1)
    &&& ws_same_at(lx, lx2, k, m, q2)
    &&& ws_same_at(lx, lx2, k, m, q3)
    &&& ws_same_at(lx, lx2, k, m, q4)
}

proof fn lemma_ws_chain(lx: &Lexemes, lx2: &Lexemes, k: int, w: Seq<Lexeme>, p: int)
    requires
        ws_inserted(lx, lx2, k, w),
        0 <= p <= lx.tokens@.len(),
    ensures
        ws_chain(lx, lx2, k, w.len() as int, p),
{
    let t = lx.tokens@;
    lemma_skip_ws(t, p);
    lemma_ws_skip(lx, lx2, k, w, p);
    let q1 = skip_ws(t, p);
    lemma_ws_at(lx, lx2, k, w, q1);
    lemma_skip_ws(t, q1 + 1);
    lemma_ws_skip(lx, lx2, k, w, q1 + 1);
    let q2 = skip_ws(t, q1 + 1);
    lemma_ws_at(lx, lx2, k, w, q2);
    lemma_skip_ws(t, q2 + 1);
    lemma_ws_skip(lx, lx2, k, w, q2 + 1);
    let q3 = skip_ws(t, q2 + 1);
    lemma_ws_at(lx, lx2, k, w, q3);
    lemma_skip_ws(t, q3 + 1);
    lemma_ws_skip(lx, lx2, k, w, q3 + 1);
    let q4 = skip_ws(t, q3 + 1);
    lemma_ws_at(lx, lx2, k, w, q4);
}

/// What one step of `lx` from `cfg` and of `lx2` from where it stands there
/// must agree on.
pub open spec fn ws_post(lx: &Lexemes, lx2: &Lexemes, k: int, m: int, cfg: Cfg) -> bool {
    &&& (step(lx, cfg) matches Step::Go(c) ==> step(lx2, ws_cfg(k, m, cfg)) == Step::Go(ws_cfg(k, m, c)) && (
    c.cur matches Some(q) ==> q < lx.tokens@.len()))
    &&& (step(lx, cfg) matches Step::Done(a) ==> step(lx2, ws_cfg(k, m, cfg)) == Step::Done(a))
}

pub open spec fn ws_pre(lx: &Lexemes, lx2: &Lexemes, k: int, w: Seq<Lexeme>, cfg: Cfg) -> bool {
    &&& ws_inserted(lx, lx2, k, w)
    &&& 0 <= cfg.pos <= lx.tokens@.len()
    &&& (cfg.cur matches Some(q) ==> q < lx.tokens@.len() && ws_same_at(lx, lx2, k, w.len() as int, q as int))
    &&& !(nested(cfg.state) && cfg.pos == k)
    &&& ws_chain(lx, lx2, k, w.len() as int, cfg.pos)
    &&& ws_same_at(lx, lx2, k, w.len() as int, cfg.pos)
    &&& lx2.tokens@.len() == lx.tokens@.len() + w.len()
    &&& lx2.tokens@.len() <= usize::MAX
}

proof fn lemma_ws_step_start(lx: &Lexemes, lx2: &Lexemes, k: int, w: Seq<Lexeme>, cfg: Cfg)
    requires ws_pre(lx, lx2, k, w, cfg), cfg.state is Start || cfg.state is RAst0 || cfg.state is RAst1,
    ensures ws_post(lx, lx2, k, w.len() as int, cfg),
{
}

proof fn lemma_ws_step_member(lx: &Lexemes, lx2: &Lexemes, k: int, w: Seq<Lexeme>, cfg: Cfg)
    requires ws_pre(lx, lx2, k, w, cfg), cfg.state is Member || cfg.state is Rule || cfg.state is Type,
    ensures ws_post(lx, lx2, k, w.len() as int, cfg),
{
}

proof fn lemma_ws_step_reductends(lx: &Lexemes, lx2: &Lexemes, k: int, w: Seq<Lexeme>, cfg: Cfg)
    requires ws_pre(lx, lx2, k, w, cfg), cfg.state is Reductends || cfg.state is Export,
    ensures ws_post(lx, lx2, k, w.len() as int, cfg),
{
}

proof fn lemma_ws_step_nested(lx: &Lexemes, lx2: &Lexemes, k: int, w: Seq<Lexeme>, cfg: Cfg)
    requires ws_pre(lx, lx2, k, w, cfg), nested(cfg.state),
    ensures ws_post(lx, lx2, k, w.len() as int, cfg),
{
}

proof fn lemma_ws_step_rbegin(lx: &Lexemes, lx2: &Lexemes, k: int, w: Seq<Lexeme>, cfg: Cfg)
    requires
        ws_pre(lx, lx2, k, w, cfg),
        cfg.state is RStart || cfg.state is RBegin || cfg.state is Assign || cfg.state is CodeE,
    ensures ws_post(lx, lx2, k, w.len() as int, cfg),
{
}

proof fn lemma_ws_step_reduce(lx: &Lexemes, lx2: &Lexemes, k: int, w: Seq<Lexeme>, cfg: Cfg)
    requires
        ws_pre(lx, lx2, k, w, cfg),
        !(cfg.state is Start || cfg.state is RAst0 || cfg.state is RAst1 || cfg.state is Member || cfg.state is Rule
            || cfg.state is Type || cfg.state is Reductends || cfg.state is Export || nested(cfg.state)
            || cfg.state is RStart || cfg.state is RBegin || cfg.state is Assign || cfg.state is CodeE),
    ensures ws_post(lx, lx2, k, w.len() as int, cfg),
{
}

/// One step in `lx` and the same step in `lx2` from where it stands there.
proof fn lemma_ws_step(lx: &Lexemes, lx2: &Lexemes, k: int, w: Seq<Lexeme>, cfg: Cfg)
    requires
        ws_inserted(lx, lx2, k, w),
        0 <= cfg.pos <= lx.tokens@.len(),
        cfg.cur matches Some(q) ==> q < lx.tokens@.len(),
        !(nested(cfg.state) && cfg.pos == k),
    ensures
        ws_post(lx, lx2, k, w.len() as int, cfg),
{
    lemma_ws_index(lx, lx2, k, w);
    lemma_ws_chain(lx, lx2, k, w, cfg.pos);
    lemma_ws_at(lx, lx2, k, w, cfg.pos);
    if let Some(q) = cfg.cur {
        lemma_ws_at(lx, lx2, k, w, q as int);
    }
    assert(lx2.tokens.len() == lx2.tokens@.len());
    assert(lx2.tokens@.len() <= usize::MAX);
    assert(ws_pre(lx, lx2, k, w, cfg));
    if cfg.state is Start || cfg.state is RAst0 || cfg.state is RAst1 {
        lemma_ws_step_start(lx, lx2, k, w, cfg);
    } else if cfg.state is Member || cfg.state is Rule || cfg.state is Type {
        lemma_ws_step_member(lx, lx2, k, w, cfg);
    } else if cfg.state is Reductends || cfg.state is Export {
        lemma_ws_step_reductends(lx, lx2, k, w, cfg);
    } else if nested(cfg.state) {
        lemma_ws_step_nested(lx, lx2, k, w, cfg);
    } else if cfg.state is RStart || cfg.state is RBegin || cfg.state is Assign || cfg.state is CodeE {
        lemma_ws_step_rbegin(lx, lx2, k, w, cfg);
    } else {
        lemma_ws_step_reduce(lx, lx2, k, w, cfg);
    }
}

/// A run in `lx` that parses, and the run in `lx2` from where it stands there.
proof fn lemma_ws_run(lx: &Lexemes, lx2: &Lexemes, k: int, w: Seq<Lexeme>, cfg: Cfg)
    requires
        ws_inserted(lx, lx2, k, w),
        0 <= cfg.pos <= lx.tokens@.len(),
        cfg.cur matches Some(q) ==> q < lx.tokens@.len(),
        run(lx, cfg) is Parsed,
        !reads_nested_at(lx, cfg, k),
    ensures
        run(lx2, ws_cfg(k, w.len() as int, cfg)) == run(lx, cfg),
    decreases lx.tokens@.len() - cfg.pos, measure(cfg),
{
    let m = w.len() as int;
    lemma_ws_index(lx, lx2, k, w);
    lemma_step_progress(lx, cfg);
    lemma_ws_step(lx, lx2, k, w, cfg);
    if step(lx, cfg) is Go {
        assert(step(lx, cfg)->Go_0.cur matches Some(q) ==> q < lx.tokens@.len());
    }
    let c2 = ws_cfg(k, m, cfg);
    assert(0 <= c2.pos <= lx2.tokens@.len());
    match step(lx, cfg) {
        Step::Go(c) => {
            lemma_ws_run(lx, lx2, k, w, c);
        },
        _ => {},
    }
}

/// Extra white space between lexemes leaves the parse unchanged: where the
/// lexemes `lx` parse to `a`, putting white space lexemes in before a lexeme
/// that the machine does not read inside code or generic arguments gives `a`
/// again.
pub proof fn lemma_whitespace_insertion(lx: &Lexemes, lx2: &Lexemes, k: int, w: Seq<Lexeme>, a: GAstV)
    requires
        ws_inserted(lx, lx2, k, w),
        parse_outcome(lx) == Outcome::Parsed(a),
        !reads_nested_at(lx, init_cfg(), k),
    ensures
        parse_outcome(lx2) == Outcome::Parsed(a),
{
    lemma_ws_run(lx, lx2, k, w, init_cfg());
    assert(ws_cfg(k, w.len() as int, init_cfg()) == init_cfg());
}


// ---------------------------------------------------------------------------
// Reading the lexemes

/// The vector of the kinds given.
pub fn kinds1(a: gTokens) -> (r: Vec<gTokens>)
    ensures
        r@ == seq![a],
{
    let mut r: Vec<gTokens> = Vec::new();
    r.push(a);
    proof {
        assert(r@ =~= seq![a]);
    }
    r
}

/// The vector of the kinds given.
pub fn kinds2(a: gTokens, b: gTokens) -> (r: Vec<gTokens>)
    ensures
        r@ == seq![a, b],
{
    let mut r = kinds1(a);
    r.push(b);
    proof {
        assert(r@ =~= seq![a, b]);
    }
    r
}

/// The vector of the kinds given.
pub fn kinds3(a: gTokens, b: gTokens, c: gTokens) -> (r: Vec<gTokens>)
    ensures
        r@ == seq![a, b, c],
{
    let mut r = kinds2(a, b);
    r.push(c);
    proof {
        assert(r@ =~= seq![a, b, c]);
    }
    r
}

/// The vector of the kinds given.
pub fn kinds4(a: gTokens, b: gTokens, c: gTokens, d: gTokens) -> (r: Vec<gTokens>)
    ensures
        r@ == seq![a, b, c, d],
{
    let mut r = kinds3(a, b, c);
    r.push(d);
    proof {
        assert(r@ =~= seq![a, b, c, d]);
    }
    r
}

/// The vector of the kinds given.
pub fn kinds5(a: gTokens, b: gTokens, c: gTokens, d: gTokens, e: gTokens) -> (r: Vec<gTokens>)
    ensures
        r@ == seq![a, b, c, d, e],
{
    let mut r = kinds4(a, b, c, d);
    r.push(e);
    proof {
        assert(r@ =~= seq![a, b, c, d, e]);
    }
    r
}

/// The kinds that may follow a component.
pub fn reductends_kinds() -> (r: Vec<gTokens>)
    ensures
        r@ == reductends_expected(),
{
    let mut r = kinds5(gTokens::Assign, gTokens::Or, gTokens::Identifier, gTokens::Terminal, gTokens::Regex);
    r.push(gTokens::Star);
    r.push(gTokens::CurleyOpen);
    r.push(gTokens::Semicolon);
    r.push(gTokens::Arrow);
    proof {
        assert(r@ =~= reductends_expected());
    }
    r
}

/// Whether the lexeme `q` has the kind `k`.
pub fn kind_is(lx: &Lexemes, q: usize, k: gTokens) -> (r: bool)
    ensures
        r == is_kind(lx, q as int, k),
{
    if q < lx.tokens.len() {
        match lx.tokens[q].kind {
            Some(k2) => k2 == k,
            None => false,
        }
    } else {
        false
    }
}

/// The first lexeme at or after `pos` that is not white space.
pub fn skip_white(lx: &Lexemes, pos: usize) -> (q: usize)
    ensures
        q == skip_ws(lx.tokens@, pos as int),
{
    let n = lx.tokens.len();
    if pos >= n {
        return n;
    }
    let mut q = pos;
    while q < n && kind_is(lx, q, gTokens::WhiteSpace)
        invariant
            pos <= q <= n,
            n == lx.tokens@.len(),
            skip_ws(lx.tokens@, pos as int) == skip_ws(lx.tokens@, q as int),
        decreases n - q,
    {
        q = q + 1;
    }
    q
}

/// The text of the lexeme `q`.
pub fn text_of(lx: &Lexemes, q: usize) -> (r: String)
    requires
        q < lx.tokens@.len(),
    ensures
        r@ == text_at(lx, q as int),
{
    lx.tokens[q].text.clone()
}

proof fn lemma_after_newline(bytes: Seq<u8>, i: int)
    requires
        vstd::utf8::valid_utf8(bytes),
        0 < i <= bytes.len(),
        bytes[i - 1] == 10u8,
    ensures
        vstd::utf8::is_char_boundary(bytes, i),
    decreases bytes.len(),
{
    let l = vstd::utf8::length_of_first_scalar(bytes);
    let rest = vstd::utf8::pop_first_scalar(bytes);
    assert(vstd::utf8::valid_first_scalar(bytes) && vstd::utf8::valid_utf8(rest));
    if i <= l {
        if l == 1 {
            assert(vstd::utf8::is_char_boundary(rest, 0));
        } else {
            if i == 1 {
                assert(!vstd::utf8::is_leading_byte_width_1(bytes[0]));
            } else {
                assert(vstd::utf8::is_continuation_byte(bytes[i - 1]));
            }
        }
    } else {
        assert(rest[i - l - 1] == bytes[i - 1]);
        lemma_after_newline(rest, i - l);
    }
}

/// The error where one of `expected` was wanted at the lexeme `q`.
pub fn make_error(lx: &Lexemes, expected: Vec<gTokens>, q: usize) -> (r: GError)
    requires
        lexemes_ok(lx),
        q <= lx.tokens@.len(),
    ensures
        r@ == gerror(lx, expected@, q as int),
{
    let ghost b = src_bytes(lx);
    let src = lx.source.as_str();
    let bytes = src.as_bytes();
    proof {
        vstd::utf8::encode_utf8_valid_utf8(lx.source@);
    }
    let (s, e, found) = if q < lx.tokens.len() {
        let t = &lx.tokens[q];
        let f = match t.kind {
            Some(k) => Some(Ok(k)),
            None => Some(Err(())),
        };
        (t.start, t.end, f)
    } else {
        (lx.eof, lx.eof, None)
    };
    let mut nl: usize = 0;
    let mut ls: usize = 0;
    let mut i: usize = 0;
    while i < s
        invariant
            b == bytes@,
            s <= e <= b.len(),
            b.len() < usize::MAX,
            i <= s,
            nl <= i,
            nl == count_nl(b.subrange(0, i as int)),
            ls == line_start(b.subrange(0, i as int)),
            ls <= i,
            ls > 0 ==> b[ls - 1] == 10u8,
        decreases s - i,
    {
        proof {
            assert(b.subrange(0, i + 1).drop_last() =~= b.subrange(0, i as int));
            assert(b.subrange(0, i + 1).last() == b[i as int]);
        }
        if bytes[i] == 10u8 {
            nl = nl + 1;
            ls = i + 1;
        }
        i = i + 1;
    }
    let (pre, _) = src.split_at(e);
    proof {
        let pb = pre.spec_bytes();
        assert(pb =~= b.subrange(0, e as int));
        vstd::utf8::valid_utf8_split(b, e as int);
        if ls > 0 {
            assert(pb[ls - 1] == b[ls - 1]);
            lemma_after_newline(pb, ls as int);
        } else {
            vstd::utf8::is_char_boundary_start_end_of_seq(pb);
        }
    }
    let (_, t) = pre.split_at(ls);
    let text = t.to_owned();
    proof {
        assert(t.spec_bytes() =~= b.subrange(ls as int, e as int));
        vstd::utf8::encode_utf8_decode_utf8(t@);
    }
    GError { expected, found, text, line: nl + 1, offset: s - ls, len: e - s }
}


// ---------------------------------------------------------------------------
// Running the machine

/// A value on the value stack.
pub enum Types {
    Ast(GAst),
    Statement(Statement),
    Member(Member),
    Rule(Rule),
    Component(Component),
    Component0(Component0),
    VecComponent(Vec<Component>),
    VecReductend(Vec<Reductend>),
    Reductend(Reductend),
    Token(String),
}

pub open spec fn val_view(t: Types) -> Val {
    match t {
        Types::Ast(a) => Val::Ast(a@),
        Types::Statement(s) => Val::Statement(s@),
        Types::Member(m) => Val::Member(m@),
        Types::Rule(r) => Val::Rule(r@),
        Types::Component(c) => Val::Component(c@),
        Types::Component0(c) => Val::Component0(c@),
        Types::VecComponent(v) => Val::VecComponent(components_view(v@)),
        Types::VecReductend(v) => Val::VecReductend(reductends_view(v@)),
        Types::Reductend(r) => Val::Reductend(r@),
        Types::Token(s) => Val::Token(s@),
    }
}

pub open spec fn vals_view(s: Seq<Types>) -> Seq<Val> {
    s.map_values(|t: Types| val_view(t))
}

/// The machine: its state, the states to return to, the value stack, the
/// next lexeme, the lexeme last read, and the states that reduce the next
/// component and reductend.
pub struct Machine {
    pub state: States,
    pub stack: Vec<States>,
    pub vals: Vec<Types>,
    pub pos: usize,
    pub cur: Option<usize>,
    pub c: States,
    pub r: States,
}

impl View for Machine {
    type V = Cfg;

    open spec fn view(&self) -> Cfg {
        Cfg {
            state: self.state,
            stack: self.stack@,
            vals: vals_view(self.vals@),
            pos: self.pos as int,
            cur: self.cur,
            c: self.c,
            r: self.r,
        }
    }
}

pub enum ExStep {
    Go,
    Done(GAst),
    Fail(GError),
    Panic,
}

/// The step `r` of the machine, ending in `m2`, is the step `st`.
pub open spec fn step_is(st: Step, r: ExStep, m2: Cfg) -> bool {
    match r {
        ExStep::Go => st == Step::Go(m2),
        ExStep::Done(a) => st == Step::Done(a@),
        ExStep::Fail(e) => st == Step::Fail(e@),
        ExStep::Panic => st is Panic,
    }
}

proof fn lemma_vals_pop(s: Seq<Types>)
    requires
        s.len() > 0,
    ensures
        vals_view(s.subrange(0, s.len() - 1)) == drop(vals_view(s), 1),
        val_view(s[s.len() - 1]) == top(vals_view(s), 0),
{
    assert(vals_view(s.subrange(0, s.len() - 1)) =~= drop(vals_view(s), 1));
}

proof fn lemma_vals_push(s: Seq<Types>, t: Types)
    ensures
        vals_view(s.push(t)) == vals_view(s).push(val_view(t)),
{
    assert(vals_view(s.push(t)) =~= vals_view(s).push(val_view(t)));
}

/// Pops the value stack.
fn pop_val(m: &mut Machine) -> (r: Option<Types>)
    ensures
        old(m)@.vals.len() == 0 ==> r is None,
        old(m)@.vals.len() > 0 ==> r == Some(old(m).vals@.last()) && val_view(old(m).vals@.last()) == top(old(m)@.vals, 0)
            && final(m)@ == (Cfg { vals: drop(old(m)@.vals, 1), ..old(m)@ }),
{
    proof {
        if m.vals@.len() > 0 {
            lemma_vals_pop(m.vals@);
        }
    }
    m.vals.pop()
}

/// Pushes onto the value stack.
fn push_val(m: &mut Machine, t: Types)
    ensures
        final(m)@ == (Cfg { vals: old(m)@.vals.push(val_view(t)), ..old(m)@ }),
{
    proof {
        lemma_vals_push(m.vals@, t);
    }
    m.vals.push(t);
}

/// Pushes onto the stack of states.
fn push_state(m: &mut Machine, s: States)
    ensures
        final(m)@ == (Cfg { stack: old(m)@.stack.push(s), ..old(m)@ }),
{
    m.stack.push(s);
}

/// Moves past the lexeme `q`.
fn read_at(m: &mut Machine, q: usize)
    requires
        q < usize::MAX,
    ensures
        final(m)@ == read(old(m)@, q as int),
{
    m.pos = q + 1;
    m.cur = Some(q);
}

/// Goes to the state on top of the stack.
fn ret_m(m: &mut Machine) -> (r: ExStep)
    ensures
        step_is(ret(old(m)@), r, final(m)@),
{
    match m.stack.pop() {
        Some(s) => {
            m.state = s;
            ExStep::Go
        },
        None => ExStep::Panic,
    }
}


fn exec_start(lx: &Lexemes, m: &mut Machine) -> (r: ExStep)
    requires
        lexemes_ok(lx),
        0 <= old(m).pos <= lx.tokens@.len(),
    ensures
        step_is(step_start(lx, old(m)@), r, final(m)@),
{
    let n = lx.tokens.len();
    let q = skip_white(lx, m.pos);
    proof {
        lemma_skip_ws(lx.tokens@, m.pos as int);
    }
    if q >= lx.tokens.len() {
        match pop_val(m) {
            Some(Types::Ast(a)) => ExStep::Done(a),
            _ => ExStep::Panic,
        }
    } else if kind_is(lx, q, gTokens::Var) {
        read_at(m, q);
        m.state = States::Member;
        ExStep::Go
    } else if kind_is(lx, q, gTokens::Identifier) {
        let t = text_of(lx, q);
        push_val(m, Types::Token(t));
        read_at(m, q);
        m.state = States::Rule;
        ExStep::Go
    } else {
        ExStep::Fail(make_error(lx, kinds2(gTokens::Var, gTokens::Identifier), q))
    }
}

fn exec_rast(m: &mut Machine, first: bool) -> (r: ExStep)
    ensures
        step_is(step_rast(old(m)@, first), r, final(m)@),
{
    let s = match pop_val(m) {
        Some(Types::Statement(s)) => s,
        _ => return ExStep::Panic,
    };
    let ghost sv = s@;
    let ast = if first {
        start_user_0(s)
    } else {
        match pop_val(m) {
            Some(Types::Ast(a)) => start_user_1(s, a),
            _ => return ExStep::Panic,
        }
    };
    proof {
        if first {
            assert(ast@ == start0(sv)) by {
                match sv {
                    StatementV::Member(t) => {
                        assert(ast@.members =~= seq![t]);
                        assert(ast@.rules =~= Seq::<RuleV>::empty());
                    },
                    StatementV::Rule(t) => {
                        assert(ast@.rules =~= seq![t]);
                        assert(ast@.members =~= Seq::<MemberV>::empty());
                    },
                }
            }
        }
    }
    push_val(m, Types::Ast(ast));
    push_state(m, States::RAst1);
    m.state = States::Start;
    proof {
        let o = old(m)@;
        if !first {
            let a = top(o.vals, 1)->Ast_0;
            assert(ast@ == start1(sv, a)) by {
                match sv {
                    StatementV::Member(t) => {
                        assert(ast@.members =~= a.members.push(t));
                    },
                    StatementV::Rule(t) => {
                        assert(ast@.rules =~= a.rules.push(t));
                    },
                }
            }
            assert(drop(drop(o.vals, 1), 1) =~= drop(o.vals, 2));
            assert(top(drop(o.vals, 1), 0) == top(o.vals, 1));
        }
    }
    ExStep::Go
}

fn exec_member(lx: &Lexemes, m: &mut Machine) -> (r: ExStep)
    requires
        lexemes_ok(lx),
        0 <= old(m).pos <= lx.tokens@.len(),
    ensures
        step_is(step_member(lx, old(m)@), r, final(m)@),
{
    let n = lx.tokens.len();
    let q1 = skip_white(lx, m.pos);
    proof {
        lemma_skip_ws(lx.tokens@, m.pos as int);
    }
    if !kind_is(lx, q1, gTokens::Identifier) {
        return ExStep::Fail(make_error(lx, kinds1(gTokens::Identifier), q1));
    }
    let q2 = skip_white(lx, q1 + 1);
    proof {
        lemma_skip_ws(lx.tokens@, q1 + 1);
    }
    if !kind_is(lx, q2, gTokens::Colon) {
        return ExStep::Fail(make_error(lx, kinds1(gTokens::Colon), q2));
    }
    let q3 = skip_white(lx, q2 + 1);
    proof {
        lemma_skip_ws(lx.tokens@, q2 + 1);
    }
    if !kind_is(lx, q3, gTokens::Identifier) {
        return ExStep::Fail(make_error(lx, kinds1(gTokens::Identifier), q3));
    }
    let q4 = skip_white(lx, q3 + 1);
    proof {
        lemma_skip_ws(lx.tokens@, q3 + 1);
    }
    if !kind_is(lx, q4, gTokens::Semicolon) {
        return ExStep::Fail(make_error(lx, kinds1(gTokens::Semicolon), q4));
    }
    let name = text_of(lx, q1);
    let member_type = text_of(lx, q3);
    let st = stmt_user(statement_user_0(member_user(member_type, name)));
    push_val(m, Types::Statement(st));
    read_at(m, q4);
    ret_m(m)
}

fn exec_rule(lx: &Lexemes, m: &mut Machine) -> (r: ExStep)
    requires
        lexemes_ok(lx),
        0 <= old(m).pos <= lx.tokens@.len(),
    ensures
        step_is(step_rule(lx, old(m)@), r, final(m)@),
{
    let n = lx.tokens.len();
    let q = skip_white(lx, m.pos);
    proof {
        lemma_skip_ws(lx.tokens@, m.pos as int);
    }
    if !kind_is(lx, q, gTokens::Colon) {
        return ExStep::Fail(make_error(lx, kinds1(gTokens::Colon), q));
    }
    read_at(m, q);
    m.state = States::RStart;
    ExStep::Go
}


proof fn lemma_drop(v: Seq<Val>, a: int)
    requires
        0 <= a <= v.len(),
    ensures
        forall|b: int| 0 <= b <= v.len() - a ==> #[trigger] drop(drop(v, a), b) == drop(v, a + b),
        forall|i: int| 0 <= i < v.len() - a ==> #[trigger] top(drop(v, a), i) == top(v, a + i),
{
    assert forall|b: int| 0 <= b <= v.len() - a implies #[trigger] drop(drop(v, a), b) == drop(v, a + b) by {
        assert(drop(drop(v, a), b) =~= drop(v, a + b));
    }
}

fn exec_reduce_rules(m: &mut Machine) -> (r: ExStep)
    requires
        old(m).state is ReduceRule0 || old(m).state is ReduceRule1 || old(m).state is ReduceStatement,
    ensures
        forall|lx: &Lexemes| step_is(#[trigger] step_reduce(lx, old(m)@), r, final(m)@),
{
    let ghost v = m@.vals;
    proof {
        if v.len() >= 1 {
            lemma_drop(v, 1);
        }
        if v.len() >= 2 {
            lemma_drop(v, 2);
        }
    }
    match m.state {
        States::ReduceRule0 => {
            let rs = match pop_val(m) {
                Some(Types::VecReductend(rs)) => rs,
                _ => return ExStep::Panic,
            };
            let id = match pop_val(m) {
                Some(Types::Token(t)) => t,
                _ => return ExStep::Panic,
            };
            push_val(m, Types::Rule(rule_user_0(rs, id)));
        },
        States::ReduceRule1 => {
            let ex = match pop_val(m) {
                Some(Types::Token(t)) => t,
                _ => return ExStep::Panic,
            };
            let rs = match pop_val(m) {
                Some(Types::VecReductend(rs)) => rs,
                _ => return ExStep::Panic,
            };
            let id = match pop_val(m) {
                Some(Types::Token(t)) => t,
                _ => return ExStep::Panic,
            };
            proof {
                lemma_drop(v, 3);
            }
            push_val(m, Types::Rule(rule_user_1(ex, rs, id)));
        },
        _ => {
            m.c = States::ReduceC0;
            m.r = States::ReduceR0;
            let ru = match pop_val(m) {
                Some(Types::Rule(ru)) => ru,
                _ => return ExStep::Panic,
            };
            push_val(m, Types::Statement(statement_user_1(ru)));
        },
    }
    ret_m(m)
}

fn exec_reduce_lists(m: &mut Machine) -> (r: ExStep)
    requires
        old(m).state is ReduceC0 || old(m).state is ReduceR0 || old(m).state is ReduceC1 || old(m).state is ReduceRN
            || old(m).state is ReduceRC || old(m).state is ReduceR1,
    ensures
        forall|lx: &Lexemes| step_is(#[trigger] step_reduce(lx, old(m)@), r, final(m)@),
{
    let ghost v = m@.vals;
    proof {
        if v.len() >= 1 {
            lemma_drop(v, 1);
        }
        if v.len() >= 2 {
            lemma_drop(v, 2);
        }
    }
    match m.state {
        States::ReduceC0 => {
            let cp = match pop_val(m) {
                Some(Types::Component(cp)) => cp,
                _ => return ExStep::Panic,
            };
            let l = components_user_0(cp);
            proof {
                assert(components_view(l@) =~= seq![cp@]);
            }
            push_val(m, Types::VecComponent(l));
            m.c = States::ReduceC1;
        },
        States::ReduceR0 => {
            let rd = match pop_val(m) {
                Some(Types::Reductend(rd)) => rd,
                _ => return ExStep::Panic,
            };
            let l = reductents_user_0(rd);
            proof {
                assert(reductends_view(l@) =~= seq![rd@]);
            }
            push_val(m, Types::VecReductend(l));
            m.c = States::ReduceC0;
            m.r = States::ReduceR1;
        },
        States::ReduceC1 => {
            let cp = match pop_val(m) {
                Some(Types::Component(cp)) => cp,
                _ => return ExStep::Panic,
            };
            let l = match pop_val(m) {
                Some(Types::VecComponent(l)) => l,
                _ => return ExStep::Panic,
            };
            let ghost lv = l@;
            let l2 = components_user_1(cp, l);
            proof {
                assert(components_view(l2@) =~= components_view(lv).push(cp@));
            }
            push_val(m, Types::VecComponent(l2));
        },
        States::ReduceRN => {
            let l = match pop_val(m) {
                Some(Types::VecComponent(l)) => l,
                _ => return ExStep::Panic,
            };
            push_val(m, Types::Reductend(reductent_user_0(l)));
        },
        States::ReduceRC => {
            let code = match pop_val(m) {
                Some(Types::Token(t)) => t,
                _ => return ExStep::Panic,
            };
            let l = match pop_val(m) {
                Some(Types::VecComponent(l)) => l,
                _ => return ExStep::Panic,
            };
            push_val(m, Types::Reductend(reductent_user_1(code, l)));
        },
        _ => {
            m.c = States::ReduceC0;
            let rd = match pop_val(m) {
                Some(Types::Reductend(rd)) => rd,
                _ => return ExStep::Panic,
            };
            let l = match pop_val(m) {
                Some(Types::VecReductend(l)) => l,
                _ => return ExStep::Panic,
            };
            let ghost lv = l@;
            let l2 = reductents_user_1(rd, l);
            proof {
                assert(reductends_view(l2@) =~= reductends_view(lv).push(rd@));
            }
            push_val(m, Types::VecReductend(l2));
        },
    }
    ret_m(m)
}

fn exec_reduce_push(lx: &Lexemes, m: &mut Machine) -> (r: ExStep)
    requires
        old(m).state is PushR || old(m).state is PushT || old(m).state is PushX || old(m).state is PushS
            || old(m).state is CodeR || old(m).state is CodeC,
    ensures
        step_is(step_reduce(lx, old(m)@), r, final(m)@),
{
    let ghost v = m@.vals;
    proof {
        if v.len() >= 1 {
            lemma_drop(v, 1);
        }
        if v.len() >= 2 {
            lemma_drop(v, 2);
        }
    }
    let text = match m.cur {
        Some(q) => if q < lx.tokens.len() {
            text_of(lx, q)
        } else {
            String::new()
        },
        None => String::new(),
    };
    match m.state {
        States::PushR => push_val(m, Types::Component0(Component0::Rule(text))),
        States::PushT => push_val(m, Types::Component0(Component0::Terminal(text))),
        States::PushX => push_val(m, Types::Component0(Component0::Regex(text))),
        States::PushS => push_val(m, Types::Component0(Component0::Token)),
        States::CodeR => {
            let t = match pop_val(m) {
                Some(Types::Token(t)) => t,
                _ => return ExStep::Panic,
            };
            push_val(m, Types::Token(code_user_0(t)));
        },
        _ => {
            let b = match pop_val(m) {
                Some(Types::Token(t)) => t,
                _ => return ExStep::Panic,
            };
            let a = match pop_val(m) {
                Some(Types::Token(t)) => t,
                _ => return ExStep::Panic,
            };
            push_val(m, Types::Token(code_user_1(b, a)));
        },
    }
    ret_m(m)
}


/// Pushes the states that follow a component ended by a lexeme of kind `k`.
fn push_after_component(m: &mut Machine, k: gTokens)
    ensures
        final(m)@ == (Cfg { stack: old(m)@.stack + reductends_pushes(k, old(m)@.r), ..old(m)@ }),
{
    let ghost s0 = m@.stack;
    let r = m.r;
    match k {
        gTokens::Or => {
            push_state(m, States::RStart);
            push_state(m, r);
            push_state(m, States::ReduceRN);
        },
        gTokens::Identifier => {
            push_state(m, States::Reductends);
            push_state(m, States::PushR);
        },
        gTokens::Terminal => {
            push_state(m, States::Reductends);
            push_state(m, States::PushT);
        },
        gTokens::Regex => {
            push_state(m, States::Reductends);
            push_state(m, States::PushX);
        },
        gTokens::Star => {
            push_state(m, States::Reductends);
            push_state(m, States::PushS);
        },
        gTokens::CurleyOpen => {
            push_state(m, States::CodeE);
            push_state(m, States::CodeR);
            push_state(m, States::Code);
        },
        gTokens::Semicolon => {
            push_state(m, States::ReduceStatement);
            push_state(m, States::ReduceRule0);
            push_state(m, r);
            push_state(m, States::ReduceRN);
        },
        _ => {
            push_state(m, States::ReduceStatement);
            push_state(m, States::ReduceRule1);
            push_state(m, States::Export);
            push_state(m, r);
            push_state(m, States::ReduceRN);
        },
    }
    proof {
        assert(m@.stack =~= s0 + reductends_pushes(k, r));
    }
}

fn exec_reductends(lx: &Lexemes, m: &mut Machine) -> (r: ExStep)
    requires
        lexemes_ok(lx),
        0 <= old(m).pos <= lx.tokens@.len(),
    ensures
        step_is(step_reductends(lx, old(m)@), r, final(m)@),
{
    let n = lx.tokens.len();
    let q = skip_white(lx, m.pos);
    proof {
        lemma_skip_ws(lx.tokens@, m.pos as int);
    }
    if kind_is(lx, q, gTokens::Assign) {
        read_at(m, q);
        m.state = States::Assign;
        return ExStep::Go;
    }
    let k = if q < n {
        lx.tokens[q].kind
    } else {
        None
    };
    let ends = match k {
        Some(gTokens::Or) => true,
        Some(gTokens::Identifier) => true,
        Some(gTokens::Terminal) => true,
        Some(gTokens::Regex) => true,
        Some(gTokens::Star) => true,
        Some(gTokens::CurleyOpen) => true,
        Some(gTokens::Semicolon) => true,
        Some(gTokens::Arrow) => true,
        _ => false,
    };
    if !ends {
        return ExStep::Fail(make_error(lx, reductends_kinds(), q));
    }
    let kind = match k {
        Some(kind) => kind,
        None => gTokens::Arrow,
    };
    let h = match pop_val(m) {
        Some(Types::Component0(h)) => h,
        _ => return ExStep::Panic,
    };
    push_val(m, Types::Component(component_user_0(h)));
    push_after_component(m, kind);
    read_at(m, q);
    m.state = m.c;
    ExStep::Go
}

fn exec_type(lx: &Lexemes, m: &mut Machine) -> (r: ExStep)
    requires
        lexemes_ok(lx),
        0 <= old(m).pos <= lx.tokens@.len(),
    ensures
        step_is(step_type(lx, old(m)@), r, final(m)@),
{
    let n = lx.tokens.len();
    let ghost v = m@.vals;
    proof {
        if v.len() >= 1 {
            lemma_drop(v, 1);
        }
        if v.len() >= 2 {
            lemma_drop(v, 2);
        }
    }
    let b = match pop_val(m) {
        Some(Types::Token(t)) => t,
        _ => return ExStep::Panic,
    };
    let a = match pop_val(m) {
        Some(Types::Token(t)) => t,
        _ => return ExStep::Panic,
    };
    let q = skip_white(lx, m.pos);
    proof {
        lemma_skip_ws(lx.tokens@, m.pos as int);
    }
    if !kind_is(lx, q, gTokens::Semicolon) {
        return ExStep::Fail(make_error(lx, kinds1(gTokens::Semicolon), q));
    }
    push_val(m, Types::Token(type_user_1(b, a)));
    read_at(m, q);
    ret_m(m)
}

fn exec_export(lx: &Lexemes, m: &mut Machine) -> (r: ExStep)
    requires
        lexemes_ok(lx),
        0 <= old(m).pos <= lx.tokens@.len(),
    ensures
        step_is(step_export(lx, old(m)@), r, final(m)@),
{
    let n = lx.tokens.len();
    let q1 = skip_white(lx, m.pos);
    proof {
        lemma_skip_ws(lx.tokens@, m.pos as int);
    }
    if !kind_is(lx, q1, gTokens::Identifier) {
        return ExStep::Fail(make_error(lx, kinds1(gTokens::Identifier), q1));
    }
    let q2 = skip_white(lx, q1 + 1);
    proof {
        lemma_skip_ws(lx.tokens@, q1 + 1);
    }
    let t = text_of(lx, q1);
    if kind_is(lx, q2, gTokens::Semicolon) {
        push_val(m, Types::Token(type_user_0(t)));
        read_at(m, q2);
        ret_m(m)
    } else if kind_is(lx, q2, gTokens::DiamondOpen) {
        push_val(m, Types::Token(t));
        push_state(m, States::Type);
        read_at(m, q2);
        m.state = States::Generics;
        ExStep::Go
    } else {
        ExStep::Fail(make_error(lx, kinds2(gTokens::Semicolon, gTokens::DiamondOpen), q2))
    }
}

fn exec_nested(lx: &Lexemes, m: &mut Machine) -> (r: ExStep)
    requires
        lexemes_ok(lx),
        0 <= old(m).pos <= lx.tokens@.len(),
        old(m).state is Generics || old(m).state is Generics1 || old(m).state is Code || old(m).state is Code1,
    ensures
        step_is(step_nested(lx, old(m)@), r, final(m)@),
{
    let n = lx.tokens.len();
    let q = m.pos;
    if q >= n {
        return ExStep::Fail(make_error(lx, Vec::new(), n));
    }
    let ghost v = m@.vals;
    proof {
        if v.len() >= 1 {
            lemma_drop(v, 1);
        }
    }
    let generics = m.state == States::Generics || m.state == States::Generics1;
    let close = if generics {
        gTokens::DiamondClose
    } else {
        gTokens::CurleyClose
    };
    let open = if generics {
        gTokens::DiamondOpen
    } else {
        gTokens::CurleyOpen
    };
    read_at(m, q);
    if kind_is(lx, q, close) {
        if m.state == States::Code1 {
            ret_m(m)
        } else {
            let c = match pop_val(m) {
                Some(Types::Token(t)) => t,
                _ => return ExStep::Panic,
            };
            let t = if generics {
                generics_user_0(c)
            } else {
                code_user_0(c)
            };
            push_val(m, Types::Token(t));
            ret_m(m)
        }
    } else if kind_is(lx, q, open) {
        match m.state {
            States::Generics => {
                push_state(m, States::Generics1);
            },
            States::Generics1 => {
                push_state(m, States::Generics1);
                m.state = States::Generics;
            },
            States::Code => {
                push_state(m, States::Code1);
                push_state(m, States::CodeR);
                proof {
                    assert(m@.stack =~= old(m)@.stack + seq![States::Code1, States::CodeR]);
                }
            },
            _ => {
                push_state(m, States::Code1);
                push_state(m, States::CodeC);
                push_state(m, States::CodeR);
                m.state = States::Code;
                proof {
                    assert(m@.stack =~= old(m)@.stack + seq![States::Code1, States::CodeC, States::CodeR]);
                }
            },
        }
        ExStep::Go
    } else {
        let t = text_of(lx, q);
        match m.state {
            States::Generics => {
                push_val(m, Types::Token(t));
                m.state = States::Generics1;
            },
            States::Generics1 => {
                let a = match pop_val(m) {
                    Some(Types::Token(a)) => a,
                    _ => return ExStep::Panic,
                };
                push_val(m, Types::Token(generics_user_1(t, a)));
            },
            States::Code => {
                push_val(m, Types::Token(t));
                m.state = States::Code1;
            },
            _ => {
                push_val(m, Types::Token(t));
                push_state(m, States::Code1);
                m.state = States::CodeC;
            },
        }
        ExStep::Go
    }
}

fn exec_rbegin(lx: &Lexemes, m: &mut Machine, begin: bool) -> (r: ExStep)
    requires
        lexemes_ok(lx),
        0 <= old(m).pos <= lx.tokens@.len(),
    ensures
        step_is(step_rbegin(lx, old(m)@, begin), r, final(m)@),
{
    let n = lx.tokens.len();
    let q = skip_white(lx, m.pos);
    proof {
        lemma_skip_ws(lx.tokens@, m.pos as int);
    }
    let h = if kind_is(lx, q, gTokens::Identifier) {
        Some(Component0::Rule(text_of(lx, q)))
    } else if kind_is(lx, q, gTokens::Terminal) {
        Some(Component0::Terminal(text_of(lx, q)))
    } else if kind_is(lx, q, gTokens::Regex) {
        Some(Component0::Regex(text_of(lx, q)))
    } else if kind_is(lx, q, gTokens::Star) {
        Some(Component0::Token)
    } else {
        None
    };
    match h {
        Some(h) => {
            push_val(m, Types::Component0(h));
            read_at(m, q);
            m.state = States::Reductends;
            ExStep::Go
        },
        None => {
            if begin && kind_is(lx, q, gTokens::CurleyOpen) {
                push_state(m, States::CodeE);
                push_state(m, States::CodeR);
                read_at(m, q);
                m.state = States::Code;
                proof {
                    assert(m@.stack =~= old(m)@.stack + seq![States::CodeE, States::CodeR]);
                }
                ExStep::Go
            } else if begin {
                ExStep::Fail(
                    make_error(
                        lx,
                        kinds5(gTokens::Identifier, gTokens::Terminal, gTokens::Regex, gTokens::Star, gTokens::CurleyOpen),
                        q,
                    ),
                )
            } else {
                ExStep::Fail(make_error(lx, kinds4(gTokens::Identifier, gTokens::Terminal, gTokens::Regex, gTokens::Star), q))
            }
        },
    }
}

fn exec_assign(lx: &Lexemes, m: &mut Machine) -> (r: ExStep)
    requires
        lexemes_ok(lx),
        0 <= old(m).pos <= lx.tokens@.len(),
    ensures
        step_is(step_assign(lx, old(m)@), r, final(m)@),
{
    let n = lx.tokens.len();
    let q = skip_white(lx, m.pos);
    proof {
        lemma_skip_ws(lx.tokens@, m.pos as int);
    }
    if !kind_is(lx, q, gTokens::Identifier) {
        return ExStep::Fail(make_error(lx, kinds1(gTokens::Identifier), q));
    }
    let h = match pop_val(m) {
        Some(Types::Component0(h)) => h,
        _ => return ExStep::Panic,
    };
    let t = text_of(lx, q);
    push_val(m, Types::Component(component_user_1(t, h)));
    push_state(m, States::RBegin);
    read_at(m, q);
    m.state = m.c;
    ExStep::Go
}

fn exec_code_end(lx: &Lexemes, m: &mut Machine) -> (r: ExStep)
    requires
        lexemes_ok(lx),
        0 <= old(m).pos <= lx.tokens@.len(),
    ensures
        step_is(step_code_end(lx, old(m)@), r, final(m)@),
{
    let n = lx.tokens.len();
    let q = skip_white(lx, m.pos);
    proof {
        lemma_skip_ws(lx.tokens@, m.pos as int);
    }
    let r = m.r;
    let ghost s0 = m@.stack;
    if kind_is(lx, q, gTokens::Or) {
        push_state(m, States::RStart);
        push_state(m, r);
        proof {
            assert(m@.stack =~= s0 + seq![States::RStart, r]);
        }
    } else if kind_is(lx, q, gTokens::Arrow) {
        push_state(m, States::ReduceStatement);
        push_state(m, States::ReduceRule1);
        push_state(m, States::Export);
        push_state(m, r);
        proof {
            assert(m@.stack =~= s0 + seq![States::ReduceStatement, States::ReduceRule1, States::Export, r]);
        }
    } else if kind_is(lx, q, gTokens::Semicolon) {
        push_state(m, States::ReduceStatement);
        push_state(m, States::ReduceRule0);
        push_state(m, r);
        proof {
            assert(m@.stack =~= s0 + seq![States::ReduceStatement, States::ReduceRule0, r]);
        }
    } else {
        return ExStep::Fail(make_error(lx, kinds3(gTokens::Or, gTokens::Arrow, gTokens::Semicolon), q));
    }
    read_at(m, q);
    m.state = States::ReduceRC;
    ExStep::Go
}


/// One step of the machine.
fn exec_step(lx: &Lexemes, m: &mut Machine) -> (r: ExStep)
    requires
        lexemes_ok(lx),
        0 <= old(m).pos <= lx.tokens@.len(),
    ensures
        step_is(step(lx, old(m)@), r, final(m)@),
{
    match m.state {
        States::Start => exec_start(lx, m),
        States::RAst0 => exec_rast(m, true),
        States::RAst1 => exec_rast(m, false),
        States::Member => exec_member(lx, m),
        States::Rule => exec_rule(lx, m),
        States::Reductends => exec_reductends(lx, m),
        States::Type => exec_type(lx, m),
        States::Export => exec_export(lx, m),
        States::Generics => exec_nested(lx, m),
        States::Generics1 => exec_nested(lx, m),
        States::Code => exec_nested(lx, m),
        States::Code1 => exec_nested(lx, m),
        States::RStart => exec_rbegin(lx, m, false),
        States::RBegin => exec_rbegin(lx, m, true),
        States::Assign => exec_assign(lx, m),
        States::CodeE => exec_code_end(lx, m),
        States::ReduceRule0 => exec_reduce_rules(m),
        States::ReduceRule1 => exec_reduce_rules(m),
        States::ReduceStatement => exec_reduce_rules(m),
        States::ReduceC0 => exec_reduce_lists(m),
        States::ReduceR0 => exec_reduce_lists(m),
        States::ReduceC1 => exec_reduce_lists(m),
        States::ReduceRN => exec_reduce_lists(m),
        States::ReduceRC => exec_reduce_lists(m),
        States::ReduceR1 => exec_reduce_lists(m),
        States::PushR => exec_reduce_push(lx, m),
        States::PushT => exec_reduce_push(lx, m),
        States::PushX => exec_reduce_push(lx, m),
        States::PushS => exec_reduce_push(lx, m),
        States::CodeR => exec_reduce_push(lx, m),
        States::CodeC => exec_reduce_push(lx, m),
    }
}

/// The final step `r` of a run is the outcome `o`.
pub open spec fn outcome_is(o: Outcome, r: ExStep) -> bool {
    match r {
        ExStep::Go => false,
        ExStep::Done(a) => o == Outcome::Parsed(a@),
        ExStep::Fail(e) => o == Outcome::Failed(e@),
        ExStep::Panic => o is Panic,
    }
}

/// Runs the machine on the lexemes from its first configuration to the end.
pub fn run_machine(lx: &Lexemes) -> (r: ExStep)
    requires
        lexemes_ok(lx),
    ensures
        outcome_is(parse_outcome(lx), r),
{
    let mut stack: Vec<States> = Vec::new();
    stack.push(States::RAst0);
    let mut m = Machine {
        state: States::Start,
        stack,
        vals: Vec::new(),
        pos: 0,
        cur: None,
        c: States::ReduceC0,
        r: States::ReduceR0,
    };
    proof {
        assert(vals_view(m.vals@) =~= Seq::<Val>::empty());
        assert(m.stack@ =~= seq![States::RAst0]);
        assert(m@ == init_cfg());
    }
    loop
        invariant
            lexemes_ok(lx),
            0 <= m.pos <= lx.tokens@.len(),
            run(lx, m@) == parse_outcome(lx),
        decreases lx.tokens@.len() - m.pos, measure(m@),
    {
        let ghost c0 = m@;
        proof {
            lemma_step_progress(lx, c0);
        }
        let s = exec_step(lx, &mut m);
        match s {
            ExStep::Go => {
                assert(run(lx, c0) == run(lx, m@));
            },
            _ => {
                return s;
            },
        }
    }
}

} // verus!
