use vstd::prelude::*;

use crate::machine::{ExStep, Lexemes, Outcome, lexemes_ok, parse_outcome, run_machine};

verus! {

/// The kinds of lexemes of the grammar description language.
#[allow(non_camel_case_types)]
#[derive(Debug, Clone, Copy, PartialEq, Eq, Structural)]
pub enum gTokens {
    Identifier,
    Colon,
    Or,
    Ternary,
    Arrow,
    DiamondOpen,
    DiamondClose,
    Var,
    Assign,
    Semicolon,
    Popen,
    Pclose,
    Terminal,
    Regex,
    CurleyOpen,
    CurleyClose,
    WhiteSpace,
    Star,
}

#[derive(Debug)]
pub enum Statement {
    Rule(Rule),
    Member(Member),
}

#[derive(Debug)]
pub struct Member {
    pub name: String,
    pub member_type: String,
}

#[derive(Debug)]
pub struct Rule {
    pub identifier: String,
    pub reductends: Reductends,
    pub export: Option<String>,
}

#[derive(Debug)]
pub struct Reductends {
    pub reductends: Vec<Reductend>,
}

#[derive(Debug)]
pub struct Reductend {
    pub components: Components,
    pub code: Option<String>,
}

#[derive(Debug)]
pub struct Components {
    pub components: Vec<Component>,
}

#[derive(Debug)]
pub enum Component0 {
    Rule(String),
    Terminal(String),
    Regex(String),
    Token,
}

#[derive(Debug)]
pub struct Component {
    pub handle: Component0,
    pub var: Option<String>,
}

#[derive(Debug)]
pub struct Mods {
    assign: Option<String>,
    code: Option<String>,
    option: Option<(String, String)>,
}

#[derive(Debug)]
pub struct GAst {
    pub members: Vec<Member>,
    pub rules: Vec<Rule>,
}

/// A syntax error: the lexemes that were expected, the lexeme that was found
/// (`None` at the end of the input, `Some(Err(()))` where the lexer failed),
/// the text of the line up to the end of the offending lexeme, its line number
/// (counted from 1), its byte offset within the line and its length in bytes.
#[derive(Debug)]
pub struct GError {
    pub expected: Vec<gTokens>,
    pub found: Option<Result<gTokens, ()>>,
    pub text: String,
    pub line: usize,
    pub offset: usize,
    pub len: usize,
}

// ---------------------------------------------------------------------------
// Mathematical models

pub enum Component0V {
    Rule(Seq<char>),
    Terminal(Seq<char>),
    Regex(Seq<char>),
    Token,
}

pub struct ComponentV {
    pub handle: Component0V,
    pub var: Option<Seq<char>>,
}

pub struct ReductendV {
    pub components: Seq<ComponentV>,
    pub code: Option<Seq<char>>,
}

pub struct RuleV {
    pub identifier: Seq<char>,
    pub reductends: Seq<ReductendV>,
    pub export: Option<Seq<char>>,
}

pub struct MemberV {
    pub name: Seq<char>,
    pub member_type: Seq<char>,
}

pub enum StatementV {
    Rule(RuleV),
    Member(MemberV),
}

pub struct GAstV {
    pub members: Seq<MemberV>,
    pub rules: Seq<RuleV>,
}

pub open spec fn opt_view(o: Option<String>) -> Option<Seq<char>> {
    match o {
        Some(s) => Some(s@),
        None => None,
    }
}

impl View for Component0 {
    type V = Component0V;

    open spec fn view(&self) -> Component0V {
        match self {
            Component0::Rule(s) => Component0V::Rule(s@),
            Component0::Terminal(s) => Component0V::Terminal(s@),
            Component0::Regex(s) => Component0V::Regex(s@),
            Component0::Token => Component0V::Token,
        }
    }
}

impl View for Component {
    type V = ComponentV;

    open spec fn view(&self) -> ComponentV {
        ComponentV { handle: self.handle@, var: opt_view(self.var) }
    }
}

pub open spec fn components_view(s: Seq<Component>) -> Seq<ComponentV> {
    s.map_values(|c: Component| c@)
}

impl View for Components {
    type V = Seq<ComponentV>;

    open spec fn view(&self) -> Seq<ComponentV> {
        components_view(self.components@)
    }
}

impl View for Reductend {
    type V = ReductendV;

    open spec fn view(&self) -> ReductendV {
        ReductendV { components: self.components@, code: opt_view(self.code) }
    }
}

pub open spec fn reductends_view(s: Seq<Reductend>) -> Seq<ReductendV> {
    s.map_values(|r: Reductend| r@)
}

impl View for Reductends {
    type V = Seq<ReductendV>;

    open spec fn view(&self) -> Seq<ReductendV> {
        reductends_view(self.reductends@)
    }
}

impl View for Rule {
    type V = RuleV;

    open spec fn view(&self) -> RuleV {
        RuleV {
            identifier: self.identifier@,
            reductends: self.reductends@,
            export: opt_view(self.export),
        }
    }
}

pub open spec fn rules_view(s: Seq<Rule>) -> Seq<RuleV> {
    s.map_values(|r: Rule| r@)
}

impl View for Member {
    type V = MemberV;

    open spec fn view(&self) -> MemberV {
        MemberV { name: self.name@, member_type: self.member_type@ }
    }
}

pub open spec fn members_view(s: Seq<Member>) -> Seq<MemberV> {
    s.map_values(|m: Member| m@)
}

impl View for Statement {
    type V = StatementV;

    open spec fn view(&self) -> StatementV {
        match self {
            Statement::Rule(r) => StatementV::Rule(r@),
            Statement::Member(m) => StatementV::Member(m@),
        }
    }
}

impl View for GAst {
    type V = GAstV;

    open spec fn view(&self) -> GAstV {
        GAstV { members: members_view(self.members@), rules: rules_view(self.rules@) }
    }
}

// ---------------------------------------------------------------------------
// Semantic actions of the grammar description language

pub fn member_user(member_type: String, name: String) -> (r: Member)
    ensures
        r == (Member { name, member_type }),
{
    Member { name, member_type }
}

pub fn stmt_user(handle: Statement) -> (r: Statement)
    ensures
        r == handle,
{
    handle
}

pub fn statement_user_0(m: Member) -> (r: Statement)
    ensures
        r == Statement::Member(m),
{
    Statement::Member(m)
}

pub fn statement_user_1(r: Rule) -> (s: Statement)
    ensures
        s == Statement::Rule(r),
{
    Statement::Rule(r)
}

pub fn rule_user_0(reductends: Vec<Reductend>, identifier: String) -> (r: Rule)
    ensures
        r == (Rule { identifier, reductends: Reductends { reductends }, export: None }),
{
    Rule { identifier, reductends: Reductends { reductends }, export: None }
}

pub fn rule_user_1(export: String, reductends: Vec<Reductend>, identifier: String) -> (r: Rule)
    ensures
        r == (Rule { identifier, reductends: Reductends { reductends }, export: Some(export) }),
{
    Rule { identifier, reductends: Reductends { reductends }, export: Some(export) }
}

pub fn component_user_0(handle: Component0) -> (r: Component)
    ensures
        r == (Component { handle, var: None }),
{
    Component { handle, var: None }
}

pub fn component_user_1(var: String, handle: Component0) -> (r: Component)
    ensures
        r == (Component { handle, var: Some(var) }),
{
    Component { handle, var: Some(var) }
}

pub fn components_user_0(component: Component) -> (r: Vec<Component>)
    ensures
        r@ == seq![component],
{
    vec![component]
}

pub fn components_user_1(component: Component, stack: Vec<Component>) -> (r: Vec<Component>)
    ensures
        r@ == stack@.push(component),
{
    let mut stack = stack;
    stack.push(component);
    stack
}

pub fn reductent_user_0(components: Vec<Component>) -> (r: Reductend)
    ensures
        r == (Reductend { components: Components { components }, code: None }),
{
    Reductend { components: Components { components }, code: None }
}

pub fn reductent_user_1(code: String, components: Vec<Component>) -> (r: Reductend)
    ensures
        r == (Reductend { components: Components { components }, code: Some(code) }),
{
    Reductend { components: Components { components }, code: Some(code) }
}

pub fn reductents_user_0(reductend: Reductend) -> (r: Vec<Reductend>)
    ensures
        r@ == seq![reductend],
{
    vec![reductend]
}

pub fn reductents_user_1(reductend: Reductend, stack: Vec<Reductend>) -> (r: Vec<Reductend>)
    ensures
        r@ == stack@.push(reductend),
{
    let mut stack = stack;
    stack.push(reductend);
    stack
}

/// `c` enclosed in angle brackets.
pub fn generics_user_0(c: String) -> (r: String)
    ensures
        r@ == seq!['<'] + c@ + seq!['>'],
{
    let mut string = String::from_str("<");
    string.append(c.as_str());
    string.append(">");
    proof {
        reveal_strlit("<");
        reveal_strlit(">");
    }
    string
}

/// `a` followed by `b`.
pub fn generics_user_1(b: String, a: String) -> (r: String)
    ensures
        r@ == a@ + b@,
{
    let mut string = a;
    string.append(b.as_str());
    string
}

/// `c` enclosed in curly braces.
pub fn code_user_0(c: String) -> (r: String)
    ensures
        r@ == seq!['{'] + c@ + seq!['}'],
{
    let mut string = String::from_str("{");
    string.append(c.as_str());
    string.append("}");
    proof {
        reveal_strlit("{");
        reveal_strlit("}");
    }
    string
}

/// `a` followed by `b`.
pub fn code_user_1(b: String, a: String) -> (r: String)
    ensures
        r@ == a@ + b@,
{
    let mut string = a;
    string.append(b.as_str());
    string
}

pub fn type_user_0(a: String) -> (r: String)
    ensures
        r == a,
{
    a
}

/// `a` followed by `b`.
pub fn type_user_1(b: String, a: String) -> (r: String)
    ensures
        r@ == a@ + b@,
{
    let mut string = a;
    string.append(b.as_str());
    string
}

pub fn start_user_0(handle: Statement) -> (r: GAst)
    ensures
        match handle {
            Statement::Member(t) => r.members@ == seq![t] && r.rules@ == Seq::<Rule>::empty(),
            Statement::Rule(t) => r.members@ == Seq::<Member>::empty() && r.rules@ == seq![t],
        },
{
    match handle {
        Statement::Member(t) => GAst { members: vec![t], rules: Vec::new() },
        Statement::Rule(t) => GAst { members: Vec::new(), rules: vec![t] },
    }
}

pub fn start_user_1(handle: Statement, stack: GAst) -> (r: GAst)
    ensures
        match handle {
            Statement::Member(t) => r.members@ == stack.members@.push(t) && r.rules@
                == stack.rules@,
            Statement::Rule(t) => r.members@ == stack.members@ && r.rules@ == stack.rules@.push(t),
        },
{
    let mut stack = stack;
    match handle {
        Statement::Member(t) => stack.members.push(t),
        Statement::Rule(t) => stack.rules.push(t),
    };
    stack
}


/// Parses the lexemes of a grammar text into its syntax tree. A syntax error
/// comes back as `Err`, with what was expected and where.
pub fn parse(lx: &Lexemes) -> (r: Result<GAst, GError>)
    requires
        lexemes_ok(lx),
        !(parse_outcome(lx) is Panic),
    ensures
        match r {
            Ok(a) => parse_outcome(lx) == Outcome::Parsed(a@),
            Err(e) => parse_outcome(lx) == Outcome::Failed(e@),
        },
{
    match run_machine(lx) {
        ExStep::Done(a) => Ok(a),
        ExStep::Fail(e) => Err(e),
        _ => vstd::pervasive::unreached(),
    }
}

/// Parses the lexemes as `parse` does, and gives `None` for an input on which
/// the machine is stuck: one with no statement at all.
pub fn try_parse(lx: &Lexemes) -> (r: Option<Result<GAst, GError>>)
    requires
        lexemes_ok(lx),
    ensures
        match r {
            None => parse_outcome(lx) is Panic,
            Some(Ok(a)) => parse_outcome(lx) == Outcome::Parsed(a@),
            Some(Err(e)) => parse_outcome(lx) == Outcome::Failed(e@),
        },
{
    match run_machine(lx) {
        ExStep::Done(a) => Some(Ok(a)),
        ExStep::Fail(e) => Some(Err(e)),
        _ => None,
    }
}
} // verus!
