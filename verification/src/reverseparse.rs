use vstd::prelude::*;

use crate::automaton::{
    AStateV, Action, ArgV, Automaton, ReductionV, TaskV, astates_view, reductions_view,
};
use crate::closure::tokens_view;
use crate::lr::{Token, TokenV};
use crate::parser::opt_view;
use crate::text::{
    dec, idec, intern, intern_str, lemma_dec_nonempty, lemma_pos_in, pos_in, push_dec, push_drop1, push_drop2,
    push_replaced, push_tail, replace_char, starts_with_char, strs_view,
};

verus! {

// ---------------------------------------------------------------------------
// Fixed parts of the generated sources

pub const RUST_HEAD: &'static str = "\n#[derive(Debug, Clone)]\nenum Term{\n    Function(String, Vec<Term>),\n    Constant(String)\n}\n#[derive(Debug, Clone)]\nenum Formula{\n    IF(Box<Formula>, Box<Formula>),\n    IFF(Box<Formula>, Box<Formula>),\n    AND(Box<Formula>, Box<Formula>),\n    OR(Box<Formula>, Box<Formula>),\n    Not(Box<Formula>),\n    Rel(String, Vec<Term>),\n    Eq(Term, Term),\n    Forall(Box<Formula>, String),\n    Exists(Box<Formula>, String),\n}\nuse logos::Logos;\n#[derive(Logos, Debug, PartialEq, PartialOrd)]\n#[logos(skip \" \")]pub enum Token {\n";

pub const RUST_MID: &'static str = "}\n\nstruct Parser<'a> {\n\tparse_stack: Vec<Types<'a>>,\n\tstate_stack: Vec<usize>,\n\tlexer: logos::Lexer<'a, Token>\n}\n\nmacro_rules! pop{\n\t($self:ident, $t:ident) => {\n\t\tmatch $self.parse_stack.pop().unwrap() {\n\t\t\tTypes::$t(t) =>t,\n\t\t\to@_ => {println!(\"Expected: {:?} got {:?}\", stringify!($t), o);\n            unreachable!()}\n\t\t}\n\t}\n}macro_rules! push {\n\t($self:ident, $t:ident, $e:expr) => {\n\t\t$self.parse_stack.push(Types::$t($e));\n\t}\n}\nimpl<'a> Parser<'a> {\n";

pub const RUST_PARSE_0: &'static str = "\n    fn parse(lex: logos::Lexer<'a, Token>) -> ";

pub const RUST_PARSE_1: &'static str = " {\n        let mut parser = Self{\n            parse_stack: vec![],\n            state_stack: vec![0],\n            lexer: lex\n        };\n\n        let mut token = match parser.lexer.next() {\n            Some(Ok(t)) => t as usize,\n            Some(Err(e)) => panic!(\"{:?}\", e),\n            None => 0\n        };\n\n        while parser.state_stack.len()>0 {\n            let state = *parser.state_stack.last().unwrap();\n            println!(\"stack: {:?}\", parser.parse_stack);\n            println!(\"stack: {:?}\", parser.state_stack);\n            println!(\"got: {}:{}\", state, token.clone() as usize);\n            let task = Self::ACTION[state][token];\n            println!(\"task: {}\", task);\n            match task {\n                0 => break,\n";

pub const RUST_PARSE_2: &'static str = "\n                new_state @ _ => {\n                    parser.state_stack.push((new_state-1) as usize);\n                    push!(parser, T1, parser.lexer.slice());\n                    token = match parser.lexer.next() {\n                        Some(Ok(t)) => t as usize,\n            Some(Err(e)) =>{\n                let mut line=0;\n                let mut offset=0;\n                let span = parser.lexer.span();\n                for c in parser.lexer.source()[0..span.end].chars(){\n                    if(c=='\\n'){\n                        offset=0;\n                        line+=1;\n                    }\n                }\n\n                panic!(\"Unexpected Token {:?} ({:?}) at {}:{}\", e, parser.lexer.slice(), line, offset);\n            },\n                        None => 0\n                    };\n                    continue;\n                }\n            }\n            while parser.state_stack.len()>0 {\n                let prev = *parser.state_stack.last().unwrap();\n                let next = Self::GOTO[prev][-(task+1) as usize];\n                if next!=0 {\n                    parser.state_stack.push(next);\n                    break\n                }\n                parser.state_stack.pop();\n            }\n        }\n        if parser.state_stack.len() != 0 {\n            panic!(\"Parsing failed! {:?} {:?}\", parser.parse_stack, parser.state_stack);\n        } else {\n            match parser.parse_stack.into_iter().nth(0).unwrap() {\n                Types::T";

pub const RUST_PARSE_3: &'static str = "(s) => s,\n                t@ _ => panic!(\"Parsing failed! {:?}\", t)\n\n            }\n        }\n    }\n";

pub const RUST_TYPES_HEAD: &'static str = "}\n\n#[derive(Debug)]enum Types<'a> {";

pub const RUST_MAIN: &'static str = "\nuse std::fs::read_to_string;\nfn main() {\n    let source = match read_to_string(\"gramma.g\") {\n        Ok(s) => \"\\\\ex x=x\",\n        Err(e) => {\n            panic!(\"cannot read file!\")\n        }\n    };\n    // println!(\"Input: {:?}\", &string);\n    let lex = Token::lexer(&source);\n    println!(\"Result: {:?}\", Parser::parse(lex));\n}";

pub const CPP_HEAD: &'static str = "#include \"FO.hpp\"\n#include <string>\n#include <cstring>\n#include <vector>\n#include <iostream>\n#include <iterator>\n#include <variant>\nusing std::string_view;\nstruct Token {\n    enum Kind {\n";

pub const CPP_LEX_HEAD: &'static str = "\nauto read_token(std::vector<Token> &v, std::string_view str) -> int\n{\n    if(str[0]==' ') return 1;\n";

pub const CPP_LEX_TAIL: &'static str = "\n    const auto *iter = str.begin();\n    while((isalnum(*iter) != 0) || *iter=='_') iter++;\n    v.emplace_back(Token::Tok?, std::string_view(str.begin(),iter));\n    return iter-str.begin();\n}\nauto lex(std::string_view inp) -> std::vector<Token>\n{\n    std::vector<Token> v;\n\n    while(inp.length()){\n        int res = read_token(v, inp);\n        if(res<1){\n            std::cout << \"Error while Lexing: \" << inp << \"\\n\";\n            return {};\n        }\n        inp = inp.substr(res);\n    }\n    v.emplace_back(Token::Tok0);\n    return v;\n}\n";

pub const CPP_CLASS: &'static str = "\ntemplate<class S>\nclass Parser\n{\n";

pub const CPP_PARSE_0: &'static str = "\npublic:\n    template<std::ranges::range R>\n    auto parse(R tokens) -> ";

pub const CPP_PARSE_1: &'static str = "\n    {\n        auto start = tokens.begin();\n        auto end = tokens.end();\n        if(start==end) return {};\n\n        state_stack = {0};\n        data_stack.clear();\n\n        auto token = *start++;\n\n        while(!state_stack.empty()) {\n            long state = state_stack.back();\n            long task = actions[state][token.kind];\n            switch(task){\n            case 0: goto stop;\n";

pub const CPP_PARSE_2: &'static str = "\n                default: {\n                    state_stack.push_back(task-1);\n                    data_stack.emplace_back(token.data);\n                    if(start==end) token = {Token::Tok0};\n                    token = *start++;\n                    continue;\n                }\n            }\n            while(!state_stack.empty()){\n                long prev = state_stack.back();\n                long next = gotos[prev][-(task+1)];\n                if(next!=0){\n                    state_stack.push_back(next);\n                    break;\n                }\n                state_stack.pop_back();\n            }\n        }\nstop:\n        if(!state_stack.empty()){\n            std::cout << \"Failed to Parse\\n\";\n        } else {\n            return std::move(std::get<";

pub const CPP_PARSE_3: &'static str = ">(data_stack.back()));\n        }\n        return {};\n    }\n";


// ---------------------------------------------------------------------------
// The tables

/// The number that the generated parser reads for an action: 0 halts, a
/// positive number shifts to the state one below it, a negative number
/// reduces the reduction one below its magnitude.
pub open spec fn action_code(a: Action) -> int {
    match a {
        Action::Halt => 0,
        Action::Reduce(i) => -(i as int) - 1,
        Action::Shift(i) => i as int + 1,
    }
}

/// The action code of the terminal `k` in a lookahead table: that of its
/// last entry, 0 where it has none.
pub open spec fn la_code(la: Seq<(usize, Action)>, k: int) -> int
    decreases la.len(),
{
    if la.len() == 0 {
        0
    } else if la.last().0 == k {
        action_code(la.last().1)
    } else {
        la_code(la.drop_last(), k)
    }
}

/// The state after the reduction `r` in a return table: that of its last
/// entry, 0 where it has none.
pub open spec fn goto_code(g: Seq<(usize, usize)>, r: int) -> int
    decreases g.len(),
{
    if g.len() == 0 {
        0
    } else if g.last().0 == r {
        g.last().1 as int
    } else {
        goto_code(g.drop_last(), r)
    }
}

/// The action that a written parser reads from the code `c` of its action
/// table: a shift to state `c - 1` for a positive code, a reduction by
/// reductend `-c - 1` for a negative one, and the end for zero.
pub open spec fn decode_action(c: int) -> Action {
    if c > 0 {
        Action::Shift((c - 1) as usize)
    } else if c < 0 {
        Action::Reduce((-c - 1) as usize)
    } else {
        Action::Halt
    }
}

/// Reading back the code of an action gives that action: the action table is
/// written without loss.
pub proof fn lemma_action_code_roundtrip(a: Action)
    ensures
        decode_action(action_code(a)) == a,
{
}

/// The cell of a terminal in a written action table holds the code of the
/// action that the state's lookahead has for it, where the lookahead has one
/// entry per terminal.
pub proof fn lemma_la_code_entry(la: Seq<(usize, Action)>, x: int)
    requires
        crate::automaton::la_keys_distinct(la),
        0 <= x < la.len(),
    ensures
        la_code(la, la[x].0 as int) == action_code(la[x].1),
    decreases la.len(),
{
    if x < la.len() - 1 {
        assert(la.last().0 != la[x].0);
        let d = la.drop_last();
        assert(crate::automaton::la_keys_distinct(d)) by {
            assert forall|a: int, b: int| 0 <= a < b < d.len() implies (#[trigger] d[a]).0 != (#[trigger] d[b]).0 by {
                assert(d[a] == la[a] && d[b] == la[b]);
            }
        }
        assert(d[x] == la[x]);
        lemma_la_code_entry(d, x);
    }
}

/// A terminal without an entry in the lookahead gets the code zero.
pub proof fn lemma_la_code_absent(la: Seq<(usize, Action)>, k: int)
    requires
        forall|x: int| 0 <= x < la.len() ==> (#[trigger] la[x]).0 != k,
    ensures
        la_code(la, k) == 0,
    decreases la.len(),
{
    if la.len() > 0 {
        let d = la.drop_last();
        assert forall|x: int| 0 <= x < d.len() implies (#[trigger] d[x]).0 != k by {
            assert(d[x] == la[x]);
        }
        lemma_la_code_absent(d, k);
    }
}

/// The cell of a reduction in a written return table holds the state that
/// the return table has for it, where it has one entry per reduction.
pub proof fn lemma_goto_code_entry(g: Seq<(usize, usize)>, x: int)
    requires
        crate::automaton::pair_keys_distinct(g),
        0 <= x < g.len(),
    ensures
        goto_code(g, g[x].0 as int) == g[x].1,
    decreases g.len(),
{
    if x < g.len() - 1 {
        assert(g.last().0 != g[x].0);
        let d = g.drop_last();
        assert(crate::automaton::pair_keys_distinct(d)) by {
            assert forall|a: int, b: int| 0 <= a < b < d.len() implies (#[trigger] d[a]).0 != (#[trigger] d[b]).0 by {
                assert(d[a] == g[a] && d[b] == g[b]);
            }
        }
        assert(d[x] == g[x]);
        lemma_goto_code_entry(d, x);
    }
}

/// Every automaton built from a grammar's LR states can be written out, as
/// long as its numbers of states and reductions fit an `isize`: its entries
/// name only its own terminals, states and reductions.
pub proof fn lemma_baked_tables_fit(lr: &crate::lr::LR, a: &Automaton)
    requires
        lr.wf(),
        a.bakes(lr),
        a.states@.len() < isize::MAX,
        a.reductions@.len() < isize::MAX,
    ensures
        tables_fit(*a),
{
    let rv = crate::parser::rules_view(lr.rules@);
    let hs = crate::collection::heads_view(lr.heads@);
    let terms = tokens_view(a.terminals@);
    let rps = a.reductends@;
    assert forall|j: int, k: int|
        0 <= j < a.states@.len() && 0 <= k < a.states@[j].lookahead@.len() implies {
            let e = #[trigger] a.states@[j].lookahead@[k];
            &&& e.0 < a.terminals@.len()
            &&& match e.1 {
                Action::Shift(i) => i < isize::MAX,
                Action::Reduce(i) => i < isize::MAX,
                Action::Halt => true,
            }
        } by {
        let st = lr.states@[j]@;
        assert(astates_view(a.states@)[j] == a.states@[j]@);
        assert(crate::automaton::state_baked(&lr.table, hs[j], st, terms, rps, astates_view(a.states@)[j]));
        let la = a.states@[j].lookahead@;
        assert(la[k].0 < terms.len() && crate::automaton::la_justified(&lr.table, st, terms, rps, la[k]));
        match la[k].1 {
            Action::Shift(t) => {
                let x = choose|x: int| 0 <= x < st.next.len() && (#[trigger] st.next[x]).1 == t
                    && crate::automaton::tok(&lr.table, st.next[x].0 as int) == terms[la[k].0 as int];
                assert(crate::collection::state_ok(rv, &lr.table, hs, hs[j], lr.states@[j]@));
                assert(st.next[x].1 < hs.len());
            },
            _ => {},
        }
    }
    assert forall|j: int, k: int|
        0 <= j < a.states@.len() && 0 <= k < a.states@[j].goto@.len() implies (#[trigger] a.states@[j].goto@[k]).0
            < a.reductions@.len() by {
        assert(astates_view(a.states@)[j] == a.states@[j]@);
        assert(crate::automaton::state_baked(&lr.table, hs[j], lr.states@[j]@, terms, rps, astates_view(a.states@)[j]));
    }
}

/// The numerals of the action codes of the first `n` terminals, separated by `", "`.
pub open spec fn la_items(la: Seq<(usize, Action)>, n: nat) -> Seq<char>
    decreases n,
{
    if n == 0 {
        Seq::empty()
    } else if n == 1 {
        idec(la_code(la, 0))
    } else {
        la_items(la, (n - 1) as nat) + ", "@ + idec(la_code(la, n - 1))
    }
}

/// The numerals of the return states of the first `n` reductions, separated by `", "`.
pub open spec fn goto_items(g: Seq<(usize, usize)>, n: nat) -> Seq<char>
    decreases n,
{
    if n == 0 {
        Seq::empty()
    } else if n == 1 {
        idec(goto_code(g, 0))
    } else {
        goto_items(g, (n - 1) as nat) + ", "@ + idec(goto_code(g, n - 1))
    }
}

/// The rows of the action table of the first `n` states, each within `open` and `close`.
pub open spec fn action_rows(sts: Seq<AStateV>, n: nat, width: nat, open: Seq<char>, close: Seq<char>) -> Seq<char>
    decreases n,
{
    if n == 0 {
        Seq::empty()
    } else {
        action_rows(sts, (n - 1) as nat, width, open, close) + "\t\t"@ + open + la_items(sts[n - 1].lookahead, width)
            + close + ", \n"@
    }
}

/// The rows of the return table of the first `n` states, each within `open` and `close`.
pub open spec fn goto_rows(sts: Seq<AStateV>, n: nat, width: nat, open: Seq<char>, close: Seq<char>) -> Seq<char>
    decreases n,
{
    if n == 0 {
        Seq::empty()
    } else {
        goto_rows(sts, (n - 1) as nat, width, open, close) + "\t\t"@ + open + goto_items(sts[n - 1].goto, width) + close
            + ", \n"@
    }
}

/// Action codes fit the machine's signed integers, and each entry's key
/// has a column.
pub open spec fn tables_fit(a: Automaton) -> bool {
    &&& a.reductions@.len() < isize::MAX
    &&& forall|j: int, k: int|
        0 <= j < a.states@.len() && 0 <= k < a.states@[j].lookahead@.len() ==> {
            let e = #[trigger] a.states@[j].lookahead@[k];
            &&& e.0 < a.terminals@.len()
            &&& match e.1 {
                Action::Shift(i) => i < isize::MAX,
                Action::Reduce(i) => i < isize::MAX,
                Action::Halt => true,
            }
        }
    &&& forall|j: int, k: int|
        0 <= j < a.states@.len() && 0 <= k < a.states@[j].goto@.len() ==> (#[trigger] a.states@[j].goto@[k]).0
            < a.reductions@.len()
}

/// Every regular expression of a terminal has a first character to drop.
pub open spec fn regexes_nonempty(ts: Seq<TokenV>) -> bool {
    forall|i: int| 0 <= i < ts.len() ==> (#[trigger] ts[i] matches TokenV::Regex(r) ==> r.len() >= 1)
}

/// Whether the automaton can be written out: its tables fit the integer types
/// of the written code, and every regular expression has a first character.
pub fn exportable(a: &Automaton) -> (r: bool)
    ensures
        r == (tables_fit(*a) && regexes_nonempty(tokens_view(a.terminals@))),
{
    let nt = a.terminals.len();
    let nr = a.reductions.len();
    if nr >= isize::MAX as usize {
        return false;
    }
    let mut i: usize = 0;
    while i < nt
        invariant
            nt == a.terminals@.len(),
            i <= nt,
            forall|x: int| 0 <= x < i ==> (#[trigger] tokens_view(a.terminals@)[x] matches TokenV::Regex(r) ==> r.len() >= 1),
        decreases nt - i,
    {
        match &a.terminals[i] {
            Token::Regex(r) => {
                if r.as_str().unicode_len() == 0 {
                    assert(tokens_view(a.terminals@)[i as int] == a.terminals@[i as int]@);
                    return false;
                }
            },
            _ => {},
        }
        i = i + 1;
    }
    let ns = a.states.len();
    let mut j: usize = 0;
    while j < ns
        invariant
            ns == a.states@.len(),
            nt == a.terminals@.len(),
            nr == a.reductions@.len(),
            j <= ns,
            forall|j2: int, k: int|
                0 <= j2 < j && 0 <= k < a.states@[j2].lookahead@.len() ==> {
                    let e = #[trigger] a.states@[j2].lookahead@[k];
                    &&& e.0 < nt
                    &&& match e.1 {
                        Action::Shift(i) => i < isize::MAX,
                        Action::Reduce(i) => i < isize::MAX,
                        Action::Halt => true,
                    }
                },
            forall|j2: int, k: int|
                0 <= j2 < j && 0 <= k < a.states@[j2].goto@.len() ==> (#[trigger] a.states@[j2].goto@[k]).0 < nr,
        decreases ns - j,
    {
        let st = &a.states[j];
        let nl = st.lookahead.len();
        let mut k: usize = 0;
        while k < nl
            invariant
                nl == st.lookahead@.len(),
                st == a.states@[j as int],
                j < ns,
                ns == a.states@.len(),
                nt == a.terminals@.len(),
                k <= nl,
                forall|k2: int|
                    0 <= k2 < k ==> {
                        let e = #[trigger] st.lookahead@[k2];
                        &&& e.0 < nt
                        &&& match e.1 {
                            Action::Shift(i) => i < isize::MAX,
                            Action::Reduce(i) => i < isize::MAX,
                            Action::Halt => true,
                        }
                    },
            decreases nl - k,
        {
            let e = st.lookahead[k];
            assert(a.states@[j as int].lookahead@[k as int] == e);
            if e.0 >= nt {
                return false;
            }
            match e.1 {
                Action::Shift(i) => {
                    if i >= isize::MAX as usize {
                        return false;
                    }
                },
                Action::Reduce(i) => {
                    if i >= isize::MAX as usize {
                        return false;
                    }
                },
                Action::Halt => {},
            }
            k = k + 1;
        }
        let ng = st.goto.len();
        let mut g: usize = 0;
        while g < ng
            invariant
                ng == st.goto@.len(),
                st == a.states@[j as int],
                j < ns,
                ns == a.states@.len(),
                nr == a.reductions@.len(),
                g <= ng,
                forall|g2: int| 0 <= g2 < g ==> (#[trigger] st.goto@[g2]).0 < nr,
            decreases ng - g,
        {
            if st.goto[g].0 >= nr {
                assert(a.states@[j as int].goto@[g as int] == st.goto@[g as int]);
                return false;
            }
            g = g + 1;
        }
        j = j + 1;
    }
    true
}

/// The action code of the terminal `k` in the lookahead table `la`.
fn find_code(la: &Vec<(usize, Action)>, k: usize, Ghost(bound): Ghost<bool>) -> (r: (bool, usize))
    requires
        forall|y: int| 0 <= y < la@.len() ==> match (#[trigger] la@[y]).1 {
            Action::Shift(i) => i < isize::MAX,
            Action::Reduce(i) => i < isize::MAX,
            Action::Halt => true,
        },
    ensures
        idec(la_code(la@, k as int)) == (if r.0 { seq!['-'] + dec(r.1 as nat) } else { dec(r.1 as nat) }),
{
    let mut y: usize = la.len();
    proof {
        assert(la@.take(y as int) =~= la@);
    }
    while y > 0
        invariant
            y <= la@.len(),
            forall|z: int| y <= z < la@.len() ==> (#[trigger] la@[z]).0 != k,
            forall|y2: int| 0 <= y2 < la@.len() ==> match (#[trigger] la@[y2]).1 {
                Action::Shift(i) => i < isize::MAX,
                Action::Reduce(i) => i < isize::MAX,
                Action::Halt => true,
            },
            la_code(la@, k as int) == la_code(la@.take(y as int), k as int),
        decreases y,
    {
        proof {
            assert(la@.take(y as int).drop_last() =~= la@.take(y - 1));
            assert(la@.take(y as int).last() == la@[y - 1]);
        }
        if la[y - 1].0 == k {
            let a = la[y - 1].1;
            return match a {
                Action::Halt => (false, 0),
                Action::Shift(i) => (false, i + 1),
                Action::Reduce(i) => {
                    proof {
                        assert(la_code(la@, k as int) == -(i as int) - 1);
                        assert(-(-(i as int) - 1) == i + 1);
                    }
                    (true, i + 1)
                },
            };
        }
        y = y - 1;
    }
    proof {
        assert(la@.take(0) =~= Seq::<(usize, Action)>::empty());
    }
    (false, 0)
}

/// The return state of the reduction `r` in the return table `g`.
fn find_goto(g: &Vec<(usize, usize)>, r: usize) -> (s: usize)
    ensures
        s as int == goto_code(g@, r as int),
{
    let mut y: usize = g.len();
    proof {
        assert(g@.take(y as int) =~= g@);
    }
    while y > 0
        invariant
            y <= g@.len(),
            goto_code(g@, r as int) == goto_code(g@.take(y as int), r as int),
        decreases y,
    {
        proof {
            assert(g@.take(y as int).drop_last() =~= g@.take(y - 1));
            assert(g@.take(y as int).last() == g@[y - 1]);
        }
        if g[y - 1].0 == r {
            return g[y - 1].1;
        }
        y = y - 1;
    }
    proof {
        assert(g@.take(0) =~= Seq::<(usize, usize)>::empty());
    }
    0
}

/// Appends the rows of the action table, each within `open` and `close`.
fn push_action_rows(content: &mut String, a: &Automaton, open: &str, close: &str)
    requires
        tables_fit(*a),
    ensures
        final(content)@ == old(content)@ + action_rows(
            astates_view(a.states@),
            a.states@.len() as nat,
            a.terminals@.len() as nat,
            open@,
            close@,
        ),
{
    let ghost sts = astates_view(a.states@);
    let ghost c0 = content@;
    let ns = a.states.len();
    let width = a.terminals.len();
    let mut j: usize = 0;
    while j < ns
        invariant
            tables_fit(*a),
            sts == astates_view(a.states@),
            ns == sts.len(),
            width == a.terminals@.len(),
            j <= ns,
            content@ == c0 + action_rows(sts, j as nat, width as nat, open@, close@),
        decreases ns - j,
    {
        let la = &a.states[j].lookahead;
        assert(sts[j as int].lookahead == la@);
        let ghost c1 = content@;
        content.append("\t\t");
        content.append(open);
        let mut k: usize = 0;
        while k < width
            invariant
                tables_fit(*a),
                j < ns == a.states@.len(),
                la == &a.states@[j as int].lookahead,
                k <= width,
                content@ == c1 + "\t\t"@ + open@ + la_items(la@, k as nat),
            decreases width - k,
        {
            if k > 0 {
                content.append(", ");
            }
            let (neg, m) = find_code(la, k, Ghost(true));
            if neg {
                content.append("-");
            }
            push_dec(content, m);
            proof {
                reveal_strlit("-");
                reveal_strlit(", ");
            }
            k = k + 1;
        }
        content.append(close);
        content.append(", \n");
        j = j + 1;
    }
}

/// Appends the rows of the return table, each within `open` and `close`.
fn push_goto_rows(content: &mut String, a: &Automaton, open: &str, close: &str)
    ensures
        final(content)@ == old(content)@ + goto_rows(
            astates_view(a.states@),
            a.states@.len() as nat,
            a.reductions@.len() as nat,
            open@,
            close@,
        ),
{
    let ghost sts = astates_view(a.states@);
    let ghost c0 = content@;
    let ns = a.states.len();
    let width = a.reductions.len();
    let mut j: usize = 0;
    while j < ns
        invariant
            sts == astates_view(a.states@),
            ns == sts.len(),
            width == a.reductions@.len(),
            j <= ns,
            content@ == c0 + goto_rows(sts, j as nat, width as nat, open@, close@),
        decreases ns - j,
    {
        let g = &a.states[j].goto;
        assert(sts[j as int].goto == g@);
        let ghost c1 = content@;
        content.append("\t\t");
        content.append(open);
        let mut k: usize = 0;
        while k < width
            invariant
                j < ns == a.states@.len(),
                g == &a.states@[j as int].goto,
                k <= width,
                content@ == c1 + "\t\t"@ + open@ + goto_items(g@, k as nat),
            decreases width - k,
        {
            if k > 0 {
                content.append(", ");
            }
            let s = find_goto(g, k);
            push_dec(content, s);
            proof {
                reveal_strlit(", ");
            }
            k = k + 1;
        }
        content.append(close);
        content.append(", \n");
        j = j + 1;
    }
}


// ---------------------------------------------------------------------------
// Reductions

/// The arguments of the code that pass the named components, each written
/// `pre`, its index and `post`.
pub open spec fn call_args(args: Seq<Option<ArgV>>, n: nat, pre: Seq<char>, post: Seq<char>) -> Seq<char>
    decreases n,
{
    if n == 0 {
        Seq::empty()
    } else {
        call_args(args, (n - 1) as nat, pre, post) + (if args[n - 1] is Some {
            pre + dec((n - 1) as nat) + post
        } else {
            Seq::empty()
        })
    }
}

/// `s` without its last two characters, the empty text left as it is.
pub open spec fn trim2(s: Seq<char>) -> Seq<char> {
    if s.len() == 0 {
        s
    } else {
        s.drop_last().drop_last()
    }
}

/// The parameter declarations of a reduction function in Rust.
pub open spec fn rust_params(args: Seq<Option<ArgV>>, n: nat) -> Seq<char>
    decreases n,
{
    if n == 0 {
        Seq::empty()
    } else {
        rust_params(args, (n - 1) as nat) + match args[n - 1] {
            Some(a) => "mut "@ + a.identifier + ": "@ + a.arg_type + ", "@,
            None => Seq::empty(),
        }
    }
}

/// The pops of the arguments with index below `n`, last first, in Rust; the
/// types of the named ones are added to `ts`.
pub open spec fn rust_pops(args: Seq<Option<ArgV>>, n: nat, ts: Seq<Seq<char>>) -> (Seq<Seq<char>>, Seq<char>)
    decreases n,
{
    if n == 0 {
        (ts, Seq::empty())
    } else {
        let k = (n - 1) as nat;
        let step: (Seq<Seq<char>>, Seq<char>) = match args[k as int] {
            Some(a) => {
                let t1 = intern(ts, a.arg_type);
                (t1, "\t\t\t\tlet a"@ + dec(k) + " = pop!(parser, T"@ + dec((pos_in(t1, a.arg_type) + 1) as nat) + ");\n "@)
            },
            None => (ts, "\t\t\t\tlet _ = parser.parse_stack.pop();\n"@),
        };
        let rest = rust_pops(args, k, step.0);
        (rest.0, step.1 + "\t\t\t\tlet _ = parser.state_stack.pop();\n"@ + rest.1)
    }
}

pub struct Fold {
    pub types: Seq<Seq<char>>,
    pub decls: Seq<char>,
    pub cases: Seq<char>,
}

/// What the reduction `red` with index `i` adds in Rust: its function, its
/// case of the parse loop, and the types it numbers.
pub open spec fn rust_step(f: Fold, red: ReductionV, i: nat) -> Fold {
    match red.task {
        None => Fold { cases: f.cases + "\t\t\t"@ + idec(-i - 1) + " => {}\n"@, ..f },
        Some(t) => {
            let ts1 = intern(f.types, t.return_type);
            let ret = (pos_in(ts1, t.return_type) + 1) as nat;
            let decl = ("\tfn reduction"@ + dec(i) + "("@ + rust_params(t.args, t.args.len())).drop_last().drop_last()
                + ") -> "@ + t.return_type + " "@ + t.code + " \n"@;
            let pops = rust_pops(t.args, t.args.len(), ts1);
            let case = "\t\t\t"@ + idec(-i - 1) + " => {\n"@ + pops.1 + "\t\t\t\tpush!(parser, T"@ + dec(ret)
                + ", Self::reduction"@ + dec(i) + "("@ + trim2(call_args(t.args, t.args.len(), "a"@, ", "@))
                + "));\n\t\t\t}\n"@;
            Fold { types: pops.0, decls: f.decls + decl, cases: f.cases + case }
        },
    }
}

/// The reduction functions and the reduction cases of the parse loop of the
/// first `n` reductions in Rust, with the types they number.
pub open spec fn rust_fold(reds: Seq<ReductionV>, n: nat) -> Fold
    decreases n,
{
    if n == 0 {
        Fold { types: seq!["&str"@], decls: Seq::empty(), cases: Seq::empty() }
    } else {
        rust_step(rust_fold(reds, (n - 1) as nat), reds[n - 1], (n - 1) as nat)
    }
}

/// Appends `"-"` and the numeral of `i + 1`: the code of the reduction `i`.
fn push_reduce_code(s: &mut String, i: usize)
    requires
        i < isize::MAX,
    ensures
        final(s)@ == old(s)@ + idec(-(i as int) - 1),
{
    s.append("-");
    push_dec(s, i + 1);
    proof {
        reveal_strlit("-");
        assert(-(-(i as int) - 1) == i + 1);
    }
}

/// Appends the pops of the arguments, last first, in Rust.
fn push_rust_pops(cases: &mut String, types: &mut Vec<String>, args: &Vec<Option<crate::automaton::Arg>>)
    ensures
        ({
            let r = rust_pops(
                args@.map_values(|a: Option<crate::automaton::Arg>| crate::automaton::arg_opt_view(a)),
                args@.len() as nat,
                strs_view(old(types)@),
            );
            strs_view(final(types)@) == r.0 && final(cases)@ == old(cases)@ + r.1
        }),
{
    let ghost av = args@.map_values(|a: Option<crate::automaton::Arg>| crate::automaton::arg_opt_view(a));
    let ghost r0 = rust_pops(av, args@.len() as nat, strs_view(types@));
    let ghost c0 = cases@;
    let mut k: usize = args.len();
    proof {
        assert(cases@ =~= c0 + Seq::<char>::empty());
    }
    while k > 0
        invariant
            k <= args@.len(),
            av == args@.map_values(|a: Option<crate::automaton::Arg>| crate::automaton::arg_opt_view(a)),
            r0.0 == rust_pops(av, k as nat, strs_view(types@)).0,
            c0 + r0.1 == cases@ + rust_pops(av, k as nat, strs_view(types@)).1,
        decreases k,
    {
        let ghost c1 = cases@;
        let ghost t1 = strs_view(types@);
        match &args[k - 1] {
            Some(arg) => {
                cases.append("\t\t\t\tlet a");
                push_dec(cases, k - 1);
                cases.append(" = pop!(parser, T");
                let ty = intern_str(types, arg.arg_type.as_str());
                push_dec(cases, ty);
                cases.append(");\n ");
            },
            None => {
                cases.append("\t\t\t\tlet _ = parser.parse_stack.pop();\n");
            },
        }
        cases.append("\t\t\t\tlet _ = parser.state_stack.pop();\n");
        proof {
            assert(av[k - 1] == crate::automaton::arg_opt_view(args@[k - 1]));
            let step = rust_pops(av, k as nat, t1);
            let rest = rust_pops(av, (k - 1) as nat, strs_view(types@));
            assert(step.1 == (cases@.subrange(c1.len() as int, cases@.len() as int)) + rest.1);
            assert(cases@ =~= c1 + cases@.subrange(c1.len() as int, cases@.len() as int));
        }
        k = k - 1;
    }
}


pub proof fn lemma_call_args_len(args: Seq<Option<ArgV>>, n: nat, pre: Seq<char>, post: Seq<char>)
    requires
        post.len() >= 2,
    ensures
        call_args(args, n, pre, post).len() == 0 || call_args(args, n, pre, post).len() >= 2,
    decreases n,
{
    if n > 0 {
        lemma_call_args_len(args, (n - 1) as nat, pre, post);
    }
}

/// Appends the parameter declarations and collects the call arguments of a
/// reduction's code, as `params(arg)` and `pre`, index, `post`.
#[verifier::rlimit(50)]
fn push_params(
    decl: &mut String,
    callargs: &mut String,
    args: &Vec<Option<crate::automaton::Arg>>,
    rust: bool,
)
    ensures
        ({
            let av = args@.map_values(|a: Option<crate::automaton::Arg>| crate::automaton::arg_opt_view(a));
            &&& rust ==> final(decl)@ == old(decl)@ + rust_params(av, av.len())
            &&& rust ==> final(callargs)@ == old(callargs)@ + call_args(av, av.len(), "a"@, ", "@)
            &&& !rust ==> final(decl)@ == old(decl)@ + cpp_params(av, av.len())
            &&& !rust ==> final(callargs)@ == old(callargs)@ + call_args(av, av.len(), "std::move(a"@, "), "@)
        }),
{
    let ghost av = args@.map_values(|a: Option<crate::automaton::Arg>| crate::automaton::arg_opt_view(a));
    let ghost d0 = decl@;
    let ghost c0 = callargs@;
    let mut k: usize = 0;
    while k < args.len()
        invariant
            k <= args@.len(),
            av == args@.map_values(|a: Option<crate::automaton::Arg>| crate::automaton::arg_opt_view(a)),
            rust ==> decl@ == d0 + rust_params(av, k as nat),
            rust ==> callargs@ == c0 + call_args(av, k as nat, "a"@, ", "@),
            !rust ==> decl@ == d0 + cpp_params(av, k as nat),
            !rust ==> callargs@ == c0 + call_args(av, k as nat, "std::move(a"@, "), "@),
        decreases args@.len() - k,
    {
        assert(av[k as int] == crate::automaton::arg_opt_view(args@[k as int]));
        match &args[k] {
            Some(arg) => {
                if rust {
                    decl.append("mut ");
                    decl.append(arg.identifier.as_str());
                    decl.append(": ");
                    decl.append(arg.arg_type.as_str());
                    decl.append(", ");
                    callargs.append("a");
                    push_dec(callargs, k);
                    callargs.append(", ");
                } else {
                    decl.append(arg.arg_type.as_str());
                    decl.append(" ");
                    decl.append(arg.identifier.as_str());
                    decl.append(", ");
                    callargs.append("std::move(a");
                    push_dec(callargs, k);
                    callargs.append("), ");
                }
            },
            None => {},
        }
        k = k + 1;
    }
}

/// The parameter declarations of a reduction function in C++.
pub open spec fn cpp_params(args: Seq<Option<ArgV>>, n: nat) -> Seq<char>
    decreases n,
{
    if n == 0 {
        Seq::empty()
    } else {
        cpp_params(args, (n - 1) as nat) + match args[n - 1] {
            Some(a) => a.arg_type + " "@ + a.identifier + ", "@,
            None => Seq::empty(),
        }
    }
}

/// Appends the reduction functions of the first reductions in Rust to
/// `content` and their parse cases to `cases`.
fn push_rust_reductions(content: &mut String, cases: &mut String, types: &mut Vec<String>, a: &Automaton)
    requires
        tables_fit(*a),
        strs_view(old(types)@) == seq!["&str"@],
        old(cases)@ == Seq::<char>::empty(),
    ensures
        ({
            let f = rust_fold(reductions_view(a.reductions@), a.reductions@.len() as nat);
            &&& strs_view(final(types)@) == f.types
            &&& final(content)@ == old(content)@ + f.decls
            &&& final(cases)@ == f.cases
        }),
{
    let ghost reds = reductions_view(a.reductions@);
    let ghost c0 = content@;
    let nr = a.reductions.len();
    let mut i: usize = 0;
    proof {
        assert(content@ =~= c0 + Seq::<char>::empty());
    }
    while i < nr
        invariant
            tables_fit(*a),
            reds == reductions_view(a.reductions@),
            nr == reds.len(),
            i <= nr,
            strs_view(types@) == rust_fold(reds, i as nat).types,
            content@ == c0 + rust_fold(reds, i as nat).decls,
            cases@ == rust_fold(reds, i as nat).cases,
        decreases nr - i,
    {
        let red = &a.reductions[i];
        assert(reds[i as int] == red@);
        push_rust_reduction(content, cases, types, red, i);
        i = i + 1;
    }
}


/// Appends the function of the reduction `red` with index `i` in Rust to
/// `content` and its parse case to `cases`.
#[verifier::rlimit(50)]
fn push_rust_reduction(content: &mut String, cases: &mut String, types: &mut Vec<String>, red: &crate::automaton::Reduction, i: usize)
    requires
        i < isize::MAX,
    ensures
        ({
            let f = rust_step(Fold { types: strs_view(old(types)@), decls: old(content)@, cases: old(cases)@ }, red@, i as nat);
            &&& strs_view(final(types)@) == f.types
            &&& final(content)@ == f.decls
            &&& final(cases)@ == f.cases
        }),
{
        match &red.task {
            None => {
                cases.append("\t\t\t");
                push_reduce_code(cases, i);
                cases.append(" => {}\n");
            },
            Some(task) => {
                let ghost tv = task@;
                let ghost ts0 = strs_view(types@);
                let ret = intern_str(types, task.return_type.as_str());
                let mut piece = String::from_str("\tfn reduction");
                push_dec(&mut piece, i);
                piece.append("(");
                let mut callargs = String::new();
                push_params(&mut piece, &mut callargs, &task.args, true);
                proof {
                    reveal_strlit("(");
                    lemma_dec_nonempty(i as nat);
                }
                push_drop2(content, piece.as_str());
                content.append(") -> ");
                content.append(task.return_type.as_str());
                content.append(" ");
                content.append(task.code.as_str());
                content.append(" \n");
                cases.append("\t\t\t");
                push_reduce_code(cases, i);
                cases.append(" => {\n");
                push_rust_pops(cases, types, &task.args);
                cases.append("\t\t\t\tpush!(parser, T");
                push_dec(cases, ret);
                cases.append(", Self::reduction");
                push_dec(cases, i);
                cases.append("(");
                proof {
                    reveal_strlit(", ");
                    lemma_call_args_len(tv.args, tv.args.len(), "a"@, ", "@);
                }
                if callargs.as_str().unicode_len() > 0 {
                    push_drop2(cases, callargs.as_str());
                }
                cases.append("));\n\t\t\t}\n");
            },
        }
}


// ---------------------------------------------------------------------------
// The generated Rust parser

/// The declaration of the terminal `t` with index `i` in the token enum.
pub open spec fn rust_token_decl(i: nat, t: TokenV) -> Seq<char> {
    match t {
        TokenV::EOF => "\tEOF,\n"@,
        TokenV::Regex(r) => "\t#[regex(r#"@ + r.drop_first() + "#)]\n"@ + "\tL"@ + dec(i) + ",\n"@,
        TokenV::Terminal(s) => "\t#[token(r#"@ + s + "#)]\n"@ + "\tL"@ + dec(i) + ",\n"@,
    }
}

/// A regular-expression terminal is declared as the literal terminal with the
/// same text after its first character (the `r` marker of the lexeme), under
/// the `regex` attribute in place of `token`: the marker never reaches the
/// generated lexer.
pub proof fn lemma_regex_decl_drops_marker(i: nat, c: char, s: Seq<char>)
    ensures
        rust_token_decl(i, TokenV::Regex(seq![c] + s)) == "\t#[regex(r#"@ + rust_token_decl(i, TokenV::Terminal(s)).subrange(
            11,
            rust_token_decl(i, TokenV::Terminal(s)).len() as int,
        ),
        rust_token_decl(i, TokenV::Terminal(s)).subrange(0, 11) == "\t#[token(r#"@,
{
    reveal_strlit("\t#[regex(r#");
    reveal_strlit("\t#[token(r#");
    assert((seq![c] + s).drop_first() =~= s);
    let t = rust_token_decl(i, TokenV::Terminal(s));
    let tail = s + "#)]\n"@ + "\tL"@ + dec(i) + ",\n"@;
    assert(t =~= "\t#[token(r#"@ + tail);
    assert(t.subrange(11, t.len() as int) =~= tail);
    assert(t.subrange(0, 11) =~= "\t#[token(r#"@);
    assert(rust_token_decl(i, TokenV::Regex(seq![c] + s)) =~= "\t#[regex(r#"@ + tail);
}

pub open spec fn rust_token_decls(ts: Seq<TokenV>, n: nat) -> Seq<char>
    decreases n,
{
    if n == 0 {
        Seq::empty()
    } else {
        rust_token_decls(ts, (n - 1) as nat) + rust_token_decl((n - 1) as nat, ts[n - 1])
    }
}

/// The variants of the value type of the parse stack, one per type of `ts`.
pub open spec fn rust_types(ts: Seq<Seq<char>>, n: nat) -> Seq<char>
    decreases n,
{
    if n == 0 {
        Seq::empty()
    } else {
        let t = ts[n - 1];
        rust_types(ts, (n - 1) as nat) + (if t.len() > 0 && t[0] == '&' {
            "\n\tT"@ + dec(n) + "(&'a "@ + t.drop_first() + "),"@
        } else {
            "\n\tT"@ + dec(n) + "("@ + t + "),"@
        })
    }
}

pub open spec fn export_text(export: Option<Seq<char>>) -> Seq<char> {
    match export {
        Some(e) => e,
        None => Seq::empty(),
    }
}

/// The Rust source of a parser for the automaton with terminals `terms`,
/// reductions `reds`, states `sts` and exported type `export`.
pub open spec fn rust_source(
    terms: Seq<TokenV>,
    reds: Seq<ReductionV>,
    sts: Seq<AStateV>,
    export: Option<Seq<char>>,
) -> Seq<char> {
    let tl = terms.len();
    let ns = sts.len();
    let rl = reds.len();
    let f = rust_fold(reds, rl);
    let et = export_text(export);
    let types = intern(f.types, et);
    RUST_HEAD@ + rust_token_decls(terms, tl) + RUST_MID@ + "\tconst ACTION: [ [isize; "@ + dec(tl) + "]; "@ + dec(ns)
        + "] = [\n"@ + action_rows(sts, ns, tl, "["@, "]"@) + "\t];\n\n"@ + "\tconst GOTO: [ [usize; "@ + dec(rl)
        + "]; "@ + dec(ns) + "] = [\n"@ + goto_rows(sts, ns, rl, "["@, "]"@) + "\t];\n\n"@ + f.decls + RUST_PARSE_0@ + et
        + RUST_PARSE_1@ + f.cases + RUST_PARSE_2@ + dec((pos_in(types, et) + 1) as nat) + RUST_PARSE_3@ + RUST_TYPES_HEAD@
        + rust_types(types, types.len()).drop_last() + "\n}\n\n"@ + RUST_MAIN@
}

/// Appends the declarations of the terminals in the token enum.
fn push_rust_tokens(content: &mut String, a: &Automaton)
    requires
        regexes_nonempty(tokens_view(a.terminals@)),
    ensures
        final(content)@ == old(content)@ + rust_token_decls(tokens_view(a.terminals@), a.terminals@.len() as nat),
{
    let ghost tv = tokens_view(a.terminals@);
    let ghost c0 = content@;
    let n = a.terminals.len();
    let mut i: usize = 0;
    while i < n
        invariant
            tv == tokens_view(a.terminals@),
            regexes_nonempty(tv),
            n == tv.len(),
            i <= n,
            content@ == c0 + rust_token_decls(tv, i as nat),
        decreases n - i,
    {
        assert(tv[i as int] == a.terminals@[i as int]@);
        match &a.terminals[i] {
            Token::EOF => {
                content.append("\tEOF,\n");
            },
            Token::Regex(r) => {
                content.append("\t#[regex(r#");
                push_tail(content, r.as_str());
                content.append("#)]\n");
                content.append("\tL");
                push_dec(content, i);
                content.append(",\n");
            },
            Token::Terminal(t) => {
                content.append("\t#[token(r#");
                content.append(t.as_str());
                content.append("#)]\n");
                content.append("\tL");
                push_dec(content, i);
                content.append(",\n");
            },
        }
        i = i + 1;
    }
}

/// Appends the variants of the value type, one per type of `types`.
fn push_rust_types(content: &mut String, types: &Vec<String>)
    requires
        types@.len() >= 1,
    ensures
        final(content)@ == old(content)@ + rust_types(strs_view(types@), types@.len() as nat).drop_last(),
{
    let ghost tv = strs_view(types@);
    let mut tt = String::new();
    let n = types.len();
    let mut k: usize = 0;
    while k < n
        invariant
            tv == strs_view(types@),
            n == tv.len(),
            k <= n,
            tt@ == rust_types(tv, k as nat),
        decreases n - k,
    {
        let t = types[k].as_str();
        assert(tv[k as int] == t@);
        tt.append("\n\tT");
        push_dec(&mut tt, k + 1);
        if starts_with_char(t, '&') {
            tt.append("(&'a ");
            push_tail(&mut tt, t);
            tt.append("),");
        } else {
            tt.append("(");
            tt.append(t);
            tt.append("),");
        }
        k = k + 1;
    }
    proof {
        reveal_strlit("),");
        assert(tt@.len() >= 1);
    }
    push_drop1(content, tt.as_str());
}

/// The Rust source of a parser for the automaton: the token enum, the action
/// and return tables, a function per reduction with code, and the parse loop.
#[verifier::rlimit(50)]
pub fn export_rust(automaton: &Automaton) -> (r: String)
    requires
        tables_fit(*automaton),
        regexes_nonempty(tokens_view(automaton.terminals@)),
    ensures
        r@ == rust_source(
            tokens_view(automaton.terminals@),
            reductions_view(automaton.reductions@),
            astates_view(automaton.states@),
            opt_view(automaton.export),
        ),
{
    let a = automaton;
    let mut content = String::from_str(RUST_HEAD);
    push_rust_tokens(&mut content, a);
    content.append(RUST_MID);
    content.append("\tconst ACTION: [ [isize; ");
    push_dec(&mut content, a.terminals.len());
    content.append("]; ");
    push_dec(&mut content, a.states.len());
    content.append("] = [\n");
    push_action_rows(&mut content, a, "[", "]");
    content.append("\t];\n\n");
    content.append("\tconst GOTO: [ [usize; ");
    push_dec(&mut content, a.reductions.len());
    content.append("]; ");
    push_dec(&mut content, a.states.len());
    content.append("] = [\n");
    push_goto_rows(&mut content, a, "[", "]");
    content.append("\t];\n\n");
    let mut types: Vec<String> = Vec::new();
    types.push(String::from_str("&str"));
    let mut cases = String::new();
    proof {
        assert(strs_view(types@) =~= seq!["&str"@]);
    }
    push_rust_reductions(&mut content, &mut cases, &mut types, a);
    let export_type = match &a.export {
        Some(e) => e.clone(),
        None => String::new(),
    };
    let idx = intern_str(&mut types, export_type.as_str());
    content.append(RUST_PARSE_0);
    content.append(export_type.as_str());
    content.append(RUST_PARSE_1);
    content.append(cases.as_str());
    content.append(RUST_PARSE_2);
    push_dec(&mut content, idx);
    content.append(RUST_PARSE_3);
    content.append(RUST_TYPES_HEAD);
    proof {
        lemma_pos_in(strs_view(types@), export_type@);
    }
    push_rust_types(&mut content, &types);
    content.append("\n}\n\n");
    content.append(RUST_MAIN);
    content
}


// ---------------------------------------------------------------------------
// The generated C++ parser

/// The comment and enumerator of the terminal `t` with index `i`.
pub open spec fn cpp_tok_content(i: nat, t: TokenV) -> Seq<char> {
    (match t {
        TokenV::Regex(r) => "\t\t//Regex: "@ + r.drop_first() + "\n"@,
        TokenV::Terminal(s) => "\t\t//Token: "@ + s + "\n"@,
        TokenV::EOF => "\t\t//EOF\n"@,
    }) + "\t\tTok"@ + dec(i) + "="@ + dec(i) + ",\n"@
}

/// The display name of the terminal `t`, its quotes escaped.
pub open spec fn cpp_tok_name(t: TokenV) -> Seq<char> {
    match t {
        TokenV::Regex(r) => replace_char("Regex("@ + r + ")"@, '"', "\\\""@),
        TokenV::Terminal(s) => replace_char("Token("@ + s + ")"@, '"', "\\\""@),
        TokenV::EOF => "EOF"@,
    }
}

/// The lexer line that recognizes the fixed terminal `t` with index `i`.
pub open spec fn cpp_tok_lex(i: nat, t: TokenV) -> Seq<char> {
    match t {
        TokenV::Terminal(s) => {
            let fixed = replace_char(s, '\\', "\\\\"@);
            "\tif(str.starts_with("@ + fixed + ")){v.emplace_back(Token::Tok"@ + dec(i) + ");return strlen("@ + fixed
                + ");}\n"@
        },
        _ => Seq::empty(),
    }
}

/// The entry of the terminal `t` with index `i` in the table of names.
pub open spec fn cpp_tok_str(i: nat, t: TokenV) -> Seq<char> {
    "\t[Token::Tok"@ + dec(i) + "] = \""@ + cpp_tok_name(t) + "\",\n"@
}

pub open spec fn cpp_tok_contents(ts: Seq<TokenV>, n: nat) -> Seq<char>
    decreases n,
{
    if n == 0 {
        Seq::empty()
    } else {
        cpp_tok_contents(ts, (n - 1) as nat) + cpp_tok_content((n - 1) as nat, ts[n - 1])
    }
}

pub open spec fn cpp_tok_lexes(ts: Seq<TokenV>, n: nat) -> Seq<char>
    decreases n,
{
    if n == 0 {
        Seq::empty()
    } else {
        cpp_tok_lexes(ts, (n - 1) as nat) + cpp_tok_lex((n - 1) as nat, ts[n - 1])
    }
}

pub open spec fn cpp_tok_strs(ts: Seq<TokenV>, n: nat) -> Seq<char>
    decreases n,
{
    if n == 0 {
        Seq::empty()
    } else {
        cpp_tok_strs(ts, (n - 1) as nat) + cpp_tok_str((n - 1) as nat, ts[n - 1])
    }
}

/// The pops of the arguments with index below `n`, last first, in C++.
pub open spec fn cpp_pops(args: Seq<Option<ArgV>>, n: nat) -> Seq<char>
    decreases n,
{
    if n == 0 {
        Seq::empty()
    } else {
        let k = (n - 1) as nat;
        (match args[k as int] {
            Some(a) => "\t\t\t\tauto a"@ + dec(k) + " = std::get<"@ + a.arg_type
                + ">(data_stack.back()); data_stack.pop_back();\n "@,
            None => "\t\t\t\tdata_stack.pop_back();\n"@,
        }) + "\t\t\t\tstate_stack.pop_back();\n"@ + cpp_pops(args, k)
    }
}

/// The pop of the argument with index `k` in C++: its value is read from the
/// top of the data stack, then both stacks lose their top.
pub open spec fn cpp_pop_line(a: Option<ArgV>, k: nat) -> Seq<char> {
    match a {
        Some(a) => "\t\t\t\tauto a"@ + dec(k) + " = std::get<"@ + a.arg_type + ">(data_stack.back()); data_stack.pop_back();\n "@
            + "\t\t\t\tstate_stack.pop_back();\n"@,
        None => "\t\t\t\tdata_stack.pop_back();\n"@ + "\t\t\t\tstate_stack.pop_back();\n"@,
    }
}

/// The pops of the arguments below `n` come after those of the later ones:
/// the pops for a reduction take the components from the last to the first.
pub proof fn lemma_cpp_pops_last_first(args: Seq<Option<ArgV>>, n: nat, m: nat)
    requires
        n <= m,
    ensures
        cpp_pops(args, n).is_suffix_of(cpp_pops(args, m)),
    decreases m,
{
    if n < m {
        lemma_cpp_pops_last_first(args, n, (m - 1) as nat);
        let k = (m - 1) as nat;
        let head = cpp_pop_line(args[k as int], k);
        assert(cpp_pops(args, m) =~= head + cpp_pops(args, k));
        let a = cpp_pops(args, n);
        let b = cpp_pops(args, k);
        assert(b.subrange(b.len() - a.len(), b.len() as int) == a);
        assert((head + b).subrange((head + b).len() - a.len(), (head + b).len() as int) =~= b.subrange(
            b.len() - a.len(),
            b.len() as int,
        ));
    } else {
        assert(cpp_pops(args, n).subrange(0, cpp_pops(args, n).len() as int) =~= cpp_pops(args, n));
    }
}

/// The pops of a reductend with one more component begin with the pop of
/// that last component, followed by the pops of the others: the top of the
/// data stack is read by the last argument.
pub proof fn lemma_cpp_pops_push(args: Seq<Option<ArgV>>, x: Option<ArgV>)
    ensures
        cpp_pops(args.push(x), args.len() + 1) == cpp_pop_line(x, args.len()) + cpp_pops(args, args.len()),
{
    lemma_cpp_pops_prefix(args, x, args.len());
    assert(args.push(x)[args.len() as int] == x);
    assert(cpp_pops(args.push(x), args.len() + 1) =~= cpp_pop_line(x, args.len()) + cpp_pops(args.push(x), args.len()));
}

proof fn lemma_cpp_pops_prefix(args: Seq<Option<ArgV>>, x: Option<ArgV>, n: nat)
    requires
        n <= args.len(),
    ensures
        cpp_pops(args.push(x), n) == cpp_pops(args, n),
    decreases n,
{
    if n > 0 {
        lemma_cpp_pops_prefix(args, x, (n - 1) as nat);
        assert(args.push(x)[n - 1] == args[n - 1]);
    }
}

/// What the reduction `red` with index `i` adds in C++: its function, its
/// case of the parse loop, and its return type.
pub open spec fn cpp_step(f: Fold, red: ReductionV, i: nat) -> Fold {
    match red.task {
        None => Fold { cases: f.cases + "\t\t\tcase "@ + idec(-i - 1) + ": break;\n"@, ..f },
        Some(t) => {
            let decl = ("\tauto reduction"@ + dec(i) + "("@ + cpp_params(t.args, t.args.len())).drop_last().drop_last()
                + ") -> "@ + t.return_type + " "@ + t.code + " \n"@;
            let case = "\t\t\tcase "@ + idec(-i - 1) + ":{\n"@ + cpp_pops(t.args, t.args.len())
                + "\t\t\t\tdata_stack.emplace_back(reduction"@ + dec(i) + "("@ + trim2(
                call_args(t.args, t.args.len(), "std::move(a"@, "), "@),
            ) + "));\n\t\t\t}\n\t\t\t\tbreak;\n"@;
            Fold { types: intern(f.types, t.return_type), decls: f.decls + decl, cases: f.cases + case }
        },
    }
}

pub open spec fn cpp_fold(reds: Seq<ReductionV>, n: nat) -> Fold
    decreases n,
{
    if n == 0 {
        Fold { types: seq!["std::string_view"@], decls: Seq::empty(), cases: Seq::empty() }
    } else {
        cpp_step(cpp_fold(reds, (n - 1) as nat), reds[n - 1], (n - 1) as nat)
    }
}

/// The types of `ts`, each followed by a comma.
pub open spec fn cpp_types(ts: Seq<Seq<char>>, n: nat) -> Seq<char>
    decreases n,
{
    if n == 0 {
        Seq::empty()
    } else {
        cpp_types(ts, (n - 1) as nat) + ts[n - 1] + ","@
    }
}

/// The C++ source of a parser for the automaton with terminals `terms`,
/// reductions `reds`, states `sts` and exported type `export`.
pub open spec fn cpp_source(
    terms: Seq<TokenV>,
    reds: Seq<ReductionV>,
    sts: Seq<AStateV>,
    export: Option<Seq<char>>,
) -> Seq<char> {
    let f = cpp_fold(reds, reds.len());
    let et = export_text(export);
    cpp_front(terms) + CPP_CLASS@ + f.decls + cpp_variant(f.types) + cpp_tables(sts, terms.len(), reds.len())
        + CPP_PARSE_0@ + et + CPP_PARSE_1@ + f.cases + CPP_PARSE_2@ + et + CPP_PARSE_3@ + "};\n\n"@
}

/// The head of the C++ source: the token kinds, the lexer of the fixed
/// terminals and the names of the terminals.
pub open spec fn cpp_front(terms: Seq<TokenV>) -> Seq<char> {
    let tl = terms.len();
    CPP_HEAD@ + cpp_tok_contents(terms, tl) + "\t} kind;\n\tstd::string_view data;\n};\n"@ + (CPP_LEX_HEAD@
        + cpp_tok_lexes(terms, tl) + CPP_LEX_TAIL@) + ("const char* to_str[] = {\n"@ + cpp_tok_strs(terms, tl)
        + "\n};"@)
}

/// The variant type of the values of the C++ parser, and its two stacks.
pub open spec fn cpp_variant(types: Seq<Seq<char>>) -> Seq<char> {
    "\tusing Type = std::variant<"@ + cpp_types(types, types.len()).drop_last() + ">;\n"@
        + "\tstd::vector<Type> data_stack;\n"@ + "\tstd::vector<long> state_stack;\n"@
}

/// The action and return tables of the C++ parser.
pub open spec fn cpp_tables(sts: Seq<AStateV>, tl: nat, rl: nat) -> Seq<char> {
    cpp_actions(sts, tl) + cpp_gotos(sts, rl)
}

/// The action table of the C++ parser.
pub open spec fn cpp_actions(sts: Seq<AStateV>, tl: nat) -> Seq<char> {
    let ns = sts.len();
    "\tconst long actions["@ + dec(ns) + "]["@ + dec(tl) + "]= {\n"@ + action_rows(sts, ns, tl, "{"@, "}"@)
        + "\t};\n\n"@
}

/// The return table of the C++ parser.
pub open spec fn cpp_gotos(sts: Seq<AStateV>, rl: nat) -> Seq<char> {
    let ns = sts.len();
    "\tconst long gotos["@ + dec(ns) + "]["@ + dec(rl) + "] = {\n"@ + goto_rows(sts, ns, rl, "{"@, "}"@)
        + "\t};\n\n"@
}

/// Appends the terminals' comments and enumerators to `content`, their lexer
/// lines to `lexing` and their names to `names`.
#[verifier::rlimit(50)]
fn push_cpp_tokens(content: &mut String, lexing: &mut String, names: &mut String, a: &Automaton)
    requires
        regexes_nonempty(tokens_view(a.terminals@)),
    ensures
        final(content)@ == old(content)@ + cpp_tok_contents(tokens_view(a.terminals@), a.terminals@.len() as nat),
        final(lexing)@ == old(lexing)@ + cpp_tok_lexes(tokens_view(a.terminals@), a.terminals@.len() as nat),
        final(names)@ == old(names)@ + cpp_tok_strs(tokens_view(a.terminals@), a.terminals@.len() as nat),
{
    let ghost tv = tokens_view(a.terminals@);
    let ghost c0 = content@;
    let ghost l0 = lexing@;
    let ghost n0 = names@;
    let n = a.terminals.len();
    let mut i: usize = 0;
    while i < n
        invariant
            tv == tokens_view(a.terminals@),
            regexes_nonempty(tv),
            n == tv.len(),
            i <= n,
            content@ == c0 + cpp_tok_contents(tv, i as nat),
            lexing@ == l0 + cpp_tok_lexes(tv, i as nat),
            names@ == n0 + cpp_tok_strs(tv, i as nat),
        decreases n - i,
    {
        assert(tv[i as int] == a.terminals@[i as int]@);
        push_cpp_token(content, lexing, names, &a.terminals[i], i);
        i = i + 1;
    }
}

/// Appends the comment and enumerator of the terminal `t` with index `i` to
/// `content`, its lexer line to `lexing` and its name to `names`.
#[verifier::rlimit(50)]
fn push_cpp_token(content: &mut String, lexing: &mut String, names: &mut String, t: &Token, i: usize)
    requires
        t@ matches TokenV::Regex(r) ==> r.len() >= 1,
    ensures
        final(content)@ == old(content)@ + cpp_tok_content(i as nat, t@),
        final(lexing)@ == old(lexing)@ + cpp_tok_lex(i as nat, t@),
        final(names)@ == old(names)@ + cpp_tok_str(i as nat, t@),
{
        let ghost lx = lexing@;
        let mut name = String::new();
        match t {
            Token::Regex(r) => {
                content.append("\t\t//Regex: ");
                push_tail(content, r.as_str());
                content.append("\n");
                let mut raw = String::from_str("Regex(");
                raw.append(r.as_str());
                raw.append(")");
                push_replaced(&mut name, raw.as_str(), '"', "\\\"");
            },
            Token::Terminal(t) => {
                content.append("\t\t//Token: ");
                content.append(t.as_str());
                content.append("\n");
                let mut fixed = String::new();
                push_replaced(&mut fixed, t.as_str(), '\\', "\\\\");
                lexing.append("\tif(str.starts_with(");
                lexing.append(fixed.as_str());
                lexing.append(")){v.emplace_back(Token::Tok");
                push_dec(lexing, i);
                lexing.append(");return strlen(");
                lexing.append(fixed.as_str());
                lexing.append(");}\n");
                let mut raw = String::from_str("Token(");
                raw.append(t.as_str());
                raw.append(")");
                push_replaced(&mut name, raw.as_str(), '"', "\\\"");
            },
            Token::EOF => {
                content.append("\t\t//EOF\n");
                name.append("EOF");
            },
        }
        content.append("\t\tTok");
        push_dec(content, i);
        content.append("=");
        push_dec(content, i);
        content.append(",\n");
        names.append("\t[Token::Tok");
        push_dec(names, i);
        names.append("] = \"");
        names.append(name.as_str());
        names.append("\",\n");
        proof {
            if !(t@ is Terminal) {
                assert(lexing@ =~= lx + Seq::<char>::empty());
            }
        }
}

/// Appends the pops of the arguments, last first, in C++.
fn push_cpp_pops(cases: &mut String, args: &Vec<Option<crate::automaton::Arg>>)
    ensures
        final(cases)@ == old(cases)@ + cpp_pops(
            args@.map_values(|a: Option<crate::automaton::Arg>| crate::automaton::arg_opt_view(a)),
            args@.len() as nat,
        ),
{
    let ghost av = args@.map_values(|a: Option<crate::automaton::Arg>| crate::automaton::arg_opt_view(a));
    let ghost c0 = cases@;
    let mut k: usize = args.len();
    proof {
        assert(cases@ =~= c0 + Seq::<char>::empty());
    }
    while k > 0
        invariant
            k <= args@.len(),
            av == args@.map_values(|a: Option<crate::automaton::Arg>| crate::automaton::arg_opt_view(a)),
            c0 + cpp_pops(av, args@.len() as nat) == cases@ + cpp_pops(av, k as nat),
        decreases k,
    {
        let ghost c1 = cases@;
        match &args[k - 1] {
            Some(arg) => {
                cases.append("\t\t\t\tauto a");
                push_dec(cases, k - 1);
                cases.append(" = std::get<");
                cases.append(arg.arg_type.as_str());
                cases.append(">(data_stack.back()); data_stack.pop_back();\n ");
            },
            None => {
                cases.append("\t\t\t\tdata_stack.pop_back();\n");
            },
        }
        cases.append("\t\t\t\tstate_stack.pop_back();\n");
        proof {
            assert(av[k - 1] == crate::automaton::arg_opt_view(args@[k - 1]));
            assert(cpp_pops(av, k as nat) == cases@.subrange(c1.len() as int, cases@.len() as int) + cpp_pops(av, (k - 1) as nat));
            assert(cases@ =~= c1 + cases@.subrange(c1.len() as int, cases@.len() as int));
        }
        k = k - 1;
    }
}

/// Appends the function of the reduction `red` with index `i` in C++ to
/// `content` and its parse case to `cases`.
#[verifier::rlimit(50)]
fn push_cpp_reduction(content: &mut String, cases: &mut String, types: &mut Vec<String>, red: &crate::automaton::Reduction, i: usize)
    requires
        i < isize::MAX,
    ensures
        ({
            let f = cpp_step(Fold { types: strs_view(old(types)@), decls: old(content)@, cases: old(cases)@ }, red@, i as nat);
            &&& strs_view(final(types)@) == f.types
            &&& final(content)@ == f.decls
            &&& final(cases)@ == f.cases
        }),
{
    match &red.task {
        None => {
            cases.append("\t\t\tcase ");
            push_reduce_code(cases, i);
            cases.append(": break;\n");
        },
        Some(task) => {
            let ghost tv = task@;
            let _ = intern_str(types, task.return_type.as_str());
            let mut piece = String::from_str("\tauto reduction");
            push_dec(&mut piece, i);
            piece.append("(");
            let mut callargs = String::new();
            push_params(&mut piece, &mut callargs, &task.args, false);
            proof {
                reveal_strlit("(");
                lemma_dec_nonempty(i as nat);
            }
            push_drop2(content, piece.as_str());
            content.append(") -> ");
            content.append(task.return_type.as_str());
            content.append(" ");
            content.append(task.code.as_str());
            content.append(" \n");
            cases.append("\t\t\tcase ");
            push_reduce_code(cases, i);
            cases.append(":{\n");
            push_cpp_pops(cases, &task.args);
            cases.append("\t\t\t\tdata_stack.emplace_back(reduction");
            push_dec(cases, i);
            cases.append("(");
            proof {
                reveal_strlit("), ");
                lemma_call_args_len(tv.args, tv.args.len(), "std::move(a"@, "), "@);
            }
            if callargs.as_str().unicode_len() > 0 {
                push_drop2(cases, callargs.as_str());
            }
            cases.append("));\n\t\t\t}\n\t\t\t\tbreak;\n");
        },
    }
}

/// Appends the reduction functions in C++ to `content` and their parse cases
/// to `cases`.
fn push_cpp_reductions(content: &mut String, cases: &mut String, types: &mut Vec<String>, a: &Automaton)
    requires
        tables_fit(*a),
        strs_view(old(types)@) == seq!["std::string_view"@],
        old(cases)@ == Seq::<char>::empty(),
    ensures
        ({
            let f = cpp_fold(reductions_view(a.reductions@), a.reductions@.len() as nat);
            &&& strs_view(final(types)@) == f.types
            &&& final(content)@ == old(content)@ + f.decls
            &&& final(cases)@ == f.cases
        }),
{
    let ghost reds = reductions_view(a.reductions@);
    let ghost c0 = content@;
    proof {
        assert(content@ =~= c0 + Seq::<char>::empty());
    }
    let nr = a.reductions.len();
    let mut i: usize = 0;
    while i < nr
        invariant
            tables_fit(*a),
            reds == reductions_view(a.reductions@),
            nr == reds.len(),
            i <= nr,
            strs_view(types@) == cpp_fold(reds, i as nat).types,
            content@ == c0 + cpp_fold(reds, i as nat).decls,
            cases@ == cpp_fold(reds, i as nat).cases,
        decreases nr - i,
    {
        let red = &a.reductions[i];
        assert(reds[i as int] == red@);
        push_cpp_reduction(content, cases, types, red, i);
        i = i + 1;
    }
}

/// Appends the types, separated by commas.
fn push_cpp_types(content: &mut String, types: &Vec<String>, Ghost(reds): Ghost<Seq<ReductionV>>)
    requires
        strs_view(types@) == cpp_fold(reds, reds.len()).types,
    ensures
        final(content)@ == old(content)@ + cpp_types(strs_view(types@), types@.len() as nat).drop_last(),
{
    let mut tt = String::new();
    let ghost tv = strs_view(types@);
    let mut k: usize = 0;
    while k < types.len()
        invariant
            tv == strs_view(types@),
            k <= tv.len(),
            tt@ == cpp_types(tv, k as nat),
        decreases tv.len() - k,
    {
        assert(tv[k as int] == types@[k as int]@);
        tt.append(types[k].as_str());
        tt.append(",");
        k = k + 1;
    }
    proof {
        reveal_strlit(",");
        assert(tv.len() >= 1) by {
            lemma_cpp_fold_types(reds, reds.len());
        }
        assert(tt@.len() >= 1);
    }
    push_drop1(content, tt.as_str());
}

/// Appends the head of the C++ source: the token kinds, the lexer of the
/// fixed terminals and the names of the terminals.
#[verifier::rlimit(50)]
fn push_cpp_front(content: &mut String, a: &Automaton)
    requires
        regexes_nonempty(tokens_view(a.terminals@)),
    ensures
        final(content)@ == old(content)@ + cpp_front(tokens_view(a.terminals@)),
{
    let ghost c0 = content@;
    content.append(CPP_HEAD);
    let mut names = String::from_str("const char* to_str[] = {\n");
    let mut lexing = String::from_str(CPP_LEX_HEAD);
    push_cpp_tokens(content, &mut lexing, &mut names, a);
    content.append("\t} kind;\n\tstd::string_view data;\n};\n");
    lexing.append(CPP_LEX_TAIL);
    content.append(lexing.as_str());
    names.append("\n};");
    content.append(names.as_str());
    proof {
        assert(content@ =~= c0 + cpp_front(tokens_view(a.terminals@)));
    }
}

/// Appends the variant type of the values of the C++ parser and its stacks.
fn push_cpp_variant(content: &mut String, types: &Vec<String>, Ghost(reds): Ghost<Seq<ReductionV>>)
    requires
        strs_view(types@) == cpp_fold(reds, reds.len()).types,
    ensures
        final(content)@ == old(content)@ + cpp_variant(strs_view(types@)),
{
    let ghost c0 = content@;
    content.append("\tusing Type = std::variant<");
    push_cpp_types(content, types, Ghost(reds));
    content.append(">;\n");
    content.append("\tstd::vector<Type> data_stack;\n");
    content.append("\tstd::vector<long> state_stack;\n");
    proof {
        assert(content@ =~= c0 + cpp_variant(strs_view(types@)));
    }
}

/// Appends the action and return tables of the C++ parser.
fn push_cpp_tables(content: &mut String, a: &Automaton)
    requires
        tables_fit(*a),
    ensures
        final(content)@ == old(content)@ + cpp_tables(
            astates_view(a.states@),
            a.terminals@.len() as nat,
            a.reductions@.len() as nat,
        ),
{
    let ghost c0 = content@;
    push_cpp_actions(content, a);
    push_cpp_gotos(content, a);
    proof {
        assert(content@ =~= c0 + cpp_tables(astates_view(a.states@), a.terminals@.len() as nat, a.reductions@.len() as nat));
    }
}

/// Appends the action table of the C++ parser.
#[verifier::rlimit(50)]
fn push_cpp_actions(content: &mut String, a: &Automaton)
    requires
        tables_fit(*a),
    ensures
        final(content)@ == old(content)@ + cpp_actions(astates_view(a.states@), a.terminals@.len() as nat),
{
    let ghost c0 = content@;
    content.append("\tconst long actions[");
    push_dec(content, a.states.len());
    content.append("][");
    push_dec(content, a.terminals.len());
    content.append("]= {\n");
    push_action_rows(content, a, "{", "}");
    content.append("\t};\n\n");
    proof {
        assert(content@ =~= c0 + cpp_actions(astates_view(a.states@), a.terminals@.len() as nat));
    }
}

/// Appends the return table of the C++ parser.
#[verifier::rlimit(50)]
fn push_cpp_gotos(content: &mut String, a: &Automaton)
    requires
        tables_fit(*a),
    ensures
        final(content)@ == old(content)@ + cpp_gotos(astates_view(a.states@), a.reductions@.len() as nat),
{
    let ghost c0 = content@;
    content.append("\tconst long gotos[");
    push_dec(content, a.states.len());
    content.append("][");
    push_dec(content, a.reductions.len());
    content.append("] = {\n");
    push_goto_rows(content, a, "{", "}");
    content.append("\t};\n\n");
    proof {
        assert(content@ =~= c0 + cpp_gotos(astates_view(a.states@), a.reductions@.len() as nat));
    }
}

/// The C++ source of a parser for the automaton: the token kinds, a lexer of
/// the fixed terminals, the names of the terminals, a function per reduction
/// with code, the action and return tables, and the parse loop.
#[verifier::rlimit(50)]
pub fn export_cpp(automaton: &Automaton) -> (r: String)
    requires
        tables_fit(*automaton),
        regexes_nonempty(tokens_view(automaton.terminals@)),
    ensures
        r@ == cpp_source(
            tokens_view(automaton.terminals@),
            reductions_view(automaton.reductions@),
            astates_view(automaton.states@),
            opt_view(automaton.export),
        ),
{
    let a = automaton;
    let mut content = String::new();
    push_cpp_front(&mut content, a);
    content.append(CPP_CLASS);
    let mut types: Vec<String> = Vec::new();
    types.push(String::from_str("std::string_view"));
    let mut cases = String::new();
    proof {
        assert(strs_view(types@) =~= seq!["std::string_view"@]);
    }
    push_cpp_reductions(&mut content, &mut cases, &mut types, a);
    let export_type = match &a.export {
        Some(e) => e.clone(),
        None => String::new(),
    };
    push_cpp_variant(&mut content, &types, Ghost(reductions_view(a.reductions@)));
    push_cpp_tables(&mut content, a);
    content.append(CPP_PARSE_0);
    content.append(export_type.as_str());
    content.append(CPP_PARSE_1);
    content.append(cases.as_str());
    content.append(CPP_PARSE_2);
    content.append(export_type.as_str());
    content.append(CPP_PARSE_3);
    content.append("};\n\n");
    proof {
        assert(Seq::<char>::empty() + cpp_front(tokens_view(a.terminals@)) =~= cpp_front(tokens_view(a.terminals@)));
    }
    content
}

pub proof fn lemma_cpp_fold_types(reds: Seq<ReductionV>, n: nat)
    ensures
        cpp_fold(reds, n).types.len() >= 1,
    decreases n,
{
    if n > 0 {
        lemma_cpp_fold_types(reds, (n - 1) as nat);
    }
}

} // verus!
