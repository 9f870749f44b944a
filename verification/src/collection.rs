use vstd::prelude::*;

use crate::closure::{
    EventV, ItemTable, HeadV, Selector, StateHead, advance, any_selected, call_src, calls_resolved, event,
    head_clean, head_fault, is_advance, is_closure, item_clean, la, lemma_fault_not_clean, nred,
    normalize_head, reduce_src, reductions_on, rp_of, sel_src, shift_src,
};
use crate::lr::{Error, ReductendPosition, State, StateV, find_rule};
use crate::parser::{Rule, RuleV, rules_view};

verus! {

// ---------------------------------------------------------------------------
// The transitions of a state head

/// Some item of `h` shifts the token `t`.
pub open spec fn shifts(rules: Seq<RuleV>, tab: &ItemTable, h: HeadV, t: int) -> bool {
    exists|i: int| 0 <= i < tab.np() && #[trigger] shift_src(rules, tab, h, i, t)
}

/// Some item of `h` calls the rule `ri`.
pub open spec fn calls(rules: Seq<RuleV>, tab: &ItemTable, h: HeadV, ri: int) -> bool {
    exists|i: int| 0 <= i < tab.np() && #[trigger] call_src(rules, tab, h, i, ri)
}

/// Some item of `h` reduces on the token `t`.
pub open spec fn reduces(rules: Seq<RuleV>, tab: &ItemTable, h: HeadV, t: int) -> bool {
    exists|i: int| 0 <= i < tab.np() && #[trigger] reduce_src(rules, tab, h, i, t)
}

/// `sel` selects some item of `h`.
pub open spec fn sel_ok(rules: Seq<RuleV>, tab: &ItemTable, h: HeadV, sel: Selector) -> bool {
    match sel {
        Selector::Shift(t) => t < tab.nt() && shifts(rules, tab, h, t as int),
        Selector::Call(ri) => calls(rules, tab, h, ri as int),
    }
}

/// `target` is the state that `h` moves to along `sel`: the closure of the
/// items of `h` that `sel` selects, with their dots moved on.
pub open spec fn successor(rules: Seq<RuleV>, tab: &ItemTable, h: HeadV, sel: Selector, target: HeadV) -> bool {
    exists|k: HeadV| #[trigger] is_advance(tab, h, sel_src(rules, tab, h, sel), k) && is_closure(rules, tab, k, target)
}

pub open spec fn rpos(ri: int, k: int) -> ReductendPosition {
    ReductendPosition { rule: ri as usize, reductend: k as usize }
}

/// Some entry of `goto` is for `rp`.
pub open spec fn has_goto(goto: Seq<(ReductendPosition, usize)>, rp: ReductendPosition) -> bool {
    exists|x: int| 0 <= x < goto.len() && (#[trigger] goto[x]).0 == rp
}

pub open spec fn rp_lt(a: ReductendPosition, b: ReductendPosition) -> bool {
    a.rule < b.rule || (a.rule == b.rule && a.reductend < b.reductend)
}

/// The shift entries of a state with head `h`: one for each token that some
/// item shifts, in increasing order, each leading to the successor state.
pub open spec fn next_ok(rules: Seq<RuleV>, tab: &ItemTable, hs: Seq<HeadV>, h: HeadV, next: Seq<(usize, usize)>) -> bool {
    &&& forall|x: int|
        0 <= x < next.len() ==> {
            let e = #[trigger] next[x];
            &&& e.0 < tab.nt()
            &&& e.1 < hs.len()
            &&& shifts(rules, tab, h, e.0 as int)
            &&& successor(rules, tab, h, Selector::Shift(e.0), hs[e.1 as int])
        }
    &&& forall|x: int, y: int| 0 <= x < y < next.len() ==> (#[trigger] next[x]).0 < (#[trigger] next[y]).0
    &&& forall|t: int|
        0 <= t < tab.nt() && #[trigger] shifts(rules, tab, h, t) ==> exists|x: int|
            0 <= x < next.len() && (#[trigger] next[x]).0 == t
}

/// The return entries of a state with head `h`: one for each reductend of
/// each rule that some item calls, in increasing order, each leading to the
/// state after that rule.
pub open spec fn goto_ok(
    rules: Seq<RuleV>,
    tab: &ItemTable,
    hs: Seq<HeadV>,
    h: HeadV,
    goto: Seq<(ReductendPosition, usize)>,
) -> bool {
    &&& forall|x: int|
        0 <= x < goto.len() ==> {
            let e = #[trigger] goto[x];
            &&& calls(rules, tab, h, e.0.rule as int)
            &&& e.0.reductend < nred(rules, e.0.rule as int)
            &&& e.1 < hs.len()
            &&& successor(rules, tab, h, Selector::Call(e.0.rule), hs[e.1 as int])
        }
    &&& forall|x: int, y: int| 0 <= x < y < goto.len() ==> rp_lt((#[trigger] goto[x]).0, (#[trigger] goto[y]).0)
    &&& forall|ri: int, k: int|
        0 <= ri < rules.len() && calls(rules, tab, h, ri) && 0 <= k < nred(rules, ri) ==> #[trigger] has_goto(goto, rpos(ri, k))
}

/// The reduce entries of a state with head `h`: one for each token on which
/// some item reduces, in increasing order, with the reductends that do.
pub open spec fn reduce_ok(
    rules: Seq<RuleV>,
    tab: &ItemTable,
    h: HeadV,
    reduce: Seq<(usize, Seq<ReductendPosition>)>,
) -> bool {
    &&& forall|x: int|
        0 <= x < reduce.len() ==> {
            let e = #[trigger] reduce[x];
            &&& e.0 < tab.nt()
            &&& e.1.len() > 0
            &&& e.1.no_duplicates()
            &&& forall|rp: ReductendPosition| #[trigger] e.1.contains(rp) <==> exists|i: int|
                0 <= i < tab.np() && reduce_src(rules, tab, h, i, e.0 as int) && rp_of(tab.positions@[i]) == rp
        }
    &&& forall|x: int, y: int| 0 <= x < y < reduce.len() ==> (#[trigger] reduce[x]).0 < (#[trigger] reduce[y]).0
    &&& forall|t: int|
        0 <= t < tab.nt() && #[trigger] reduces(rules, tab, h, t) ==> exists|x: int|
            0 <= x < reduce.len() && (#[trigger] reduce[x]).0 == t
}

/// The state `st` implements the head `h`, its successors being states of `hs`.
pub open spec fn state_ok(rules: Seq<RuleV>, tab: &ItemTable, hs: Seq<HeadV>, h: HeadV, st: StateV) -> bool {
    &&& calls_resolved(rules, tab, h)
    &&& next_ok(rules, tab, hs, h, st.next)
    &&& goto_ok(rules, tab, hs, h, st.goto)
    &&& reduce_ok(rules, tab, h, st.reduce)
}

// ---------------------------------------------------------------------------
// The states found so far

pub open spec fn heads_view(hs: Seq<StateHead>) -> Seq<HeadV> {
    hs.map_values(|h: StateHead| h@)
}

/// `k` holds the beginnings of the reductends of the rule `s`, each with the
/// end-of-input token as its lookahead.
pub open spec fn is_start_kernel(tab: &ItemTable, s: int, k: HeadV) -> bool {
    &&& tab.hwf(k)
    &&& forall|j: int|
        0 <= j < tab.np() ==> (#[trigger] k.present[j] <==> (tab.positions@[j].rule == s
            && tab.positions@[j].component == 0))
    &&& forall|j: int, u: int|
        0 <= j < tab.np() && 0 <= u < tab.nt() ==> (#[trigger] la(k, tab.nt(), j, u) <==> (
        tab.positions@[j].rule == s && tab.positions@[j].component == 0 && u == 0))
}

/// `h` is the initial state of a grammar whose start rule is `s`.
pub open spec fn start_closure(rules: Seq<RuleV>, tab: &ItemTable, s: int, h: HeadV) -> bool {
    exists|k: HeadV| #[trigger] is_start_kernel(tab, s, k) && is_closure(rules, tab, k, h)
}

/// `hs` lists distinct states, the first the initial one, each other one
/// reached from an earlier one by a transition.
pub open spec fn explored(rules: Seq<RuleV>, tab: &ItemTable, s: int, hs: Seq<HeadV>) -> bool {
    &&& hs.len() >= 1
    &&& start_closure(rules, tab, s, hs[0])
    &&& forall|a: int, b: int| 0 <= a < b < hs.len() ==> #[trigger] hs[a] != #[trigger] hs[b]
    &&& forall|j: int| 0 <= j < hs.len() ==> tab.hwf(#[trigger] hs[j])
    &&& forall|j: int| 1 <= j < hs.len() ==> #[trigger] reached(rules, tab, hs, j)
}

/// The state `j` of `hs` is reached from an earlier one by a transition.
pub open spec fn reached(rules: Seq<RuleV>, tab: &ItemTable, hs: Seq<HeadV>, j: int) -> bool {
    exists|i: int, sel: Selector|
        0 <= i < j && sel_ok(rules, tab, hs[i], sel) && #[trigger] successor(rules, tab, hs[i], sel, hs[j])
}

pub open spec fn extends(a: Seq<HeadV>, b: Seq<HeadV>) -> bool {
    a.len() <= b.len() && forall|j: int| 0 <= j < a.len() ==> #[trigger] b[j] == a[j]
}

pub proof fn lemma_state_ok_extends(
    rules: Seq<RuleV>,
    tab: &ItemTable,
    hs: Seq<HeadV>,
    hs2: Seq<HeadV>,
    h: HeadV,
    st: StateV,
)
    requires
        state_ok(rules, tab, hs, h, st),
        extends(hs, hs2),
    ensures
        state_ok(rules, tab, hs2, h, st),
{
    assert forall|x: int| 0 <= x < st.next.len() implies {
        let e = #[trigger] st.next[x];
        &&& e.0 < tab.nt()
        &&& e.1 < hs2.len()
        &&& shifts(rules, tab, h, e.0 as int)
        &&& successor(rules, tab, h, Selector::Shift(e.0), hs2[e.1 as int])
    } by {
        assert(hs2[st.next[x].1 as int] == hs[st.next[x].1 as int]);
    }
    assert forall|x: int| 0 <= x < st.goto.len() implies {
        let e = #[trigger] st.goto[x];
        &&& calls(rules, tab, h, e.0.rule as int)
        &&& e.0.reductend < nred(rules, e.0.rule as int)
        &&& e.1 < hs2.len()
        &&& successor(rules, tab, h, Selector::Call(e.0.rule), hs2[e.1 as int])
    } by {
        assert(hs2[st.goto[x].1 as int] == hs[st.goto[x].1 as int]);
    }
}

/// Limit on the number of states: a vector cannot hold more.
pub open spec fn too_many_states_message() -> Seq<char> {
    "Too many states!"@
}

/// `e` is the error raised where a vector cannot hold another state.
pub open spec fn too_many_states(e: Error) -> bool {
    e matches Error::Error(m) && m@ == too_many_states_message()
}

/// The index of the state `h` in `heads`, added at the end where it is new.
pub fn find_or_add(heads: &mut Vec<StateHead>, h: StateHead) -> (r: Result<usize, Error>)
    ensures
        match r {
            Ok(i) => {
                &&& i < final(heads)@.len()
                &&& final(heads)@[i as int]@ == h@
                &&& (heads_view(final(heads)@) == heads_view(old(heads)@) || (heads_view(final(heads)@)
                    == heads_view(old(heads)@).push(h@) && !heads_view(old(heads)@).contains(h@)))
            },
            Err(e) => heads_view(final(heads)@) == heads_view(old(heads)@) && old(heads)@.len() == usize::MAX
                && too_many_states(e),
        },
{
    let ghost hv = heads_view(heads@);
    let n = heads.len();
    let mut i: usize = 0;
    while i < n
        invariant
            n == heads@.len(),
            i <= n,
            hv == heads_view(heads@),
            forall|j: int| 0 <= j < i ==> hv[j] != h@,
        decreases n - i,
    {
        if heads[i].same(&h) {
            return Ok(i);
        }
        i = i + 1;
    }
    if n == usize::MAX {
        proof {
            reveal_strlit("Too many states!");
        }
        return Err(Error::Error(String::from_str("Too many states!")));
    }
    heads.push(h);
    proof {
        assert(heads_view(heads@) =~= hv.push(h@));
        if hv.contains(h@) {
            let j = choose|j: int| 0 <= j < hv.len() && hv[j] == h@;
        }
    }
    Ok(n)
}


pub proof fn lemma_explored_push(
    rules: Seq<RuleV>,
    tab: &ItemTable,
    s: int,
    hs: Seq<HeadV>,
    cur: int,
    sel: Selector,
    c: HeadV,
)
    requires
        explored(rules, tab, s, hs),
        0 <= cur < hs.len(),
        sel_ok(rules, tab, hs[cur], sel),
        successor(rules, tab, hs[cur], sel, c),
        !hs.contains(c),
        tab.hwf(c),
    ensures
        explored(rules, tab, s, hs.push(c)),
        extends(hs, hs.push(c)),
{
    let hs2 = hs.push(c);
    assert(hs2[0] == hs[0]);
    assert forall|a: int, b: int| 0 <= a < b < hs2.len() implies #[trigger] hs2[a] != #[trigger] hs2[b] by {
        if b == hs.len() {
            assert(hs2[a] == hs[a]);
        } else {
            assert(hs2[a] == hs[a] && hs2[b] == hs[b]);
        }
    }
    assert forall|j: int| 0 <= j < hs2.len() implies tab.hwf(#[trigger] hs2[j]) by {
        if j < hs.len() {
            assert(hs2[j] == hs[j]);
        }
    }
    assert forall|j: int| 1 <= j < hs2.len() implies #[trigger] reached(rules, tab, hs2, j) by {
        if j == hs.len() {
            assert(hs2[cur] == hs[cur]);
            assert(successor(rules, tab, hs2[cur], sel, hs2[j]));
        } else {
            assert(hs2[j] == hs[j]);
            assert(reached(rules, tab, hs, j));
            let (i, sel2) = choose|i: int, sel2: Selector|
                0 <= i < j && sel_ok(rules, tab, hs[i], sel2) && #[trigger] successor(rules, tab, hs[i], sel2, hs[j]);
            assert(hs2[i] == hs[i]);
            assert(successor(rules, tab, hs2[i], sel2, hs2[j]));
        }
    }
    assert(explored(rules, tab, s, hs2));
}

/// The construction can handle every state of `hs`.
pub open spec fn all_clean(rules: Seq<RuleV>, tab: &ItemTable, hs: Seq<HeadV>) -> bool {
    forall|j: int| 0 <= j < hs.len() ==> head_clean(rules, tab, #[trigger] hs[j])
}

/// Exploring from the initial state reaches, after states that the
/// construction handles, the last state of `hs`, on which it fails with `e`.
pub open spec fn fails_at_end(rules: Seq<RuleV>, tab: &ItemTable, s: int, hs: Seq<HeadV>, e: Error) -> bool {
    &&& explored(rules, tab, s, hs)
    &&& all_clean(rules, tab, hs.drop_last())
    &&& head_fault(rules, tab, hs.last(), e)
}

pub proof fn lemma_fails_at_end(
    rules: Seq<RuleV>,
    tab: &ItemTable,
    s: int,
    hs: Seq<HeadV>,
    cur: int,
    sel: Selector,
    k: HeadV,
    c: HeadV,
    e: Error,
)
    requires
        explored(rules, tab, s, hs),
        all_clean(rules, tab, hs),
        0 <= cur < hs.len(),
        sel_ok(rules, tab, hs[cur], sel),
        is_advance(tab, hs[cur], sel_src(rules, tab, hs[cur], sel), k),
        is_closure(rules, tab, k, c),
        head_fault(rules, tab, c, e),
    ensures
        fails_at_end(rules, tab, s, hs.push(c), e),
{
    assert(successor(rules, tab, hs[cur], sel, c));
    lemma_fault_not_clean(rules, tab, c, e);
    if hs.contains(c) {
        let j = choose|j: int| 0 <= j < hs.len() && hs[j] == c;
        assert(head_clean(rules, tab, hs[j]));
    }
    lemma_explored_push(rules, tab, s, hs, cur, sel, c);
    assert(hs.push(c).drop_last() =~= hs);
}

pub proof fn lemma_all_clean_push(rules: Seq<RuleV>, tab: &ItemTable, hs: Seq<HeadV>, c: HeadV)
    requires
        all_clean(rules, tab, hs),
        head_clean(rules, tab, c),
    ensures
        all_clean(rules, tab, hs.push(c)),
{
    assert forall|j: int| 0 <= j < hs.push(c).len() implies head_clean(rules, tab, #[trigger] hs.push(c)[j]) by {
        if j < hs.len() {
            assert(hs.push(c)[j] == hs[j]);
        }
    }
}

/// The kernel of the initial state: the beginnings of the reductends of the
/// rule `s`, each with the end-of-input token as its lookahead.
pub fn start_head(rules: &Vec<Rule>, tab: &ItemTable, s: usize) -> (r: StateHead)
    requires
        tab.wf(rules_view(rules@)),
    ensures
        is_start_kernel(tab, s as int, r@),
{
    let ghost rv = rules_view(rules@);
    let np = tab.positions.len();
    let nt = tab.tokens.len();
    let mut k = crate::closure::new_head(np, nt);
    proof {
        assert forall|i: int, u: int| 0 <= i < np && 0 <= u < nt implies !#[trigger] la(k@, nt as int, i, u) by {
        }
    }
    let mut j: usize = 0;
    while j < np
        invariant
            tab.wf(rv),
            np == tab.np(),
            nt == tab.nt(),
            j <= np,
            tab.hwf(k@),
            forall|j2: int|
                0 <= j2 < np ==> (#[trigger] k@.present[j2] <==> (j2 < j && tab.positions@[j2].rule == s
                    && tab.positions@[j2].component == 0)),
            forall|j2: int, u: int|
                0 <= j2 < np && 0 <= u < nt ==> (#[trigger] la(k@, nt as int, j2, u) <==> (j2 < j
                    && tab.positions@[j2].rule == s && tab.positions@[j2].component == 0 && u == 0)),
        decreases np - j,
    {
        let p = tab.positions[j];
        if p.rule == s && p.component == 0 {
            let ghost k0 = k@;
            crate::closure::set_flag(&mut k.present, j);
            proof {
                assert forall|i: int, u: int|
                    0 <= i < tab.np() && 0 <= u < tab.nt() && #[trigger] la(k@, tab.nt(), i, u) implies k@.present[i] by {
                    assert(la(k0, tab.nt(), i, u));
                }
            }
            let ghost k1 = k@;
            crate::closure::add_lookahead(&mut k, tab, j, 0, Ghost(rv));
            proof {
                assert forall|j2: int| 0 <= j2 < np implies (#[trigger] k@.present[j2] <==> (j2 < j + 1
                    && tab.positions@[j2].rule == s && tab.positions@[j2].component == 0)) by {
                    assert(k@.present[j2] == k1.present[j2]);
                    assert(k1.present[j2] == (k0.present[j2] || j2 == j));
                }
                assert forall|j2: int, u: int| 0 <= j2 < np && 0 <= u < nt implies (#[trigger] la(k@, nt as int, j2, u) <==> (j2 < j + 1
                    && tab.positions@[j2].rule == s && tab.positions@[j2].component == 0 && u == 0)) by {
                    assert(la(k1, nt as int, j2, u) == la(k0, nt as int, j2, u));
                    if la(k1, nt as int, j2, u) {
                        assert(la(k@, nt as int, j2, u));
                    }
                }
            }
        }
        j = j + 1;
    }
    k
}

/// The shift entries of the state `h`, adding the states they lead to.
fn build_next(
    rules: &Vec<Rule>,
    tab: &ItemTable,
    heads: &mut Vec<StateHead>,
    cur: usize,
    h: &StateHead,
    Ghost(s): Ghost<int>,
) -> (r: Result<Vec<(usize, usize)>, Error>)
    requires
        tab.wf(rules_view(rules@)),
        explored(rules_view(rules@), tab, s, heads_view(old(heads)@)),
        all_clean(rules_view(rules@), tab, heads_view(old(heads)@)),
        cur < old(heads)@.len(),
        h@ == heads_view(old(heads)@)[cur as int],
    ensures
        explored(rules_view(rules@), tab, s, heads_view(final(heads)@)),
        all_clean(rules_view(rules@), tab, heads_view(final(heads)@)),
        extends(heads_view(old(heads)@), heads_view(final(heads)@)),
        match r {
            Ok(next) => next_ok(rules_view(rules@), tab, heads_view(final(heads)@), h@, next@),
            Err(e) => (exists|hs: Seq<HeadV>| #[trigger] fails_at_end(rules_view(rules@), tab, s, hs, e)) || (final(heads)@.len() == usize::MAX && too_many_states(e)),
        },
{
    let ghost rv = rules_view(rules@);
    let ghost hs0 = heads_view(heads@);
    let nt = tab.tokens.len();
    let mut next: Vec<(usize, usize)> = Vec::new();
    let mut t: usize = 0;
    while t < nt
        invariant
            rv == rules_view(rules@),
            tab.wf(rv),
            nt == tab.nt(),
            cur < hs0.len(),
            h@ == hs0[cur as int],
            t <= nt,
            explored(rv, tab, s, heads_view(heads@)),
            all_clean(rv, tab, heads_view(heads@)),
            hs0 == heads_view(old(heads)@),
            extends(hs0, heads_view(heads@)),
            forall|x: int|
                0 <= x < next@.len() ==> {
                    let e = #[trigger] next@[x];
                    &&& e.0 < t
                    &&& e.1 < heads@.len()
                    &&& shifts(rv, tab, h@, e.0 as int)
                    &&& successor(rv, tab, h@, Selector::Shift(e.0), heads_view(heads@)[e.1 as int])
                },
            forall|x: int, y: int| 0 <= x < y < next@.len() ==> (#[trigger] next@[x]).0 < (#[trigger] next@[y]).0,
            forall|t2: int|
                0 <= t2 < t && #[trigger] shifts(rv, tab, h@, t2) ==> exists|x: int|
                    0 <= x < next@.len() && (#[trigger] next@[x]).0 == t2,
        decreases nt - t,
    {
        let sel = Selector::Shift(t);
        proof {
            assert(tab.hwf(heads_view(heads@)[cur as int]));
        }
        if any_selected(rules, tab, h, &sel) {
            let k = advance(rules, tab, h, &sel);
            proof {
                let i0 = choose|i: int| 0 <= i < tab.np() && #[trigger] (sel_src(rv, tab, h@, sel))(i);
                assert(shift_src(rv, tab, h@, i0, t as int));
                assert(shifts(rv, tab, h@, t as int));
                assert(heads_view(heads@)[cur as int] == h@);
            }
            let c = match normalize_head(rules, tab, &k) {
                Ok(c) => c,
                Err(e) => {
                    proof {
                        let cf = choose|cf: HeadV| #[trigger] is_closure(rv, tab, k@, cf) && head_fault(rv, tab, cf, e);
                        lemma_fails_at_end(rv, tab, s, heads_view(heads@), cur as int, sel, k@, cf, e);
                    }
                    return Err(e);
                },
            };
            let ghost hsb = heads_view(heads@);
            let ghost cv = c@;
            let idx = match find_or_add(heads, c) {
                Ok(i) => i,
                Err(e) => return Err(e),
            };
            proof {
                assert(is_advance(tab, h@, sel_src(rv, tab, h@, sel), k@) && is_closure(rv, tab, k@, cv));
                assert(successor(rv, tab, h@, sel, cv));
                if heads_view(heads@) != hsb {
                    assert(hsb[cur as int] == h@);
                    lemma_explored_push(rv, tab, s, hsb, cur as int, sel, cv);
                    lemma_all_clean_push(rv, tab, hsb, cv);
                }
                assert(heads_view(heads@)[idx as int] == cv);
            }
            let ghost old_next = next@;
            next.push((t, idx));
            proof {
                assert forall|t2: int|
                    0 <= t2 < t + 1 && #[trigger] shifts(rv, tab, h@, t2) implies exists|x: int|
                        0 <= x < next@.len() && (#[trigger] next@[x]).0 == t2 by {
                    if t2 == t {
                        assert(next@[old_next.len() as int].0 == t2);
                    } else {
                        let x = choose|x: int| 0 <= x < old_next.len() && (#[trigger] old_next[x]).0 == t2;
                        assert(next@[x] == old_next[x]);
                    }
                }
            }
        } else {
            proof {
                if shifts(rv, tab, h@, t as int) {
                    let i0 = choose|i: int| 0 <= i < tab.np() && #[trigger] shift_src(rv, tab, h@, i, t as int);
                    assert((sel_src(rv, tab, h@, sel))(i0));
                }
            }
        }
        t = t + 1;
    }
    Ok(next)
}


/// The return entries of the state `h`, adding the states they lead to.
fn build_goto(
    rules: &Vec<Rule>,
    tab: &ItemTable,
    heads: &mut Vec<StateHead>,
    cur: usize,
    h: &StateHead,
    Ghost(s): Ghost<int>,
) -> (r: Result<Vec<(ReductendPosition, usize)>, Error>)
    requires
        tab.wf(rules_view(rules@)),
        explored(rules_view(rules@), tab, s, heads_view(old(heads)@)),
        all_clean(rules_view(rules@), tab, heads_view(old(heads)@)),
        cur < old(heads)@.len(),
        h@ == heads_view(old(heads)@)[cur as int],
    ensures
        explored(rules_view(rules@), tab, s, heads_view(final(heads)@)),
        all_clean(rules_view(rules@), tab, heads_view(final(heads)@)),
        extends(heads_view(old(heads)@), heads_view(final(heads)@)),
        match r {
            Ok(goto) => goto_ok(rules_view(rules@), tab, heads_view(final(heads)@), h@, goto@),
            Err(e) => (exists|hs: Seq<HeadV>| #[trigger] fails_at_end(rules_view(rules@), tab, s, hs, e)) || (final(heads)@.len() == usize::MAX && too_many_states(e)),
        },
{
    let ghost rv = rules_view(rules@);
    let ghost hs0 = heads_view(heads@);
    let nr = rules.len();
    let mut goto: Vec<(ReductendPosition, usize)> = Vec::new();
    let mut ri: usize = 0;
    while ri < nr
        invariant
            rv == rules_view(rules@),
            nr == rv.len(),
            tab.wf(rv),
            cur < hs0.len(),
            h@ == hs0[cur as int],
            ri <= nr,
            explored(rv, tab, s, heads_view(heads@)),
            all_clean(rv, tab, heads_view(heads@)),
            hs0 == heads_view(old(heads)@),
            extends(hs0, heads_view(heads@)),
            forall|x: int|
                0 <= x < goto@.len() ==> {
                    let e = #[trigger] goto@[x];
                    &&& e.0.rule < ri
                    &&& calls(rv, tab, h@, e.0.rule as int)
                    &&& e.0.reductend < nred(rv, e.0.rule as int)
                    &&& e.1 < heads@.len()
                    &&& successor(rv, tab, h@, Selector::Call(e.0.rule), heads_view(heads@)[e.1 as int])
                },
            forall|x: int, y: int| 0 <= x < y < goto@.len() ==> rp_lt((#[trigger] goto@[x]).0, (#[trigger] goto@[y]).0),
            forall|ri2: int, k: int|
                0 <= ri2 < ri && calls(rv, tab, h@, ri2) && 0 <= k < nred(rv, ri2) ==> #[trigger] has_goto(goto@, rpos(ri2, k)),
        decreases nr - ri,
    {
        let sel = Selector::Call(ri);
        proof {
            assert(tab.hwf(heads_view(heads@)[cur as int]));
        }
        if any_selected(rules, tab, h, &sel) {
            let k = advance(rules, tab, h, &sel);
            proof {
                let i0 = choose|i: int| 0 <= i < tab.np() && #[trigger] (sel_src(rv, tab, h@, sel))(i);
                assert(call_src(rv, tab, h@, i0, ri as int));
                assert(calls(rv, tab, h@, ri as int));
                assert(heads_view(heads@)[cur as int] == h@);
            }
            let c = match normalize_head(rules, tab, &k) {
                Ok(c) => c,
                Err(e) => {
                    proof {
                        let cf = choose|cf: HeadV| #[trigger] is_closure(rv, tab, k@, cf) && head_fault(rv, tab, cf, e);
                        lemma_fails_at_end(rv, tab, s, heads_view(heads@), cur as int, sel, k@, cf, e);
                    }
                    return Err(e);
                },
            };
            let ghost hsb = heads_view(heads@);
            let ghost cv = c@;
            let idx = match find_or_add(heads, c) {
                Ok(i) => i,
                Err(e) => return Err(e),
            };
            proof {
                assert(is_advance(tab, h@, sel_src(rv, tab, h@, sel), k@) && is_closure(rv, tab, k@, cv));
                assert(successor(rv, tab, h@, sel, cv));
                if heads_view(heads@) != hsb {
                    assert(hsb[cur as int] == h@);
                    lemma_explored_push(rv, tab, s, hsb, cur as int, sel, cv);
                    lemma_all_clean_push(rv, tab, hsb, cv);
                }
                assert(heads_view(heads@)[idx as int] == cv);
            }
            let nk = rules[ri].reductends.reductends.len();
            assert(nk == nred(rv, ri as int));
            let ghost g0 = goto@;
            let mut kk: usize = 0;
            while kk < nk
                invariant
                    rv == rules_view(rules@),
                    tab.wf(rv),
                    ri < nr == rv.len(),
                    nk == nred(rv, ri as int),
                    kk <= nk,
                    idx < heads@.len(),
                    calls(rv, tab, h@, ri as int),
                    successor(rv, tab, h@, sel, heads_view(heads@)[idx as int]),
                    sel == Selector::Call(ri),
                    goto@.len() == g0.len() + kk,
                    forall|x: int| 0 <= x < g0.len() ==> #[trigger] goto@[x] == g0[x],
                    forall|x: int| 0 <= x < kk ==> #[trigger] goto@[g0.len() + x] == (rpos(ri as int, x), idx),
                    forall|x: int|
                        0 <= x < g0.len() ==> {
                            let e = #[trigger] g0[x];
                            &&& e.0.rule < ri
                            &&& calls(rv, tab, h@, e.0.rule as int)
                            &&& e.0.reductend < nred(rv, e.0.rule as int)
                            &&& e.1 < heads@.len()
                            &&& successor(rv, tab, h@, Selector::Call(e.0.rule), heads_view(heads@)[e.1 as int])
                        },
                    forall|x: int, y: int| 0 <= x < y < g0.len() ==> rp_lt((#[trigger] g0[x]).0, (#[trigger] g0[y]).0),
                    forall|ri2: int, k: int|
                        0 <= ri2 < ri && calls(rv, tab, h@, ri2) && 0 <= k < nred(rv, ri2) ==> #[trigger] has_goto(g0, rpos(ri2, k)),
                decreases nk - kk,
            {
                goto.push((ReductendPosition { rule: ri, reductend: kk }, idx));
                kk = kk + 1;
            }
            proof {
                assert forall|x: int|
                    0 <= x < goto@.len() implies {
                        let e = #[trigger] goto@[x];
                        &&& e.0.rule < ri + 1
                        &&& calls(rv, tab, h@, e.0.rule as int)
                        &&& e.0.reductend < nred(rv, e.0.rule as int)
                        &&& e.1 < heads@.len()
                        &&& successor(rv, tab, h@, Selector::Call(e.0.rule), heads_view(heads@)[e.1 as int])
                    } by {
                    if x < g0.len() {
                        assert(goto@[x] == g0[x]);
                    } else {
                        assert(goto@[g0.len() + (x - g0.len())] == (rpos(ri as int, x - g0.len()), idx));
                    }
                }
                assert forall|x: int, y: int| 0 <= x < y < goto@.len() implies rp_lt((#[trigger] goto@[x]).0, (#[trigger] goto@[y]).0) by {
                    if y < g0.len() {
                        assert(goto@[x] == g0[x] && goto@[y] == g0[y]);
                    } else if x < g0.len() {
                        assert(goto@[x] == g0[x]);
                        assert(goto@[g0.len() + (y - g0.len())] == (rpos(ri as int, y - g0.len()), idx));
                    } else {
                        assert(goto@[g0.len() + (x - g0.len())] == (rpos(ri as int, x - g0.len()), idx));
                        assert(goto@[g0.len() + (y - g0.len())] == (rpos(ri as int, y - g0.len()), idx));
                    }
                }
                assert forall|ri2: int, k: int|
                    0 <= ri2 < ri + 1 && calls(rv, tab, h@, ri2) && 0 <= k < nred(rv, ri2) implies #[trigger] has_goto(goto@, rpos(ri2, k)) by {
                    if ri2 < ri {
                        assert(has_goto(g0, rpos(ri2, k)));
                        let x = choose|x: int| 0 <= x < g0.len() && (#[trigger] g0[x]).0 == rpos(ri2, k);
                        assert(goto@[x] == g0[x]);
                    } else {
                        assert(goto@[g0.len() + k] == (rpos(ri as int, k), idx));
                    }
                }
            }
        } else {
            proof {
                assert forall|ri2: int, k: int|
                    0 <= ri2 < ri + 1 && calls(rv, tab, h@, ri2) && 0 <= k < nred(rv, ri2) implies #[trigger] has_goto(goto@, rpos(ri2, k)) by {
                    if ri2 == ri {
                        let i0 = choose|i: int| 0 <= i < tab.np() && #[trigger] call_src(rv, tab, h@, i, ri as int);
                        assert((sel_src(rv, tab, h@, sel))(i0));
                    }
                }
            }
        }
        ri = ri + 1;
    }
    proof {
        assert forall|ri2: int, k: int|
            0 <= ri2 < rv.len() && calls(rv, tab, h@, ri2) && 0 <= k < nred(rv, ri2) implies #[trigger] has_goto(goto@, rpos(ri2, k)) by {
        }
    }
    Ok(goto)
}

/// The reduce entries of the state `h`.
fn build_reduce(rules: &Vec<Rule>, tab: &ItemTable, h: &StateHead) -> (r: Vec<(usize, Vec<ReductendPosition>)>)
    requires
        tab.wf(rules_view(rules@)),
        tab.hwf(h@),
    ensures
        reduce_ok(rules_view(rules@), tab, h@, crate::lr::reduce_view(r@)),
{
    let ghost rv = rules_view(rules@);
    let nt = tab.tokens.len();
    let mut out: Vec<(usize, Vec<ReductendPosition>)> = Vec::new();
    let mut t: usize = 0;
    while t < nt
        invariant
            rv == rules_view(rules@),
            tab.wf(rv),
            tab.hwf(h@),
            nt == tab.nt(),
            t <= nt,
            forall|x: int|
                0 <= x < out@.len() ==> {
                    let e = #[trigger] crate::lr::reduce_view(out@)[x];
                    &&& e.0 < t
                    &&& e.1.len() > 0
                    &&& e.1.no_duplicates()
                    &&& forall|rp: ReductendPosition| #[trigger] e.1.contains(rp) <==> exists|i: int|
                        0 <= i < tab.np() && reduce_src(rv, tab, h@, i, e.0 as int) && rp_of(tab.positions@[i]) == rp
                },
            forall|x: int, y: int|
                0 <= x < y < out@.len() ==> (#[trigger] crate::lr::reduce_view(out@)[x]).0 < (
                #[trigger] crate::lr::reduce_view(out@)[y]).0,
            forall|t2: int|
                0 <= t2 < t && #[trigger] reduces(rv, tab, h@, t2) ==> exists|x: int|
                    0 <= x < out@.len() && (#[trigger] crate::lr::reduce_view(out@)[x]).0 == t2,
        decreases nt - t,
    {
        let rs = reductions_on(rules, tab, h, t);
        if rs.len() > 0 {
            let ghost o0 = crate::lr::reduce_view(out@);
            let ghost rsv = rs@;
            assert(forall|rp: ReductendPosition| #[trigger] rsv.contains(rp) <==> exists|i: int|
                0 <= i < tab.np() && reduce_src(rv, tab, h@, i, t as int) && rp_of(tab.positions@[i]) == rp);
            out.push((t, rs));
            proof {
                assert(crate::lr::reduce_view(out@) =~= o0.push((t, rsv)));
                assert forall|x: int|
                    0 <= x < out@.len() implies {
                        let e = #[trigger] crate::lr::reduce_view(out@)[x];
                        &&& e.0 < t + 1
                        &&& e.1.len() > 0
                        &&& e.1.no_duplicates()
                        &&& forall|rp: ReductendPosition| #[trigger] e.1.contains(rp) <==> exists|i: int|
                            0 <= i < tab.np() && reduce_src(rv, tab, h@, i, e.0 as int) && rp_of(tab.positions@[i]) == rp
                    } by {
                    let e = crate::lr::reduce_view(out@)[x];
                    if x < o0.len() {
                        assert(e == o0[x]);
                        assert(o0[x].0 < t);
                        assert(o0[x].1.len() > 0);
                    } else {
                        assert(e == o0.push((t, rsv))[x]);
                        assert(e == (t, rsv));
                        assert(rsv.len() > 0);
                        assert forall|rp: ReductendPosition| #[trigger] e.1.contains(rp) <==> exists|i: int|
                            0 <= i < tab.np() && reduce_src(rv, tab, h@, i, e.0 as int) && rp_of(tab.positions@[i]) == rp by {
                            assert(e.1.contains(rp) == rsv.contains(rp));
                            assert(e.0 as int == t as int);
                            if rsv.contains(rp) {
                                let i = choose|i: int|
                                    0 <= i < tab.np() && reduce_src(rv, tab, h@, i, t as int) && rp_of(tab.positions@[i]) == rp;
                                assert(reduce_src(rv, tab, h@, i, e.0 as int));
                            }
                            if exists|i: int|
                                0 <= i < tab.np() && reduce_src(rv, tab, h@, i, e.0 as int) && rp_of(tab.positions@[i]) == rp {
                                let i = choose|i: int|
                                    0 <= i < tab.np() && reduce_src(rv, tab, h@, i, e.0 as int) && rp_of(tab.positions@[i]) == rp;
                                assert(reduce_src(rv, tab, h@, i, t as int));
                                assert(rsv.contains(rp));
                            }
                        }
                    }
                }
                assert forall|x: int, y: int|
                    0 <= x < y < out@.len() implies (#[trigger] crate::lr::reduce_view(out@)[x]).0 < (
                    #[trigger] crate::lr::reduce_view(out@)[y]).0 by {
                    assert(crate::lr::reduce_view(out@)[x] == o0[x]);
                    if y < o0.len() {
                        assert(crate::lr::reduce_view(out@)[y] == o0[y]);
                    }
                }
                assert forall|t2: int|
                    0 <= t2 < t + 1 && #[trigger] reduces(rv, tab, h@, t2) implies exists|x: int|
                        0 <= x < out@.len() && (#[trigger] crate::lr::reduce_view(out@)[x]).0 == t2 by {
                    if t2 == t {
                        assert(crate::lr::reduce_view(out@)[o0.len() as int].0 == t2);
                    } else {
                        let x = choose|x: int| 0 <= x < o0.len() && (#[trigger] o0[x]).0 == t2;
                        assert(crate::lr::reduce_view(out@)[x] == o0[x]);
                    }
                }
            }
        } else {
            proof {
                if reduces(rv, tab, h@, t as int) {
                    let i0 = choose|i: int| 0 <= i < tab.np() && #[trigger] reduce_src(rv, tab, h@, i, t as int);
                    assert(rs@.contains(rp_of(tab.positions@[i0])));
                }
            }
        }
        t = t + 1;
    }
    out
}

/// The entries of the state `cur` of `heads`, adding the states they lead to.
pub fn build_state(
    rules: &Vec<Rule>,
    tab: &ItemTable,
    heads: &mut Vec<StateHead>,
    cur: usize,
    Ghost(s): Ghost<int>,
) -> (r: Result<State, Error>)
    requires
        tab.wf(rules_view(rules@)),
        explored(rules_view(rules@), tab, s, heads_view(old(heads)@)),
        all_clean(rules_view(rules@), tab, heads_view(old(heads)@)),
        cur < old(heads)@.len(),
    ensures
        explored(rules_view(rules@), tab, s, heads_view(final(heads)@)),
        all_clean(rules_view(rules@), tab, heads_view(final(heads)@)),
        extends(heads_view(old(heads)@), heads_view(final(heads)@)),
        match r {
            Ok(st) => state_ok(rules_view(rules@), tab, heads_view(final(heads)@), heads_view(old(heads)@)[cur as int], st@),
            Err(e) => (exists|hs: Seq<HeadV>| #[trigger] fails_at_end(rules_view(rules@), tab, s, hs, e)) || (final(heads)@.len() == usize::MAX && too_many_states(e)),
        },
{
    let ghost rv = rules_view(rules@);
    let ghost hs0 = heads_view(heads@);
    let h = heads[cur].copy();
    proof {
        assert(hs0[cur as int] == heads@[cur as int]@);
        assert(tab.hwf(hs0[cur as int]));
    }
    proof {
        assert(head_clean(rv, tab, h@));
        assert forall|i: int| 0 <= i < tab.np() && h@.present[i] implies (#[trigger] event(rv, tab.positions@[i]) matches EventV::Rule(n)
            ==> find_rule(rv, n) is Some) by {
            assert(item_clean(rv, tab, h@, i));
        }
        assert(calls_resolved(rv, tab, h@));
    }
    let next = match build_next(rules, tab, heads, cur, &h, Ghost(s)) {
        Ok(n) => n,
        Err(e) => {
            return Err(e);
        },
    };
    let ghost hs1 = heads_view(heads@);
    let goto = match build_goto(rules, tab, heads, cur, &h, Ghost(s)) {
        Ok(g) => g,
        Err(e) => {
            return Err(e);
        },
    };
    let reduce = build_reduce(rules, tab, &h);
    proof {
        assert(hs1[cur as int] == h@);
        assert forall|x: int| 0 <= x < next@.len() implies {
            let e = #[trigger] next@[x];
            &&& e.0 < tab.nt()
            &&& e.1 < heads_view(heads@).len()
            &&& shifts(rv, tab, h@, e.0 as int)
            &&& successor(rv, tab, h@, Selector::Shift(e.0), heads_view(heads@)[e.1 as int])
        } by {
            assert(heads_view(heads@)[next@[x].1 as int] == hs1[next@[x].1 as int]);
        }
    }
    Ok(State { next, goto, reduce })
}

} // verus!
