use vstd::prelude::*;

verus! {

// ---------------------------------------------------------------------------
// Decimal numerals and small edits of text

pub open spec fn digit(d: nat) -> char {
    if d == 0 {
        '0'
    } else if d == 1 {
        '1'
    } else if d == 2 {
        '2'
    } else if d == 3 {
        '3'
    } else if d == 4 {
        '4'
    } else if d == 5 {
        '5'
    } else if d == 6 {
        '6'
    } else if d == 7 {
        '7'
    } else if d == 8 {
        '8'
    } else {
        '9'
    }
}

/// The decimal numeral of `n`.
pub open spec fn dec(n: nat) -> Seq<char>
    decreases n,
{
    if n < 10 {
        seq![digit(n)]
    } else {
        dec(n / 10) + seq![digit(n % 10)]
    }
}

/// The decimal numeral of `i`, with a minus sign where it is negative.
pub open spec fn idec(i: int) -> Seq<char> {
    if i < 0 {
        seq!['-'] + dec((-i) as nat)
    } else {
        dec(i as nat)
    }
}

/// The value of a decimal digit.
pub open spec fn digit_value(c: char) -> nat {
    if c == '1' {
        1
    } else if c == '2' {
        2
    } else if c == '3' {
        3
    } else if c == '4' {
        4
    } else if c == '5' {
        5
    } else if c == '6' {
        6
    } else if c == '7' {
        7
    } else if c == '8' {
        8
    } else if c == '9' {
        9
    } else {
        0
    }
}

/// The number that a string of decimal digits denotes.
pub open spec fn numeral_value(s: Seq<char>) -> nat
    decreases s.len(),
{
    if s.len() == 0 {
        0
    } else {
        numeral_value(s.drop_last()) * 10 + digit_value(s.last())
    }
}

/// The number that a decimal numeral, perhaps with a minus sign, denotes.
pub open spec fn signed_value(s: Seq<char>) -> int {
    if s.len() > 0 && s[0] == '-' {
        -(numeral_value(s.drop_first()) as int)
    } else {
        numeral_value(s) as int
    }
}

/// Reading a written numeral gives back its number.
pub proof fn lemma_dec_value(n: nat)
    ensures
        numeral_value(dec(n)) == n,
    decreases n,
{
    if n >= 10 {
        lemma_dec_value(n / 10);
        let s = dec(n / 10) + seq![digit(n % 10)];
        assert(s.drop_last() =~= dec(n / 10));
        assert(s.last() == digit(n % 10));
        assert(digit_value(digit(n % 10)) == n % 10);
        assert(dec(n) == s);
        assert(numeral_value(s) == numeral_value(dec(n / 10)) * 10 + digit_value(digit(n % 10)));
        assert((n / 10) * 10 + n % 10 == n) by (nonlinear_arith);
    } else {
        assert(digit_value(digit(n)) == n);
        assert(seq![digit(n)].drop_last() =~= Seq::<char>::empty());
        assert(numeral_value(Seq::<char>::empty()) == 0);
        assert(numeral_value(seq![digit(n)]) == numeral_value(Seq::<char>::empty()) * 10 + digit_value(digit(n)));
    }
}

/// Reading a written signed numeral gives back its number.
pub proof fn lemma_idec_value(i: int)
    ensures
        signed_value(idec(i)) == i,
{
    if i < 0 {
        lemma_dec_value((-i) as nat);
        assert((seq!['-'] + dec((-i) as nat)).drop_first() =~= dec((-i) as nat));
    } else {
        lemma_dec_value(i as nat);
        lemma_dec_nonempty(i as nat);
        lemma_dec_first(i as nat);
    }
}

/// A numeral starts with a digit.
pub proof fn lemma_dec_first(n: nat)
    ensures
        dec(n).len() >= 1,
        dec(n)[0] != '-',
    decreases n,
{
    lemma_dec_nonempty(n);
    if n >= 10 {
        lemma_dec_first(n / 10);
    }
}

pub proof fn lemma_dec_nonempty(n: nat)
    ensures
        dec(n).len() >= 1,
    decreases n,
{
    if n >= 10 {
        lemma_dec_nonempty(n / 10);
    }
}

fn digit_str(d: usize) -> (r: &'static str)
    requires
        d < 10,
    ensures
        r@ == seq![digit(d as nat)],
{
    proof {
        reveal_strlit("0");
        reveal_strlit("1");
        reveal_strlit("2");
        reveal_strlit("3");
        reveal_strlit("4");
        reveal_strlit("5");
        reveal_strlit("6");
        reveal_strlit("7");
        reveal_strlit("8");
        reveal_strlit("9");
    }
    if d == 0 {
        "0"
    } else if d == 1 {
        "1"
    } else if d == 2 {
        "2"
    } else if d == 3 {
        "3"
    } else if d == 4 {
        "4"
    } else if d == 5 {
        "5"
    } else if d == 6 {
        "6"
    } else if d == 7 {
        "7"
    } else if d == 8 {
        "8"
    } else {
        "9"
    }
}

/// Appends the decimal numeral of `n`.
pub fn push_dec(s: &mut String, n: usize)
    ensures
        final(s)@ == old(s)@ + dec(n as nat),
    decreases n,
{
    if n >= 10 {
        push_dec(s, n / 10);
    }
    s.append(digit_str(n % 10));
}

/// Appends `text` with its last two characters left out.
pub fn push_drop2(s: &mut String, text: &str)
    requires
        text@.len() >= 2,
    ensures
        final(s)@ == old(s)@ + text@.drop_last().drop_last(),
{
    let n = text.unicode_len();
    let t = text.substring_char(0, n - 2);
    s.append(t);
    proof {
        assert(text@.subrange(0, n - 2) =~= text@.drop_last().drop_last());
    }
}

/// Appends `text` with its last character left out.
pub fn push_drop1(s: &mut String, text: &str)
    requires
        text@.len() >= 1,
    ensures
        final(s)@ == old(s)@ + text@.drop_last(),
{
    let n = text.unicode_len();
    let t = text.substring_char(0, n - 1);
    s.append(t);
    proof {
        assert(text@.subrange(0, n - 1) =~= text@.drop_last());
    }
}

/// `s` with every occurrence of the character `c` replaced by `rep`.
pub open spec fn replace_char(s: Seq<char>, c: char, rep: Seq<char>) -> Seq<char>
    decreases s.len(),
{
    if s.len() == 0 {
        Seq::empty()
    } else {
        replace_char(s.drop_last(), c, rep) + (if s.last() == c {
            rep
        } else {
            seq![s.last()]
        })
    }
}

/// Appends `text` with every occurrence of `c` replaced by `rep`.
pub fn push_replaced(s: &mut String, text: &str, c: char, rep: &str)
    ensures
        final(s)@ == old(s)@ + replace_char(text@, c, rep@),
{
    let n = text.unicode_len();
    let ghost s0 = s@;
    let mut i: usize = 0;
    while i < n
        invariant
            n == text@.len(),
            i <= n,
            s@ == s0 + replace_char(text@.take(i as int), c, rep@),
        decreases n - i,
    {
        let ch = text.get_char(i);
        if ch == c {
            s.append(rep);
        } else {
            s.append(text.substring_char(i, i + 1));
            proof {
                assert(text@.subrange(i as int, i + 1) =~= seq![ch]);
            }
        }
        proof {
            assert(text@.take(i + 1).drop_last() =~= text@.take(i as int));
            assert(text@.take(i + 1).last() == ch);
        }
        i = i + 1;
    }
    proof {
        assert(text@.take(n as int) =~= text@);
    }
}

/// Appends `text` without its first character.
pub fn push_tail(s: &mut String, text: &str)
    requires
        text@.len() >= 1,
    ensures
        final(s)@ == old(s)@ + text@.drop_first(),
{
    let n = text.unicode_len();
    s.append(text.substring_char(1, n));
    proof {
        assert(text@.subrange(1, n as int) =~= text@.drop_first());
    }
}

/// Whether `text` begins with `c`.
pub fn starts_with_char(text: &str, c: char) -> (r: bool)
    ensures
        r == (text@.len() > 0 && text@[0] == c),
{
    let n = text.unicode_len();
    n > 0 && text.get_char(0) == c
}


/// The position of the first occurrence of `t` in `ts`, -1 where there is none.
pub open spec fn pos_in(ts: Seq<Seq<char>>, t: Seq<char>) -> int
    decreases ts.len(),
{
    if ts.len() == 0 {
        -1
    } else {
        let p = pos_in(ts.drop_last(), t);
        if p >= 0 {
            p
        } else if ts.last() == t {
            ts.len() - 1
        } else {
            -1
        }
    }
}

/// `ts` with `t` added at the end where it does not occur.
pub open spec fn intern(ts: Seq<Seq<char>>, t: Seq<char>) -> Seq<Seq<char>> {
    if ts.contains(t) {
        ts
    } else {
        ts.push(t)
    }
}

pub proof fn lemma_pos_in(ts: Seq<Seq<char>>, t: Seq<char>)
    ensures
        pos_in(ts, t) >= 0 <==> ts.contains(t),
        pos_in(ts, t) >= -1,
        pos_in(ts, t) >= 0 ==> pos_in(ts, t) < ts.len() && ts[pos_in(ts, t)] == t && forall|j: int|
            0 <= j < pos_in(ts, t) ==> ts[j] != t,
    decreases ts.len(),
{
    if ts.len() > 0 {
        let d = ts.drop_last();
        lemma_pos_in(d, t);
        if d.contains(t) {
            let j = choose|j: int| 0 <= j < d.len() && d[j] == t;
            assert(ts[j] == t);
        }
        if ts.contains(t) && !d.contains(t) {
            let j = choose|j: int| 0 <= j < ts.len() && ts[j] == t;
            if j < d.len() {
                assert(d[j] == t);
            }
        }
        if pos_in(d, t) >= 0 {
            assert(ts[pos_in(d, t)] == d[pos_in(d, t)]);
            assert forall|j: int| 0 <= j < pos_in(ts, t) implies ts[j] != t by {
                assert(ts[j] == d[j]);
            }
        } else {
            assert forall|j: int| 0 <= j < pos_in(ts, t) implies ts[j] != t by {
                assert(ts[j] == d[j]);
                assert(!d.contains(t));
            }
        }
    }
}

pub open spec fn strs_view(s: Seq<String>) -> Seq<Seq<char>> {
    s.map_values(|t: String| t@)
}

/// Adds `t` where it is new; returns its position, counted from 1.
pub fn intern_str(types: &mut Vec<String>, t: &str) -> (r: usize)
    ensures
        strs_view(final(types)@) == intern(strs_view(old(types)@), t@),
        r as int == pos_in(strs_view(final(types)@), t@) + 1,
{
    let ghost tv = strs_view(types@);
    let ts = String::from_str(t);
    let n = types.len();
    let mut k: usize = 0;
    while k < n
        invariant
            n == types@.len(),
            k <= n,
            tv == strs_view(types@),
            types@ == old(types)@,
            ts@ == t@,
            forall|j: int| 0 <= j < k ==> tv[j] != t@,
        decreases n - k,
    {
        if types[k].eq(&ts) {
            proof {
                assert(tv[k as int] == t@);
                assert(tv.contains(t@));
                lemma_pos_in(tv, t@);
                let p = pos_in(tv, t@);
                if p < k {
                    assert(tv[p] == t@);
                }
                if p > k {
                    assert(tv[k as int] != t@);
                }
            }
            return k + 1;
        }
        k = k + 1;
    }
    types.push(ts);
    proof {
        assert(!tv.contains(t@)) by {
            if tv.contains(t@) {
                let j = choose|j: int| 0 <= j < tv.len() && tv[j] == t@;
            }
        }
        assert(strs_view(types@) =~= tv.push(t@));
        lemma_pos_in(tv, t@);
        lemma_pos_in(tv.push(t@), t@);
        assert(tv.push(t@).drop_last() =~= tv);
    }
    types.len()
}

} // verus!
