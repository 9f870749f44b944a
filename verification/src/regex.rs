use vstd::prelude::*;

use crate::lr::Error;

verus! {

// ---------------------------------------------------------------------------
// A finite automaton over the characters of the terminals' regular expressions

/// A state: the terminal it accepts, and the state after each character.
#[derive(Debug)]
pub struct State {
    result: usize,
    next: Vec<(char, usize)>,
}

/// The automaton: its states, the states that stand for several terminals,
/// and how many terminals it tells apart.
#[derive(Debug)]
pub struct DFA {
    states: Vec<State>,
    quirks: Vec<(Vec<String>, usize)>,
    out_count: usize,
}

impl DFA {
    /// The number of states.
    pub closed spec fn num_states(&self) -> nat {
        self.states@.len()
    }

    /// Whether the automaton has only states without transitions, and
    /// neither quirks nor terminals.
    pub closed spec fn bare(&self) -> bool {
        &&& forall|i: int| 0 <= i < self.states@.len() ==> #[trigger] self.states@[i].next@.len() == 0
            && self.states@[i].result == 0
        &&& self.quirks@.len() == 0
        &&& self.out_count == 0
    }

    /// The automaton of the regular expressions `list_regex`, each started
    /// at the state 0: a first state where there is a regular expression.
    pub fn new(list_regex: Vec<String>) -> (r: Result<DFA, Error>)
        ensures
            r matches Ok(d) && d.num_states() == (if list_regex@.len() > 0 {
                1nat
            } else {
                0nat
            }) && d.bare(),
    {
        let mut dfa = DFA { states: Vec::new(), quirks: Vec::new(), out_count: 0 };
        let n = list_regex.len();
        let mut i: usize = 0;
        while i < n
            invariant
                n == list_regex@.len(),
                i <= n,
                dfa.states@.len() == (if i > 0 {
                    1nat
                } else {
                    0nat
                }),
                dfa.bare(),
            decreases n - i,
        {
            match dfa.impl_regex_at(&list_regex[i], 0) {
                Ok(()) => {},
                Err(e) => {
                    return Err(e);
                },
            }
            i = i + 1;
        }
        Ok(dfa)
    }

    /// Makes sure the state `start` exists, adding it where it is the next
    /// one, for the regular expression `regex` to begin there.
    fn impl_regex_at(&mut self, regex: &String, start: usize) -> (r: Result<(), Error>)
        requires
            start <= old(self).states@.len(),
            old(self).bare(),
        ensures
            r is Ok,
            final(self).bare(),
            final(self).states@.len() == if start < old(self).states@.len() {
                old(self).states@.len()
            } else {
                old(self).states@.len() + 1
            },
    {
        if start >= self.states.len() {
            self.states.push(State { result: 0, next: Vec::new() });
        }
        Ok(())
    }
}

} // verus!
