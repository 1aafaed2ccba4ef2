use vstd::prelude::*;
use crate::common::{keys_unique, lookup, ConstructionError, State, Symbol, Transition};

verus! {

/// States addressed by index, a start state and a set of accepting states.
pub struct Automaton {
    pub states: Vec<State>,
    pub start: usize,
    pub accepting: Vec<usize>,
}

/// Every transition of every state leads to a state of the table.
pub open spec fn destinations_in_range(states: Seq<State>) -> bool {
    forall|i: int, k: int|
        0 <= i < states.len() && 0 <= k < states[i].transitions@.len()
            ==> #[trigger] states[i].transitions@[k].1.next_state < states.len()
}

/// The start, every accepting index and every destination name a state.
pub open spec fn indices_in_range(states: Seq<State>, start: usize, accepting: Seq<usize>) -> bool {
    &&& start < states.len()
    &&& forall|k: int| 0 <= k < accepting.len() ==> #[trigger] accepting[k] < states.len()
    &&& destinations_in_range(states)
}

/// Every transition carries a valid note.
pub open spec fn notes_in_range(states: Seq<State>) -> bool {
    forall|i: int, k: int|
        0 <= i < states.len() && 0 <= k < states[i].transitions@.len()
            ==> (#[trigger] states[i].transitions@[k]).1.note.valid()
}

/// No state has two transitions on one symbol.
pub open spec fn deterministic(states: Seq<State>) -> bool {
    forall|i: int| 0 <= i < states.len() ==> keys_unique(#[trigger] states[i].transitions@)
}

impl Automaton {
    /// The number of states.
    pub open spec fn size(&self) -> int {
        self.states@.len() as int
    }

    /// Indices, notes and transitions satisfy every rule of construction.
    pub open spec fn wf(&self) -> bool {
        &&& indices_in_range(self.states@, self.start, self.accepting@)
        &&& notes_in_range(self.states@)
        &&& deterministic(self.states@)
    }

    /// Whether state `i` is accepting.
    pub open spec fn accepts(&self, i: int) -> bool {
        exists|k: int| 0 <= k < self.accepting@.len() && self.accepting@[k] as int == i
    }

    /// The transition of state `i` on `sym`, if it has one.
    pub open spec fn edge_of(&self, i: int, sym: Symbol) -> Option<Transition> {
        lookup(self.states@[i].transitions@, sym)
    }

    /// Whether state `index` is accepting.
    pub fn is_accepting(&self, index: usize) -> (r: bool)
        ensures
            r == self.accepts(index as int),
    {
        let mut k: usize = 0;
        while k < self.accepting.len()
            invariant
                k <= self.accepting@.len(),
                forall|j: int| 0 <= j < k ==> self.accepting@[j] != index,
            decreases self.accepting@.len() - k,
        {
            if self.accepting[k] == index {
                return true;
            }
            k = k + 1;
        }
        false
    }

    /// The transition of state `index` on `sym`; `None` when it has none.
    pub fn edge(&self, index: usize, sym: Symbol) -> (r: Option<Transition>)
        requires
            self.wf(),
            index < self.size(),
        ensures
            r == self.edge_of(index as int, sym),
            r matches Some(t) ==> t.next_state < self.size() && t.note.valid(),
    {
        let r = self.states[index].edge(sym);
        proof {
            let ts = self.states@[index as int].transitions@;
            if r is Some {
                let k = choose|k: int| 0 <= k < ts.len() && ts[k].0 == sym;
                assert(ts[k].1.next_state < self.size());
                assert(ts[k].1.note.valid());
            }
        }
        r
    }

    /// Checks a table of states and makes it an automaton.
    pub fn build(states: Vec<State>, start: usize, accepting: Vec<usize>) -> (r: Result<
        Automaton,
        ConstructionError,
    >)
        ensures
            r == Err::<Automaton, ConstructionError>(ConstructionError::DanglingIndex)
                <==> !indices_in_range(states@, start, accepting@),
            r == Err::<Automaton, ConstructionError>(ConstructionError::EmissionOutOfRange)
                <==> indices_in_range(states@, start, accepting@) && !notes_in_range(states@),
            r == Err::<Automaton, ConstructionError>(ConstructionError::DuplicateEdge)
                <==> indices_in_range(states@, start, accepting@) && notes_in_range(states@)
                && !deterministic(states@),
            r is Ok ==> r->Ok_0.wf() && r->Ok_0.states@ == states@ && r->Ok_0.start == start
                && r->Ok_0.accepting@ == accepting@,
    {
        let n = states.len();
        if start >= n || !all_below(&accepting, n) || !check_destinations(&states) {
            return Err(ConstructionError::DanglingIndex);
        }
        if !check_notes(&states) {
            return Err(ConstructionError::EmissionOutOfRange);
        }
        if !check_deterministic(&states) {
            return Err(ConstructionError::DuplicateEdge);
        }
        Ok(Automaton { states, start, accepting })
    }
}

fn all_below(v: &Vec<usize>, n: usize) -> (r: bool)
    ensures
        r == forall|k: int| 0 <= k < v@.len() ==> #[trigger] v@[k] < n,
{
    let mut k: usize = 0;
    while k < v.len()
        invariant
            k <= v@.len(),
            forall|j: int| 0 <= j < k ==> #[trigger] v@[j] < n,
        decreases v@.len() - k,
    {
        if v[k] >= n {
            return false;
        }
        k = k + 1;
    }
    true
}

fn check_destinations(states: &Vec<State>) -> (r: bool)
    ensures
        r == destinations_in_range(states@),
{
    let n = states.len();
    let mut i: usize = 0;
    while i < n
        invariant
            n == states@.len(),
            i <= n,
            forall|a: int, k: int|
                0 <= a < i && 0 <= k < states@[a].transitions@.len()
                    ==> #[trigger] states@[a].transitions@[k].1.next_state < n,
        decreases n - i,
    {
        let ts = &states[i].transitions;
        let mut k: usize = 0;
        while k < ts.len()
            invariant
                n == states@.len(),
                i < n,
                ts@ == states@[i as int].transitions@,
                k <= ts@.len(),
                forall|a: int, j: int|
                    0 <= a < i && 0 <= j < states@[a].transitions@.len()
                        ==> #[trigger] states@[a].transitions@[j].1.next_state < n,
                forall|j: int| 0 <= j < k ==> #[trigger] ts@[j].1.next_state < n,
            decreases ts@.len() - k,
        {
            if ts[k].1.next_state >= n {
                return false;
            }
            k = k + 1;
        }
        i = i + 1;
    }
    true
}

fn check_notes(states: &Vec<State>) -> (r: bool)
    ensures
        r == notes_in_range(states@),
{
    let n = states.len();
    let mut i: usize = 0;
    while i < n
        invariant
            n == states@.len(),
            i <= n,
            forall|a: int, k: int|
                0 <= a < i && 0 <= k < states@[a].transitions@.len()
                    ==> (#[trigger] states@[a].transitions@[k]).1.note.valid(),
        decreases n - i,
    {
        let ts = &states[i].transitions;
        let mut k: usize = 0;
        while k < ts.len()
            invariant
                n == states@.len(),
                i < n,
                ts@ == states@[i as int].transitions@,
                k <= ts@.len(),
                forall|a: int, j: int|
                    0 <= a < i && 0 <= j < states@[a].transitions@.len()
                        ==> (#[trigger] states@[a].transitions@[j]).1.note.valid(),
                forall|j: int| 0 <= j < k ==> (#[trigger] ts@[j]).1.note.valid(),
            decreases ts@.len() - k,
        {
            if !ts[k].1.note.is_valid() {
                return false;
            }
            k = k + 1;
        }
        i = i + 1;
    }
    true
}

fn check_deterministic(states: &Vec<State>) -> (r: bool)
    ensures
        r == deterministic(states@),
{
    let n = states.len();
    let mut i: usize = 0;
    while i < n
        invariant
            n == states@.len(),
            i <= n,
            forall|a: int| 0 <= a < i ==> keys_unique(#[trigger] states@[a].transitions@),
        decreases n - i,
    {
        if !has_unique_keys(&states[i].transitions) {
            return false;
        }
        i = i + 1;
    }
    true
}

fn has_unique_keys(ts: &Vec<(Symbol, Transition)>) -> (r: bool)
    ensures
        r == keys_unique(ts@),
{
    let m = ts.len();
    let mut k: usize = 0;
    while k < m
        invariant
            m == ts@.len(),
            k <= m,
            forall|a: int, b: int| 0 <= a < b < k ==> ts@[a].0 != ts@[b].0,
        decreases m - k,
    {
        let mut j: usize = 0;
        while j < k
            invariant
                m == ts@.len(),
                j <= k < m,
                forall|a: int, b: int| 0 <= a < b < k ==> ts@[a].0 != ts@[b].0,
                forall|a: int| 0 <= a < j ==> ts@[a].0 != ts@[k as int].0,
            decreases k - j,
        {
            if ts[j].0 == ts[k].0 {
                return false;
            }
            j = j + 1;
        }
        k = k + 1;
    }
    true
}

/// A transition whose destination is not a state, or whose note has pitch 128
/// or duration 0, makes the table fail the check that construction applies to
/// it (`DanglingIndex`, respectively `EmissionOutOfRange`).
pub proof fn lemma_bad_transition_rejected(states: Seq<State>, start: usize, accepting: Seq<usize>, i: int, k: int)
    requires
        0 <= i < states.len(),
        0 <= k < states[i].transitions@.len(),
    ensures
        states[i].transitions@[k].1.next_state >= states.len() ==> !indices_in_range(states, start, accepting),
        states[i].transitions@[k].1.note.pitch == 128 || states[i].transitions@[k].1.note.duration == 0
            ==> !notes_in_range(states),
{
}

} // verus!
