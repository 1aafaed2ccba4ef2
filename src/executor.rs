use vstd::prelude::*;
use crate::automaton::Automaton;
use crate::common::{Note, Symbol};

verus! {

/// The indices whose flag is set.
pub open spec fn flagged(f: Seq<bool>) -> Set<int> {
    Set::new(|i: int| 0 <= i < f.len() && f[i])
}

/// The number of set flags.
pub open spec fn count_set(f: Seq<bool>) -> nat
    decreases f.len(),
{
    if f.len() == 0 {
        0
    } else {
        count_set(f.drop_last()) + if f.last() {
            1nat
        } else {
            0nat
        }
    }
}

proof fn lemma_count_set_bound(f: Seq<bool>)
    ensures
        count_set(f) <= f.len(),
    decreases f.len(),
{
    if f.len() > 0 {
        lemma_count_set_bound(f.drop_last());
    }
}

proof fn lemma_count_set_raise(f: Seq<bool>, j: int)
    requires
        0 <= j < f.len(),
        !f[j],
    ensures
        count_set(f.update(j, true)) == count_set(f) + 1,
    decreases f.len(),
{
    let g = f.update(j, true);
    if j == f.len() - 1 {
        assert(g.drop_last() =~= f.drop_last());
    } else {
        assert(g.drop_last() =~= f.drop_last().update(j, true));
        lemma_count_set_raise(f.drop_last(), j);
    }
}

impl Automaton {
    /// Where the empty move of state `i` leads, if it has one.
    pub open spec fn epsilon_next(&self, i: int) -> Option<int> {
        if 0 <= i < self.size() {
            match self.edge_of(i, Symbol::Epsilon) {
                Some(t) => Some(t.next_state as int),
                None => None,
            }
        } else {
            None
        }
    }

    /// The state reached from `i` after `k` empty moves, if they can all be made.
    pub open spec fn epsilon_walk(&self, i: int, k: nat) -> Option<int>
        decreases k,
    {
        if k == 0 {
            Some(i)
        } else {
            match self.epsilon_walk(i, (k - 1) as nat) {
                Some(j) => self.epsilon_next(j),
                None => None,
            }
        }
    }

    /// The states reachable from a member of `s` through empty moves alone.
    pub open spec fn closure(&self, s: Set<int>) -> Set<int> {
        Set::new(|j: int| exists|i: int, k: nat| s.contains(i) && self.epsilon_walk(i, k) == Some(j))
    }

    /// Every flagged state's empty move leads to a flagged state.
    pub open spec fn closed_under_epsilon(&self, f: Seq<bool>) -> bool {
        forall|i: int|
            #![trigger f[i]]
            0 <= i < f.len() && f[i] ==> match self.epsilon_next(i) {
                Some(j) => 0 <= j < f.len() && f[j],
                None => true,
            }
    }
}

/// A walk of `a + b` empty moves is a walk of `a` moves followed by one of `b`.
proof fn lemma_walk_split(m: &Automaton, i: int, a: nat, b: nat)
    ensures
        m.epsilon_walk(i, a + b) == match m.epsilon_walk(i, a) {
            Some(j) => m.epsilon_walk(j, b),
            None => None,
        },
    decreases b,
{
    if b > 0 {
        lemma_walk_split(m, i, a, (b - 1) as nat);
        assert((a + b - 1) as nat == a + (b - 1) as nat);
        match m.epsilon_walk(i, a) {
            Some(j) => {},
            None => {},
        }
    }
}

/// From a flagged state, every walk in a closed flag set ends on a flagged state.
proof fn lemma_walk_stays(m: &Automaton, f: Seq<bool>, i: int, k: nat)
    requires
        m.closed_under_epsilon(f),
        0 <= i < f.len(),
        f[i],
    ensures
        m.epsilon_walk(i, k) matches Some(j) ==> 0 <= j < f.len() && f[j],
    decreases k,
{
    if k > 0 {
        lemma_walk_stays(m, f, i, (k - 1) as nat);
    }
}

impl Automaton {
    /// Flags the states reachable through empty moves from the flagged ones.
    fn closure_flags(&self, seed: Vec<bool>) -> (r: Vec<bool>)
        requires
            self.wf(),
            seed@.len() == self.size(),
        ensures
            r@.len() == self.size(),
            flagged(r@) == self.closure(flagged(seed@)),
    {
        let n = seed.len();
        let ghost s = flagged(seed@);
        let mut visited = seed;
        let mut work: Vec<usize> = Vec::new();
        let mut count: usize = 0;
        let mut i: usize = 0;
        while i < n
            invariant
                n == visited@.len(),
                s == flagged(visited@),
                i <= n,
                count == count_set(visited@.take(i as int)),
                forall|j: int| 0 <= j < work@.len() ==> #[trigger] work@[j] < n && visited@[work@[j] as int],
                forall|j: int| 0 <= j < i && visited@[j] ==> work@.contains(j as usize),
            decreases n - i,
        {
            assert(visited@.take(i + 1).drop_last() =~= visited@.take(i as int));
            proof {
                lemma_count_set_bound(visited@.take(i as int));
            }
            let ghost old_work = work@;
            if visited[i] {
                work.push(i);
                count = count + 1;
                assert forall|j: int| 0 <= j <= i && visited@[j] implies work@.contains(j as usize) by {
                    if j < i {
                        let p = choose|p: int| 0 <= p < old_work.len() && old_work[p] == j as usize;
                        assert(work@[p] == j as usize);
                    } else {
                        assert(work@[old_work.len() as int] == j as usize);
                    }
                }
            }
            i = i + 1;
        }
        assert(visited@.take(n as int) =~= visited@);
        proof {
            lemma_count_set_bound(visited@);
            assert forall|j: int| #[trigger] s.contains(j) implies self.closure(s).contains(j) by {
                assert(self.epsilon_walk(j, 0) == Some(j));
            }
        }
        while work.len() > 0
            invariant
                self.wf(),
                n == visited@.len(),
                n == self.size(),
                count == count_set(visited@),
                count <= n,
                forall|j: int| 0 <= j < work@.len() ==> #[trigger] work@[j] < n && visited@[work@[j] as int],
                s.subset_of(flagged(visited@)),
                flagged(visited@).subset_of(self.closure(s)),
                forall|j: int|
                    #![trigger visited@[j]]
                    0 <= j < n && visited@[j] && !work@.contains(j as usize) ==> match self.epsilon_next(j) {
                        Some(d) => 0 <= d < n && visited@[d],
                        None => true,
                    },
            decreases n - count, work@.len(),
        {
            let ghost old_work = work@;
            let cur = work.pop().unwrap();
            let ghost old_visited = visited@;
            match self.edge(cur, Symbol::Epsilon) {
                Some(t) => {
                    let d = t.next_state;
                    if !visited[d] {
                        proof {
                            lemma_count_set_raise(visited@, d as int);
                            lemma_count_set_bound(visited@.update(d as int, true));
                        }
                        visited.set(d, true);
                        work.push(d);
                        count = count + 1;
                        assert(work@[work@.len() - 1] == d);
                    }
                },
                None => {},
            }
            proof {
                assert(flagged(old_visited).contains(cur as int));
                assert(self.closure(s).contains(cur as int));
                let (i0, k0) = choose|i0: int, k0: nat|
                    s.contains(i0) && self.epsilon_walk(i0, k0) == Some(cur as int);
                let k1: nat = k0 + 1;
                assert((k1 - 1) as nat == k0);
                assert(self.epsilon_walk(i0, k1) == self.epsilon_next(cur as int));
                assert forall|j: int| #[trigger] flagged(visited@).contains(j) implies self.closure(s).contains(j) by {
                    if !old_visited[j] {
                        assert(self.epsilon_walk(i0, k1) == Some(j));
                    } else {
                        assert(flagged(old_visited).contains(j));
                    }
                }
                assert forall|j: int|
                    #![trigger visited@[j]]
                    0 <= j < n && visited@[j] && !work@.contains(j as usize) implies match self.epsilon_next(j) {
                        Some(d) => 0 <= d < n && visited@[d],
                        None => true,
                    } by {
                    if j != cur && old_visited[j] {
                        if old_work.contains(j as usize) {
                            let p = choose|p: int| 0 <= p < old_work.len() && old_work[p] == j as usize;
                            assert(p < old_work.len() - 1);
                            assert(work@[p] == j as usize);
                        }
                        assert(!old_work.contains(j as usize));
                        assert(old_visited[j]);
                    } else if j == cur {
                        assert(visited@[j]);
                    } else {
                        assert(false);
                    }
                }
            }
        }
        proof {
            assert(self.closed_under_epsilon(visited@));
            assert forall|j: int| #[trigger] self.closure(s).contains(j) implies flagged(visited@).contains(j) by {
                let (i0, k) = choose|i0: int, k: nat| s.contains(i0) && self.epsilon_walk(i0, k) == Some(j);
                lemma_walk_stays(self, visited@, i0, k);
            }
            assert(flagged(visited@) =~= self.closure(s));
        }
        visited
    }
}

/// What a run reports: acceptance, the symbols consumed, and the notes emitted.
pub struct RunResult {
    pub accepted: bool,
    pub consumed: usize,
    pub emissions: Vec<Note>,
}

impl View for RunResult {
    type V = (bool, nat, Seq<Note>);

    open spec fn view(&self) -> (bool, nat, Seq<Note>) {
        (self.accepted, self.consumed as nat, self.emissions@)
    }
}

impl Automaton {
    /// The notes of the transitions on `sym` out of the active states below
    /// `upto`, in ascending order of source state.
    pub open spec fn step_notes(&self, active: Set<int>, sym: Symbol, upto: int) -> Seq<Note>
        decreases upto,
    {
        if upto <= 0 {
            Seq::empty()
        } else {
            let prev = self.step_notes(active, sym, upto - 1);
            match self.edge_of(upto - 1, sym) {
                Some(t) if active.contains(upto - 1) => prev.push(t.note),
                _ => prev,
            }
        }
    }

    /// The destinations of the transitions on `sym` out of the active states below `upto`.
    pub open spec fn step_targets(&self, active: Set<int>, sym: Symbol, upto: int) -> Set<int>
        decreases upto,
    {
        if upto <= 0 {
            Set::empty()
        } else {
            let prev = self.step_targets(active, sym, upto - 1);
            match self.edge_of(upto - 1, sym) {
                Some(t) if active.contains(upto - 1) => prev.insert(t.next_state as int),
                _ => prev,
            }
        }
    }

    /// Some active state is accepting.
    pub open spec fn any_accepting(&self, active: Set<int>) -> bool {
        exists|i: int| active.contains(i) && self.accepts(i)
    }

    /// Acceptance, symbols consumed and notes emitted when `input` is read from
    /// the (already closed) active set `active`.
    pub open spec fn outcome(&self, active: Set<int>, input: Seq<Symbol>) -> (bool, nat, Seq<Note>)
        decreases input.len(),
    {
        if input.len() == 0 {
            (self.any_accepting(active), 0, Seq::empty())
        } else {
            let notes = self.step_notes(active, input[0], self.size());
            if notes.len() == 0 {
                (false, 0, Seq::empty())
            } else {
                let next = self.closure(self.step_targets(active, input[0], self.size()));
                let rest = self.outcome(next, input.drop_first());
                (rest.0, rest.1 + 1, notes + rest.2)
            }
        }
    }

    /// The result of running the automaton on `input` from its start state.
    pub open spec fn run_spec(&self, input: Seq<Symbol>) -> (bool, nat, Seq<Note>) {
        self.outcome(self.closure(set![self.start as int]), input)
    }

    /// Takes every transition on `sym` out of the active states: their notes in
    /// ascending order of source state, and the flags of their destinations.
    fn step(&self, active: &Vec<bool>, sym: Symbol) -> (r: (Vec<Note>, Vec<bool>))
        requires
            self.wf(),
            active@.len() == self.size(),
        ensures
            r.0@ == self.step_notes(flagged(active@), sym, self.size()),
            r.1@.len() == self.size(),
            flagged(r.1@) == self.step_targets(flagged(active@), sym, self.size()),
    {
        let n = self.states.len();
        let mut notes: Vec<Note> = Vec::new();
        let mut targets: Vec<bool> = Vec::new();
        let mut i: usize = 0;
        while i < n
            invariant
                n == self.size(),
                i <= n,
                targets@.len() == i,
                forall|j: int| 0 <= j < i ==> !targets@[j],
            decreases n - i,
        {
            targets.push(false);
            i = i + 1;
        }
        assert(flagged(targets@) =~= Set::empty());
        let mut i: usize = 0;
        while i < n
            invariant
                self.wf(),
                n == self.size(),
                active@.len() == n,
                i <= n,
                targets@.len() == n,
                notes@ == self.step_notes(flagged(active@), sym, i as int),
                flagged(targets@) == self.step_targets(flagged(active@), sym, i as int),
            decreases n - i,
        {
            if active[i] {
                match self.edge(i, sym) {
                    Some(t) => {
                        notes.push(t.note);
                        targets.set(t.next_state, true);
                    },
                    None => {},
                }
            }
            assert(flagged(targets@) =~= self.step_targets(flagged(active@), sym, i + 1));
            i = i + 1;
        }
        (notes, targets)
    }

    /// Whether some flagged state is accepting.
    fn accepting_among(&self, active: &Vec<bool>) -> (r: bool)
        ensures
            r == self.any_accepting(flagged(active@)),
    {
        let mut i: usize = 0;
        while i < active.len()
            invariant
                i <= active@.len(),
                forall|j: int| 0 <= j < i && active@[j] ==> !self.accepts(j),
            decreases active@.len() - i,
        {
            if active[i] && self.is_accepting(i) {
                assert(flagged(active@).contains(i as int));
                return true;
            }
            i = i + 1;
        }
        false
    }

    /// Runs the automaton over `input`: from the closure of the start state,
    /// each symbol takes every transition out of the active states, emitting
    /// their notes in ascending order of source state, until a symbol has no
    /// transition (rejection) or the input ends (acceptance if an active
    /// state is accepting).
    pub fn run(&self, input: &[Symbol]) -> (r: RunResult)
        requires
            self.wf(),
        ensures
            r@ == self.run_spec(input@),
    {
        let n = self.states.len();
        let mut seed: Vec<bool> = Vec::new();
        let mut i: usize = 0;
        while i < n
            invariant
                n == self.size(),
                i <= n,
                seed@.len() == i,
                forall|j: int| 0 <= j < i ==> !seed@[j],
            decreases n - i,
        {
            seed.push(false);
            i = i + 1;
        }
        seed.set(self.start, true);
        assert(flagged(seed@) =~= set![self.start as int]);
        let mut active = self.closure_flags(seed);
        let mut emissions: Vec<Note> = Vec::new();
        let mut consumed: usize = 0;
        assert(input@.skip(0) =~= input@);
        assert(Seq::<Note>::empty() + self.run_spec(input@).2 =~= self.run_spec(input@).2);
        while consumed < input.len()
            invariant
                self.wf(),
                active@.len() == self.size(),
                consumed <= input@.len(),
                ({
                    let o = self.outcome(flagged(active@), input@.skip(consumed as int));
                    self.run_spec(input@) == (o.0, (consumed + o.1) as nat, emissions@ + o.2)
                }),
            decreases input@.len() - consumed,
        {
            let sym = input[consumed];
            let ghost rest = input@.skip(consumed as int);
            assert(rest[0] == sym);
            assert(rest.drop_first() =~= input@.skip(consumed + 1));
            let (mut notes, targets) = self.step(&active, sym);
            if notes.len() == 0 {
                assert(emissions@ + Seq::<Note>::empty() =~= emissions@);
                return RunResult { accepted: false, consumed, emissions };
            }
            let ghost before = emissions@;
            let ghost next_outcome = self.outcome(
                self.closure(flagged(targets@)),
                input@.skip(consumed + 1),
            );
            emissions.append(&mut notes);
            assert(before + (self.step_notes(flagged(active@), sym, self.size()) + next_outcome.2)
                =~= emissions@ + next_outcome.2);
            active = self.closure_flags(targets);
            consumed = consumed + 1;
        }
        assert(input@.skip(consumed as int) =~= Seq::<Symbol>::empty());
        assert(emissions@ + Seq::<Note>::empty() =~= emissions@);
        let accepted = self.accepting_among(&active);
        RunResult { accepted, consumed, emissions }
    }

    /// The states reachable through empty moves from `set`, in ascending order.
    pub fn epsilon_closure(&self, set: &Vec<usize>) -> (r: Vec<usize>)
        requires
            self.wf(),
            forall|k: int| 0 <= k < set@.len() ==> #[trigger] set@[k] < self.size(),
        ensures
            index_set(r@) == self.closure(index_set(set@)),
            forall|a: int, b: int| 0 <= a < b < r@.len() ==> r@[a] < r@[b],
    {
        let n = self.states.len();
        let mut seed: Vec<bool> = Vec::new();
        let mut i: usize = 0;
        while i < n
            invariant
                n == self.size(),
                i <= n,
                seed@.len() == i,
                forall|j: int| 0 <= j < i ==> !seed@[j],
            decreases n - i,
        {
            seed.push(false);
            i = i + 1;
        }
        let mut k: usize = 0;
        while k < set.len()
            invariant
                n == self.size(),
                seed@.len() == n,
                k <= set@.len(),
                forall|j: int| 0 <= j < set@.len() ==> #[trigger] set@[j] < n,
                forall|j: int|
                    0 <= j < n ==> (seed@[j] <==> exists|q: int| 0 <= q < k && set@[q] as int == j),
            decreases set@.len() - k,
        {
            let x = set[k];
            seed.set(x, true);
            assert forall|j: int| 0 <= j < n implies (seed@[j] <==> exists|q: int|
                0 <= q < k + 1 && set@[q] as int == j) by {
                if j == x as int {
                    assert(set@[k as int] as int == j);
                }
            }
            k = k + 1;
        }
        assert(flagged(seed@) =~= index_set(set@));
        let flags = self.closure_flags(seed);
        let mut out: Vec<usize> = Vec::new();
        let mut i: usize = 0;
        while i < n
            invariant
                n == self.size(),
                flags@.len() == n,
                i <= n,
                forall|a: int, b: int| 0 <= a < b < out@.len() ==> out@[a] < out@[b],
                forall|a: int| 0 <= a < out@.len() ==> #[trigger] out@[a] < i,
                forall|j: int| 0 <= j < i ==> (flags@[j] <==> index_set(out@).contains(j)),
                forall|j: int| #[trigger] index_set(out@).contains(j) ==> 0 <= j < i,
            decreases n - i,
        {
            let ghost before = out@;
            if flags[i] {
                out.push(i);
                assert(out@[before.len() as int] == i);
            }
            assert forall|j: int| #[trigger] index_set(out@).contains(j) implies 0 <= j < i + 1
                && (j < i ==> index_set(before).contains(j)) by {
                let q = choose|q: int| 0 <= q < out@.len() && out@[q] as int == j;
                if q < before.len() {
                    assert(before[q] as int == j);
                }
            }
            assert forall|j: int| 0 <= j < i && index_set(before).contains(j) implies index_set(
                out@,
            ).contains(j) by {
                let q = choose|q: int| 0 <= q < before.len() && before[q] as int == j;
                assert(out@[q] as int == j);
            }
            i = i + 1;
        }
        assert(index_set(out@) =~= flagged(flags@));
        out
    }
}

/// The indices that a sequence holds.
pub open spec fn index_set(s: Seq<usize>) -> Set<int> {
    Set::new(|i: int| exists|k: int| 0 <= k < s.len() && s[k] as int == i)
}

/// Closing a set of states under empty moves twice gives what closing it once
/// gives, whatever cycles the empty moves form.
pub proof fn lemma_closure_idempotent(m: &Automaton, s: Set<int>)
    ensures
        m.closure(m.closure(s)) == m.closure(s),
{
    let c = m.closure(s);
    assert forall|j: int| #[trigger] m.closure(c).contains(j) implies c.contains(j) by {
        let (i1, k1) = choose|i1: int, k1: nat| c.contains(i1) && m.epsilon_walk(i1, k1) == Some(j);
        let (i0, k0) = choose|i0: int, k0: nat| s.contains(i0) && m.epsilon_walk(i0, k0) == Some(i1);
        lemma_walk_split(m, i0, k0, k1);
        assert(m.epsilon_walk(i0, k0 + k1) == Some(j));
    }
    assert forall|j: int| #[trigger] c.contains(j) implies m.closure(c).contains(j) by {
        assert(m.epsilon_walk(j, 0) == Some(j));
    }
    assert(m.closure(c) =~= c);
}

/// Two runs of one automaton over one input report the same acceptance, the
/// same count of consumed symbols and the same notes.
pub proof fn lemma_run_deterministic(m: &Automaton, input: Seq<Symbol>, r1: RunResult, r2: RunResult)
    requires
        r1@ == m.run_spec(input),
        r2@ == m.run_spec(input),
    ensures
        r1.accepted == r2.accepted,
        r1.consumed == r2.consumed,
        r1.emissions@ == r2.emissions@,
{
}

} // verus!
