use vstd::prelude::*;

verus! {

/// The highest pitch or velocity a note may carry (MIDI range).
pub const MAX_MIDI_VALUE: u8 = 127;

/// Why a table of states cannot be made into an automaton.
#[derive(Copy, Clone, Eq, PartialEq, Debug, Structural)]
pub enum ConstructionError {
    /// The start, an accepting index or a transition's destination names no state.
    DanglingIndex,
    /// A transition's note lies outside the valid ranges.
    EmissionOutOfRange,
    /// A state has two transitions on one symbol.
    DuplicateEdge,
}

/// A MIDI note: the value emitted when a transition is taken.
#[derive(Copy, Clone, Eq, PartialEq, Debug, Structural)]
pub struct Note {
    /// The pitch of the note
    pub pitch: u8,
    /// How loud a note sounds
    pub velocity: u8,
    /// Duration of the note in milliseconds
    pub duration: u8,
}

/// A state transition: the destination state's index and the note it emits.
#[derive(Copy, Clone, Eq, PartialEq, Debug, Structural)]
pub struct Transition {
    pub next_state: usize,
    pub note: Note,
}

/// A state with transitions, at most one per symbol.
pub struct State {
    pub name: String,
    pub transitions: Vec<(Symbol, Transition)>,
}

/// Represents a symbol in an alphabet: the empty-move marker or one character.
#[derive(Copy, Clone, Hash, Eq, PartialEq, Debug, Structural)]
pub enum Symbol {
    Epsilon,
    Letter(char),
}

/// The ordinary symbol of one character.
pub open spec fn letter_of(c: char) -> Symbol {
    Symbol::Letter(c)
}

/// The symbols of a character sequence, one letter per character, in order.
pub open spec fn letters_of(s: Seq<char>) -> Seq<Symbol> {
    Seq::new(s.len(), |k: int| letter_of(s[k]))
}

impl Symbol {
    /// The ordinary symbol of a character.
    pub fn new(letter: char) -> (r: Symbol)
        ensures
            r == Symbol::Letter(letter),
    {
        Symbol::Letter(letter)
    }

    /// Create symbols from a string
    pub fn from(string: &str) -> (r: Vec<Symbol>)
        ensures
            r@ == letters_of(string@),
            r@.len() == string@.len(),
            forall|k: int| 0 <= k < r@.len() ==> r@[k] == Symbol::Letter(string@[k]),
            !r@.contains(Symbol::Epsilon),
    {
        let n = string.unicode_len();
        let mut out: Vec<Symbol> = Vec::new();
        let mut i: usize = 0;
        while i < n
            invariant
                n == string@.len(),
                i <= n,
                out@.len() == i,
                forall|k: int| 0 <= k < i ==> out@[k] == Symbol::Letter(string@[k]),
            decreases n - i,
        {
            let c = string.get_char(i);
            out.push(Symbol::new(c));
            i = i + 1;
        }
        assert(out@ =~= letters_of(string@));
        assert(!out@.contains(Symbol::Epsilon));
        out
    }

    /// The text shown for this symbol: its character, or `<ϵ>` for the empty
    /// move, which is more than one character and so differs from every
    /// letter's text.
    pub fn to_string(&self) -> (r: String)
        ensures
            r@ == match *self {
                Symbol::Epsilon => "<ϵ>"@,
                Symbol::Letter(c) => seq![c],
            },
            *self == Symbol::Epsilon ==> forall|c: char| r@ != seq![c],
    {
        match *self {
            Symbol::Epsilon => {
                proof {
                    reveal_strlit("<ϵ>");
                }
                assert(forall|c: char| "<ϵ>"@.len() != seq![c].len());
                "<ϵ>".to_owned()
            },
            Symbol::Letter(c) => char_to_string(c),
        }
    }
}

/// Relies on `String::from(char)`: a string holding exactly that character.
#[verifier::external_body]
fn char_to_string(c: char) -> (r: String)
    ensures
        r@ == seq![c],
{
    String::from(c)
}

impl Note {
    /// Pitch and velocity lie in the MIDI range and the duration is positive.
    pub open spec fn valid(self) -> bool {
        self.pitch <= MAX_MIDI_VALUE && self.velocity <= MAX_MIDI_VALUE && self.duration > 0
    }

    /// A note with the given values, if they lie in their ranges.
    pub fn new(pitch: u8, velocity: u8, duration: u8) -> (r: Result<Note, ConstructionError>)
        ensures
            r == if (Note { pitch, velocity, duration }).valid() {
                Ok::<Note, ConstructionError>(Note { pitch, velocity, duration })
            } else {
                Err(ConstructionError::EmissionOutOfRange)
            },
    {
        let note = Note { pitch, velocity, duration };
        if note.is_valid() {
            Ok(note)
        } else {
            Err(ConstructionError::EmissionOutOfRange)
        }
    }

    pub fn is_valid(&self) -> (r: bool)
        ensures
            r == self.valid(),
    {
        self.pitch <= MAX_MIDI_VALUE && self.velocity <= MAX_MIDI_VALUE && self.duration > 0
    }
}

/// The transition that a list of (symbol, transition) pairs gives a symbol, if any.
pub open spec fn lookup(ts: Seq<(Symbol, Transition)>, sym: Symbol) -> Option<Transition> {
    if exists|k: int| 0 <= k < ts.len() && ts[k].0 == sym {
        Some(ts[choose|k: int| 0 <= k < ts.len() && ts[k].0 == sym].1)
    } else {
        None
    }
}

/// No symbol labels two transitions.
pub open spec fn keys_unique(ts: Seq<(Symbol, Transition)>) -> bool {
    forall|i: int, j: int| 0 <= i < j < ts.len() ==> ts[i].0 != ts[j].0
}

impl State {
    /// A state with the given name and no transitions.
    pub fn new(name: String) -> (r: State)
        ensures
            r.name@ == name@,
            r.transitions@.len() == 0,
    {
        State { name, transitions: Vec::new() }
    }

    /// Sets the transition on `sym`, replacing and returning the one it had.
    pub fn insert(&mut self, sym: Symbol, transition: Transition) -> (r: Option<Transition>)
        requires
            keys_unique(old(self).transitions@),
        ensures
            r == lookup(old(self).transitions@, sym),
            keys_unique(final(self).transitions@),
            lookup(final(self).transitions@, sym) == Some(transition),
            forall|other: Symbol|
                other != sym ==> lookup(final(self).transitions@, other) == lookup(
                    old(self).transitions@,
                    other,
                ),
            final(self).name@ == old(self).name@,
    {
        let previous = self.edge(sym);
        let ghost ts = self.transitions@;
        let n = self.transitions.len();
        let mut k: usize = 0;
        while k < n
            invariant
                n == self.transitions@.len(),
                ts == self.transitions@,
                keys_unique(ts),
                ts == old(self).transitions@,
                previous == lookup(ts, sym),
                self.name == old(self).name,
                k <= n,
                forall|j: int| 0 <= j < k ==> self.transitions@[j].0 != sym,
            decreases n - k,
        {
            if self.transitions[k].0 == sym {
                self.transitions.set(k, (sym, transition));
                proof {
                    let us = self.transitions@;
                    assert(us[k as int] == (sym, transition));
                    assert forall|j: int| 0 <= j < us.len() && us[j].0 == sym implies j == k by {
                        if j > k {
                            assert(ts[k as int].0 != ts[j].0);
                        }
                    }
                    assert forall|other: Symbol| other != sym implies lookup(us, other) == lookup(ts, other) by {
                        if exists|j: int| 0 <= j < ts.len() && ts[j].0 == other {
                            let c2 = choose|j: int| 0 <= j < ts.len() && ts[j].0 == other;
                            assert(us[c2].0 == other);
                            let c1 = choose|j: int| 0 <= j < us.len() && us[j].0 == other;
                            assert(ts[c1].0 == other);
                            if c1 < c2 {
                                assert(ts[c1].0 != ts[c2].0);
                            } else if c2 < c1 {
                                assert(ts[c2].0 != ts[c1].0);
                            }
                        } else {
                            assert forall|j: int| 0 <= j < us.len() implies us[j].0 != other by {
                                if j != k {
                                    assert(ts[j].0 != other);
                                }
                            }
                        }
                    }
                }
                return previous;
            }
            k = k + 1;
        }
        self.transitions.push((sym, transition));
        proof {
            let us = self.transitions@;
            assert(us[n as int].0 == sym);
            assert forall|other: Symbol| other != sym implies lookup(us, other) == lookup(ts, other) by {
                if exists|j: int| 0 <= j < ts.len() && ts[j].0 == other {
                    let c2 = choose|j: int| 0 <= j < ts.len() && ts[j].0 == other;
                    assert(us[c2].0 == other);
                    let c1 = choose|j: int| 0 <= j < us.len() && us[j].0 == other;
                    assert(c1 < n);
                    assert(ts[c1].0 == other);
                    if c1 < c2 {
                        assert(ts[c1].0 != ts[c2].0);
                    } else if c2 < c1 {
                        assert(ts[c2].0 != ts[c1].0);
                    }
                } else {
                    assert forall|j: int| 0 <= j < us.len() implies us[j].0 != other by {
                        if j < n {
                            assert(ts[j].0 != other);
                        }
                    }
                }
            }
        }
        previous
    }

    /// The transition of this state on a symbol, if it has one.
    pub fn edge(&self, sym: Symbol) -> (r: Option<Transition>)
        requires
            keys_unique(self.transitions@),
        ensures
            r == lookup(self.transitions@, sym),
    {
        let n = self.transitions.len();
        let mut k: usize = 0;
        while k < n
            invariant
                n == self.transitions@.len(),
                keys_unique(self.transitions@),
                k <= n,
                forall|j: int| 0 <= j < k ==> self.transitions@[j].0 != sym,
            decreases n - k,
        {
            if self.transitions[k].0 == sym {
                let ghost ts = self.transitions@;
                assert forall|j: int| 0 <= j < ts.len() && ts[j].0 == sym implies j == k by {
                    if j > k {
                        assert(ts[k as int].0 != ts[j].0);
                    }
                }
                return Some(self.transitions[k].1);
            }
            k = k + 1;
        }
        None
    }
}

} // verus!
