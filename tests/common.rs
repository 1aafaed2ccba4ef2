use note_automaton::{ConstructionError, Note, State, Symbol, Transition};

#[test]
fn test_symbol_from_str() {
    let word = "word";
    let expected_symbols = vec![
        Symbol::Letter('w'),
        Symbol::Letter('o'),
        Symbol::Letter('r'),
        Symbol::Letter('d'),
    ];

    let actual_symbols = Symbol::from(word);

    assert_eq!(expected_symbols, actual_symbols)
}

#[test]
fn symbols_from_empty_string_is_empty() {
    assert!(Symbol::from("").is_empty());
}

#[test]
fn symbols_from_keeps_length_order_and_has_no_epsilon() {
    let text = "añb€c";
    let symbols = Symbol::from(text);
    assert_eq!(symbols.len(), text.chars().count());
    for (sym, c) in symbols.iter().zip(text.chars()) {
        assert_eq!(*sym, Symbol::Letter(c));
        assert_ne!(*sym, Symbol::Epsilon);
    }
}

#[test]
fn symbol_new_wraps_a_letter() {
    assert_eq!(Symbol::new('q'), Symbol::Letter('q'));
    assert_ne!(Symbol::new('q'), Symbol::Epsilon);
}

#[test]
fn symbol_to_string_tells_epsilon_from_every_letter() {
    assert_eq!(Symbol::Letter('z').to_string(), "z");
    assert_eq!(Symbol::Epsilon.to_string(), "<ϵ>");
    assert_ne!(Symbol::Epsilon.to_string(), Symbol::Letter('ϵ').to_string());
    assert_eq!(Symbol::Letter('ϵ').to_string(), "ϵ");
}

#[test]
fn note_new_checks_ranges() {
    assert_eq!(
        Note::new(60, 100, 200),
        Ok(Note { pitch: 60, velocity: 100, duration: 200 })
    );
    assert_eq!(Note::new(127, 127, 1).map(|n| n.pitch), Ok(127));
    assert_eq!(Note::new(128, 100, 200), Err(ConstructionError::EmissionOutOfRange));
    assert_eq!(Note::new(60, 128, 200), Err(ConstructionError::EmissionOutOfRange));
    assert_eq!(Note::new(60, 100, 0), Err(ConstructionError::EmissionOutOfRange));
}

#[test]
fn note_is_valid_matches_ranges() {
    assert!(Note { pitch: 0, velocity: 0, duration: 1 }.is_valid());
    assert!(!Note { pitch: 128, velocity: 0, duration: 1 }.is_valid());
    assert!(!Note { pitch: 0, velocity: 0, duration: 0 }.is_valid());
}

#[test]
fn state_insert_replaces_and_edge_finds() {
    let n1 = Note { pitch: 1, velocity: 2, duration: 3 };
    let n2 = Note { pitch: 4, velocity: 5, duration: 6 };
    let mut st = State::new("q".to_string());
    assert_eq!(st.edge(Symbol::Letter('a')), None);
    let t1 = Transition { next_state: 1, note: n1 };
    let t2 = Transition { next_state: 2, note: n2 };
    assert_eq!(st.insert(Symbol::Letter('a'), t1), None);
    assert_eq!(st.insert(Symbol::Epsilon, t2), None);
    assert_eq!(st.insert(Symbol::Letter('a'), t2), Some(t1));
    assert_eq!(st.transitions.len(), 2);
    assert_eq!(st.edge(Symbol::Letter('a')), Some(t2));
    assert_eq!(st.edge(Symbol::Epsilon), Some(t2));
    assert_eq!(st.edge(Symbol::Letter('b')), None);
    assert_eq!(st.name, "q");
}
