use figured_bass::music_theory::{
    Accidental, Chord, Figure, KeySignature, Note, NoteName, NoteWithOctave, Tonality,
};

fn note(name: NoteName, accidental: Option<Accidental>) -> Note {
    Note { name, accidental }
}

#[test]
fn new_prefers_plain_spelling() {
    assert_eq!(Note::new(NoteName::E, Some(Accidental::Sharp)), note(NoteName::F, None));
    assert_eq!(Note::new(NoteName::C, Some(Accidental::Flat)), note(NoteName::B, None));
    assert_eq!(Note::new(NoteName::B, Some(Accidental::Sharp)), note(NoteName::C, None));
    assert_eq!(
        Note::new(NoteName::F, Some(Accidental::Sharp)),
        note(NoteName::F, Some(Accidental::Sharp))
    );
    assert_eq!(
        Note::new(NoteName::B, Some(Accidental::Flat)),
        note(NoteName::B, Some(Accidental::Flat))
    );
}

#[test]
fn pitch_classes_stay_below_twelve() {
    assert_eq!(note(NoteName::C, None).to_semitones(), 0);
    assert_eq!(note(NoteName::C, Some(Accidental::Sharp)).to_semitones(), 1);
    assert_eq!(note(NoteName::C, Some(Accidental::Flat)).to_semitones(), 11);
    assert_eq!(note(NoteName::B, Some(Accidental::Sharp)).to_semitones(), 0);
    assert_eq!(note(NoteName::A, None).to_semitones(), 9);
}

#[test]
fn from_semitones_spells_with_the_given_modifier() {
    assert_eq!(Note::from_semitones(1, Accidental::Sharp), note(NoteName::C, Some(Accidental::Sharp)));
    assert_eq!(Note::from_semitones(1, Accidental::Flat), note(NoteName::D, Some(Accidental::Flat)));
    assert_eq!(Note::from_semitones(16, Accidental::Flat), note(NoteName::E, None));
    assert_eq!(Note::from_semitones(22, Accidental::Sharp), note(NoteName::A, Some(Accidental::Sharp)));
}

#[test]
fn enharmonic_equivalents() {
    let c_sharp = note(NoteName::C, Some(Accidental::Sharp));
    assert_eq!(c_sharp.enharmonic_equivalent(), note(NoteName::D, Some(Accidental::Flat)));
    assert_eq!(note(NoteName::G, None).enharmonic_equivalent(), note(NoteName::G, None));
    assert_eq!(note(NoteName::A, None).semitones_between(note(NoteName::C, None)), 9);
}

#[test]
fn absolute_pitch_arithmetic() {
    let c4 = NoteWithOctave::new(NoteName::C, None, 4);
    let g4 = NoteWithOctave::new(NoteName::G, None, 4);
    let e3 = NoteWithOctave::new(NoteName::E, None, 3);
    assert_eq!(c4.to_semitones(), 48);
    assert_eq!(c4.semitones_up_to(g4), 7);
    assert_eq!(g4.semitones_up_to(e3), -15);
    assert_eq!(g4.semitones_between(e3), 15);
    assert!(c4.in_range_inclusive(c4, g4));
    assert!(g4.in_range_inclusive(c4, g4));
    assert!(!e3.in_range_inclusive(c4, g4));
    let back = NoteWithOctave::from_semitones(61, Accidental::Flat);
    assert_eq!(back.octave, 5);
    assert_eq!(back.note, note(NoteName::D, Some(Accidental::Flat)));
    assert_eq!(NoteWithOctave::from_note(note(NoteName::A, None), 2).to_semitones(), 33);
}

#[test]
fn letters_and_symbols() {
    assert_eq!(NoteName::G.letter(), 'G');
    assert_eq!(NoteName::from_letter('D'), Some(NoteName::D));
    assert_eq!(NoteName::from_letter('H'), None);
    assert_eq!(NoteName::from_index(6), Some(NoteName::B));
    assert_eq!(NoteName::from_index(7), None);
    assert_eq!(Accidental::Sharp.symbol(), '#');
    assert_eq!(Accidental::Flat.symbol(), 'b');
}

#[test]
fn key_signatures_from_tonic() {
    let g = KeySignature::from_note(NoteName::G, None, Tonality::Major).unwrap();
    assert_eq!(g.accidental, Accidental::Sharp);
    assert_eq!(g.number, 1);
    let f = KeySignature::from_note(NoteName::F, None, Tonality::Major).unwrap();
    assert_eq!(f.accidental, Accidental::Flat);
    assert_eq!(f.number, 1);
    let c = KeySignature::from_note(NoteName::C, None, Tonality::Major).unwrap();
    assert_eq!(c.accidental, Accidental::Sharp);
    assert_eq!(c.number, 0);
    let e_flat_minor = KeySignature::from_note(NoteName::E, Some(Accidental::Flat), Tonality::Minor);
    assert_eq!(e_flat_minor.unwrap().number, 6);
    assert!(KeySignature::from_note(NoteName::C, Some(Accidental::Sharp), Tonality::Major).is_none());
}

#[test]
fn starting_notes_and_scales() {
    let g = KeySignature::from_note(NoteName::G, None, Tonality::Major).unwrap();
    assert_eq!(g.get_starting_note(), note(NoteName::G, None));
    let scale = g.get_scale();
    let expected = vec![
        note(NoteName::G, None),
        note(NoteName::A, None),
        note(NoteName::B, None),
        note(NoteName::C, None),
        note(NoteName::D, None),
        note(NoteName::E, None),
        note(NoteName::F, Some(Accidental::Sharp)),
    ];
    assert_eq!(scale, expected);
    let a_minor = KeySignature::from_note(NoteName::A, None, Tonality::Minor).unwrap();
    assert_eq!(a_minor.get_starting_note(), note(NoteName::A, None));
    let d_minor = KeySignature::from_note(NoteName::D, None, Tonality::Minor).unwrap();
    assert_eq!(d_minor.get_starting_note(), note(NoteName::D, None));
    assert_eq!(d_minor.get_scale()[5], note(NoteName::B, Some(Accidental::Flat)));
}

#[test]
fn figure_orders_its_figures() {
    let f = Figure::new(NoteName::E, None, 3, vec![(5, None), (3, None), (6, Some(Accidental::Sharp))]);
    let steps: Vec<u32> = f.figures.iter().map(|x| x.0).collect();
    assert_eq!(steps, vec![3, 5, 6]);
    assert_eq!(f.bass, NoteWithOctave::new(NoteName::E, None, 3));
}

#[test]
fn figure_expands_in_key() {
    let g = KeySignature::from_note(NoteName::G, None, Tonality::Major).unwrap();
    let e = Figure::new(NoteName::E, None, 3, vec![(5, None), (3, None)]);
    assert_eq!(
        e.to_notes(g).unwrap(),
        vec![note(NoteName::E, None), note(NoteName::G, None), note(NoteName::B, None)]
    );
    let f_sharp = Figure::new(
        NoteName::F,
        Some(Accidental::Sharp),
        3,
        vec![(6, Some(Accidental::Sharp)), (3, None)],
    );
    assert_eq!(
        f_sharp.to_notes(g).unwrap(),
        vec![
            note(NoteName::F, Some(Accidental::Sharp)),
            note(NoteName::A, None),
            note(NoteName::D, Some(Accidental::Sharp)),
        ]
    );
}

#[test]
fn figure_rejects_bad_steps_and_missing_letters() {
    let g = KeySignature::from_note(NoteName::G, None, Tonality::Major).unwrap();
    assert!(Figure::new(NoteName::E, None, 3, vec![(8, None)]).to_notes(g).is_none());
    assert!(Figure::new(NoteName::E, None, 3, vec![(0, None)]).to_notes(g).is_none());
    let seven_sharps = KeySignature { accidental: Accidental::Sharp, number: 7, tonality: Tonality::Major };
    assert!(Figure::new(NoteName::E, None, 3, vec![(3, None)]).to_notes(seven_sharps).is_none());
}

#[test]
fn chord_new_keeps_voices() {
    let s = NoteWithOctave::new(NoteName::E, None, 4);
    let a = NoteWithOctave::new(NoteName::C, None, 4);
    let t = NoteWithOctave::new(NoteName::G, None, 3);
    let b = NoteWithOctave::new(NoteName::C, None, 3);
    let c = Chord::new(s, a, t, b);
    assert_eq!(c.s, s);
    assert_eq!(c.a, a);
    assert_eq!(c.t, t);
    assert_eq!(c.b, b);
}

#[test]
fn figure_ordering_keeps_equal_steps_in_order() {
    let f = Figure::new(
        NoteName::C,
        None,
        3,
        vec![(3, Some(Accidental::Sharp)), (5, None), (3, None), (3, Some(Accidental::Flat))],
    );
    assert_eq!(
        f.figures,
        vec![
            (3, Some(Accidental::Sharp)),
            (3, None),
            (3, Some(Accidental::Flat)),
            (5, None),
        ]
    );
}
