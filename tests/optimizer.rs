use figured_bass::machine_learning::{
    chord_from_draws, distinct_positions, generate_chord, voice_above, Generation, MachineLearning,
    OptimizerError, Realisation,
};
use figured_bass::music_theory::{Chord, Note, NoteName, NoteWithOctave};

fn nwo(name: NoteName, octave: u32) -> NoteWithOctave {
    NoteWithOctave::new(name, None, octave)
}

fn plain(name: NoteName) -> Note {
    Note { name, accidental: None }
}

fn c_major_triad() -> (NoteWithOctave, Vec<Note>) {
    (nwo(NoteName::C, 3), vec![plain(NoteName::C), plain(NoteName::E), plain(NoteName::G)])
}

fn progression() -> Vec<(NoteWithOctave, Vec<Note>)> {
    vec![
        c_major_triad(),
        (nwo(NoteName::F, 3), vec![plain(NoteName::F), plain(NoteName::A), plain(NoteName::C)]),
        (nwo(NoteName::G, 2), vec![plain(NoteName::G), plain(NoteName::B), plain(NoteName::D)]),
        c_major_triad(),
    ]
}

fn fits(c: &Chord, position: &(NoteWithOctave, Vec<Note>)) -> bool {
    let permitted = &position.1;
    let voices = [c.s, c.a, c.t, c.b];
    voices.iter().all(|v| permitted.contains(&v.note))
        && permitted.iter().all(|p| voices.iter().any(|v| v.note == *p))
        && c.b == position.0
        && (48..=67).contains(&c.s.to_semitones())
        && (43..=60).contains(&c.a.to_semitones())
        && (36..=55).contains(&c.t.to_semitones())
}

#[test]
fn voice_goes_up_an_octave_when_needed() {
    let g3 = nwo(NoteName::G, 3);
    assert_eq!(voice_above(g3, plain(NoteName::E)), nwo(NoteName::E, 4));
    assert_eq!(voice_above(g3, plain(NoteName::B)), nwo(NoteName::B, 3));
    assert_eq!(voice_above(g3, plain(NoteName::G)), g3);
}

#[test]
fn draws_that_pass_give_the_chord() {
    let position = c_major_triad();
    let c = chord_from_draws(&position, 1, 2, 0).unwrap();
    assert_eq!(c, Chord::new(nwo(NoteName::C, 4), nwo(NoteName::G, 3), nwo(NoteName::E, 3), nwo(NoteName::C, 3)));
}

#[test]
fn draws_out_of_range_or_missing_a_class_are_rejected() {
    let position = c_major_triad();
    // alto C3 lies below G3
    assert_eq!(chord_from_draws(&position, 0, 0, 0), None);
    // tenor G3, alto G3, soprano C4: E is never sounded
    assert_eq!(chord_from_draws(&position, 2, 2, 0), None);
}

#[test]
fn generated_chords_fit_their_position() {
    for position in progression().iter() {
        for _ in 0..20 {
            let c = generate_chord(position).unwrap();
            assert!(fits(&c, position));
        }
    }
}

#[test]
fn empty_permitted_set_is_unsatisfiable() {
    let position = (nwo(NoteName::C, 3), Vec::new());
    assert_eq!(generate_chord(&position), Err(OptimizerError::UnsatisfiableVoicing));
}

#[test]
fn too_many_classes_is_unsatisfiable() {
    let five = vec![
        plain(NoteName::C),
        plain(NoteName::D),
        plain(NoteName::E),
        plain(NoteName::F),
        plain(NoteName::G),
    ];
    let position = (nwo(NoteName::C, 3), five);
    assert_eq!(generate_chord(&position), Err(OptimizerError::UnsatisfiableVoicing));
}

#[test]
fn single_chord_scores_doubling_and_range_only() {
    // tenor G3 equals alto G3: doubling, and alto G3 lies below B3
    let position = c_major_triad();
    let c = chord_from_draws(&position, 2, 2, 1).unwrap();
    assert_eq!(c.t, c.a);
    assert_eq!(Realisation::score(&[c]), -25 - 5);
}

#[test]
fn single_chord_without_penalties_scores_zero() {
    let c = Chord::new(nwo(NoteName::E, 4), nwo(NoteName::C, 4), nwo(NoteName::G, 3), nwo(NoteName::C, 3));
    assert_eq!(Realisation::score(&[c]), 0);
    assert_eq!(Realisation::score(&[]), 0);
}

#[test]
fn repeated_chord_earns_full_smoothness() {
    let c = Chord::new(nwo(NoteName::E, 4), nwo(NoteName::C, 4), nwo(NoteName::G, 3), nwo(NoteName::C, 3));
    // bass and alto keep sharing C: parallel octaves; bass to tenor stays a fifth
    assert_eq!(Realisation::score(&[c, c]), 40 + 20 + 20 - 100 - 100);
}

#[test]
fn repeated_chord_with_penalties() {
    let c = Chord::new(nwo(NoteName::C, 4), nwo(NoteName::G, 3), nwo(NoteName::E, 3), nwo(NoteName::C, 3));
    // each chord: soprano, alto and tenor outside their preferred ranges
    assert_eq!(Realisation::score(&[c, c]), -15 - 15 + 80 - 100 - 100);
}

#[test]
fn smoothness_falls_with_distance() {
    let c1 = Chord::new(nwo(NoteName::E, 4), nwo(NoteName::C, 4), nwo(NoteName::G, 3), nwo(NoteName::C, 3));
    let c2 = Chord::new(nwo(NoteName::F, 4), nwo(NoteName::C, 4), nwo(NoteName::A, 3), nwo(NoteName::F, 3));
    assert_eq!(Realisation::score(&[c1, c2]), (40 - 10) + 20 + (20 - 10));
}

#[test]
fn scoring_is_repeatable() {
    let r = Realisation::new(&progression()).unwrap();
    let first = Realisation::score(&r.chords);
    let second = Realisation::score(&r.chords);
    assert_eq!(first, second);
    assert_eq!(first, r.score);
}

#[test]
fn new_realisation_voices_every_position() {
    let input = progression();
    let r = Realisation::new(&input).unwrap();
    assert_eq!(r.chords.len(), input.len());
    for (c, position) in r.chords.iter().zip(input.iter()) {
        assert!(fits(c, position));
    }
    assert_eq!(r.score, Realisation::score(&r.chords));
}

#[test]
fn distinct_positions_skip_taken_ones() {
    assert_eq!(distinct_positions(3, 0, 0, 0), (0, 1, 2));
    assert_eq!(distinct_positions(3, 2, 1, 0), (2, 1, 0));
    assert_eq!(distinct_positions(5, 4, 3, 2), (4, 3, 2));
    assert_eq!(distinct_positions(5, 1, 1, 1), (1, 2, 3));
}

#[test]
fn mutation_changes_at_most_three_positions() {
    let input = progression();
    let r = Realisation::new(&input).unwrap();
    for _ in 0..20 {
        let m = r.mutate(&input).unwrap();
        assert_eq!(m.chords.len(), r.chords.len());
        let changed = m.chords.iter().zip(r.chords.iter()).filter(|(x, y)| x != y).count();
        assert!(changed <= 3);
        assert_eq!(m.score, Realisation::score(&m.chords));
        for (c, position) in m.chords.iter().zip(input.iter()) {
            assert!(fits(c, position));
        }
    }
}

#[test]
fn invalid_counts_are_rejected() {
    assert!(MachineLearning::new(10, 10, 1, 2, 1).is_ok());
    assert_eq!(MachineLearning::new(10, 10, 1, 2, 2).err(), Some(OptimizerError::InvalidConfig));
    assert_eq!(MachineLearning::new(10, 10, 0, 2, 2).err(), Some(OptimizerError::InvalidConfig));
    assert_eq!(MachineLearning::new(0, 10, 1, 1, 1).err(), Some(OptimizerError::InvalidConfig));
    assert_eq!(MachineLearning::new(5, 0, 0, 0, 0).err(), Some(OptimizerError::InvalidConfig));
}

#[test]
fn first_generation_is_fresh() {
    let input = progression();
    let g = Generation::new(7, 1, 1, 1, &input, &None).unwrap();
    assert_eq!(g.realisations.len(), 7);
    for r in g.realisations.iter() {
        assert_eq!(r.score, Realisation::score(&r.chords));
    }
}

#[test]
fn generation_rejects_bad_counts() {
    let input = progression();
    assert!(Generation::new(7, 1, 1, 1, &input, &None).is_ok());
    assert_eq!(
        Generation::new(6, 1, 1, 1, &input, &None).err(),
        Some(OptimizerError::InvalidConfig)
    );
    assert_eq!(
        Generation::new(7, 2, 1, 1, &input, &None).err(),
        Some(OptimizerError::InvalidConfig)
    );
}

#[test]
fn mutation_needs_three_positions() {
    let input = vec![c_major_triad(), c_major_triad()];
    let first = Generation::new(5, 1, 1, 0, &input, &None).unwrap();
    assert_eq!(
        Generation::new(5, 1, 1, 0, &input, &Some(first.clone())).err(),
        Some(OptimizerError::TooFewPositions)
    );
    assert!(Generation::new(5, 1, 0, 0, &input, &Some(first)).is_ok());
}

#[test]
fn elites_are_the_best_of_the_previous_generation() {
    let input = progression();
    let prev = Generation::new(12, 3, 1, 1, &input, &None).unwrap();
    let next = Generation::new(12, 3, 1, 1, &input, &Some(prev.clone())).unwrap();
    assert_eq!(next.realisations.len(), 12);
    let mut scores: Vec<i32> = prev.realisations.iter().map(|r| r.score).collect();
    scores.sort();
    let threshold = scores[12 - 3];
    for elite in next.realisations[0..3].iter() {
        assert!(elite.score >= threshold);
        assert!(prev.realisations.iter().any(|p| p.chords == elite.chords && p.score == elite.score));
    }
}

#[test]
fn run_returns_the_best_of_the_last_generation() {
    let input = progression();
    let mut ml = MachineLearning::new(3, 10, 1, 1, 1).unwrap();
    let best = ml.start(&input).unwrap();
    let last = ml.current_generation.as_ref().unwrap();
    assert_eq!(last.realisations.len(), 10);
    assert!(last.realisations.iter().all(|r| r.score <= best.score));
    assert_eq!(best.score, Realisation::score(&best.chords));
}

#[test]
fn each_step_reports_its_best_score() {
    let input = progression();
    let mut ml = MachineLearning::new(2, 8, 2, 1, 1).unwrap();
    let best = ml.next_generation(&input).unwrap();
    let g = ml.current_generation.as_ref().unwrap();
    assert_eq!(best, g.realisations.iter().map(|r| r.score).max().unwrap());
}

#[test]
fn doubling_counts_each_pair() {
    let c = Chord::new(nwo(NoteName::C, 4), nwo(NoteName::C, 4), nwo(NoteName::C, 4), nwo(NoteName::C, 3));
    // tenor equals alto and alto equals soprano; soprano C4 lies below E4
    assert_eq!(Realisation::score(&[c]), -25 - 25 - 5);
}

#[test]
fn position_where_every_draw_passes_always_succeeds() {
    let position = (nwo(NoteName::C, 4), vec![plain(NoteName::C)]);
    let c4 = nwo(NoteName::C, 4);
    for _ in 0..10 {
        assert_eq!(generate_chord(&position), Ok(Chord::new(c4, c4, c4, c4)));
    }
}

#[test]
fn empty_bass_line_realises_to_nothing() {
    let r = Realisation::new(&[]).unwrap();
    assert!(r.chords.is_empty());
    assert_eq!(r.score, 0);
}

#[test]
fn best_score_never_drops_with_elites() {
    let input = progression();
    let mut ml = MachineLearning::new(5, 12, 2, 1, 1).unwrap();
    let mut last = ml.next_generation(&input).unwrap();
    for _ in 0..4 {
        let best = ml.next_generation(&input).unwrap();
        assert!(best >= last);
        last = best;
    }
}

#[test]
fn run_on_short_line_after_a_generation_needs_three_positions() {
    let input = vec![c_major_triad(), c_major_triad()];
    let mut ml = MachineLearning::new(2, 5, 1, 1, 0).unwrap();
    assert!(ml.next_generation(&input).is_ok());
    assert_eq!(ml.start(&input).err(), Some(OptimizerError::TooFewPositions));
}

#[test]
fn distinct_positions_third_draw_skips_both() {
    // d0 = 2, d1 = 0 gives 0; the third draw 0 skips 0 and then 2
    assert_eq!(distinct_positions(4, 2, 0, 0), (2, 0, 1));
    assert_eq!(distinct_positions(4, 2, 0, 1), (2, 0, 3));
}
