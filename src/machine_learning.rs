use vstd::prelude::*;
use crate::music_theory::{abs_pitch, pitch_class, Chord, Note, NoteName, NoteWithOctave, MAX_OCTAVE};
use crate::scoring::{
    chord_penalties, chord_terms, lemma_score_step, score_fits, score_of, transition_score,
    transition_terms,
};

verus! {

/// Most bass positions a sequence may have, which keeps every score of
/// generated chords within an `i32`.
pub const MAX_CHORDS: usize = 1_000_000;

/// Draws of one chord before the generator gives up on a bass position.
pub const MAX_ATTEMPTS: u32 = 100_000;

/// Why an optimisation step failed.
#[derive(PartialEq, Eq, Structural, Clone, Copy, Debug)]
pub enum OptimizerError {
    /// No chord satisfying the position's constraints was drawn within the
    /// attempt bound (or the position permits no pitch class at all).
    UnsatisfiableVoicing,
    /// The mutation and elitism counts do not fit in the population.
    InvalidConfig,
    /// Mutation needs at least three bass positions.
    TooFewPositions,
}

/// Soprano in C4..G5, alto in G3..C5, tenor in C3..G4.
pub open spec fn in_voice_ranges(c: Chord) -> bool {
    48 <= abs_pitch(c.s) <= 67 && 43 <= abs_pitch(c.a) <= 60 && 36 <= abs_pitch(c.t) <= 55
}

/// Every permitted pitch class sounds in at least one voice.
pub open spec fn covers(c: Chord, permitted: Seq<Note>) -> bool {
    forall|i: int|
        0 <= i < permitted.len() ==> (c.s.note == #[trigger] permitted[i] || c.a.note
            == permitted[i] || c.t.note == permitted[i] || c.b.note == permitted[i])
}

/// `c` is a valid voicing of the position with bass `bass` and permitted
/// pitch classes `permitted`.
pub open spec fn fits_position(c: Chord, bass: NoteWithOctave, permitted: Seq<Note>) -> bool {
    &&& c.b == bass
    &&& permitted.contains(c.s.note)
    &&& permitted.contains(c.a.note)
    &&& permitted.contains(c.t.note)
    &&& covers(c, permitted)
    &&& in_voice_ranges(c)
    &&& c.wf()
}

/// The bass positions can be voiced and scored within machine bounds.
pub open spec fn positions_ok(input: Seq<(NoteWithOctave, Vec<Note>)>) -> bool {
    &&& input.len() <= MAX_CHORDS
    &&& forall|i: int| 0 <= i < input.len() ==> (#[trigger] input[i]).0.octave < MAX_OCTAVE
}

/// Octave rule of the generator: `note` in the octave of `lb`, one octave
/// higher where that would fall below `lb`.
pub open spec fn above_spec(lb: NoteWithOctave, note: Note) -> NoteWithOctave {
    if pitch_class(note) + 12 * lb.octave < abs_pitch(lb) {
        NoteWithOctave { note, octave: (lb.octave + 1) as u32 }
    } else {
        NoteWithOctave { note, octave: lb.octave }
    }
}

/// The chord that draws `ti`, `ai`, `si` of the permitted list give, before
/// any check: tenor above the bass, alto above the tenor, soprano above the alto.
pub open spec fn candidate(bass: NoteWithOctave, permitted: Seq<Note>, ti: int, ai: int, si: int) -> Chord {
    let t = above_spec(bass, permitted[ti]);
    let a = above_spec(t, permitted[ai]);
    let s = above_spec(a, permitted[si]);
    Chord { s, a, t, b: bass }
}

/// Every draw of tenor, alto and soprano from the permitted list gives a
/// chord that passes the coverage and range checks.
pub open spec fn every_draw_passes(bass: NoteWithOctave, permitted: Seq<Note>) -> bool {
    &&& permitted.len() > 0
    &&& forall|ti: int, ai: int, si: int|
        0 <= ti < permitted.len() && 0 <= ai < permitted.len() && 0 <= si < permitted.len() ==> {
            let c = #[trigger] candidate(bass, permitted, ti, ai, si);
            covers(c, permitted) && in_voice_ranges(c)
        }
}

/// Every position of `input` is one where every draw passes.
pub open spec fn every_position_passes(input: Seq<(NoteWithOctave, Vec<Note>)>) -> bool {
    forall|i: int| 0 <= i < input.len() ==> every_draw_passes(#[trigger] input[i].0, input[i].1@)
}

/// `c` is the chord of some draw of tenor, alto and soprano from `permitted`.
pub open spec fn drawn(bass: NoteWithOctave, permitted: Seq<Note>, c: Chord) -> bool {
    exists|ti: int, ai: int, si: int|
        0 <= ti < permitted.len() && 0 <= ai < permitted.len() && 0 <= si < permitted.len() && c
            == #[trigger] candidate(bass, permitted, ti, ai, si)
}

/// Relies on rand::thread_rng and rand::Rng::gen_range: on the non-empty range
/// `0..n` the result lies below `n`.
#[verifier::external_body]
fn random_below(n: usize) -> (r: usize)
    requires
        n > 0,
    ensures
        r < n,
{
    rand::Rng::gen_range(&mut rand::thread_rng(), 0..n)
}

/// `note` placed at or above `lb`, in `lb`'s octave or the next one.
pub fn voice_above(lb: NoteWithOctave, note: Note) -> (r: NoteWithOctave)
    requires
        lb.octave < MAX_OCTAVE,
    ensures
        r == above_spec(lb, note),
        abs_pitch(r) >= abs_pitch(lb),
        r.wf(),
{
    let here = NoteWithOctave::from_note(note, lb.octave);
    if here.to_semitones() < lb.to_semitones() {
        NoteWithOctave::from_note(note, lb.octave + 1)
    } else {
        here
    }
}

fn covers_exec(c: &Chord, permitted: &Vec<Note>) -> (r: bool)
    ensures
        r == covers(*c, permitted@),
{
    let mut i: usize = 0;
    while i < permitted.len()
        invariant
            i <= permitted@.len(),
            forall|j: int|
                0 <= j < i ==> (c.s.note == #[trigger] permitted@[j] || c.a.note == permitted@[j]
                    || c.t.note == permitted@[j] || c.b.note == permitted@[j]),
        decreases permitted@.len() - i,
    {
        let p = permitted[i];
        if !(c.s.note == p || c.a.note == p || c.t.note == p || c.b.note == p) {
            assert(!(c.s.note == permitted@[i as int] || c.a.note == permitted@[i as int]
                || c.t.note == permitted@[i as int] || c.b.note == permitted@[i as int]));
            return false;
        }
        i = i + 1;
    }
    true
}

/// The chord that the draws `ti`, `ai`, `si` (indices into the permitted
/// list, for tenor, alto and soprano) give, if it passes the coverage and
/// range checks.
#[verifier::rlimit(40)]
pub fn chord_from_draws(position: &(NoteWithOctave, Vec<Note>), ti: usize, ai: usize, si: usize) -> (r:
    Option<Chord>)
    requires
        position.0.octave < MAX_OCTAVE,
        ti < position.1@.len(),
        ai < position.1@.len(),
        si < position.1@.len(),
    ensures
        ({
            let c = candidate(position.0, position.1@, ti as int, ai as int, si as int);
            r == if covers(c, position.1@) && in_voice_ranges(c) {
                Some(c)
            } else {
                None::<Chord>
            }
        }),
        r matches Some(c) ==> fits_position(c, position.0, position.1@),
{
    let b = position.0;
    let t = voice_above(b, position.1[ti]);
    if !t.in_range_inclusive(NoteWithOctave::new(NoteName::C, None, 3), NoteWithOctave::new(NoteName::G, None, 4)) {
        return None;
    }
    let a = voice_above(t, position.1[ai]);
    if !a.in_range_inclusive(NoteWithOctave::new(NoteName::G, None, 3), NoteWithOctave::new(NoteName::C, None, 5)) {
        return None;
    }
    let s = voice_above(a, position.1[si]);
    if !s.in_range_inclusive(NoteWithOctave::new(NoteName::C, None, 4), NoteWithOctave::new(NoteName::G, None, 5)) {
        return None;
    }
    let chord = Chord::new(s, a, t, b);
    if !covers_exec(&chord, &position.1) {
        return None;
    }
    proof {
        assert(position.1@.contains(s.note)) by { assert(position.1@[si as int] == s.note); }
        assert(position.1@.contains(a.note)) by { assert(position.1@[ai as int] == a.note); }
        assert(position.1@.contains(t.note)) by { assert(position.1@[ti as int] == t.note); }
    }
    Some(chord)
}

/// Draws chords for one bass position until one passes the coverage and range
/// checks, at most `MAX_ATTEMPTS` times.
pub fn generate_chord(position: &(NoteWithOctave, Vec<Note>)) -> (r: Result<Chord, OptimizerError>)
    requires
        position.0.octave < MAX_OCTAVE,
    ensures
        r matches Ok(c) ==> fits_position(c, position.0, position.1@),
        r matches Ok(c) ==> drawn(position.0, position.1@, c),
        r matches Err(e) ==> e == OptimizerError::UnsatisfiableVoicing,
        position.1@.len() == 0 ==> r is Err,
        every_draw_passes(position.0, position.1@) ==> r is Ok,
{
    let n = position.1.len();
    if n == 0 {
        return Err(OptimizerError::UnsatisfiableVoicing);
    }
    let mut attempt: u32 = 0;
    while attempt < MAX_ATTEMPTS
        invariant
            n == position.1@.len(),
            n > 0,
            position.0.octave < MAX_OCTAVE,
            every_draw_passes(position.0, position.1@) ==> attempt == 0,
        decreases MAX_ATTEMPTS - attempt,
    {
        let ti = random_below(n);
        let ai = random_below(n);
        let si = random_below(n);
        let ghost cand = candidate(position.0, position.1@, ti as int, ai as int, si as int);
        if let Some(c) = chord_from_draws(position, ti, ai, si) {
            assert(drawn(position.0, position.1@, c)) by {
                assert(c == cand);
            }
            return Ok(c);
        }
        assert(!every_draw_passes(position.0, position.1@)) by {
            if every_draw_passes(position.0, position.1@) {
                assert(covers(cand, position.1@) && in_voice_ranges(cand));
            }
        }
        attempt = attempt + 1;
    }
    Err(OptimizerError::UnsatisfiableVoicing)
}


proof fn lemma_terms_bounded(p: Chord, c: Chord)
    requires
        in_voice_ranges(p),
        in_voice_ranges(c),
    ensures
        -90 <= chord_terms(c) <= 0,
        -490 <= transition_terms(p, c) <= 80,
{
    reveal(chord_terms);
    reveal(transition_terms);
}

/// Scores of chords within the voice ranges stay within `i32` for sequences
/// of at most `MAX_CHORDS` chords.
proof fn lemma_score_fits(s: Seq<Chord>)
    requires
        s.len() <= MAX_CHORDS,
        forall|i: int| 0 <= i < s.len() ==> in_voice_ranges(#[trigger] s[i]),
    ensures
        score_fits(s),
{
    assert forall|k: int| 0 <= k <= s.len() implies i32::MIN <= #[trigger] score_of(s.take(k))
        <= i32::MAX by {
        lemma_prefix_bounds(s, k);
    }
}

proof fn lemma_prefix_bounds(s: Seq<Chord>, k: int)
    requires
        0 <= k <= s.len(),
        forall|i: int| 0 <= i < s.len() ==> in_voice_ranges(#[trigger] s[i]),
    ensures
        -580 * k <= score_of(s.take(k)) <= 80 * k,
    decreases k,
{
    if k == 0 {
        assert(s.take(0) =~= Seq::<Chord>::empty());
    } else {
        lemma_prefix_bounds(s, k - 1);
        lemma_score_step(s, k - 1);
        if k > 1 {
            lemma_terms_bounded(s[k - 2], s[k - 1]);
        } else {
            lemma_terms_bounded(s[k - 1], s[k - 1]);
        }
    }
}

/// `new` equals `old` but at the three distinct positions `i`, `j`, `k`.
pub open spec fn redrawn_at(old: Seq<Chord>, new: Seq<Chord>, i: int, j: int, k: int) -> bool {
    &&& old.len() == new.len()
    &&& 0 <= i < old.len() && 0 <= j < old.len() && 0 <= k < old.len()
    &&& i != j && i != k && j != k
    &&& forall|m: int| 0 <= m < old.len() && m != i && m != j && m != k ==> #[trigger] new[m] == old[m]
}

/// `new` equals `old` but at three distinct positions.
pub open spec fn redrawn_at_three(old: Seq<Chord>, new: Seq<Chord>) -> bool {
    exists|i: int, j: int, k: int| #[trigger] redrawn_at(old, new, i, j, k)
}

/// Three distinct positions below `n`, from draws `d0 < n`, `d1 < n - 1` and
/// `d2 < n - 2`: each later draw skips the positions already taken, so that
/// uniform draws give a uniform choice without replacement.
pub fn distinct_positions(n: usize, d0: usize, d1: usize, d2: usize) -> (r: (usize, usize, usize))
    requires
        n >= 3,
        d0 < n,
        d1 < n - 1,
        d2 < n - 2,
    ensures
        r.0 < n && r.1 < n && r.2 < n,
        r.0 != r.1 && r.0 != r.2 && r.1 != r.2,
        r.0 == d0,
        r.1 == if d1 >= d0 { d1 + 1 } else { d1 as int },
        ({
            let lo = if r.0 < r.1 { r.0 } else { r.1 };
            let hi = if r.0 < r.1 { r.1 } else { r.0 };
            let x = if d2 >= lo { d2 + 1 } else { d2 as int };
            r.2 == if x >= hi { x + 1 } else { x }
        }),
{
    let i0 = d0;
    let i1 = if d1 >= i0 {
        d1 + 1
    } else {
        d1
    };
    let lo = if i0 < i1 {
        i0
    } else {
        i1
    };
    let hi = if i0 < i1 {
        i1
    } else {
        i0
    };
    let mut i2 = d2;
    if i2 >= lo {
        i2 = i2 + 1;
    }
    if i2 >= hi {
        i2 = i2 + 1;
    }
    (i0, i1, i2)
}

/// A full voicing of the bass line with its cached fitness.
#[derive(Clone, Debug)]
pub struct Realisation {
    pub chords: Vec<Chord>,
    pub score: i32,
}

impl Realisation {
    /// Voices every position of `input` validly, and caches the score of
    /// those chords.
    pub open spec fn realises(self, input: Seq<(NoteWithOctave, Vec<Note>)>) -> bool {
        &&& self.chords@.len() == input.len()
        &&& forall|i: int|
            0 <= i < input.len() ==> fits_position(
                #[trigger] self.chords@[i],
                input[i].0,
                input[i].1@,
            )
        &&& self.score == score_of(self.chords@)
    }

    /// Fitness of a chord sequence (higher is better).
    pub fn score(chords: &[Chord]) -> (r: i32)
        requires
            forall|i: int| 0 <= i < chords@.len() ==> (#[trigger] chords@[i]).wf(),
            score_fits(chords@),
        ensures
            r == score_of(chords@),
    {
        let mut acc: i64 = 0;
        let mut i: usize = 0;
        proof {
            assert(chords@.take(0) =~= Seq::<Chord>::empty());
        }
        while i < chords.len()
            invariant
                i <= chords@.len(),
                acc == score_of(chords@.take(i as int)),
                forall|j: int| 0 <= j < chords@.len() ==> (#[trigger] chords@[j]).wf(),
                score_fits(chords@),
            decreases chords@.len() - i,
        {
            let c = &chords[i];
            let mut step = chord_penalties(c);
            if i > 0 {
                step = step + transition_score(&chords[i - 1], c);
            }
            proof {
                lemma_score_step(chords@, i as int);
                assert(i32::MIN <= score_of(chords@.take(i as int)) <= i32::MAX);
            }
            acc = acc + step;
            i = i + 1;
        }
        proof {
            assert(chords@.take(chords@.len() as int) =~= chords@);
            assert(i32::MIN <= score_of(chords@.take(chords@.len() as int)) <= i32::MAX);
        }
        acc as i32
    }
    /// A fresh realisation: one generated chord per bass position, scored.
    pub fn new(chords_input: &[(NoteWithOctave, Vec<Note>)]) -> (r: Result<Realisation, OptimizerError>)
        requires
            positions_ok(chords_input@),
        ensures
            r matches Ok(x) ==> x.realises(chords_input@),
            r matches Err(e) ==> e == OptimizerError::UnsatisfiableVoicing,
            chords_input@.len() == 0 ==> (r matches Ok(x) && x.chords@.len() == 0),
            every_position_passes(chords_input@) ==> r is Ok,
    {
        let mut chords: Vec<Chord> = Vec::new();
        let mut i: usize = 0;
        while i < chords_input.len()
            invariant
                i <= chords_input@.len(),
                positions_ok(chords_input@),
                chords@.len() == i,
                forall|j: int|
                    0 <= j < i ==> fits_position(
                        #[trigger] chords@[j],
                        chords_input@[j].0,
                        chords_input@[j].1@,
                    ),
            decreases chords_input@.len() - i,
        {
            assert(chords_input@[i as int].0.octave < MAX_OCTAVE);
            match generate_chord(&chords_input[i]) {
                Ok(chord) => chords.push(chord),
                Err(e) => {
                    assert(!every_position_passes(chords_input@)) by {
                        if every_position_passes(chords_input@) {
                            assert(every_draw_passes(chords_input@[i as int].0, chords_input@[i as int].1@));
                        }
                    }
                    return Err(e);
                },
            }
            i = i + 1;
        }
        proof {
            assert forall|j: int| 0 <= j < chords@.len() implies (#[trigger] chords@[j]).wf() by {
                assert(fits_position(chords@[j], chords_input@[j].0, chords_input@[j].1@));
            }
            assert forall|j: int| 0 <= j < chords@.len() implies in_voice_ranges(#[trigger] chords@[j]) by {
                assert(fits_position(chords@[j], chords_input@[j].0, chords_input@[j].1@));
            }
            lemma_score_fits(chords@);
        }
        let score = Realisation::score(chords.as_slice());
        Ok(Realisation { chords, score })
    }

    /// A copy of this realisation with the chords at three distinct random
    /// positions drawn afresh for their own positions, then rescored.
    pub fn mutate(&self, chords_input: &[(NoteWithOctave, Vec<Note>)]) -> (r: Result<
        Realisation,
        OptimizerError,
    >)
        requires
            positions_ok(chords_input@),
            self.realises(chords_input@),
            chords_input@.len() >= 3,
        ensures
            r matches Ok(x) ==> x.realises(chords_input@),
            r matches Ok(x) ==> redrawn_at_three(self.chords@, x.chords@),
            r matches Err(e) ==> e == OptimizerError::UnsatisfiableVoicing,
            every_position_passes(chords_input@) ==> r is Ok,
    {
        let n = chords_input.len();
        let d0 = random_below(n);
        let d1 = random_below(n - 1);
        let d2 = random_below(n - 2);
        let (i0, i1, i2) = distinct_positions(n, d0, d1, d2);
        let mut chords: Vec<Chord> = Vec::new();
        let mut m: usize = 0;
        while m < n
            invariant
                n == chords_input@.len(),
                m <= n,
                positions_ok(chords_input@),
                self.realises(chords_input@),
                chords@.len() == m,
                forall|j: int|
                    0 <= j < m ==> fits_position(
                        #[trigger] chords@[j],
                        chords_input@[j].0,
                        chords_input@[j].1@,
                    ),
                forall|j: int|
                    0 <= j < m && j != i0 && j != i1 && j != i2 ==> #[trigger] chords@[j]
                        == self.chords@[j],
            decreases n - m,
        {
            if m == i0 || m == i1 || m == i2 {
                assert(chords_input@[m as int].0.octave < MAX_OCTAVE);
                match generate_chord(&chords_input[m]) {
                    Ok(chord) => chords.push(chord),
                    Err(e) => {
                        assert(!every_position_passes(chords_input@)) by {
                            if every_position_passes(chords_input@) {
                                assert(every_draw_passes(chords_input@[m as int].0, chords_input@[m as int].1@));
                            }
                        }
                        return Err(e);
                    },
                }
            } else {
                let chord = self.chords[m];
                assert(fits_position(self.chords@[m as int], chords_input@[m as int].0, chords_input@[m as int].1@));
                chords.push(chord);
            }
            m = m + 1;
        }
        proof {
            assert forall|j: int| 0 <= j < chords@.len() implies (#[trigger] chords@[j]).wf() by {
                assert(fits_position(chords@[j], chords_input@[j].0, chords_input@[j].1@));
            }
            assert forall|j: int| 0 <= j < chords@.len() implies in_voice_ranges(#[trigger] chords@[j]) by {
                assert(fits_position(chords@[j], chords_input@[j].0, chords_input@[j].1@));
            }
            lemma_score_fits(chords@);
        }
        let score = Realisation::score(chords.as_slice());
        let r = Realisation { chords, score };
        assert(redrawn_at(self.chords@, r.chords@, i0 as int, i1 as int, i2 as int));
        assert(redrawn_at_three(self.chords@, r.chords@));
        Ok(r)
    }
}

/// Same chords and same cached score.
pub open spec fn same_realisation(x: Realisation, y: Realisation) -> bool {
    x.chords@ == y.chords@ && x.score == y.score
}

/// Every member voices `input` validly with its score cached.
pub open spec fn all_realise(rs: Seq<Realisation>, input: Seq<(NoteWithOctave, Vec<Note>)>) -> bool {
    forall|i: int| 0 <= i < rs.len() ==> (#[trigger] rs[i]).realises(input)
}

/// The counts of one generation step leave room for at least one fresh
/// solution: `non_mutated + 3 * mutate_thrice + 2 * mutate_twice < population_size`.
pub open spec fn counts_valid(population_size: u32, non_mutated: u32, mutate_thrice: u32, mutate_twice: u32) -> bool {
    non_mutated + 3 * mutate_thrice + 2 * mutate_twice < population_size
}

/// `x` is an unchanged member of `rs`.
pub open spec fn carried_from(rs: Seq<Realisation>, x: Realisation) -> bool {
    exists|m: int| 0 <= m < rs.len() && same_realisation(#[trigger] rs[m], x)
}

/// Position in a new population of the first child of the `t`-th parent:
/// the `k` unchanged members come first, then three children for each of the
/// first `th` parents, then two for each later one.
pub open spec fn block_start(t: int, k: int, th: int) -> int {
    if t < th {
        k + 3 * t
    } else {
        k + 3 * th + 2 * (t - th)
    }
}

/// Number of children of the `t`-th parent.
pub open spec fn block_len(t: int, th: int) -> int {
    if t < th {
        3
    } else {
        2
    }
}

/// The `u`-th child of the `t`-th parent in `next`.
pub open spec fn child(next: Seq<Realisation>, k: int, th: int, t: int, u: int) -> Realisation {
    next[block_start(t, k, th) + u]
}

/// The members of `rs` at indices `ps` are its best, best first: each scores
/// at least as high as every member not listed and every one listed after it.
pub open spec fn best_first(rs: Seq<Realisation>, ps: Seq<int>) -> bool {
    &&& forall|t: int| 0 <= t < ps.len() ==> 0 <= #[trigger] ps[t] < rs.len()
    &&& forall|t1: int, t2: int| 0 <= t1 < t2 < ps.len() ==> #[trigger] ps[t1] != #[trigger] ps[t2]
    &&& forall|t1: int, t2: int|
        0 <= t1 <= t2 < ps.len() ==> rs[#[trigger] ps[t2]].score <= rs[#[trigger] ps[t1]].score
    &&& forall|t: int, m: int|
        0 <= t < ps.len() && 0 <= m < rs.len() && !ps.contains(m) ==> #[trigger] rs[m].score
            <= rs[#[trigger] ps[t]].score
}

/// Each child block of `next` holds mutations of its parent `rs[ps[t]]`.
pub open spec fn bred_from(rs: Seq<Realisation>, next: Seq<Realisation>, ps: Seq<int>, k: int, th: int) -> bool {
    forall|t: int, u: int|
        0 <= t < ps.len() && 0 <= u < block_len(t, th) ==> redrawn_at_three(
            rs[ps[t]].chords@,
            (#[trigger] child(next, k, th, t, u)).chords@,
        )
}

/// After its `k` unchanged members, `next` holds three mutations of each of
/// the `th` best members of `rs`, then two of each of the `tw` next best.
pub open spec fn bred_from_best(rs: Seq<Realisation>, next: Seq<Realisation>, k: int, th: int, tw: int) -> bool {
    exists|ps: Seq<int>| ps.len() == th + tw && #[trigger] best_first(rs, ps) && bred_from(rs, next, ps, k, th)
}

/// The first `k` members of `next` are unchanged copies of the `k` best
/// members of `rs`, taken at distinct indices, best first.
pub open spec fn elites_from_best(rs: Seq<Realisation>, next: Seq<Realisation>, k: int) -> bool {
    exists|es: Seq<int>|
        es.len() == k && #[trigger] best_first(rs, es) && forall|j: int|
            0 <= j < k ==> same_realisation(#[trigger] next[j], rs[es[j]])
}

/// Elitism: every member of `rs` that differs from all of the first `k`
/// members of `next` scores at most as high as each of those `k`.
pub open spec fn elite_dominates(rs: Seq<Realisation>, next: Seq<Realisation>, k: int) -> bool {
    forall|j: int, m: int|
        0 <= j < k && 0 <= m < rs.len() && (forall|j2: int|
            0 <= j2 < k ==> !same_realisation(#[trigger] next[j2], rs[m])) ==> #[trigger] rs[m].score
            <= #[trigger] next[j].score
}

fn copy_of(x: &Realisation) -> (r: Realisation)
    ensures
        same_realisation(r, *x),
{
    let mut chords: Vec<Chord> = Vec::new();
    let mut i: usize = 0;
    while i < x.chords.len()
        invariant
            i <= x.chords@.len(),
            chords@ == x.chords@.take(i as int),
        decreases x.chords@.len() - i,
    {
        chords.push(x.chords[i]);
        i = i + 1;
        assert(chords@ =~= x.chords@.take(i as int));
    }
    assert(x.chords@.take(i as int) =~= x.chords@);
    Realisation { chords, score: x.score }
}

fn index_of_best(rs: &Vec<Realisation>, rest: &Vec<usize>) -> (r: usize)
    requires
        rest@.len() > 0,
        forall|i: int| 0 <= i < rest@.len() ==> (#[trigger] rest@[i]) < rs@.len(),
    ensures
        r < rest@.len(),
        forall|i: int|
            0 <= i < rest@.len() ==> rs@[#[trigger] rest@[i] as int].score <= rs@[rest@[r as int] as int].score,
{
    let mut best: usize = 0;
    let mut i: usize = 1;
    while i < rest.len()
        invariant
            1 <= i <= rest@.len(),
            best < i,
            forall|j: int| 0 <= j < rest@.len() ==> (#[trigger] rest@[j]) < rs@.len(),
            forall|j: int|
                0 <= j < i ==> rs@[#[trigger] rest@[j] as int].score <= rs@[rest@[best as int] as int].score,
        decreases rest@.len() - i,
    {
        if rs[rest[i]].score > rs[rest[best]].score {
            best = i;
        }
        i = i + 1;
    }
    best
}

/// Indices of the `count` highest-scoring members of `rs`, best first.
fn ranked_indices(rs: &Vec<Realisation>, count: usize) -> (picks: Vec<usize>)
    requires
        count <= rs@.len(),
    ensures
        picks@.len() == count,
        forall|j: int| 0 <= j < count ==> (#[trigger] picks@[j]) < rs@.len(),
        forall|j1: int, j2: int|
            0 <= j1 < j2 < count ==> #[trigger] picks@[j1] != #[trigger] picks@[j2],
        forall|j1: int, j2: int|
            0 <= j1 <= j2 < count ==> rs@[#[trigger] picks@[j2] as int].score <= rs@[#[trigger] picks@[j1] as int].score,
        forall|j: int, m: int|
            0 <= j < count && 0 <= m < rs@.len() && !picks@.contains(m as usize) ==> #[trigger] rs@[m].score
                <= rs@[#[trigger] picks@[j] as int].score,
{
    let n = rs.len();
    let mut rest: Vec<usize> = Vec::new();
    let mut i: usize = 0;
    while i < n
        invariant
            n == rs@.len(),
            i <= n,
            rest@.len() == i,
            forall|j: int| 0 <= j < i ==> #[trigger] rest@[j] == j,
        decreases n - i,
    {
        rest.push(i);
        i = i + 1;
    }
    let mut picks: Vec<usize> = Vec::new();
    proof {
        assert forall|m: usize| m < n implies #[trigger] picks@.contains(m) || rest@.contains(m) by {
            assert(rest@[m as int] == m);
        }
    }
    while picks.len() < count
        invariant
            n == rs@.len(),
            count <= n,
            picks@.len() <= count,
            picks@.len() + rest@.len() == n,
            forall|j: int| 0 <= j < rest@.len() ==> (#[trigger] rest@[j]) < n,
            forall|j: int| 0 <= j < picks@.len() ==> (#[trigger] picks@[j]) < n,
            rest@.no_duplicates(),
            forall|j1: int, j2: int|
                0 <= j1 < j2 < picks@.len() ==> #[trigger] picks@[j1] != #[trigger] picks@[j2],
            forall|j: int, y: int|
                0 <= j < picks@.len() && 0 <= y < rest@.len() ==> #[trigger] picks@[j] != #[trigger] rest@[y],
            forall|m: usize| m < n ==> #[trigger] picks@.contains(m) || rest@.contains(m),
            forall|j1: int, j2: int|
                0 <= j1 <= j2 < picks@.len() ==> rs@[#[trigger] picks@[j2] as int].score <= rs@[#[trigger] picks@[j1] as int].score,
            forall|j: int, y: int|
                0 <= j < picks@.len() && 0 <= y < rest@.len() ==> rs@[#[trigger] rest@[y] as int].score
                    <= rs@[#[trigger] picks@[j] as int].score,
        decreases count - picks@.len(),
    {
        let b = index_of_best(rs, &rest);
        let x = rest[b];
        let ghost old_rest = rest@;
        let ghost old_picks = picks@;
        rest.remove(b);
        picks.push(x);
        proof {
            assert(rest@ =~= old_rest.remove(b as int));
            assert forall|m: usize| m < n implies #[trigger] picks@.contains(m) || rest@.contains(m) by {
                if old_picks.contains(m) {
                    let j = choose|j: int| 0 <= j < old_picks.len() && old_picks[j] == m;
                    assert(picks@[j] == m);
                } else {
                    assert(old_rest.contains(m));
                    let y = choose|y: int| 0 <= y < old_rest.len() && old_rest[y] == m;
                    if y == b {
                        assert(picks@[old_picks.len() as int] == m);
                    } else if y < b {
                        assert(rest@[y] == m);
                    } else {
                        assert(rest@[y - 1] == m);
                    }
                }
            }
            assert(rest@.no_duplicates());
        }
    }
    proof {
        assert forall|j: int, m: int|
            0 <= j < count && 0 <= m < rs@.len() && !picks@.contains(m as usize) implies #[trigger] rs@[m].score
                <= rs@[#[trigger] picks@[j] as int].score by {
            assert(picks@.contains(m as usize) || rest@.contains(m as usize));
            let y = choose|y: int| 0 <= y < rest@.len() && rest@[y] == m as usize;
            assert(rs@[rest@[y] as int].score <= rs@[picks@[j] as int].score);
        }
    }
    picks
}

/// Appends `count` fresh realisations of `input` to `out`.
fn push_fresh(out: &mut Vec<Realisation>, chords_input: &[(NoteWithOctave, Vec<Note>)], count: usize) -> (r:
    Result<(), OptimizerError>)
    requires
        positions_ok(chords_input@),
        all_realise(old(out)@, chords_input@),
    ensures
        r matches Ok(_) ==> final(out)@.len() == old(out)@.len() + count,
        all_realise(final(out)@, chords_input@),
        final(out)@.len() >= old(out)@.len(),
        forall|i: int| 0 <= i < old(out)@.len() ==> #[trigger] final(out)@[i] == old(out)@[i],
        r matches Err(e) ==> e == OptimizerError::UnsatisfiableVoicing,
        every_position_passes(chords_input@) ==> r is Ok,
{
    let ghost start = out@;
    let mut done: usize = 0;
    while done < count
        invariant
            positions_ok(chords_input@),
            all_realise(out@, chords_input@),
            start == old(out)@,
            out@.len() == start.len() + done,
            done <= count,
            forall|i: int| 0 <= i < start.len() ==> #[trigger] out@[i] == start[i],
        decreases count - done,
    {
        match Realisation::new(chords_input) {
            Ok(x) => out.push(x),
            Err(e) => {
                return Err(e);
            },
        }
        done = done + 1;
    }
    Ok(())
}

/// Appends `times` independent mutations of `parent` to `out`.
fn push_mutations(
    out: &mut Vec<Realisation>,
    parent: &Realisation,
    chords_input: &[(NoteWithOctave, Vec<Note>)],
    times: usize,
) -> (r: Result<(), OptimizerError>)
    requires
        positions_ok(chords_input@),
        chords_input@.len() >= 3,
        parent.realises(chords_input@),
        all_realise(old(out)@, chords_input@),
    ensures
        r matches Ok(_) ==> final(out)@.len() == old(out)@.len() + times,
        all_realise(final(out)@, chords_input@),
        final(out)@.len() >= old(out)@.len(),
        forall|i: int| 0 <= i < old(out)@.len() ==> #[trigger] final(out)@[i] == old(out)@[i],
        forall|i: int|
            old(out)@.len() <= i < final(out)@.len() ==> redrawn_at_three(
                parent.chords@,
                (#[trigger] final(out)@[i]).chords@,
            ),
        r matches Err(e) ==> e == OptimizerError::UnsatisfiableVoicing,
        every_position_passes(chords_input@) ==> r is Ok,
{
    let ghost start = out@;
    let mut done: usize = 0;
    while done < times
        invariant
            positions_ok(chords_input@),
            chords_input@.len() >= 3,
            parent.realises(chords_input@),
            all_realise(out@, chords_input@),
            start == old(out)@,
            out@.len() == start.len() + done,
            done <= times,
            forall|i: int| 0 <= i < start.len() ==> #[trigger] out@[i] == start[i],
            forall|i: int|
                start.len() <= i < out@.len() ==> redrawn_at_three(
                    parent.chords@,
                    (#[trigger] out@[i]).chords@,
                ),
        decreases times - done,
    {
        match parent.mutate(chords_input) {
            Ok(x) => out.push(x),
            Err(e) => {
                return Err(e);
            },
        }
        done = done + 1;
    }
    Ok(())
}

/// One population of candidate realisations.
#[derive(Clone, Debug)]
pub struct Generation {
    pub realisations: Vec<Realisation>,
}

impl Generation {
    /// Exactly `population_size` members, each a valid scored voicing of `input`.
    pub open spec fn holds(self, population_size: u32, input: Seq<(NoteWithOctave, Vec<Note>)>) -> bool {
        self.realisations@.len() == population_size && all_realise(self.realisations@, input)
    }

    /// The next population. Without a previous one: `population_size` fresh
    /// realisations. After one: its `non_mutated` best members unchanged, then
    /// three mutations of each of its `mutate_thrice` best members, then two of
    /// each of the next `mutate_twice`, and fresh realisations up to
    /// `population_size`.
    pub fn new(
        population_size: u32,
        non_mutated: u32,
        mutate_thrice: u32,
        mutate_twice: u32,
        chords_input: &[(NoteWithOctave, Vec<Note>)],
        prev_generation: &Option<Generation>,
    ) -> (r: Result<Generation, OptimizerError>)
        requires
            positions_ok(chords_input@),
            prev_generation matches Some(p) ==> p.holds(population_size, chords_input@),
        ensures
            (r == Err::<Generation, OptimizerError>(OptimizerError::InvalidConfig)) <==> !counts_valid(
                population_size,
                non_mutated,
                mutate_thrice,
                mutate_twice,
            ),
            (r == Err::<Generation, OptimizerError>(OptimizerError::TooFewPositions)) <==> (counts_valid(
                population_size,
                non_mutated,
                mutate_thrice,
                mutate_twice,
            ) && prev_generation is Some && mutate_thrice + mutate_twice > 0 && chords_input@.len() < 3),
            r matches Ok(g) ==> g.holds(population_size, chords_input@),
            (counts_valid(population_size, non_mutated, mutate_thrice, mutate_twice)
                && every_position_passes(chords_input@) && (prev_generation is None || mutate_thrice
                + mutate_twice == 0 || chords_input@.len() >= 3)) ==> r is Ok,
            r matches Ok(g) ==> (prev_generation matches Some(p) ==> {
                &&& elites_from_best(p.realisations@, g.realisations@, non_mutated as int)
                &&& forall|j: int|
                    0 <= j < non_mutated ==> carried_from(
                        p.realisations@,
                        #[trigger] g.realisations@[j],
                    )
                &&& elite_dominates(p.realisations@, g.realisations@, non_mutated as int)
                &&& bred_from_best(
                    p.realisations@,
                    g.realisations@,
                    non_mutated as int,
                    mutate_thrice as int,
                    mutate_twice as int,
                )
            }),
    {
        if !((non_mutated as u64) + 3 * (mutate_thrice as u64) + 2 * (mutate_twice as u64)
            < population_size as u64) {
            return Err(OptimizerError::InvalidConfig);
        }
        let mut realisations: Vec<Realisation> = Vec::new();
        match prev_generation {
            None => {
                match push_fresh(&mut realisations, chords_input, population_size as usize) {
                    Ok(_) => {},
                    Err(e) => {
                        return Err(e);
                    },
                }
                Ok(Generation { realisations })
            },
            Some(prev) => {
                if (mutate_thrice > 0 || mutate_twice > 0) && chords_input.len() < 3 {
                    return Err(OptimizerError::TooFewPositions);
                }
                let k = non_mutated as usize;
                let th = mutate_thrice as usize;
                let tw = mutate_twice as usize;
                let count = if k > th + tw {
                    k
                } else {
                    th + tw
                };
                let rs = &prev.realisations;
                let picks = ranked_indices(rs, count);
                let mut j: usize = 0;
                while j < k
                    invariant
                        j <= k,
                        k <= count,
                        picks@.len() == count,
                        forall|i: int| 0 <= i < count ==> (#[trigger] picks@[i]) < rs@.len(),
                        realisations@.len() == j,
                        all_realise(rs@, chords_input@),
                        all_realise(realisations@, chords_input@),
                        forall|i: int|
                            0 <= i < j ==> same_realisation(
                                #[trigger] realisations@[i],
                                rs@[picks@[i] as int],
                            ),
                    decreases k - j,
                {
                    let x = copy_of(&rs[picks[j]]);
                    realisations.push(x);
                    j = j + 1;
                }
                proof {
                    lemma_elites(rs@, realisations@, picks@, k as int, count as int);
                }
                let ghost elites = realisations@;
                let mut j: usize = 0;
                while j < th + tw
                    invariant
                        j <= th + tw,
                        th + tw <= count,
                        picks@.len() == count,
                        forall|i: int| 0 <= i < count ==> (#[trigger] picks@[i]) < rs@.len(),
                        positions_ok(chords_input@),
                        counts_valid(population_size, non_mutated, mutate_thrice, mutate_twice),
                        th == mutate_thrice && tw == mutate_twice,
                        chords_input@.len() >= 3 || th + tw == 0,
                        all_realise(rs@, chords_input@),
                        all_realise(realisations@, chords_input@),
                        realisations@.len() == k + 3 * (if j < th { j } else { th }) + 2 * (if j < th { 0 } else { j - th }),
                        forall|i: int| 0 <= i < k ==> #[trigger] realisations@[i] == elites[i],
                        forall|t: int, u: int|
                            0 <= t < j && 0 <= u < block_len(t, th as int) ==> redrawn_at_three(
                                rs@[picks@[t] as int].chords@,
                                (#[trigger] child(realisations@, k as int, th as int, t, u)).chords@,
                            ),
                    decreases th + tw - j,
                {
                    let parent = &rs[picks[j]];
                    let times: usize = if j < th {
                        3
                    } else {
                        2
                    };
                    let ghost before = realisations@;
                    match push_mutations(&mut realisations, parent, chords_input, times) {
                        Ok(_) => {},
                        Err(e) => {
                            return Err(e);
                        },
                    }
                    proof {
                        assert(before.len() == block_start(j as int, k as int, th as int));
                        assert forall|t: int, u: int|
                            0 <= t < j + 1 && 0 <= u < block_len(t, th as int) implies redrawn_at_three(
                            rs@[picks@[t] as int].chords@,
                            (#[trigger] child(realisations@, k as int, th as int, t, u)).chords@,
                        ) by {
                            if t < j {
                                assert(block_start(t, k as int, th as int) + u < before.len());
                                assert(child(realisations@, k as int, th as int, t, u) == child(before, k as int, th as int, t, u));
                            } else {
                                let i = block_start(t, k as int, th as int) + u;
                                assert(before.len() <= i < realisations@.len());
                                assert(redrawn_at_three(parent.chords@, realisations@[i].chords@));
                            }
                        }
                    }
                    j = j + 1;
                }
                let remaining = population_size as usize - k - 3 * th - 2 * tw;
                let ghost bred = realisations@;
                match push_fresh(&mut realisations, chords_input, remaining) {
                    Ok(_) => {},
                    Err(e) => {
                        return Err(e);
                    },
                }
                proof {
                    assert forall|i: int| 0 <= i < k implies #[trigger] realisations@[i] == elites[i] by {
                        assert(realisations@[i] == bred[i]);
                    }
                    let ps = Seq::new((th + tw) as nat, |t: int| picks@[t] as int);
                    lemma_best_prefix(rs@, picks@, (th + tw) as int, count as int);
                    assert(ps =~= Seq::new((th + tw) as nat, |t: int| picks@[t] as int));
                    assert forall|t: int, u: int|
                        0 <= t < ps.len() && 0 <= u < block_len(t, th as int) implies redrawn_at_three(
                        rs@[ps[t]].chords@,
                        (#[trigger] child(realisations@, k as int, th as int, t, u)).chords@,
                    ) by {
                        assert(block_start(t, k as int, th as int) + u < bred.len());
                        assert(child(realisations@, k as int, th as int, t, u) == child(bred, k as int, th as int, t, u));
                    }
                    assert(bred_from(rs@, realisations@, ps, k as int, th as int));
                    assert(best_first(rs@, ps));
                    let es = Seq::new(k as nat, |t: int| picks@[t] as int);
                    lemma_best_prefix(rs@, picks@, k as int, count as int);
                    assert forall|j: int| 0 <= j < k implies same_realisation(#[trigger] realisations@[j], rs@[es[j]]) by {
                        assert(realisations@[j] == elites[j]);
                    }
                    assert(best_first(rs@, es));
                    assert forall|i: int| 0 <= i < k implies carried_from(rs@, #[trigger] realisations@[i]) by {
                        assert(realisations@[i] == elites[i]);
                        assert(same_realisation(rs@[picks@[i] as int], elites[i]));
                    }
                    assert forall|j1: int, m: int|
                        0 <= j1 < k && 0 <= m < rs@.len() && (forall|j2: int|
                            0 <= j2 < k ==> !same_realisation(#[trigger] realisations@[j2], rs@[m])) implies #[trigger] rs@[m].score
                            <= #[trigger] realisations@[j1].score by {
                        assert(realisations@[j1] == elites[j1]);
                        assert forall|j2: int| 0 <= j2 < k implies !same_realisation(#[trigger] elites[j2], rs@[m]) by {
                            assert(realisations@[j2] == elites[j2]);
                        }
                    }
                }
                Ok(Generation { realisations })
            },
        }
    }
}

/// With at least one elite, no member of `rs` scores above the first member
/// of `next`.
proof fn lemma_best_kept(rs: Seq<Realisation>, next: Seq<Realisation>, k: int)
    requires
        1 <= k <= next.len(),
        elites_from_best(rs, next, k),
    ensures
        forall|m: int| 0 <= m < rs.len() ==> (#[trigger] rs[m]).score <= next[0].score,
{
    let es = choose|es: Seq<int>|
        es.len() == k && #[trigger] best_first(rs, es) && forall|j: int|
            0 <= j < k ==> same_realisation(#[trigger] next[j], rs[es[j]]);
    assert(same_realisation(next[0], rs[es[0]]));
    assert forall|m: int| 0 <= m < rs.len() implies (#[trigger] rs[m]).score <= next[0].score by {
        if es.contains(m) {
            let t = choose|t: int| 0 <= t < es.len() && es[t] == m;
            assert(rs[es[t]].score <= rs[es[0]].score);
        } else {
            assert(rs[m].score <= rs[es[0]].score);
        }
    }
}

/// The first `len` of the ranked indices `picks` list the best members of `rs`.
proof fn lemma_best_prefix(rs: Seq<Realisation>, picks: Seq<usize>, len: int, count: int)
    requires
        0 <= len <= count,
        rs.len() <= usize::MAX,
        picks.len() == count,
        forall|i: int| 0 <= i < count ==> (#[trigger] picks[i]) < rs.len(),
        forall|j1: int, j2: int|
            0 <= j1 < j2 < count ==> #[trigger] picks[j1] != #[trigger] picks[j2],
        forall|j1: int, j2: int|
            0 <= j1 <= j2 < count ==> rs[#[trigger] picks[j2] as int].score <= rs[#[trigger] picks[j1] as int].score,
        forall|j: int, m: int|
            0 <= j < count && 0 <= m < rs.len() && !picks.contains(m as usize) ==> #[trigger] rs[m].score
                <= rs[#[trigger] picks[j] as int].score,
    ensures
        best_first(rs, Seq::new(len as nat, |t: int| picks[t] as int)),
{
    let ps = Seq::new(len as nat, |t: int| picks[t] as int);
    assert forall|t1: int, t2: int| 0 <= t1 < t2 < ps.len() implies #[trigger] ps[t1] != #[trigger] ps[t2] by {
        assert(picks[t1] != picks[t2]);
    }
    assert forall|t1: int, t2: int|
        0 <= t1 <= t2 < ps.len() implies rs[#[trigger] ps[t2]].score <= rs[#[trigger] ps[t1]].score by {
        assert(rs[picks[t2] as int].score <= rs[picks[t1] as int].score);
    }
    assert forall|t: int, m: int|
        0 <= t < ps.len() && 0 <= m < rs.len() && !ps.contains(m) implies #[trigger] rs[m].score
            <= rs[#[trigger] ps[t]].score by {
        if picks.contains(m as usize) {
            let j3 = choose|j3: int| 0 <= j3 < picks.len() && picks[j3] == m as usize;
            if j3 < len {
                assert(ps[j3] == m);
                assert(false);
            } else {
                assert(rs[picks[j3] as int].score <= rs[picks[t] as int].score);
            }
        } else {
            assert(rs[m].score <= rs[picks[t] as int].score);
        }
    }
}

/// The first `k` entries of `next`, copies of the `k` best members of `rs`
/// ranked by `picks`, dominate every member of `rs` that none of them equals.
proof fn lemma_elites(rs: Seq<Realisation>, next: Seq<Realisation>, picks: Seq<usize>, k: int, count: int)
    requires
        0 <= k <= count,
        rs.len() <= usize::MAX,
        picks.len() == count,
        next.len() == k,
        forall|i: int| 0 <= i < count ==> (#[trigger] picks[i]) < rs.len(),
        forall|j1: int, j2: int|
            0 <= j1 <= j2 < count ==> rs[#[trigger] picks[j2] as int].score <= rs[#[trigger] picks[j1] as int].score,
        forall|j: int, m: int|
            0 <= j < count && 0 <= m < rs.len() && !picks.contains(m as usize) ==> #[trigger] rs[m].score
                <= rs[#[trigger] picks[j] as int].score,
        forall|i: int| 0 <= i < k ==> same_realisation(#[trigger] next[i], rs[picks[i] as int]),
    ensures
        elite_dominates(rs, next, k),
{
    assert forall|j: int, m: int|
        0 <= j < k && 0 <= m < rs.len() && (forall|j2: int|
            0 <= j2 < k ==> !same_realisation(#[trigger] next[j2], rs[m])) implies #[trigger] rs[m].score
            <= #[trigger] next[j].score by {
        assert(same_realisation(next[j], rs[picks[j] as int]));
        if picks.contains(m as usize) {
            let j3 = choose|j3: int| 0 <= j3 < picks.len() && picks[j3] == m as usize;
            if j3 < k {
                assert(same_realisation(next[j3], rs[picks[j3] as int]));
                assert(false);
            } else {
                assert(rs[picks[j3] as int].score <= rs[picks[j] as int].score);
            }
        } else {
            assert(rs[m].score <= rs[picks[j] as int].score);
        }
    }
}

fn best_index(rs: &Vec<Realisation>) -> (r: usize)
    requires
        rs@.len() > 0,
    ensures
        r < rs@.len(),
        forall|i: int| 0 <= i < rs@.len() ==> (#[trigger] rs@[i]).score <= rs@[r as int].score,
{
    let mut best: usize = 0;
    let mut i: usize = 1;
    while i < rs.len()
        invariant
            1 <= i <= rs@.len(),
            best < i,
            forall|j: int| 0 <= j < i ==> (#[trigger] rs@[j]).score <= rs@[best as int].score,
        decreases rs@.len() - i,
    {
        if rs[i].score > rs[best].score {
            best = i;
        }
        i = i + 1;
    }
    best
}

/// The optimizer: its configuration and the latest population.
pub struct MachineLearning {
    pub total_generations: u32,
    pub population_size: u32,
    pub non_mutated: u32,
    pub mutate_thrice: u32,
    pub mutate_twice: u32,
    pub current_generation: Option<Generation>,
}

impl MachineLearning {
    /// A usable configuration: at least one generation and one member, and
    /// counts that leave room for fresh members.
    pub open spec fn config_ok(
        total_generations: u32,
        population_size: u32,
        non_mutated: u32,
        mutate_thrice: u32,
        mutate_twice: u32,
    ) -> bool {
        total_generations >= 1 && population_size >= 1 && counts_valid(
            population_size,
            non_mutated,
            mutate_thrice,
            mutate_twice,
        )
    }

    pub open spec fn wf(self) -> bool {
        &&& MachineLearning::config_ok(
            self.total_generations,
            self.population_size,
            self.non_mutated,
            self.mutate_thrice,
            self.mutate_twice,
        )
        &&& self.current_generation matches Some(g) ==> g.realisations@.len() == self.population_size
    }

    /// The latest population, if any, is one for the bass positions `input`.
    pub open spec fn ready_for(self, input: Seq<(NoteWithOctave, Vec<Note>)>) -> bool {
        self.current_generation matches Some(g) ==> g.holds(self.population_size, input)
    }

    pub open spec fn same_config(self, other: MachineLearning) -> bool {
        &&& self.total_generations == other.total_generations
        &&& self.population_size == other.population_size
        &&& self.non_mutated == other.non_mutated
        &&& self.mutate_thrice == other.mutate_thrice
        &&& self.mutate_twice == other.mutate_twice
    }

    /// An optimizer with no population yet. The counts are how many members
    /// are carried over unchanged, mutated three times and mutated twice;
    /// a configuration with `non_mutated + 3 * mutate_thrice + 2 * mutate_twice`
    /// at or above `population_size` is rejected here.
    pub fn new(
        total_generations: u32,
        population_size: u32,
        non_mutated: u32,
        mutate_thrice: u32,
        mutate_twice: u32,
    ) -> (r: Result<MachineLearning, OptimizerError>)
        ensures
            r is Ok <==> MachineLearning::config_ok(
                total_generations,
                population_size,
                non_mutated,
                mutate_thrice,
                mutate_twice,
            ),
            r matches Err(e) ==> e == OptimizerError::InvalidConfig,
            r matches Ok(m) ==> {
                &&& m.wf()
                &&& m.total_generations == total_generations
                &&& m.population_size == population_size
                &&& m.non_mutated == non_mutated
                &&& m.mutate_thrice == mutate_thrice
                &&& m.mutate_twice == mutate_twice
                &&& m.current_generation is None
            },
    {
        if total_generations == 0 || population_size == 0 || !((non_mutated as u64) + 3
            * (mutate_thrice as u64) + 2 * (mutate_twice as u64) < population_size as u64) {
            return Err(OptimizerError::InvalidConfig);
        }
        Ok(
            MachineLearning {
                total_generations,
                population_size,
                non_mutated,
                mutate_thrice,
                mutate_twice,
                current_generation: None,
            },
        )
    }

    /// Replaces the population with the next one and returns the best score
    /// in it.
    pub fn next_generation(&mut self, chords_input: &[(NoteWithOctave, Vec<Note>)]) -> (r: Result<
        i32,
        OptimizerError,
    >)
        requires
            old(self).wf(),
            old(self).ready_for(chords_input@),
            positions_ok(chords_input@),
        ensures
            final(self).wf(),
            final(self).same_config(*old(self)),
            final(self).ready_for(chords_input@),
            r matches Ok(best) ==> final(self).current_generation matches Some(g) && {
                &&& exists|i: int| 0 <= i < g.realisations@.len() && (#[trigger] g.realisations@[i]).score == best
                &&& forall|i: int| 0 <= i < g.realisations@.len() ==> (#[trigger] g.realisations@[i]).score <= best
            },
            r matches Err(e) ==> e != OptimizerError::InvalidConfig && *final(self) == *old(self),
            (r == Err::<i32, OptimizerError>(OptimizerError::TooFewPositions)) <==> (
            old(self).current_generation is Some && old(self).mutate_thrice + old(self).mutate_twice
                > 0 && chords_input@.len() < 3),
            (every_position_passes(chords_input@) && (old(self).current_generation is None
                || old(self).mutate_thrice + old(self).mutate_twice == 0 || chords_input@.len() >= 3))
                ==> r is Ok,
            r matches Ok(best) ==> (old(self).current_generation matches Some(p) ==> (
            old(self).non_mutated >= 1 ==> forall|i: int|
                0 <= i < p.realisations@.len() ==> (#[trigger] p.realisations@[i]).score <= best)),
    {
        let ghost prev = self.current_generation;
        let next = Generation::new(
            self.population_size,
            self.non_mutated,
            self.mutate_thrice,
            self.mutate_twice,
            chords_input,
            &self.current_generation,
        );
        match next {
            Ok(g) => {
                let b = best_index(&g.realisations);
                let best = g.realisations[b].score;
                proof {
                    if let Some(p) = prev {
                        if self.non_mutated >= 1 {
                            assert(g.realisations@.len() == self.population_size);
                            lemma_best_kept(p.realisations@, g.realisations@, self.non_mutated as int);
                            assert(g.realisations@[0].score <= best);
                            assert forall|i: int| 0 <= i < p.realisations@.len() implies (
                            #[trigger] p.realisations@[i]).score <= best by {
                                assert(p.realisations@[i].score <= g.realisations@[0].score);
                            }
                        }
                    }
                }
                self.current_generation = Some(g);
                Ok(best)
            },
            Err(e) => Err(e),
        }
    }

    /// Runs `total_generations` generation steps and returns a copy of the best
    /// member of the final population.
    pub fn start(&mut self, chords_input: &[(NoteWithOctave, Vec<Note>)]) -> (r: Result<
        Realisation,
        OptimizerError,
    >)
        requires
            old(self).wf(),
            old(self).ready_for(chords_input@),
            positions_ok(chords_input@),
        ensures
            final(self).wf(),
            final(self).same_config(*old(self)),
            final(self).ready_for(chords_input@),
            r matches Ok(x) ==> x.realises(chords_input@),
            r matches Ok(x) ==> final(self).current_generation matches Some(g) && {
                &&& carried_from(g.realisations@, x)
                &&& forall|i: int| 0 <= i < g.realisations@.len() ==> (#[trigger] g.realisations@[i]).score <= x.score
            },
            r matches Err(e) ==> e != OptimizerError::InvalidConfig,
            (every_position_passes(chords_input@) && (old(self).mutate_thrice
                + old(self).mutate_twice == 0 || chords_input@.len() >= 3 || (
            old(self).current_generation is None && old(self).total_generations == 1))) ==> r is Ok,
            (old(self).current_generation is Some && old(self).mutate_thrice
                + old(self).mutate_twice > 0 && chords_input@.len() < 3) ==> r == Err::<
                Realisation,
                OptimizerError,
            >(OptimizerError::TooFewPositions),
    {
        let mut i: u32 = 0;
        while i < self.total_generations
            invariant
                self.wf(),
                self.same_config(*old(self)),
                self.ready_for(chords_input@),
                positions_ok(chords_input@),
                i <= self.total_generations,
                i > 0 ==> self.current_generation is Some,
                i == 0 ==> *self == *old(self),
                (every_position_passes(chords_input@) && (old(self).mutate_thrice
                    + old(self).mutate_twice == 0 || chords_input@.len() >= 3 || (
                old(self).current_generation is None && old(self).total_generations == 1)))
                    ==> (old(self).mutate_thrice + old(self).mutate_twice == 0 || chords_input@.len()
                    >= 3 || i == 0 || i >= self.total_generations),
                (old(self).current_generation is Some && old(self).mutate_thrice
                    + old(self).mutate_twice > 0 && chords_input@.len() < 3) ==> i == 0,
            decreases self.total_generations - i,
        {
            match self.next_generation(chords_input) {
                Ok(_) => {},
                Err(e) => {
                    return Err(e);
                },
            }
            i = i + 1;
        }
        match self.best() {
            Some(x) => {
                proof {
                    let g = self.current_generation->Some_0;
                    let m = choose|m: int|
                        0 <= m < g.realisations@.len() && same_realisation(#[trigger] g.realisations@[m], x);
                    assert(g.realisations@[m].realises(chords_input@));
                }
                Ok(x)
            },
            None => {
                proof {
                    assert(false);
                }
                Err(OptimizerError::UnsatisfiableVoicing)
            },
        }
    }

    /// A copy of the best member of the current population, if there is one.
    pub fn best(&self) -> (r: Option<Realisation>)
        requires
            self.wf(),
        ensures
            r is Some <==> self.current_generation is Some,
            r matches Some(x) ==> self.current_generation matches Some(g) && {
                &&& carried_from(g.realisations@, x)
                &&& forall|i: int| 0 <= i < g.realisations@.len() ==> (#[trigger] g.realisations@[i]).score <= x.score
            },
    {
        match &self.current_generation {
            Some(g) => {
                let b = best_index(&g.realisations);
                let x = copy_of(&g.realisations[b]);
                assert(same_realisation(g.realisations@[b as int], x));
                Some(x)
            },
            None => None,
        }
    }
}

/// A valid voicing draws every voice from the permitted pitch classes when
/// the bass's own class is permitted, sounds each permitted class, keeps the
/// given bass, and holds each upper voice in its fixed range.
pub proof fn lemma_voicing_properties(c: Chord, bass: NoteWithOctave, permitted: Seq<Note>)
    requires
        fits_position(c, bass, permitted),
        permitted.contains(bass.note),
    ensures
        permitted.contains(c.s.note) && permitted.contains(c.a.note) && permitted.contains(
            c.t.note,
        ) && permitted.contains(c.b.note),
        forall|i: int|
            0 <= i < permitted.len() ==> (c.s.note == #[trigger] permitted[i] || c.a.note
                == permitted[i] || c.t.note == permitted[i] || c.b.note == permitted[i]),
        c.b == bass,
        48 <= abs_pitch(c.s) <= 67,
        43 <= abs_pitch(c.a) <= 60,
        36 <= abs_pitch(c.t) <= 55,
{
}

} // verus!
