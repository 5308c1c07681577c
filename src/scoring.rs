use vstd::prelude::*;
use crate::music_theory::{abs_pitch, Chord, NoteName, NoteWithOctave};

verus! {

/// Penalty of 25 for each pair of neighbouring voices (bass and tenor, tenor
/// and alto, alto and soprano) on the same pitch.
pub open spec fn doubling_terms(c: Chord) -> int {
    (if c.b == c.t { -25int } else { 0int }) + (if c.t == c.a { -25int } else { 0int }) + (if c.a
        == c.s { -25int } else { 0int })
}

/// Penalty for each voice outside its preferred range: soprano E4 to E5,
/// alto B3 to B4, tenor G3 to G4.
pub open spec fn preferred_range_terms(c: Chord) -> int {
    (if 52 <= abs_pitch(c.s) <= 64 { 0int } else { -5int }) + (if 47 <= abs_pitch(c.a) <= 59 {
        0int
    } else {
        -5int
    }) + (if 43 <= abs_pitch(c.t) <= 55 { 0int } else { -5int })
}

/// Terms of one chord on its own.
#[verifier::opaque]
pub open spec fn chord_terms(c: Chord) -> int {
    doubling_terms(c) + preferred_range_terms(c)
}

pub open spec fn distance(x: NoteWithOctave, y: NoteWithOctave) -> int {
    if abs_pitch(x) >= abs_pitch(y) {
        abs_pitch(x) - abs_pitch(y)
    } else {
        abs_pitch(y) - abs_pitch(x)
    }
}

/// Reward for small steps of the upper three voices from `p` to `c`.
pub open spec fn smoothness_terms(p: Chord, c: Chord) -> int {
    (40 - 10 * distance(p.s, c.s)) + (20 - 5 * distance(p.a, c.a)) + (20 - 5 * distance(p.t, c.t))
}

/// Two voices share a pitch class in both chords.
pub open spec fn parallel_octaves(p: Chord, c: Chord) -> bool {
    (p.b.note == p.a.note && c.b.note == c.a.note) || (p.b.note == p.s.note && c.b.note
        == c.s.note) || (p.b.note == p.t.note && c.b.note == c.t.note) || (p.t.note == p.a.note
        && c.t.note == c.a.note) || (p.t.note == p.s.note && c.t.note == c.s.note) || (p.a.note
        == p.s.note && c.a.note == c.s.note)
}

/// `y` lies exactly seven semitones above `x`.
pub open spec fn fifth_above(x: NoteWithOctave, y: NoteWithOctave) -> bool {
    abs_pitch(y) - abs_pitch(x) == 7
}

/// A lower voice has a voice a fifth above it in both chords.
pub open spec fn parallel_fifths(p: Chord, c: Chord) -> bool {
    (fifth_above(p.b, p.t) && fifth_above(c.b, c.t)) || (fifth_above(p.b, p.a) && fifth_above(
        c.b,
        c.a,
    )) || (fifth_above(p.b, p.s) && fifth_above(c.b, c.s)) || (fifth_above(p.t, p.a)
        && fifth_above(c.t, c.a)) || (fifth_above(p.t, p.s) && fifth_above(c.t, c.s)) || (
    fifth_above(p.a, p.s) && fifth_above(c.a, c.s))
}

/// Terms that depend on the chord before: smoothness and the two parallel
/// motion penalties, each of these counted once.
#[verifier::opaque]
pub open spec fn transition_terms(p: Chord, c: Chord) -> int {
    smoothness_terms(p, c) + (if parallel_octaves(p, c) { -100int } else { 0int }) + (
    if parallel_fifths(p, c) { -100int } else { 0int })
}

/// Fitness of a chord sequence: the sum of each chord's own terms and, from
/// the second chord on, its transition terms from the chord before.
pub open spec fn score_of(s: Seq<Chord>) -> int
    decreases s.len(),
{
    if s.len() == 0 {
        0
    } else {
        let rest = s.drop_last();
        score_of(rest) + chord_terms(s.last()) + (if rest.len() > 0 {
            transition_terms(rest.last(), s.last())
        } else {
            0
        })
    }
}

/// Every prefix of `s` scores within the range of an `i32`.
pub open spec fn score_fits(s: Seq<Chord>) -> bool {
    forall|k: int| 0 <= k <= s.len() ==> i32::MIN <= #[trigger] score_of(s.take(k)) <= i32::MAX
}

pub(crate) fn chord_penalties(c: &Chord) -> (r: i64)
    requires
        c.wf(),
    ensures
        r == chord_terms(*c),
        -90 <= r <= 0,
{
    reveal(chord_terms);
    let mut r: i64 = 0;
    if c.b == c.t {
        r = r - 25;
    }
    if c.t == c.a {
        r = r - 25;
    }
    if c.a == c.s {
        r = r - 25;
    }
    if !c.s.in_range_inclusive(
        NoteWithOctave::new(NoteName::E, None, 4),
        NoteWithOctave::new(NoteName::E, None, 5),
    ) {
        r = r - 5;
    }
    if !c.a.in_range_inclusive(
        NoteWithOctave::new(NoteName::B, None, 3),
        NoteWithOctave::new(NoteName::B, None, 4),
    ) {
        r = r - 5;
    }
    if !c.t.in_range_inclusive(
        NoteWithOctave::new(NoteName::G, None, 3),
        NoteWithOctave::new(NoteName::G, None, 4),
    ) {
        r = r - 5;
    }
    r
}

fn has_parallel_octaves(p: &Chord, c: &Chord) -> (r: bool)
    ensures
        r == parallel_octaves(*p, *c),
{
    let b_a = p.b.note == p.a.note && c.b.note == c.a.note;
    let b_s = p.b.note == p.s.note && c.b.note == c.s.note;
    let b_t = p.b.note == p.t.note && c.b.note == c.t.note;
    let t_a = p.t.note == p.a.note && c.t.note == c.a.note;
    let t_s = p.t.note == p.s.note && c.t.note == c.s.note;
    let a_s = p.a.note == p.s.note && c.a.note == c.s.note;
    b_a || b_s || b_t || t_a || t_s || a_s
}

fn is_fifth_pair(x: &NoteWithOctave, y: &NoteWithOctave, u: &NoteWithOctave, v: &NoteWithOctave) -> (r: bool)
    requires
        x.wf(),
        y.wf(),
        u.wf(),
        v.wf(),
    ensures
        r == (fifth_above(*x, *y) && fifth_above(*u, *v)),
{
    x.semitones_up_to(*y) == 7 && u.semitones_up_to(*v) == 7
}

fn has_parallel_fifths(p: &Chord, c: &Chord) -> (r: bool)
    requires
        p.wf(),
        c.wf(),
    ensures
        r == parallel_fifths(*p, *c),
{
    let b_t = is_fifth_pair(&p.b, &p.t, &c.b, &c.t);
    let b_a = is_fifth_pair(&p.b, &p.a, &c.b, &c.a);
    let b_s = is_fifth_pair(&p.b, &p.s, &c.b, &c.s);
    let t_a = is_fifth_pair(&p.t, &p.a, &c.t, &c.a);
    let t_s = is_fifth_pair(&p.t, &p.s, &c.t, &c.s);
    let a_s = is_fifth_pair(&p.a, &p.s, &c.a, &c.s);
    b_t || b_a || b_s || t_a || t_s || a_s
}

fn smoothness_score(p: &Chord, c: &Chord) -> (r: i64)
    requires
        p.wf(),
        c.wf(),
    ensures
        r == smoothness_terms(*p, *c),
        -29_000_000_000 <= r <= 80,
{
    let s_interval = p.s.semitones_between(c.s);
    let a_interval = p.a.semitones_between(c.a);
    let t_interval = p.t.semitones_between(c.t);
    let s_term: i64 = 40 - (s_interval as i64) * 10;
    let a_term: i64 = 20 - (a_interval as i64) * 5;
    let t_term: i64 = 20 - (t_interval as i64) * 5;
    s_term + a_term + t_term
}

pub(crate) fn transition_score(p: &Chord, c: &Chord) -> (r: i64)
    requires
        p.wf(),
        c.wf(),
    ensures
        r == transition_terms(*p, *c),
        -30_000_000_000 <= r <= 80,
{
    reveal(transition_terms);
    let mut r = smoothness_score(p, c);
    if has_parallel_octaves(p, c) {
        r = r - 100;
    }
    if has_parallel_fifths(p, c) {
        r = r - 100;
    }
    r
}

pub proof fn lemma_score_step(s: Seq<Chord>, i: int)
    requires
        0 <= i < s.len(),
    ensures
        score_of(s.take(i + 1)) == score_of(s.take(i)) + chord_terms(s[i]) + (if i > 0 {
            transition_terms(s[i - 1], s[i])
        } else {
            0
        }),
{
    let next = s.take(i + 1);
    assert(next.drop_last() =~= s.take(i));
}

/// Scoring is a function of the sequence alone: equal sequences score the same.
pub proof fn lemma_score_deterministic(x: Seq<Chord>, y: Seq<Chord>)
    requires
        x == y,
    ensures
        score_of(x) == score_of(y),
{
}

/// A single chord has no predecessor: its score is its doubling and
/// preferred-range penalties only.
pub proof fn lemma_single_chord_score(c: Chord)
    ensures
        score_of(seq![c]) == doubling_terms(c) + preferred_range_terms(c),
{
    reveal(chord_terms);
    assert(seq![c].drop_last() =~= Seq::<Chord>::empty());
    assert(score_of(Seq::<Chord>::empty()) == 0);
    assert(seq![c].last() == c);
}

/// A chord repeated right after itself gains the full smoothness reward of
/// 40 (soprano), 20 (alto) and 20 (tenor), whatever penalties also apply.
pub proof fn lemma_repeated_chord_smoothness(s: Seq<Chord>, c: Chord)
    ensures
        smoothness_terms(c, c) == 40 + 20 + 20,
        score_of(s.push(c).push(c)) == score_of(s.push(c)) + chord_terms(c) + 40 + 20 + 20 + (
        if parallel_octaves(c, c) { -100int } else { 0int }) + (if parallel_fifths(c, c) {
            -100int
        } else {
            0int
        }),
{
    reveal(transition_terms);
    assert(s.push(c).push(c).drop_last() =~= s.push(c));
}

} // verus!
