use vstd::prelude::*;

verus! {

/// Largest octave number that a pitch may carry, so that its absolute
/// semitone value fits a signed 32-bit integer.
pub const MAX_OCTAVE: u32 = 100_000_000;

/// The seven note letters.
#[derive(PartialEq, Eq, Structural, Clone, Copy, Debug)]
pub enum NoteName {
    C,
    D,
    E,
    F,
    G,
    A,
    B,
}

/// Semitone of a letter above C.
pub open spec fn letter_semitone(n: NoteName) -> int {
    match n {
        NoteName::C => 0,
        NoteName::D => 2,
        NoteName::E => 4,
        NoteName::F => 5,
        NoteName::G => 7,
        NoteName::A => 9,
        NoteName::B => 11,
    }
}

/// The letter that sits on pitch class `pc` without a modifier, if any.
pub open spec fn natural_at(pc: int) -> Option<NoteName> {
    if pc == 0 {
        Some(NoteName::C)
    } else if pc == 2 {
        Some(NoteName::D)
    } else if pc == 4 {
        Some(NoteName::E)
    } else if pc == 5 {
        Some(NoteName::F)
    } else if pc == 7 {
        Some(NoteName::G)
    } else if pc == 9 {
        Some(NoteName::A)
    } else if pc == 11 {
        Some(NoteName::B)
    } else {
        None
    }
}

/// The letter at position `i` of C D E F G A B.
pub open spec fn letter_at(i: int) -> Option<NoteName> {
    if i == 0 {
        Some(NoteName::C)
    } else if i == 1 {
        Some(NoteName::D)
    } else if i == 2 {
        Some(NoteName::E)
    } else if i == 3 {
        Some(NoteName::F)
    } else if i == 4 {
        Some(NoteName::G)
    } else if i == 5 {
        Some(NoteName::A)
    } else if i == 6 {
        Some(NoteName::B)
    } else {
        None
    }
}

impl NoteName {
    fn get_semitone(self) -> (r: u32)
        ensures
            r == letter_semitone(self),
    {
        match self {
            NoteName::C => 0,
            NoteName::D => 2,
            NoteName::E => 4,
            NoteName::F => 5,
            NoteName::G => 7,
            NoteName::A => 9,
            NoteName::B => 11,
        }
    }

    fn from_semitones(semitones: u32) -> (r: Option<NoteName>)
        ensures
            r == natural_at((semitones % 12) as int),
            r matches Some(n) ==> letter_semitone(n) == semitones % 12,
    {
        let pc = semitones % 12;
        match pc {
            0 => Some(NoteName::C),
            2 => Some(NoteName::D),
            4 => Some(NoteName::E),
            5 => Some(NoteName::F),
            7 => Some(NoteName::G),
            9 => Some(NoteName::A),
            11 => Some(NoteName::B),
            _ => None,
        }
    }

    /// The letter as a character, for rendering.
    pub fn letter(self) -> (r: char)
        ensures
            r == match self {
                NoteName::C => 'C',
                NoteName::D => 'D',
                NoteName::E => 'E',
                NoteName::F => 'F',
                NoteName::G => 'G',
                NoteName::A => 'A',
                NoteName::B => 'B',
            },
    {
        match self {
            NoteName::C => 'C',
            NoteName::D => 'D',
            NoteName::E => 'E',
            NoteName::F => 'F',
            NoteName::G => 'G',
            NoteName::A => 'A',
            NoteName::B => 'B',
        }
    }

    /// The letter written as `c`, if `c` is one of `A` to `G`.
    pub fn from_letter(c: char) -> (r: Option<NoteName>)
        ensures
            r matches Some(n) ==> n.letter_spec() == c,
            r is None <==> !(c == 'C' || c == 'D' || c == 'E' || c == 'F' || c == 'G' || c == 'A'
                || c == 'B'),
    {
        match c {
            'C' => Some(NoteName::C),
            'D' => Some(NoteName::D),
            'E' => Some(NoteName::E),
            'F' => Some(NoteName::F),
            'G' => Some(NoteName::G),
            'A' => Some(NoteName::A),
            'B' => Some(NoteName::B),
            _ => None,
        }
    }

    pub open spec fn letter_spec(self) -> char {
        match self {
            NoteName::C => 'C',
            NoteName::D => 'D',
            NoteName::E => 'E',
            NoteName::F => 'F',
            NoteName::G => 'G',
            NoteName::A => 'A',
            NoteName::B => 'B',
        }
    }

    /// The letter at position `index` of C D E F G A B.
    pub fn from_index(index: u32) -> (r: Option<NoteName>)
        ensures
            r == letter_at(index as int),
    {
        match index {
            0 => Some(NoteName::C),
            1 => Some(NoteName::D),
            2 => Some(NoteName::E),
            3 => Some(NoteName::F),
            4 => Some(NoteName::G),
            5 => Some(NoteName::A),
            6 => Some(NoteName::B),
            _ => None,
        }
    }
}

/// A sharp or a flat.
#[derive(PartialEq, Eq, Structural, Clone, Copy, Debug)]
pub enum Accidental {
    Flat,
    Sharp,
}

/// Semitones that a modifier adds to a letter.
pub open spec fn modifier_offset(a: Option<Accidental>) -> int {
    match a {
        Some(Accidental::Flat) => -1,
        Some(Accidental::Sharp) => 1,
        None => 0,
    }
}

impl Accidental {
    /// The modifier's sign as written after a letter.
    pub fn symbol(self) -> (r: char)
        ensures
            r == (if self == Accidental::Flat { 'b' } else { '#' }),
    {
        match self {
            Accidental::Flat => 'b',
            Accidental::Sharp => '#',
        }
    }
}

/// A pitch class: a letter with an optional modifier.
#[derive(PartialEq, Eq, Structural, Clone, Copy, Debug)]
pub struct Note {
    pub name: NoteName,
    pub accidental: Option<Accidental>,
}

/// Pitch class of a note, in [0, 12).
pub open spec fn pitch_class(n: Note) -> int {
    (letter_semitone(n.name) + modifier_offset(n.accidental) + 12) % 12
}

/// How `Note::from_semitones` spells pitch class `pc` (in [0, 12)): the plain
/// letter where there is one, else the neighbouring letter with `acc`.
pub open spec fn spelling(pc: int, acc: Accidental) -> Note {
    match natural_at(pc) {
        Some(n) => Note { name: n, accidental: None },
        None => match acc {
            Accidental::Sharp => Note { name: natural_at(pc - 1).unwrap(), accidental: Some(acc) },
            Accidental::Flat => Note { name: natural_at(pc + 1).unwrap(), accidental: Some(acc) },
        },
    }
}

/// The same pitch class spelled with the other modifier (a plain letter
/// where one exists); a note without modifier is its own equivalent.
pub open spec fn enharmonic(n: Note) -> Note {
    match n.accidental {
        Some(Accidental::Sharp) => spelling(pitch_class(n), Accidental::Flat),
        Some(Accidental::Flat) => spelling(pitch_class(n), Accidental::Sharp),
        None => n,
    }
}

/// A note in canonical spelling: the plain letter where an equivalent one exists.
pub open spec fn normalized(n: Note) -> Note {
    if enharmonic(n).accidental is None {
        enharmonic(n)
    } else {
        n
    }
}

proof fn lemma_spelling(pc: int, acc: Accidental)
    requires
        0 <= pc < 12,
    ensures
        pitch_class(spelling(pc, acc)) == pc,
        spelling(pc, acc).accidental is None <==> natural_at(pc) is Some,
        spelling(pc, acc).accidental is Some ==> spelling(pc, acc).accidental == Some(acc),
{
}

impl Note {
    /// A note, spelled canonically: a modified letter that equals a plain one
    /// (E sharp, C flat) becomes the plain letter.
    pub fn new(name: NoteName, accidental: Option<Accidental>) -> (r: Note)
        ensures
            r == normalized(Note { name, accidental }),
            pitch_class(r) == pitch_class(Note { name, accidental }),
    {
        let note = Note { name, accidental };
        let enharmonic_equivalent = note.enharmonic_equivalent();
        if enharmonic_equivalent.accidental.is_none() {
            enharmonic_equivalent
        } else {
            note
        }
    }

    /// Pitch class in [0, 12).
    pub fn to_semitones(self) -> (r: u32)
        ensures
            r == pitch_class(self),
            r < 12,
    {
        let base = self.name.get_semitone() + 12;
        let shifted = match self.accidental {
            Some(Accidental::Flat) => base - 1,
            Some(Accidental::Sharp) => base + 1,
            None => base,
        };
        shifted % 12
    }

    /// The note at `semitones` modulo 12, spelled with `accidental` where no
    /// plain letter fits.
    pub fn from_semitones(semitones: u32, accidental: Accidental) -> (r: Note)
        ensures
            r == spelling((semitones % 12) as int, accidental),
            pitch_class(r) == semitones % 12,
            r.accidental is None <==> natural_at((semitones % 12) as int) is Some,
            r.accidental is Some ==> r.accidental == Some(accidental),
    {
        let pc = semitones % 12;
        proof {
            lemma_spelling(pc as int, accidental);
        }
        match NoteName::from_semitones(pc) {
            Some(name) => Note { name, accidental: None },
            None => match accidental {
                Accidental::Sharp => {
                    let name = NoteName::from_semitones(pc - 1);
                    Note { name: name.unwrap(), accidental: Some(Accidental::Sharp) }
                },
                Accidental::Flat => {
                    let name = NoteName::from_semitones(pc + 1);
                    Note { name: name.unwrap(), accidental: Some(Accidental::Flat) }
                },
            },
        }
    }

    /// Unsigned distance between the two pitch classes.
    pub fn semitones_between(&self, other: Note) -> (r: u32)
        ensures
            r == if pitch_class(*self) >= pitch_class(other) {
                pitch_class(*self) - pitch_class(other)
            } else {
                pitch_class(other) - pitch_class(*self)
            },
    {
        let x = self.to_semitones();
        let y = other.to_semitones();
        if x >= y {
            x - y
        } else {
            y - x
        }
    }

    /// The same pitch class spelled with the other modifier.
    pub fn enharmonic_equivalent(self) -> (r: Note)
        ensures
            r == enharmonic(self),
            pitch_class(r) == pitch_class(self),
    {
        match self.accidental {
            Some(Accidental::Sharp) => Note::from_semitones(self.to_semitones(), Accidental::Flat),
            Some(Accidental::Flat) => Note::from_semitones(self.to_semitones(), Accidental::Sharp),
            None => self,
        }
    }
}

/// An absolute pitch: a pitch class in an octave.
#[derive(PartialEq, Eq, Structural, Clone, Copy, Debug)]
pub struct NoteWithOctave {
    pub note: Note,
    pub octave: u32,
}

/// Absolute semitone value of a pitch.
pub open spec fn abs_pitch(n: NoteWithOctave) -> int {
    pitch_class(n.note) + 12 * n.octave
}

impl NoteWithOctave {
    /// The octave is small enough for the pitch's semitone value to fit.
    pub open spec fn wf(self) -> bool {
        self.octave <= MAX_OCTAVE
    }

    pub fn new(name: NoteName, accidental: Option<Accidental>, octave: u32) -> (r: NoteWithOctave)
        ensures
            r.note == normalized(Note { name, accidental }),
            r.octave == octave,
            abs_pitch(r) == pitch_class(Note { name, accidental }) + 12 * octave,
    {
        let note = Note::new(name, accidental);
        NoteWithOctave { note, octave }
    }

    /// Absolute semitone value: pitch class plus twelve per octave.
    pub fn to_semitones(self) -> (r: u32)
        requires
            self.wf(),
        ensures
            r == abs_pitch(self),
            r <= 12 * MAX_OCTAVE + 11,
    {
        self.note.to_semitones() + self.octave * 12
    }

    /// The pitch at absolute semitone value `semitones`.
    pub fn from_semitones(semitones: u32, accidental: Accidental) -> (r: NoteWithOctave)
        ensures
            r.note == spelling((semitones % 12) as int, accidental),
            r.octave == semitones / 12,
            abs_pitch(r) == semitones,
    {
        let note = Note::from_semitones(semitones, accidental);
        let octave = semitones / 12;
        NoteWithOctave { note, octave }
    }

    pub fn from_note(note: Note, octave: u32) -> (r: NoteWithOctave)
        ensures
            r == (NoteWithOctave { note, octave }),
    {
        NoteWithOctave { note, octave }
    }

    /// Unsigned semitone distance between two pitches.
    pub fn semitones_between(&self, other: NoteWithOctave) -> (r: u32)
        requires
            self.wf(),
            other.wf(),
        ensures
            r == if abs_pitch(*self) >= abs_pitch(other) {
                abs_pitch(*self) - abs_pitch(other)
            } else {
                abs_pitch(other) - abs_pitch(*self)
            },
            r <= 12 * MAX_OCTAVE + 11,
    {
        let x = self.to_semitones();
        let y = other.to_semitones();
        if x >= y {
            x - y
        } else {
            y - x
        }
    }

    /// Signed semitone distance from this pitch up to `other`.
    pub fn semitones_up_to(&self, other: NoteWithOctave) -> (r: i32)
        requires
            self.wf(),
            other.wf(),
        ensures
            r == abs_pitch(other) - abs_pitch(*self),
    {
        (other.to_semitones() as i32) - (self.to_semitones() as i32)
    }

    /// Whether this pitch lies in `[lb, ub]`.
    pub fn in_range_inclusive(&self, lb: NoteWithOctave, ub: NoteWithOctave) -> (r: bool)
        requires
            self.wf(),
            lb.wf(),
            ub.wf(),
        ensures
            r == (abs_pitch(lb) <= abs_pitch(*self) <= abs_pitch(ub)),
    {
        lb.semitones_up_to(*self) >= 0 && self.semitones_up_to(ub) >= 0
    }
}

/// Four voices of one chord.
#[derive(PartialEq, Eq, Structural, Clone, Copy, Debug)]
pub struct Chord {
    pub s: NoteWithOctave,
    pub a: NoteWithOctave,
    pub t: NoteWithOctave,
    pub b: NoteWithOctave,
}

impl Chord {
    /// All four pitches carry octaves in bounds.
    pub open spec fn wf(self) -> bool {
        self.s.wf() && self.a.wf() && self.t.wf() && self.b.wf()
    }

    pub fn new(s: NoteWithOctave, a: NoteWithOctave, t: NoteWithOctave, b: NoteWithOctave) -> (r:
        Chord)
        ensures
            r == (Chord { s, a, t, b }),
    {
        Chord { s, a, t, b }
    }
}

/// Major or minor.
#[derive(PartialEq, Eq, Structural, Clone, Copy, Debug)]
pub enum Tonality {
    Major,
    Minor,
}

/// A key: how many sharps or flats, and whether it is major or minor.
#[derive(PartialEq, Eq, Structural, Clone, Copy, Debug)]
pub struct KeySignature {
    pub accidental: Accidental,
    pub number: u32,
    pub tonality: Tonality,
}

pub open spec fn plain(name: NoteName) -> Note {
    Note { name, accidental: None }
}

pub open spec fn sharp(name: NoteName) -> Note {
    Note { name, accidental: Some(Accidental::Sharp) }
}

pub open spec fn flat(name: NoteName) -> Note {
    Note { name, accidental: Some(Accidental::Flat) }
}

/// Tonics of the keys with 0 to 6 sharps (or flats), in order.
pub open spec fn key_table(tonality: Tonality, accidental: Accidental) -> Seq<Note> {
    match (tonality, accidental) {
        (Tonality::Major, Accidental::Sharp) => seq![
            plain(NoteName::C),
            plain(NoteName::G),
            plain(NoteName::D),
            plain(NoteName::A),
            plain(NoteName::E),
            plain(NoteName::B),
            sharp(NoteName::F),
        ],
        (Tonality::Minor, Accidental::Sharp) => seq![
            plain(NoteName::A),
            plain(NoteName::E),
            plain(NoteName::B),
            sharp(NoteName::F),
            sharp(NoteName::C),
            sharp(NoteName::G),
            sharp(NoteName::D),
        ],
        (Tonality::Major, Accidental::Flat) => seq![
            plain(NoteName::C),
            plain(NoteName::F),
            flat(NoteName::B),
            flat(NoteName::E),
            flat(NoteName::A),
            flat(NoteName::D),
            flat(NoteName::G),
        ],
        (Tonality::Minor, Accidental::Flat) => seq![
            plain(NoteName::A),
            plain(NoteName::D),
            plain(NoteName::G),
            plain(NoteName::C),
            plain(NoteName::F),
            flat(NoteName::B),
            flat(NoteName::E),
        ],
    }
}

/// `n` sits at index `i` of `s` and nowhere before it.
pub open spec fn first_at(s: Seq<Note>, n: Note, i: int) -> bool {
    0 <= i < s.len() && s[i] == n && forall|j: int| 0 <= j < i ==> s[j] != n
}

fn key_notes(tonality: Tonality, accidental: Accidental) -> (r: Vec<Note>)
    ensures
        r@ == key_table(tonality, accidental),
{
    let p = |name: NoteName| -> (n: Note)
        ensures
            n == plain(name),
        { Note { name, accidental: None } };
    let sh = |name: NoteName| -> (n: Note)
        ensures
            n == sharp(name),
        { Note { name, accidental: Some(Accidental::Sharp) } };
    let fl = |name: NoteName| -> (n: Note)
        ensures
            n == flat(name),
        { Note { name, accidental: Some(Accidental::Flat) } };
    let r = match (tonality, accidental) {
        (Tonality::Major, Accidental::Sharp) => vec![
            p(NoteName::C),
            p(NoteName::G),
            p(NoteName::D),
            p(NoteName::A),
            p(NoteName::E),
            p(NoteName::B),
            sh(NoteName::F),
        ],
        (Tonality::Minor, Accidental::Sharp) => vec![
            p(NoteName::A),
            p(NoteName::E),
            p(NoteName::B),
            sh(NoteName::F),
            sh(NoteName::C),
            sh(NoteName::G),
            sh(NoteName::D),
        ],
        (Tonality::Major, Accidental::Flat) => vec![
            p(NoteName::C),
            p(NoteName::F),
            fl(NoteName::B),
            fl(NoteName::E),
            fl(NoteName::A),
            fl(NoteName::D),
            fl(NoteName::G),
        ],
        (Tonality::Minor, Accidental::Flat) => vec![
            p(NoteName::A),
            p(NoteName::D),
            p(NoteName::G),
            p(NoteName::C),
            p(NoteName::F),
            fl(NoteName::B),
            fl(NoteName::E),
        ],
    };
    assert(r@ =~= key_table(tonality, accidental));
    r
}

fn position_of(notes: &Vec<Note>, n: Note) -> (r: Option<usize>)
    ensures
        r matches Some(i) ==> first_at(notes@, n, i as int),
        r is None <==> !notes@.contains(n),
{
    let mut i: usize = 0;
    while i < notes.len()
        invariant
            i <= notes@.len(),
            forall|j: int| 0 <= j < i ==> notes@[j] != n,
        decreases notes@.len() - i,
    {
        if notes[i] == n {
            return Some(i);
        }
        i = i + 1;
    }
    None
}

/// Step pattern of the scale above its tonic.
pub open spec fn scale_steps(tonality: Tonality) -> Seq<int> {
    match tonality {
        Tonality::Major => seq![0int, 2, 4, 5, 7, 9, 11],
        Tonality::Minor => seq![0int, 2, 3, 5, 7, 8, 10],
    }
}

fn scale_step(tonality: Tonality, i: usize) -> (r: u32)
    requires
        i < 7,
    ensures
        r == scale_steps(tonality)[i as int],
{
    let major: [u32; 7] = [0, 2, 4, 5, 7, 9, 11];
    let minor: [u32; 7] = [0, 2, 3, 5, 7, 8, 10];
    match tonality {
        Tonality::Major => major[i],
        Tonality::Minor => minor[i],
    }
}

impl KeySignature {
    /// Pitch class of the key's tonic: around the circle of fifths (sharps)
    /// or fourths (flats) from C, three semitones lower for a minor key.
    pub open spec fn tonic_class(self) -> int {
        let cycle: int = if self.accidental == Accidental::Sharp { 7 } else { 5 };
        let shift: int = if self.tonality == Tonality::Minor { 9 } else { 0 };
        ((self.number % 12) as int * cycle + shift) % 12
    }

    /// The key whose tonic is the given note, found among the sharp keys first
    /// and then the flat keys; `None` when neither list has it.
    pub fn from_note(note_name: NoteName, accidental: Option<Accidental>, tonality: Tonality) -> (r:
        Option<KeySignature>)
        ensures
            ({
                let n = normalized(Note { name: note_name, accidental });
                &&& r is None <==> (!key_table(tonality, Accidental::Sharp).contains(n)
                    && !key_table(tonality, Accidental::Flat).contains(n))
                &&& r matches Some(k) ==> k.tonality == tonality && first_at(
                    key_table(tonality, k.accidental),
                    n,
                    k.number as int,
                ) && (k.accidental == Accidental::Flat ==> !key_table(
                    tonality,
                    Accidental::Sharp,
                ).contains(n))
            }),
    {
        let note = Note::new(note_name, accidental);
        let sharps = key_notes(tonality, Accidental::Sharp);
        if let Some(pos) = position_of(&sharps, note) {
            return Some(KeySignature { accidental: Accidental::Sharp, number: pos as u32, tonality });
        }
        let flats = key_notes(tonality, Accidental::Flat);
        if let Some(pos) = position_of(&flats, note) {
            return Some(KeySignature { accidental: Accidental::Flat, number: pos as u32, tonality });
        }
        None
    }

    /// The key's tonic, spelled with the key's accidental.
    pub fn get_starting_note(&self) -> (r: Note)
        ensures
            r == spelling(self.tonic_class(), self.accidental),
            pitch_class(r) == self.tonic_class(),
    {
        let cycle: u32 = if self.accidental == Accidental::Sharp {
            7
        } else {
            5
        };
        let shift: u32 = if self.tonality == Tonality::Minor {
            9
        } else {
            0
        };
        let semitones = (self.number % 12) * cycle + shift;
        let r = Note::from_semitones(semitones, self.accidental);
        r
    }

    /// The seven notes of the key's scale from its tonic, each spelled with
    /// the key's accidental where no plain letter fits.
    pub fn get_scale(&self) -> (r: Vec<Note>)
        ensures
            r@ == self.scale_spec(),
            r@.len() == 7,
            forall|i: int|
                0 <= i < 7 ==> #[trigger] r@[i] == spelling(
                    (scale_steps(self.tonality)[i] + self.tonic_class()) % 12,
                    self.accidental,
                ),
    {
        let start = self.get_starting_note().to_semitones();
        let mut r: Vec<Note> = Vec::new();
        let mut i: usize = 0;
        while i < 7
            invariant
                i <= 7,
                start == self.tonic_class(),
                r@.len() == i,
                forall|j: int|
                    0 <= j < i ==> #[trigger] r@[j] == spelling(
                        (scale_steps(self.tonality)[j] + self.tonic_class()) % 12,
                        self.accidental,
                    ),
            decreases 7 - i,
        {
            let step = scale_step(self.tonality, i);
            r.push(Note::from_semitones(step + start, self.accidental));
            i = i + 1;
        }
        assert(r@ =~= self.scale_spec());
        r
    }

    /// The key's scale as a sequence of seven notes.
    pub open spec fn scale_spec(self) -> Seq<Note> {
        Seq::new(
            7,
            |i: int|
                spelling((scale_steps(self.tonality)[i] + self.tonic_class()) % 12, self.accidental),
        )
    }
}

/// A bass note with its figures: scale steps above the bass (counting the
/// bass as one), each optionally raised or lowered by a semitone.
pub struct Figure {
    pub bass: NoteWithOctave,
    pub figures: Vec<(u32, Option<Accidental>)>,
}

/// Figures in ascending order of their step number.
pub open spec fn sorted_by_step(s: Seq<(u32, Option<Accidental>)>) -> bool {
    forall|i: int, j: int| 0 <= i < j < s.len() ==> (#[trigger] s[i]).0 <= (#[trigger] s[j]).0
}

/// A step number that names a note within the octave above the bass.
pub open spec fn step_ok(f: u32) -> bool {
    f >= 1 && (f - 1) % 8 < 7
}

/// `i` is the first index of `scale` whose letter is `name`.
pub open spec fn letter_first_at(scale: Seq<Note>, name: NoteName, i: int) -> bool {
    0 <= i < scale.len() && scale[i].name == name && forall|j: int|
        0 <= j < i ==> (#[trigger] scale[j]).name != name
}

/// `n` raised (sharp) or lowered (flat) by a semitone as a figure's modifier asks.
pub open spec fn altered(n: Note, acc: Option<Accidental>) -> Note {
    match acc {
        None => n,
        Some(Accidental::Sharp) => spelling((pitch_class(n) + 1) % 12, Accidental::Sharp),
        Some(Accidental::Flat) => spelling((pitch_class(n) + 11) % 12, Accidental::Flat),
    }
}

/// `v` is the bass note followed by the note of each figure, counted up the
/// scale from position `rot`.
pub open spec fn figures_from(bass: Note, figures: Seq<(u32, Option<Accidental>)>, scale: Seq<Note>, rot: int, v: Seq<Note>) -> bool {
    &&& v.len() == figures.len() + 1
    &&& v[0] == bass
    &&& forall|j: int|
        0 <= j < figures.len() ==> #[trigger] v[j + 1] == altered(
            scale[(rot + (figures[j].0 - 1) % 8) % 7],
            figures[j].1,
        )
}

/// Selects the figures with step number `v`.
pub open spec fn step_is(v: u32) -> spec_fn((u32, Option<Accidental>)) -> bool {
    |x: (u32, Option<Accidental>)| x.0 == v
}

/// The figures of `s` with step number `v`, in their order in `s`.
pub open spec fn with_step(s: Seq<(u32, Option<Accidental>)>, v: u32) -> Seq<(u32, Option<Accidental>)> {
    s.filter(step_is(v))
}

proof fn lemma_with_step_push(s: Seq<(u32, Option<Accidental>)>, x: (u32, Option<Accidental>), v: u32)
    ensures
        with_step(s.push(x), v) == if x.0 == v {
            with_step(s, v).push(x)
        } else {
            with_step(s, v)
        },
{
    reveal(Seq::filter);
    assert(s.push(x).drop_last() =~= s);
}

proof fn lemma_with_step_none(s: Seq<(u32, Option<Accidental>)>, v: u32)
    requires
        forall|j: int| 0 <= j < s.len() ==> (#[trigger] s[j]).0 != v,
    ensures
        with_step(s, v) == Seq::<(u32, Option<Accidental>)>::empty(),
    decreases s.len(),
{
    reveal(Seq::filter);
    if s.len() > 0 {
        lemma_with_step_none(s.drop_last(), v);
    }
}

/// Inserting `x` after every figure numbered at most `x.0` and before every
/// larger one keeps the order of the figures of each step number.
proof fn lemma_insert_keeps_steps(
    before: Seq<(u32, Option<Accidental>)>,
    pos: int,
    x: (u32, Option<Accidental>),
    v: u32,
)
    requires
        0 <= pos <= before.len(),
        sorted_by_step(before),
        forall|j: int| 0 <= j < pos ==> (#[trigger] before[j]).0 <= x.0,
        pos < before.len() ==> before[pos].0 > x.0,
    ensures
        with_step(before.insert(pos, x), v) == if x.0 == v {
            with_step(before, v).push(x)
        } else {
            with_step(before, v)
        },
{
    let a = before.take(pos);
    let b = before.skip(pos);
    assert(before =~= a + b);
    assert(before.insert(pos, x) =~= a.push(x) + b);
    Seq::filter_distributes_over_add(a, b, step_is(v));
    Seq::filter_distributes_over_add(a.push(x), b, step_is(v));
    lemma_with_step_push(a, x, v);
    if x.0 == v {
        assert forall|j: int| 0 <= j < b.len() implies (#[trigger] b[j]).0 != v by {
            assert(b[j] == before[pos + j]);
            if j > 0 {
                assert(before[pos].0 <= before[pos + j].0);
            }
        }
        lemma_with_step_none(b, v);
        assert(with_step(b, v) + Seq::<(u32, Option<Accidental>)>::empty() =~= with_step(b, v));
        assert(with_step(a, v).push(x) + with_step(b, v) =~= with_step(a, v).push(x));
        assert(with_step(a, v) + with_step(b, v) =~= with_step(a, v));
    }
}

fn alter(n: Note, acc: Option<Accidental>) -> (r: Note)
    ensures
        r == altered(n, acc),
{
    match acc {
        None => n,
        Some(Accidental::Sharp) => Note::from_semitones(n.to_semitones() + 1, Accidental::Sharp),
        Some(Accidental::Flat) => Note::from_semitones(n.to_semitones() + 11, Accidental::Flat),
    }
}

impl Figure {
    /// A figure with its bass spelled canonically and its figures ordered by
    /// step number.
    pub fn new(
        name: NoteName,
        accidental: Option<Accidental>,
        octave: u32,
        figures: Vec<(u32, Option<Accidental>)>,
    ) -> (r: Figure)
        ensures
            r.bass.note == normalized(Note { name, accidental }),
            r.bass.octave == octave,
            sorted_by_step(r.figures@),
            r.figures@.to_multiset() == figures@.to_multiset(),
            forall|v: u32| #[trigger] with_step(r.figures@, v) == with_step(figures@, v),
    {
        let mut sorted: Vec<(u32, Option<Accidental>)> = Vec::new();
        let mut i: usize = 0;
        assert(figures@.take(0) =~= sorted@);
        while i < figures.len()
            invariant
                i <= figures@.len(),
                sorted_by_step(sorted@),
                sorted@.to_multiset() == figures@.take(i as int).to_multiset(),
                forall|v: u32| #[trigger] with_step(sorted@, v) == with_step(figures@.take(i as int), v),
            decreases figures@.len() - i,
        {
            let x = figures[i];
            let mut pos: usize = 0;
            while pos < sorted.len() && sorted[pos].0 <= x.0
                invariant
                    pos <= sorted@.len(),
                    forall|j: int| 0 <= j < pos ==> (#[trigger] sorted@[j]).0 <= x.0,
                decreases sorted@.len() - pos,
            {
                pos = pos + 1;
            }
            let ghost before = sorted@;
            sorted.insert(pos, x);
            proof {
                assert(figures@.take(i + 1) =~= figures@.take(i as int).push(x));
                assert(sorted@ == before.insert(pos as int, x));
                vstd::seq_lib::to_multiset_insert(before, pos as int, x);
                vstd::seq_lib::to_multiset_build(figures@.take(i as int), x);
                assert forall|v: u32| #[trigger] with_step(sorted@, v) == with_step(figures@.take(i + 1), v) by {
                    lemma_with_step_push(figures@.take(i as int), x, v);
                    lemma_insert_keeps_steps(before, pos as int, x, v);
                }
                assert forall|a: int, b: int| 0 <= a < b < sorted@.len() implies (#[trigger] sorted@[a]).0 <= (#[trigger] sorted@[b]).0 by {
                    if b < pos {
                    } else if b == pos {
                        assert(sorted@[a] == before[a]);
                    } else if a < pos {
                        assert(sorted@[a] == before[a]);
                        assert(sorted@[b] == before[b - 1]);
                        if b - 1 >= pos {
                            assert(before[pos as int].0 > x.0 || pos == before.len());
                            if pos < before.len() {
                                assert(before[pos as int].0 <= before[b - 1].0);
                            }
                        }
                    } else if a == pos {
                        assert(sorted@[b] == before[b - 1]);
                        assert(before[pos as int].0 > x.0);
                        assert(before[pos as int].0 <= before[b - 1].0 || pos == b - 1);
                    } else {
                        assert(sorted@[a] == before[a - 1]);
                        assert(sorted@[b] == before[b - 1]);
                    }
                }
            }
            i = i + 1;
        }
        assert(figures@.take(figures@.len() as int) =~= figures@);
        Figure { bass: NoteWithOctave::new(name, accidental, octave), figures: sorted }
    }

    /// The pitch classes of the figure in `key_sig`: the bass note, then for
    /// each figure the scale note that many steps above the bass, altered by
    /// the figure's modifier. `None` where the bass letter is not in the
    /// key's scale or a step number is 0 or a multiple of 8.
    pub fn to_notes(&self, key_sig: KeySignature) -> (r: Option<Vec<Note>>)
        ensures
            r is None <==> ((forall|i: int| 0 <= i < 7 ==> (#[trigger] key_sig.scale_spec()[i]).name
                != self.bass.note.name) || exists|j: int|
                0 <= j < self.figures@.len() && !step_ok((#[trigger] self.figures@[j]).0)),
            r matches Some(v) ==> self.expands_to(key_sig.scale_spec(), v@),
    {
        let scale = key_sig.get_scale();
        let mut rot: usize = 0;
        while rot < 7 && scale[rot].name != self.bass.note.name
            invariant
                rot <= 7,
                scale@ == key_sig.scale_spec(),
                forall|j: int| 0 <= j < rot ==> (#[trigger] scale@[j]).name != self.bass.note.name,
            decreases 7 - rot,
        {
            rot = rot + 1;
        }
        if rot == 7 {
            return None;
        }
        let mut chord: Vec<Note> = vec![self.bass.note];
        let mut j: usize = 0;
        while j < self.figures.len()
            invariant
                rot < 7,
                scale@ == key_sig.scale_spec(),
                letter_first_at(scale@, self.bass.note.name, rot as int),
                j <= self.figures@.len(),
                forall|i: int| 0 <= i < j ==> step_ok((#[trigger] self.figures@[i]).0),
                chord@.len() == j + 1,
                chord@[0] == self.bass.note,
                forall|i: int|
                    0 <= i < j ==> #[trigger] chord@[i + 1] == altered(
                        scale@[(rot + (self.figures@[i].0 - 1) % 8) % 7],
                        self.figures@[i].1,
                    ),
            decreases self.figures@.len() - j,
        {
            let f = self.figures[j];
            if f.0 == 0 || (f.0 - 1) % 8 >= 7 {
                assert(!step_ok(self.figures@[j as int].0));
                return None;
            }
            let note = scale[(rot + ((f.0 - 1) % 8) as usize) % 7];
            chord.push(alter(note, f.1));
            j = j + 1;
        }
        proof {
            assert(figures_from(self.bass.note, self.figures@, scale@, rot as int, chord@));
        }
        Some(chord)
    }

    /// `v` is this figure's expansion over `scale`.
    pub open spec fn expands_to(self, scale: Seq<Note>, v: Seq<Note>) -> bool {
        exists|rot: int|
            letter_first_at(scale, self.bass.note.name, rot) && #[trigger] figures_from(
                self.bass.note,
                self.figures@,
                scale,
                rot,
                v,
            )
    }
}

} // verus!
