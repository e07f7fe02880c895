//! Local detections and the two ways of reading one from its fields.
//!
//! A detection has seven attributes. The five real-valued ones are kept as the
//! bit patterns of IEEE-754 single-precision numbers, so that a value read
//! back is exactly the value written. A detection is written either as the
//! seven words in their fixed order, or as a list of `(field, word)` entries in
//! any order. Both readings demand every field exactly once.

use vstd::prelude::*;

verus! {

/// The attributes of a detection, in their fixed order.
#[derive(Clone, Copy, Debug, PartialEq, Eq, Structural)]
pub enum Field {
    X,
    Y,
    Size,
    Angle,
    Response,
    Octave,
    ClassId,
}

/// How many attributes a detection has.
pub const FIELD_COUNT: usize = 7;

impl Field {
    /// The position of the field in the fixed order.
    pub open spec fn spec_index(self) -> int {
        match self {
            Field::X => 0,
            Field::Y => 1,
            Field::Size => 2,
            Field::Angle => 3,
            Field::Response => 4,
            Field::Octave => 5,
            Field::ClassId => 6,
        }
    }

    /// The field at position `i` of the fixed order.
    pub open spec fn spec_at(i: int) -> Field {
        if i == 0 {
            Field::X
        } else if i == 1 {
            Field::Y
        } else if i == 2 {
            Field::Size
        } else if i == 3 {
            Field::Angle
        } else if i == 4 {
            Field::Response
        } else if i == 5 {
            Field::Octave
        } else {
            Field::ClassId
        }
    }

    /// The name under which the field is written.
    pub open spec fn spec_name(self) -> Seq<char> {
        match self {
            Field::X => "x"@,
            Field::Y => "y"@,
            Field::Size => "size"@,
            Field::Angle => "angle"@,
            Field::Response => "response"@,
            Field::Octave => "octave"@,
            Field::ClassId => "class_id"@,
        }
    }

    /// The field holds a real number, not a whole one.
    pub open spec fn spec_is_real(self) -> bool {
        self.spec_index() < 5
    }

    /// Whether the field holds a real number, as the first five do, or a
    /// whole one.
    pub fn is_real(self) -> (yes: bool)
        ensures
            yes == self.spec_is_real(),
    {
        match self {
            Field::Octave => false,
            Field::ClassId => false,
            _ => true,
        }
    }

    /// The position of the field in the fixed order.
    pub fn index(self) -> (i: usize)
        ensures
            i == self.spec_index(),
            i < FIELD_COUNT,
            Field::spec_at(i as int) == self,
    {
        match self {
            Field::X => 0,
            Field::Y => 1,
            Field::Size => 2,
            Field::Angle => 3,
            Field::Response => 4,
            Field::Octave => 5,
            Field::ClassId => 6,
        }
    }

    /// The field at position `i`, or `None` when `i` is not below
    /// [`FIELD_COUNT`].
    pub fn at(i: usize) -> (f: Option<Field>)
        ensures
            f is Some <==> i < FIELD_COUNT,
            f matches Some(g) ==> g == Field::spec_at(i as int) && g.spec_index() == i,
    {
        if i == 0 {
            Some(Field::X)
        } else if i == 1 {
            Some(Field::Y)
        } else if i == 2 {
            Some(Field::Size)
        } else if i == 3 {
            Some(Field::Angle)
        } else if i == 4 {
            Some(Field::Response)
        } else if i == 5 {
            Some(Field::Octave)
        } else if i == 6 {
            Some(Field::ClassId)
        } else {
            None
        }
    }

    /// The name under which the field is written.
    pub fn name(self) -> (s: &'static str)
        ensures
            s@ == self.spec_name(),
    {
        match self {
            Field::X => "x",
            Field::Y => "y",
            Field::Size => "size",
            Field::Angle => "angle",
            Field::Response => "response",
            Field::Octave => "octave",
            Field::ClassId => "class_id",
        }
    }
}

/// Why a list of fields is not a detection.
#[derive(Clone, Copy, Debug, PartialEq, Eq, Structural)]
pub enum FieldError {
    /// The ordered form did not hold seven words; the number is how many it
    /// held.
    InvalidLength(usize),
    /// The tagged form named this field a second time.
    DuplicateField(Field),
    /// The tagged form never named this field.
    MissingField(Field),
}

/// One local detection of a frame.
///
/// `x`, `y`, `size`, `angle` and `response` are bit patterns of
/// single-precision numbers: position, scale, orientation and response
/// strength. `octave` is the pyramid level and `class_id` the class label.
#[derive(Clone, Copy, Debug, PartialEq, Eq, Structural)]
pub struct Detection {
    pub x: u32,
    pub y: u32,
    pub size: u32,
    pub angle: u32,
    pub response: u32,
    pub octave: i32,
    pub class_id: i32,
}

/// A field together with the word written for it.
pub type TaggedWord = (Field, u32);

/// Some entry before position `n` names the field `f`.
pub open spec fn names_field(entries: Seq<TaggedWord>, f: Field, n: int) -> bool {
    exists|j: int| 0 <= j < n && j < entries.len() && (#[trigger] entries[j]).0 == f
}

/// The entry at position `i` names a field that an earlier entry named.
pub open spec fn repeats_at(entries: Seq<TaggedWord>, i: int) -> bool {
    names_field(entries, entries[i].0, i)
}

/// Position `i` is the first at which a field is named again.
pub open spec fn first_repeat(entries: Seq<TaggedWord>, i: int) -> bool {
    &&& 0 <= i < entries.len()
    &&& repeats_at(entries, i)
    &&& forall|j: int| 0 <= j < i ==> !repeats_at(entries, j)
}

/// No field is named twice.
pub open spec fn no_repeat(entries: Seq<TaggedWord>) -> bool {
    forall|j: int| 0 <= j < entries.len() ==> !repeats_at(entries, j)
}

/// `f` is the first field, in the fixed order, that no entry names.
pub open spec fn first_missing(entries: Seq<TaggedWord>, f: Field) -> bool {
    &&& !names_field(entries, f, entries.len() as int)
    &&& forall|g: Field|
        g.spec_index() < f.spec_index() ==> names_field(entries, g, entries.len() as int)
}

/// Every field is named.
pub open spec fn complete(entries: Seq<TaggedWord>) -> bool {
    forall|f: Field| names_field(entries, f, entries.len() as int)
}

/// `r` is what reading the tagged form `entries` gives.
pub open spec fn tagged_reading(entries: Seq<TaggedWord>, r: Result<Detection, FieldError>) -> bool {
    match r {
        Ok(d) => d.written_as(entries),
        Err(FieldError::DuplicateField(f)) => exists|i: int|
            first_repeat(entries, i) && (#[trigger] entries[i]).0 == f,
        Err(FieldError::MissingField(f)) => no_repeat(entries) && first_missing(entries, f),
        Err(FieldError::InvalidLength(_)) => false,
    }
}

impl Detection {
    /// The word written for field `f`.
    pub open spec fn word(self, f: Field) -> u32 {
        match f {
            Field::X => self.x,
            Field::Y => self.y,
            Field::Size => self.size,
            Field::Angle => self.angle,
            Field::Response => self.response,
            Field::Octave => self.octave as u32,
            Field::ClassId => self.class_id as u32,
        }
    }

    /// The seven words in the fixed order.
    pub open spec fn spec_words(self) -> Seq<u32> {
        Seq::new(FIELD_COUNT as nat, |i: int| self.word(Field::spec_at(i)))
    }

    /// The seven entries in the fixed order.
    pub open spec fn spec_tagged(self) -> Seq<TaggedWord> {
        Seq::new(FIELD_COUNT as nat, |i: int| (Field::spec_at(i), self.word(Field::spec_at(i))))
    }

    /// The detection whose words are the first seven of `w`.
    pub open spec fn spec_from_words(w: Seq<u32>) -> Detection {
        Detection {
            x: w[0],
            y: w[1],
            size: w[2],
            angle: w[3],
            response: w[4],
            octave: w[5] as i32,
            class_id: w[6] as i32,
        }
    }

    /// Every entry carries the word that `self` has for its field.
    pub open spec fn agrees_with(self, entries: Seq<TaggedWord>) -> bool {
        forall|j: int|
            0 <= j < entries.len() ==> self.word((#[trigger] entries[j]).0) == entries[j].1
    }

    /// `entries` is a tagged form of `self`: every field once, each with the
    /// word of `self`.
    pub open spec fn written_as(self, entries: Seq<TaggedWord>) -> bool {
        &&& no_repeat(entries)
        &&& complete(entries)
        &&& self.agrees_with(entries)
    }

    /// Builds a detection from its attributes.
    pub fn new(
        x: u32,
        y: u32,
        size: u32,
        angle: u32,
        response: u32,
        octave: i32,
        class_id: i32,
    ) -> (d: Detection)
        ensures
            d == (Detection { x, y, size, angle, response, octave, class_id }),
    {
        Detection { x, y, size, angle, response, octave, class_id }
    }

    /// The word written for field `f`.
    pub fn field_word(&self, f: Field) -> (w: u32)
        ensures
            w == self.word(f),
    {
        match f {
            Field::X => self.x,
            Field::Y => self.y,
            Field::Size => self.size,
            Field::Angle => self.angle,
            Field::Response => self.response,
            Field::Octave => #[verifier::truncate] (self.octave as u32),
            Field::ClassId => #[verifier::truncate] (self.class_id as u32),
        }
    }

    /// The ordered form: the seven words in the fixed order.
    pub fn to_sequence(&self) -> (words: Vec<u32>)
        ensures
            words@ == self.spec_words(),
    {
        let mut words: Vec<u32> = Vec::new();
        let mut i: usize = 0;
        while i < FIELD_COUNT
            invariant
                i <= FIELD_COUNT,
                words@ == self.spec_words().take(i as int),
            decreases FIELD_COUNT - i,
        {
            match Field::at(i) {
                Some(f) => {
                    words.push(self.field_word(f));
                },
                None => {},
            }
            i += 1;
        }
        words
    }

    /// The tagged form: the seven entries in the fixed order.
    pub fn to_tagged(&self) -> (entries: Vec<TaggedWord>)
        ensures
            entries@ == self.spec_tagged(),
    {
        let mut entries: Vec<TaggedWord> = Vec::new();
        let mut i: usize = 0;
        while i < FIELD_COUNT
            invariant
                i <= FIELD_COUNT,
                entries@ == self.spec_tagged().take(i as int),
            decreases FIELD_COUNT - i,
        {
            match Field::at(i) {
                Some(f) => {
                    entries.push((f, self.field_word(f)));
                },
                None => {},
            }
            i += 1;
        }
        entries
    }

    /// Reads the ordered form. It must hold exactly seven words.
    pub fn from_sequence(words: &[u32]) -> (r: Result<Detection, FieldError>)
        ensures
            words@.len() == FIELD_COUNT ==> r == Ok::<Detection, FieldError>(
                Detection::spec_from_words(words@),
            ),
            words@.len() != FIELD_COUNT ==> r == Err::<Detection, FieldError>(
                FieldError::InvalidLength(words@.len() as usize),
            ),
    {
        if words.len() != FIELD_COUNT {
            return Err(FieldError::InvalidLength(words.len()));
        }
        Ok(
            Detection {
                x: words[0],
                y: words[1],
                size: words[2],
                angle: words[3],
                response: words[4],
                octave: #[verifier::truncate] (words[5] as i32),
                class_id: #[verifier::truncate] (words[6] as i32),
            },
        )
    }

    /// Reads the tagged form. The entries may come in any order; the first
    /// field named twice is an error, and otherwise the first field, in the
    /// fixed order, that was never named.
    pub fn from_tagged(entries: &[TaggedWord]) -> (r: Result<Detection, FieldError>)
        ensures
            tagged_reading(entries@, r),
    {
        let mut slots: Vec<Option<u32>> = Vec::new();
        let mut k: usize = 0;
        while k < FIELD_COUNT
            invariant
                k <= FIELD_COUNT,
                slots@.len() == k,
                forall|j: int| 0 <= j < k ==> slots@[j] is None,
            decreases FIELD_COUNT - k,
        {
            slots.push(None);
            k += 1;
        }
        let mut i: usize = 0;
        while i < entries.len()
            invariant
                i <= entries@.len(),
                slots@.len() == FIELD_COUNT,
                forall|j: int| 0 <= j < i ==> !repeats_at(entries@, j),
                forall|f: Field| slots@[f.spec_index()] is Some <==> names_field(entries@, f, i as int),
                forall|j: int|
                    0 <= j < i ==> slots@[(#[trigger] entries@[j]).0.spec_index()] == Some(
                        entries@[j].1,
                    ),
            decreases entries@.len() - i,
        {
            let (f, w) = entries[i];
            let at: usize = f.index();
            if slots[at].is_some() {
                proof {
                    assert(repeats_at(entries@, i as int));
                    assert(first_repeat(entries@, i as int));
                }
                return Err(FieldError::DuplicateField(f));
            }
            slots[at] = Some(w);
            proof {
                assert forall|g: Field| slots@[g.spec_index()] is Some <==> names_field(
                    entries@,
                    g,
                    i + 1,
                ) by {
                    if g == f {
                        assert(entries@[i as int].0 == g);
                    } else {
                        if names_field(entries@, g, i + 1) {
                            let j = choose|j: int|
                                0 <= j < i + 1 && j < entries@.len() && (#[trigger] entries@[j]).0
                                    == g;
                            assert(j < i);
                            assert(names_field(entries@, g, i as int));
                        }
                        if names_field(entries@, g, i as int) {
                            let j = choose|j: int|
                                0 <= j < i && j < entries@.len() && (#[trigger] entries@[j]).0 == g;
                            assert(names_field(entries@, g, i + 1));
                        }
                    }
                }
                assert forall|j: int| 0 <= j < i + 1 implies slots@[(
                #[trigger] entries@[j]).0.spec_index()] == Some(entries@[j].1) by {
                    if j < i {
                        if entries@[j].0 == f {
                            assert(names_field(entries@, f, i as int));
                        }
                    }
                }
                assert(!repeats_at(entries@, i as int));
            }
            i += 1;
        }
        let mut m: usize = 0;
        while m < FIELD_COUNT
            invariant
                m <= FIELD_COUNT,
                slots@.len() == FIELD_COUNT,
                no_repeat(entries@),
                forall|f: Field|
                    slots@[f.spec_index()] is Some <==> names_field(
                        entries@,
                        f,
                        entries@.len() as int,
                    ),
                forall|j: int|
                    0 <= j < entries@.len() ==> slots@[(#[trigger] entries@[j]).0.spec_index()]
                        == Some(entries@[j].1),
                forall|g: Field| g.spec_index() < m ==> slots@[g.spec_index()] is Some,
            decreases FIELD_COUNT - m,
        {
            if slots[m].is_none() {
                match Field::at(m) {
                    Some(f) => {
                        return Err(FieldError::MissingField(f));
                    },
                    None => {},
                }
            }
            m += 1;
        }
        let d = Detection {
            x: slot_word(&slots, Field::X),
            y: slot_word(&slots, Field::Y),
            size: slot_word(&slots, Field::Size),
            angle: slot_word(&slots, Field::Angle),
            response: slot_word(&slots, Field::Response),
            octave: #[verifier::truncate] (slot_word(&slots, Field::Octave) as i32),
            class_id: #[verifier::truncate] (slot_word(&slots, Field::ClassId) as i32),
        };
        proof {
            lemma_signed_word(slots@[5]->Some_0);
            lemma_signed_word(slots@[6]->Some_0);
            assert forall|j: int| 0 <= j < entries@.len() implies d.word(
                (#[trigger] entries@[j]).0,
            ) == entries@[j].1 by {
                let g = entries@[j].0;
                assert(slots@[g.spec_index()] == Some(entries@[j].1));
            }
        }
        Ok(d)
    }
}

/// The word that was collected for `f`.
fn slot_word(slots: &Vec<Option<u32>>, f: Field) -> (w: u32)
    requires
        slots@.len() == FIELD_COUNT,
        slots@[f.spec_index()] is Some,
    ensures
        Some(w) == slots@[f.spec_index()],
{
    match slots[f.index()] {
        Some(w) => w,
        None => 0,
    }
}

/// The words of a detection, read in order, give the detection back.
pub proof fn lemma_sequence_round_trip(d: Detection)
    ensures
        d.spec_words().len() == FIELD_COUNT,
        Detection::spec_from_words(d.spec_words()) == d,
{
    lemma_word_signed(d.octave);
    lemma_word_signed(d.class_id);
}

/// A detection is determined by its seven words.
pub proof fn lemma_words_determine(a: Detection, b: Detection)
    requires
        forall|f: Field| a.word(f) == b.word(f),
    ensures
        a == b,
{
    assert(a.word(Field::X) == b.word(Field::X));
    assert(a.word(Field::Y) == b.word(Field::Y));
    assert(a.word(Field::Size) == b.word(Field::Size));
    assert(a.word(Field::Angle) == b.word(Field::Angle));
    assert(a.word(Field::Response) == b.word(Field::Response));
    assert(a.word(Field::Octave) == b.word(Field::Octave));
    assert(a.word(Field::ClassId) == b.word(Field::ClassId));
    lemma_word_signed(a.octave);
    lemma_word_signed(b.octave);
    lemma_word_signed(a.class_id);
    lemma_word_signed(b.class_id);
}

/// Reading a tagged form has one outcome only: the same entries never give two
/// different detections or two different errors.
pub proof fn lemma_tagged_reading_unique(
    entries: Seq<TaggedWord>,
    r1: Result<Detection, FieldError>,
    r2: Result<Detection, FieldError>,
)
    requires
        tagged_reading(entries, r1),
        tagged_reading(entries, r2),
    ensures
        r1 == r2,
{
    match (r1, r2) {
        (Ok(a), Ok(b)) => {
            assert forall|f: Field| a.word(f) == b.word(f) by {
                assert(names_field(entries, f, entries.len() as int));
                let j = choose|j: int|
                    0 <= j < entries.len() && j < entries.len() && (#[trigger] entries[j]).0 == f;
                assert(a.word(entries[j].0) == entries[j].1);
                assert(b.word(entries[j].0) == entries[j].1);
            }
            lemma_words_determine(a, b);
        },
        (Err(FieldError::DuplicateField(f1)), Err(FieldError::DuplicateField(f2))) => {
            let i1 = choose|i: int| first_repeat(entries, i) && (#[trigger] entries[i]).0 == f1;
            let i2 = choose|i: int| first_repeat(entries, i) && (#[trigger] entries[i]).0 == f2;
            assert(i1 == i2);
        },
        (Err(FieldError::MissingField(f1)), Err(FieldError::MissingField(f2))) => {
            assert(f1.spec_index() == f2.spec_index());
        },
        (Ok(a), Err(FieldError::DuplicateField(f))) => {
            let i = choose|i: int| first_repeat(entries, i) && (#[trigger] entries[i]).0 == f;
            assert(!repeats_at(entries, i));
        },
        (Err(FieldError::DuplicateField(f)), Ok(b)) => {
            let i = choose|i: int| first_repeat(entries, i) && (#[trigger] entries[i]).0 == f;
            assert(!repeats_at(entries, i));
        },
        (Err(FieldError::DuplicateField(f)), Err(FieldError::MissingField(g))) => {
            let i = choose|i: int| first_repeat(entries, i) && (#[trigger] entries[i]).0 == f;
            assert(!repeats_at(entries, i));
        },
        (Err(FieldError::MissingField(g)), Err(FieldError::DuplicateField(f))) => {
            let i = choose|i: int| first_repeat(entries, i) && (#[trigger] entries[i]).0 == f;
            assert(!repeats_at(entries, i));
        },
        (Ok(a), Err(FieldError::MissingField(g))) => {
            assert(names_field(entries, g, entries.len() as int));
        },
        (Err(FieldError::MissingField(g)), Ok(b)) => {
            assert(names_field(entries, g, entries.len() as int));
        },
        _ => {},
    }
}

/// What reading the tagged form `entries` gives: the first field named twice,
/// else the first field never named, else the detection that the entries
/// spell out.
pub open spec fn tagged_result(entries: Seq<TaggedWord>) -> Result<Detection, FieldError> {
    if exists|i: int| first_repeat(entries, i) {
        Err(FieldError::DuplicateField(entries[choose|i: int| first_repeat(entries, i)].0))
    } else if exists|f: Field| first_missing(entries, f) {
        Err(FieldError::MissingField(choose|f: Field| first_missing(entries, f)))
    } else {
        Ok(choose|d: Detection| d.written_as(entries))
    }
}

/// An outcome of reading a tagged form is the outcome.
pub proof fn lemma_tagged_result(entries: Seq<TaggedWord>, r: Result<Detection, FieldError>)
    requires
        tagged_reading(entries, r),
    ensures
        r == tagged_result(entries),
{
    let want = tagged_result(entries);
    match r {
        Ok(d) => {
            assert forall|i: int| !first_repeat(entries, i) by {
                if first_repeat(entries, i) {
                    assert(repeats_at(entries, i));
                }
            }
            assert forall|f: Field| !first_missing(entries, f) by {
                assert(names_field(entries, f, entries.len() as int));
            }
            assert(d.written_as(entries));
        },
        Err(FieldError::DuplicateField(f)) => {
            let i = choose|i: int| first_repeat(entries, i) && (#[trigger] entries[i]).0 == f;
            assert(first_repeat(entries, i));
            let c = choose|i: int| first_repeat(entries, i);
            assert(first_repeat(entries, c));
            assert(first_repeat(entries, c) && entries[c].0 == entries[c].0);
        },
        Err(FieldError::MissingField(f)) => {
            assert forall|i: int| !first_repeat(entries, i) by {
                if first_repeat(entries, i) {
                    assert(repeats_at(entries, i));
                }
            }
            assert(first_missing(entries, f));
        },
        Err(FieldError::InvalidLength(_)) => {},
    }
    assert(tagged_reading(entries, want));
    lemma_tagged_reading_unique(entries, r, want);
}

/// The tagged form of a detection names every field once, with its word.
pub proof fn lemma_tagged_form(d: Detection)
    ensures
        d.written_as(d.spec_tagged()),
{
    let e = d.spec_tagged();
    assert forall|j: int| 0 <= j < e.len() implies !repeats_at(e, j) by {
        if repeats_at(e, j) {
            let k = choose|k: int| 0 <= k < j && k < e.len() && (#[trigger] e[k]).0 == e[j].0;
            assert(e[k].0 == Field::spec_at(k));
            assert(e[j].0 == Field::spec_at(j));
        }
    }
    assert forall|f: Field| names_field(e, f, e.len() as int) by {
        let k = f.spec_index();
        assert(e[k].0 == f);
    }
}

/// Writing a detection in the tagged form and reading it gives the detection
/// back, whatever outcome `r` the reading is said to have had.
pub proof fn lemma_tagged_round_trip(d: Detection, r: Result<Detection, FieldError>)
    requires
        tagged_reading(d.spec_tagged(), r),
    ensures
        r == Ok::<Detection, FieldError>(d),
{
    lemma_tagged_form(d);
    lemma_tagged_reading_unique(d.spec_tagged(), r, Ok(d));
}

/// A word read as a signed number and written back is the same word.
pub proof fn lemma_signed_word(w: u32)
    ensures
        (w as i32) as u32 == w,
{
    assert((w as i32) as u32 == w) by (bit_vector);
}

/// A signed number written as a word and read back is the same number.
pub proof fn lemma_word_signed(v: i32)
    ensures
        (v as u32) as i32 == v,
{
    assert((v as u32) as i32 == v) by (bit_vector);
}

} // verus!
