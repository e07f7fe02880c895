use feature_graph::detection::{Detection, Field, FieldError, FIELD_COUNT};

fn sample_detection() -> Detection {
    Detection::new(
        12.5f32.to_bits(),
        (-3.25f32).to_bits(),
        31.0f32.to_bits(),
        271.125f32.to_bits(),
        0.0009765625f32.to_bits(),
        3,
        -1,
    )
}

#[test]
fn fields_have_a_fixed_order() {
    let all = [
        Field::X,
        Field::Y,
        Field::Size,
        Field::Angle,
        Field::Response,
        Field::Octave,
        Field::ClassId,
    ];
    assert_eq!(FIELD_COUNT, 7);
    for (i, f) in all.iter().enumerate() {
        assert_eq!(f.index(), i);
        assert_eq!(Field::at(i), Some(*f));
    }
    assert_eq!(Field::at(7), None);
    assert_eq!(Field::at(usize::MAX), None);
}

#[test]
fn the_first_five_fields_are_real() {
    assert!(Field::X.is_real());
    assert!(Field::Y.is_real());
    assert!(Field::Size.is_real());
    assert!(Field::Angle.is_real());
    assert!(Field::Response.is_real());
    assert!(!Field::Octave.is_real());
    assert!(!Field::ClassId.is_real());
}

#[test]
fn fields_have_their_names() {
    assert_eq!(Field::X.name(), "x");
    assert_eq!(Field::Y.name(), "y");
    assert_eq!(Field::Size.name(), "size");
    assert_eq!(Field::Angle.name(), "angle");
    assert_eq!(Field::Response.name(), "response");
    assert_eq!(Field::Octave.name(), "octave");
    assert_eq!(Field::ClassId.name(), "class_id");
}

#[test]
fn to_sequence_lists_the_seven_words() {
    let d = sample_detection();
    assert_eq!(
        d.to_sequence(),
        vec![
            12.5f32.to_bits(),
            (-3.25f32).to_bits(),
            31.0f32.to_bits(),
            271.125f32.to_bits(),
            0.0009765625f32.to_bits(),
            3,
            0xFFFF_FFFF,
        ]
    );
}

#[test]
fn to_tagged_lists_the_seven_entries() {
    let d = Detection::new(1, 2, 3, 4, 5, 6, 7);
    assert_eq!(
        d.to_tagged(),
        vec![
            (Field::X, 1),
            (Field::Y, 2),
            (Field::Size, 3),
            (Field::Angle, 4),
            (Field::Response, 5),
            (Field::Octave, 6),
            (Field::ClassId, 7),
        ]
    );
}

#[test]
fn field_word_picks_the_field() {
    let d = Detection::new(1, 2, 3, 4, 5, -6, 7);
    assert_eq!(d.field_word(Field::X), 1);
    assert_eq!(d.field_word(Field::Response), 5);
    assert_eq!(d.field_word(Field::Octave), (-6i32) as u32);
    assert_eq!(d.field_word(Field::ClassId), 7);
}

#[test]
fn from_sequence_reads_seven_words() {
    let d = Detection::from_sequence(&[1, 2, 3, 4, 5, 0xFFFF_FFFE, 7]).unwrap();
    assert_eq!(d, Detection::new(1, 2, 3, 4, 5, -2, 7));
}

#[test]
fn from_sequence_refuses_other_lengths() {
    assert_eq!(Detection::from_sequence(&[]), Err(FieldError::InvalidLength(0)));
    assert_eq!(Detection::from_sequence(&[1, 2, 3]), Err(FieldError::InvalidLength(3)));
    assert_eq!(
        Detection::from_sequence(&[1, 2, 3, 4, 5, 6]),
        Err(FieldError::InvalidLength(6))
    );
    assert_eq!(
        Detection::from_sequence(&[1, 2, 3, 4, 5, 6, 7, 8]),
        Err(FieldError::InvalidLength(8))
    );
}

#[test]
fn the_ordered_form_round_trips() {
    let d = sample_detection();
    assert_eq!(Detection::from_sequence(&d.to_sequence()), Ok(d));
    let nan = Detection::new(f32::NAN.to_bits(), 0x7FC0_0001, 0x8000_0000, 0, u32::MAX, i32::MIN, i32::MAX);
    assert_eq!(Detection::from_sequence(&nan.to_sequence()), Ok(nan));
}

#[test]
fn the_tagged_form_round_trips() {
    let d = sample_detection();
    assert_eq!(Detection::from_tagged(&d.to_tagged()), Ok(d));
    let extreme = Detection::new(u32::MAX, 0, 1, 0x8000_0000, 0x7F80_0000, i32::MIN, i32::MAX);
    assert_eq!(Detection::from_tagged(&extreme.to_tagged()), Ok(extreme));
}

#[test]
fn both_forms_read_the_same_detection() {
    let d = sample_detection();
    assert_eq!(
        Detection::from_sequence(&d.to_sequence()),
        Detection::from_tagged(&d.to_tagged())
    );
}

#[test]
fn from_tagged_takes_any_order() {
    let entries = [
        (Field::ClassId, 70),
        (Field::Angle, 40),
        (Field::X, 10),
        (Field::Octave, 0xFFFF_FFFF),
        (Field::Y, 20),
        (Field::Response, 50),
        (Field::Size, 30),
    ];
    assert_eq!(
        Detection::from_tagged(&entries),
        Ok(Detection::new(10, 20, 30, 40, 50, -1, 70))
    );
}

#[test]
fn from_tagged_reports_the_first_field_named_twice() {
    let entries = [
        (Field::X, 1),
        (Field::Y, 2),
        (Field::Size, 3),
        (Field::Y, 9),
        (Field::X, 9),
    ];
    assert_eq!(
        Detection::from_tagged(&entries),
        Err(FieldError::DuplicateField(Field::Y))
    );
}

#[test]
fn from_tagged_reports_a_duplicate_even_with_the_same_word() {
    let mut entries = Detection::new(1, 2, 3, 4, 5, 6, 7).to_tagged();
    entries.push((Field::ClassId, 7));
    assert_eq!(
        Detection::from_tagged(&entries),
        Err(FieldError::DuplicateField(Field::ClassId))
    );
}

#[test]
fn from_tagged_reports_the_first_missing_field() {
    let entries = [(Field::X, 1), (Field::Size, 3), (Field::ClassId, 7)];
    assert_eq!(
        Detection::from_tagged(&entries),
        Err(FieldError::MissingField(Field::Y))
    );
    assert_eq!(
        Detection::from_tagged(&[]),
        Err(FieldError::MissingField(Field::X))
    );
    let mut six = Detection::new(1, 2, 3, 4, 5, 6, 7).to_tagged();
    six.pop();
    assert_eq!(
        Detection::from_tagged(&six),
        Err(FieldError::MissingField(Field::ClassId))
    );
}

#[test]
fn from_tagged_reports_a_duplicate_before_a_missing_field() {
    let entries = [(Field::Octave, 1), (Field::Octave, 1)];
    assert_eq!(
        Detection::from_tagged(&entries),
        Err(FieldError::DuplicateField(Field::Octave))
    );
}
