use feature_graph::checkpoints::{ExtractionStep, KeyframeEntry};
use feature_graph::codec::{load, save, DecodeError, DetectionForm};
use feature_graph::detection::{Detection, Field, FieldError};
use feature_graph::matrix::DescriptorMatrix;

fn long(x: u64) -> Vec<u8> {
    x.to_le_bytes().to_vec()
}

fn word(x: u32) -> Vec<u8> {
    x.to_le_bytes().to_vec()
}

/// One frame, number 7, with one detection and a matrix of one row.
fn small_snapshot() -> ExtractionStep {
    let matrix = DescriptorMatrix::from_row_slice(1, 2, &[0xAB, 0xCD]).unwrap();
    let entry = KeyframeEntry::new(7, vec![Detection::new(1, 2, 3, 4, 5, -1, 6)], 0, 1);
    ExtractionStep::new(matrix, vec![entry])
}

/// The artifact of `small_snapshot` up to its detection.
fn small_head() -> Vec<u8> {
    let mut bytes = Vec::new();
    bytes.extend(long(1));
    bytes.extend(long(2));
    bytes.extend([0xAB, 0xCD]);
    bytes.extend(long(1));
    bytes.extend(long(7));
    bytes.extend(long(1));
    bytes
}

/// The row range of `small_snapshot`, which ends its artifact.
fn small_tail() -> Vec<u8> {
    let mut bytes = Vec::new();
    bytes.extend(word(0));
    bytes.extend(word(1));
    bytes
}

/// An artifact like that of `small_snapshot` with the given bytes for its
/// detection.
fn around(detection: &[u8]) -> Vec<u8> {
    let mut bytes = small_head();
    bytes.extend_from_slice(detection);
    bytes.extend(small_tail());
    bytes
}

fn tagged(entries: &[(u8, u32)]) -> Vec<u8> {
    let mut bytes = vec![1u8, entries.len() as u8];
    for &(tag, w) in entries {
        bytes.push(tag);
        bytes.extend(word(w));
    }
    bytes
}

/// A snapshot with several frames, one of them without detections.
fn larger_snapshot() -> ExtractionStep {
    let cells: Vec<u8> = (0..15).map(|i| (i * 17 % 251) as u8).collect();
    let matrix = DescriptorMatrix::from_row_slice(5, 3, &cells).unwrap();
    let d = |i: u32| {
        Detection::new(
            (i as f32 * 1.5).to_bits(),
            (-(i as f32) / 3.0).to_bits(),
            f32::NAN.to_bits() ^ i,
            f32::INFINITY.to_bits(),
            (-0.0f32).to_bits(),
            i as i32 - 2,
            -1,
        )
    };
    let entries = vec![
        KeyframeEntry::new(0, vec![d(0), d(1)], 0, 2),
        KeyframeEntry::new(3, vec![], 2, 2),
        KeyframeEntry::new(u64::MAX, vec![d(2), d(3), d(4)], 2, 5),
    ];
    ExtractionStep::new(matrix, entries)
}

fn assert_same_snapshot(a: &ExtractionStep, b: &ExtractionStep) {
    assert_eq!(a.descriptors().nrows(), b.descriptors().nrows());
    assert_eq!(a.descriptors().ncols(), b.descriptors().ncols());
    for r in 0..a.descriptors().nrows() {
        assert_eq!(a.descriptors().row(r), b.descriptors().row(r));
    }
    assert_eq!(a.keyframe_entries().len(), b.keyframe_entries().len());
    for (x, y) in a.keyframe_entries().iter().zip(b.keyframe_entries()) {
        assert_eq!(x.frame_id(), y.frame_id());
        assert_eq!(x.keypoints(), y.keypoints());
        assert_eq!(x.descriptors_start(), y.descriptors_start());
        assert_eq!(x.descriptors_end(), y.descriptors_end());
    }
}

#[test]
fn save_writes_the_ordered_form_byte_for_byte() {
    let mut detection = vec![0u8];
    for w in [1u32, 2, 3, 4, 5, 0xFFFF_FFFF, 6] {
        detection.extend(word(w));
    }
    assert_eq!(save(&small_snapshot(), DetectionForm::Ordered), around(&detection));
}

#[test]
fn save_writes_the_tagged_form_byte_for_byte() {
    let detection = tagged(&[(0, 1), (1, 2), (2, 3), (3, 4), (4, 5), (5, 0xFFFF_FFFF), (6, 6)]);
    assert_eq!(save(&small_snapshot(), DetectionForm::Tagged), around(&detection));
}

#[test]
fn save_writes_numbers_lowest_byte_first() {
    let matrix = DescriptorMatrix::from_row_slice(0, 0x0102, &[]).unwrap();
    let step = ExtractionStep::new(matrix, vec![KeyframeEntry::new(0x0A0B_0C0D, vec![], -2, 0x0102_0304)]);
    let bytes = save(&step, DetectionForm::Ordered);
    let mut want = vec![0, 0, 0, 0, 0, 0, 0, 0, 0x02, 0x01, 0, 0, 0, 0, 0, 0];
    want.extend([1, 0, 0, 0, 0, 0, 0, 0]);
    want.extend([0x0D, 0x0C, 0x0B, 0x0A, 0, 0, 0, 0]);
    want.extend([0, 0, 0, 0, 0, 0, 0, 0]);
    want.extend([0xFE, 0xFF, 0xFF, 0xFF]);
    want.extend([0x04, 0x03, 0x02, 0x01]);
    assert_eq!(bytes, want);
}

#[test]
fn the_ordered_artifact_round_trips() {
    let step = larger_snapshot();
    let back = load(&save(&step, DetectionForm::Ordered)).unwrap();
    assert_same_snapshot(&step, &back);
}

#[test]
fn the_tagged_artifact_round_trips() {
    let step = larger_snapshot();
    let back = load(&save(&step, DetectionForm::Tagged)).unwrap();
    assert_same_snapshot(&step, &back);
}

#[test]
fn an_empty_snapshot_round_trips() {
    let step = ExtractionStep::new(DescriptorMatrix::from_row_slice(0, 32, &[]).unwrap(), vec![]);
    let bytes = save(&step, DetectionForm::Ordered);
    assert_eq!(bytes.len(), 24);
    let back = load(&bytes).unwrap();
    assert_same_snapshot(&step, &back);
    assert_eq!(back.descriptors().ncols(), 32);
}

#[test]
fn real_numbers_come_back_bit_for_bit() {
    let patterns = [
        0.1f32.to_bits(),
        f32::MIN_POSITIVE.to_bits(),
        f32::MAX.to_bits(),
        0x7FC0_1234,
        0xFFFF_FFFF,
    ];
    let d = Detection::new(patterns[0], patterns[1], patterns[2], patterns[3], patterns[4], i32::MIN, i32::MAX);
    let matrix = DescriptorMatrix::from_row_slice(1, 1, &[9]).unwrap();
    let step = ExtractionStep::new(matrix, vec![KeyframeEntry::new(1, vec![d], 0, 1)]);
    for form in [DetectionForm::Ordered, DetectionForm::Tagged] {
        let back = load(&save(&step, form)).unwrap();
        assert_eq!(back.keyframe_entries()[0].keypoints(), &[d]);
        assert_eq!(f32::from_bits(back.keyframe_entries()[0].keypoints()[0].x), 0.1f32);
    }
}

#[test]
fn both_forms_load_the_same_snapshot() {
    let step = larger_snapshot();
    let a = load(&save(&step, DetectionForm::Ordered)).unwrap();
    let b = load(&save(&step, DetectionForm::Tagged)).unwrap();
    assert_same_snapshot(&a, &b);
}

#[test]
fn load_takes_tagged_entries_in_any_order() {
    let detection = tagged(&[(6, 6), (0, 1), (5, 0xFFFF_FFFF), (2, 3), (1, 2), (4, 5), (3, 4)]);
    let back = load(&around(&detection)).unwrap();
    assert_same_snapshot(&small_snapshot(), &back);
}

#[test]
fn load_takes_forms_mixed_within_one_artifact() {
    let mut bytes = Vec::new();
    bytes.extend(long(2));
    bytes.extend(long(1));
    bytes.extend([5, 6]);
    bytes.extend(long(1));
    bytes.extend(long(4));
    bytes.extend(long(2));
    bytes.push(0);
    for w in [1u32, 2, 3, 4, 5, 6, 7] {
        bytes.extend(word(w));
    }
    bytes.extend(tagged(&[(6, 17), (5, 16), (4, 15), (3, 14), (2, 13), (1, 12), (0, 11)]));
    bytes.extend(word(0));
    bytes.extend(word(2));
    let back = load(&bytes).unwrap();
    assert_eq!(
        back.keyframe_entries()[0].keypoints(),
        &[Detection::new(1, 2, 3, 4, 5, 6, 7), Detection::new(11, 12, 13, 14, 15, 16, 17)]
    );
    assert_eq!(back.descriptors().row(1), Some(vec![6]));
}

#[test]
fn load_does_not_check_the_tiling() {
    let matrix = DescriptorMatrix::from_row_slice(1, 1, &[9]).unwrap();
    let step = ExtractionStep::new(matrix, vec![KeyframeEntry::new(1, vec![], 5, -3)]);
    let back = load(&save(&step, DetectionForm::Ordered)).unwrap();
    assert_eq!(back.keyframe_entries()[0].descriptors_start(), 5);
    assert_eq!(back.keyframe_entries()[0].descriptors_end(), -3);
    assert!(back.validate().is_err());
}

#[test]
fn every_cut_artifact_is_truncated() {
    for form in [DetectionForm::Ordered, DetectionForm::Tagged] {
        let bytes = save(&larger_snapshot(), form);
        for n in 0..bytes.len() {
            assert_eq!(load(&bytes[..n]).unwrap_err(), DecodeError::Truncated);
        }
    }
}

#[test]
fn bytes_after_the_last_record_are_refused() {
    let mut bytes = save(&small_snapshot(), DetectionForm::Ordered);
    bytes.push(0);
    assert_eq!(load(&bytes).unwrap_err(), DecodeError::TrailingBytes);
}

#[test]
fn an_unknown_form_is_refused() {
    let mut detection = vec![2u8];
    detection.extend([0u8; 28]);
    assert_eq!(load(&around(&detection)).unwrap_err(), DecodeError::UnknownForm(2));
    assert_eq!(load(&around(&[0xFF])).unwrap_err(), DecodeError::UnknownForm(0xFF));
}

#[test]
fn an_unknown_field_is_refused() {
    let detection = tagged(&[(0, 1), (7, 2)]);
    assert_eq!(load(&around(&detection)).unwrap_err(), DecodeError::UnknownField(7));
    let detection = tagged(&[(200, 1), (0, 2), (0, 2)]);
    assert_eq!(load(&around(&detection)).unwrap_err(), DecodeError::UnknownField(200));
}

#[test]
fn a_field_named_twice_is_refused() {
    let detection = tagged(&[(0, 1), (1, 2), (2, 3), (3, 4), (4, 5), (5, 6), (6, 7), (3, 4)]);
    assert_eq!(
        load(&around(&detection)).unwrap_err(),
        DecodeError::Field(FieldError::DuplicateField(Field::Angle))
    );
}

#[test]
fn a_missing_field_is_refused() {
    let detection = tagged(&[(0, 1), (1, 2), (2, 3), (3, 4), (5, 6), (6, 7)]);
    assert_eq!(
        load(&around(&detection)).unwrap_err(),
        DecodeError::Field(FieldError::MissingField(Field::Response))
    );
    assert_eq!(
        load(&around(&tagged(&[]))).unwrap_err(),
        DecodeError::Field(FieldError::MissingField(Field::X))
    );
}

#[test]
fn a_matrix_larger_than_the_bytes_is_truncated() {
    let mut bytes = Vec::new();
    bytes.extend(long(u64::MAX));
    bytes.extend(long(u64::MAX));
    bytes.extend(long(0));
    assert_eq!(load(&bytes).unwrap_err(), DecodeError::Truncated);
    let mut bytes = Vec::new();
    bytes.extend(long(3));
    bytes.extend(long(3));
    bytes.extend([0u8; 8]);
    assert_eq!(load(&bytes).unwrap_err(), DecodeError::Truncated);
}

#[test]
fn a_count_larger_than_the_bytes_is_truncated() {
    let mut bytes = Vec::new();
    bytes.extend(long(0));
    bytes.extend(long(0));
    bytes.extend(long(u64::MAX));
    assert_eq!(load(&bytes).unwrap_err(), DecodeError::Truncated);
}

#[test]
fn a_loaded_snapshot_can_be_matched() {
    let matrix = DescriptorMatrix::from_row_slice(2, 1, &[0b0000_0000, 0b0000_0001]).unwrap();
    let d = Detection::new(0, 0, 0, 0, 0, 0, -1);
    let step = ExtractionStep::new(
        matrix,
        vec![KeyframeEntry::new(0, vec![d], 0, 1), KeyframeEntry::new(1, vec![d], 1, 2)],
    );
    let back = load(&save(&step, DetectionForm::Tagged)).unwrap();
    let graph = feature_graph::correspondence::process_descriptors(&back).unwrap();
    assert_eq!(graph.keyframe_count(), 2);
    assert_eq!(graph.keypoint_count(), 1);
}
