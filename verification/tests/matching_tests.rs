use feature_graph::checkpoints::{ExtractionStep, KeyframeEntry, SnapshotError};
use feature_graph::correspondence::{match_frames, process_descriptors, MAX_MATCH_DISTANCE};
use feature_graph::detection::Detection;
use feature_graph::distance::{count_ones, hamming_within};
use feature_graph::graph::{Graph, Position};
use feature_graph::matrix::DescriptorMatrix;
use feature_graph::search::SearchIndex;

/// A snapshot whose frames have the given descriptor rows, two bytes each.
/// Frame `i` gets the sequence number `10 * i + 1`.
fn snapshot_of_frames(frames: &[&[[u8; 2]]]) -> ExtractionStep {
    let mut cells: Vec<u8> = Vec::new();
    let mut entries = Vec::new();
    let mut start: i32 = 0;
    for (i, rows) in frames.iter().enumerate() {
        let mut keypoints = Vec::new();
        for row in rows.iter() {
            cells.extend_from_slice(row);
            keypoints.push(Detection::new(1.0f32.to_bits(), 2.0f32.to_bits(), 0, 0, 0, 0, -1));
        }
        let end = start + rows.len() as i32;
        entries.push(KeyframeEntry::new(10 * i as u64 + 1, keypoints, start, end));
        start = end;
    }
    let matrix = DescriptorMatrix::from_row_slice(start as usize, 2, &cells).unwrap();
    ExtractionStep::new(matrix, entries)
}

/// The frames of a graph as `(sequence number, landmarks)` and its landmarks
/// as `(descriptor, occurrences)`.
fn shape_of(g: &Graph) -> (Vec<(u64, Vec<usize>)>, Vec<(Vec<u8>, Vec<usize>)>) {
    let frames = (0..g.keyframe_count())
        .map(|f| {
            let frame = g.keyframe(f).unwrap();
            (frame.index(), frame.keypoints().to_vec())
        })
        .collect();
    let landmarks = (0..g.keypoint_count())
        .map(|k| {
            let keypoint = g.keypoint(k).unwrap();
            (keypoint.descriptor().to_vec(), keypoint.occurs_in().to_vec())
        })
        .collect();
    (frames, landmarks)
}

#[test]
fn count_ones_counts_bits() {
    assert_eq!(count_ones(0), 0);
    assert_eq!(count_ones(1), 1);
    assert_eq!(count_ones(0b1010_0000), 2);
    assert_eq!(count_ones(0x7F), 7);
    assert_eq!(count_ones(0xFF), 8);
    for b in 0..=255u8 {
        assert_eq!(count_ones(b) as u32, b.count_ones());
    }
}

#[test]
fn hamming_within_gives_the_distance_up_to_the_limit() {
    assert_eq!(hamming_within(&[0xFF, 0x03], &[0x00, 0x00], 10), Some(10));
    assert_eq!(hamming_within(&[0xFF, 0x03], &[0x00, 0x00], 11), Some(10));
    assert_eq!(hamming_within(&[0xFF, 0x03], &[0x00, 0x00], 9), None);
    assert_eq!(hamming_within(&[0xF0, 0x0F], &[0x0F, 0x0F], 8), Some(8));
    assert_eq!(hamming_within(&[0xF0, 0x0F], &[0x0F, 0x0F], 7), None);
    assert_eq!(hamming_within(&[5, 6, 7], &[5, 6, 7], 0), Some(0));
    assert_eq!(hamming_within(&[5, 6, 7], &[5, 6, 6], 0), None);
    assert_eq!(hamming_within(&[], &[], 0), Some(0));
    assert_eq!(hamming_within(&[0xFF; 64], &[0x00; 64], u32::MAX), Some(512));
}

#[test]
fn hamming_within_is_symmetric() {
    let a = [0x12, 0x34, 0x56];
    let b = [0xFE, 0xDC, 0xBA];
    assert_eq!(hamming_within(&a, &b, 100), hamming_within(&b, &a, 100));
}

#[test]
fn best_match_takes_the_nearest_unmasked_row() {
    let m = DescriptorMatrix::from_row_slice(
        5,
        1,
        &[0b0000_0000, 0b0000_0001, 0b0000_0111, 0b0000_0011, 0b1111_1111],
    )
    .unwrap();
    let index = SearchIndex::build(&m);
    assert_eq!(index.len(), 5);
    assert_eq!(index.width(), 1);
    // Row 1 is nearest to row 0, but masked together with it.
    assert_eq!(index.best_match(0, 0, 2, 10), Some(3));
    assert_eq!(index.best_match(0, 0, 1, 10), Some(1));
    assert_eq!(index.best_match(4, 4, 5, 10), Some(2));
    assert_eq!(index.best_match(4, 4, 5, 4), None);
    assert_eq!(index.best_match(4, 4, 5, 5), Some(2));
}

#[test]
fn best_match_prefers_the_lowest_row_among_equals() {
    let m = DescriptorMatrix::from_row_slice(4, 1, &[0b0001, 0b0010, 0b0000, 0b0100]).unwrap();
    let index = SearchIndex::build(&m);
    // Rows 0, 1 and 3 are all at distance 1 from row 2.
    assert_eq!(index.best_match(2, 2, 3, 10), Some(0));
    assert_eq!(index.best_match(2, 0, 1, 10), Some(2));
    // Row 2 itself is unmasked here and at distance 0.
    assert_eq!(index.best_match(2, 0, 0, 10), Some(2));
}

#[test]
fn best_match_never_answers_from_the_masked_range() {
    let m = DescriptorMatrix::from_row_slice(3, 1, &[7, 7, 7]).unwrap();
    let index = SearchIndex::build(&m);
    assert_eq!(index.best_match(1, 0, 2, 0), Some(2));
    assert_eq!(index.best_match(1, 1, 3, 0), Some(0));
    assert_eq!(index.best_match(1, 0, 3, 0), None);
    assert_eq!(index.best_match(1, 0, usize::MAX, u32::MAX), None);
}

#[test]
fn the_limit_is_ten_bits() {
    assert_eq!(MAX_MATCH_DISTANCE, 10);
}

#[test]
fn descriptors_at_the_limit_merge() {
    // 0xFF 0x03 against 0x00 0x00: ten bits differ.
    let step = snapshot_of_frames(&[&[[0xFF, 0x03]], &[[0x00, 0x00]]]);
    let g = process_descriptors(&step).unwrap();
    let (frames, landmarks) = shape_of(&g);
    assert_eq!(frames, vec![(1, vec![0]), (11, vec![0])]);
    assert_eq!(landmarks, vec![(vec![0xFF, 0x03], vec![0, 1])]);
}

#[test]
fn descriptors_just_past_the_limit_stay_apart() {
    // 0xFF 0x07 against 0x00 0x00: eleven bits differ.
    let step = snapshot_of_frames(&[&[[0xFF, 0x07]], &[[0x00, 0x00]]]);
    let g = process_descriptors(&step).unwrap();
    let (frames, landmarks) = shape_of(&g);
    assert_eq!(frames, vec![(1, vec![0]), (11, vec![1])]);
    assert_eq!(
        landmarks,
        vec![(vec![0xFF, 0x07], vec![0]), (vec![0x00, 0x00], vec![1])]
    );
}

#[test]
fn the_limit_can_be_chosen() {
    let step = snapshot_of_frames(&[&[[0x0F, 0x00]], &[[0x00, 0x00]]]);
    assert_eq!(match_frames(&step, 4).unwrap().keypoint_count(), 1);
    assert_eq!(match_frames(&step, 3).unwrap().keypoint_count(), 2);
    assert_eq!(match_frames(&step, 0).unwrap().keypoint_count(), 2);
    let same = snapshot_of_frames(&[&[[0x0F, 0x00]], &[[0x0F, 0x00]]]);
    assert_eq!(match_frames(&same, 0).unwrap().keypoint_count(), 1);
}

#[test]
fn an_empty_snapshot_gives_an_empty_graph() {
    let step = snapshot_of_frames(&[]);
    let g = process_descriptors(&step).unwrap();
    assert_eq!(g.keyframe_count(), 0);
    assert_eq!(g.keypoint_count(), 0);
}

#[test]
fn a_frame_without_detections_gives_an_empty_node() {
    let step = snapshot_of_frames(&[&[], &[[1, 2]], &[]]);
    let g = process_descriptors(&step).unwrap();
    let (frames, landmarks) = shape_of(&g);
    assert_eq!(frames, vec![(1, vec![]), (11, vec![0]), (21, vec![])]);
    assert_eq!(landmarks, vec![(vec![1, 2], vec![1])]);
}

#[test]
fn a_single_frame_gives_one_new_landmark_per_row() {
    let step = snapshot_of_frames(&[&[[1, 1], [1, 1], [0xFF, 0], [1, 0]]]);
    let g = process_descriptors(&step).unwrap();
    let (frames, landmarks) = shape_of(&g);
    assert_eq!(frames, vec![(1, vec![0, 1, 2, 3])]);
    assert_eq!(
        landmarks,
        vec![
            (vec![1, 1], vec![0]),
            (vec![1, 1], vec![0]),
            (vec![0xFF, 0], vec![0]),
            (vec![1, 0], vec![0]),
        ]
    );
    for k in 0..g.keypoint_count() {
        assert_eq!(g.occurrences(k), vec![0]);
        assert_eq!(g.keypoint(k).unwrap().position(), Position::origin());
    }
}

#[test]
fn rows_of_one_frame_never_match_each_other() {
    // The two rows of the first frame are equal; the second frame is far off.
    let step = snapshot_of_frames(&[&[[3, 3], [3, 3]], &[[0xFF, 0xFF]]]);
    let g = process_descriptors(&step).unwrap();
    let (frames, landmarks) = shape_of(&g);
    assert_eq!(frames, vec![(1, vec![0, 1]), (11, vec![2])]);
    assert_eq!(landmarks.len(), 3);
}

#[test]
fn a_later_row_joins_the_landmark_of_its_match() {
    // Frame 0 has rows A and B, far apart; frame 1 has a row near B; frame 2
    // has a row near A.
    let step = snapshot_of_frames(&[
        &[[0x00, 0x00], [0xFF, 0xFF]],
        &[[0xFF, 0xFE]],
        &[[0x01, 0x00]],
    ]);
    let g = process_descriptors(&step).unwrap();
    let (frames, landmarks) = shape_of(&g);
    // Row 0 takes row 3 along and row 1 takes row 2 along. When rows 2 and 3
    // are reached, their nearest rows are rows 1 and 0, whose landmarks they
    // join.
    assert_eq!(frames, vec![(1, vec![0, 1]), (11, vec![1]), (21, vec![0])]);
    assert_eq!(
        landmarks,
        vec![(vec![0x00, 0x00], vec![0, 2]), (vec![0xFF, 0xFF], vec![0, 1])]
    );
    assert_eq!(g.occurrences(0), vec![0, 2]);
    assert_eq!(g.occurrences(1), vec![0, 1]);
}

#[test]
fn a_row_taken_along_is_resolved_again_in_its_own_frame() {
    // As above, with a second row in frame 2 that equals the row of frame 1.
    let step = snapshot_of_frames(&[
        &[[0x00, 0x00], [0xFF, 0xFF]],
        &[[0xFF, 0xFE]],
        &[[0x01, 0x00], [0xFF, 0xFE]],
    ]);
    let g = process_descriptors(&step).unwrap();
    let (frames, landmarks) = shape_of(&g);
    // Row 1 takes row 2 along into landmark 1. Row 2 itself is nearest to
    // row 4, which is free, so a third landmark takes rows 2 and 4. Landmark
    // 1 keeps frame 1 in its list.
    assert_eq!(
        frames,
        vec![(1, vec![0, 1]), (11, vec![2]), (21, vec![0, 2])]
    );
    assert_eq!(
        landmarks,
        vec![
            (vec![0x00, 0x00], vec![0, 2]),
            (vec![0xFF, 0xFF], vec![0, 1]),
            (vec![0xFF, 0xFE], vec![1, 2]),
        ]
    );
}

#[test]
fn a_chain_over_three_frames_is_one_landmark() {
    let step = snapshot_of_frames(&[&[[0b0000_0000, 0]], &[[0b0000_0011, 0]], &[[0b0000_1111, 0]]]);
    let g = match_frames(&step, 2).unwrap();
    let (frames, landmarks) = shape_of(&g);
    // Row 2 is four bits from row 0 but two from row 1, whose landmark it
    // joins.
    assert_eq!(frames, vec![(1, vec![0]), (11, vec![0]), (21, vec![0])]);
    assert_eq!(landmarks, vec![(vec![0, 0], vec![0, 1, 2])]);
}

#[test]
fn two_rows_of_a_frame_can_join_one_landmark() {
    let step = snapshot_of_frames(&[&[[0x10, 0x00]], &[[0x10, 0x01], [0x10, 0x02]]]);
    let g = process_descriptors(&step).unwrap();
    let (frames, landmarks) = shape_of(&g);
    assert_eq!(frames, vec![(1, vec![0]), (11, vec![0, 0])]);
    assert_eq!(landmarks, vec![(vec![0x10, 0x00], vec![0, 1])]);
}

#[test]
fn a_landmark_keeps_its_first_descriptor() {
    let step = snapshot_of_frames(&[&[[0xAA, 0x00]], &[[0xAA, 0x01]], &[[0xAA, 0x03]]]);
    let g = process_descriptors(&step).unwrap();
    assert_eq!(g.keypoint_count(), 1);
    assert_eq!(g.keypoint(0).unwrap().descriptor(), &[0xAA, 0x00]);
    assert_eq!(g.keypoint(0).unwrap().position(), Position::origin());
}

#[test]
fn every_listed_frame_is_a_frame_of_the_graph() {
    let step = snapshot_of_frames(&[
        &[[0x00, 0x00], [0xFF, 0xFF], [0x0F, 0xF0]],
        &[],
        &[[0xFF, 0xFE], [0x0F, 0xF1]],
        &[[0x01, 0x00], [0xFF, 0xFE], [0x55, 0x55]],
    ]);
    let g = process_descriptors(&step).unwrap();
    assert_eq!(g.keyframe_count(), 4);
    assert!(g.keypoint_count() <= 8);
    for (f, frame) in g.keyframes().iter().enumerate() {
        assert_eq!(frame.index(), 10 * f as u64 + 1);
        for &k in frame.keypoints() {
            assert!(g.keypoint(k).unwrap().occurs_in().contains(&f));
        }
    }
    for k in 0..g.keypoint_count() {
        let listed = g.keypoint(k).unwrap().occurs_in().to_vec();
        assert!(listed.iter().all(|&f| f < g.keyframe_count()));
        assert_eq!(g.occurrences(k), listed);
    }
}

#[test]
fn matching_twice_gives_the_same_graph() {
    let step = snapshot_of_frames(&[
        &[[0x00, 0x00], [0xFF, 0xFF], [0x0F, 0xF0]],
        &[[0xFF, 0xFE], [0x0F, 0xF1]],
        &[[0x01, 0x00], [0xFF, 0xFE], [0x55, 0x55]],
    ]);
    let first = process_descriptors(&step).unwrap();
    let second = process_descriptors(&step).unwrap();
    assert_eq!(shape_of(&first), shape_of(&second));
    assert_eq!(first.keyframe_count(), 3);
}

#[test]
fn an_invalid_snapshot_is_refused() {
    let matrix = DescriptorMatrix::from_row_slice(2, 2, &[1, 2, 3, 4]).unwrap();
    let entries = vec![
        KeyframeEntry::new(0, vec![Detection::new(0, 0, 0, 0, 0, 0, 0)], 0, 1),
        KeyframeEntry::new(1, vec![Detection::new(0, 0, 0, 0, 0, 0, 0)], 0, 1),
    ];
    let step = ExtractionStep::new(matrix, entries);
    assert!(matches!(
        process_descriptors(&step),
        Err(SnapshotError::RangeOverlap { record: 1 })
    ));
    let matrix = DescriptorMatrix::from_row_slice(2, 2, &[1, 2, 3, 4]).unwrap();
    let step = ExtractionStep::new(matrix, Vec::new());
    assert!(matches!(process_descriptors(&step), Err(SnapshotError::RowCount)));
}
