use feature_graph::graph::{Graph, Keyframe, Keypoint, Position};

#[test]
fn a_new_keypoint_occurs_nowhere() {
    let p = Position { x: 1, y: 2, z: 3 };
    let k = Keypoint::new(p, vec![9, 8, 7]);
    assert_eq!(k.position(), p);
    assert_eq!(k.descriptor(), &[9, 8, 7]);
    assert!(k.occurs_in().is_empty());
}

#[test]
fn the_origin_is_all_zero() {
    assert_eq!(Position::origin(), Position { x: 0, y: 0, z: 0 });
    assert_eq!(f64::from_bits(Position::origin().x), 0.0);
}

#[test]
fn add_correspondence_records_each_frame_once() {
    let mut k = Keypoint::new(Position::origin(), vec![]);
    k.add_correspondence(4);
    k.add_correspondence(2);
    k.add_correspondence(4);
    k.add_correspondence(2);
    k.add_correspondence(0);
    assert_eq!(k.occurs_in(), &[4, 2, 0]);
}

#[test]
fn a_keyframe_gives_back_what_it_was_made_of() {
    let f = Keyframe::new(vec![3, 1, 3], 17);
    assert_eq!(f.index(), 17);
    assert_eq!(f.keypoints(), &[3, 1, 3]);
}

#[test]
fn a_new_graph_is_empty() {
    let g = Graph::new();
    assert_eq!(g.keyframe_count(), 0);
    assert_eq!(g.keypoint_count(), 0);
    assert!(g.keyframe(0).is_none());
    assert!(g.keypoint(0).is_none());
    assert!(g.occurrences(0).is_empty());
}

#[test]
fn add_keypoint_hands_out_handles_in_order() {
    let mut g = Graph::new();
    assert_eq!(g.add_keypoint(Keypoint::new(Position::origin(), vec![1])), 0);
    assert_eq!(g.add_keypoint(Keypoint::new(Position::origin(), vec![2])), 1);
    assert_eq!(g.keypoint_count(), 2);
    assert_eq!(g.keypoint(1).unwrap().descriptor(), &[2]);
    assert!(g.keypoint(2).is_none());
}

#[test]
fn append_frame_adds_back_references() {
    let mut g = Graph::new();
    let a = g.add_keypoint(Keypoint::new(Position::origin(), vec![1]));
    let b = g.add_keypoint(Keypoint::new(Position::origin(), vec![2]));
    let c = g.add_keypoint(Keypoint::new(Position::origin(), vec![3]));
    assert_eq!(g.append_frame(Keyframe::new(vec![a, b, a], 10)), Some(0));
    assert_eq!(g.append_frame(Keyframe::new(vec![b], 11)), Some(1));
    assert_eq!(g.keyframe_count(), 2);
    assert_eq!(g.keyframe(0).unwrap().keypoints(), &[a, b, a]);
    assert_eq!(g.keyframe(0).unwrap().index(), 10);
    assert_eq!(g.keyframe(1).unwrap().index(), 11);
    assert_eq!(g.keypoint(a).unwrap().occurs_in(), &[0]);
    assert_eq!(g.keypoint(b).unwrap().occurs_in(), &[0, 1]);
    assert!(g.keypoint(c).unwrap().occurs_in().is_empty());
    assert_eq!(g.occurrences(b), vec![0, 1]);
}

#[test]
fn append_frame_refuses_an_unknown_landmark() {
    let mut g = Graph::new();
    let a = g.add_keypoint(Keypoint::new(Position::origin(), vec![1]));
    assert_eq!(g.append_frame(Keyframe::new(vec![a, 1], 0)), None);
    assert_eq!(g.keyframe_count(), 0);
    assert!(g.keypoint(a).unwrap().occurs_in().is_empty());
}

#[test]
fn append_frame_refuses_an_index_that_does_not_grow() {
    let mut g = Graph::new();
    assert_eq!(g.append_frame(Keyframe::new(vec![], 5)), Some(0));
    assert_eq!(g.append_frame(Keyframe::new(vec![], 5)), None);
    assert_eq!(g.append_frame(Keyframe::new(vec![], 4)), None);
    assert_eq!(g.append_frame(Keyframe::new(vec![], 6)), Some(1));
    assert_eq!(g.keyframe_count(), 2);
}

#[test]
fn appended_frames_do_not_change() {
    let mut g = Graph::new();
    let a = g.add_keypoint(Keypoint::new(Position::origin(), vec![1]));
    g.append_frame(Keyframe::new(vec![a], 1)).unwrap();
    let b = g.add_keypoint(Keypoint::new(Position::origin(), vec![2]));
    g.append_frame(Keyframe::new(vec![b, a], 2)).unwrap();
    assert!(g.add_occurrence(b, 0));
    assert_eq!(g.keyframe(0).unwrap().keypoints(), &[a]);
    assert_eq!(g.keyframe(0).unwrap().index(), 1);
}

#[test]
fn add_occurrence_needs_the_landmark() {
    let mut g = Graph::new();
    assert!(!g.add_occurrence(0, 0));
    let a = g.add_keypoint(Keypoint::new(Position::origin(), vec![1]));
    assert!(g.add_occurrence(a, 3));
    assert!(g.add_occurrence(a, 3));
    assert_eq!(g.keypoint(a).unwrap().occurs_in(), &[3]);
}

#[test]
fn occurrences_pass_over_frames_that_are_not_there() {
    let mut g = Graph::new();
    let a = g.add_keypoint(Keypoint::new(Position::origin(), vec![1]));
    assert!(g.add_occurrence(a, 1));
    assert!(g.add_occurrence(a, 7));
    assert!(g.occurrences(a).is_empty());
    g.append_frame(Keyframe::new(vec![a], 0)).unwrap();
    assert_eq!(g.keypoint(a).unwrap().occurs_in(), &[1, 7, 0]);
    assert_eq!(g.occurrences(a), vec![0]);
    g.append_frame(Keyframe::new(vec![], 1)).unwrap();
    assert_eq!(g.occurrences(a), vec![1, 0]);
}
