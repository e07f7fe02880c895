//! The correspondence graph: frame nodes and the landmarks seen in them.
//!
//! Frames and landmarks live in two growing lists and are named by their
//! positions, which never change because nothing is ever removed. A frame
//! holds the handles of its landmarks, in the order of its detections; a
//! landmark holds the handles of the frames it was seen in.

use vstd::prelude::*;

verus! {

/// The handle of a landmark: its position among the landmarks of a graph.
pub type KeypointPtr = usize;

/// The handle of a frame node: its position among the frames of a graph.
pub type KeyframePtr = usize;

/// A point in space, as the bit patterns of three double-precision numbers.
#[derive(Clone, Copy, Debug, PartialEq, Eq, Structural)]
pub struct Position {
    pub x: u64,
    pub y: u64,
    pub z: u64,
}

impl Position {
    /// The point with three zero coordinates, which stands for a position
    /// that is not known yet.
    pub open spec fn spec_origin() -> Position {
        Position { x: 0, y: 0, z: 0 }
    }

    /// The point with three zero coordinates.
    pub fn origin() -> (p: Position)
        ensures
            p == Position::spec_origin(),
    {
        Position { x: 0, y: 0, z: 0 }
    }
}

/// A matched point with an associated feature descriptor.
#[derive(Debug)]
pub struct Keypoint {
    position: Position,
    occurs_in: Vec<KeyframePtr>,
    descriptor: Vec<u8>,
}

/// What a landmark holds.
pub struct KeypointView {
    pub position: Position,
    pub occurs_in: Seq<KeyframePtr>,
    pub descriptor: Seq<u8>,
}

impl KeypointView {
    /// The landmark with `frame` among its occurrences: added at the end
    /// unless it is there already.
    pub open spec fn with_occurrence(self, frame: KeyframePtr) -> KeypointView {
        if self.occurs_in.contains(frame) {
            self
        } else {
            KeypointView { occurs_in: self.occurs_in.push(frame), ..self }
        }
    }
}

impl View for Keypoint {
    type V = KeypointView;

    closed spec fn view(&self) -> KeypointView {
        KeypointView {
            position: self.position,
            occurs_in: self.occurs_in@,
            descriptor: self.descriptor@,
        }
    }
}

impl Keypoint {
    /// A landmark at `position` with the representative `descriptor`, seen in
    /// no frame yet.
    pub fn new(position: Position, descriptor: Vec<u8>) -> (keypoint: Keypoint)
        ensures
            keypoint@ == (KeypointView {
                position,
                occurs_in: Seq::<KeyframePtr>::empty(),
                descriptor: descriptor@,
            }),
    {
        Keypoint { position, occurs_in: Vec::new(), descriptor }
    }

    /// Records that the landmark was seen in `keyframe`. A frame is recorded
    /// once, however often it is added.
    pub fn add_correspondence(&mut self, keyframe: KeyframePtr)
        ensures
            final(self)@ == old(self)@.with_occurrence(keyframe),
    {
        let mut i: usize = 0;
        while i < self.occurs_in.len()
            invariant
                i <= self.occurs_in@.len(),
                *self == *old(self),
                forall|j: int| 0 <= j < i ==> self.occurs_in@[j] != keyframe,
            decreases self.occurs_in@.len() - i,
        {
            if self.occurs_in[i] == keyframe {
                return ;
            }
            i += 1;
        }
        self.occurs_in.push(keyframe);
    }

    /// The position of the landmark.
    pub fn position(&self) -> (position: Position)
        ensures
            position == self@.position,
    {
        self.position
    }

    /// The representative descriptor of the landmark.
    pub fn descriptor(&self) -> (descriptor: &[u8])
        ensures
            descriptor@ == self@.descriptor,
    {
        self.descriptor.as_slice()
    }

    /// The frames recorded for the landmark, in the order in which they were
    /// first added.
    pub fn occurs_in(&self) -> (frames: &[KeyframePtr])
        ensures
            frames@ == self@.occurs_in,
    {
        self.occurs_in.as_slice()
    }
}

/// One processed frame: its sequence number and the landmarks of its
/// detections, in detection order.
#[derive(Debug)]
pub struct Keyframe {
    keypoints: Vec<KeypointPtr>,
    index: u64,
}

/// What a frame node holds.
pub struct KeyframeView {
    pub keypoints: Seq<KeypointPtr>,
    pub index: u64,
}

impl View for Keyframe {
    type V = KeyframeView;

    closed spec fn view(&self) -> KeyframeView {
        KeyframeView { keypoints: self.keypoints@, index: self.index }
    }
}

impl Keyframe {
    /// A frame node for the frame with sequence number `index`.
    pub fn new(keypoints: Vec<KeypointPtr>, index: u64) -> (keyframe: Keyframe)
        ensures
            keyframe@ == (KeyframeView { keypoints: keypoints@, index }),
    {
        Keyframe { keypoints, index }
    }

    /// The sequence number of the frame.
    pub fn index(&self) -> (index: u64)
        ensures
            index == self@.index,
    {
        self.index
    }

    /// The landmarks of the frame's detections, in detection order.
    pub fn keypoints(&self) -> (keypoints: &[KeypointPtr])
        ensures
            keypoints@ == self@.keypoints,
    {
        self.keypoints.as_slice()
    }
}

/// The frames and landmarks of one run.
#[derive(Debug)]
pub struct Graph {
    keyframes: Vec<Keyframe>,
    keypoints: Vec<Keypoint>,
}

/// What a graph holds.
pub struct GraphView {
    pub keyframes: Seq<KeyframeView>,
    pub keypoints: Seq<KeypointView>,
}

impl GraphView {
    /// The graph without frames and landmarks.
    pub open spec fn empty() -> GraphView {
        GraphView { keyframes: Seq::empty(), keypoints: Seq::empty() }
    }

    /// The graph with one more landmark.
    pub open spec fn with_keypoint(self, keypoint: KeypointView) -> GraphView {
        GraphView { keypoints: self.keypoints.push(keypoint), ..self }
    }

    /// The graph in which landmark `keypoint` has `frame` among its
    /// occurrences.
    pub open spec fn with_occurrence(self, keypoint: KeypointPtr, frame: KeyframePtr) -> GraphView {
        GraphView {
            keypoints: self.keypoints.update(
                keypoint as int,
                self.keypoints[keypoint as int].with_occurrence(frame),
            ),
            ..self
        }
    }

    /// The graph with one more frame, each of whose landmarks has the new
    /// frame among its occurrences.
    pub open spec fn with_frame(self, frame: KeyframeView) -> GraphView {
        let handle = self.keyframes.len() as KeyframePtr;
        GraphView {
            keyframes: self.keyframes.push(frame),
            keypoints: Seq::new(
                self.keypoints.len(),
                |k: int|
                    if frame.keypoints.contains(k as KeypointPtr) {
                        self.keypoints[k].with_occurrence(handle)
                    } else {
                        self.keypoints[k]
                    },
            ),
        }
    }

    /// A frame can be appended when all its landmarks exist and its sequence
    /// number is above that of every frame of the graph.
    pub open spec fn accepts(self, frame: KeyframeView) -> bool {
        &&& forall|j: int|
            0 <= j < frame.keypoints.len() ==> (#[trigger] frame.keypoints[j]) < self.keypoints.len()
        &&& self.keyframes.len() > 0 ==> self.keyframes.last().index < frame.index
    }

    /// The frames in which landmark `keypoint` occurs and which the graph has:
    /// an occurrence that names no frame of the graph is left out.
    pub open spec fn occurrences(self, keypoint: int) -> Seq<KeyframePtr> {
        self.keypoints[keypoint].occurs_in.filter(|f: KeyframePtr| f < self.keyframes.len())
    }

    /// Every frame refers to landmarks of the graph, every landmark knows the
    /// frames that refer to it, no landmark lists a frame twice, and the
    /// frames are in the order of their sequence numbers.
    pub open spec fn wf(self) -> bool {
        &&& forall|f: int, j: int|
            0 <= f < self.keyframes.len() && 0 <= j < self.keyframes[f].keypoints.len() ==> (
            #[trigger] self.keyframes[f].keypoints[j]) < self.keypoints.len()
        &&& forall|f: int, j: int|
            0 <= f < self.keyframes.len() && 0 <= j < self.keyframes[f].keypoints.len()
                ==> self.keypoints[(#[trigger] self.keyframes[f].keypoints[j]) as int].occurs_in.contains(
            f as KeyframePtr)
        &&& forall|k: int|
            0 <= k < self.keypoints.len() ==> (#[trigger] self.keypoints[k]).occurs_in.no_duplicates()
        &&& forall|f: int, g: int|
            0 <= f < g < self.keyframes.len() ==> (#[trigger] self.keyframes[f]).index < (
            #[trigger] self.keyframes[g]).index
    }
}

/// Adding an occurrence keeps a list without repetitions free of them, and
/// adding it twice is adding it once.
pub proof fn lemma_with_occurrence(k: KeypointView, frame: KeyframePtr)
    requires
        k.occurs_in.no_duplicates(),
    ensures
        k.with_occurrence(frame).occurs_in.no_duplicates(),
        k.with_occurrence(frame).occurs_in.contains(frame),
        k.with_occurrence(frame).with_occurrence(frame) == k.with_occurrence(frame),
        forall|f: KeyframePtr|
            k.occurs_in.contains(f) ==> k.with_occurrence(frame).occurs_in.contains(f),
        k.with_occurrence(frame).position == k.position,
        k.with_occurrence(frame).descriptor == k.descriptor,
{
    let n = k.with_occurrence(frame);
    if !k.occurs_in.contains(frame) {
        assert(n.occurs_in[k.occurs_in.len() as int] == frame);
        assert forall|f: KeyframePtr| k.occurs_in.contains(f) implies n.occurs_in.contains(f) by {
            let i = choose|i: int| 0 <= i < k.occurs_in.len() && k.occurs_in[i] == f;
            assert(n.occurs_in[i] == f);
        }
    }
}

impl View for Graph {
    type V = GraphView;

    closed spec fn view(&self) -> GraphView {
        GraphView {
            keyframes: Seq::new(self.keyframes@.len(), |i: int| self.keyframes@[i]@),
            keypoints: Seq::new(self.keypoints@.len(), |i: int| self.keypoints@[i]@),
        }
    }
}

impl Graph {
    /// A graph without frames and landmarks.
    pub fn new() -> (graph: Graph)
        ensures
            graph@ == GraphView::empty(),
            graph@.wf(),
    {
        let graph = Graph { keyframes: Vec::new(), keypoints: Vec::new() };
        assert(graph@.keyframes =~= Seq::empty());
        assert(graph@.keypoints =~= Seq::empty());
        graph
    }

    /// The number of frames.
    pub fn keyframe_count(&self) -> (n: usize)
        ensures
            n == self@.keyframes.len(),
    {
        self.keyframes.len()
    }

    /// The number of landmarks.
    pub fn keypoint_count(&self) -> (n: usize)
        ensures
            n == self@.keypoints.len(),
    {
        self.keypoints.len()
    }

    /// The frames, in the order of their sequence numbers, which is the
    /// order of their handles.
    pub fn keyframes(&self) -> (frames: &[Keyframe])
        ensures
            frames@.len() == self@.keyframes.len(),
            forall|f: int|
                0 <= f < frames@.len() ==> (#[trigger] frames@[f])@ == self@.keyframes[f],
    {
        self.keyframes.as_slice()
    }

    /// The frame with the given handle, if the graph has it.
    pub fn keyframe(&self, handle: KeyframePtr) -> (frame: Option<&Keyframe>)
        ensures
            frame is Some <==> handle < self@.keyframes.len(),
            frame matches Some(f) ==> f@ == self@.keyframes[handle as int],
    {
        if handle < self.keyframes.len() {
            Some(&self.keyframes[handle])
        } else {
            None
        }
    }

    /// The landmark with the given handle, if the graph has it.
    pub fn keypoint(&self, handle: KeypointPtr) -> (keypoint: Option<&Keypoint>)
        ensures
            keypoint is Some <==> handle < self@.keypoints.len(),
            keypoint matches Some(k) ==> k@ == self@.keypoints[handle as int],
    {
        if handle < self.keypoints.len() {
            Some(&self.keypoints[handle])
        } else {
            None
        }
    }

    /// The frames in which the landmark occurs, in the order in which they
    /// were recorded. An occurrence that names no frame of the graph is
    /// passed over. Empty when the graph has no such landmark.
    pub fn occurrences(&self, keypoint: KeypointPtr) -> (frames: Vec<KeyframePtr>)
        ensures
            keypoint < self@.keypoints.len() ==> frames@ == self@.occurrences(keypoint as int),
            keypoint >= self@.keypoints.len() ==> frames@.len() == 0,
    {
        let mut frames: Vec<KeyframePtr> = Vec::new();
        if keypoint >= self.keypoints.len() {
            return frames;
        }
        let count: usize = self.keyframes.len();
        let listed = self.keypoints[keypoint].occurs_in();
        let ghost present = |f: KeyframePtr| f < self@.keyframes.len();
        let mut i: usize = 0;
        assert(listed@.take(0).filter(present) =~= Seq::<KeyframePtr>::empty());
        while i < listed.len()
            invariant
                i <= listed@.len(),
                count == self@.keyframes.len(),
                present == |f: KeyframePtr| f < self@.keyframes.len(),
                frames@ == listed@.take(i as int).filter(present),
            decreases listed@.len() - i,
        {
            let f: KeyframePtr = listed[i];
            proof {
                listed@.lemma_take_succ_push(i as int);
                listed@.take(i as int).lemma_filter_push(f, present);
            }
            if f < count {
                frames.push(f);
            }
            i += 1;
        }
        assert(listed@.take(listed@.len() as int) =~= listed@);
        frames
    }

    /// Adds a landmark and returns its handle.
    pub fn add_keypoint(&mut self, keypoint: Keypoint) -> (handle: KeypointPtr)
        requires
            old(self)@.wf(),
            keypoint@.occurs_in.no_duplicates(),
        ensures
            handle == old(self)@.keypoints.len(),
            final(self)@ == old(self)@.with_keypoint(keypoint@),
            final(self)@.wf(),
    {
        let handle: usize = self.keypoints.len();
        self.keypoints.push(keypoint);
        proof {
            assert(self@.keypoints =~= old(self)@.keypoints.push(keypoint@));
            assert(self@.keyframes =~= old(self)@.keyframes);
            lemma_with_keypoint_wf(old(self)@, keypoint@);
        }
        handle
    }

    /// Records that landmark `keypoint` was seen in the frame with handle
    /// `frame`. Returns `false`, and changes nothing, when the graph has no
    /// such landmark. The frame itself may be appended later.
    pub fn add_occurrence(&mut self, keypoint: KeypointPtr, frame: KeyframePtr) -> (added: bool)
        requires
            old(self)@.wf(),
        ensures
            added <==> keypoint < old(self)@.keypoints.len(),
            added ==> final(self)@ == old(self)@.with_occurrence(keypoint, frame),
            !added ==> final(self)@ == old(self)@,
            final(self)@.wf(),
    {
        if keypoint >= self.keypoints.len() {
            return false;
        }
        self.keypoints[keypoint].add_correspondence(frame);
        proof {
            assert(self@.keypoints =~= old(self)@.with_occurrence(keypoint, frame).keypoints);
            assert(self@.keyframes =~= old(self)@.keyframes);
            lemma_with_occurrence_wf(old(self)@, keypoint, frame);
        }
        true
    }

    /// Appends a frame and returns its handle; every landmark of the frame
    /// gets the new frame among its occurrences. Returns `None`, and changes
    /// nothing, unless all landmarks of the frame exist and its sequence
    /// number is above that of the last frame.
    pub fn append_frame(&mut self, frame: Keyframe) -> (handle: Option<KeyframePtr>)
        requires
            old(self)@.wf(),
        ensures
            handle is Some <==> old(self)@.accepts(frame@),
            handle matches Some(h) ==> h == old(self)@.keyframes.len() && final(self)@ == old(
                self,
            )@.with_frame(frame@),
            handle is None ==> final(self)@ == old(self)@,
            final(self)@.wf(),
    {
        let handle: usize = self.keyframes.len();
        if handle > 0 && self.keyframes[handle - 1].index >= frame.index {
            assert(self@.keyframes.last() == self.keyframes@[handle - 1]@);
            return None;
        }
        let landmarks: usize = self.keypoints.len();
        let mut j: usize = 0;
        while j < frame.keypoints.len()
            invariant
                j <= frame.keypoints@.len(),
                landmarks == self.keypoints@.len(),
                *self == *old(self),
                old(self)@.wf(),
                forall|i: int| 0 <= i < j ==> frame.keypoints@[i] < landmarks,
            decreases frame.keypoints@.len() - j,
        {
            if frame.keypoints[j] >= landmarks {
                assert(frame@.keypoints[j as int] >= old(self)@.keypoints.len());
                return None;
            }
            j += 1;
        }
        assert(old(self)@.accepts(frame@)) by {
            if handle > 0 {
                assert(self@.keyframes.last() == self.keyframes@[handle - 1]@);
            }
        }
        let mut n: usize = 0;
        while n < frame.keypoints.len()
            invariant
                n <= frame.keypoints@.len(),
                handle == old(self)@.keyframes.len(),
                landmarks == old(self)@.keypoints.len(),
                old(self)@.wf(),
                old(self)@.accepts(frame@),
                self@.keyframes == old(self)@.keyframes,
                self@.keypoints == old(self)@.with_frame(
                    KeyframeView { keypoints: frame@.keypoints.take(n as int), index: frame@.index },
                ).keypoints,
                self@.wf(),
            decreases frame.keypoints@.len() - n,
        {
            let k: KeypointPtr = frame.keypoints[n];
            let ghost before = self@;
            let added = self.add_occurrence(k, handle);
            proof {
                let shorter = KeyframeView {
                    keypoints: frame@.keypoints.take(n as int),
                    index: frame@.index,
                };
                let longer = KeyframeView {
                    keypoints: frame@.keypoints.take(n + 1),
                    index: frame@.index,
                };
                frame@.keypoints.lemma_take_succ_push(n as int);
                assert(frame@.keypoints[n as int] == k);
                assert(k < old(self)@.keypoints.len());
                assert(added);
                assert forall|i: int| 0 <= i < self@.keypoints.len() implies self@.keypoints[i]
                    == old(self)@.with_frame(longer).keypoints[i] by {
                    lemma_with_occurrence(old(self)@.keypoints[i], handle);
                    assert(0 <= i < landmarks);
                    if i == k {
                        assert(longer.keypoints[n as int] == k);
                        assert(longer.keypoints.contains(k));
                    } else {
                        if longer.keypoints.contains(i as KeypointPtr) {
                            let at = choose|at: int|
                                0 <= at < longer.keypoints.len() && longer.keypoints[at]
                                    == i as KeypointPtr;
                            assert(longer.keypoints[n as int] == k);
                            assert(at < n);
                            assert(shorter.keypoints[at] == i as KeypointPtr);
                        }
                        if shorter.keypoints.contains(i as KeypointPtr) {
                            let at = choose|at: int|
                                0 <= at < shorter.keypoints.len() && shorter.keypoints[at]
                                    == i as KeypointPtr;
                            assert(longer.keypoints[at] == i as KeypointPtr);
                        }
                    }
                }
                assert(self@.keypoints =~= old(self)@.with_frame(longer).keypoints);
            }
            n += 1;
        }
        let ghost pushed = frame@;
        assert(frame@.keypoints.take(frame@.keypoints.len() as int) =~= frame@.keypoints);
        self.keyframes.push(frame);
        proof {
            assert(self@.keyframes =~= old(self)@.keyframes.push(pushed));
            assert(self@.keypoints =~= old(self)@.with_frame(pushed).keypoints);
            lemma_with_frame_wf(old(self)@, pushed);
        }
        Some(handle)
    }
}

/// A new landmark leaves a well-formed graph well-formed.
pub proof fn lemma_with_keypoint_wf(g: GraphView, keypoint: KeypointView)
    requires
        g.wf(),
        keypoint.occurs_in.no_duplicates(),
    ensures
        g.with_keypoint(keypoint).wf(),
{
    let n = g.with_keypoint(keypoint);
    assert forall|f: int, j: int|
        0 <= f < n.keyframes.len() && 0 <= j < n.keyframes[f].keypoints.len() implies n.keypoints[(
    #[trigger] n.keyframes[f].keypoints[j]) as int].occurs_in.contains(f as KeyframePtr) by {
        assert(g.keyframes[f].keypoints[j] < g.keypoints.len());
    }
}

/// A new occurrence leaves a well-formed graph well-formed.
pub proof fn lemma_with_occurrence_wf(g: GraphView, keypoint: KeypointPtr, frame: KeyframePtr)
    requires
        g.wf(),
        keypoint < g.keypoints.len(),
    ensures
        g.with_occurrence(keypoint, frame).wf(),
{
    let n = g.with_occurrence(keypoint, frame);
    lemma_with_occurrence(g.keypoints[keypoint as int], frame);
    assert forall|f: int, j: int|
        0 <= f < n.keyframes.len() && 0 <= j < n.keyframes[f].keypoints.len() implies n.keypoints[(
    #[trigger] n.keyframes[f].keypoints[j]) as int].occurs_in.contains(f as KeyframePtr) by {
        assert(g.keyframes[f].keypoints[j] < g.keypoints.len());
        assert(g.keypoints[g.keyframes[f].keypoints[j] as int].occurs_in.contains(
            f as KeyframePtr,
        ));
    }
}

/// A new frame that the graph accepts leaves a well-formed graph well-formed.
pub proof fn lemma_with_frame_wf(g: GraphView, frame: KeyframeView)
    requires
        g.wf(),
        g.accepts(frame),
    ensures
        g.with_frame(frame).wf(),
{
    let n = g.with_frame(frame);
    let handle = g.keyframes.len() as KeyframePtr;
    assert forall|k: int| 0 <= k < n.keypoints.len() implies (#[trigger] n.keypoints[k]).occurs_in.no_duplicates() by {
        lemma_with_occurrence(g.keypoints[k], handle);
    }
    assert forall|f: int, j: int|
        0 <= f < n.keyframes.len() && 0 <= j < n.keyframes[f].keypoints.len() implies (
    #[trigger] n.keyframes[f].keypoints[j]) < n.keypoints.len() && n.keypoints[n.keyframes[f].keypoints[j] as int].occurs_in.contains(
    f as KeyframePtr) by {
        if f < g.keyframes.len() {
            let k = g.keyframes[f].keypoints[j];
            assert(k < g.keypoints.len());
            assert(g.keypoints[k as int].occurs_in.contains(f as KeyframePtr));
            lemma_with_occurrence(g.keypoints[k as int], handle);
        } else {
            let k = frame.keypoints[j];
            assert(k < g.keypoints.len());
            assert(frame.keypoints.contains(k));
            lemma_with_occurrence(g.keypoints[k as int], handle);
        }
    }
    assert forall|f: int, h: int| 0 <= f < h < n.keyframes.len() implies (
    #[trigger] n.keyframes[f]).index < (#[trigger] n.keyframes[h]).index by {
        if h == g.keyframes.len() {
            if f < g.keyframes.len() - 1 {
                assert(g.keyframes[f].index < g.keyframes[g.keyframes.len() - 1].index);
            }
        }
    }
}

} // verus!
