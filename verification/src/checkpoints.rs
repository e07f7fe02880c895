//! Extraction snapshots: the descriptor matrix of a whole pass together with
//! one record per frame, and the rule that the records' row ranges tile the
//! matrix.

use vstd::prelude::*;
use crate::detection::Detection;
use crate::matrix::{DescriptorMatrix, MatrixView};

verus! {

/// A half-open range of matrix rows, `start` included and `end` excluded.
#[derive(Clone, Copy, Debug, PartialEq, Eq, Structural)]
pub struct RowRange {
    pub start: i32,
    pub end: i32,
}

/// What was extracted from one frame: its detections and the rows of the
/// descriptor matrix that hold their descriptors.
#[derive(Debug)]
pub struct KeyframeEntry {
    frame_id: u64,
    keypoints: Vec<Detection>,
    descriptors_start: i32,
    descriptors_end: i32,
}

/// What a frame record holds.
pub struct EntryView {
    pub frame_id: u64,
    pub keypoints: Seq<Detection>,
    pub start: int,
    pub end: int,
}

impl View for KeyframeEntry {
    type V = EntryView;

    closed spec fn view(&self) -> EntryView {
        EntryView {
            frame_id: self.frame_id,
            keypoints: self.keypoints@,
            start: self.descriptors_start as int,
            end: self.descriptors_end as int,
        }
    }
}

/// The views of a list of records, in the same order.
pub open spec fn entry_views(entries: Seq<KeyframeEntry>) -> Seq<EntryView> {
    Seq::new(entries.len(), |i: int| entries[i]@)
}

impl KeyframeEntry {
    /// A record for frame `frame_id` whose descriptors occupy the rows from
    /// `descriptors_start` up to, not including, `descriptors_end`.
    pub fn new(
        frame_id: u64,
        keypoints: Vec<Detection>,
        descriptors_start: i32,
        descriptors_end: i32,
    ) -> (entry: KeyframeEntry)
        ensures
            entry@ == (EntryView {
                frame_id,
                keypoints: keypoints@,
                start: descriptors_start as int,
                end: descriptors_end as int,
            }),
    {
        KeyframeEntry { frame_id, keypoints, descriptors_start, descriptors_end }
    }

    /// The rows of the descriptor matrix that belong to this frame.
    pub fn descriptor_rows(&self) -> (rows: RowRange)
        ensures
            rows.start == self@.start,
            rows.end == self@.end,
    {
        RowRange { start: self.descriptors_start, end: self.descriptors_end }
    }

    /// The first row of this frame's descriptors.
    pub fn descriptors_start(&self) -> (start: i32)
        ensures
            start == self@.start,
    {
        self.descriptors_start
    }

    /// The row after the last of this frame's descriptors.
    pub fn descriptors_end(&self) -> (end: i32)
        ensures
            end == self@.end,
    {
        self.descriptors_end
    }

    /// The sequence number of the frame.
    pub fn frame_id(&self) -> (id: u64)
        ensures
            id == self@.frame_id,
    {
        self.frame_id
    }

    /// The detections of the frame, in the order of their descriptor rows.
    pub fn keypoints(&self) -> (keypoints: &[Detection])
        ensures
            keypoints@ == self@.keypoints,
    {
        self.keypoints.as_slice()
    }
}

/// Which rule of a snapshot a record breaks. `record` is the position of the
/// first record that breaks one.
#[derive(Clone, Copy, Debug, PartialEq, Eq, Structural)]
pub enum SnapshotError {
    /// The frame's sequence number is not above that of the record before.
    FrameOutOfOrder { record: usize },
    /// The range starts before the end of the range before it, or before row
    /// zero.
    RangeOverlap { record: usize },
    /// The range starts after the end of the range before it, or after row
    /// zero for the first record.
    RangeGap { record: usize },
    /// The range ends before it starts.
    RangeInverted { record: usize },
    /// The range does not have one row per detection.
    DetectionCount { record: usize },
    /// The ranges end before or after the last row of the matrix.
    RowCount,
}

/// What a snapshot holds.
pub struct SnapshotView {
    pub matrix: MatrixView,
    pub entries: Seq<EntryView>,
}

impl SnapshotView {
    /// The row at which record `i` has to start: where the record before it
    /// ended.
    pub open spec fn expected_start(self, i: int) -> int {
        if i <= 0 {
            0
        } else {
            self.entries[i - 1].end
        }
    }

    /// The rule that record `i` breaks first, if it breaks any.
    pub open spec fn fault_at(self, i: int) -> Option<SnapshotError> {
        let e = self.entries[i];
        let record = i as usize;
        if i > 0 && self.entries[i - 1].frame_id >= e.frame_id {
            Some(SnapshotError::FrameOutOfOrder { record })
        } else if e.start < self.expected_start(i) {
            Some(SnapshotError::RangeOverlap { record })
        } else if e.start > self.expected_start(i) {
            Some(SnapshotError::RangeGap { record })
        } else if e.end < e.start {
            Some(SnapshotError::RangeInverted { record })
        } else if e.end - e.start != e.keypoints.len() {
            Some(SnapshotError::DetectionCount { record })
        } else {
            None
        }
    }

    /// Record `i` follows its predecessor: a later frame, a range that starts
    /// where the last one ended, one row per detection.
    pub open spec fn record_ok(self, i: int) -> bool {
        &&& i > 0 ==> self.entries[i - 1].frame_id < self.entries[i].frame_id
        &&& self.entries[i].start == self.expected_start(i)
        &&& self.entries[i].start <= self.entries[i].end
        &&& self.entries[i].end - self.entries[i].start == self.entries[i].keypoints.len()
    }

    /// The records are in frame order and their ranges tile the rows of the
    /// matrix: the first starts at row zero, each starts where the one before
    /// ended, and the last ends with the matrix.
    pub open spec fn valid(self) -> bool {
        &&& forall|i: int| 0 <= i < self.entries.len() ==> self.record_ok(i)
        &&& self.expected_start(self.entries.len() as int) == self.matrix.rows.len()
    }

    /// Record `i` holds row `row` in its range.
    pub open spec fn owns(self, i: int, row: int) -> bool {
        0 <= i < self.entries.len() && self.entries[i].start <= row < self.entries[i].end
    }

    /// The record that holds row `row` in its range.
    pub open spec fn owner(self, row: int) -> int {
        choose|i: int| self.owns(i, row)
    }

    /// The number of rows of record `i`.
    pub open spec fn span(self, i: int) -> int {
        self.entries[i].end - self.entries[i].start
    }

    /// Record `i` is the first with a fault, and its fault is `e`.
    pub open spec fn first_fault(self, i: int, e: SnapshotError) -> bool {
        &&& 0 <= i < self.entries.len()
        &&& self.fault_at(i) == Some(e)
        &&& forall|j: int| 0 <= j < i ==> self.record_ok(j)
    }

    /// `r` is the verdict on the snapshot: `Ok` when it is valid, else the
    /// fault of the first record that has one, else that the ranges do not end
    /// with the matrix.
    pub open spec fn verdict(self, r: Result<(), SnapshotError>) -> bool {
        match r {
            Ok(_) => self.valid(),
            Err(e) => {
                ||| exists|i: int| #[trigger] self.first_fault(i, e)
                ||| {
                    &&& forall|j: int| 0 <= j < self.entries.len() ==> self.record_ok(j)
                    &&& e == SnapshotError::RowCount
                    &&& self.expected_start(self.entries.len() as int) != self.matrix.rows.len()
                }
            },
        }
    }
}

/// The output of one extraction pass: the descriptor matrix and the frame
/// records, in frame order.
#[derive(Debug)]
pub struct ExtractionStep {
    descriptors: DescriptorMatrix,
    keypoint_entries: Vec<KeyframeEntry>,
}

impl View for ExtractionStep {
    type V = SnapshotView;

    closed spec fn view(&self) -> SnapshotView {
        SnapshotView { matrix: self.descriptors@, entries: entry_views(self.keypoint_entries@) }
    }
}

impl ExtractionStep {
    /// A snapshot of the given matrix and records. Nothing is checked here;
    /// see [`ExtractionStep::validate`].
    pub fn new(descriptors: DescriptorMatrix, keyframe_entries: Vec<KeyframeEntry>) -> (step:
        ExtractionStep)
        ensures
            step@.matrix == descriptors@,
            step@.entries == entry_views(keyframe_entries@),
    {
        ExtractionStep { descriptors, keypoint_entries: keyframe_entries }
    }

    /// The frame records, in frame order.
    pub fn keyframe_entries(&self) -> (entries: &[KeyframeEntry])
        ensures
            entry_views(entries@) == self@.entries,
    {
        self.keypoint_entries.as_slice()
    }

    /// The descriptor matrix.
    pub fn descriptors(&self) -> (matrix: &DescriptorMatrix)
        ensures
            matrix@ == self@.matrix,
    {
        &self.descriptors
    }

    /// The record whose range holds `row`, found by bisection. `None` when
    /// `row` is not a row of the matrix.
    pub fn owner_of(&self, row: usize) -> (found: Option<usize>)
        requires
            self@.valid(),
        ensures
            found is Some <==> row < self@.matrix.rows.len(),
            found matches Some(i) ==> self@.owns(i as int, row as int) && i == self@.owner(row as int),
    {
        let ghost s = self@;
        let mut lo: usize = 0;
        let mut hi: usize = self.keypoint_entries.len();
        while lo < hi
            invariant
                s == self@,
                s.valid(),
                lo <= hi <= self.keypoint_entries@.len(),
                forall|i: int| 0 <= i < lo ==> (#[trigger] s.entries[i]).end <= row,
                forall|i: int| hi <= i < s.entries.len() ==> row < (#[trigger] s.entries[i]).start,
            decreases hi - lo,
        {
            let mid: usize = lo + (hi - lo) / 2;
            let entry = &self.keypoint_entries[mid];
            assert(entry@ == s.entries[mid as int]);
            proof {
                lemma_range_bounds(s, mid as int);
            }
            if row < entry.descriptors_start as usize {
                proof {
                    assert forall|i: int| mid <= i < s.entries.len() implies row < (
                    #[trigger] s.entries[i]).start by {
                        if mid < i {
                            lemma_tiling(s, mid as int, i);
                        }
                    }
                }
                hi = mid;
            } else if row >= entry.descriptors_end as usize {
                proof {
                    assert forall|i: int| 0 <= i < mid + 1 implies (#[trigger] s.entries[i]).end
                        <= row by {
                        if i < mid {
                            lemma_tiling(s, i, mid as int);
                        }
                    }
                }
                lo = mid + 1;
            } else {
                proof {
                    assert(s.owns(mid as int, row as int));
                    lemma_owner_unique(s, mid as int, s.owner(row as int), row as int);
                }
                return Some(mid);
            }
        }
        proof {
            if row < s.matrix.rows.len() {
                lemma_owner(s, row as int);
                let i = s.owner(row as int);
                assert(s.owns(i, row as int));
                if i < lo {
                    assert(s.entries[i].end <= row);
                } else {
                    assert(row < s.entries[i].start);
                }
            }
        }
        None
    }

    /// Checks the records against the matrix. The records are examined in
    /// order and the first fault found is reported.
    pub fn validate(&self) -> (r: Result<(), SnapshotError>)
        ensures
            self@.verdict(r),
    {
        let rows: usize = self.descriptors.nrows();
        let count: usize = self.keypoint_entries.len();
        let mut expected: i32 = 0;
        let mut last_frame: u64 = 0;
        let mut i: usize = 0;
        while i < count
            invariant
                count == self.keypoint_entries@.len(),
                i <= count,
                0 <= expected,
                expected == self@.expected_start(i as int),
                i > 0 ==> last_frame == self@.entries[i - 1].frame_id,
                forall|j: int| 0 <= j < i ==> self@.record_ok(j),
            decreases count - i,
        {
            let entry = &self.keypoint_entries[i];
            assert(entry@ == self@.entries[i as int]);
            if i > 0 && last_frame >= entry.frame_id {
                let e = SnapshotError::FrameOutOfOrder { record: i };
                assert(self@.first_fault(i as int, e));
                return Err(e);
            }
            if entry.descriptors_start < expected {
                let e = SnapshotError::RangeOverlap { record: i };
                assert(self@.first_fault(i as int, e));
                return Err(e);
            }
            if entry.descriptors_start > expected {
                let e = SnapshotError::RangeGap { record: i };
                assert(self@.first_fault(i as int, e));
                return Err(e);
            }
            if entry.descriptors_end < entry.descriptors_start {
                let e = SnapshotError::RangeInverted { record: i };
                assert(self@.first_fault(i as int, e));
                return Err(e);
            }
            let span: usize = (entry.descriptors_end - entry.descriptors_start) as usize;
            if span != entry.keypoints.len() {
                let e = SnapshotError::DetectionCount { record: i };
                assert(self@.first_fault(i as int, e));
                return Err(e);
            }
            assert(self@.record_ok(i as int));
            expected = entry.descriptors_end;
            last_frame = entry.frame_id;
            i += 1;
        }
        if expected as usize != rows {
            return Err(SnapshotError::RowCount);
        }
        Ok(())
    }
}

/// In a valid snapshot a record ends where or before any later record starts,
/// no range leaves the matrix, and the last range ends with the matrix.
pub proof fn lemma_tiling(s: SnapshotView, i: int, j: int)
    requires
        s.valid(),
        0 <= i < j < s.entries.len(),
    ensures
        0 <= s.entries[i].start <= s.entries[i].end <= s.entries[j].start,
        s.entries[j].start <= s.entries[j].end <= s.matrix.rows.len(),
        s.entries.last().end == s.matrix.rows.len(),
    decreases j,
{
    lemma_range_bounds(s, j);
    lemma_range_bounds(s, i);
    assert(s.record_ok(j));
    if i + 1 < j {
        lemma_tiling(s, i, j - 1);
        assert(s.record_ok(j - 1));
    }
}

/// In a valid snapshot every range lies inside the matrix.
pub proof fn lemma_range_bounds(s: SnapshotView, i: int)
    requires
        s.valid(),
        0 <= i < s.entries.len(),
    ensures
        0 <= s.entries[i].start <= s.entries[i].end <= s.matrix.rows.len(),
    decreases s.entries.len() - i,
{
    assert(s.record_ok(i));
    lemma_start_nonnegative(s, i);
    if i + 1 < s.entries.len() {
        lemma_range_bounds(s, i + 1);
        assert(s.record_ok(i + 1));
    }
}

proof fn lemma_start_nonnegative(s: SnapshotView, i: int)
    requires
        s.valid(),
        0 <= i < s.entries.len(),
    ensures
        0 <= s.entries[i].start,
    decreases i,
{
    assert(s.record_ok(i));
    if i > 0 {
        lemma_start_nonnegative(s, i - 1);
        assert(s.record_ok(i - 1));
    }
}

proof fn lemma_owner_from(s: SnapshotView, row: int, i: int)
    requires
        s.valid(),
        0 <= i < s.entries.len(),
        s.entries[i].start <= row < s.matrix.rows.len(),
    ensures
        exists|j: int| s.owns(j, row),
    decreases s.entries.len() - i,
{
    assert(s.record_ok(i));
    if row < s.entries[i].end {
        assert(s.owns(i, row));
    } else {
        if i + 1 < s.entries.len() {
            assert(s.record_ok(i + 1));
            lemma_owner_from(s, row, i + 1);
        }
    }
}

/// In a valid snapshot every row of the matrix lies in the range of a record.
pub proof fn lemma_owner(s: SnapshotView, row: int)
    requires
        s.valid(),
        0 <= row < s.matrix.rows.len(),
    ensures
        s.owns(s.owner(row), row),
{
    assert(s.entries.len() > 0);
    assert(s.record_ok(0));
    lemma_owner_from(s, row, 0);
}

/// In a valid snapshot no row lies in the ranges of two records.
pub proof fn lemma_owner_unique(s: SnapshotView, i: int, j: int, row: int)
    requires
        s.valid(),
        s.owns(i, row),
        s.owns(j, row),
    ensures
        i == j,
{
    if i < j {
        lemma_tiling(s, i, j);
    } else if j < i {
        lemma_tiling(s, j, i);
    }
}

/// A snapshot has one verdict only.
pub proof fn lemma_verdict_unique(
    s: SnapshotView,
    r1: Result<(), SnapshotError>,
    r2: Result<(), SnapshotError>,
)
    requires
        s.verdict(r1),
        s.verdict(r2),
    ensures
        r1 == r2,
{
    match (r1, r2) {
        (Err(e1), Err(e2)) => {
            lemma_fault_unique(s, e1, e2);
        },
        (Ok(_), Err(e)) => {
            if exists|i: int| #[trigger] s.first_fault(i, e) {
                let i = choose|i: int| #[trigger] s.first_fault(i, e);
                assert(s.record_ok(i));
            }
        },
        (Err(e), Ok(_)) => {
            if exists|i: int| #[trigger] s.first_fault(i, e) {
                let i = choose|i: int| #[trigger] s.first_fault(i, e);
                assert(s.record_ok(i));
            }
        },
        (Ok(u1), Ok(u2)) => {
            assert(u1 == u2);
        },
    }
}

proof fn lemma_fault_unique(s: SnapshotView, e1: SnapshotError, e2: SnapshotError)
    requires
        s.verdict(Err(e1)),
        s.verdict(Err(e2)),
    ensures
        e1 == e2,
{
    let first1 = exists|i: int| #[trigger] s.first_fault(i, e1);
    let first2 = exists|i: int| #[trigger] s.first_fault(i, e2);
    if first1 {
        let i1 = choose|i: int| #[trigger] s.first_fault(i, e1);
        if first2 {
            let i2 = choose|i: int| #[trigger] s.first_fault(i, e2);
            if i1 < i2 {
                assert(s.record_ok(i1));
            } else if i2 < i1 {
                assert(s.record_ok(i2));
            }
        } else {
            assert(s.record_ok(i1));
        }
    } else if first2 {
        let i2 = choose|i: int| #[trigger] s.first_fault(i, e2);
        assert(s.record_ok(i2));
    }
}

} // verus!
