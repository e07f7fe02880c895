//! Building the correspondence graph of a snapshot.
//!
//! The frames are taken in order, and within a frame its rows. For a row the
//! nearest row of any other frame is looked up, earlier or later. If it is
//! near enough and already belongs to a landmark, the row joins that
//! landmark. If it is near enough and free, a new landmark takes both rows
//! and lists both frames. Otherwise a new landmark takes the row alone. When
//! the rows of a frame are done, its frame node is appended to the graph.
//!
//! A row that was taken along by a row of an earlier frame is still resolved
//! when its own frame is reached, by its own nearest row. It may then join
//! another landmark than the one that took it along; that one keeps the
//! frame in its list.
//!
//! A landmark keeps the descriptor of the row it was created for, and its
//! position is the origin: neither changes when more rows join.

use vstd::prelude::*;
use crate::checkpoints::{
    lemma_owner,
    lemma_owner_unique,
    lemma_range_bounds,
    lemma_tiling,
    ExtractionStep,
    SnapshotError,
    SnapshotView,
};
use crate::graph::{
    lemma_with_frame_wf,
    lemma_with_keypoint_wf,
    lemma_with_occurrence,
    lemma_with_occurrence_wf,
    Graph,
    GraphView,
    Keyframe,
    KeyframePtr,
    KeyframeView,
    Keypoint,
    KeypointPtr,
    KeypointView,
    Position,
};
use crate::search::{best_match, lemma_no_self_match, SearchIndex};

verus! {

/// The largest distance at which two descriptors are taken for the same
/// feature.
pub const MAX_MATCH_DISTANCE: u32 = 10;

/// Where the matching stands: the graph so far, the landmark of every row
/// that has one, and the landmarks of the rows of the frame in hand.
pub struct MatchState {
    pub graph: GraphView,
    pub claims: Seq<Option<KeypointPtr>>,
    pub current: Seq<KeypointPtr>,
}

/// The landmark that is created for row `row`, before any frame is recorded
/// for it.
pub open spec fn seed(s: SnapshotView, row: int) -> KeypointView {
    KeypointView {
        position: Position::spec_origin(),
        occurs_in: Seq::empty(),
        descriptor: s.matrix.rows[row],
    }
}

impl MatchState {
    /// Before the first row: an empty graph and no row claimed.
    pub open spec fn initial(s: SnapshotView) -> MatchState {
        MatchState {
            graph: GraphView::empty(),
            claims: Seq::new(s.matrix.rows.len(), |t: int| None::<KeypointPtr>),
            current: Seq::empty(),
        }
    }

    /// Row `row` of frame `k` joins the landmark `l`.
    pub open spec fn reuse(self, row: int, k: int, l: KeypointPtr) -> MatchState {
        MatchState {
            graph: self.graph.with_occurrence(l, k as KeyframePtr),
            claims: self.claims.update(row, Some(l)),
            current: self.current.push(l),
        }
    }

    /// A new landmark takes row `row` of frame `k` and row `t` of frame `j`.
    pub open spec fn pair(self, s: SnapshotView, row: int, k: int, t: int, j: int) -> MatchState {
        let l = self.graph.keypoints.len() as KeypointPtr;
        MatchState {
            graph: self.graph.with_keypoint(
                seed(s, row).with_occurrence(k as KeyframePtr).with_occurrence(j as KeyframePtr),
            ),
            claims: self.claims.update(row, Some(l)).update(t, Some(l)),
            current: self.current.push(l),
        }
    }

    /// A new landmark takes row `row` of frame `k` alone.
    pub open spec fn fresh(self, s: SnapshotView, row: int, k: int) -> MatchState {
        let l = self.graph.keypoints.len() as KeypointPtr;
        MatchState {
            graph: self.graph.with_keypoint(seed(s, row).with_occurrence(k as KeyframePtr)),
            claims: self.claims.update(row, Some(l)),
            current: self.current.push(l),
        }
    }

    /// Row `row` of frame `k` is resolved: by its nearest row outside the
    /// frame, if that is within `limit`, else on its own.
    pub open spec fn resolve(self, s: SnapshotView, limit: u32, k: int, row: int) -> MatchState {
        match best_match(s.matrix.rows, row, s.entries[k].start, s.entries[k].end, limit) {
            Some(t) => match self.claims[t] {
                Some(l) => self.reuse(row, k, l),
                None => self.pair(s, row, k, t, s.owner(t)),
            },
            None => self.fresh(s, row, k),
        }
    }

    /// The frame node of frame `k` is appended.
    pub open spec fn close(self, s: SnapshotView, k: int) -> MatchState {
        MatchState {
            graph: self.graph.with_frame(
                KeyframeView { keypoints: self.current, index: s.entries[k].frame_id },
            ),
            claims: self.claims,
            current: Seq::empty(),
        }
    }
}

/// The state when the frames before `k` are done and `n` rows of frame `k`
/// are resolved.
pub open spec fn state_at(s: SnapshotView, limit: u32, k: int, n: int) -> MatchState
    decreases k, n,
{
    if n > 0 {
        state_at(s, limit, k, n - 1).resolve(s, limit, k, s.entries[k].start + n - 1)
    } else if k > 0 {
        state_at(s, limit, k - 1, s.span(k - 1)).close(s, k - 1)
    } else {
        MatchState::initial(s)
    }
}

/// The graph of a snapshot for a given limit.
pub open spec fn matched_graph(s: SnapshotView, limit: u32) -> GraphView {
    state_at(s, limit, s.entries.len() as int, 0).graph
}

/// `r` is what matching the snapshot gives: its graph when the snapshot is
/// valid, else its first fault.
pub open spec fn matching_outcome(
    s: SnapshotView,
    limit: u32,
    r: Result<GraphView, SnapshotError>,
) -> bool {
    match r {
        Ok(graph) => s.valid() && graph == matched_graph(s, limit),
        Err(e) => s.verdict(Err(e)),
    }
}

/// The graph of a result, in place of the result's graph.
pub open spec fn outcome_view(r: Result<Graph, SnapshotError>) -> Result<GraphView, SnapshotError> {
    match r {
        Ok(graph) => Ok(graph@),
        Err(e) => Err(e),
    }
}

/// The snapshot is valid, its matrix is rectangular, and it is small enough
/// for handles to name its rows and records.
pub open spec fn matchable(s: SnapshotView) -> bool {
    &&& s.valid()
    &&& s.matrix.rectangular()
    &&& s.matrix.rows.len() <= usize::MAX
    &&& s.entries.len() <= usize::MAX
}

/// The landmark of row `t`, if it has one, exists and lists the frame of the
/// row.
pub open spec fn claim_ok(s: SnapshotView, st: MatchState, t: int) -> bool {
    st.claims[t] matches Some(l) ==> l < st.graph.keypoints.len() && st.graph.keypoints[l as int].occurs_in.contains(
    s.owner(t) as KeyframePtr)
}

/// The node of frame `f` has the frame's sequence number and, for each row of
/// the frame, the landmark of that row.
pub open spec fn frame_ok(s: SnapshotView, st: MatchState, f: int) -> bool {
    &&& st.graph.keyframes[f].index == s.entries[f].frame_id
    &&& st.graph.keyframes[f].keypoints.len() == s.span(f)
    &&& forall|i: int|
        0 <= i < s.span(f) ==> st.claims[s.entries[f].start + i] == Some(
            #[trigger] st.graph.keyframes[f].keypoints[i],
        )
}

/// Every frame that landmark `l` lists is a frame of the snapshot.
pub open spec fn occurrences_ok(s: SnapshotView, st: MatchState, l: int) -> bool {
    forall|i: int|
        0 <= i < st.graph.keypoints[l].occurs_in.len() ==> (
        #[trigger] st.graph.keypoints[l].occurs_in[i]) < s.entries.len()
}

/// What holds of the state when the frames before `k` are done and `n` rows
/// of frame `k` are resolved.
pub open spec fn consistent(s: SnapshotView, st: MatchState, k: int, n: int) -> bool {
    &&& st.graph.wf()
    &&& st.graph.keyframes.len() == k
    &&& st.graph.keypoints.len() <= s.expected_start(k) + n
    &&& st.claims.len() == s.matrix.rows.len()
    &&& st.current.len() == n
    &&& forall|f: int| 0 <= f < k ==> #[trigger] frame_ok(s, st, f)
    &&& forall|i: int|
        0 <= i < n ==> st.claims[s.entries[k].start + i] == Some(#[trigger] st.current[i])
    &&& forall|t: int| 0 <= t < st.claims.len() ==> #[trigger] claim_ok(s, st, t)
    &&& forall|l: int| 0 <= l < st.graph.keypoints.len() ==> #[trigger] occurrences_ok(s, st, l)
}

/// A later state keeps what an earlier one had: the frame nodes, the
/// landmarks with their descriptors and positions and all their
/// occurrences, and the landmarks of the first `done` rows.
pub open spec fn extends(a: MatchState, b: MatchState, done: int) -> bool {
    &&& a.graph.keyframes.len() <= b.graph.keyframes.len()
    &&& forall|f: int|
        0 <= f < a.graph.keyframes.len() ==> #[trigger] b.graph.keyframes[f] == a.graph.keyframes[f]
    &&& a.graph.keypoints.len() <= b.graph.keypoints.len()
    &&& forall|l: int|
        0 <= l < a.graph.keypoints.len() ==> {
            &&& (#[trigger] b.graph.keypoints[l]).position == a.graph.keypoints[l].position
            &&& b.graph.keypoints[l].descriptor == a.graph.keypoints[l].descriptor
            &&& forall|f: KeyframePtr|
                a.graph.keypoints[l].occurs_in.contains(f) ==> b.graph.keypoints[l].occurs_in.contains(
                f)
        }
    &&& a.claims.len() == b.claims.len()
    &&& forall|t: int| 0 <= t < done && t < a.claims.len() ==> #[trigger] b.claims[t] == a.claims[t]
}

/// The rows before row `row` of frame `k` are claimed, each by the landmark
/// that its frame node or the frame in hand has for it.
pub proof fn lemma_done_rows_claimed(s: SnapshotView, st: MatchState, k: int, n: int, t: int)
    requires
        matchable(s),
        0 <= k < s.entries.len(),
        0 <= n <= s.span(k),
        consistent(s, st, k, n),
        0 <= t < s.entries[k].start + n,
    ensures
        st.claims[t] is Some,
{
    lemma_range_bounds(s, k);
    lemma_owner(s, t);
    let f = s.owner(t);
    if f < k {
        assert(frame_ok(s, st, f));
        let i = t - s.entries[f].start;
        assert(st.claims[s.entries[f].start + i] == Some(st.graph.keyframes[f].keypoints[i]));
    } else if f == k {
        let i = t - s.entries[k].start;
        assert(st.claims[s.entries[k].start + i] == Some(st.current[i]));
    } else {
        lemma_tiling(s, k, f);
    }
}

/// Resolving the next row keeps the state consistent and keeps what it had.
pub proof fn lemma_resolve(s: SnapshotView, limit: u32, st: MatchState, k: int, n: int)
    requires
        matchable(s),
        0 <= k < s.entries.len(),
        0 <= n < s.span(k),
        consistent(s, st, k, n),
    ensures
        consistent(s, st.resolve(s, limit, k, s.entries[k].start + n), k, n + 1),
        extends(st, st.resolve(s, limit, k, s.entries[k].start + n), s.entries[k].start + n),
{
    let row = s.entries[k].start + n;
    let start = s.entries[k].start;
    let end = s.entries[k].end;
    let next = st.resolve(s, limit, k, row);
    let g = st.graph;
    lemma_range_bounds(s, k);
    assert(s.record_ok(k));
    assert(s.owns(k, row));
    lemma_owner_unique(s, k, s.owner(row), row);
    lemma_no_self_match(s.matrix.rows, row, start, end, limit);
    let found = best_match(s.matrix.rows, row, start, end, limit);
    // The landmark that the row gets, and the rows whose claim changes.
    let l: KeypointPtr = next.current[n];
    match found {
        Some(t) => {
            assert(claim_ok(s, st, t));
            lemma_owner(s, t);
            match st.claims[t] {
                Some(joined) => {
                    lemma_with_occurrence_wf(g, joined, k as KeyframePtr);
                    lemma_with_occurrence(g.keypoints[joined as int], k as KeyframePtr);
                    assert forall|u: int| 0 <= u < next.claims.len() implies #[trigger] claim_ok(
                        s,
                        next,
                        u,
                    ) by {
                        assert(claim_ok(s, st, u));
                        if u != row {
                            if st.claims[u] is Some {
                                let lu = st.claims[u]->Some_0;
                                lemma_with_occurrence(g.keypoints[lu as int], k as KeyframePtr);
                            }
                        }
                    }
                    assert forall|m: int| 0 <= m < next.graph.keypoints.len() implies #[trigger] occurrences_ok(
                        s,
                        next,
                        m,
                    ) by {
                        assert(occurrences_ok(s, st, m));
                    }
                    assert forall|f: int| 0 <= f < k implies #[trigger] frame_ok(s, next, f) by {
                        assert(frame_ok(s, st, f));
                        lemma_tiling(s, f, k);
                    }
                    assert forall|m: int| 0 <= m < g.keypoints.len() implies {
                        &&& (#[trigger] next.graph.keypoints[m]).position == g.keypoints[m].position
                        &&& next.graph.keypoints[m].descriptor == g.keypoints[m].descriptor
                        &&& forall|f: KeyframePtr|
                            g.keypoints[m].occurs_in.contains(f)
                                ==> next.graph.keypoints[m].occurs_in.contains(f)
                    } by {
                        lemma_with_occurrence(g.keypoints[m], k as KeyframePtr);
                    }
                },
                None => {
                    let j = s.owner(t);
                    let made = seed(s, row).with_occurrence(k as KeyframePtr).with_occurrence(
                        j as KeyframePtr,
                    );
                    lemma_with_occurrence(seed(s, row), k as KeyframePtr);
                    lemma_with_occurrence(
                        seed(s, row).with_occurrence(k as KeyframePtr),
                        j as KeyframePtr,
                    );
                    lemma_with_keypoint_wf(g, made);
                    if t < row {
                        lemma_done_rows_claimed(s, st, k, n, t);
                    }
                    assert(t > row);
                    assert forall|u: int| 0 <= u < next.claims.len() implies #[trigger] claim_ok(
                        s,
                        next,
                        u,
                    ) by {
                        assert(claim_ok(s, st, u));
                    }
                    assert forall|m: int| 0 <= m < next.graph.keypoints.len() implies #[trigger] occurrences_ok(
                        s,
                        next,
                        m,
                    ) by {
                        if m < g.keypoints.len() {
                            assert(occurrences_ok(s, st, m));
                        } else {
                            assert(next.graph.keypoints[m] == made);
                        }
                    }
                    assert forall|f: int| 0 <= f < k implies #[trigger] frame_ok(s, next, f) by {
                        assert(frame_ok(s, st, f));
                        lemma_tiling(s, f, k);
                    }
                },
            }
        },
        None => {
            let made = seed(s, row).with_occurrence(k as KeyframePtr);
            lemma_with_occurrence(seed(s, row), k as KeyframePtr);
            lemma_with_keypoint_wf(g, made);
            assert forall|u: int| 0 <= u < next.claims.len() implies #[trigger] claim_ok(
                s,
                next,
                u,
            ) by {
                assert(claim_ok(s, st, u));
            }
            assert forall|m: int| 0 <= m < next.graph.keypoints.len() implies #[trigger] occurrences_ok(
                s,
                next,
                m,
            ) by {
                if m < g.keypoints.len() {
                    assert(occurrences_ok(s, st, m));
                } else {
                    assert(next.graph.keypoints[m] == made);
                }
            }
            assert forall|f: int| 0 <= f < k implies #[trigger] frame_ok(s, next, f) by {
                assert(frame_ok(s, st, f));
                lemma_tiling(s, f, k);
            }
        },
    }
}

/// Appending the frame node keeps the state consistent and keeps what it
/// had.
pub proof fn lemma_close(s: SnapshotView, st: MatchState, k: int)
    requires
        matchable(s),
        0 <= k < s.entries.len(),
        consistent(s, st, k, s.span(k)),
    ensures
        consistent(s, st.close(s, k), k + 1, 0),
        extends(st, st.close(s, k), s.entries[k].end),
        st.graph.accepts(KeyframeView { keypoints: st.current, index: s.entries[k].frame_id }),
{
    let frame = KeyframeView { keypoints: st.current, index: s.entries[k].frame_id };
    let next = st.close(s, k);
    let g = st.graph;
    let handle = k as KeyframePtr;
    lemma_range_bounds(s, k);
    assert(s.record_ok(k));
    assert forall|j: int| 0 <= j < frame.keypoints.len() implies (#[trigger] frame.keypoints[j])
        < g.keypoints.len() by {
        assert(st.claims[s.entries[k].start + j] == Some(st.current[j]));
        assert(claim_ok(s, st, s.entries[k].start + j));
    }
    if k > 0 {
        assert(frame_ok(s, st, k - 1));
    }
    lemma_with_frame_wf(g, frame);
    assert forall|m: int| 0 <= m < g.keypoints.len() implies {
        &&& (#[trigger] next.graph.keypoints[m]).position == g.keypoints[m].position
        &&& next.graph.keypoints[m].descriptor == g.keypoints[m].descriptor
        &&& forall|f: KeyframePtr|
            g.keypoints[m].occurs_in.contains(f) ==> next.graph.keypoints[m].occurs_in.contains(f)
        &&& occurrences_ok(s, next, m)
    } by {
        lemma_with_occurrence(g.keypoints[m], handle);
        assert(occurrences_ok(s, st, m));
    }
    assert forall|u: int| 0 <= u < next.claims.len() implies #[trigger] claim_ok(s, next, u) by {
        assert(claim_ok(s, st, u));
    }
    assert forall|f: int| 0 <= f < k + 1 implies #[trigger] frame_ok(s, next, f) by {
        if f < k {
            assert(frame_ok(s, st, f));
        } else {
            assert forall|i: int| 0 <= i < s.span(f) implies next.claims[s.entries[f].start + i]
                == Some(#[trigger] next.graph.keyframes[f].keypoints[i]) by {
                assert(st.claims[s.entries[k].start + i] == Some(st.current[i]));
            }
        }
    }
}

/// Every state that the matching passes through is consistent.
pub proof fn lemma_state_consistent(s: SnapshotView, limit: u32, k: int, n: int)
    requires
        matchable(s),
        0 <= k <= s.entries.len(),
        k < s.entries.len() ==> 0 <= n <= s.span(k),
        k == s.entries.len() ==> n == 0,
    ensures
        consistent(s, state_at(s, limit, k, n), k, n),
    decreases k, n,
{
    if n > 0 {
        lemma_state_consistent(s, limit, k, n - 1);
        lemma_resolve(s, limit, state_at(s, limit, k, n - 1), k, n - 1);
    } else if k > 0 {
        lemma_range_bounds(s, k - 1);
        lemma_state_consistent(s, limit, k - 1, s.span(k - 1));
        lemma_close(s, state_at(s, limit, k - 1, s.span(k - 1)), k - 1);
        if k < s.entries.len() {
            lemma_range_bounds(s, k);
        }
    } else {
        let st = MatchState::initial(s);
        assert forall|t: int| 0 <= t < st.claims.len() implies #[trigger] claim_ok(s, st, t) by {}
    }
}

/// The vector of `count` rows without a landmark.
fn no_claims(count: usize) -> (claims: Vec<Option<KeypointPtr>>)
    ensures
        claims@ == Seq::new(count as nat, |t: int| None::<KeypointPtr>),
{
    let mut claims: Vec<Option<KeypointPtr>> = Vec::new();
    let mut t: usize = 0;
    while t < count
        invariant
            t <= count,
            claims@ == Seq::new(t as nat, |u: int| None::<KeypointPtr>),
        decreases count - t,
    {
        claims.push(None);
        t += 1;
    }
    claims
}

/// A new landmark for row `row`, seen in frame `k`.
fn seed_keypoint(step: &ExtractionStep, row: usize, k: KeyframePtr) -> (keypoint: Keypoint)
    requires
        row < step@.matrix.rows.len(),
    ensures
        keypoint@ == seed(step@, row as int).with_occurrence(k),
{
    let cells: Vec<u8> = match step.descriptors().row(row) {
        Some(cells) => cells,
        None => vstd::pervasive::unreached(),
    };
    let mut keypoint = Keypoint::new(Position::origin(), cells);
    keypoint.add_correspondence(k);
    keypoint
}

/// Builds the graph of a snapshot. Two rows of different frames are taken
/// for the same feature when their descriptors differ in at most `limit`
/// bits. An invalid snapshot is refused with its first fault, before
/// anything is built.
pub fn match_frames(step: &ExtractionStep, limit: u32) -> (r: Result<Graph, SnapshotError>)
    ensures
        matching_outcome(step@, limit, outcome_view(r)),
        r matches Ok(graph) ==> graph@.wf(),
{
    match step.validate() {
        Err(e) => {
            return Err(e);
        },
        Ok(_) => {},
    }
    let ghost s = step@;
    let entries = step.keyframe_entries();
    let matrix = step.descriptors();
    let total: usize = matrix.nrows();
    let index = SearchIndex::build(matrix);
    let mut claims: Vec<Option<KeypointPtr>> = no_claims(total);
    let mut graph = Graph::new();
    let count: usize = entries.len();
    assert(matchable(s));
    let mut k: usize = 0;
    while k < count
        invariant
            s == step@,
            matchable(s),
            count == s.entries.len(),
            crate::checkpoints::entry_views(entries@) == s.entries,
            index@ == s.matrix.rows,
            index.wf(),
            k <= count,
            graph@ == state_at(s, limit, k as int, 0).graph,
            claims@ == state_at(s, limit, k as int, 0).claims,
            state_at(s, limit, k as int, 0).current == Seq::<KeypointPtr>::empty(),
        decreases count - k,
    {
        let entry = &entries[k];
        assert(entry@ == s.entries[k as int]);
        proof {
            lemma_range_bounds(s, k as int);
        }
        let start: usize = entry.descriptors_start() as usize;
        let end: usize = entry.descriptors_end() as usize;
        let mut current: Vec<KeypointPtr> = Vec::new();
        let mut row: usize = start;
        while row < end
            invariant
                s == step@,
                matchable(s),
                k < s.entries.len(),
                index@ == s.matrix.rows,
                index.wf(),
                start == s.entries[k as int].start,
                end == s.entries[k as int].end,
                end <= s.matrix.rows.len(),
                start <= row <= end,
                graph@ == state_at(s, limit, k as int, row - start).graph,
                claims@ == state_at(s, limit, k as int, row - start).claims,
                current@ == state_at(s, limit, k as int, row - start).current,
            decreases end - row,
        {
            let ghost before = state_at(s, limit, k as int, row - start);
            proof {
                lemma_state_consistent(s, limit, k as int, row - start);
                lemma_no_self_match(s.matrix.rows, row as int, start as int, end as int, limit);
                assert(state_at(s, limit, k as int, row - start + 1) == before.resolve(
                    s,
                    limit,
                    k as int,
                    row as int,
                ));
            }
            match index.best_match(row, start, end, limit) {
                Some(t) => {
                    match claims[t] {
                        Some(l) => {
                            assert(claim_ok(s, before, t as int));
                            graph.add_occurrence(l, k);
                            claims[row] = Some(l);
                            current.push(l);
                        },
                        None => {
                            let j: usize = match step.owner_of(t) {
                                Some(j) => j,
                                None => vstd::pervasive::unreached(),
                            };
                            let mut keypoint = seed_keypoint(step, row, k);
                            keypoint.add_correspondence(j);
                            proof {
                                lemma_with_occurrence(seed(s, row as int), k);
                                lemma_with_occurrence(seed(s, row as int).with_occurrence(k), j);
                            }
                            let l = graph.add_keypoint(keypoint);
                            claims[row] = Some(l);
                            claims[t] = Some(l);
                            current.push(l);
                        },
                    }
                },
                None => {
                    let keypoint = seed_keypoint(step, row, k);
                    proof {
                        lemma_with_occurrence(seed(s, row as int), k);
                    }
                    let l = graph.add_keypoint(keypoint);
                    claims[row] = Some(l);
                    current.push(l);
                },
            }
            row += 1;
        }
        proof {
            lemma_state_consistent(s, limit, k as int, s.span(k as int));
            lemma_close(s, state_at(s, limit, k as int, s.span(k as int)), k as int);
            assert(state_at(s, limit, k + 1, 0) == state_at(
                s,
                limit,
                k as int,
                s.span(k as int),
            ).close(s, k as int));
        }
        let frame = Keyframe::new(current, entry.frame_id());
        match graph.append_frame(frame) {
            Some(_) => {},
            None => {
                vstd::pervasive::unreached::<()>();
            },
        }
        k += 1;
    }
    proof {
        lemma_state_consistent(s, limit, count as int, 0);
    }
    Ok(graph)
}

/// Builds the graph of a snapshot with [`MAX_MATCH_DISTANCE`] as the limit.
pub fn process_descriptors(step: &ExtractionStep) -> (r: Result<Graph, SnapshotError>)
    ensures
        matching_outcome(step@, MAX_MATCH_DISTANCE, outcome_view(r)),
        r matches Ok(graph) ==> graph@.wf(),
{
    match_frames(step, MAX_MATCH_DISTANCE)
}

} // verus!
