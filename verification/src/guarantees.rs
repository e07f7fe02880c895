//! What the matching guarantees, proved of the graph that it defines.

use vstd::prelude::*;
use crate::checkpoints::{
    lemma_owner_unique,
    lemma_range_bounds,
    lemma_tiling,
    lemma_verdict_unique,
    SnapshotError,
    SnapshotView,
};
use crate::correspondence::{
    claim_ok,
    extends,
    frame_ok,
    lemma_close,
    lemma_resolve,
    lemma_state_consistent,
    matchable,
    matched_graph,
    matching_outcome,
    occurrences_ok,
    seed,
    state_at,
    MatchState,
};
use crate::distance::{distance, lemma_distance_symmetric};
use crate::graph::{lemma_with_occurrence, GraphView, KeyframePtr, KeypointPtr, KeypointView};
use crate::search::{best_match, candidate, is_best_match, lemma_all_masked, lemma_best_match_unique};

verus! {

/// Matching is a function of the snapshot and the limit: two runs on the same
/// input end alike, with the same graph or the same fault.
pub proof fn lemma_deterministic(
    s: SnapshotView,
    limit: u32,
    r1: Result<GraphView, SnapshotError>,
    r2: Result<GraphView, SnapshotError>,
)
    requires
        matching_outcome(s, limit, r1),
        matching_outcome(s, limit, r2),
    ensures
        r1 == r2,
{
    match (r1, r2) {
        (Ok(_), Ok(_)) => {},
        (Ok(_), Err(e)) => {
            lemma_verdict_unique(s, Ok(()), Err(e));
        },
        (Err(e), Ok(_)) => {
            lemma_verdict_unique(s, Ok(()), Err(e));
        },
        (Err(e1), Err(e2)) => {
            lemma_verdict_unique(s, Err(e1), Err(e2));
        },
    }
}

/// A snapshot without records and without rows is valid, and matching it
/// gives the graph without frames and landmarks.
pub proof fn lemma_empty_snapshot(s: SnapshotView, limit: u32)
    requires
        s.entries.len() == 0,
        s.matrix.rows.len() == 0,
    ensures
        s.valid(),
        matching_outcome(s, limit, Ok(GraphView::empty())),
        matched_graph(s, limit).keyframes.len() == 0,
        matched_graph(s, limit).keypoints.len() == 0,
{
}

/// The graph of a snapshot is well-formed. It has one frame node per record,
/// in order, with the record's sequence number and one landmark per row of
/// the record; it has at most one landmark per row of the matrix; and every
/// frame that a landmark lists is a frame of the graph.
pub proof fn lemma_graph_shape(s: SnapshotView, limit: u32)
    requires
        matchable(s),
    ensures
        matched_graph(s, limit).wf(),
        matched_graph(s, limit).keyframes.len() == s.entries.len(),
        forall|f: int|
            0 <= f < s.entries.len() ==> (#[trigger] matched_graph(s, limit).keyframes[f]).index
                == s.entries[f].frame_id && matched_graph(s, limit).keyframes[f].keypoints.len()
                == s.span(f),
        matched_graph(s, limit).keypoints.len() <= s.matrix.rows.len(),
        forall|l: int, i: int|
            0 <= l < matched_graph(s, limit).keypoints.len() && 0 <= i < matched_graph(
                s,
                limit,
            ).keypoints[l].occurs_in.len() ==> (#[trigger] matched_graph(
                s,
                limit,
            ).keypoints[l].occurs_in[i]) < matched_graph(s, limit).keyframes.len(),
{
    let last = state_at(s, limit, s.entries.len() as int, 0);
    lemma_state_consistent(s, limit, s.entries.len() as int, 0);
    assert forall|f: int| 0 <= f < s.entries.len() implies (#[trigger] last.graph.keyframes[f]).index
        == s.entries[f].frame_id && last.graph.keyframes[f].keypoints.len() == s.span(f) by {
        assert(frame_ok(s, last, f));
    }
    assert forall|l: int, i: int|
        0 <= l < last.graph.keypoints.len() && 0 <= i < last.graph.keypoints[l].occurs_in.len() implies (
    #[trigger] last.graph.keypoints[l].occurs_in[i]) < last.graph.keyframes.len() by {
        assert(occurrences_ok(s, last, l));
    }
}

/// The number of rows that are resolved when the frames before `k` are done
/// and `n` rows of frame `k` are resolved.
pub open spec fn rows_done(s: SnapshotView, k: int, n: int) -> int {
    s.expected_start(k) + n
}

/// `(k, n)` is a stage of the matching: a frame and a number of its rows, or
/// the end.
pub open spec fn stage(s: SnapshotView, k: int, n: int) -> bool {
    &&& 0 <= k <= s.entries.len()
    &&& k < s.entries.len() ==> 0 <= n <= s.span(k)
    &&& k == s.entries.len() ==> n == 0
}

proof fn lemma_extends_chain(a: MatchState, b: MatchState, c: MatchState, d1: int, d2: int)
    requires
        extends(a, b, d1),
        extends(b, c, d2),
        d1 <= d2,
    ensures
        extends(a, c, d1),
{
    assert forall|f: int| 0 <= f < a.graph.keyframes.len() implies #[trigger] c.graph.keyframes[f]
        == a.graph.keyframes[f] by {
        assert(b.graph.keyframes[f] == a.graph.keyframes[f]);
    }
    assert forall|l: int| 0 <= l < a.graph.keypoints.len() implies {
        &&& (#[trigger] c.graph.keypoints[l]).position == a.graph.keypoints[l].position
        &&& c.graph.keypoints[l].descriptor == a.graph.keypoints[l].descriptor
        &&& forall|f: KeyframePtr|
            a.graph.keypoints[l].occurs_in.contains(f) ==> c.graph.keypoints[l].occurs_in.contains(f)
    } by {
        assert(b.graph.keypoints[l].position == a.graph.keypoints[l].position);
        assert(c.graph.keypoints[l].position == b.graph.keypoints[l].position);
    }
    assert forall|t: int| 0 <= t < d1 && t < a.claims.len() implies #[trigger] c.claims[t]
        == a.claims[t] by {
        assert(b.claims[t] == a.claims[t]);
    }
}

proof fn lemma_rows_done_grow(s: SnapshotView, k: int, n: int, k2: int, n2: int)
    requires
        matchable(s),
        stage(s, k, n),
        stage(s, k2, n2),
        k < k2 || (k == k2 && n <= n2),
    ensures
        rows_done(s, k, n) <= rows_done(s, k2, n2),
{
    if k < k2 {
        assert(s.record_ok(k));
        if k + 1 < k2 {
            lemma_tiling(s, k, k2 - 1);
            lemma_range_bounds(s, k2 - 1);
        }
    }
}

/// Nothing that a stage has reached is undone by a later stage: frame nodes
/// stay as they are, landmarks keep their descriptor, their position and
/// their occurrences, and a resolved row keeps its landmark.
pub proof fn lemma_state_extends(s: SnapshotView, limit: u32, k: int, n: int, k2: int, n2: int)
    requires
        matchable(s),
        stage(s, k, n),
        stage(s, k2, n2),
        k < k2 || (k == k2 && n <= n2),
    ensures
        extends(state_at(s, limit, k, n), state_at(s, limit, k2, n2), rows_done(s, k, n)),
    decreases k2, n2,
{
    let a = state_at(s, limit, k, n);
    if k == k2 && n == n2 {
    } else if n2 > 0 {
        let b = state_at(s, limit, k2, n2 - 1);
        lemma_state_extends(s, limit, k, n, k2, n2 - 1);
        lemma_state_consistent(s, limit, k2, n2 - 1);
        lemma_resolve(s, limit, b, k2, n2 - 1);
        lemma_rows_done_grow(s, k, n, k2, n2 - 1);
        assert(s.record_ok(k2));
        lemma_extends_chain(
            a,
            b,
            state_at(s, limit, k2, n2),
            rows_done(s, k, n),
            s.entries[k2].start + n2 - 1,
        );
    } else {
        let b = state_at(s, limit, k2 - 1, s.span(k2 - 1));
        lemma_range_bounds(s, k2 - 1);
        lemma_state_extends(s, limit, k, n, k2 - 1, s.span(k2 - 1));
        lemma_state_consistent(s, limit, k2 - 1, s.span(k2 - 1));
        lemma_close(s, b, k2 - 1);
        lemma_rows_done_grow(s, k, n, k2 - 1, s.span(k2 - 1));
        assert(s.record_ok(k2 - 1));
        lemma_extends_chain(
            a,
            b,
            state_at(s, limit, k2, n2),
            rows_done(s, k, n),
            s.entries[k2 - 1].end,
        );
    }
}

/// A row that is matched to a row of an earlier frame joins the landmark of
/// that row: the node of its frame has that landmark at the row's place, and
/// the landmark lists both frames.
pub proof fn lemma_monotonic_merge(
    s: SnapshotView,
    limit: u32,
    k: int,
    n: int,
    t: int,
    l: KeypointPtr,
)
    requires
        matchable(s),
        0 <= k < s.entries.len(),
        0 <= n < s.span(k),
        best_match(
            s.matrix.rows,
            s.entries[k].start + n,
            s.entries[k].start,
            s.entries[k].end,
            limit,
        ) == Some(t),
        s.owner(t) < k,
        state_at(s, limit, k, n).claims[t] == Some(l),
    ensures
        matched_graph(s, limit).keyframes.len() == s.entries.len(),
        l < matched_graph(s, limit).keypoints.len(),
        matched_graph(s, limit).keyframes[k].keypoints[n] == l,
        matched_graph(s, limit).keypoints[l as int].occurs_in.contains(s.owner(t) as KeyframePtr),
        matched_graph(s, limit).keypoints[l as int].occurs_in.contains(k as KeyframePtr),
{
    let row = s.entries[k].start + n;
    let before = state_at(s, limit, k, n);
    let after = state_at(s, limit, k, n + 1);
    let last = state_at(s, limit, s.entries.len() as int, 0);
    lemma_range_bounds(s, k);
    assert(s.record_ok(k));
    lemma_state_consistent(s, limit, k, n);
    lemma_state_consistent(s, limit, k, n + 1);
    lemma_state_consistent(s, limit, s.entries.len() as int, 0);
    lemma_state_extends(s, limit, k, n + 1, s.entries.len() as int, 0);
    assert(after == before.reuse(row, k, l));
    assert(claim_ok(s, before, t));
    lemma_with_occurrence(before.graph.keypoints[l as int], k as KeyframePtr);
    assert(after.claims[row] == Some(l));
    assert(last.claims[row] == after.claims[row]);
    assert(frame_ok(s, last, k));
    assert(last.claims[s.entries[k].start + n] == Some(last.graph.keyframes[k].keypoints[n]));
    assert(after.graph.keypoints[l as int].occurs_in.contains(k as KeyframePtr));
    assert(after.graph.keypoints[l as int].occurs_in.contains(s.owner(t) as KeyframePtr));
    assert(last.graph.keypoints[l as int].position == after.graph.keypoints[l as int].position);
}

/// The state after `n` rows of a snapshot with one record: one landmark per
/// row, seen in the only frame.
pub open spec fn lone_state(s: SnapshotView, n: int) -> MatchState {
    MatchState {
        graph: GraphView {
            keyframes: Seq::empty(),
            keypoints: Seq::new(n as nat, |i: int| seed(s, i).with_occurrence(0)),
        },
        claims: Seq::new(
            s.matrix.rows.len(),
            |t: int|
                if t < n {
                    Some(t as KeypointPtr)
                } else {
                    None
                },
        ),
        current: Seq::new(n as nat, |i: int| i as KeypointPtr),
    }
}

proof fn lemma_lone_rows(s: SnapshotView, limit: u32, n: int)
    requires
        matchable(s),
        s.entries.len() == 1,
        0 <= n <= s.matrix.rows.len(),
    ensures
        state_at(s, limit, 0, n) == lone_state(s, n),
    decreases n,
{
    assert(s.record_ok(0));
    let want = lone_state(s, n);
    let got = state_at(s, limit, 0, n);
    if n > 0 {
        lemma_lone_rows(s, limit, n - 1);
        lemma_all_masked(s.matrix.rows, n - 1, s.entries[0].start, s.entries[0].end, limit);
        let before = lone_state(s, n - 1);
        assert(got == before.fresh(s, n - 1, 0));
        assert(got.graph.keypoints =~= want.graph.keypoints);
        assert(got.claims =~= want.claims);
        assert(got.current =~= want.current);
    } else {
        assert(got.graph.keypoints =~= want.graph.keypoints);
        assert(got.claims =~= want.claims);
        assert(got.current =~= want.current);
    }
}

/// A snapshot with one record has one frame node and one new landmark per
/// row, each seen in that frame only.
pub proof fn lemma_single_frame(s: SnapshotView, limit: u32)
    requires
        matchable(s),
        s.entries.len() == 1,
    ensures
        matched_graph(s, limit).keyframes.len() == 1,
        matched_graph(s, limit).keyframes[0].index == s.entries[0].frame_id,
        matched_graph(s, limit).keyframes[0].keypoints.len() == s.matrix.rows.len(),
        matched_graph(s, limit).keypoints.len() == s.matrix.rows.len(),
        forall|i: int|
            0 <= i < s.matrix.rows.len() ==> #[trigger] matched_graph(
                s,
                limit,
            ).keyframes[0].keypoints[i] == i,
        forall|i: int|
            0 <= i < s.matrix.rows.len() ==> (#[trigger] matched_graph(s, limit).keypoints[i])
                == (KeypointView { occurs_in: seq![0usize], ..seed(s, i) }),
{
    assert(s.record_ok(0));
    let rows = s.matrix.rows.len() as int;
    lemma_lone_rows(s, limit, rows);
    let st = lone_state(s, rows);
    let g = matched_graph(s, limit);
    assert(g == st.close(s, 0).graph);
    assert forall|i: int| 0 <= i < rows implies (#[trigger] g.keypoints[i]) == (KeypointView {
        occurs_in: seq![0usize],
        ..seed(s, i)
    }) by {
        assert(seed(s, i).with_occurrence(0).occurs_in =~= seq![0usize]);
        assert(seq![0usize][0] == 0usize);
        assert(seq![0usize].contains(0usize));
    }
}

/// Two frames of one row each: the two rows share one landmark exactly when
/// their descriptors differ in at most `limit` bits, and otherwise each has
/// its own.
pub proof fn lemma_threshold(s: SnapshotView, limit: u32)
    requires
        matchable(s),
        s.entries.len() == 2,
        s.span(0) == 1,
        s.span(1) == 1,
    ensures
        distance(s.matrix.rows[0], s.matrix.rows[1]) <= limit ==> {
            &&& matched_graph(s, limit).keypoints.len() == 1
            &&& matched_graph(s, limit).keyframes[0].keypoints == seq![0usize]
            &&& matched_graph(s, limit).keyframes[1].keypoints == seq![0usize]
            &&& matched_graph(s, limit).keypoints[0].occurs_in == seq![0usize, 1usize]
        },
        distance(s.matrix.rows[0], s.matrix.rows[1]) > limit ==> {
            &&& matched_graph(s, limit).keypoints.len() == 2
            &&& matched_graph(s, limit).keyframes[0].keypoints == seq![0usize]
            &&& matched_graph(s, limit).keyframes[1].keypoints == seq![1usize]
            &&& matched_graph(s, limit).keypoints[0].occurs_in == seq![0usize]
            &&& matched_graph(s, limit).keypoints[1].occurs_in == seq![1usize]
        },
{
    let rows = s.matrix.rows;
    assert(s.record_ok(0));
    assert(s.record_ok(1));
    assert(rows.len() == 2);
    assert(rows[0].len() == s.matrix.width);
    assert(rows[1].len() == s.matrix.width);
    lemma_distance_symmetric(rows[0], rows[1], rows[0].len() as int);
    lemma_pair_of_rows(rows, limit);
    assert(s.owns(1, 1));
    lemma_owner_unique(s, 1, s.owner(1), 1);
    let s0 = state_at(s, limit, 0, 0);
    let s1 = state_at(s, limit, 0, 1);
    let s2 = state_at(s, limit, 1, 0);
    let s3 = state_at(s, limit, 1, 1);
    let s4 = state_at(s, limit, 2, 0);
    assert(s0 == MatchState::initial(s));
    assert(s1 == s0.resolve(s, limit, 0, 0));
    assert(s2 == s1.close(s, 0));
    assert(s3 == s2.resolve(s, limit, 1, 1));
    assert(s4 == s3.close(s, 1));
    let g = matched_graph(s, limit);
    if distance(rows[0], rows[1]) <= limit {
        assert(s1 == s0.pair(s, 0, 0, 1, 1));
        let made = seed(s, 0).with_occurrence(0).with_occurrence(1);
        assert(seed(s, 0).with_occurrence(0).occurs_in =~= seq![0usize]);
        assert(seq![0usize][0] == 0usize);
        assert(!seq![0usize].contains(1usize));
        assert(made.occurs_in =~= seq![0usize, 1usize]);
        assert(seq![0usize, 1usize][0] == 0usize);
        assert(seq![0usize, 1usize][1] == 1usize);
        assert(s1.graph.keypoints =~= seq![made]);
        assert(s1.current =~= seq![0usize]);
        assert(s1.current[0] == 0usize);
        assert(s1.current.contains(0usize));
        assert(s2.graph.keypoints =~= seq![made]);
        assert(s2.claims[0] == Some(0usize));
        assert(s3 == s2.reuse(1, 1, 0usize));
        assert(s3.graph.keypoints =~= seq![made]);
        assert(s3.current =~= seq![0usize]);
        assert(s3.current[0] == 0usize);
        assert(s3.current.contains(0usize));
        assert(g.keypoints =~= seq![made]);
        assert(g.keyframes[0].keypoints =~= seq![0usize]);
        assert(g.keyframes[1].keypoints =~= seq![0usize]);
    } else {
        assert(s1 == s0.fresh(s, 0, 0));
        let first = seed(s, 0).with_occurrence(0);
        let second = seed(s, 1).with_occurrence(1);
        assert(first.occurs_in =~= seq![0usize]);
        assert(second.occurs_in =~= seq![1usize]);
        assert(seq![0usize][0] == 0usize);
        assert(seq![1usize][0] == 1usize);
        assert(s1.graph.keypoints =~= seq![first]);
        assert(s1.current =~= seq![0usize]);
        assert(s1.current[0] == 0usize);
        assert(s1.current.contains(0usize));
        assert(!s1.current.contains(1usize));
        assert(s2.graph.keypoints =~= seq![first]);
        assert(s3 == s2.fresh(s, 1, 1));
        assert(s3.graph.keypoints =~= seq![first, second]);
        assert(s3.current =~= seq![1usize]);
        assert(s3.current[0] == 1usize);
        assert(s3.current.contains(1usize));
        assert(!s3.current.contains(0usize));
        assert(g.keypoints =~= seq![first, second]);
        assert(g.keyframes[0].keypoints =~= seq![0usize]);
        assert(g.keyframes[1].keypoints =~= seq![1usize]);
    }
}

/// Of two rows in two frames each is the other's match when they are within
/// the limit, and neither has a match when they are not.
proof fn lemma_pair_of_rows(rows: Seq<Seq<u8>>, limit: u32)
    requires
        rows.len() == 2,
        distance(rows[0], rows[1]) == distance(rows[1], rows[0]),
    ensures
        distance(rows[0], rows[1]) <= limit ==> best_match(rows, 0, 0, 1, limit) == Some(1int)
            && best_match(rows, 1, 1, 2, limit) == Some(0int),
        distance(rows[0], rows[1]) > limit ==> best_match(rows, 0, 0, 1, limit) is None
            && best_match(rows, 1, 1, 2, limit) is None,
{
    if distance(rows[0], rows[1]) <= limit {
        assert(is_best_match(rows, 0, 0, 1, limit, 1));
        assert(is_best_match(rows, 1, 1, 2, limit, 0));
        let a = choose|t: int| is_best_match(rows, 0, 0, 1, limit, t);
        let b = choose|t: int| is_best_match(rows, 1, 1, 2, limit, t);
        lemma_best_match_unique(rows, 0, 0, 1, limit, a, 1);
        lemma_best_match_unique(rows, 1, 1, 2, limit, b, 0);
    } else {
        assert forall|t: int| !is_best_match(rows, 0, 0, 1, limit, t) by {
            if candidate(rows, 0, 1, t) {
                assert(t == 1);
            }
        }
        assert forall|t: int| !is_best_match(rows, 1, 1, 2, limit, t) by {
            if candidate(rows, 1, 2, t) {
                assert(t == 0);
            }
        }
    }
}

} // verus!
