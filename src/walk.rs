//! The walk that aligns a chunk's distances with the raw line buffer, as
//! spec functions, with the laws it obeys.
use vstd::prelude::*;
use crate::{CTX_DISTANCE, THRESHOLD};
use crate::context::{before_spec, texts, Anomaly, AnomalyContext, BufferedLine, ContextModel};

verus! {


/// The value of an optional anomaly.
pub open spec fn opt_model(o: Option<AnomalyContext>) -> Option<ContextModel> {
    match o {
        Some(a) => Some(a@),
        None => None,
    }
}

/// The values of a queue of anomalies.
pub open spec fn models(v: Seq<AnomalyContext>) -> Seq<ContextModel> {
    v.map_values(|a: AnomalyContext| a@)
}

/// Adds `line` to the after-context of the open anomaly, if any; an anomaly
/// whose after-context is full is moved to `done`.
pub open spec fn extend_after(
    current: Option<ContextModel>,
    done: Seq<ContextModel>,
    line: String,
) -> (Option<ContextModel>, Seq<ContextModel>) {
    match current {
        None => (None, done),
        Some(c) => {
            let c2 = ContextModel { before: c.before, anomaly: c.anomaly, after: c.after.push(line) };
            if c2.after.len() >= CTX_DISTANCE {
                (None, done.push(c2))
            } else {
                (Some(c2), done)
            }
        },
    }
}

/// The state of the walk that aligns a chunk's distances with the buffer.
pub struct WalkState {
    pub current: Option<ContextModel>,
    pub done: Seq<ContextModel>,
    /// The first buffer index not yet used as context.
    pub last_context_pos: int,
    /// The index of the next target to find in the buffer.
    pub target: int,
}

/// One step of the walk, over the buffer line at `p`.
///
/// The line of the next target opens a new anomaly when its distance is
/// above the threshold (the open one is completed first); any other line
/// extends the open anomaly's after-context.
pub open spec fn walk_step(
    s: WalkState,
    p: int,
    buffer: Seq<BufferedLine>,
    left_overs: Seq<String>,
    distances: Seq<u32>,
    coords: Seq<usize>,
) -> WalkState {
    let b = buffer[p];
    let is_target = 0 <= s.target < coords.len() && b.coord == coords[s.target];
    let next_target = if is_target { s.target + 1 } else { s.target };
    if is_target && distances[s.target] > THRESHOLD {
        let done = match s.current {
            Some(c) => s.done.push(c),
            None => s.done,
        };
        let opened = ContextModel {
            before: before_spec(p, s.last_context_pos, buffer, left_overs),
            anomaly: Anomaly { distance: distances[s.target], pos: b.line_number, line: b.line },
            after: Seq::empty(),
        };
        WalkState { current: Some(opened), done, last_context_pos: p + 1, target: next_target }
    } else {
        let (c, d) = extend_after(s.current, s.done, b.line);
        WalkState {
            current: c,
            done: d,
            last_context_pos: if s.current is Some { p + 1 } else { s.last_context_pos },
            target: next_target,
        }
    }
}

/// The walk from buffer index `p` on, until every target is found or the
/// buffer ends; gives the final state and the index where it stopped.
pub open spec fn search_walk(
    s: WalkState,
    p: int,
    buffer: Seq<BufferedLine>,
    left_overs: Seq<String>,
    distances: Seq<u32>,
    coords: Seq<usize>,
) -> (WalkState, int)
    decreases buffer.len() - p,
{
    if p < 0 || p >= buffer.len() || s.target >= coords.len() {
        (s, p)
    } else {
        search_walk(
            walk_step(s, p, buffer, left_overs, distances, coords),
            p + 1,
            buffer,
            left_overs,
            distances,
            coords,
        )
    }
}

/// After the walk, the open anomaly takes the rest of the buffer, from `q`,
/// as after-context, until it is full.
pub open spec fn sweep(
    current: Option<ContextModel>,
    done: Seq<ContextModel>,
    buffer: Seq<BufferedLine>,
    q: int,
) -> (Option<ContextModel>, Seq<ContextModel>)
    decreases buffer.len() - q,
{
    if q < 0 || q >= buffer.len() || current is None {
        (current, done)
    } else {
        let (c, d) = extend_after(current, done, buffer[q].line);
        sweep(c, d, buffer, q + 1)
    }
}

/// The buffer index where the sweep from `q` stops: the end of the buffer,
/// or the line after the one that completed the open anomaly.
pub open spec fn sweep_end(
    current: Option<ContextModel>,
    done: Seq<ContextModel>,
    buffer: Seq<BufferedLine>,
    q: int,
) -> int
    decreases buffer.len() - q,
{
    if q < 0 || q >= buffer.len() || current is None {
        q
    } else {
        let (c, d) = extend_after(current, done, buffer[q].line);
        sweep_end(c, d, buffer, q + 1)
    }
}

/// The sweep gives the open anomaly exactly the buffer lines from `q` to
/// where it stops as further after-context; the record is then either still
/// open or the last completed one.
pub proof fn lemma_sweep_after(
    current: Option<ContextModel>,
    done: Seq<ContextModel>,
    buffer: Seq<BufferedLine>,
    q: int,
)
    requires
        0 <= q <= buffer.len(),
        current is Some,
    ensures
        ({
            let (c, d) = sweep(current, done, buffer, q);
            let e = sweep_end(current, done, buffer, q);
            let rec = if c is Some { c->0 } else { d.last() };
            &&& q <= e <= buffer.len()
            &&& c is None ==> d.len() > 0
            &&& rec.anomaly == current->0.anomaly
            &&& rec.before == current->0.before
            &&& rec.after == current->0.after + texts(buffer.subrange(q, e))
        }),
    decreases buffer.len() - q,
{
    let o = current->0;
    if q == buffer.len() {
        assert(texts(buffer.subrange(q, q)) =~= Seq::<String>::empty());
        assert(o.after + texts(buffer.subrange(q, q)) =~= o.after);
    } else {
        let (c2, d2) = extend_after(current, done, buffer[q].line);
        if c2 is Some {
            lemma_sweep_after(c2, d2, buffer, q + 1);
            let e = sweep_end(current, done, buffer, q);
            assert(texts(buffer.subrange(q, e)) =~= seq![buffer[q].line] + texts(buffer.subrange(q + 1, e)));
            assert(o.after + texts(buffer.subrange(q, e)) =~= o.after.push(buffer[q].line) + texts(buffer.subrange(q + 1, e)));
        } else {
            assert(texts(buffer.subrange(q, q + 1)) =~= seq![buffer[q].line]);
            assert(o.after + texts(buffer.subrange(q, q + 1)) =~= o.after.push(buffer[q].line));
        }
    }
}

/// The first buffer index kept as left-over by a reset at `left_overs_pos`:
/// at most the last `CTX_DISTANCE` lines, and none below `left_overs_pos`.
pub open spec fn left_overs_start(len: int, left_overs_pos: int) -> int {
    let min_pos = if len < CTX_DISTANCE { 0 } else { len - CTX_DISTANCE };
    if left_overs_pos > min_pos { left_overs_pos } else { min_pos }
}

/// An anomaly record within bounds: at most `CTX_DISTANCE` lines on each
/// side, and a distance above the threshold.
pub open spec fn bounded(c: ContextModel) -> bool {
    &&& c.before.len() <= CTX_DISTANCE
    &&& c.after.len() <= CTX_DISTANCE
    &&& c.anomaly.distance > THRESHOLD
}

/// Every record of `done` is within bounds, and the open one, if any, has
/// room left in its after-context.
pub open spec fn sound(current: Option<ContextModel>, done: Seq<ContextModel>) -> bool {
    &&& forall|i: int| 0 <= i < done.len() ==> #[trigger] bounded(done[i])
    &&& match current {
        Some(c) => bounded(c) && c.after.len() < CTX_DISTANCE,
        None => true,
    }
}

/// A before-context never holds more than `CTX_DISTANCE` lines.
pub proof fn lemma_before_len(
    buffer_pos: int,
    last_context_pos: int,
    buffer: Seq<BufferedLine>,
    left_overs: Seq<String>,
)
    requires
        0 <= last_context_pos <= buffer_pos <= buffer.len(),
    ensures
        before_spec(buffer_pos, last_context_pos, buffer, left_overs).len() <= CTX_DISTANCE,
{
}

/// Extending the after-context keeps every record within bounds.
pub proof fn lemma_extend_sound(current: Option<ContextModel>, done: Seq<ContextModel>, line: String)
    requires
        sound(current, done),
    ensures
        sound(extend_after(current, done, line).0, extend_after(current, done, line).1),
{
    let (c, d) = extend_after(current, done, line);
    assert forall|i: int| 0 <= i < d.len() implies #[trigger] bounded(d[i]) by {
        if i < done.len() {
            assert(bounded(done[i]));
        }
    }
}

/// The walk keeps every record within bounds: at most `CTX_DISTANCE` lines
/// of context on each side, and a distance above the threshold.
pub proof fn lemma_walk_sound(
    s: WalkState,
    p: int,
    buffer: Seq<BufferedLine>,
    left_overs: Seq<String>,
    distances: Seq<u32>,
    coords: Seq<usize>,
)
    requires
        sound(s.current, s.done),
        0 <= s.last_context_pos <= p <= buffer.len(),
        0 <= s.target,
        distances.len() == coords.len(),
    ensures
        ({
            let (w, q) = search_walk(s, p, buffer, left_overs, distances, coords);
            &&& sound(w.current, w.done)
            &&& 0 <= w.last_context_pos <= q <= buffer.len()
        }),
    decreases buffer.len() - p,
{
    if p < buffer.len() && s.target < coords.len() {
        let next = walk_step(s, p, buffer, left_overs, distances, coords);
        let b = buffer[p];
        if b.coord == coords[s.target] && distances[s.target] > THRESHOLD {
            lemma_before_len(p, s.last_context_pos, buffer, left_overs);
            assert forall|i: int| 0 <= i < next.done.len() implies #[trigger] bounded(next.done[i]) by {
                if i < s.done.len() {
                    assert(bounded(s.done[i]));
                }
            }
        } else {
            lemma_extend_sound(s.current, s.done, b.line);
        }
        lemma_walk_sound(next, p + 1, buffer, left_overs, distances, coords);
    }
}

/// The final sweep keeps every record within bounds.
pub proof fn lemma_sweep_sound(
    current: Option<ContextModel>,
    done: Seq<ContextModel>,
    buffer: Seq<BufferedLine>,
    q: int,
)
    requires
        sound(current, done),
    ensures
        sound(sweep(current, done, buffer, q).0, sweep(current, done, buffer, q).1),
    decreases buffer.len() - q,
{
    if !(q < 0 || q >= buffer.len() || current is None) {
        lemma_extend_sound(current, done, buffer[q].line);
        let (c, d) = extend_after(current, done, buffer[q].line);
        lemma_sweep_sound(c, d, buffer, q + 1);
    }
}

/// The records of `done`, then the open one, are in strictly increasing
/// source position.
pub open spec fn pos_sorted(current: Option<ContextModel>, done: Seq<ContextModel>) -> bool {
    &&& forall|i: int, j: int|
        0 <= i < j < done.len() ==> #[trigger] done[i].anomaly.pos < #[trigger] done[j].anomaly.pos
    &&& match current {
        Some(c) => forall|i: int| 0 <= i < done.len() ==> #[trigger] done[i].anomaly.pos < c.anomaly.pos,
        None => true,
    }
}

/// Every line of `buffer` from `p` on comes after each record, in source
/// position.
pub open spec fn lines_follow(
    current: Option<ContextModel>,
    done: Seq<ContextModel>,
    buffer: Seq<BufferedLine>,
    p: int,
) -> bool {
    &&& forall|q: int, i: int|
        p <= q < buffer.len() && 0 <= i < done.len() ==> #[trigger] done[i].anomaly.pos
            < #[trigger] buffer[q].line_number
    &&& match current {
        Some(c) => forall|q: int| p <= q < buffer.len() ==> c.anomaly.pos < #[trigger] buffer[q].line_number,
        None => true,
    }
}

/// The source positions of the buffer's lines are strictly increasing.
pub open spec fn numbers_increase(buffer: Seq<BufferedLine>) -> bool {
    forall|p: int, q: int|
        0 <= p < q < buffer.len() ==> #[trigger] buffer[p].line_number < #[trigger] buffer[q].line_number
}

/// Extending the after-context keeps the records in source order and
/// changes no record's anomaly.
pub proof fn lemma_extend_sorted(current: Option<ContextModel>, done: Seq<ContextModel>, line: String)
    requires
        pos_sorted(current, done),
    ensures
        pos_sorted(extend_after(current, done, line).0, extend_after(current, done, line).1),
        forall|i: int| 0 <= i < extend_after(current, done, line).1.len() ==> (#[trigger] extend_after(current, done, line).1[i] == done[i] || (current is Some && extend_after(current, done, line).1[i].anomaly == current->0.anomaly)),
        extend_after(current, done, line).0 is Some ==> extend_after(current, done, line).0->0.anomaly == current->0.anomaly,
        extend_after(current, done, line).1.len() >= done.len(),
{
}

/// When the buffer's source positions increase and follow every record,
/// the walk leaves the records in strictly increasing source position.
pub proof fn lemma_walk_sorted(
    s: WalkState,
    p: int,
    buffer: Seq<BufferedLine>,
    left_overs: Seq<String>,
    distances: Seq<u32>,
    coords: Seq<usize>,
)
    requires
        pos_sorted(s.current, s.done),
        lines_follow(s.current, s.done, buffer, p),
        numbers_increase(buffer),
        0 <= p,
        0 <= s.target,
        distances.len() == coords.len(),
    ensures
        ({
            let (w, q) = search_walk(s, p, buffer, left_overs, distances, coords);
            pos_sorted(w.current, w.done)
        }),
    decreases buffer.len() - p,
{
    if p < buffer.len() && s.target < coords.len() {
        let next = walk_step(s, p, buffer, left_overs, distances, coords);
        let b = buffer[p];
        if b.coord == coords[s.target] && distances[s.target] > THRESHOLD {
            let c = next.current->0;
            assert forall|i: int| 0 <= i < next.done.len() implies #[trigger] next.done[i].anomaly.pos < c.anomaly.pos by {
                if i < s.done.len() {
                    assert(s.done[i].anomaly.pos < buffer[p].line_number);
                }
            }
            assert forall|i: int, j: int| 0 <= i < j < next.done.len() implies #[trigger] next.done[i].anomaly.pos < #[trigger] next.done[j].anomaly.pos by {
                if j < s.done.len() {
                } else {
                    assert(next.done[j] == s.current->0);
                }
            }
            assert forall|q: int| p + 1 <= q < buffer.len() implies c.anomaly.pos < #[trigger] buffer[q].line_number by {
                assert(buffer[p].line_number < buffer[q].line_number);
            }
            assert forall|q: int, i: int| p + 1 <= q < buffer.len() && 0 <= i < next.done.len() implies #[trigger] next.done[i].anomaly.pos < #[trigger] buffer[q].line_number by {
                assert(buffer[p].line_number < buffer[q].line_number);
                if i < s.done.len() {
                    assert(s.done[i].anomaly.pos < buffer[p].line_number);
                }
            }
        } else {
            lemma_extend_sorted(s.current, s.done, b.line);
            assert forall|q: int, i: int| p + 1 <= q < buffer.len() && 0 <= i < next.done.len() implies #[trigger] next.done[i].anomaly.pos < #[trigger] buffer[q].line_number by {
                if i < s.done.len() {
                    assert(next.done[i] == s.done[i]);
                    assert(s.done[i].anomaly.pos < buffer[q].line_number);
                } else {
                    assert(s.current->0.anomaly.pos < buffer[q].line_number);
                }
            }
        }
        lemma_walk_sorted(next, p + 1, buffer, left_overs, distances, coords);
    }
}

/// The final sweep keeps the records in source order.
pub proof fn lemma_sweep_sorted(
    current: Option<ContextModel>,
    done: Seq<ContextModel>,
    buffer: Seq<BufferedLine>,
    q: int,
)
    requires
        pos_sorted(current, done),
    ensures
        pos_sorted(sweep(current, done, buffer, q).0, sweep(current, done, buffer, q).1),
    decreases buffer.len() - q,
{
    if !(q < 0 || q >= buffer.len() || current is None) {
        lemma_extend_sorted(current, done, buffer[q].line);
        let (c, d) = extend_after(current, done, buffer[q].line);
        lemma_sweep_sorted(c, d, buffer, q + 1);
    }
}

/// Whether some buffered line at or after index `p` has coordinate `c`.
pub open spec fn located(buffer: Seq<BufferedLine>, c: usize, p: int) -> bool {
    exists|q: int| p <= q < buffer.len() && #[trigger] buffer[q].coord == c
}

/// Every target from `t` on stands in the buffer at or after index `p`.
pub open spec fn targets_ahead(buffer: Seq<BufferedLine>, coords: Seq<usize>, t: int, p: int) -> bool {
    forall|j: int| t <= j < coords.len() ==> #[trigger] located(buffer, coords[j], p)
}

/// The buffer's coordinates strictly increase, and so do the targets'.
pub open spec fn coords_increase(buffer: Seq<BufferedLine>, coords: Seq<usize>) -> bool {
    &&& forall|p: int, q: int| 0 <= p < q < buffer.len() ==> #[trigger] buffer[p].coord < #[trigger] buffer[q].coord
    &&& forall|i: int, j: int| 0 <= i < j < coords.len() ==> #[trigger] coords[i] < #[trigger] coords[j]
}

/// When the targets stand in the buffer in order, the walk finds them all.
pub proof fn lemma_walk_finds_all(
    s: WalkState,
    p: int,
    buffer: Seq<BufferedLine>,
    left_overs: Seq<String>,
    distances: Seq<u32>,
    coords: Seq<usize>,
)
    requires
        coords_increase(buffer, coords),
        targets_ahead(buffer, coords, s.target, p),
        0 <= p <= buffer.len(),
        0 <= s.target <= coords.len(),
        distances.len() == coords.len(),
    ensures
        search_walk(s, p, buffer, left_overs, distances, coords).0.target == coords.len(),
    decreases buffer.len() - p,
{
    if p == buffer.len() {
        if s.target < coords.len() {
            assert(located(buffer, coords[s.target], p));
        }
    } else if s.target < coords.len() {
        let next = walk_step(s, p, buffer, left_overs, distances, coords);
        assert(located(buffer, coords[s.target], p));
        let qt = choose|q: int| p <= q < buffer.len() && #[trigger] buffer[q].coord == coords[s.target];
        assert forall|j: int| next.target <= j < coords.len() implies #[trigger] located(buffer, coords[j], p + 1) by {
            assert(located(buffer, coords[j], p));
            let qj = choose|q: int| p <= q < buffer.len() && #[trigger] buffer[q].coord == coords[j];
            if qj == p {
                if j > s.target {
                    assert(coords[s.target] < coords[j]);
                    if qt > p {
                        assert(buffer[p].coord < buffer[qt].coord);
                    }
                }
            }
            assert(p + 1 <= qj);
        }
        assert(targets_ahead(buffer, coords, next.target, p + 1));
        lemma_walk_finds_all(next, p + 1, buffer, left_overs, distances, coords);
    }
}

/// The number of the first `k` distances that are above the threshold.
pub open spec fn count_above(distances: Seq<u32>, k: int) -> nat
    decreases k,
{
    if k <= 0 {
        0
    } else {
        count_above(distances, k - 1) + if distances[k - 1] > THRESHOLD { 1nat } else { 0nat }
    }
}

/// The number of records held: completed ones and the open one.
pub open spec fn records(current: Option<ContextModel>, done: Seq<ContextModel>) -> nat {
    done.len() + if current is Some { 1nat } else { 0nat }
}

/// Each step of the walk opens one record at each target above the
/// threshold, and no other.
pub proof fn lemma_walk_counts(
    s: WalkState,
    p: int,
    buffer: Seq<BufferedLine>,
    left_overs: Seq<String>,
    distances: Seq<u32>,
    coords: Seq<usize>,
)
    requires
        0 <= s.target <= coords.len(),
        distances.len() == coords.len(),
    ensures
        ({
            let (w, q) = search_walk(s, p, buffer, left_overs, distances, coords);
            &&& s.target <= w.target <= coords.len()
            &&& records(w.current, w.done) + count_above(distances, s.target)
                == records(s.current, s.done) + count_above(distances, w.target)
        }),
    decreases buffer.len() - p,
{
    if !(p < 0 || p >= buffer.len() || s.target >= coords.len()) {
        let next = walk_step(s, p, buffer, left_overs, distances, coords);
        lemma_walk_counts(next, p + 1, buffer, left_overs, distances, coords);
    }
}

/// The final sweep completes records but opens none.
pub proof fn lemma_sweep_counts(
    current: Option<ContextModel>,
    done: Seq<ContextModel>,
    buffer: Seq<BufferedLine>,
    q: int,
)
    ensures
        records(sweep(current, done, buffer, q).0, sweep(current, done, buffer, q).1)
            == records(current, done),
    decreases buffer.len() - q,
{
    if !(q < 0 || q >= buffer.len() || current is None) {
        let (c, d) = extend_after(current, done, buffer[q].line);
        lemma_sweep_counts(c, d, buffer, q + 1);
    }
}


/// The anomalies of the records held, completed ones first, in order.
pub open spec fn anomalies_of(current: Option<ContextModel>, done: Seq<ContextModel>) -> Seq<Anomaly> {
    let a = done.map_values(|c: ContextModel| c.anomaly);
    match current {
        Some(c) => a.push(c.anomaly),
        None => a,
    }
}

/// The buffered line with coordinate `c`.
pub open spec fn line_of(buffer: Seq<BufferedLine>, c: usize) -> BufferedLine {
    buffer[choose|q: int| 0 <= q < buffer.len() && buffer[q].coord == c]
}

/// The anomalies due to the first `k` targets: one for each target whose
/// distance is above the threshold, with that distance and the position and
/// text of the target's line.
pub open spec fn flagged(
    buffer: Seq<BufferedLine>,
    distances: Seq<u32>,
    coords: Seq<usize>,
    k: int,
) -> Seq<Anomaly>
    decreases k,
{
    if k <= 0 {
        Seq::empty()
    } else {
        let prev = flagged(buffer, distances, coords, k - 1);
        if distances[k - 1] > THRESHOLD {
            let b = line_of(buffer, coords[k - 1]);
            prev.push(Anomaly { distance: distances[k - 1], pos: b.line_number, line: b.line })
        } else {
            prev
        }
    }
}

/// Extending the after-context changes no record's anomaly.
pub proof fn lemma_extend_anomalies(current: Option<ContextModel>, done: Seq<ContextModel>, line: String)
    ensures
        anomalies_of(extend_after(current, done, line).0, extend_after(current, done, line).1)
            == anomalies_of(current, done),
{
    let (c, d) = extend_after(current, done, line);
    assert(anomalies_of(c, d) =~= anomalies_of(current, done));
}

/// The walk opens, in order, exactly the anomalies of the targets above the
/// threshold that it finds.
pub proof fn lemma_walk_anomalies(
    s: WalkState,
    p: int,
    buffer: Seq<BufferedLine>,
    left_overs: Seq<String>,
    distances: Seq<u32>,
    coords: Seq<usize>,
    base: Seq<Anomaly>,
)
    requires
        coords_increase(buffer, coords),
        0 <= p,
        0 <= s.target <= coords.len(),
        distances.len() == coords.len(),
        anomalies_of(s.current, s.done) == base + flagged(buffer, distances, coords, s.target),
    ensures
        ({
            let (w, q) = search_walk(s, p, buffer, left_overs, distances, coords);
            anomalies_of(w.current, w.done) == base + flagged(buffer, distances, coords, w.target)
        }),
    decreases buffer.len() - p,
{
    if p < buffer.len() && s.target < coords.len() {
        let next = walk_step(s, p, buffer, left_overs, distances, coords);
        let b = buffer[p];
        let t = s.target;
        if b.coord == coords[t] {
            let q = choose|q: int| 0 <= q < buffer.len() && buffer[q].coord == coords[t];
            if q < p {
                assert(buffer[q].coord < buffer[p].coord);
            } else if q > p {
                assert(buffer[p].coord < buffer[q].coord);
            }
            assert(line_of(buffer, coords[t]) == b);
            if distances[t] > THRESHOLD {
                let prev = base + flagged(buffer, distances, coords, t);
                assert(anomalies_of(next.current, next.done) =~= prev.push(next.current->0.anomaly));
                assert(base + flagged(buffer, distances, coords, t + 1) =~= prev.push(next.current->0.anomaly));
            } else {
                lemma_extend_anomalies(s.current, s.done, b.line);
            }
        } else {
            lemma_extend_anomalies(s.current, s.done, b.line);
        }
        lemma_walk_anomalies(next, p + 1, buffer, left_overs, distances, coords, base);
    }
}

/// The final sweep changes no record's anomaly.
pub proof fn lemma_sweep_anomalies(
    current: Option<ContextModel>,
    done: Seq<ContextModel>,
    buffer: Seq<BufferedLine>,
    q: int,
)
    ensures
        anomalies_of(sweep(current, done, buffer, q).0, sweep(current, done, buffer, q).1)
            == anomalies_of(current, done),
    decreases buffer.len() - q,
{
    if !(q < 0 || q >= buffer.len() || current is None) {
        lemma_extend_anomalies(current, done, buffer[q].line);
        let (c, d) = extend_after(current, done, buffer[q].line);
        lemma_sweep_anomalies(c, d, buffer, q + 1);
    }
}

/// Two anomalous targets on consecutive buffer lines: the first is
/// completed with an empty after-context as soon as the second opens, and
/// the second's before-context is empty, as its only candidate is the first.
pub proof fn lemma_adjacent_anomalies(
    s: WalkState,
    p: int,
    buffer: Seq<BufferedLine>,
    left_overs: Seq<String>,
    distances: Seq<u32>,
    coords: Seq<usize>,
)
    requires
        1 <= p < buffer.len(),
        0 <= s.target,
        s.target + 1 < coords.len(),
        distances.len() == coords.len(),
        s.last_context_pos <= p - 1,
        buffer[p - 1].coord == coords[s.target],
        distances[s.target] > THRESHOLD,
        buffer[p].coord == coords[s.target + 1],
        distances[s.target + 1] > THRESHOLD,
    ensures
        ({
            let s1 = walk_step(s, p - 1, buffer, left_overs, distances, coords);
            let s2 = walk_step(s1, p, buffer, left_overs, distances, coords);
            &&& s2.done.len() > 0
            &&& s2.done.last().anomaly.pos == buffer[p - 1].line_number
            &&& s2.done.last().after.len() == 0
            &&& s2.current is Some
            &&& s2.current->0.anomaly.pos == buffer[p].line_number
            &&& s2.current->0.before.len() == 0
        }),
{
    let s1 = walk_step(s, p - 1, buffer, left_overs, distances, coords);
    assert(s1.last_context_pos == p);
    assert(texts(buffer.subrange(p, p)) =~= Seq::<String>::empty());
}

/// When no distance is above the threshold, no target is flagged: a search
/// over a target that matches its baseline adds no anomaly.
pub proof fn lemma_none_flagged(
    buffer: Seq<BufferedLine>,
    distances: Seq<u32>,
    coords: Seq<usize>,
    k: int,
)
    requires
        k <= distances.len(),
        forall|j: int| 0 <= j < distances.len() ==> #[trigger] distances[j] <= THRESHOLD,
    ensures
        flagged(buffer, distances, coords, k) == Seq::<Anomaly>::empty(),
    decreases k,
{
    if k > 0 {
        lemma_none_flagged(buffer, distances, coords, k - 1);
    }
}

} // verus!
