//! The detection engine: buffers target lines, batches unique tokenized
//! lines into chunks, and turns the chunk's distances into anomalies.
use vstd::prelude::*;
use crate::{CHUNK_SIZE, CTX_DISTANCE, THRESHOLD};
use crate::context::{collect_before, texts, Anomaly, AnomalyContext, BufferedLine, ContextModel};
use crate::known_lines::KnownLines;
use crate::marker::{contains_bytes, marker, marker_bytes, occurs};
use crate::walk::{WalkState, anomalies_of, flagged, lemma_walk_anomalies, lemma_sweep_anomalies, bounded, coords_increase, count_above, extend_after, left_overs_start, lemma_sweep_after, lemma_sweep_counts, lemma_sweep_sorted, lemma_sweep_sound, lemma_walk_counts, lemma_walk_finds_all, lemma_walk_sorted, lemma_walk_sound, lines_follow, located, models, numbers_increase, opt_model, pos_sorted, records, search_walk, sound, sweep, sweep_end, targets_ahead, walk_step};
use vstd::utf8::encode_utf8;

verus! {

/// What the caller does after a line was fed.
#[derive(Debug, PartialEq, Eq, Structural)]
pub enum Feed {
    /// Feed the next line.
    Continue,
    /// Compute the distances of `targets` and hand them to `do_search_anomalies`.
    Search,
    /// The target ends here: treat it as the end of the stream.
    Stopped,
}

/// Streams a target through the detection: the caller feeds it lines and
/// their tokens, and answers its searches with the index's distances.
pub struct ChunkProcessor {
    /// The raw lines read since the last search, with their coordinate.
    pub buffer: Vec<BufferedLine>,
    /// The unique tokenized lines to search.
    pub targets: Vec<String>,
    /// The coordinates of `targets`.
    pub targets_coord: Vec<usize>,
    /// The last lines of the previous buffer, for the next before-context.
    pub left_overs: Vec<String>,
    /// The anomaly whose after-context is being collected.
    pub current_anomaly: Option<AnomalyContext>,
    /// Completed anomalies, oldest first.
    pub anomalies: Vec<AnomalyContext>,
    /// Every tokenized line seen so far.
    pub skip_lines: KnownLines,
    /// The coordinate of the last line read.
    pub coord: usize,
    pub line_count: usize,
    pub byte_count: usize,
    /// Whether reading stops at this tool's own task marker.
    pub is_job_output: bool,
    /// Whether the end of the target was reached.
    pub finished: bool,
}

impl ChunkProcessor {
    /// Completes the open anomaly, if any.
    fn flush_current(&mut self)
        ensures
            final(self).current_anomaly is None,
            models(final(self).anomalies@) == match opt_model(old(self).current_anomaly) {
                Some(c) => models(old(self).anomalies@).push(c),
                None => models(old(self).anomalies@),
            },
            final(self).buffer == old(self).buffer,
            final(self).targets == old(self).targets,
            final(self).targets_coord == old(self).targets_coord,
            final(self).left_overs == old(self).left_overs,
            final(self).skip_lines == old(self).skip_lines,
            final(self).coord == old(self).coord,
            final(self).line_count == old(self).line_count,
            final(self).byte_count == old(self).byte_count,
            final(self).is_job_output == old(self).is_job_output,
            final(self).finished == old(self).finished,
    {
        match self.current_anomaly.take() {
            Some(a) => {
                self.anomalies.push(a);
                assert(models(self.anomalies@) =~= models(old(self).anomalies@).push(a@));
            },
            None => {},
        }
    }

    /// Adds `line` to the after-context of the open anomaly, if any.
    fn extend_current(&mut self, line: String)
        ensures
            (opt_model(final(self).current_anomaly), models(final(self).anomalies@)) == extend_after(
                opt_model(old(self).current_anomaly),
                models(old(self).anomalies@),
                line,
            ),
            final(self).buffer == old(self).buffer,
            final(self).targets == old(self).targets,
            final(self).targets_coord == old(self).targets_coord,
            final(self).left_overs == old(self).left_overs,
            final(self).skip_lines == old(self).skip_lines,
            final(self).coord == old(self).coord,
            final(self).line_count == old(self).line_count,
            final(self).byte_count == old(self).byte_count,
            final(self).is_job_output == old(self).is_job_output,
            final(self).finished == old(self).finished,
    {
        match self.current_anomaly.take() {
            Some(mut a) => {
                a.after.push(line);
                if a.after.len() >= CTX_DISTANCE {
                    self.anomalies.push(a);
                    assert(models(self.anomalies@) =~= models(old(self).anomalies@).push(a@));
                } else {
                    self.current_anomaly = Some(a);
                }
            },
            None => {},
        }
    }

    /// Ends a chunk: clears the targets and the buffer, keeping as left-overs
    /// the buffer lines from `left_overs_start`.
    pub fn reset(&mut self, left_overs_pos: usize)
        requires
            left_overs_pos <= old(self).buffer@.len(),
        ensures
            final(self).targets@.len() == 0,
            final(self).targets_coord@.len() == 0,
            final(self).buffer@.len() == 0,
            final(self).left_overs@ == texts(
                old(self).buffer@.subrange(
                    left_overs_start(old(self).buffer@.len() as int, left_overs_pos as int),
                    old(self).buffer@.len() as int,
                ),
            ),
            final(self).current_anomaly == old(self).current_anomaly,
            final(self).anomalies == old(self).anomalies,
            final(self).skip_lines == old(self).skip_lines,
            final(self).coord == old(self).coord,
            final(self).line_count == old(self).line_count,
            final(self).byte_count == old(self).byte_count,
            final(self).is_job_output == old(self).is_job_output,
            final(self).finished == old(self).finished,
    {
        self.targets.clear();
        self.targets_coord.clear();
        let len: usize = self.buffer.len();
        let min_pos: usize = if len < CTX_DISTANCE { 0 } else { len - CTX_DISTANCE };
        let start: usize = if left_overs_pos > min_pos { left_overs_pos } else { min_pos };
        let mut kept: Vec<String> = Vec::new();
        let mut i: usize = start;
        while i < len
            invariant
                start <= i <= len,
                len == self.buffer@.len(),
                kept@ == texts(self.buffer@.subrange(start as int, i as int)),
            decreases len - i,
        {
            kept.push(self.buffer[i].line.clone());
            assert(kept@ =~= texts(self.buffer@.subrange(start as int, i + 1)));
            i = i + 1;
        }
        self.left_overs = kept;
        self.buffer.clear();
    }

    /// Aligns the chunk's `distances` with the buffer, opens an anomaly at
    /// each target above the threshold, fills after-contexts, and resets.
    ///
    /// `distances` holds one distance per target, in order.
    pub fn do_search_anomalies(&mut self, distances: &Vec<u32>)
        requires
            distances@.len() == old(self).targets@.len(),
            old(self).targets_coord@.len() == old(self).targets@.len(),
            old(self).sound_contexts(),
            old(self).aligned(),
        ensures
            final(self).sound_contexts(),
            old(self).ordered() ==> final(self).ordered(),
            final(self).aligned(),
            ({
                let buffer = old(self).buffer@;
                let init = WalkState {
                    current: opt_model(old(self).current_anomaly),
                    done: models(old(self).anomalies@),
                    last_context_pos: 0,
                    target: 0,
                };
                let (w, _) = search_walk(
                    init,
                    0,
                    buffer,
                    old(self).left_overs@,
                    distances@,
                    old(self).targets_coord@,
                );
                let (c, d) = sweep(w.current, w.done, buffer, w.last_context_pos);
                let e = sweep_end(w.current, w.done, buffer, w.last_context_pos);
                &&& w.target == old(self).targets_coord@.len()
                &&& anomalies_of(c, d) == anomalies_of(
                    opt_model(old(self).current_anomaly),
                    models(old(self).anomalies@),
                ) + flagged(buffer, distances@, old(self).targets_coord@, distances@.len() as int)
                &&& w.last_context_pos <= e <= buffer.len()
                &&& e <= left_overs_start(buffer.len() as int, e)
                &&& (w.current matches Some(o) ==> {
                    let rec = if c is Some { c->0 } else { d.last() };
                    &&& rec.anomaly == o.anomaly
                    &&& rec.after == o.after + texts(buffer.subrange(w.last_context_pos, e))
                })
                &&& records(c, d) == records(
                    opt_model(old(self).current_anomaly),
                    models(old(self).anomalies@),
                ) + count_above(distances@, distances@.len() as int)
                &&& opt_model(final(self).current_anomaly) == c
                &&& models(final(self).anomalies@) == d
                &&& final(self).left_overs@ == texts(
                    buffer.subrange(
                        left_overs_start(buffer.len() as int, e),
                        buffer.len() as int,
                    ),
                )
            }),
            final(self).targets@.len() == 0,
            final(self).targets_coord@.len() == 0,
            final(self).buffer@.len() == 0,
            final(self).skip_lines == old(self).skip_lines,
            final(self).coord == old(self).coord,
            final(self).line_count == old(self).line_count,
            final(self).byte_count == old(self).byte_count,
            final(self).is_job_output == old(self).is_job_output,
            final(self).finished == old(self).finished,
    {
        let ghost buffer = self.buffer@;
        let ghost left_overs = self.left_overs@;
        let ghost coords = self.targets_coord@;
        let ghost init = WalkState {
            current: opt_model(self.current_anomaly),
            done: models(self.anomalies@),
            last_context_pos: 0,
            target: 0,
        };
        let ghost goal = search_walk(init, 0, buffer, left_overs, distances@, coords);
        let n: usize = self.targets_coord.len();
        let len: usize = self.buffer.len();
        let mut p: usize = 0;
        let mut last_context_pos: usize = 0;
        let mut target: usize = 0;
        while target < n && p < len
            invariant
                self.buffer@ == buffer,
                self.left_overs@ == left_overs,
                self.targets_coord@ == coords,
                self.targets == old(self).targets,
                self.skip_lines == old(self).skip_lines,
                self.coord == old(self).coord,
                self.line_count == old(self).line_count,
                self.byte_count == old(self).byte_count,
                self.is_job_output == old(self).is_job_output,
                self.finished == old(self).finished,
                n == coords.len(),
                len == buffer.len(),
                distances@.len() == n,
                last_context_pos <= p <= len,
                target <= n,
                goal == search_walk(
                    WalkState {
                        current: opt_model(self.current_anomaly),
                        done: models(self.anomalies@),
                        last_context_pos: last_context_pos as int,
                        target: target as int,
                    },
                    p as int,
                    buffer,
                    left_overs,
                    distances@,
                    coords,
                ),
            decreases len - p,
        {
            let ghost s = WalkState {
                current: opt_model(self.current_anomaly),
                done: models(self.anomalies@),
                last_context_pos: last_context_pos as int,
                target: target as int,
            };
            let ghost next = walk_step(s, p as int, buffer, left_overs, distances@, coords);
            let line_coord: usize = self.buffer[p].coord;
            let is_target: bool = line_coord == self.targets_coord[target];
            let was_open: bool = self.current_anomaly.is_some();
            if is_target && distances[target] > THRESHOLD {
                self.flush_current();
                let before = collect_before(p, last_context_pos, &self.buffer, &self.left_overs);
                let anomaly = Anomaly {
                    distance: distances[target],
                    pos: self.buffer[p].line_number,
                    line: self.buffer[p].line.clone(),
                };
                self.current_anomaly = Some(AnomalyContext { before, anomaly, after: Vec::new() });
                last_context_pos = p + 1;
            } else {
                let line = self.buffer[p].line.clone();
                self.extend_current(line);
                if was_open {
                    last_context_pos = p + 1;
                }
            }
            if is_target {
                target = target + 1;
            }
            assert(opt_model(self.current_anomaly) == next.current);
            assert(models(self.anomalies@) == next.done);
            p = p + 1;
        }
        let ghost w = goal.0;
        let ghost sw = sweep(w.current, w.done, buffer, w.last_context_pos);
        let ghost swe = sweep_end(w.current, w.done, buffer, w.last_context_pos);
        let mut q: usize = last_context_pos;
        while q < len && self.current_anomaly.is_some()
            invariant
                self.buffer@ == buffer,
                self.left_overs@ == left_overs,
                self.targets_coord@ == coords,
                self.targets == old(self).targets,
                self.skip_lines == old(self).skip_lines,
                self.coord == old(self).coord,
                self.line_count == old(self).line_count,
                self.byte_count == old(self).byte_count,
                self.is_job_output == old(self).is_job_output,
                self.finished == old(self).finished,
                len == buffer.len(),
                last_context_pos <= len,
                last_context_pos == w.last_context_pos,
                last_context_pos <= q,
                sw == sweep(opt_model(self.current_anomaly), models(self.anomalies@), buffer, q as int),
                swe == sweep_end(opt_model(self.current_anomaly), models(self.anomalies@), buffer, q as int),
                q <= len,
            decreases len - q,
        {
            let line = self.buffer[q].line.clone();
            self.extend_current(line);
            q = q + 1;
        }
        proof {
            lemma_walk_sound(init, 0, buffer, left_overs, distances@, coords);
            lemma_sweep_sound(w.current, w.done, buffer, w.last_context_pos);
            lemma_walk_finds_all(init, 0, buffer, left_overs, distances@, coords);
            lemma_walk_counts(init, 0, buffer, left_overs, distances@, coords);
            let base = anomalies_of(init.current, init.done);
            assert(base + flagged(buffer, distances@, coords, 0) =~= base);
            lemma_walk_anomalies(init, 0, buffer, left_overs, distances@, coords, base);
            lemma_sweep_anomalies(w.current, w.done, buffer, w.last_context_pos);
            lemma_sweep_counts(w.current, w.done, buffer, w.last_context_pos);
            if w.current is Some {
                lemma_sweep_after(w.current, w.done, buffer, w.last_context_pos);
            }
            if old(self).ordered() {
                lemma_walk_sorted(init, 0, buffer, left_overs, distances@, coords);
                lemma_sweep_sorted(w.current, w.done, buffer, w.last_context_pos);
            }
        }
        self.reset(q);
    }

    /// Every completed anomaly is within bounds, and the open one has room
    /// left in its after-context.
    pub open spec fn sound_contexts(&self) -> bool {
        sound(opt_model(self.current_anomaly), models(self.anomalies@))
    }

    /// Completed anomalies, then the open one, are in increasing source
    /// position, and so are the buffered lines, which all come after them.
    pub open spec fn ordered(&self) -> bool {
        &&& pos_sorted(opt_model(self.current_anomaly), models(self.anomalies@))
        &&& numbers_increase(self.buffer@)
        &&& lines_follow(opt_model(self.current_anomaly), models(self.anomalies@), self.buffer@, 0)
    }

    /// The source position `n` comes after every buffered line and every
    /// anomaly held.
    pub open spec fn precedes(&self, n: usize) -> bool {
        &&& forall|q: int| 0 <= q < self.buffer@.len() ==> #[trigger] self.buffer@[q].line_number < n
        &&& forall|i: int|
            0 <= i < self.anomalies@.len() ==> #[trigger] self.anomalies@[i].anomaly.pos < n
        &&& match self.current_anomaly {
            Some(c) => c.anomaly.pos < n,
            None => true,
        }
    }

    /// The targets are the buffered lines of their coordinates, in order, and
    /// every buffered coordinate is at most `coord`.
    pub open spec fn aligned(&self) -> bool {
        &&& coords_increase(self.buffer@, self.targets_coord@)
        &&& targets_ahead(self.buffer@, self.targets_coord@, 0, 0)
        &&& forall|p: int| 0 <= p < self.buffer@.len() ==> #[trigger] self.buffer@[p].coord <= self.coord
    }

    /// Whether the processor can take another line: the chunk is not full,
    /// its coordinates match its targets, and the known lines are consistent.
    pub open spec fn ready(&self) -> bool {
        &&& self.targets@.len() == self.targets_coord@.len()
        &&& self.targets@.len() < CHUNK_SIZE
        &&& self.buffer@.len() <= 10 * CHUNK_SIZE
        &&& self.skip_lines.wf()
        &&& self.aligned()
    }

    /// A processor for a new target, deduplicating against `skip_lines`.
    pub fn new(is_job_output: bool, skip_lines: KnownLines) -> (r: ChunkProcessor)
        requires
            skip_lines.wf(),
        ensures
            r.ready(),
            r.sound_contexts(),
            r.ordered(),
            r.aligned(),
            r.buffer@.len() == 0,
            r.targets@.len() == 0,
            r.left_overs@.len() == 0,
            r.current_anomaly is None,
            r.anomalies@.len() == 0,
            r.skip_lines == skip_lines,
            r.coord == 0,
            r.line_count == 0,
            r.byte_count == 0,
            r.is_job_output == is_job_output,
            !r.finished,
    {
        let r = ChunkProcessor {
            buffer: Vec::new(),
            targets: Vec::new(),
            targets_coord: Vec::new(),
            left_overs: Vec::new(),
            current_anomaly: None,
            anomalies: Vec::new(),
            skip_lines,
            coord: 0,
            line_count: 0,
            byte_count: 0,
            is_job_output,
            finished: false,
        };
        assert(models(r.anomalies@) =~= Seq::<ContextModel>::empty());
        r
    }

    /// Reads one target line of `byte_len` bytes, whose tokenized form is
    /// `tokens`, and says whether a search is due.
    pub fn feed(&mut self, line: String, line_number: usize, byte_len: usize, tokens: String) -> (r:
        Feed)
        requires
            old(self).ready(),
            !old(self).finished,
            old(self).coord < usize::MAX,
            old(self).line_count < usize::MAX,
            old(self).byte_count + byte_len <= usize::MAX,
        ensures
            final(self).coord == old(self).coord + 1,
            final(self).line_count == old(self).line_count + 1,
            final(self).byte_count == old(self).byte_count + byte_len,
            final(self).left_overs == old(self).left_overs,
            final(self).current_anomaly == old(self).current_anomaly,
            final(self).anomalies == old(self).anomalies,
            final(self).is_job_output == old(self).is_job_output,
            final(self).skip_lines.wf(),
            final(self).targets@.len() == final(self).targets_coord@.len(),
            r is Search || final(self).ready(),
            old(self).ordered() && old(self).precedes(line_number) ==> final(self).ordered(),
            final(self).aligned(),
            (old(self).is_job_output && occurs(encode_utf8(line@), marker_bytes())) ==> {
                &&& r is Stopped
                &&& final(self).finished
                &&& final(self).buffer == old(self).buffer
                &&& final(self).targets == old(self).targets
                &&& final(self).targets_coord == old(self).targets_coord
                &&& final(self).skip_lines == old(self).skip_lines
            },
            !(old(self).is_job_output && occurs(encode_utf8(line@), marker_bytes())) ==> {
                let fresh = !old(self).skip_lines@.contains(tokens@);
                &&& !final(self).finished
                &&& final(self).buffer@ == old(self).buffer@.push(
                    BufferedLine { line, line_number, coord: final(self).coord },
                )
                &&& final(self).skip_lines@ == old(self).skip_lines@.insert(tokens@)
                &&& fresh ==> final(self).targets@ == old(self).targets@.push(tokens)
                &&& fresh ==> final(self).targets_coord@ == old(self).targets_coord@.push(
                    final(self).coord,
                )
                &&& !fresh ==> final(self).targets == old(self).targets
                &&& !fresh ==> final(self).targets_coord == old(self).targets_coord
                &&& (r is Search) == (final(self).targets@.len() == CHUNK_SIZE
                    || final(self).buffer@.len() > 10 * CHUNK_SIZE)
                &&& !(r is Stopped)
            },
    {
        self.line_count = self.line_count + 1;
        self.byte_count = self.byte_count + byte_len;
        self.coord = self.coord + 1;
        if self.is_job_output {
            let m = marker();
            if contains_bytes(line.as_str().as_bytes(), &m) {
                self.finished = true;
                return Feed::Stopped;
            }
        }
        let fresh = self.skip_lines.insert(&tokens);
        self.buffer.push(BufferedLine { line, line_number, coord: self.coord });
        proof {
            if old(self).ordered() && old(self).precedes(line_number) {
                let cur = opt_model(self.current_anomaly);
                let done = models(self.anomalies@);
                let b = self.buffer@;
                let n = b.len() - 1;
                assert(b[n].line_number == line_number);
                assert forall|p: int, q: int| 0 <= p < q < b.len() implies #[trigger] b[p].line_number < #[trigger] b[q].line_number by {
                    if q == n {
                        assert(old(self).buffer@[p].line_number < line_number);
                    } else {
                        assert(old(self).buffer@[p] == b[p]);
                        assert(old(self).buffer@[q] == b[q]);
                    }
                }
                assert forall|q: int, i: int| 0 <= q < b.len() && 0 <= i < done.len() implies #[trigger] done[i].anomaly.pos < #[trigger] b[q].line_number by {
                    assert(self.anomalies@[i].anomaly.pos < line_number);
                    if q < n {
                        assert(old(self).buffer@[q] == b[q]);
                    }
                }
                if cur is Some {
                    assert forall|q: int| 0 <= q < b.len() implies cur->0.anomaly.pos < #[trigger] b[q].line_number by {
                        if q < n {
                            assert(old(self).buffer@[q] == b[q]);
                        }
                    }
                }
            }
        }
        proof {
            if old(self).aligned() {
                let b = self.buffer@;
                let n = b.len() - 1;
                assert forall|p: int, q: int| 0 <= p < q < b.len() implies #[trigger] b[p].coord < #[trigger] b[q].coord by {
                    assert(old(self).buffer@[p] == b[p]);
                    if q < n {
                        assert(old(self).buffer@[q] == b[q]);
                    } else {
                        assert(old(self).buffer@[p].coord <= old(self).coord);
                    }
                }
                assert forall|p: int| 0 <= p < b.len() implies #[trigger] b[p].coord <= self.coord by {
                    if p < n {
                        assert(old(self).buffer@[p] == b[p]);
                        assert(old(self).buffer@[p].coord <= old(self).coord);
                    }
                }
                assert forall|j: int| 0 <= j < self.targets_coord@.len() implies #[trigger] located(b, self.targets_coord@[j], 0) by {
                    assert(located(old(self).buffer@, self.targets_coord@[j], 0));
                    let q = choose|q: int| 0 <= q < old(self).buffer@.len() && #[trigger] old(self).buffer@[q].coord == self.targets_coord@[j];
                    assert(b[q] == old(self).buffer@[q]);
                }
                assert(targets_ahead(b, self.targets_coord@, 0, 0));
            }
        }
        if fresh {
            let ghost b = self.buffer@;
            self.targets_coord.push(self.coord);
            proof {
                if old(self).aligned() {
                    let c = self.targets_coord@;
                    let n = c.len() - 1;
                    assert(b[b.len() - 1].coord == self.coord);
                    assert forall|i: int, j: int| 0 <= i < j < c.len() implies #[trigger] c[i] < #[trigger] c[j] by {
                        let ob = old(self).buffer@;
                        assert(c[i] == old(self).targets_coord@[i]);
                        assert(located(ob, c[i], 0));
                        let q = choose|q: int| 0 <= q < ob.len() && #[trigger] ob[q].coord == c[i];
                        assert(ob[q].coord <= old(self).coord);
                        if j < n {
                            assert(c[j] == old(self).targets_coord@[j]);
                        }
                    }
                    assert forall|j: int| 0 <= j < c.len() implies #[trigger] located(b, c[j], 0) by {
                        if j == n {
                            assert(b[b.len() - 1].coord == c[j]);
                        } else {
                            assert(located(b, old(self).targets_coord@[j], 0));
                        }
                    }
                }
            }
            self.targets.push(tokens);
        }
        if self.targets.len() == CHUNK_SIZE || self.buffer.len() > 10 * CHUNK_SIZE {
            return Feed::Search;
        }
        Feed::Continue
    }

    /// Ends the target once its last chunk was searched: the open anomaly is
    /// completed with the after-context it has.
    pub fn finish(&mut self)
        requires
            old(self).targets@.len() == 0,
            old(self).sound_contexts(),
        ensures
            final(self).sound_contexts(),
            old(self).ordered() ==> final(self).ordered(),
            final(self).finished,
            final(self).current_anomaly is None,
            models(final(self).anomalies@) == match opt_model(old(self).current_anomaly) {
                Some(c) => models(old(self).anomalies@).push(c),
                None => models(old(self).anomalies@),
            },
            final(self).buffer == old(self).buffer,
            final(self).left_overs == old(self).left_overs,
            final(self).skip_lines == old(self).skip_lines,
    {
        self.flush_current();
        self.finished = true;
        proof {
            let d = models(self.anomalies@);
            let d0 = models(old(self).anomalies@);
            assert forall|i: int| 0 <= i < d.len() implies #[trigger] bounded(d[i]) by {
                if i < d0.len() {
                    assert(d[i] == d0[i]);
                    assert(bounded(d0[i]));
                }
            }
            if old(self).ordered() {
                assert forall|i: int, j: int| 0 <= i < j < d.len() implies #[trigger] d[i].anomaly.pos < #[trigger] d[j].anomaly.pos by {
                    assert(d[i] == d0[i]);
                    if j < d0.len() {
                        assert(d[j] == d0[j]);
                    }
                }
                assert forall|q: int, i: int| 0 <= q < self.buffer@.len() && 0 <= i < d.len() implies #[trigger] d[i].anomaly.pos < #[trigger] self.buffer@[q].line_number by {
                    if i < d0.len() {
                        assert(d[i] == d0[i]);
                    }
                }
            }
        }
    }

    /// At the end of the target: asks first for the search of a partial
    /// chunk, then completes the open anomaly.
    pub fn end_of_stream(&mut self) -> (r: Feed)
        requires
            old(self).sound_contexts(),
        ensures
            old(self).targets@.len() > 0 ==> r is Search && *final(self) == *old(self),
            old(self).targets@.len() == 0 ==> {
                &&& r is Stopped
                &&& final(self).finished
                &&& final(self).current_anomaly is None
                &&& models(final(self).anomalies@) == match opt_model(old(self).current_anomaly) {
                    Some(c) => models(old(self).anomalies@).push(c),
                    None => models(old(self).anomalies@),
                }
            },
            final(self).sound_contexts(),
            old(self).ordered() ==> final(self).ordered(),
    {
        if self.targets.len() > 0 {
            Feed::Search
        } else {
            self.finish();
            Feed::Stopped
        }
    }

    /// Hands out the oldest completed anomaly.
    pub fn next_anomaly(&mut self) -> (r: Option<AnomalyContext>)
        requires
            old(self).sound_contexts(),
        ensures
            final(self).sound_contexts(),
            old(self).ordered() ==> final(self).ordered(),
            r matches Some(a) ==> bounded(a@),
            old(self).anomalies@.len() == 0 ==> r is None && final(self).anomalies == old(self).anomalies,
            old(self).anomalies@.len() > 0 ==> r == Some(old(self).anomalies@[0])
                && final(self).anomalies@ == old(self).anomalies@.drop_first(),
            final(self).current_anomaly == old(self).current_anomaly,
            final(self).buffer == old(self).buffer,
            final(self).targets == old(self).targets,
            final(self).targets_coord == old(self).targets_coord,
            final(self).left_overs == old(self).left_overs,
            final(self).skip_lines == old(self).skip_lines,
            final(self).coord == old(self).coord,
            final(self).finished == old(self).finished,
    {
        if self.anomalies.len() == 0 {
            None
        } else {
            let a = self.anomalies.remove(0);
            assert(self.anomalies@ =~= old(self).anomalies@.drop_first());
            proof {
                let d = models(self.anomalies@);
                let d0 = models(old(self).anomalies@);
                assert(d0[0] == a@);
                assert forall|i: int| 0 <= i < d.len() implies #[trigger] bounded(d[i]) by {
                    assert(d[i] == d0[i + 1]);
                    assert(bounded(d0[i + 1]));
                }
                if old(self).ordered() {
                    assert forall|i: int, j: int| 0 <= i < j < d.len() implies #[trigger] d[i].anomaly.pos < #[trigger] d[j].anomaly.pos by {
                        assert(d[i] == d0[i + 1]);
                        assert(d[j] == d0[j + 1]);
                    }
                    if self.current_anomaly is Some {
                        assert forall|i: int| 0 <= i < d.len() implies #[trigger] d[i].anomaly.pos < self.current_anomaly->0.anomaly.pos by {
                            assert(d[i] == d0[i + 1]);
                        }
                    }
                    assert forall|q: int, i: int| 0 <= q < self.buffer@.len() && 0 <= i < d.len() implies #[trigger] d[i].anomaly.pos < #[trigger] self.buffer@[q].line_number by {
                        assert(d[i] == d0[i + 1]);
                    }
                }
            }
            Some(a)
        }
    }
}

} // verus!
