//! Anomaly records and the assembly of their before-context.
use vstd::prelude::*;
use crate::CTX_DISTANCE;

verus! {

/// One raw target line: its text, its number in the source framing, and the
/// coordinate the processor gave it.
pub struct BufferedLine {
    pub line: String,
    pub line_number: usize,
    pub coord: usize,
}

/// A line found too far from the baseline.
///
/// `distance` is the bit pattern of a non-negative `f32` (see `THRESHOLD`).
pub struct Anomaly {
    pub distance: u32,
    pub pos: usize,
    pub line: String,
}

/// An anomaly with the raw lines around it.
pub struct AnomalyContext {
    pub before: Vec<String>,
    pub anomaly: Anomaly,
    pub after: Vec<String>,
}

/// What an `AnomalyContext` holds, as values.
pub struct ContextModel {
    pub before: Seq<String>,
    pub anomaly: Anomaly,
    pub after: Seq<String>,
}

impl View for AnomalyContext {
    type V = ContextModel;

    open spec fn view(&self) -> ContextModel {
        ContextModel { before: self.before@, anomaly: self.anomaly, after: self.after@ }
    }
}

/// The texts of a run of buffered lines.
pub open spec fn texts(lines: Seq<BufferedLine>) -> Seq<String> {
    lines.map_values(|b: BufferedLine| b.line)
}

/// The first buffer index of the before-context of the line at `buffer_pos`:
/// at most `CTX_DISTANCE` lines back, and never below `last_context_pos`.
pub open spec fn before_start(buffer_pos: int, last_context_pos: int) -> int {
    let min_pos = if buffer_pos < CTX_DISTANCE { 0 } else { buffer_pos - CTX_DISTANCE };
    if last_context_pos > min_pos { last_context_pos } else { min_pos }
}

/// The before-context of the line at `buffer_pos`: the lines of the buffer
/// from `before_start`, preceded, when that window starts the buffer and is
/// short, by the newest left-overs that fill it up to `CTX_DISTANCE`.
pub open spec fn before_spec(
    buffer_pos: int,
    last_context_pos: int,
    buffer: Seq<BufferedLine>,
    left_overs: Seq<String>,
) -> Seq<String> {
    let start = before_start(buffer_pos, last_context_pos);
    let base = texts(buffer.subrange(start, buffer_pos));
    if start == 0 && base.len() < CTX_DISTANCE {
        let need = CTX_DISTANCE - base.len();
        let want = if need < left_overs.len() { need } else { left_overs.len() as int };
        left_overs.subrange(left_overs.len() - want, left_overs.len() as int) + base
    } else {
        base
    }
}

/// Builds the before-context of the line at `buffer_pos`, excluding the
/// lines below `last_context_pos`, which an earlier anomaly already used.
pub fn collect_before(
    buffer_pos: usize,
    last_context_pos: usize,
    buffer: &Vec<BufferedLine>,
    left_overs: &Vec<String>,
) -> (r: Vec<String>)
    requires
        last_context_pos <= buffer_pos <= buffer@.len(),
    ensures
        r@ == before_spec(buffer_pos as int, last_context_pos as int, buffer@, left_overs@),
        r@.len() <= CTX_DISTANCE,
{
    let min_pos: usize = if buffer_pos < CTX_DISTANCE { 0 } else { buffer_pos - CTX_DISTANCE };
    let start: usize = if last_context_pos > min_pos { last_context_pos } else { min_pos };
    let base_len: usize = buffer_pos - start;
    let mut before: Vec<String> = Vec::new();
    if start == 0 && base_len < CTX_DISTANCE {
        let need: usize = CTX_DISTANCE - base_len;
        let available: usize = left_overs.len();
        let want: usize = if need < available { need } else { available };
        let mut k: usize = available - want;
        while k < available
            invariant
                available == left_overs@.len(),
                want <= available,
                available - want <= k <= available,
                before@ == left_overs@.subrange(available - want, k as int),
            decreases available - k,
        {
            before.push(left_overs[k].clone());
            assert(before@ =~= left_overs@.subrange(available - want, k + 1));
            k = k + 1;
        }
    }
    let ghost prefix = before@;
    let mut i: usize = start;
    while i < buffer_pos
        invariant
            start <= i <= buffer_pos <= buffer@.len(),
            before@ == prefix + texts(buffer@.subrange(start as int, i as int)),
        decreases buffer_pos - i,
    {
        before.push(buffer[i].line.clone());
        assert(texts(buffer@.subrange(start as int, i + 1)) =~= texts(
            buffer@.subrange(start as int, i as int),
        ).push(buffer@[i as int].line));
        assert(before@ =~= prefix + texts(buffer@.subrange(start as int, i + 1)));
        i = i + 1;
    }
    proof {
        let b = before_spec(buffer_pos as int, last_context_pos as int, buffer@, left_overs@);
        if !(start == 0 && base_len < CTX_DISTANCE) {
            assert(prefix =~= Seq::<String>::empty());
            assert(before@ =~= b);
        } else {
            assert(before@ =~= b);
        }
    }
    before
}

} // verus!
