//! Deduplication of baseline lines before they go into the index.
use vstd::prelude::*;
use crate::known_lines::KnownLines;

verus! {

/// Collects the unique tokenized lines of one or more baselines; the caller
/// hands each returned line to its index builder.
pub struct IndexTrainer {
    pub is_json: bool,
    pub skip_lines: KnownLines,
    pub line_count: usize,
    pub byte_count: usize,
}

impl IndexTrainer {
    /// A trainer with no line seen; `is_json` selects the caller's framing.
    pub fn new(is_json: bool) -> (r: IndexTrainer)
        ensures
            r.is_json == is_json,
            r.skip_lines.wf(),
            r.skip_lines@ == Set::<Seq<char>>::empty(),
            r.line_count == 0,
            r.byte_count == 0,
    {
        IndexTrainer { is_json, skip_lines: KnownLines::new(), line_count: 0, byte_count: 0 }
    }

    /// Reads one baseline line of `byte_len` bytes, tokenized as `tokens`;
    /// returns the tokens when they were not seen before, for the index.
    pub fn add_line(&mut self, byte_len: usize, tokens: String) -> (r: Option<String>)
        requires
            old(self).skip_lines.wf(),
            old(self).line_count < usize::MAX,
            old(self).byte_count + byte_len <= usize::MAX,
        ensures
            final(self).skip_lines.wf(),
            final(self).skip_lines@ == old(self).skip_lines@.insert(tokens@),
            final(self).line_count == old(self).line_count + 1,
            final(self).byte_count == old(self).byte_count + byte_len,
            final(self).is_json == old(self).is_json,
            r == if old(self).skip_lines@.contains(tokens@) {
                None::<String>
            } else {
                Some(tokens)
            },
    {
        self.line_count = self.line_count + 1;
        self.byte_count = self.byte_count + byte_len;
        if self.skip_lines.insert(&tokens) {
            Some(tokens)
        } else {
            None
        }
    }

    /// Ends the training and gives back the set of lines seen, for a
    /// detection that deduplicates against the baseline.
    pub fn into_known_lines(self) -> (r: KnownLines)
        requires
            self.skip_lines.wf(),
        ensures
            r == self.skip_lines,
            r.wf(),
    {
        self.skip_lines
    }
}

} // verus!
