//! The set of tokenized lines already seen.
use vstd::prelude::*;

verus! {

/// A set of tokenized lines, with first-insertion detection.
pub struct KnownLines {
    lines: Vec<String>,
}

impl View for KnownLines {
    type V = Set<Seq<char>>;

    closed spec fn view(&self) -> Set<Seq<char>> {
        Set::new(|t: Seq<char>| exists|i: int| 0 <= i < self.lines@.len() && self.lines@[i]@ == t)
    }
}

impl KnownLines {
    /// The number of entries held.
    pub closed spec fn size(&self) -> nat {
        self.lines@.len()
    }

    /// No line is held twice.
    pub closed spec fn wf(&self) -> bool {
        forall|i: int, j: int|
            0 <= i < j < self.lines@.len() ==> self.lines@[i]@ != self.lines@[j]@
    }

    pub fn new() -> (r: KnownLines)
        ensures
            r.wf(),
            r@ == Set::<Seq<char>>::empty(),
            r.size() == 0,
    {
        let r = KnownLines { lines: Vec::new() };
        assert(r@ =~= Set::<Seq<char>>::empty());
        r
    }

    /// Whether `tokens` was already inserted.
    pub fn contains(&self, tokens: &String) -> (r: bool)
        ensures
            r == self@.contains(tokens@),
    {
        let mut i: usize = 0;
        while i < self.lines.len()
            invariant
                i <= self.lines@.len(),
                forall|k: int| 0 <= k < i ==> self.lines@[k]@ != tokens@,
            decreases self.lines@.len() - i,
        {
            if self.lines[i] == *tokens {
                return true;
            }
            i = i + 1;
        }
        false
    }

    /// Adds `tokens`; returns true iff it was not present before.
    pub fn insert(&mut self, tokens: &String) -> (r: bool)
        requires
            old(self).wf(),
        ensures
            final(self).wf(),
            r == !old(self)@.contains(tokens@),
            final(self)@ == old(self)@.insert(tokens@),
            final(self).size() == old(self).size() + if r { 1nat } else { 0nat },
    {
        if self.contains(tokens) {
            assert(self@ =~= self@.insert(tokens@));
            false
        } else {
            let ghost before = self.lines@;
            self.lines.push(tokens.clone());
            assert(self.lines@[before.len() as int]@ == tokens@);
            assert forall|t: Seq<char>| self@.contains(t) <==> old(self)@.insert(tokens@).contains(t) by {
                if self@.contains(t) {
                    let i = choose|i: int| 0 <= i < self.lines@.len() && self.lines@[i]@ == t;
                    if i < before.len() {
                        assert(old(self)@.contains(t));
                    }
                }
                if old(self)@.contains(t) {
                    let i = choose|i: int| 0 <= i < before.len() && before[i]@ == t;
                    assert(self.lines@[i]@ == t);
                }
            }
            assert(self@ =~= old(self)@.insert(tokens@));
            true
        }
    }

    /// The number of distinct lines held.
    pub fn len(&self) -> (r: usize)
        ensures
            r == self.size(),
    {
        self.lines.len()
    }
}

} // verus!
