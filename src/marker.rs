//! Recognition of this tool's own task in a job output.
use vstd::prelude::*;

verus! {

/// The bytes of the marker that starts this tool's own task in a job output.
pub open spec fn marker_bytes() -> Seq<u8> {
    seq![84u8, 65, 83, 75, 32, 91, 114, 117, 110, 45, 108, 111, 103, 106, 117, 105, 99, 101, 114]
}

/// Whether `needle` occurs in `hay` at index `i`.
pub open spec fn occurs_at(hay: Seq<u8>, needle: Seq<u8>, i: int) -> bool {
    0 <= i && i + needle.len() <= hay.len() && hay.subrange(i, i + needle.len()) == needle
}

/// Whether `needle` occurs anywhere in `hay`.
pub open spec fn occurs(hay: Seq<u8>, needle: Seq<u8>) -> bool {
    exists|i: int| occurs_at(hay, needle, i)
}

/// `TASK [run-logjuicer`, as bytes.
pub fn marker() -> (r: Vec<u8>)
    ensures
        r@ == marker_bytes(),
{
    let r: Vec<u8> = vec![84u8, 65, 83, 75, 32, 91, 114, 117, 110, 45, 108, 111, 103, 106, 117, 105, 99, 101, 114];
    assert(r@ =~= marker_bytes());
    r
}

/// Whether `needle` occurs in `hay`.
pub fn contains_bytes(hay: &[u8], needle: &Vec<u8>) -> (r: bool)
    ensures
        r == occurs(hay@, needle@),
{
    let n: usize = needle.len();
    let hay_len: usize = hay.len();
    if n == 0 {
        assert(hay@.subrange(0, 0) =~= needle@);
        assert(occurs_at(hay@, needle@, 0));
        return true;
    }
    if n > hay_len {
        assert forall|i: int| !occurs_at(hay@, needle@, i) by {}
        return false;
    }
    let last: usize = hay_len - n;
    let mut i: usize = 0;
    while i <= last
        invariant
            n == needle@.len(),
            last + n == hay@.len(),
            last + n == hay_len,
            n > 0,
            forall|k: int| 0 <= k < i ==> !occurs_at(hay@, needle@, k),
        decreases last + 1 - i,
    {
        let mut j: usize = 0;
        let mut same: bool = true;
        while j < n && same
            invariant
                i <= last,
                n == needle@.len(),
                last + n == hay@.len(),
                last + n == hay_len,
                j <= n,
                same ==> forall|k: int| 0 <= k < j ==> hay@[i + k] == needle@[k],
                !same ==> exists|k: int| 0 <= k < n && hay@[i + k] != needle@[k],
            decreases n - j + (if same { 1int } else { 0int }),
        {
            if hay[i + j] != needle[j] {
                same = false;
            } else {
                j = j + 1;
            }
        }
        if same {
            assert(hay@.subrange(i as int, i + n) =~= needle@);
            assert(occurs_at(hay@, needle@, i as int));
            return true;
        }
        proof {
            let k = choose|k: int| 0 <= k < n && hay@[i + k] != needle@[k];
            if occurs_at(hay@, needle@, i as int) {
                assert(hay@.subrange(i as int, i + n)[k] == hay@[i + k]);
            }
        }
        i = i + 1;
    }
    assert forall|k: int| !occurs_at(hay@, needle@, k) by {
        if occurs_at(hay@, needle@, k) {
            assert(k < i);
        }
    }
    false
}

} // verus!
