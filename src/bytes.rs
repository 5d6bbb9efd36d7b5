//! Small verified helpers on byte strings.
use vstd::prelude::*;

verus! {

/// Appends `b[from..to]` to `out`.
pub fn push_bytes(b: &[u8], from: usize, to: usize, out: &mut Vec<u8>)
    requires
        from <= to <= b@.len(),
    ensures
        final(out)@ == old(out)@ + b@.subrange(from as int, to as int),
{
    let ghost start = out@;
    let mut i: usize = from;
    while i < to
        invariant
            from <= i <= to <= b@.len(),
            out@ == start + b@.subrange(from as int, i as int),
        decreases to - i,
    {
        out.push(b[i]);
        assert(out@ =~= start + b@.subrange(from as int, i + 1));
        i = i + 1;
    }
}

/// Compares two byte strings without stopping at the first difference.
pub fn same_bytes(a: &[u8], b: &[u8]) -> (r: bool)
    ensures
        r == (a@ == b@),
{
    if a.len() != b.len() {
        return false;
    }
    let mut diff: u8 = 0;
    let mut i: usize = 0;
    while i < a.len()
        invariant
            a@.len() == b@.len(),
            i <= a@.len(),
            (diff == 0) == (a@.subrange(0, i as int) =~= b@.subrange(0, i as int)),
        decreases a@.len() - i,
    {
        let x = a[i];
        let y = b[i];
        let d = diff;
        assert(((d | (x ^ y)) == 0u8) == (d == 0u8 && x == y)) by (bit_vector);
        diff = d | (x ^ y);
        proof {
            if diff == 0 {
                assert(a@.subrange(0, i + 1) =~= a@.subrange(0, i as int).push(x));
                assert(b@.subrange(0, i + 1) =~= b@.subrange(0, i as int).push(y));
            } else if d != 0 {
                if a@.subrange(0, i + 1) =~= b@.subrange(0, i + 1) {
                    assert(a@.subrange(0, i as int) =~= b@.subrange(0, i as int));
                }
            } else {
                assert(a@.subrange(0, i + 1)[i as int] != b@.subrange(0, i + 1)[i as int]);
            }
        }
        i = i + 1;
    }
    assert(a@.subrange(0, i as int) =~= a@);
    assert(b@.subrange(0, i as int) =~= b@);
    diff == 0
}

} // verus!
