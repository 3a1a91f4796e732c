//! Small verified helpers on byte strings and 32-byte arrays.

use vstd::prelude::*;

verus! {

/// Appends `src` to the end of `out`.
pub fn append_bytes(out: &mut Vec<u8>, src: &[u8])
    ensures
        final(out)@ == old(out)@ + src@,
{
    let ghost start = out@;
    let n = src.len();
    let mut i: usize = 0;
    while i < n
        invariant
            n == src@.len(),
            i <= n,
            out@ == start + src@.subrange(0, i as int),
        decreases n - i,
    {
        out.push(src[i]);
        i = i + 1;
        assert(src@.subrange(0, i as int) == src@.subrange(0, i - 1).push(src@[i - 1]));
    }
    assert(src@.subrange(0, n as int) == src@);
}

/// Copies a slice of `N` bytes into an array.
pub fn to_array<const N: usize>(src: &[u8]) -> (res: [u8; N])
    requires
        src@.len() == N,
    ensures
        res@ == src@,
{
    let mut res: [u8; N] = [0u8; N];
    let mut i: usize = 0;
    while i < N
        invariant
            src@.len() == N,
            i <= N,
            res@.len() == N,
            forall|j: int| 0 <= j < i ==> res@[j] == src@[j],
        decreases N - i,
    {
        res[i] = src[i];
        i = i + 1;
    }
    assert(res@ =~= src@);
    res
}

/// Whether two 32-byte arrays hold the same bytes.
pub fn equal32(a: &[u8; 32], b: &[u8; 32]) -> (res: bool)
    ensures
        res == (a@ == b@),
{
    let mut i: usize = 0;
    while i < 32
        invariant
            i <= 32,
            a@.len() == 32,
            b@.len() == 32,
            forall|j: int| 0 <= j < i ==> a@[j] == b@[j],
        decreases 32 - i,
    {
        if a[i] != b[i] {
            return false;
        }
        i = i + 1;
    }
    assert(a@ =~= b@);
    true
}

/// Whether two byte slices hold the same bytes.
pub fn equal_bytes(a: &[u8], b: &[u8]) -> (res: bool)
    ensures
        res == (a@ == b@),
{
    if a.len() != b.len() {
        return false;
    }
    let mut i: usize = 0;
    while i < a.len()
        invariant
            i <= a@.len(),
            a@.len() == b@.len(),
            forall|j: int| 0 <= j < i ==> a@[j] == b@[j],
        decreases a@.len() - i,
    {
        if a[i] != b[i] {
            return false;
        }
        i = i + 1;
    }
    assert(a@ =~= b@);
    true
}

} // verus!
