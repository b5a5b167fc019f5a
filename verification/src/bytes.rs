//! Little-endian byte images of integers, as structures lie in memory on the
//! kernel's RISC-V target.
use vstd::prelude::*;

verus! {

/// The `n` low bytes of `x`, least significant first.
pub open spec fn le_bytes(x: nat, n: nat) -> Seq<u8>
    decreases n,
{
    if n == 0 {
        Seq::empty()
    } else {
        seq![(x % 256) as u8] + le_bytes(x / 256, (n - 1) as nat)
    }
}

/// Appends the `n` low bytes of `x` to `out`, least significant first.
pub fn push_le(out: &mut Vec<u8>, x: u64, n: usize)
    ensures
        final(out)@ == old(out)@ + le_bytes(x as nat, n as nat),
{
    let mut v = x;
    let mut k: usize = 0;
    while k < n
        invariant
            k <= n,
            old(out)@ + le_bytes(x as nat, n as nat) == out@ + le_bytes(v as nat, (n - k) as nat),
        decreases n - k,
    {
        let ghost rest = le_bytes((v / 256) as nat, (n - k - 1) as nat);
        assert(le_bytes(v as nat, (n - k) as nat) == seq![(v % 256) as u8] + rest);
        out.push((v % 256) as u8);
        v = v / 256;
        k = k + 1;
        assert(out@ + le_bytes(v as nat, (n - k) as nat) =~= old(out)@ + le_bytes(x as nat, n as nat));
    }
    assert(le_bytes(v as nat, 0) =~= Seq::<u8>::empty());
    assert(out@ + Seq::<u8>::empty() =~= out@);
}

/// Appends `n` zero bytes to `out`.
pub fn push_zeros(out: &mut Vec<u8>, n: usize)
    ensures
        final(out)@ == old(out)@ + Seq::new(n as nat, |i: int| 0u8),
{
    let mut k: usize = 0;
    while k < n
        invariant
            k <= n,
            out@ == old(out)@ + Seq::new(k as nat, |i: int| 0u8),
        decreases n - k,
    {
        out.push(0u8);
        k = k + 1;
        assert(out@ =~= old(out)@ + Seq::new(k as nat, |i: int| 0u8));
    }
}

} // verus!
