//! Installation onto disk: the on-disk layout and install header, the
//! multiboot module list, and the sector arithmetic of the ATA driver. The
//! port I/O is the caller's.
use vstd::prelude::*;

pub mod ata;
pub mod install;
pub mod layout;

verus! {

/// Little-endian value of the `n` bytes of `b` from `i`.
pub open spec fn le_value(b: Seq<u8>, i: int, n: nat) -> int
    decreases n,
{
    if n == 0 {
        0
    } else {
        b[i] + 256 * le_value(b, i + 1, (n - 1) as nat)
    }
}

/// The `n` little-endian bytes of `v`.
pub open spec fn le_bytes(v: int, n: nat) -> Seq<u8>
    decreases n,
{
    if n == 0 {
        Seq::empty()
    } else {
        seq![(v % 256) as u8] + le_bytes(v / 256, (n - 1) as nat)
    }
}

/// `256^n`.
pub open spec fn pow256(n: nat) -> int
    decreases n,
{
    if n == 0 {
        1
    } else {
        256 * pow256((n - 1) as nat)
    }
}

pub proof fn lemma_le_value_bound(b: Seq<u8>, i: int, n: nat)
    requires
        0 <= i,
        i + n <= b.len(),
    ensures
        0 <= le_value(b, i, n) < pow256(n),
    decreases n,
{
    if n > 0 {
        lemma_le_value_bound(b, i + 1, (n - 1) as nat);
    }
}

/// Read an `n`-byte little-endian value at `i` (at most 8 bytes).
pub fn read_le(b: &[u8], i: usize, n: usize) -> (r: u64)
    requires
        n <= 8,
        i + n <= b@.len(),
    ensures
        r == le_value(b@, i as int, n as nat),
{
    proof {
        reveal_with_fuel(pow256, 9);
    }
    let mut v: u64 = 0;
    let mut k: usize = n;
    while k > 0
        invariant
            k <= n <= 8,
            i + n <= b.len(),
            v == le_value(b@, i + k, (n - k) as nat),
        decreases k,
    {
        k = k - 1;
        proof {
            lemma_le_value_bound(b@, (i + k + 1) as int, (n - k - 1) as nat);
            assert(pow256((n - k - 1) as nat) <= pow256(7)) by {
                lemma_pow256_mono((n - k - 1) as nat, 7);
            }
            reveal_with_fuel(pow256, 8);
            assert(pow256(7) == 0x100_0000_0000_0000);
        }
        v = v * 256 + b[i + k] as u64;
    }
    v
}

proof fn lemma_pow256_pos(a: nat)
    ensures
        1 <= pow256(a),
    decreases a,
{
    if a > 0 {
        lemma_pow256_pos((a - 1) as nat);
    }
}

proof fn lemma_pow256_mono(a: nat, b: nat)
    requires
        a <= b,
    ensures
        1 <= pow256(a) <= pow256(b),
    decreases b,
{
    lemma_pow256_pos(a);
    if b > a {
        lemma_pow256_mono(a, (b - 1) as nat);
    }
}

/// Read a little-endian `u32` at `i`.
pub fn read_le32(b: &[u8], i: usize) -> (r: u32)
    requires
        i + 4 <= b@.len(),
    ensures
        r == le_value(b@, i as int, 4),
{
    proof {
        reveal_with_fuel(le_value, 5);
    }
    b[i] as u32 + (b[i + 1] as u32) * 256 + (b[i + 2] as u32) * 65536 + (b[i + 3] as u32) * 16777216
}

/// Append the `n` little-endian bytes of `v` to `out`.
pub fn push_le(out: &mut Vec<u8>, v: u64, n: usize)
    requires
        n <= 8,
    ensures
        final(out)@ == old(out)@ + le_bytes(v as int, n as nat),
{
    let mut x = v;
    let mut k: usize = 0;
    while k < n
        invariant
            k <= n,
            n <= 8,
            out@ + le_bytes(x as int, (n - k) as nat) == old(out)@ + le_bytes(v as int, n as nat),
        decreases n - k,
    {
        let ghost before = out@;
        let ghost x0 = x as int;
        let ghost m = (n - k) as nat;
        proof {
            assert(le_bytes(x0, m) == seq![(x0 % 256) as u8] + le_bytes(x0 / 256, (m - 1) as nat));
        }
        out.push((x % 256) as u8);
        x = x / 256;
        k = k + 1;
        proof {
            assert(out@ + le_bytes(x as int, (n - k) as nat) =~= before + le_bytes(x0, m));
        }
    }
}

/// Law: the `n` little-endian bytes written for a value that fits in them
/// read back as that value, wherever they stand.
pub proof fn law_le_roundtrip(pre: Seq<u8>, v: int, n: nat)
    requires
        0 <= v < pow256(n),
    ensures
        le_value(pre + le_bytes(v, n), pre.len() as int, n) == v,
    decreases n,
{
    if n > 0 {
        let rest = le_bytes(v / 256, (n - 1) as nat);
        let pre2 = pre + seq![(v % 256) as u8];
        assert(pre + le_bytes(v, n) =~= pre2 + rest);
        assert(v / 256 < pow256((n - 1) as nat)) by (nonlinear_arith)
            requires
                0 <= v < 256 * pow256((n - 1) as nat),
        ;
        law_le_roundtrip(pre2, v / 256, (n - 1) as nat);
        assert((pre2 + rest)[pre.len() as int] == (v % 256) as u8);
    }
}

} // verus!
