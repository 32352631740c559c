//! Little-endian integers as byte sequences.
use vstd::prelude::*;

verus! {

/// The `k` low bytes of `n`, least significant first.
pub open spec fn le_bytes(n: nat, k: nat) -> Seq<u8>
    decreases k,
{
    if k == 0 {
        Seq::empty()
    } else {
        seq![(n % 256) as u8] + le_bytes(n / 256, (k - 1) as nat)
    }
}

/// 256 to the power `k`.
pub open spec fn pow256(k: nat) -> nat
    decreases k,
{
    if k == 0 {
        1
    } else {
        256 * pow256((k - 1) as nat)
    }
}


pub proof fn lemma_le_bytes_len(n: nat, k: nat)
    ensures
        le_bytes(n, k).len() == k,
    decreases k,
{
    if k > 0 {
        lemma_le_bytes_len(n / 256, (k - 1) as nat);
    }
}

pub proof fn lemma_le_bytes_injective(a: nat, b: nat, k: nat)
    requires
        a < pow256(k),
        b < pow256(k),
        le_bytes(a, k) == le_bytes(b, k),
    ensures
        a == b,
    decreases k,
{
    if k > 0 {
        let (sa, sb) = (le_bytes(a, k), le_bytes(b, k));
        assert(sa[0] == sb[0]);
        assert(sa.skip(1) =~= le_bytes(a / 256, (k - 1) as nat));
        assert(sb.skip(1) =~= le_bytes(b / 256, (k - 1) as nat));
        assert(a / 256 < pow256((k - 1) as nat)) by (nonlinear_arith)
            requires a < pow256(k), pow256(k) == 256 * pow256((k - 1) as nat);
        assert(b / 256 < pow256((k - 1) as nat)) by (nonlinear_arith)
            requires b < pow256(k), pow256(k) == 256 * pow256((k - 1) as nat);
        lemma_le_bytes_injective(a / 256, b / 256, (k - 1) as nat);
        assert((a % 256) as u8 == (b % 256) as u8);
    }
}

pub proof fn lemma_pow256_bound(k: nat)
    ensures
        pow256(k + 1) == 256 * pow256(k),
        pow256(k) >= 1,
    decreases k,
{
    if k > 0 {
        lemma_pow256_bound((k - 1) as nat);
    }
}

pub proof fn lemma_pow256_mono(a: nat, b: nat)
    requires
        a <= b,
    ensures
        pow256(a) <= pow256(b),
    decreases b - a,
{
    if a < b {
        lemma_pow256_mono(a, (b - 1) as nat);
        lemma_pow256_bound((b - 1) as nat);
    }
}

pub proof fn lemma_pow256_eight()
    ensures
        pow256(8) == 0x1_0000_0000_0000_0000,
{
    reveal_with_fuel(pow256, 9);
}

/// Reads the `k`-byte little-endian integer at `at`.
pub fn read_le(bytes: &[u8], at: usize, k: usize) -> (r: u64)
    requires
        k <= 8,
        at + k <= bytes@.len(),
    ensures
        le_bytes(r as nat, k as nat) == bytes@.subrange(at as int, at + k),
        (r as nat) < pow256(k as nat),
{
    let len = bytes.len();
    let mut acc: u64 = 0;
    let mut i: usize = k;
    while i > 0
        invariant
            len == bytes@.len(),
            i <= k <= 8,
            at + k <= bytes@.len(),
            (acc as nat) < pow256((k - i) as nat),
            le_bytes(acc as nat, (k - i) as nat) == bytes@.subrange(at + i, at + k),
        decreases i,
    {
        let b = bytes[at + (i - 1)];
        let ghost j: nat = (k - i) as nat;
        proof {
            lemma_pow256_bound(j);
        }
        assert(acc as nat * 256 + b < pow256(j + 1)) by (nonlinear_arith)
            requires
                (acc as nat) < pow256(j),
                pow256(j + 1) == 256 * pow256(j),
                b < 256,
        ;
        assert(pow256(j + 1) <= 0x1_0000_0000_0000_0000) by {
            lemma_pow256_mono(j + 1, 8);
            lemma_pow256_eight();
        }
        let next: u64 = acc * 256 + b as u64;
        proof {
            let n = next as nat;
            assert(n % 256 == b as nat && n / 256 == acc as nat) by (nonlinear_arith)
                requires
                    n == acc as nat * 256 + b as nat,
                    b < 256,
            ;
            assert(le_bytes(n, j + 1) == seq![(n % 256) as u8] + le_bytes(n / 256, j));
            assert(bytes@.subrange(at + i - 1, at + k) =~= seq![b] + bytes@.subrange(at + i, at + k));
        }
        acc = next;
        i -= 1;
    }
    acc
}

/// Appends the `k` low bytes of `n`, least significant first.
pub fn write_le(out: &mut Vec<u8>, n: u64, k: usize)
    ensures
        final(out)@ == old(out)@ + le_bytes(n as nat, k as nat),
{
    let mut v: u64 = n;
    let mut i: usize = 0;
    while i < k
        invariant
            i <= k,
            old(out)@ + le_bytes(n as nat, k as nat) == out@ + le_bytes(v as nat, (k - i) as nat),
        decreases k - i,
    {
        proof {
            assert(le_bytes(v as nat, (k - i) as nat) == seq![(v as nat % 256) as u8] + le_bytes(
                v as nat / 256,
                (k - i - 1) as nat,
            ));
        }
        out.push((v % 256) as u8);
        proof {
            assert(out@ + le_bytes(v as nat / 256, (k - i - 1) as nat) =~= old(out)@ + le_bytes(n as nat, k as nat));
        }
        v = v / 256;
        i += 1;
    }
    assert(out@ + le_bytes(v as nat, 0) =~= out@);
}

} // verus!
