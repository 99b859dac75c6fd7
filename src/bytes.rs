//! Fixed-width little-endian integers: the byte order of every multi-byte
//! field of the container format.
use vstd::prelude::*;

verus! {

/// `256` raised to the power `n`.
pub open spec fn pow256(n: nat) -> nat
    decreases n,
{
    if n == 0 {
        1
    } else {
        256 * pow256((n - 1) as nat)
    }
}

/// The `n` low-order bytes of `v`, least significant first.
pub open spec fn le_bytes(v: nat, n: nat) -> Seq<u8>
    decreases n,
{
    if n == 0 {
        seq![]
    } else {
        seq![(v % 256) as u8] + le_bytes(v / 256, (n - 1) as nat)
    }
}

/// The number whose little-endian bytes are `s`.
pub open spec fn le_value(s: Seq<u8>) -> nat
    decreases s.len(),
{
    if s.len() == 0 {
        0
    } else {
        s[0] as nat + 256 * le_value(s.drop_first())
    }
}

pub proof fn lemma_pow256_positive(n: nat)
    ensures
        pow256(n) >= 1,
    decreases n,
{
    if n > 0 {
        lemma_pow256_positive((n - 1) as nat);
    }
}

pub proof fn lemma_pow256_monotone(m: nat, n: nat)
    requires
        m <= n,
    ensures
        pow256(m) <= pow256(n),
    decreases n,
{
    if m < n {
        lemma_pow256_monotone(m, (n - 1) as nat);
        lemma_pow256_positive((n - 1) as nat);
    }
}

pub proof fn lemma_pow256_values()
    ensures
        pow256(2) == 0x1_0000,
        pow256(4) == 0x1_0000_0000,
        pow256(7) == 0x100_0000_0000_0000,
        pow256(8) == 0x1_0000_0000_0000_0000,
{
    reveal_with_fuel(pow256, 9);
}

pub proof fn lemma_le_bytes_len(v: nat, n: nat)
    ensures
        le_bytes(v, n).len() == n,
    decreases n,
{
    if n > 0 {
        lemma_le_bytes_len(v / 256, (n - 1) as nat);
    }
}

pub proof fn lemma_le_value_bound(s: Seq<u8>)
    ensures
        le_value(s) < pow256(s.len()),
    decreases s.len(),
{
    if s.len() > 0 {
        let t = s.drop_first();
        lemma_le_value_bound(t);
        let a = s[0] as nat;
        let b = le_value(t);
        let p = pow256(t.len());
        assert(a + 256 * b < 256 * p) by (nonlinear_arith)
            requires
                a < 256,
                b < p,
        ;
    }
}

/// Decoding the `n` bytes of `v` gives `v` back when `v` fits in them.
pub proof fn lemma_le_round_trip(v: nat, n: nat)
    requires
        v < pow256(n),
    ensures
        le_value(le_bytes(v, n)) == v,
        le_bytes(v, n).len() == n,
    decreases n,
{
    lemma_le_bytes_len(v, n);
    if n > 0 {
        let m = (n - 1) as nat;
        let p = pow256(m);
        assert(v / 256 < p) by (nonlinear_arith)
            requires
                v < 256 * p,
        ;
        lemma_le_round_trip(v / 256, m);
        let s = le_bytes(v, n);
        assert(s.drop_first() =~= le_bytes(v / 256, m));
        assert(v == v % 256 + 256 * (v / 256)) by (nonlinear_arith);
    }
}

/// Appends the `n` low-order bytes of `v`, least significant first.
pub fn push_le(out: &mut Vec<u8>, v: u64, n: usize)
    ensures
        final(out)@ == old(out)@ + le_bytes(v as nat, n as nat),
{
    let mut cur: u64 = v;
    let mut i: usize = 0;
    while i < n
        invariant
            i <= n,
            old(out)@ + le_bytes(v as nat, n as nat) == out@ + le_bytes(cur as nat, (n - i) as nat),
        decreases n - i,
    {
        let ghost before = out@;
        let ghost rest = le_bytes(cur as nat / 256, (n - i - 1) as nat);
        out.push((cur % 256) as u8);
        proof {
            assert(le_bytes(cur as nat, (n - i) as nat) == seq![(cur as nat % 256) as u8] + rest);
            assert(before + (seq![(cur as nat % 256) as u8] + rest) =~= out@ + rest);
        }
        cur = cur / 256;
        i = i + 1;
    }
    assert(out@ + le_bytes(cur as nat, 0) =~= out@);
}

/// Reads the `n`-byte little-endian number that starts at `pos`.
pub fn read_le(s: &[u8], pos: usize, n: usize) -> (r: u64)
    requires
        n <= 8,
        pos + n <= s@.len(),
    ensures
        r as nat == le_value(s@.subrange(pos as int, pos + n)),
{
    let len = s.len();
    let mut val: u64 = 0;
    let mut k: usize = n;
    while k > 0
        invariant
            k <= n <= 8,
            pos + n <= s@.len() == len,
            val as nat == le_value(s@.subrange(pos + k, pos + n)),
        decreases k,
    {
        proof {
            let t = s@.subrange(pos + k, pos + n);
            lemma_le_value_bound(t);
            lemma_pow256_monotone(t.len(), 7);
            lemma_pow256_values();
        }
        k = k - 1;
        val = val * 256 + s[pos + k] as u64;
        proof {
            let t = s@.subrange(pos + k, pos + n);
            assert(t.drop_first() =~= s@.subrange(pos + k + 1, pos + n));
        }
    }
    val
}

} // verus!
