//! Numbers as big-endian bytes.
use vstd::prelude::*;

verus! {

/// The lowest `k` bytes of `n`, the most significant first.
pub open spec fn be_bytes(n: nat, k: nat) -> Seq<u8>
    decreases k,
{
    if k == 0 {
        seq![]
    } else {
        be_bytes(n / 256, (k - 1) as nat).push((n % 256) as u8)
    }
}

/// The number that big-endian bytes stand for.
pub open spec fn be_value(b: Seq<u8>) -> nat
    decreases b.len(),
{
    if b.len() == 0 {
        0
    } else {
        be_value(b.drop_last()) * 256 + b.last() as nat
    }
}

/// `256` to the power `k`.
pub open spec fn pow256(k: nat) -> nat
    decreases k,
{
    if k == 0 {
        1
    } else {
        256 * pow256((k - 1) as nat)
    }
}

pub proof fn lemma_be_bytes_len(n: nat, k: nat)
    ensures
        be_bytes(n, k).len() == k,
    decreases k,
{
    if k > 0 {
        lemma_be_bytes_len(n / 256, (k - 1) as nat);
    }
}

/// A number that fits is recovered from its bytes.
pub proof fn law_be_value_of_be_bytes(n: nat, k: nat)
    requires
        n < pow256(k),
    ensures
        be_value(be_bytes(n, k)) == n,
    decreases k,
{
    if k > 0 {
        law_be_value_of_be_bytes(n / 256, (k - 1) as nat);
        let b = be_bytes(n, k);
        assert(b.drop_last() =~= be_bytes(n / 256, (k - 1) as nat));
    }
}

/// Bytes are recovered from the number that they stand for.
pub proof fn law_be_bytes_of_be_value(b: Seq<u8>)
    ensures
        be_bytes(be_value(b), b.len()) == b,
        be_value(b) < pow256(b.len()),
    decreases b.len(),
{
    if b.len() > 0 {
        law_be_bytes_of_be_value(b.drop_last());
        let hi = be_value(b.drop_last());
        assert((hi * 256 + b.last() as nat) / 256 == hi);
        assert((hi * 256 + b.last() as nat) % 256 == b.last() as nat);
        assert(b.drop_last().push(b.last()) =~= b);
    }
}

/// Different numbers that fit have different bytes.
pub proof fn law_be_bytes_injective(n: nat, m: nat, k: nat)
    requires
        n < pow256(k),
        m < pow256(k),
        be_bytes(n, k) == be_bytes(m, k),
    ensures
        n == m,
{
    law_be_value_of_be_bytes(n, k);
    law_be_value_of_be_bytes(m, k);
}

/// The powers that the message formats need.
pub proof fn lemma_pow256()
    ensures
        pow256(2) == 0x1_0000,
        pow256(4) == 0x1_0000_0000,
        pow256(8) == 0x1_0000_0000_0000_0000,
        pow256(12) == 0x1_0000_0000_0000_0000_0000_0000,
{
    reveal_with_fuel(pow256, 13);
}

/// The lowest `k` bytes of `n`, the most significant first.
pub fn to_be_bytes(n: u128, k: usize) -> (b: Vec<u8>)
    ensures
        b@ == be_bytes(n as nat, k as nat),
        b@.len() == k,
    decreases k,
{
    proof {
        lemma_be_bytes_len(n as nat, k as nat);
    }
    if k == 0 {
        return Vec::new();
    }
    let mut b = to_be_bytes(n / 256, k - 1);
    b.push((n % 256) as u8);
    b
}

/// The number that at most eight big-endian bytes stand for.
pub fn from_be_bytes(b: &[u8]) -> (n: u64)
    requires
        b@.len() <= 8,
    ensures
        n == be_value(b@),
{
    let mut n: u64 = 0;
    let mut i: usize = 0;
    proof {
        lemma_pow256();
    }
    while i < b.len()
        invariant
            i <= b@.len() <= 8,
            n == be_value(b@.take(i as int)),
            pow256(8) == 0x1_0000_0000_0000_0000,
        decreases b@.len() - i,
    {
        proof {
            let t = b@.take(i + 1);
            assert(t.drop_last() =~= b@.take(i as int));
            law_be_bytes_of_be_value(t);
            lemma_pow256_monotonic(t.len(), 8);
        }
        n = n * 256 + b[i] as u64;
        i += 1;
    }
    assert(b@.take(i as int) =~= b@);
    n
}

proof fn lemma_pow256_monotonic(j: nat, k: nat)
    requires
        j <= k,
    ensures
        pow256(j) <= pow256(k),
    decreases k - j,
{
    if j < k {
        lemma_pow256_monotonic(j, (k - 1) as nat);
    }
}

} // verus!
