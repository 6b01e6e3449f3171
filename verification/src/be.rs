//! Numbers as octets, the most significant one first.
use vstd::prelude::*;

verus! {

/// How many numbers `k` octets can tell apart.
pub open spec fn pow256(k: nat) -> nat
    decreases k,
{
    if k == 0 {
        1
    } else {
        256 * pow256((k - 1) as nat)
    }
}

/// The number that octets stand for.
pub open spec fn be_value(s: Seq<u8>) -> nat
    decreases s.len(),
{
    if s.len() == 0 {
        0
    } else {
        be_value(s.drop_last()) * 256 + s.last() as nat
    }
}

/// The `k` octets that stand for a number.
pub open spec fn be_bytes(n: nat, k: nat) -> Seq<u8>
    decreases k,
{
    if k == 0 {
        Seq::empty()
    } else {
        be_bytes(n / 256, (k - 1) as nat).push((n % 256) as u8)
    }
}

/// The octets of a number are as many as were asked for, and stand for that number.
pub proof fn lemma_be_value_of_bytes(n: nat, k: nat)
    requires
        n < pow256(k),
    ensures
        be_bytes(n, k).len() == k,
        be_value(be_bytes(n, k)) == n,
    decreases k,
{
    if k > 0 {
        lemma_be_value_of_bytes(n / 256, (k - 1) as nat);
        let s = be_bytes(n, k);
        assert(s.drop_last() =~= be_bytes(n / 256, (k - 1) as nat));
    }
}

/// Octets are the octets of the number that they stand for.
pub proof fn lemma_be_bytes_of_value(s: Seq<u8>)
    ensures
        be_value(s) < pow256(s.len()),
        be_bytes(be_value(s), s.len()) == s,
    decreases s.len(),
{
    if s.len() > 0 {
        lemma_be_bytes_of_value(s.drop_last());
        assert(be_value(s) / 256 == be_value(s.drop_last()));
        assert(s =~= s.drop_last().push(s.last()));
    } else {
        assert(s =~= Seq::empty());
    }
}

proof fn lemma_pow256_monotone(i: nat, k: nat)
    requires
        i <= k,
    ensures
        pow256(i) <= pow256(k),
    decreases k,
{
    if i < k {
        lemma_pow256_monotone(i, (k - 1) as nat);
    }
}

/// What one, two, four and eight octets can tell apart.
pub proof fn lemma_pow256_values()
    ensures
        pow256(1) == 0x100,
        pow256(2) == 0x1_0000,
        pow256(4) == 0x1_0000_0000,
        pow256(8) == 0x1_0000_0000_0000_0000,
{
    reveal_with_fuel(pow256, 9);
}

/// Appends the `k` octets of a number.
pub fn push_be(out: &mut Vec<u8>, n: u64, k: usize)
    ensures
        final(out)@ == old(out)@ + be_bytes(n as nat, k as nat),
    decreases k,
{
    if k > 0 {
        push_be(out, n / 256, k - 1);
        out.push((n % 256) as u8);
    }
}

/// Reads the number that all octets of a short slice stand for.
pub fn read_be(s: &[u8]) -> (n: u64)
    requires
        s@.len() <= 8,
    ensures
        n == be_value(s@),
{
    let mut n: u64 = 0;
    for i in 0..s.len()
        invariant
            s@.len() <= 8,
            n == be_value(s@.take(i as int)),
    {
        let ghost next = s@.take(i + 1);
        assert(next.drop_last() =~= s@.take(i as int));
        proof {
            lemma_be_bytes_of_value(next);
            lemma_pow256_monotone((i + 1) as nat, 8);
            lemma_pow256_values();
        }
        n = n * 256 + s[i] as u64;
    }
    assert(s@.take(s@.len() as int) =~= s@);
    n
}

} // verus!
