use vstd::prelude::*;

verus! {

/// FNV-1a 64-bit offset basis: the hash of the empty input.
pub const FNV_OFFSET: u64 = 0xcbf29ce484222325;

/// FNV-1a 64-bit prime.
pub const FNV_PRIME: u64 = 0x100000001b3;

/// FNV-1a over `data`: start from the offset basis, and for each byte xor it
/// into the state and multiply by the prime modulo 2^64.
pub open spec fn fnv1a(data: Seq<u8>) -> u64
    decreases data.len(),
{
    if data.len() == 0 {
        FNV_OFFSET
    } else {
        (fnv1a(data.drop_last()) ^ (data.last() as u64)).wrapping_mul(FNV_PRIME)
    }
}

/// Compute the FNV-1a 64-bit hash of a byte slice.
pub fn fnv1a_hash(data: &[u8]) -> (hash: u64)
    ensures
        hash == fnv1a(data@),
{
    let mut hash: u64 = FNV_OFFSET;
    let n = data.len();
    for i in 0..n
        invariant
            n == data@.len(),
            hash == fnv1a(data@.take(i as int)),
    {
        assert(data@.take(i + 1).drop_last() =~= data@.take(i as int));
        hash = (hash ^ (data[i] as u64)).wrapping_mul(FNV_PRIME);
    }
    assert(data@.take(n as int) =~= data@);
    hash
}


/// FNV-1a takes in every byte, in order: the empty input hashes to the
/// offset basis, and appending byte `b` to any input `d` xors `b` into the
/// hash of `d` and multiplies by the prime modulo 2^64.
pub proof fn law_fnv1a_takes_every_byte(d: Seq<u8>, b: u8)
    ensures
        fnv1a(Seq::<u8>::empty()) == FNV_OFFSET,
        fnv1a(d.push(b)) as int == ((fnv1a(d) ^ (b as u64)) as int) * (FNV_PRIME as int)
            % 0x1_0000_0000_0000_0000int,
{
    assert(d.push(b).drop_last() =~= d);
    assert(d.push(b).last() == b);
}

/// Multiplying the product of `z` and the prime (modulo 2^64) by the
/// prime's inverse modulo 2^64 gives `z` back.
proof fn lemma_undo_prime(z: u64)
    ensures
        (z.wrapping_mul(FNV_PRIME) as int) * 0xce965057aff6957bint % 0x1_0000_0000_0000_0000int == z as int,
{
    let m: int = 0x1_0000_0000_0000_0000int;
    let inv: int = 0xce965057aff6957bint;
    let p: int = FNV_PRIME as int;
    let c: int = 887285111055int;
    let zi: int = z as int;
    assert(p * inv == c * m + 1);
    assert(z.wrapping_mul(FNV_PRIME) as int == (zi * p) % m);
    vstd::arithmetic::div_mod::lemma_mul_mod_noop_left(zi * p, inv, m);
    vstd::arithmetic::mul::lemma_mul_is_associative(zi, p, inv);
    vstd::arithmetic::mul::lemma_mul_is_distributive_add(zi, c * m, 1);
    vstd::arithmetic::mul::lemma_mul_is_associative(zi, c, m);
    vstd::arithmetic::mul::lemma_mul_is_commutative(zi * c, m);
    assert(zi * p * inv == m * (zi * c) + zi);
    vstd::arithmetic::div_mod::lemma_mod_multiples_vanish(zi * c, zi, m);
    vstd::arithmetic::div_mod::lemma_small_mod(z as nat, m as nat);
}

/// Two inputs that differ only in their last byte hash differently: the
/// last byte always changes the hash.
pub proof fn law_fnv1a_last_byte_changes_hash(d: Seq<u8>, b1: u8, b2: u8)
    requires
        b1 != b2,
    ensures
        fnv1a(d.push(b1)) != fnv1a(d.push(b2)),
{
    let h = fnv1a(d);
    assert(d.push(b1).drop_last() =~= d);
    assert(d.push(b2).drop_last() =~= d);
    assert(d.push(b1).last() == b1);
    assert(d.push(b2).last() == b2);
    let x1 = h ^ (b1 as u64);
    let x2 = h ^ (b2 as u64);
    assert(x1 != x2) by (bit_vector)
        requires
            x1 == h ^ (b1 as u64),
            x2 == h ^ (b2 as u64),
            b1 != b2,
    ;
    lemma_undo_prime(x1);
    lemma_undo_prime(x2);
}

} // verus!
