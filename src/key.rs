use vstd::prelude::*;

verus! {

broadcast use vstd::array::group_array_axioms;

/// Nybble `i` of `key`: the low half of byte `i / 2` when `i` is even, the
/// high half when it is odd.
pub open spec fn nyb(key: Seq<u8>, i: int) -> u8 {
    if i % 2 == 0 {
        key[i / 2] & 0x0Fu8
    } else {
        key[i / 2] >> 4u8
    }
}

/// The first nybble position at which two keys of equal length differ, or
/// twice their length when they are equal.
pub open spec fn divergence(a: Seq<u8>, b: Seq<u8>) -> int
    recommends
        a.len() == b.len(),
{
    if exists|i: int| 0 <= i < 2 * a.len() && nyb(a, i) != nyb(b, i) {
        choose|i: int|
            0 <= i < 2 * a.len() && nyb(a, i) != nyb(b, i) && forall|j: int|
                0 <= j < i ==> nyb(a, j) == nyb(b, j)
    } else {
        2 * a.len() as int
    }
}

pub(crate) proof fn lemma_byte_nybbles(x: u8, y: u8)
    ensures
        (x & 0x0Fu8 == y & 0x0Fu8 && x >> 4u8 == y >> 4u8) <==> x == y,
        x & 0x0Fu8 < 16,
        x >> 4u8 < 16,
        (x ^ y) & 0x0Fu8 != 0 <==> x & 0x0Fu8 != y & 0x0Fu8,
        ((x ^ y) != 0 && (x ^ y) & 0x0Fu8 == 0) ==> x >> 4u8 != y >> 4u8,
        (x ^ y) == 0 <==> x == y,
{
    assert((x & 0x0Fu8 == y & 0x0Fu8 && x >> 4u8 == y >> 4u8) <==> x == y) by (bit_vector);
    assert(x & 0x0Fu8 < 16) by (bit_vector);
    assert(x >> 4u8 < 16) by (bit_vector);
    assert((x ^ y) & 0x0Fu8 != 0 <==> x & 0x0Fu8 != y & 0x0Fu8) by (bit_vector);
    assert(((x ^ y) != 0 && (x ^ y) & 0x0Fu8 == 0) ==> x >> 4u8 != y >> 4u8) by (bit_vector);
    assert((x ^ y) == 0 <==> x == y) by (bit_vector);
}

/// Two keys that agree on every nybble are the same key.
pub(crate) proof fn lemma_same_nybbles<const N: usize>(a: [u8; N], b: [u8; N])
    requires
        forall|i: int| 0 <= i < 2 * N ==> nyb(a@, i) == nyb(b@, i),
    ensures
        a == b,
{
    assert forall|j: int| 0 <= j < N implies a[j] == b[j] by {
        assert(nyb(a@, 2 * j) == nyb(b@, 2 * j));
        assert(nyb(a@, 2 * j + 1) == nyb(b@, 2 * j + 1));
        lemma_byte_nybbles(a[j], b[j]);
    }
    assert(a =~= b);
}

pub(crate) proof fn lemma_divergence<const N: usize>(a: [u8; N], b: [u8; N], d: int)
    requires
        0 <= d <= 2 * N,
        forall|i: int| 0 <= i < d ==> nyb(a@, i) == nyb(b@, i),
        d < 2 * N ==> nyb(a@, d) != nyb(b@, d),
    ensures
        divergence(a@, b@) == d,
{
    if d < 2 * N {
        let c = choose|i: int|
            0 <= i < 2 * a@.len() && nyb(a@, i) != nyb(b@, i) && forall|j: int|
                0 <= j < i ==> nyb(a@, j) == nyb(b@, j);
        assert(0 <= d < 2 * a@.len() && nyb(a@, d) != nyb(b@, d) && forall|j: int|
            0 <= j < d ==> nyb(a@, j) == nyb(b@, j));
    }
}

/// The nybble of `key` at position `idx`.
pub(crate) fn nybble<const N: usize>(idx: usize, key: &[u8; N]) -> (r: u8)
    requires
        idx < 2 * N,
    ensures
        r == nyb(key@, idx as int),
        r < 16,
{
    let byte = key[idx / 2];
    proof {
        lemma_byte_nybbles(byte, byte);
    }
    if idx % 2 == 0 {
        byte & 0x0F
    } else {
        byte >> 4
    }
}

/// The first nybble position in `lo..hi` at which `a` and `b` differ, or `hi`.
/// Bytes are compared whole, by exclusive or, from the byte that holds
/// nybble `lo`.
pub(crate) fn first_difference<const N: usize>(a: &[u8; N], b: &[u8; N], lo: usize, hi: usize) -> (r: usize)
    requires
        lo <= hi <= 2 * N,
        lo % 2 == 1 ==> nyb(a@, lo - 1) == nyb(b@, lo - 1),
    ensures
        lo <= r <= hi,
        forall|i: int| lo <= i < r ==> nyb(a@, i) == nyb(b@, i),
        r < hi ==> nyb(a@, r as int) != nyb(b@, r as int),
{
    let mut i: usize = lo / 2;
    let end: usize = hi / 2 + hi % 2;
    while i < end
        invariant
            lo <= hi <= 2 * N,
            end == hi / 2 + hi % 2,
            i <= end,
            i == lo / 2 || 2 * i >= lo,
            2 * i <= hi + 1,
            lo % 2 == 1 ==> nyb(a@, lo - 1) == nyb(b@, lo - 1),
            forall|j: int| lo <= j < 2 * i && j < hi ==> nyb(a@, j) == nyb(b@, j),
        decreases end - i,
    {
        let difference = a[i] ^ b[i];
        proof {
            lemma_byte_nybbles(a[i as int], b[i as int]);
        }
        if difference != 0 {
            let d = if difference & 0x0F != 0 {
                2 * i
            } else {
                2 * i + 1
            };
            return if d < hi {
                d
            } else {
                hi
            };
        }
        i = i + 1;
    }
    hi
}

} // verus!
