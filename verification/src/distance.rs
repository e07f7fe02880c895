//! The distance between two binary descriptors: the number of bits in which
//! they differ.

use vstd::prelude::*;

verus! {

/// The number of one bits of a byte.
pub open spec fn ones(b: u8) -> nat
    decreases b,
{
    if b == 0 {
        0
    } else {
        (b % 2) as nat + ones(b / 2)
    }
}

/// The number of bits in which the first `n` bytes of `a` and `b` differ.
pub open spec fn distance_upto(a: Seq<u8>, b: Seq<u8>, n: int) -> nat
    decreases n,
{
    if n <= 0 {
        0
    } else {
        distance_upto(a, b, n - 1) + ones(a[n - 1] ^ b[n - 1])
    }
}

/// The number of bits in which two descriptors of one length differ.
pub open spec fn distance(a: Seq<u8>, b: Seq<u8>) -> nat {
    distance_upto(a, b, a.len() as int)
}

/// Looking at more bytes never makes the distance smaller.
pub proof fn lemma_distance_grows(a: Seq<u8>, b: Seq<u8>, n: int, m: int)
    requires
        n <= m,
    ensures
        distance_upto(a, b, n) <= distance_upto(a, b, m),
    decreases m - n,
{
    if n < m {
        lemma_distance_grows(a, b, n, m - 1);
    }
}

/// The distance does not depend on the order of the two descriptors.
pub proof fn lemma_distance_symmetric(a: Seq<u8>, b: Seq<u8>, n: int)
    ensures
        distance_upto(a, b, n) == distance_upto(b, a, n),
    decreases n,
{
    if n > 0 {
        lemma_distance_symmetric(a, b, n - 1);
        let x = a[n - 1];
        let y = b[n - 1];
        assert(x ^ y == y ^ x) by (bit_vector);
    }
}

/// The number of one bits of a byte.
pub fn count_ones(b: u8) -> (n: u8)
    ensures
        n == ones(b),
{
    let mut x: u8 = b;
    let mut n: u8 = 0;
    while x != 0
        invariant
            n + ones(x) == ones(b),
            n + x <= b,
        decreases x,
    {
        n = n + x % 2;
        x = x / 2;
    }
    n
}

/// The distance between `a` and `b` when it is at most `limit`, else `None`.
/// The scan stops as soon as the limit is passed.
pub fn hamming_within(a: &[u8], b: &[u8], limit: u32) -> (d: Option<u32>)
    requires
        a@.len() == b@.len(),
    ensures
        d == (if distance(a@, b@) <= limit {
            Some(distance(a@, b@) as u32)
        } else {
            None::<u32>
        }),
{
    let mut acc: u64 = 0;
    let mut i: usize = 0;
    while i < a.len()
        invariant
            i <= a@.len(),
            a@.len() == b@.len(),
            acc == distance_upto(a@, b@, i as int),
            acc <= limit,
        decreases a@.len() - i,
    {
        let w: u8 = count_ones(a[i] ^ b[i]);
        acc = acc + w as u64;
        if acc > limit as u64 {
            proof {
                lemma_distance_grows(a@, b@, i + 1, a@.len() as int);
            }
            return None;
        }
        i += 1;
    }
    Some(acc as u32)
}

} // verus!
