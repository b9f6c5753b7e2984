//! Delta synchronization.
//!
//! A reader at generation *m* advancing to *n* fetches the generation
//! records between them. Checkpoints at every power of two behind the head
//! bound the number of fetches by the number of set bits in the distance.

use vstd::arithmetic::power2::{lemma_pow2_strictly_increases, lemma_pow2_unfold, pow2};
use vstd::prelude::*;

verus! {

/// Why a delta could not be applied.
#[derive(Debug, PartialEq, Eq, Clone)]
#[non_exhaustive]
pub enum DeltaError {
    /// The sequence of generation records was not contiguous.
    NotContiguous {
        /// The index required next.
        expected: u64,
        /// The index supplied.
        found: u64,
    },
    /// The result did not match the target generation's root.
    RootMismatch {
        /// What the client computed.
        computed: String,
        /// What the generation declared.
        expected: String,
    },
    /// The delta was empty when advancement was requested.
    Empty,
}

/// Whether `x` is a checkpoint behind `head`: `head` less a power of two
/// that does not exceed it.
pub open spec fn is_checkpoint(head: u64, x: int) -> bool {
    exists|k: nat| pow2(k) <= head && x == head - pow2(k)
}

/// Checkpoint origins for a client advancing to `head`, ascending.
///
/// Exponentially spaced, so a client far behind is covered in a
/// logarithmic number of fetches rather than one per generation.
pub fn checkpoints(head: u64) -> (r: Vec<u64>)
    ensures
        forall|i: int, j: int| 0 <= i < j < r.len() ==> r[i] < r[j],
        forall|x: int| r@.contains(x as u64) && 0 <= x <= u64::MAX <==> is_checkpoint(head, x),
        r.len() <= 64,
{
    broadcast use {lemma_pow2_unfold, lemma_pow2_strictly_increases};

    let mut desc: Vec<u64> = Vec::new();
    let mut step: u64 = 1;
    let ghost mut k: nat = 0;
    assert(pow2(0) == 1) by {
        vstd::arithmetic::power2::lemma2_to64();
    }
    while step <= head
        invariant
            step == pow2(k),
            desc.len() == k,
            k <= 64,
            k == 64 ==> step > head,
            forall|j: int| 0 <= j < k ==> desc[j] == head - pow2(j as nat),
            forall|j: nat| j < k ==> #[trigger] pow2(j) <= head,
        decreases 65 - k,
    {
        desc.push(head - step);
        if step > u64::MAX / 2 {
            proof {
                lemma_pow2_unfold(k + 1);
                assert(pow2(k + 1) == 2 * pow2(k));
                k = k + 1;
                assert forall|e: nat| e >= k implies pow2(e) > head by {
                    if e > k {
                        lemma_pow2_strictly_increases(k, e);
                    }
                }
                if k < 64 {
                    vstd::arithmetic::power2::lemma2_to64();
                    lemma_pow2_strictly_increases(k, 64);
                }
            }
            let r = reverse_of(&desc);
            proof {
                lemma_checkpoints_exact(head, desc@, k, r@);
            }
            return r;
        }
        step = step * 2;
        proof {
            lemma_pow2_unfold(k + 1);
                assert(pow2(k + 1) == 2 * pow2(k));
            k = k + 1;
            if k == 64 {
                vstd::arithmetic::power2::lemma2_to64();
            }
        }
    }
    proof {
        assert forall|e: nat| e >= k implies pow2(e) > head by {
            if e > k {
                lemma_pow2_strictly_increases(k, e);
            }
        }
    }
    let r = reverse_of(&desc);
    proof {
        lemma_checkpoints_exact(head, desc@, k, r@);
    }
    r
}

/// The checkpoints collected in descending order, reversed, are exactly
/// the checkpoints, ascending.
proof fn lemma_checkpoints_exact(head: u64, desc: Seq<u64>, k: nat, r: Seq<u64>)
    requires
        desc.len() == k,
        k <= 64,
        forall|j: int| 0 <= j < k ==> desc[j] == head - pow2(j as nat),
        forall|j: nat| j < k ==> #[trigger] pow2(j) <= head,
        forall|e: nat| e >= k ==> pow2(e) > head,
        r == desc.reverse(),
    ensures
        forall|i: int, j: int| 0 <= i < j < r.len() ==> r[i] < r[j],
        forall|x: int| r.contains(x as u64) && 0 <= x <= u64::MAX <==> is_checkpoint(head, x),
        r.len() <= 64,
{
    broadcast use lemma_pow2_strictly_increases;

    assert forall|i: int, j: int| 0 <= i < j < r.len() implies r[i] < r[j] by {
        let a = k - 1 - i;
        let b = k - 1 - j;
        assert(r[i] == desc[a]);
        assert(r[j] == desc[b]);
        lemma_pow2_strictly_increases(b as nat, a as nat);
    }
    assert forall|x: int| r.contains(x as u64) && 0 <= x <= u64::MAX implies is_checkpoint(head, x) by {
        let i = choose|i: int| 0 <= i < r.len() && r[i] == x as u64;
        let e = (k - 1 - i) as nat;
        assert(r[i] == desc[k - 1 - i]);
        assert(pow2(e) <= head && x == head - pow2(e));
    }
    assert forall|x: int| is_checkpoint(head, x) implies r.contains(x as u64) && 0 <= x <= u64::MAX by {
        let e = choose|e: nat| pow2(e) <= head && x == head - pow2(e);
        if e >= k {
            assert(pow2(e) > head);
        }
        let i = k - 1 - e;
        assert(r[i] == desc[e as int]);
    }
}

/// The items of a list in reverse order.
fn reverse_of(v: &Vec<u64>) -> (r: Vec<u64>)
    ensures
        r@ == v@.reverse(),
{
    let mut out: Vec<u64> = Vec::new();
    let mut i: usize = v.len();
    while i > 0
        invariant
            i <= v.len(),
            out@ == v@.skip(i as int).reverse(),
        decreases i,
    {
        i = i - 1;
        out.push(v[i]);
        assert(out@ =~= v@.skip(i as int).reverse());
    }
    assert(v@.skip(0) =~= v@);
    out
}

/// The number of set bits in `x`.
pub open spec fn set_bits(x: nat) -> nat
    decreases x,
{
    if x == 0 {
        0
    } else {
        x % 2 + set_bits(x / 2)
    }
}

/// The number of binary digits of `x`; zero has none.
pub open spec fn bit_length(x: nat) -> nat
    decreases x,
{
    if x == 0 {
        0
    } else {
        1 + bit_length(x / 2)
    }
}

/// No number has more set bits than digits.
pub proof fn lemma_set_bits_bound(x: nat)
    ensures
        set_bits(x) <= bit_length(x),
    decreases x,
{
    if x > 0 {
        lemma_set_bits_bound(x / 2);
    }
}

/// A 64-bit number has at most 64 digits.
proof fn lemma_bit_length_u64(x: nat, bound: nat, n: nat)
    requires
        x < pow2(n),
    ensures
        bit_length(x) <= n,
    decreases n,
{
    if x > 0 {
        if n == 0 {
            assert(pow2(0) == 1) by {
                vstd::arithmetic::power2::lemma2_to64();
            }
        } else {
            lemma_pow2_unfold(n);
            lemma_bit_length_u64(x / 2, bound, (n - 1) as nat);
        }
    }
}

/// How many fetches a client at `current` needs to reach `head`.
///
/// With checkpoints at every power of two behind the head, a client greedily
/// takes the largest jump that does not overshoot, so the distance is
/// covered in one fetch per set bit: never more than its number of binary
/// digits, and never more than 64.
pub fn fetches_required(current: u64, head: u64) -> (r: u32)
    ensures
        current >= head ==> r == 0,
        current < head ==> r == set_bits((head - current) as nat),
        current < head ==> r <= bit_length((head - current) as nat),
        r <= 64,
{
    if current >= head {
        return 0;
    }
    let distance = head - current;
    let mut x = distance;
    let mut count: u32 = 0;
    proof {
        vstd::arithmetic::power2::lemma2_to64();
        lemma_bit_length_u64(distance as nat, 0, 64);
        lemma_set_bits_bound(distance as nat);
    }
    while x > 0
        invariant
            count + set_bits(x as nat) == set_bits(distance as nat),
            set_bits(distance as nat) <= 64,
        decreases x,
    {
        count = count + (x % 2) as u32;
        x = x / 2;
    }
    count
}

} // verus!
