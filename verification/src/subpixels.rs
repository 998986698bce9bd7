//! A pick names its sub-pixels as a bit set packed in a `u128`:
//! sub-pixel `i` is chosen when bit `i` is set.

use vstd::prelude::*;

use crate::lottery::Pallet;

verus! {

/// The largest bit set accepted by `subpixels_to_vec`: bit 127 must be clear.
pub const SUBPIXEL_SET_LIMIT: u128 = 0x8000_0000_0000_0000_0000_0000_0000_0000;

/// Whether bit `i` of `x` is set.
pub open spec fn bit_set(x: u128, i: u8) -> bool {
    (x >> i) & 1u128 == 1u128
}

/// The indices below `n` of the set bits of `x`, in increasing order.
pub open spec fn set_bits_below(x: u128, n: nat) -> Seq<u8>
    decreases n,
{
    if n == 0 {
        seq![]
    } else {
        let rest = set_bits_below(x, (n - 1) as nat);
        if n - 1 < 128 && bit_set(x, (n - 1) as u8) {
            rest.push((n - 1) as u8)
        } else {
            rest
        }
    }
}

/// The indices of the set bits of `x`, in increasing order.
pub open spec fn set_bits(x: u128) -> Seq<u8> {
    set_bits_below(x, 128)
}

/// The sum of a sequence of sub-pixel indices.
pub open spec fn index_sum(s: Seq<u8>) -> nat
    decreases s.len(),
{
    if s.len() == 0 {
        0
    } else {
        index_sum(s.drop_last()) + s.last() as nat
    }
}

/// Every element of `set_bits_below(x, n)` is below `n`, the elements
/// increase strictly, and an index below `n` occurs exactly when its bit is set.
pub proof fn lemma_set_bits_below(x: u128, n: nat)
    requires
        n <= 128,
    ensures
        set_bits_below(x, n).len() <= n,
        forall|k: int| 0 <= k < set_bits_below(x, n).len() ==> #[trigger] set_bits_below(x, n)[k] < n,
        forall|k: int, l: int|
            0 <= k < l < set_bits_below(x, n).len() ==> set_bits_below(x, n)[k] < set_bits_below(x, n)[l],
        forall|i: u8| i < n ==> (set_bits_below(x, n).contains(i) <==> bit_set(x, i)),
    decreases n,
{
    if n > 0 {
        lemma_set_bits_below(x, (n - 1) as nat);
        let rest = set_bits_below(x, (n - 1) as nat);
        let last = (n - 1) as u8;
        let grown = rest.push(last);
        assert forall|i: u8| i < n implies (set_bits_below(x, n).contains(i) <==> bit_set(x, i)) by {
            if i < n - 1 {
                if bit_set(x, last) {
                    if grown.contains(i) {
                        let k = choose|k: int| 0 <= k < grown.len() && #[trigger] grown[k] == i;
                        if k < rest.len() {
                            assert(rest[k] == i);
                        }
                    }
                    if rest.contains(i) {
                        let k = choose|k: int| 0 <= k < rest.len() && #[trigger] rest[k] == i;
                        assert(grown[k] == i);
                    }
                }
            } else {
                if bit_set(x, last) {
                    assert(grown[rest.len() as int] == i);
                }
            }
        }
    }
}

/// Bits at or above the first power of two that exceeds `x` are clear.
pub proof fn lemma_high_bits_clear(x: u128, i: u8, j: u8)
    requires
        i <= j < 128,
        x < (1u128 << i),
    ensures
        !bit_set(x, j),
{
    assert(i <= j < 128 && x < (1u128 << i) ==> (x >> j) & 1u128 == 0u128) by (bit_vector);
}

/// When every bit from `n` up is clear, the set bits below 128 are those below `n`.
pub proof fn lemma_set_bits_from(x: u128, n: nat, m: nat)
    requires
        n <= m <= 128,
        forall|j: u8| n <= j < 128 ==> !bit_set(x, j),
    ensures
        set_bits_below(x, m) == set_bits_below(x, n),
    decreases m,
{
    if m > n {
        lemma_set_bits_from(x, n, (m - 1) as nat);
        assert(!bit_set(x, (m - 1) as u8));
    }
}

/// Sub-pixel `i` is chosen exactly when bit `i` is set; `set_bits` lists
/// the chosen sub-pixels in increasing order without repetition.
pub proof fn lemma_set_bits(x: u128)
    ensures
        set_bits(x).len() <= 128,
        forall|k: int| 0 <= k < set_bits(x).len() ==> #[trigger] set_bits(x)[k] < 128,
        forall|k: int, l: int| 0 <= k < l < set_bits(x).len() ==> set_bits(x)[k] < set_bits(x)[l],
        forall|i: u8| i < 128 ==> (set_bits(x).contains(i) <==> bit_set(x, i)),
        set_bits(x).no_duplicates(),
{
    lemma_set_bits_below(x, 128);
}

/// The bit set in which exactly the sub-pixels `ids` are chosen.
pub open spec fn pack(ids: Seq<u8>) -> u128
    decreases ids.len(),
{
    if ids.len() == 0 {
        0
    } else {
        pack(ids.drop_last()) | (1u128 << ids.last())
    }
}

/// The bits of `x` below `n`.
pub open spec fn low_bits(x: u128, n: nat) -> u128 {
    if n >= 128 {
        x
    } else {
        x & !(0xffff_ffff_ffff_ffff_ffff_ffff_ffff_ffffu128 << (n as u8))
    }
}

/// Taking one more bit of `x` adds it when it is set.
proof fn lemma_low_bits_step(x: u128, m: u8, m1: u8)
    by (bit_vector)
    requires
        m1 == m + 1,
        m1 < 128,
    ensures
        (x >> m) & 1u128 == 1u128 ==> (x & !(0xffff_ffff_ffff_ffff_ffff_ffff_ffff_ffffu128 << m)) | (1u128 << m)
            == x & !(0xffff_ffff_ffff_ffff_ffff_ffff_ffff_ffffu128 << m1),
        (x >> m) & 1u128 != 1u128 ==> x & !(0xffff_ffff_ffff_ffff_ffff_ffff_ffff_ffffu128 << m) == x & !(
        0xffff_ffff_ffff_ffff_ffff_ffff_ffff_ffffu128 << m1),
{
}

/// The top bit of `x` completes it.
proof fn lemma_low_bits_top(x: u128)
    by (bit_vector)
    ensures
        (x >> 127u8) & 1u128 == 1u128 ==> (x & !(0xffff_ffff_ffff_ffff_ffff_ffff_ffff_ffffu128 << 127u8)) | (
        1u128 << 127u8) == x,
        (x >> 127u8) & 1u128 != 1u128 ==> x & !(0xffff_ffff_ffff_ffff_ffff_ffff_ffff_ffffu128 << 127u8) == x,
{
}

/// Packing the set bits of `x` below `n` gives the bits of `x` below `n`.
proof fn lemma_pack_below(x: u128, n: nat)
    requires
        n <= 128,
    ensures
        pack(set_bits_below(x, n)) == low_bits(x, n),
    decreases n,
{
    if n == 0 {
        assert(x & !(0xffff_ffff_ffff_ffff_ffff_ffff_ffff_ffffu128 << 0u8) == 0u128) by (bit_vector);
    } else {
        lemma_pack_below(x, (n - 1) as nat);
        let m = (n - 1) as u8;
        let rest = set_bits_below(x, (n - 1) as nat);
        if bit_set(x, m) {
            assert(rest.push(m).drop_last() =~= rest);
        }
        if n < 128 {
            lemma_low_bits_step(x, m, n as u8);
        } else {
            lemma_low_bits_top(x);
        }
    }
}

/// Listing the chosen sub-pixels and packing them back gives the bit set
/// back: a bit set and its list of sub-pixels say the same.
pub proof fn lemma_pack_set_bits(x: u128)
    ensures
        pack(set_bits(x)) == x,
{
    lemma_pack_below(x, 128);
}

impl Pallet {
    /// The sub-pixels chosen by the bit set `subpixels`, in increasing order.
    /// Bit 127 must be clear.
    pub fn subpixels_to_vec(subpixels: u128) -> (v: Vec<u8>)
        requires
            subpixels < SUBPIXEL_SET_LIMIT,
        ensures
            v@ == set_bits(subpixels),
    {
        let mut v: Vec<u8> = Vec::new();
        let mut val: u128 = 1;
        let mut i: u8 = 0;
        assert(1u128 << 0u8 == 1u128) by (bit_vector);
        while val <= subpixels
            invariant
                i < 128,
                val == 1u128 << i,
                subpixels < SUBPIXEL_SET_LIMIT,
                v@ == set_bits_below(subpixels, i as nat),
            decreases 128 - i,
        {
            let tmp = subpixels & val;
            proof {
                assert(val == 1u128 << i ==> ((subpixels & val) > 0 <==> (subpixels >> i) & 1u128 == 1u128))
                    by (bit_vector);
                assert(i < 128 && val == 1u128 << i && val <= subpixels && subpixels < 0x8000_0000_0000_0000_0000_0000_0000_0000u128
                    ==> i < 127 && val << 1u128 == 1u128 << ((i + 1) as u8)) by (bit_vector);
            }
            if tmp > 0 {
                v.push(i);
            }
            i = i + 1;
            val = val << 1;
        }
        proof {
            assert forall|j: u8| i <= j < 128 implies !bit_set(subpixels, j) by {
                lemma_high_bits_clear(subpixels, i, j);
            }
            lemma_set_bits_from(subpixels, i as nat, 128);
        }
        v
    }
}

} // verus!
