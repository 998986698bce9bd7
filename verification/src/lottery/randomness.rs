//! Drawing random tickets from the runtime's randomness.

use vstd::prelude::*;

use crate::scale::{decode_u32, encode_id_and_u32, le_bytes_u32, le_value};

use super::{Config, Env, Pallet};

verus! {

broadcast use vstd::array::group_array_axioms;

/// The random number the runtime gives the lottery with identifier
/// `pallet_id` for `seed`: the first four bytes of the hash of the subject
/// (the identifier and the seed, encoded), read little-endian.
pub open spec fn draw(env: Env, pallet_id: [u8; 8], seed: u32) -> u32 {
    le_value((env.random)(pallet_id@ + le_bytes_u32(seed))@.take(4)) as u32
}

/// The largest multiple of `total` that fits in a `u32`: numbers drawn
/// below it fall evenly on the tickets.
pub open spec fn unbiased_below(total: u32) -> u32 {
    (u32::MAX - u32::MAX % total) as u32
}

/// The bound below which draws are kept is the largest multiple of `total`
/// that is at most `u32::MAX`, so every ticket is drawn from as many numbers
/// below it as every other; and a ticket is always below `total`.
pub proof fn lemma_unbiased_bound(env: Env, pallet_id: [u8; 8], total: u32)
    requires
        total > 0,
    ensures
        unbiased_below(total) % total == 0,
        unbiased_below(total) <= u32::MAX,
        u32::MAX < unbiased_below(total) + total,
        ticket(env, pallet_id, total) < total,
{
    let m = u32::MAX as int;
    let t = total as int;
    assert(m == t * (m / t) + m % t) by (nonlinear_arith)
        requires
            t > 0,
    ;
    assert((t * (m / t)) % t == 0) by (nonlinear_arith)
        requires
            t > 0,
    ;
    assert(0 <= m % t < t) by (nonlinear_arith)
        requires
            t > 0,
    ;
}

/// The number kept from the draws `k`, `k + 1`, ...: the first of the draws
/// before the hundredth that falls below `bound`, else the hundredth draw.
pub open spec fn accepted_draw(env: Env, pallet_id: [u8; 8], bound: u32, k: int) -> u32
    decreases 99 - k,
{
    if k >= 99 {
        draw(env, pallet_id, 99)
    } else if draw(env, pallet_id, k as u32) < bound {
        draw(env, pallet_id, k as u32)
    } else {
        accepted_draw(env, pallet_id, bound, k + 1)
    }
}

/// The ticket drawn among `total` tickets: the number kept from the draws,
/// modulo `total`.
pub open spec fn ticket(env: Env, pallet_id: [u8; 8], total: u32) -> u32 {
    (accepted_draw(env, pallet_id, unbiased_below(total), 0) % total) as u32
}

impl Pallet {
    /// A random number for `seed`: the runtime's randomness for the subject
    /// `random_subject(seed)`, read by `random_number_from`. The runtime
    /// decides the hash, so any `u32` may come back.
    pub fn generate_random_number<R: Config>(&self, rt: &R, seed: u32) -> (r: u32)
        ensures
            r == draw(rt.env(), self@.pallet_id, seed),
    {
        let subject = self.random_subject(seed);
        let random_seed = rt.random(&subject);
        Self::random_number_from(&random_seed)
    }

    /// The subject the runtime's randomness is asked about for `seed`: the
    /// pallet's identifier followed by the seed, SCALE-encoded.
    pub fn random_subject(&self, seed: u32) -> (r: Vec<u8>)
        ensures
            r@ == self@.pallet_id@ + le_bytes_u32(seed),
    {
        encode_id_and_u32(self.pallet_id, seed)
    }

    /// The number a random hash stands for: its first four bytes, read
    /// little-endian.
    pub fn random_number_from(random_seed: &[u8; 32]) -> (r: u32)
        ensures
            r == le_value(random_seed@.take(4)),
    {
        decode_u32(random_seed.as_slice()).unwrap()
    }

    /// A random ticket below `total`, or `None` when there are no tickets.
    /// To lessen the bias of the modulus, up to 100 numbers are drawn until
    /// one falls below the largest multiple of `total` that fits in a `u32`.
    pub fn choose_ticket<R: Config>(&self, rt: &R, total: u32) -> (r: Option<u32>)
        ensures
            total == 0 ==> r is None,
            total > 0 ==> r == Some(ticket(rt.env(), self@.pallet_id, total)),
            r matches Some(t) ==> t < total,
    {
        if total == 0 {
            return None;
        }
        let ghost env = rt.env();
        let ghost pid = self@.pallet_id;
        let mut random_number = self.generate_random_number(rt, 0);
        let unbiased_below = u32::MAX - u32::MAX % total;
        let ghost bound = unbiased_below;
        let mut i: u32 = 1;
        while i < 100
            invariant
                1 <= i <= 100,
                env == rt.env(),
                pid == self@.pallet_id,
                bound == unbiased_below,
                random_number == draw(env, pid, (i - 1) as u32),
                accepted_draw(env, pid, bound, 0) == accepted_draw(env, pid, bound, i - 1),
            ensures
                random_number == accepted_draw(env, pid, bound, 0),
            decreases 100 - i,
        {
            if random_number < unbiased_below {
                break;
            }
            random_number = self.generate_random_number(rt, i);
            i = i + 1;
        }
        Some(random_number % total)
    }
}

} // verus!
