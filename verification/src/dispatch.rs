//! What a call brings with it and what it can be answered: the caller's
//! origin, the errors a call ends with, the payments it asks the runtime's
//! currency for, and the storage work it reports.

use vstd::prelude::*;

use crate::lottery;
use crate::pixel;

verus! {

/// Who makes a call: the chain itself (root), a signed account, or an unsigned call.
#[derive(Clone, Copy, Debug, PartialEq, Eq, Structural)]
pub enum Origin {
    Root,
    Signed(u64),
    Unsigned,
}

/// The ways a call can fail.
#[derive(Clone, Copy, Debug, PartialEq, Eq, Structural)]
pub enum DispatchError {
    /// The origin may not make this call.
    BadOrigin,
    /// A counter would pass its largest value.
    Overflow,
    /// An error of the pixel registry.
    Pixel(pixel::Error),
    /// An error of the lottery.
    Lottery(lottery::Error),
    /// An error raised by the runtime (for instance by its currency), with its code.
    Runtime(u32),
}

/// A movement of money carried out by the runtime's currency.
#[derive(Clone, Copy, Debug, PartialEq, Eq, Structural)]
pub enum Payment {
    /// `amount` moved from `from` to `to`.
    Transfer { from: u64, to: u64, amount: u128 },
    /// `amount` minted into `who`.
    Deposit { who: u64, amount: u128 },
}

/// The payments of `planned` whose entry in `made` is true, in order.
pub open spec fn kept(planned: Seq<Payment>, made: Seq<bool>) -> Seq<Payment>
    decreases planned.len(),
{
    if planned.len() == 0 || made.len() == 0 {
        seq![]
    } else {
        let earlier = kept(planned.drop_last(), made.drop_last());
        if made.last() {
            earlier.push(planned.last())
        } else {
            earlier
        }
    }
}

/// How much `p` moves.
pub open spec fn amount_of(p: Payment) -> u128 {
    match p {
        Payment::Transfer { amount, .. } => amount,
        Payment::Deposit { amount, .. } => amount,
    }
}

/// The sum of the amounts of `ps`.
pub open spec fn payments_total(ps: Seq<Payment>) -> int
    decreases ps.len(),
{
    if ps.len() == 0 {
        0
    } else {
        payments_total(ps.drop_last()) + amount_of(ps.last())
    }
}

/// The total of one payment is its amount.
pub proof fn lemma_total_single(p: Payment)
    ensures
        payments_total(seq![p]) == amount_of(p),
{
    assert(seq![p].drop_last() =~= Seq::<Payment>::empty());
    assert(payments_total(Seq::<Payment>::empty()) == 0);
}

/// The total of two runs of payments is the sum of their totals.
pub proof fn lemma_total_concat(a: Seq<Payment>, b: Seq<Payment>)
    ensures
        payments_total(a + b) == payments_total(a) + payments_total(b),
    decreases b.len(),
{
    if b.len() == 0 {
        assert(a + b =~= a);
    } else {
        lemma_total_concat(a, b.drop_last());
        assert((a + b).drop_last() =~= a + b.drop_last());
        assert((a + b).last() == b.last());
    }
}

/// Payments that all move the same amount total that amount times their number.
pub proof fn lemma_total_uniform(ps: Seq<Payment>, amount: u128)
    requires
        forall|i: int| 0 <= i < ps.len() ==> amount_of(#[trigger] ps[i]) == amount,
    ensures
        payments_total(ps) == ps.len() * amount,
    decreases ps.len(),
{
    if ps.len() > 0 {
        let prefix = ps.drop_last();
        assert forall|i: int| 0 <= i < prefix.len() implies amount_of(#[trigger] prefix[i]) == amount by {
            assert(prefix[i] == ps[i]);
        }
        lemma_total_uniform(prefix, amount);
        assert(amount_of(ps[ps.len() - 1]) == amount);
        let n = ps.len() as int;
        assert((n - 1) * amount + amount == n * amount) by (nonlinear_arith);
    }
}

/// Whether the payments of `planned` were asked for in turn until one
/// failed: when `ok`, all of them were asked for (`asked0` to `asked1`) and
/// carried out (`paid0` to `paid1`); otherwise the first `k` of them were
/// asked for, for some `k` from 1 on, and all but the last of those carried
/// out.
pub open spec fn asked_in_turn(
    asked0: Seq<Payment>,
    asked1: Seq<Payment>,
    paid0: Seq<Payment>,
    paid1: Seq<Payment>,
    planned: Seq<Payment>,
    ok: bool,
) -> bool {
    if ok {
        asked1 == asked0 + planned && paid1 == paid0 + planned
    } else {
        exists|k: int|
            0 < k <= planned.len() && asked1 == asked0 + #[trigger] planned.take(k) && paid1 == paid0
                + planned.take(k - 1)
    }
}

/// Whether `after` is `before` followed by the payments of `planned`, in
/// order, with some of them left out.
pub open spec fn paid_some_of(before: Seq<Payment>, after: Seq<Payment>, planned: Seq<Payment>) -> bool {
    exists|made: Seq<bool>| made.len() == planned.len() && after == before + #[trigger] kept(planned, made)
}

/// Storage accesses a block hook reports as its cost.
#[derive(Clone, Copy, Debug, PartialEq, Eq, Structural)]
pub struct Weight {
    pub reads: u64,
    pub writes: u64,
}

/// The account that signed `origin`; meaningful only for a signed origin.
pub open spec fn signer(origin: Origin) -> u64 {
    match origin {
        Origin::Signed(who) => who,
        _ => 0,
    }
}

/// The account that signed a call, or `BadOrigin` when no account did.
pub fn ensure_signed(origin: Origin) -> (r: Result<u64, DispatchError>)
    ensures
        match origin {
            Origin::Signed(who) => r == Ok::<u64, DispatchError>(who),
            _ => r == Err::<u64, DispatchError>(DispatchError::BadOrigin),
        },
{
    match origin {
        Origin::Signed(who) => Ok(who),
        _ => Err(DispatchError::BadOrigin),
    }
}

} // verus!
