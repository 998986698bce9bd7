//! Picks: a player pays for some sub-pixels of a pixel and the pick is
//! recorded in every index the lottery keeps.

use vstd::arithmetic::div_mod::lemma_add_mod_noop_right;
use vstd::prelude::*;

use crate::dispatch::{
    asked_in_turn, ensure_signed, lemma_total_single, payments_total, signer, DispatchError, Origin, Payment,
};
use crate::subpixels::{bit_set, index_sum, lemma_set_bits, set_bits, set_bits_below, SUBPIXEL_SET_LIMIT};

use super::accounts::picked_by;
use super::rounds::with_pot_account;
use super::{
    capped, choosing, chosen_by, get_or, picks_indexed, pot_account_of, sat_add_u64, LotteryConfig, pixel_sum, sat_add_u32, state_wf, sub_pixel_sum, tickets,
    winning_follows_picks, Config, Error, LotteryState, Pallet, Pick, WinningPixelTup,
};

verus! {

broadcast use {vstd::std_specs::btree::group_btree_axioms, vstd::laws_cmp::group_laws_cmp};

/// What picking the sub-pixels `sub_pixels` costs at `price` each.
pub open spec fn pick_fee(price: u128, sub_pixels: u128) -> int {
    price * set_bits(sub_pixels).len()
}

/// How a pick's fee of `amount` is shared: 5% to the pixel's owner when it
/// has one, the rest to the pot.
pub open spec fn fee_shares(amount: u128, has_owner: bool) -> (u128, u128) {
    let to_owner: u128 = if has_owner { amount / 20 } else { 0 };
    (to_owner, (amount - to_owner) as u128)
}

/// Whether the key `k` names one of the sub-pixels `ids` of the pixel `cell`.
pub open spec fn hits(cell: (u32, u16), ids: Seq<u8>, k: ((u32, u16), u8)) -> bool {
    k.0 == cell && ids.contains(k.1)
}

/// The per-sub-pixel counts after one more pick on each of the sub-pixels
/// `ids` of `cell`.
pub open spec fn counted(m: Map<((u32, u16), u8), u32>, cell: (u32, u16), ids: Seq<u8>) -> Map<
    ((u32, u16), u8),
    u32,
> {
    Map::new(
        |k: ((u32, u16), u8)| m.contains_key(k) || hits(cell, ids, k),
        |k: ((u32, u16), u8)|
            if hits(cell, ids, k) {
                sat_add_u32(get_or(m, k, 0), 1)
            } else {
                m[k]
            },
    )
}

/// The per-sub-pixel pick lists after `pick_id` is added to each of the
/// sub-pixels `ids` of `cell`.
pub open spec fn listed(m: Map<((u32, u16), u8), Seq<u32>>, cell: (u32, u16), ids: Seq<u8>, pick_id: u32) -> Map<
    ((u32, u16), u8),
    Seq<u32>,
> {
    Map::new(
        |k: ((u32, u16), u8)| m.contains_key(k) || hits(cell, ids, k),
        |k: ((u32, u16), u8)|
            if hits(cell, ids, k) {
                get_or(m, k, seq![]).push(pick_id)
            } else {
                m[k]
            },
    )
}

/// The winning pixel after a pick of the sub-pixels `ids` on `pixel_id`:
/// the pixel ids and the sub-pixel ids are summed up, modulo the map's size.
pub open spec fn next_winning(s: LotteryState, pixel_id: u16, ids: Seq<u8>) -> WinningPixelTup {
    WinningPixelTup(
        ((s.winning_pixel.0 + pixel_id) % (s.max_pixel as int)) as u16,
        ((s.winning_pixel.1 + index_sum(ids)) % (s.max_sub_pixel as int)) as u8,
    )
}

/// The lottery after `account` picks the sub-pixels `sub_pixels` of
/// `pixel_id` at time `date`, once the fee is paid: the pick gets the next
/// id and is listed under its pixel, each of its sub-pixels and its account.
pub open spec fn picked(s: LotteryState, account: u64, pixel_id: u16, sub_pixels: u128, date: u64) -> LotteryState {
    let index = s.lottery_index;
    let pick_id = (s.pick_cnt + 1) as u32;
    let ids = set_bits(sub_pixels);
    let cell = (index, pixel_id);
    let mine = ((index, account), pixel_id);
    let before = get_or(s.account_pick_subpixels, mine, 0);
    LotteryState {
        pick_cnt: pick_id,
        picks: s.picks.insert(pick_id, Pick { pick_id, pixel_id, sub_pixels, account, date_picked: date }),
        pixel_pick_cnt: s.pixel_pick_cnt.insert(cell, sat_add_u32(get_or(s.pixel_pick_cnt, cell, 0), ids.len() as int)),
        pixel_picks: s.pixel_picks.insert(cell, get_or(s.pixel_picks, cell, seq![]).push(pick_id)),
        sub_pixel_pick_cnt: counted(s.sub_pixel_pick_cnt, cell, ids),
        sub_pixel_picks: listed(s.sub_pixel_picks, cell, ids, pick_id),
        account_pick_subpixels: s.account_pick_subpixels.insert(mine, before | sub_pixels),
        account_picks: if before == 0 {
            s.account_picks.insert((index, account), get_or(s.account_picks, (index, account), seq![]).push(pixel_id))
        } else {
            s.account_picks
        },
        winning_pixel: next_winning(s, pixel_id, ids),
        ..s
    }
}

/// The lottery after `account` picks each of `pixels` (pixel, sub-pixels)
/// in turn, the k-th pick stamped with `dates[k]`.
pub open spec fn picked_all(s: LotteryState, account: u64, pixels: Seq<(u16, u128)>, dates: Seq<u64>) -> LotteryState
    decreases pixels.len(),
{
    if pixels.len() == 0 {
        s
    } else {
        let before = picked_all(s, account, pixels.drop_last(), dates);
        picked(with_pot_account(before), account, pixels.last().0, pixels.last().1, dates[pixels.len() - 1])
    }
}

/// The payments one pick asks for: its fee of `fee`, paid by `payer`,
/// shared between the pixel's owner, when it has one, and the pot.
pub open spec fn pick_payments(payer: u64, owner: Option<u64>, pot: u64, fee: u128) -> Seq<Payment> {
    let shares = fee_shares(fee, owner is Some);
    match owner {
        Some(o) => seq![
            Payment::Transfer { from: payer, to: o, amount: shares.0 },
            Payment::Transfer { from: payer, to: pot, amount: shares.1 },
        ],
        None => seq![Payment::Transfer { from: payer, to: pot, amount: shares.1 }],
    }
}

/// A pick's fee is paid in full by the picker: the pixel's owner, when it
/// has one, gets 5% of it first, and the pot gets the rest.
pub proof fn lemma_pick_fee_paid_in_full(payer: u64, owner: Option<u64>, pot: u64, fee: u128)
    ensures
        payments_total(pick_payments(payer, owner, pot, fee)) == fee,
        pick_payments(payer, owner, pot, fee).last() == (Payment::Transfer {
            from: payer,
            to: pot,
            amount: (fee - fee_shares(fee, owner is Some).0) as u128,
        }),
        owner matches Some(o) ==> pick_payments(payer, owner, pot, fee)[0] == (Payment::Transfer {
            from: payer,
            to: o,
            amount: fee / 20,
        }),
{
    let ps = pick_payments(payer, owner, pot, fee);
    lemma_total_single(ps[0]);
    if ps.len() == 2 {
        assert(ps.drop_last() =~= seq![ps[0]]);
    } else {
        assert(ps =~= seq![ps[0]]);
    }
}

/// The payments of `payer`'s picks of each of `pixels` in turn at `price`,
/// with the pixel owners `owner`.
pub open spec fn picks_payments(
    payer: u64,
    owner: spec_fn(u32) -> Option<u64>,
    pot: u64,
    price: u128,
    pixels: Seq<(u16, u128)>,
) -> Seq<Payment>
    decreases pixels.len(),
{
    if pixels.len() == 0 {
        seq![]
    } else {
        picks_payments(payer, owner, pot, price, pixels.drop_last()) + pick_payments(
            payer,
            owner(pixels.last().0 as u32),
            pot,
            pick_fee(price, pixels.last().1) as u128,
        )
    }
}

/// The payments of the first `m` of a run of picks come first among the
/// payments of the whole run.
proof fn lemma_picks_payments_prefix(
    payer: u64,
    owner: spec_fn(u32) -> Option<u64>,
    pot: u64,
    price: u128,
    pixels: Seq<(u16, u128)>,
    m: int,
)
    requires
        0 <= m <= pixels.len(),
    ensures
        picks_payments(payer, owner, pot, price, pixels.take(m)).len() <= picks_payments(
            payer,
            owner,
            pot,
            price,
            pixels,
        ).len(),
        picks_payments(payer, owner, pot, price, pixels).take(
            picks_payments(payer, owner, pot, price, pixels.take(m)).len() as int,
        ) == picks_payments(payer, owner, pot, price, pixels.take(m)),
    decreases pixels.len(),
{
    if m == pixels.len() {
        assert(pixels.take(m) =~= pixels);
        let all = picks_payments(payer, owner, pot, price, pixels);
        assert(all.take(all.len() as int) =~= all);
    } else {
        let shorter = pixels.drop_last();
        lemma_picks_payments_prefix(payer, owner, pot, price, shorter, m);
        assert(shorter.take(m) =~= pixels.take(m));
        let before = picks_payments(payer, owner, pot, price, shorter);
        let all = picks_payments(payer, owner, pot, price, pixels);
        let part = picks_payments(payer, owner, pot, price, pixels.take(m));
        assert(all.take(part.len() as int) =~= before.take(part.len() as int));
    }
}

/// Whether a round of `config` still takes picks at block `block`: before
/// its start plus its length.
pub open spec fn round_open_at(config: LotteryConfig, block: u64) -> bool {
    block < sat_add_u64(config.start, config.length)
}

/// Whether each of the first `room` of `pixels` may be picked at `price`:
/// bit 127 of its sub-pixel set is clear and its fee fits in a `u128`.
/// (A pick past the first `room` fails on the full pick counter before it
/// looks at its sub-pixels.)
pub open spec fn picks_payable(pixels: Seq<(u16, u128)>, price: u128, room: int) -> bool {
    forall|k: int| 0 <= k < pixels.len() && k < room ==> #[trigger] pixels[k].1 < SUBPIXEL_SET_LIMIT
        && pick_fee(price, pixels[k].1) <= u128::MAX
}

/// Whether a call of `pick` by `origin` for `n` pixels passes its checks in
/// the lottery `s` at block `block`: it is signed, a lottery runs, its round
/// takes picks and the call asks for no more pixels than allowed.
pub open spec fn pick_allowed(s: LotteryState, block: u64, origin: Origin, n: nat) -> bool {
    &&& origin is Signed
    &&& s.lottery is Some
    &&& round_open_at(s.lottery.unwrap(), block)
    &&& n <= s.max_batch_pick
}

/// Counting and collecting over picks only looks at the picks listed.
proof fn lemma_same_listed_picks(p1: Map<u32, Pick>, p2: Map<u32, Pick>, ids: Seq<u32>, who: u64)
    requires
        forall|i: int| 0 <= i < ids.len() ==> p1[#[trigger] ids[i]] == p2[ids[i]],
    ensures
        tickets(p1, ids) == tickets(p2, ids),
        chosen_by(p1, ids, who) == chosen_by(p2, ids, who),
    decreases ids.len(),
{
    if ids.len() > 0 {
        let prefix = ids.drop_last();
        assert forall|i: int| 0 <= i < prefix.len() implies p1[#[trigger] prefix[i]] == p2[prefix[i]] by {
            assert(prefix[i] == ids[i]);
        }
        lemma_same_listed_picks(p1, p2, prefix, who);
        assert(p1[ids[ids.len() - 1]] == p2[ids[ids.len() - 1]]);
    }
}

/// Which of the listed picks chose a sub-pixel only looks at the picks listed.
proof fn lemma_same_listed_choosing(p1: Map<u32, Pick>, p2: Map<u32, Pick>, ids: Seq<u32>, b: u8)
    requires
        forall|i: int| 0 <= i < ids.len() ==> p1[#[trigger] ids[i]] == p2[ids[i]],
    ensures
        choosing(p1, ids, b) == choosing(p2, ids, b),
    decreases ids.len(),
{
    if ids.len() > 0 {
        let prefix = ids.drop_last();
        assert forall|i: int| 0 <= i < prefix.len() implies p1[#[trigger] prefix[i]] == p2[prefix[i]] by {
            assert(prefix[i] == ids[i]);
        }
        lemma_same_listed_choosing(p1, p2, prefix, b);
        assert(p1[ids[ids.len() - 1]] == p2[ids[ids.len() - 1]]);
    }
}

/// Sums over the first `n` picks only look at those picks.
proof fn lemma_same_first_picks(p1: Map<u32, Pick>, p2: Map<u32, Pick>, n: nat)
    requires
        n <= u32::MAX,
        forall|id: u32| 1 <= id <= n ==> p1[id] == p2[id],
    ensures
        pixel_sum(p1, n) == pixel_sum(p2, n),
        sub_pixel_sum(p1, n) == sub_pixel_sum(p2, n),
    decreases n,
{
    if n > 0 {
        lemma_same_first_picks(p1, p2, (n - 1) as nat);
        assert(p1[n as u32] == p2[n as u32]);
    }
}

/// Recording a pick keeps the winning pixel following from the picks.
pub proof fn lemma_picked_keeps_winning(s: LotteryState, account: u64, pixel_id: u16, sub_pixels: u128, date: u64)
    requires
        state_wf(s),
        s.pick_cnt < u32::MAX,
    ensures
        winning_follows_picks(picked(s, account, pixel_id, sub_pixels, date)),
{
    let t = picked(s, account, pixel_id, sub_pixels, date);
    let n = s.pick_cnt as nat;
    assert forall|id: u32| 1 <= id <= n implies s.picks[id] == t.picks[id] by {}
    lemma_same_first_picks(s.picks, t.picks, n);
    let ids = set_bits(sub_pixels);
    assert(pixel_sum(t.picks, n + 1) == pixel_sum(s.picks, n) + pixel_id);
    assert(sub_pixel_sum(t.picks, n + 1) == sub_pixel_sum(s.picks, n) + index_sum(ids));
    lemma_add_mod_noop_right(pixel_id as int, pixel_sum(s.picks, n) as int, s.max_pixel as int);
    lemma_add_mod_noop_right(index_sum(ids) as int, sub_pixel_sum(s.picks, n) as int, s.max_sub_pixel as int);
}

/// Whether a pick was made by an account only looks at the picks listed.
proof fn lemma_same_listed_pickers(p1: Map<u32, Pick>, p2: Map<u32, Pick>, ids: Seq<u32>, who: u64)
    requires
        forall|i: int| 0 <= i < ids.len() ==> p1.contains_key(#[trigger] ids[i]) && p1[ids[i]] == p2[ids[i]]
            && p2.contains_key(ids[i]),
    ensures
        picked_by(p1, ids, who) == picked_by(p2, ids, who),
{
    if picked_by(p1, ids, who) {
        let i = choose|i: int| 0 <= i < ids.len() && p1.contains_key(ids[i]) && #[trigger] p1[ids[i]].account == who;
        assert(p2[ids[i]].account == who);
    }
    if picked_by(p2, ids, who) {
        let i = choose|i: int| 0 <= i < ids.len() && p2.contains_key(ids[i]) && #[trigger] p2[ids[i]].account == who;
        assert(p1[ids[i]].account == who);
    }
}

/// An account that chose some sub-pixel among listed picks made one of them.
proof fn lemma_chosen_means_picked(picks: Map<u32, Pick>, ids: Seq<u32>, who: u64)
    requires
        forall|i: int| 0 <= i < ids.len() ==> picks.contains_key(#[trigger] ids[i]),
        chosen_by(picks, ids, who) != 0,
    ensures
        picked_by(picks, ids, who),
    decreases ids.len(),
{
    let prefix = ids.drop_last();
    let last = ids.last();
    if picks[last].account == who {
        assert(picks[ids[ids.len() - 1]].account == who);
    } else {
        assert forall|i: int| 0 <= i < prefix.len() implies picks.contains_key(#[trigger] prefix[i]) by {
            assert(prefix[i] == ids[i]);
        }
        lemma_chosen_means_picked(picks, prefix, who);
        let i = choose|i: int| 0 <= i < prefix.len() && picks.contains_key(prefix[i]) && #[trigger] picks[prefix[i]].account == who;
        assert(ids[i] == prefix[i]);
    }
}

/// Recording a pick keeps the picks and their indexes in agreement.
pub proof fn lemma_picked_keeps_index(s: LotteryState, account: u64, pixel_id: u16, sub_pixels: u128, date: u64)
    requires
        state_wf(s),
        s.pick_cnt < u32::MAX,
    ensures
        picks_indexed(picked(s, account, pixel_id, sub_pixels, date)),
{
    let t = picked(s, account, pixel_id, sub_pixels, date);
    let pick_id = (s.pick_cnt + 1) as u32;
    let ids = set_bits(sub_pixels);
    let cell = (s.lottery_index, pixel_id);
    lemma_set_bits(sub_pixels);
    assert(!s.picks.contains_key(pick_id));
    assert forall|k: (u32, u16), i: int| t.pixel_picks.contains_key(k) && 0 <= i < t.pixel_picks[k].len() implies {
        let id = #[trigger] t.pixel_picks[k][i];
        &&& t.picks.contains_key(id)
        &&& t.picks[id].pixel_id == k.1
    } by {
        if k == cell && i == t.pixel_picks[k].len() - 1 {
        } else {
            let id = s.pixel_picks[k][i];
            assert(t.pixel_picks[k][i] == id);
            assert(s.picks.contains_key(id));
        }
    }
    assert forall|k: ((u32, u16), u8), i: int|
        t.sub_pixel_picks.contains_key(k) && 0 <= i < t.sub_pixel_picks[k].len() implies {
        let id = #[trigger] t.sub_pixel_picks[k][i];
        &&& t.picks.contains_key(id)
        &&& t.picks[id].pixel_id == k.0.1
        &&& bit_set(t.picks[id].sub_pixels, k.1)
    } by {
        if hits(cell, ids, k) && i == t.sub_pixel_picks[k].len() - 1 {
            assert(ids.contains(k.1));
        } else {
            let id = s.sub_pixel_picks[k][i];
            assert(t.sub_pixel_picks[k][i] == id);
            assert(s.picks.contains_key(id));
        }
    }
    assert forall|k: ((u32, u16), u8)| #[trigger] t.sub_pixel_picks.contains_key(k) implies t.sub_pixel_pick_cnt[k]
        == t.sub_pixel_picks[k].len() by {
        if hits(cell, ids, k) && s.sub_pixel_picks.contains_key(k) {
            assert(s.sub_pixel_picks[k].len() <= s.pick_cnt);
        }
    }
    assert forall|k: (u32, u16), i: int, j: int|
        t.pixel_picks.contains_key(k) && 0 <= i < j < t.pixel_picks[k].len() implies #[trigger] t.pixel_picks[k][i]
        < #[trigger] t.pixel_picks[k][j] by {
        if k == cell {
            let old_list = get_or(s.pixel_picks, k, seq![]);
            if j == old_list.len() {
                assert(t.pixel_picks[k][i] == old_list[i]);
                assert(s.picks.contains_key(old_list[i]));
            } else {
                assert(t.pixel_picks[k][i] == old_list[i]);
                assert(t.pixel_picks[k][j] == old_list[j]);
            }
        }
    }
    assert forall|k: ((u32, u16), u8), i: int, j: int|
        t.sub_pixel_picks.contains_key(k) && 0 <= i < j < t.sub_pixel_picks[k].len() implies #[trigger] t.sub_pixel_picks[k][i]
        < #[trigger] t.sub_pixel_picks[k][j] by {
        if hits(cell, ids, k) {
            let old_list = get_or(s.sub_pixel_picks, k, seq![]);
            if j == old_list.len() {
                assert(t.sub_pixel_picks[k][i] == old_list[i]);
                assert(s.picks.contains_key(old_list[i]));
            } else {
                assert(t.sub_pixel_picks[k][i] == old_list[i]);
                assert(t.sub_pixel_picks[k][j] == old_list[j]);
            }
        }
    }
    let new_pick = Pick { pick_id, pixel_id, sub_pixels, account, date_picked: date };
    assert forall|k: ((u32, u16), u8)| #[trigger] get_or(t.sub_pixel_picks, k, seq![]) == choosing(
        t.picks,
        get_or(t.pixel_picks, k.0, seq![]),
        k.1,
    ) by {
        let old_list = get_or(s.pixel_picks, k.0, seq![]);
        assert forall|i: int| 0 <= i < old_list.len() implies s.picks[#[trigger] old_list[i]] == t.picks[old_list[i]] by {
            assert(s.picks.contains_key(old_list[i]));
        }
        lemma_same_listed_choosing(s.picks, t.picks, old_list, k.1);
        assert(get_or(s.sub_pixel_picks, k, seq![]) == choosing(s.picks, old_list, k.1));
        if k.0 == cell {
            let new_list = old_list.push(pick_id);
            assert(new_list.drop_last() =~= old_list);
            assert(t.picks[new_list.last()] == new_pick);
            if k.1 >= 128 {
                if ids.contains(k.1) {
                    let j = choose|j: int| 0 <= j < ids.len() && #[trigger] ids[j] == k.1;
                    assert(ids[j] < 128);
                }
            }
            assert(hits(cell, ids, k) == (k.1 < 128 && bit_set(sub_pixels, k.1)));
        }
    }
    assert forall|k: (u32, u16)| #[trigger] t.pixel_picks.contains_key(k) implies t.pixel_pick_cnt[k] == capped(
        tickets(t.picks, t.pixel_picks[k]),
    ) by {
        let old_list = get_or(s.pixel_picks, k, seq![]);
        assert forall|i: int| 0 <= i < old_list.len() implies s.picks[#[trigger] old_list[i]] == t.picks[old_list[i]] by {
            assert(s.picks.contains_key(old_list[i]));
        }
        lemma_same_listed_picks(s.picks, t.picks, old_list, account);
        if k == cell {
            let new_list = old_list.push(pick_id);
            assert(new_list.drop_last() =~= old_list);
            assert(t.picks[new_list.last()] == new_pick);
        }
    }
    assert forall|k: ((u32, u64), u16)| #[trigger] get_or(t.account_pick_subpixels, k, 0) == chosen_by(
        t.picks,
        get_or(t.pixel_picks, (k.0.0, k.1), seq![]),
        k.0.1,
    ) by {
        let old_list = get_or(s.pixel_picks, (k.0.0, k.1), seq![]);
        assert forall|i: int| 0 <= i < old_list.len() implies s.picks[#[trigger] old_list[i]] == t.picks[old_list[i]] by {
            assert(s.picks.contains_key(old_list[i]));
        }
        lemma_same_listed_picks(s.picks, t.picks, old_list, k.0.1);
        assert(get_or(s.account_pick_subpixels, k, 0) == chosen_by(s.picks, old_list, k.0.1));
        if (k.0.0, k.1) == cell {
            let new_list = old_list.push(pick_id);
            assert(new_list.drop_last() =~= old_list);
            assert(t.picks[new_list.last()] == new_pick);
        }
    }
    assert forall|k: (u32, u64), p: u16| #[trigger] get_or(t.account_picks, k, seq![]).contains(p) <==> picked_by(
        t.picks,
        get_or(t.pixel_picks, (k.0, p), seq![]),
        k.1,
    ) by {
        let old_list = get_or(s.pixel_picks, (k.0, p), seq![]);
        let old_pixels = get_or(s.account_picks, k, seq![]);
        assert forall|i: int| 0 <= i < old_list.len() implies s.picks.contains_key(#[trigger] old_list[i])
            && s.picks[old_list[i]] == t.picks[old_list[i]] && t.picks.contains_key(old_list[i]) by {
            assert(s.picks.contains_key(old_list[i]));
        }
        lemma_same_listed_pickers(s.picks, t.picks, old_list, k.1);
        assert(old_pixels.contains(p) == picked_by(s.picks, old_list, k.1));
        let mine = ((s.lottery_index, account), pixel_id);
        let before = get_or(s.account_pick_subpixels, mine, 0);
        if (k.0, p) == cell {
            let new_list = old_list.push(pick_id);
            assert(new_list[new_list.len() - 1] == pick_id);
            assert(t.picks[pick_id] == new_pick);
            if picked_by(s.picks, old_list, k.1) {
                let i = choose|i: int| 0 <= i < old_list.len() && s.picks.contains_key(old_list[i]) && #[trigger] s.picks[old_list[i]].account == k.1;
                assert(new_list[i] == old_list[i]);
                assert(t.picks[new_list[i]].account == k.1);
            }
            if picked_by(t.picks, new_list, k.1) && k.1 != account {
                let i = choose|i: int| 0 <= i < new_list.len() && t.picks.contains_key(new_list[i]) && #[trigger] t.picks[new_list[i]].account == k.1;
                assert(i < old_list.len());
                assert(old_list[i] == new_list[i]);
                assert(s.picks[old_list[i]].account == k.1);
            }
            if k == (s.lottery_index, account) {
                assert(t.picks[new_list[old_list.len() as int]].account == k.1);
                if before == 0 {
                    assert(old_pixels.push(pixel_id)[old_pixels.len() as int] == p);
                } else {
                    assert(before == chosen_by(s.picks, old_list, account));
                    lemma_chosen_means_picked(s.picks, old_list, account);
                }
            }
        } else if k == (s.lottery_index, account) && before == 0 {
            let grown = old_pixels.push(pixel_id);
            if grown.contains(p) {
                let j = choose|j: int| 0 <= j < grown.len() && #[trigger] grown[j] == p;
                assert(j < old_pixels.len());
                assert(old_pixels[j] == p);
            }
            if old_pixels.contains(p) {
                let j = choose|j: int| 0 <= j < old_pixels.len() && #[trigger] old_pixels[j] == p;
                assert(grown[j] == p);
            }
        }
    }
}

/// How many of the picks `ids` chose each of the sub-pixels below `n`, summed.
pub open spec fn choices_below(picks: Map<u32, Pick>, ids: Seq<u32>, n: nat) -> nat
    decreases n,
{
    if n == 0 {
        0
    } else {
        choices_below(picks, ids, (n - 1) as nat) + choosing(picks, ids, (n - 1) as u8).len()
    }
}

/// The counts kept for the sub-pixels below `n` of the pixel `cell` (round,
/// pixel), summed.
pub open spec fn sub_counts(s: LotteryState, cell: (u32, u16), n: nat) -> nat
    decreases n,
{
    if n == 0 {
        0
    } else {
        sub_counts(s, cell, (n - 1) as nat) + get_or(s.sub_pixel_pick_cnt, (cell, (n - 1) as u8), 0) as nat
    }
}

/// One more listed pick adds its own sub-pixels below `n` to the sum.
proof fn lemma_choices_step(picks: Map<u32, Pick>, ids: Seq<u32>, n: nat)
    requires
        ids.len() > 0,
        n <= 128,
    ensures
        choices_below(picks, ids, n) == choices_below(picks, ids.drop_last(), n) + set_bits_below(
            picks[ids.last()].sub_pixels,
            n,
        ).len(),
    decreases n,
{
    if n > 0 {
        lemma_choices_step(picks, ids, (n - 1) as nat);
    }
}

/// Counting, sub-pixel by sub-pixel, the picks that chose it counts every
/// chosen sub-pixel of every pick once.
proof fn lemma_choices_are_tickets(picks: Map<u32, Pick>, ids: Seq<u32>)
    ensures
        choices_below(picks, ids, 128) == tickets(picks, ids),
    decreases ids.len(),
{
    if ids.len() > 0 {
        lemma_choices_are_tickets(picks, ids.drop_last());
        lemma_choices_step(picks, ids, 128);
        assert(set_bits(picks[ids.last()].sub_pixels) == set_bits_below(picks[ids.last()].sub_pixels, 128));
    } else {
        lemma_no_choices(picks, ids, 128);
    }
}

/// No picks choose nothing.
proof fn lemma_no_choices(picks: Map<u32, Pick>, ids: Seq<u32>, n: nat)
    requires
        ids.len() == 0,
    ensures
        choices_below(picks, ids, n) == 0,
    decreases n,
{
    if n > 0 {
        lemma_no_choices(picks, ids, (n - 1) as nat);
    }
}

/// The counts kept for a pixel's sub-pixels are the numbers of its listed
/// picks that chose each.
proof fn lemma_sub_counts_are_choices(s: LotteryState, cell: (u32, u16), n: nat)
    requires
        state_wf(s),
        n <= 128,
    ensures
        sub_counts(s, cell, n) == choices_below(s.picks, get_or(s.pixel_picks, cell, seq![]), n),
    decreases n,
{
    if n > 0 {
        lemma_sub_counts_are_choices(s, cell, (n - 1) as nat);
        let k = (cell, (n - 1) as u8);
        assert(get_or(s.sub_pixel_picks, k, seq![]) == choosing(s.picks, get_or(s.pixel_picks, k.0, seq![]), k.1));
        if s.sub_pixel_picks.contains_key(k) {
            assert(s.sub_pixel_pick_cnt.contains_key(k));
        } else {
            assert(!s.sub_pixel_pick_cnt.contains_key(k));
        }
    }
}

/// The count kept for a pixel in a round is the sum of the counts kept for
/// its sub-pixels (at most `u32::MAX`): every sub-pixel a pick chooses
/// counts once for its pixel and once for itself.
pub proof fn lemma_pixel_count_sums_sub_pixel_counts(s: LotteryState, cell: (u32, u16))
    requires
        state_wf(s),
    ensures
        get_or(s.pixel_pick_cnt, cell, 0) == capped(sub_counts(s, cell, 128)),
{
    let list = get_or(s.pixel_picks, cell, seq![]);
    lemma_sub_counts_are_choices(s, cell, 128);
    lemma_choices_are_tickets(s.picks, list);
    if !s.pixel_picks.contains_key(cell) {
        assert(!s.pixel_pick_cnt.contains_key(cell));
        assert(tickets(s.picks, list) == 0);
    }
}

/// Whether the pixels kept for `who` (round, account) are listed once each
/// and are exactly those on which `who` holds a nonempty set of sub-pixels.
pub open spec fn masks_listed(s: LotteryState, who: (u32, u64)) -> bool {
    &&& get_or(s.account_picks, who, seq![]).no_duplicates()
    &&& forall|q: u16| #[trigger] get_or(s.account_picks, who, seq![]).contains(q) <==> get_or(
        s.account_pick_subpixels,
        (who, q),
        0,
    ) != 0
}

/// A pick of a nonempty set of sub-pixels keeps the picking account's list
/// of pixels free of repeats and in step with its sets of sub-pixels; a pick
/// leaves the list and the sets of every other account and round as they
/// were.
pub proof fn lemma_pick_keeps_masks_listed(
    s: LotteryState,
    account: u64,
    pixel_id: u16,
    sub_pixels: u128,
    date: u64,
    who: (u32, u64),
)
    requires
        masks_listed(s, who),
        who == (s.lottery_index, account) ==> sub_pixels != 0,
    ensures
        masks_listed(picked(s, account, pixel_id, sub_pixels, date), who),
{
    let t = picked(s, account, pixel_id, sub_pixels, date);
    let mine = (s.lottery_index, account);
    let list = get_or(s.account_picks, who, seq![]);
    if who != mine {
        assert(get_or(t.account_picks, who, seq![]) == list);
        assert forall|q: u16| #[trigger] get_or(t.account_pick_subpixels, (who, q), 0) == get_or(
            s.account_pick_subpixels,
            (who, q),
            0,
        ) by {}
    } else {
        let before = get_or(s.account_pick_subpixels, (who, pixel_id), 0);
        assert(sub_pixels != 0 ==> before | sub_pixels != 0) by (bit_vector);
        if before == 0 {
            let grown = list.push(pixel_id);
            assert(!list.contains(pixel_id));
            assert(get_or(t.account_picks, who, seq![]) == grown);
            assert forall|i: int, j: int| 0 <= i < grown.len() && 0 <= j < grown.len() && i != j implies grown[i]
                != grown[j] by {
                if i == list.len() {
                    assert(list[j] == grown[j]);
                } else if j == list.len() {
                    assert(list[i] == grown[i]);
                } else {
                    assert(list[i] == grown[i] && list[j] == grown[j]);
                }
            }
            assert forall|q: u16| #[trigger] grown.contains(q) <==> get_or(t.account_pick_subpixels, (who, q), 0) != 0 by {
                if q != pixel_id {
                    if grown.contains(q) {
                        let k = choose|k: int| 0 <= k < grown.len() && #[trigger] grown[k] == q;
                        assert(list[k] == q);
                    }
                    if list.contains(q) {
                        let k = choose|k: int| 0 <= k < list.len() && #[trigger] list[k] == q;
                        assert(grown[k] == q);
                    }
                } else {
                    assert(grown[list.len() as int] == q);
                }
            }
        } else {
            assert(list.contains(pixel_id));
            assert(get_or(t.account_picks, who, seq![]) == list);
        }
    }
}

/// Picks all stamped with the same date agree however many dates are given.
proof fn lemma_picked_all_same_dates(s: LotteryState, account: u64, pixels: Seq<(u16, u128)>, d1: Seq<u64>, d2: Seq<u64>)
    requires
        forall|k: int| 0 <= k < pixels.len() ==> d1[k] == d2[k],
    ensures
        picked_all(s, account, pixels, d1) == picked_all(s, account, pixels, d2),
    decreases pixels.len(),
{
    if pixels.len() > 0 {
        lemma_picked_all_same_dates(s, account, pixels.drop_last(), d1, d2);
    }
}

/// A sum of sub-pixel ids below 128 is at most 127 per id.
proof fn lemma_index_sum_bound(s: Seq<u8>)
    requires
        forall|k: int| 0 <= k < s.len() ==> #[trigger] s[k] < 128,
    ensures
        index_sum(s) <= 127 * s.len(),
    decreases s.len(),
{
    if s.len() > 0 {
        lemma_index_sum_bound(s.drop_last());
    }
}

/// Shares a pick's fee of `amount` between the pixel's owner, when it has
/// one, and the pot; nothing is lost.
pub fn fee_split(amount: u128, has_owner: bool) -> (r: (u128, u128))
    ensures
        r == fee_shares(amount, has_owner),
        r.0 + r.1 == amount,
        r.0 == (if has_owner { amount / 20 } else { 0 }),
{
    let to_owner: u128 = if has_owner { amount / 20 } else { 0 };
    (to_owner, amount - to_owner)
}

/// A round takes picks at exactly the blocks before its start plus its
/// length (the sum capped at `u64::MAX`): whatever block it started at, it
/// takes picks at its own start block when it has some length, and none
/// from its end on.
pub proof fn lemma_round_open_window(config: LotteryConfig, block: u64)
    ensures
        config.start + config.length <= u64::MAX ==> (round_open_at(config, block) <==> block < config.start
            + config.length),
        config.start + config.length > u64::MAX ==> (round_open_at(config, block) <==> block < u64::MAX),
        config.length > 0 && config.start < u64::MAX ==> round_open_at(config, config.start),
        block >= config.start + config.length ==> !round_open_at(config, block),
{
}

/// A pick's fee is the price times the number of sub-pixels chosen; 5% of
/// it goes to the pixel's owner when it has one, nothing otherwise, and the
/// pot gets the rest.
pub proof fn lemma_fee_shares_exact(price: u128, sub_pixels: u128, amount: u128, has_owner: bool)
    ensures
        pick_fee(price, sub_pixels) == price * set_bits(sub_pixels).len(),
        has_owner ==> fee_shares(amount, has_owner).0 == amount / 20,
        !has_owner ==> fee_shares(amount, has_owner).0 == 0,
        fee_shares(amount, has_owner).0 + fee_shares(amount, has_owner).1 == amount,
{
}

/// Whether a round of `config` still takes picks at block `block`.
pub fn round_open(config: &LotteryConfig, block: u64) -> (r: bool)
    ensures
        r == round_open_at(*config, block),
        config.start + config.length <= u64::MAX ==> (r <==> block < config.start + config.length),
        config.start + config.length > u64::MAX ==> (r <==> block < u64::MAX),
{
    block < config.start.saturating_add(config.length)
}

impl Pallet {
    /// A copy of the whole storage.
    fn snapshot(&self) -> (r: Pallet)
        ensures
            r@ == self@,
    {
        let r = Pallet {
            pallet_id: self.pallet_id,
            max_pixel: self.max_pixel,
            max_sub_pixel: self.max_sub_pixel,
            max_batch_pick: self.max_batch_pick,
            lottery: self.lottery,
            pick_cnt: self.pick_cnt,
            winning_pixel: self.winning_pixel,
            total_reward: self.total_reward,
            lottery_account: self.lottery_account,
            lottery_index: self.lottery_index,
            picks: self.picks.clone(),
            pixel_picks: self.pixel_picks.clone(),
            sub_pixel_picks: self.sub_pixel_picks.clone(),
            pixel_pick_cnt: self.pixel_pick_cnt.clone(),
            sub_pixel_pick_cnt: self.sub_pixel_pick_cnt.clone(),
            account_picks: self.account_picks.clone(),
            account_pick_subpixels: self.account_pick_subpixels.clone(),
            events: self.events.clone(),
        };
        assert(r.events@ =~= self.events@);
        assert(r@ =~= self@);
        r
    }

    /// The signer picks each of `pixel_ids` (pixel, sub-pixels) in turn at
    /// the running lottery's price, while the round accepts picks, and pays
    /// for each pick as `pick_pixel` does. All or none: when one pick fails,
    /// every pick and payment of the call is undone. It fails with
    /// `BadOrigin` unless signed, `NotConfigured` before a lottery was
    /// started, `AlreadyEnded` once the current block is past the round's
    /// end, and `TooManyPicks` for more pixels than one call may pick. Once
    /// these checks pass, it fails only with `Overflow` when the pick counter
    /// fills, or with the currency's answer when it refuses a payment.
    pub fn pick<R: Config>(&mut self, rt: &mut R, origin: Origin, pixel_ids: Vec<(u16, u128)>) -> (r: Result<
        (),
        DispatchError,
    >)
        requires
            old(self).wf(),
            pick_allowed(old(self)@, old(rt).env().block, origin, pixel_ids.len() as nat) ==> picks_payable(
                pixel_ids@,
                old(self)@.lottery.unwrap().price,
                u32::MAX - old(self)@.pick_cnt,
            ),
        ensures
            final(self).wf(),
            final(rt).env() == old(rt).env(),
            final(rt).saved() == old(rt).saved(),
            !(origin is Signed) ==> r == Err::<(), DispatchError>(DispatchError::BadOrigin),
            origin is Signed && old(self)@.lottery is None ==> r == Err::<(), DispatchError>(
                DispatchError::Lottery(Error::NotConfigured),
            ),
            origin is Signed && old(self)@.lottery is Some && !round_open_at(
                old(self)@.lottery.unwrap(),
                old(rt).env().block,
            ) ==> r == Err::<(), DispatchError>(DispatchError::Lottery(Error::AlreadyEnded)),
            origin is Signed && old(self)@.lottery is Some && round_open_at(
                old(self)@.lottery.unwrap(),
                old(rt).env().block,
            ) && pixel_ids.len() > old(self)@.max_batch_pick ==> r == Err::<(), DispatchError>(
                DispatchError::Lottery(Error::TooManyPicks),
            ),
            !pick_allowed(old(self)@, old(rt).env().block, origin, pixel_ids.len() as nat)
                ==> final(rt).requested() == old(rt).requested() && final(rt).refusals() == old(rt).refusals(),
            pick_allowed(old(self)@, old(rt).env().block, origin, pixel_ids.len() as nat) && pixel_ids.len()
                == 0 ==> r is Ok && final(self)@ == old(self)@ && final(rt).payments() == old(rt).payments(),
            pick_allowed(old(self)@, old(rt).env().block, origin, pixel_ids.len() as nat) ==> (r matches Err(e)
                ==> (e == DispatchError::Overflow && old(self)@.pick_cnt + pixel_ids.len() > u32::MAX
                && final(rt).refusals() == old(rt).refusals()) || (final(rt).refusals().len() > 0
                && final(rt).refusals().drop_last() == old(rt).refusals() && final(rt).refusals().last().1 == e)),
            r is Err ==> final(self)@ == old(self)@ && final(rt).payments() == old(rt).payments(),
            r is Err && pick_allowed(old(self)@, old(rt).env().block, origin, pixel_ids.len() as nat) ==> exists|
                k: int,
            |
                0 <= k && final(rt).requested() == old(rt).requested() + #[trigger] picks_payments(
                    signer(origin),
                    old(rt).env().owner,
                    pot_account_of(old(self)@.pallet_id),
                    old(self)@.lottery.unwrap().price,
                    pixel_ids@,
                ).take(k),
            r is Ok ==> pick_allowed(old(self)@, old(rt).env().block, origin, pixel_ids.len() as nat),
            r is Ok ==> final(rt).refusals() == old(rt).refusals(),
            r is Ok ==> final(self)@.pick_cnt == old(self)@.pick_cnt + pixel_ids.len(),
            r is Ok ==> final(self)@ == picked_all(
                old(self)@,
                signer(origin),
                pixel_ids@,
                Seq::new(pixel_ids.len() as nat, |k: int| old(rt).env().now),
            ),
            r is Ok ==> final(rt).payments() == old(rt).payments() + picks_payments(
                signer(origin),
                old(rt).env().owner,
                pot_account_of(old(self)@.pallet_id),
                old(self)@.lottery.unwrap().price,
                pixel_ids@,
            ),
            r is Ok ==> final(rt).requested() == old(rt).requested() + picks_payments(
                signer(origin),
                old(rt).env().owner,
                pot_account_of(old(self)@.pallet_id),
                old(self)@.lottery.unwrap().price,
                pixel_ids@,
            ),
    {
        let account = ensure_signed(origin)?;
        let config = match self.lottery {
            Some(c) => c,
            None => {
                return Err(DispatchError::Lottery(Error::NotConfigured));
            },
        };
        let block_number = rt.block_number();
        if !round_open(&config, block_number) {
            return Err(DispatchError::Lottery(Error::AlreadyEnded));
        }
        if pixel_ids.len() > self.max_batch_pick as usize {
            return Err(DispatchError::Lottery(Error::TooManyPicks));
        }
        let ghost s0 = self@;
        let ghost env = rt.env();
        let ghost paid0 = rt.payments();
        let ghost asked0 = rt.requested();
        let ghost pot = pot_account_of(s0.pallet_id);
        let saved = self.snapshot();
        rt.start_transaction();
        let n = pixel_ids.len();
        let mut j: usize = 0;
        assert(paid0 + picks_payments(account, env.owner, pot, config.price, pixel_ids@.take(0)) =~= paid0);
        while j < n
            invariant
                0 <= j <= n,
                n == pixel_ids.len(),
                self.wf(),
                saved@ == s0,
                s0 == old(self)@,
                state_wf(s0),
                s0.lottery == Some(config),
                origin == Origin::Signed(account),
                picks_payable(pixel_ids@, config.price, u32::MAX - s0.pick_cnt),
                self@.pick_cnt == s0.pick_cnt + j,
                self@.max_pixel == s0.max_pixel,
                self@.pallet_id == s0.pallet_id,
                self@ == picked_all(s0, account, pixel_ids@.take(j as int), Seq::new(j as nat, |k: int| env.now)),
                env == old(rt).env(),
                round_open_at(config, env.block),
                pot == pot_account_of(s0.pallet_id),
                n <= s0.max_batch_pick,
                paid0 == old(rt).payments(),
                rt.env() == env,
                rt.saved() == old(rt).saved().push(paid0),
                rt.payments() == paid0 + picks_payments(account, env.owner, pot, config.price, pixel_ids@.take(j as int)),
                asked0 == old(rt).requested(),
                rt.requested() == asked0 + picks_payments(account, env.owner, pot, config.price, pixel_ids@.take(j as int)),
                rt.refusals() == old(rt).refusals(),
            decreases n - j,
        {
            let (pixel_id, sub_pixels) = pixel_ids[j];
            let ghost before = self@;
            let ghost paid_before = rt.payments();
            let ghost asked_before = rt.requested();
            match self.pick_pixel(rt, account, pixel_id, sub_pixels, config.price) {
                Ok(()) => {},
                Err(e) => {
                    proof {
                        let all = picks_payments(account, env.owner, pot, config.price, pixel_ids@);
                        let done = picks_payments(account, env.owner, pot, config.price, pixel_ids@.take(j as int));
                        let done1 = picks_payments(account, env.owner, pot, config.price, pixel_ids@.take(j + 1));
                        let step = pick_payments(
                            account,
                            (env.owner)(pixel_id as u32),
                            pot,
                            pick_fee(config.price, sub_pixels) as u128,
                        );
                        lemma_picks_payments_prefix(account, env.owner, pot, config.price, pixel_ids@, j as int);
                        lemma_picks_payments_prefix(account, env.owner, pot, config.price, pixel_ids@, j + 1);
                        assert(pixel_ids@.take(j + 1).drop_last() =~= pixel_ids@.take(j as int));
                        assert(pixel_ids@.take(j + 1).last() == (pixel_id, sub_pixels));
                        assert(done1 == done + step);
                        if before.pick_cnt == u32::MAX {
                            assert(rt.requested() =~= asked0 + all.take(done.len() as int));
                        } else {
                            let k1 = choose|k1: int|
                                0 < k1 <= step.len() && rt.requested() == asked_before + #[trigger] step.take(k1)
                                    && rt.payments() == paid_before + step.take(k1 - 1);
                            assert(all.take(done1.len() as int) == done1);
                            assert forall|i: int| 0 <= i < done.len() + k1 implies #[trigger] all[i] == (done
                                + step.take(k1))[i] by {
                                assert(all.take(done1.len() as int)[i] == all[i]);
                            }
                            assert(all.take(done.len() + k1) =~= done + step.take(k1));
                            assert(rt.requested() =~= asked0 + all.take(done.len() + k1));
                        }
                    }
                    *self = saved;
                    rt.rollback_transaction();
                    return Err(e);
                },
            }
            proof {
                let done = pixel_ids@.take(j as int);
                let done1 = pixel_ids@.take(j + 1);
                assert(done1.drop_last() =~= done);
                assert(done1.last() == (pixel_id, sub_pixels));
                let dates0 = Seq::new(j as nat, |k: int| env.now);
                let dates1 = Seq::new((j + 1) as nat, |k: int| env.now);
                lemma_picked_all_same_dates(s0, account, done, dates1, dates0);
                let step = pick_payments(account, (env.owner)(pixel_id as u32), pot, pick_fee(config.price, sub_pixels) as u128);
                assert(picks_payments(account, env.owner, pot, config.price, done1) == picks_payments(
                    account,
                    env.owner,
                    pot,
                    config.price,
                    done,
                ) + step);
                assert(rt.payments() == paid_before + step);
                assert(rt.payments() =~= paid0 + picks_payments(account, env.owner, pot, config.price, done1));
                assert(rt.requested() == asked_before + step);
                assert(rt.requested() =~= asked0 + picks_payments(account, env.owner, pot, config.price, done1));
            }
            j = j + 1;
        }
        rt.commit_transaction();
        assert(pixel_ids@.take(n as int) =~= pixel_ids@);
        Ok(())
    }

    /// `account` picks the sub-pixels `sub_pixels` of `pixel_id` at `price`
    /// each: 5% of the fee goes to the pixel's owner, if it has one, the rest
    /// to the pot, and the pick is recorded, stamped with the runtime's time.
    /// It fails with `Overflow`, changing nothing, when the pick counter is
    /// full, and with the runtime's error when a payment fails; then no pick
    /// is recorded, though the payment to the owner, made first, may stay.
    pub fn pick_pixel<R: Config>(
        &mut self,
        rt: &mut R,
        account: u64,
        pixel_id: u16,
        sub_pixels: u128,
        price: u128,
    ) -> (r: Result<(), DispatchError>)
        requires
            old(self).wf(),
            old(self)@.pick_cnt < u32::MAX ==> sub_pixels < SUBPIXEL_SET_LIMIT && pick_fee(price, sub_pixels)
                <= u128::MAX,
        ensures
            final(self).wf(),
            final(rt).env() == old(rt).env(),
            final(rt).saved() == old(rt).saved(),
            old(self)@.pick_cnt == u32::MAX ==> r == Err::<(), DispatchError>(DispatchError::Overflow)
                && final(self)@ == old(self)@ && final(rt).payments() == old(rt).payments()
                && final(rt).requested() == old(rt).requested() && final(rt).refusals() == old(rt).refusals(),
            r is Ok ==> final(rt).refusals() == old(rt).refusals(),
            old(self)@.pick_cnt < u32::MAX ==> (r matches Err(e) ==> final(rt).refusals() == old(rt).refusals().push(
                (final(rt).requested().last(), e),
            )),
            old(self)@.pick_cnt < u32::MAX ==> asked_in_turn(
                old(rt).requested(),
                final(rt).requested(),
                old(rt).payments(),
                final(rt).payments(),
                pick_payments(
                    account,
                    (old(rt).env().owner)(pixel_id as u32),
                    pot_account_of(old(self)@.pallet_id),
                    pick_fee(price, sub_pixels) as u128,
                ),
                r is Ok,
            ),
            r is Ok ==> old(self)@.pick_cnt < u32::MAX && final(self)@ == picked(
                with_pot_account(old(self)@),
                account,
                pixel_id,
                sub_pixels,
                old(rt).env().now,
            ),
            r is Err ==> final(self)@ == old(self)@ || final(self)@ == with_pot_account(old(self)@),
    {
        let pick_id = match self.pick_cnt.checked_add(1) {
            Some(id) => id,
            None => {
                return Err(DispatchError::Overflow);
            },
        };
        let pick = Pick { pick_id, pixel_id, sub_pixels, account, date_picked: rt.now() };
        let sub_pixel_ids = Self::subpixels_to_vec(sub_pixels);
        proof {
            lemma_set_bits(sub_pixels);
        }
        let quantity = sub_pixel_ids.len() as u8;
        let amount = price * quantity as u128;
        let owner_opt = rt.pixel_owner(pixel_id as u32);
        let (to_owner, pot_fund) = fee_split(amount, owner_opt.is_some());
        let ghost paid0 = rt.payments();
        let ghost asked0 = rt.requested();
        let ghost plan = pick_payments(account, owner_opt, pot_account_of(self@.pallet_id), amount);
        if let Some(owner) = owner_opt {
            match rt.transfer(account, owner, to_owner) {
                Ok(()) => {},
                Err(e) => {
                    assert(rt.requested() =~= asked0 + plan.take(1));
                    assert(rt.payments() =~= paid0 + plan.take(0));
                    return Err(e);
                },
            }
        }
        let lottery_account = self.pot_account_id();
        match rt.transfer(account, lottery_account, pot_fund) {
            Ok(()) => {},
            Err(e) => {
                assert(rt.requested() =~= asked0 + plan.take(plan.len() as int));
                assert(rt.payments() =~= paid0 + plan.take(plan.len() - 1));
                return Err(e);
            },
        }
        assert(rt.payments() =~= paid0 + plan);
        assert(rt.requested() =~= asked0 + plan);
        self.record_pick(pick, &sub_pixel_ids);
        Ok(())
    }

    /// Records `pick`, whose fee is paid, under its pixel, its sub-pixels
    /// `sub_pixel_ids` and its account, and moves the winning pixel on.
    fn record_pick(&mut self, pick: Pick, sub_pixel_ids: &Vec<u8>)
        requires
            old(self).wf(),
            pick.pick_id == old(self)@.pick_cnt + 1,
            sub_pixel_ids@ == set_bits(pick.sub_pixels),
        ensures
            final(self).wf(),
            final(self)@ == picked(old(self)@, pick.account, pick.pixel_id, pick.sub_pixels, pick.date_picked),
    {
        let ghost s0 = self@;
        let ghost ids = sub_pixel_ids@;
        proof {
            lemma_set_bits(pick.sub_pixels);
        }
        let pick_id = pick.pick_id;
        let pixel_id = pick.pixel_id;
        let account = pick.account;
        let sub_pixels = pick.sub_pixels;
        let index = self.lottery_index;
        let quantity = sub_pixel_ids.len() as u8;

        self.pick_cnt = pick_id;
        self.picks.insert(pick_id, pick);

        let count = match self.pixel_pick_cnt.get(&(index, pixel_id)) {
            Some(c) => *c,
            None => 0,
        };
        self.pixel_pick_cnt.insert((index, pixel_id), count.saturating_add(quantity as u32));

        let mut cell_picks: Vec<u32> = match self.pixel_picks.remove(&(index, pixel_id)) {
            Some(v) => v,
            None => Vec::new(),
        };
        cell_picks.push(pick_id);
        self.pixel_picks.insert((index, pixel_id), cell_picks);

        let ghost s1 = self@;
        let n = sub_pixel_ids.len();
        let mut sum: u16 = 0;
        let mut j: usize = 0;
        while j < n
            invariant
                0 <= j <= n,
                n == sub_pixel_ids.len(),
                n <= 128,
                ids == sub_pixel_ids@,
                ids == set_bits(sub_pixels),
                forall|k: int| 0 <= k < ids.len() ==> #[trigger] ids[k] < 128,
                forall|k: int, l: int| 0 <= k < l < ids.len() ==> ids[k] < ids[l],
                sum == index_sum(ids.take(j as int)),
                self@ == (LotteryState {
                    sub_pixel_pick_cnt: counted(s1.sub_pixel_pick_cnt, (index, pixel_id), ids.take(j as int)),
                    sub_pixel_picks: listed(s1.sub_pixel_picks, (index, pixel_id), ids.take(j as int), pick_id),
                    ..s1
                }),
            decreases n - j,
        {
            let sub_pixel_id = sub_pixel_ids[j];
            let key = ((index, pixel_id), sub_pixel_id);
            let ghost done = ids.take(j as int);
            let ghost done1 = ids.take(j + 1);
            proof {
                assert(done1 =~= done.push(sub_pixel_id));
                assert(!done.contains(sub_pixel_id));
                lemma_index_sum_bound(done1);
                assert(done1.drop_last() =~= done);
            }
            let count = match self.sub_pixel_pick_cnt.get(&key) {
                Some(c) => *c,
                None => 0,
            };
            assert(count == get_or(s1.sub_pixel_pick_cnt, key, 0));
            assert(!hits((index, pixel_id), done, key));
            assert(self@.sub_pixel_picks.contains_key(key) == s1.sub_pixel_picks.contains_key(key));
            assert(self@.sub_pixel_picks.contains_key(key) ==> self@.sub_pixel_picks[key]
                == s1.sub_pixel_picks[key]);
            self.sub_pixel_pick_cnt.insert(key, count.saturating_add(1));
            let ghost mid = self@;
            let mut sub_picks: Vec<u32> = match self.sub_pixel_picks.remove(&key) {
                Some(v) => v,
                None => Vec::new(),
            };
            assert(sub_picks@ == get_or(s1.sub_pixel_picks, key, seq![]));
            sub_picks.push(pick_id);
            self.sub_pixel_picks.insert(key, sub_picks);
            sum = sum + sub_pixel_id as u16;
            proof {
                assert(self@.sub_pixel_pick_cnt =~= counted(s1.sub_pixel_pick_cnt, (index, pixel_id), done1));
                let target = listed(s1.sub_pixel_picks, (index, pixel_id), done1, pick_id);
                assert(self@.sub_pixel_picks =~= mid.sub_pixel_picks.insert(key, sub_picks@));
                assert forall|k: ((u32, u16), u8)| #[trigger] target.contains_key(k) implies mid.sub_pixel_picks.insert(
                    key,
                    sub_picks@,
                ).contains_key(k) && mid.sub_pixel_picks.insert(key, sub_picks@)[k] == target[k] by {
                    if k != key {
                        assert(hits((index, pixel_id), done1, k) == hits((index, pixel_id), done, k));
                    }
                }
                assert(self@.sub_pixel_picks =~= target);
            }
            j = j + 1;
        }
        assert(ids.take(n as int) =~= ids);
        proof {
            lemma_index_sum_bound(ids);
        }

        let mine = ((index, account), pixel_id);
        let cur_sub_pixels = match self.account_pick_subpixels.get(&mine) {
            Some(c) => *c,
            None => 0,
        };
        self.account_pick_subpixels.insert(mine, cur_sub_pixels | sub_pixels);
        if cur_sub_pixels == 0 {
            let mut pixels: Vec<u16> = match self.account_picks.remove(&(index, account)) {
                Some(v) => v,
                None => Vec::new(),
            };
            pixels.push(pixel_id);
            self.account_picks.insert((index, account), pixels);
        }

        let w0 = self.winning_pixel.0;
        let w1 = self.winning_pixel.1;
        self.winning_pixel = WinningPixelTup(
            ((w0 as u32 + pixel_id as u32) % self.max_pixel as u32) as u16,
            ((w1 as u16 + sum) % self.max_sub_pixel as u16) as u8,
        );

        let ghost expected = picked(s0, account, pixel_id, sub_pixels, pick.date_picked);
        proof {
            lemma_picked_keeps_index(s0, account, pixel_id, sub_pixels, pick.date_picked);
            lemma_picked_keeps_winning(s0, account, pixel_id, sub_pixels, pick.date_picked);
        }
        assert(self@.picks =~= expected.picks);
        assert(self@.pixel_pick_cnt =~= expected.pixel_pick_cnt);
        assert(self@.pixel_picks =~= expected.pixel_picks);
        assert(self@.account_pick_subpixels =~= expected.account_pick_subpixels);
        assert(self@.account_picks =~= expected.account_picks);
        assert(self@ =~= expected);
    }
}

} // verus!
