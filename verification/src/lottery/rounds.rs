//! Rounds: starting the lottery, the pot it pays from, and the draw at the
//! end of each round.

use vstd::prelude::*;

use crate::dispatch::{
    amount_of, kept, lemma_total_concat, lemma_total_single, lemma_total_uniform, paid_some_of, payments_total, DispatchError,
    Origin, Payment, Weight,
};
use crate::scale::decode_u64;

use super::accounts::{accounts_of, lemma_accounts_of};
use super::picking::picked_all;
use super::randomness::ticket;
use super::{
    get_or, pot_account_of, sat_add_u32, sat_add_u64, Config, Env, Error, Event, LotteryConfig,
    LotteryState, Pallet,
};

verus! {

broadcast use {vstd::std_specs::btree::group_btree_axioms, vstd::laws_cmp::group_laws_cmp};

/// `s` with the pot account derived and cached.
pub open spec fn with_pot_account(s: LotteryState) -> LotteryState {
    LotteryState { lottery_account: Some(pot_account_of(s.pallet_id)), ..s }
}

/// The lottery after it is started at block `start` with the given terms.
pub open spec fn started(s: LotteryState, price: u128, start: u64, length: u64, delay: u64) -> LotteryState {
    LotteryState {
        lottery: Some(LotteryConfig { price, start, length, delay }),
        lottery_index: (s.lottery_index + 1) as u32,
        events: s.events.push(Event::LotteryStarted),
        ..with_pot_account(s)
    }
}

/// The block at which the round of `c` is drawn.
pub open spec fn payout_block(c: LotteryConfig) -> u64 {
    sat_add_u64(sat_add_u64(c.start, c.length), c.delay)
}

/// Whether a round is to be drawn at block `n`.
pub open spec fn draw_due(s: LotteryState, n: u64) -> bool {
    s.lottery matches Some(c) && payout_block(c) <= n
}

/// The lottery after the round is drawn at block `n` with the winning pixel
/// `winner`: the draw is reported with the winning sub-pixel, the next round
/// begins, and it starts at `n`.
pub open spec fn drawn(s: LotteryState, n: u64, winner: u16) -> LotteryState {
    LotteryState {
        lottery: Some(LotteryConfig { start: n, ..s.lottery.unwrap() }),
        lottery_index: sat_add_u32(s.lottery_index, 1),
        events: s.events.push(Event::WinningPixel(s.lottery_index, winner, s.winning_pixel.1)),
        ..with_pot_account(s)
    }
}

/// The winning pixel of a draw: a ticket drawn at random among the pixels
/// of the map.
pub open spec fn drawn_pixel(env: Env, s: LotteryState) -> u16 {
    ticket(env, s.pallet_id, s.max_pixel as u32) as u16
}

/// `x - y`, or 0 when that is negative.
pub open spec fn sat_sub_u128(x: u128, y: u128) -> u128 {
    if x < y {
        0
    } else {
        (x - y) as u128
    }
}

/// The payments a draw asks for from the pot account `pot` holding `balance`
/// beyond its minimum: the owner's cut to the winning pixel's `owner`, when
/// it has one, then an equal reward to each of `winners`, in order.
pub open spec fn payout_payments(pot: u64, balance: u128, owner: Option<u64>, winners: Seq<u64>) -> Seq<
    Payment,
> {
    let shares = payout_shares(balance, owner is Some, winners.len());
    let rewards = Seq::new(
        winners.len(),
        |i: int| Payment::Transfer { from: pot, to: winners[i], amount: shares.1 },
    );
    match owner {
        Some(o) => seq![Payment::Transfer { from: pot, to: o, amount: shares.0 }] + rewards,
        None => rewards,
    }
}

/// A draw never pays out more than the pot holds beyond its minimum, and
/// every winning account is paid the same reward.
pub proof fn lemma_payout_within_pot_balance(pot: u64, balance: u128, owner: Option<u64>, winners: Seq<u64>)
    ensures
        payments_total(payout_payments(pot, balance, owner, winners)) <= balance,
        forall|i: int, j: int|
            (owner is Some ==> 1 <= i && 1 <= j) && 0 <= i < payout_payments(pot, balance, owner, winners).len()
                && 0 <= j < payout_payments(pot, balance, owner, winners).len() ==> amount_of(
                #[trigger] payout_payments(pot, balance, owner, winners)[i],
            ) == amount_of(#[trigger] payout_payments(pot, balance, owner, winners)[j]),
{
    let shares = payout_shares(balance, owner is Some, winners.len());
    let rewards = Seq::new(
        winners.len(),
        |i: int| Payment::Transfer { from: pot, to: winners[i], amount: shares.1 },
    );
    lemma_total_uniform(rewards, shares.1);
    lemma_payout_within_pot(balance, owner is Some, winners.len());
    match owner {
        Some(o) => {
            let first = seq![Payment::Transfer { from: pot, to: o, amount: shares.0 }];
            lemma_total_concat(first, rewards);
            lemma_total_single(first[0]);
        },
        None => {},
    }
}

/// The payments of the draw of the round of `s`, with the runtime in `env`
/// and the pot's free balance `pot_free`.
pub open spec fn payout_plan(s: LotteryState, env: Env, pot_free: u128) -> Seq<Payment> {
    let winner = drawn_pixel(env, s);
    payout_payments(
        pot_account_of(s.pallet_id),
        sat_sub_u128(pot_free, env.minimum_balance),
        (env.owner)(winner as u32),
        accounts_of(s.picks, get_or(s.pixel_picks, (s.lottery_index, winner), seq![])),
    )
}

/// Keeping one more payment or not extends what was kept.
proof fn lemma_kept_push(planned: Seq<Payment>, made: Seq<bool>, p: Payment, b: bool)
    requires
        planned.len() == made.len(),
    ensures
        kept(planned.push(p), made.push(b)) == if b {
            kept(planned, made).push(p)
        } else {
            kept(planned, made)
        },
{
    assert(planned.push(p).drop_last() =~= planned);
    assert(made.push(b).drop_last() =~= made);
}

/// Starting a lottery records exactly the terms given, starting at the
/// given block, moves on to the next round, reports the start, caches the
/// pot account and leaves the picks and the winning pixel as they were.
pub proof fn lemma_started_exact(s: LotteryState, price: u128, start: u64, length: u64, delay: u64)
    requires
        s.lottery_index < u32::MAX,
    ensures
        started(s, price, start, length, delay).lottery == Some(
            LotteryConfig { price: price, start: start, length: length, delay: delay },
        ),
        started(s, price, start, length, delay).lottery_index == s.lottery_index + 1,
        started(s, price, start, length, delay).events == s.events.push(Event::LotteryStarted),
        started(s, price, start, length, delay).lottery_account == Some(pot_account_of(s.pallet_id)),
        started(s, price, start, length, delay).picks == s.picks,
        started(s, price, start, length, delay).pick_cnt == s.pick_cnt,
        started(s, price, start, length, delay).winning_pixel == s.winning_pixel,
        started(s, price, start, length, delay).pixel_picks == s.pixel_picks,
{
}

/// A draw is due at exactly the blocks from the round's start plus its
/// length plus its delay on (the sum capped at `u64::MAX`), and never when
/// no lottery runs.
pub proof fn lemma_draw_due_window(s: LotteryState, n: u64)
    ensures
        s.lottery is None ==> !draw_due(s, n),
        s.lottery matches Some(c) ==> (c.start + c.length + c.delay <= u64::MAX ==> (draw_due(s, n) <==> c.start
            + c.length + c.delay <= n)),
        s.lottery matches Some(c) ==> (c.start + c.length + c.delay > u64::MAX ==> (draw_due(s, n) <==> n
            == u64::MAX)),
{
}

/// A draw reports the round drawn, the winning pixel and the winning
/// sub-pixel; moves on to the next round; restarts the lottery at the draw's
/// block with its price, length and delay; and leaves the picks as they were.
pub proof fn lemma_drawn_exact(s: LotteryState, n: u64, winner: u16)
    requires
        s.lottery is Some,
        s.lottery_index < u32::MAX,
    ensures
        drawn(s, n, winner).events == s.events.push(Event::WinningPixel(s.lottery_index, winner, s.winning_pixel.1)),
        drawn(s, n, winner).lottery_index == s.lottery_index + 1,
        drawn(s, n, winner).lottery == Some(
            LotteryConfig {
                price: s.lottery.unwrap().price,
                start: n,
                length: s.lottery.unwrap().length,
                delay: s.lottery.unwrap().delay,
            },
        ),
        drawn(s, n, winner).picks == s.picks,
        drawn(s, n, winner).pick_cnt == s.pick_cnt,
        drawn(s, n, winner).winning_pixel == s.winning_pixel,
{
}

/// A lottery starts once: once started it is running, so `start_lottery`
/// refuses to start it again, and a draw keeps it running.
pub proof fn lemma_lottery_starts_once(
    s: LotteryState,
    price: u128,
    start: u64,
    length: u64,
    delay: u64,
    n: u64,
    winner: u16,
)
    ensures
        started(s, price, start, length, delay).lottery is Some,
        s.lottery is Some ==> drawn(s, n, winner).lottery is Some,
{
}

/// Each draw moves on to the next round and restarts the running lottery
/// at the draw's block with the same price, length and delay.
pub proof fn lemma_draw_next_round(s: LotteryState, n: u64, winner: u16)
    requires
        draw_due(s, n),
        s.lottery_index < u32::MAX,
    ensures
        drawn(s, n, winner).lottery_index == s.lottery_index + 1,
        drawn(s, n, winner).lottery == Some(LotteryConfig { start: n, ..s.lottery.unwrap() }),
        s.lottery.unwrap().length > 0 && n + s.lottery.unwrap().length <= u64::MAX ==> !draw_due(
            drawn(s, n, winner),
            n,
        ),
{
}

/// A call that changes the lottery, as its contract says it does when it
/// succeeds. (A call that fails changes nothing but, at most, the cached pot
/// account, which `DerivePot` stands for.)
pub enum Step {
    /// `account` picks each of `pixels` (pixel, sub-pixels) at time `now`,
    /// through `pick` or, one pixel at a time, `pick_pixel`.
    Pick { account: u64, pixels: Seq<(u16, u128)>, now: u64 },
    /// The hook runs at block `block`; a draw due then wins `winner`.
    Draw { block: u64, winner: u16 },
    /// The manager starts a lottery with the given terms at block `block`.
    Start { price: u128, block: u64, length: u64, delay: u64 },
    /// The pot account is derived and cached.
    DerivePot,
}

/// The lottery after the calls `steps`, in order, from `s`.
pub open spec fn run(s: LotteryState, steps: Seq<Step>) -> LotteryState
    decreases steps.len(),
{
    if steps.len() == 0 {
        s
    } else {
        let before = run(s, steps.drop_last());
        match steps.last() {
            Step::Pick { account, pixels, now } => picked_all(
                before,
                account,
                pixels,
                Seq::new(pixels.len(), |k: int| now),
            ),
            Step::Draw { block, winner } => if draw_due(before, block) {
                drawn(before, block, winner)
            } else {
                before
            },
            Step::Start { price, block, length, delay } => if before.lottery is None && before.lottery_index
                < u32::MAX {
                started(before, price, block, length, delay)
            } else {
                before
            },
            Step::DerivePot => with_pot_account(before),
        }
    }
}

/// Picks keep the running lottery and its terms.
proof fn lemma_picks_keep_lottery(s: LotteryState, account: u64, pixels: Seq<(u16, u128)>, dates: Seq<u64>)
    ensures
        picked_all(s, account, pixels, dates).lottery == s.lottery,
    decreases pixels.len(),
{
    if pixels.len() > 0 {
        lemma_picks_keep_lottery(s, account, pixels.drop_last(), dates);
    }
}

/// Once started, the lottery stays started through any calls, with the
/// price, length and delay it was started with; so the manager's later
/// `start_lottery` calls fail with `InProgress`.
pub proof fn lemma_lottery_stays_started(s: LotteryState, steps: Seq<Step>)
    requires
        s.lottery is Some,
    ensures
        run(s, steps).lottery is Some,
        run(s, steps).lottery.unwrap().price == s.lottery.unwrap().price,
        run(s, steps).lottery.unwrap().length == s.lottery.unwrap().length,
        run(s, steps).lottery.unwrap().delay == s.lottery.unwrap().delay,
    decreases steps.len(),
{
    if steps.len() > 0 {
        lemma_lottery_stays_started(s, steps.drop_last());
        let before = run(s, steps.drop_last());
        match steps.last() {
            Step::Pick { account, pixels, now } => {
                lemma_picks_keep_lottery(before, account, pixels, Seq::new(pixels.len(), |k: int| now));
            },
            _ => {},
        }
    }
}

/// The share of a pot of `balance` that goes to the winning pixel's owner
/// (5%, when the pixel has an owner) and the reward of each of `winners`
/// accounts (an equal share of the rest; nothing when no one won).
pub open spec fn payout_shares(balance: u128, has_owner: bool, winners: nat) -> (u128, u128) {
    let owner_cut = if has_owner { balance / 20 } else { 0 };
    let rest = balance - owner_cut;
    let each = if winners > 0 { rest / winners as int } else { 0 };
    (owner_cut as u128, each as u128)
}

/// The payout never exceeds the pot: the owner's cut and every winner's
/// reward together are at most the pot's balance.
pub proof fn lemma_payout_within_pot(balance: u128, has_owner: bool, winners: nat)
    ensures
        payout_shares(balance, has_owner, winners).0 + winners * payout_shares(balance, has_owner, winners).1
            <= balance,
{
    let owner_cut: int = if has_owner { (balance / 20) as int } else { 0 };
    let rest: int = balance - owner_cut;
    if winners > 0 {
        let each: int = rest / winners as int;
        assert(winners * each <= rest) by (nonlinear_arith)
            requires
                winners > 0,
                rest >= 0,
                each == rest / winners as int,
        ;
    }
}

/// The owner of the winning pixel, when it has one, gets 5% of the pot
/// however many accounts picked the pixel, even none; a pixel with no owner
/// takes nothing. Each winner's reward is an equal share of what is left
/// (rounded down), and there is no reward when nobody won.
pub proof fn lemma_payout_shares_exact(balance: u128, has_owner: bool, winners: nat)
    ensures
        has_owner ==> payout_shares(balance, has_owner, winners).0 == balance / 20,
        !has_owner ==> payout_shares(balance, has_owner, winners).0 == 0,
        has_owner && winners > 0 ==> payout_shares(balance, has_owner, winners).1 == (balance - balance / 20)
            / (winners as int),
        !has_owner && winners > 0 ==> payout_shares(balance, has_owner, winners).1 == (balance as int) / (winners as int),
        winners == 0 ==> payout_shares(balance, has_owner, winners).1 == 0,
{
}

/// The payments of a draw: the owner of the winning pixel, when it has one,
/// is paid 5% of the pot first, whether or not anybody picked the pixel;
/// then every winning account, in order, is paid the same reward, and
/// nobody else is paid. Every payment comes from the pot.
pub proof fn lemma_payout_payments_exact(pot: u64, balance: u128, owner: Option<u64>, winners: Seq<u64>)
    ensures
        owner matches Some(o) ==> payout_payments(pot, balance, owner, winners).len() == winners.len() + 1
            && payout_payments(pot, balance, owner, winners)[0] == (Payment::Transfer {
            from: pot,
            to: o,
            amount: balance / 20,
        }),
        owner is None ==> payout_payments(pot, balance, owner, winners).len() == winners.len(),
        owner is Some ==> forall|i: int|
            0 <= i < winners.len() ==> payout_payments(pot, balance, owner, winners)[i + 1] == (Payment::Transfer {
                from: pot,
                to: #[trigger] winners[i],
                amount: ((balance - balance / 20) / (winners.len() as int)) as u128,
            }),
        owner is None ==> forall|i: int|
            0 <= i < winners.len() ==> payout_payments(pot, balance, owner, winners)[i] == (Payment::Transfer {
                from: pot,
                to: #[trigger] winners[i],
                amount: ((balance as int) / (winners.len() as int)) as u128,
            }),
{
}

/// Splits a pot of `balance` between the winning pixel's owner, if it has
/// one, and `winners` winning accounts.
pub fn payout(balance: u128, has_owner: bool, winners: u32) -> (r: (u128, u128))
    ensures
        r == payout_shares(balance, has_owner, winners as nat),
        r.0 == (if has_owner { balance / 20 } else { 0 }),
        winners > 0 ==> r.1 == (balance - r.0) / (winners as int),
        winners == 0 ==> r.1 == 0,
{
    let owner_cut: u128 = if has_owner { balance / 20 } else { 0 };
    let rest = balance - owner_cut;
    let each: u128 = if winners > 0 { rest / winners as u128 } else { 0 };
    (owner_cut, each)
}

impl Pallet {
    /// The pot account, derived from the pallet's identifier the first time
    /// and cached.
    pub fn pot_account_id(&mut self) -> (r: u64)
        requires
            old(self).wf(),
        ensures
            final(self).wf(),
            r == pot_account_of(old(self)@.pallet_id),
            final(self)@ == with_pot_account(old(self)@),
    {
        if let Some(account) = self.lottery_account {
            assert(self@ =~= with_pot_account(self@));
            return account;
        }
        let mut bytes: Vec<u8> = vec![0x6du8, 0x6fu8, 0x64u8, 0x6cu8];
        bytes.extend_from_slice(&self.pallet_id);
        assert(bytes@ =~= seq![0x6du8, 0x6fu8, 0x64u8, 0x6cu8] + self.pallet_id@);
        let account = decode_u64(bytes.as_slice()).unwrap();
        self.lottery_account = Some(account);
        assert(self@ =~= with_pot_account(old(self)@));
        account
    }

    /// The pot account and what it holds beyond the minimum balance, which
    /// stays so that the account is never removed.
    fn pot<R: Config>(&mut self, rt: &R) -> (r: (u64, u128))
        requires
            old(self).wf(),
        ensures
            final(self).wf(),
            r.0 == pot_account_of(old(self)@.pallet_id),
            r.1 == sat_sub_u128(rt.free_balance_of(r.0), rt.env().minimum_balance),
            final(self)@ == with_pot_account(old(self)@),
    {
        let account_id = self.pot_account_id();
        let balance = rt.free_balance(account_id).saturating_sub(rt.minimum_balance());
        (account_id, balance)
    }

    /// Starts the lottery with the given price per sub-pixel, length and
    /// delay, from the current block. Only the manager may; it fails with
    /// `InProgress` once a lottery was started and with `Overflow` when the
    /// round counter is full, changing nothing. The pot account gets the
    /// minimum balance if it holds nothing.
    pub fn start_lottery<R: Config>(
        &mut self,
        rt: &mut R,
        origin: Origin,
        price: u128,
        length: u64,
        delay: u64,
    ) -> (r: Result<(), DispatchError>)
        requires
            old(self).wf(),
        ensures
            final(self).wf(),
            final(rt).env() == old(rt).env(),
            final(rt).saved() == old(rt).saved(),
            !(old(rt).env().manager)(origin) ==> r == Err::<(), DispatchError>(DispatchError::BadOrigin),
            (old(rt).env().manager)(origin) && old(self)@.lottery is Some ==> r == Err::<(), DispatchError>(
                DispatchError::Lottery(Error::InProgress),
            ),
            (old(rt).env().manager)(origin) && old(self)@.lottery is None && old(self)@.lottery_index
                == u32::MAX ==> r == Err::<(), DispatchError>(DispatchError::Overflow),
            r is Ok <==> (old(rt).env().manager)(origin) && old(self)@.lottery is None
                && old(self)@.lottery_index < u32::MAX,
            r is Err ==> final(self)@ == old(self)@ && final(rt).payments() == old(rt).payments()
                && final(rt).requested() == old(rt).requested(),
            r is Ok ==> final(rt).requested() == if old(rt).total_balance_of(
                pot_account_of(old(self)@.pallet_id),
            ) == 0 {
                old(rt).requested().push(
                    Payment::Deposit {
                        who: pot_account_of(old(self)@.pallet_id),
                        amount: old(rt).env().minimum_balance,
                    },
                )
            } else {
                old(rt).requested()
            },
            r is Ok ==> final(self)@ == started(old(self)@, price, old(rt).env().block, length, delay),
            r is Ok ==> final(rt).payments() == if old(rt).total_balance_of(pot_account_of(old(self)@.pallet_id))
                == 0 {
                old(rt).payments().push(
                    Payment::Deposit {
                        who: pot_account_of(old(self)@.pallet_id),
                        amount: old(rt).env().minimum_balance,
                    },
                )
            } else {
                old(rt).payments()
            },
    {
        if !rt.is_manager(&origin) {
            return Err(DispatchError::BadOrigin);
        }
        if self.lottery.is_some() {
            return Err(DispatchError::Lottery(Error::InProgress));
        }
        let new_index = match self.lottery_index.checked_add(1) {
            Some(i) => i,
            None => {
                return Err(DispatchError::Overflow);
            },
        };
        let start = rt.block_number();
        let ghost s0 = self@;
        self.lottery = Some(LotteryConfig { price, start, length, delay });
        self.lottery_index = new_index;
        let lottery_account = self.pot_account_id();
        if rt.total_balance(lottery_account) == 0 {
            let minimum = rt.minimum_balance();
            rt.deposit_creating(lottery_account, minimum);
        }
        self.events.push(Event::LotteryStarted);
        assert(self@ =~= started(s0, price, start, length, delay));
        Ok(())
    }

    /// The hook run at the start of block `n`. Once the running round's
    /// payout block is reached, a winning pixel is drawn at random among the
    /// pixels of the map and the pot is paid out: 5% to the winning pixel's
    /// owner if it has one, the rest in equal shares to the accounts that
    /// picked it (transfers that fail are skipped); the draw is reported with
    /// the winning sub-pixel and the next round starts at `n`.
    pub fn on_initialize<R: Config>(&mut self, rt: &mut R, n: u64) -> (w: Weight)
        requires
            old(self).wf(),
        ensures
            final(self).wf(),
            final(rt).env() == old(rt).env(),
            final(rt).saved() == old(rt).saved(),
            draw_due(old(self)@, n) ==> w == (Weight { reads: 0, writes: 1 }),
            draw_due(old(self)@, n) ==> final(self)@ == drawn(old(self)@, n, drawn_pixel(old(rt).env(), old(self)@)),
            draw_due(old(self)@, n) ==> paid_some_of(
                old(rt).payments(),
                final(rt).payments(),
                payout_plan(
                    old(self)@,
                    old(rt).env(),
                    old(rt).free_balance_of(pot_account_of(old(self)@.pallet_id)),
                ),
            ),
            draw_due(old(self)@, n) ==> final(rt).requested() == old(rt).requested() + payout_plan(
                old(self)@,
                old(rt).env(),
                old(rt).free_balance_of(pot_account_of(old(self)@.pallet_id)),
            ),
            !draw_due(old(self)@, n) ==> w == (Weight { reads: 1, writes: 0 }),
            !draw_due(old(self)@, n) ==> final(self)@ == old(self)@ && final(rt).payments()
                == old(rt).payments() && final(rt).requested() == old(rt).requested(),
    {
        if let Some(config) = self.lottery {
            let payout_at = config.start.saturating_add(config.length).saturating_add(config.delay);
            if payout_at <= n {
                let ghost s0 = self@;
                let ghost env = rt.env();
                let ghost saved0 = rt.saved();
                let ghost paid0 = rt.payments();
                let ghost asked0 = rt.requested();
                let ghost pot_free = rt.free_balance_of(pot_account_of(s0.pallet_id));
                let (lottery_account, lottery_balance) = self.pot(rt);
                let winning: u16 = match self.choose_ticket(rt, self.max_pixel as u32) {
                    Some(t) => t as u16,
                    None => 0,
                };
                let winning_sub_pixel = self.winning_pixel.1;
                let owner_opt = rt.pixel_owner(winning as u32);
                let index = self.lottery_index;
                let winners = self.get_accounts_picked_pixel(index, winning);
                proof {
                    let ids = get_or(self@.pixel_picks, (index, winning), seq![]);
                    lemma_accounts_of(self@.picks, ids);
                    if self@.pixel_picks.contains_key((index, winning)) {
                        assert(ids.len() <= self@.pick_cnt);
                    }
                }
                let (owner_cut, reward_each) = payout(lottery_balance, owner_opt.is_some(), winners.len() as u32);
                let ghost plan = payout_plan(s0, env, pot_free);
                let ghost shares = payout_shares(lottery_balance, owner_opt is Some, winners@.len());
                let ghost rewards = Seq::new(
                    winners@.len(),
                    |i: int| Payment::Transfer { from: lottery_account, to: winners@[i], amount: shares.1 },
                );
                let ghost mut done: Seq<Payment> = seq![];
                let ghost mut made: Seq<bool> = seq![];
                assert(paid0 + kept(done, made) =~= paid0);
                assert(asked0 + done =~= asked0);
                if let Some(owner) = owner_opt {
                    let res = rt.transfer(lottery_account, owner, owner_cut);
                    proof {
                        let first = Payment::Transfer { from: lottery_account, to: owner, amount: owner_cut };
                        lemma_kept_push(done, made, first, res is Ok);
                        if res is Ok {
                            assert(rt.payments() =~= paid0 + kept(done, made).push(first));
                        }
                        assert(rt.requested() =~= asked0 + done.push(first));
                        done = done.push(first);
                        made = made.push(res is Ok);
                    }
                }
                let ghost offset: int = done.len() as int;
                let count = winners.len();
                assert(plan =~= done + rewards);
                assert forall|k: int| 0 <= k < count implies #[trigger] rewards[k] == plan[offset + k] by {
                    assert((done + rewards)[offset + k] == rewards[k]);
                }
                assert(done =~= plan.take(offset));
                let mut i: usize = 0;
                while i < count
                    invariant
                        count == winners.len(),
                        0 <= i <= count,
                        rt.env() == env,
                        rt.saved() == saved0,
                        done.len() == made.len(),
                        done.len() == offset + i,
                        done =~= plan.take(offset + i),
                        plan.len() == offset + count,
                        rewards.len() == count,
                        forall|k: int| 0 <= k < count ==> #[trigger] rewards[k] == plan[offset + k],
                        forall|k: int| 0 <= k < count ==> #[trigger] rewards[k] == (Payment::Transfer {
                            from: lottery_account,
                            to: winners@[k],
                            amount: reward_each,
                        }),
                        rt.payments() == paid0 + kept(done, made),
                        rt.requested() == asked0 + done,
                    decreases count - i,
                {
                    let res = rt.transfer(lottery_account, winners[i], reward_each);
                    proof {
                        let next = rewards[i as int];
                        assert(plan[offset + i] == next);
                        assert(done.push(next) =~= plan.take(offset + i + 1));
                        lemma_kept_push(done, made, next, res is Ok);
                        if res is Ok {
                            assert(rt.payments() =~= paid0 + kept(done, made).push(next));
                        }
                        assert(rt.requested() =~= asked0 + done.push(next));
                        done = done.push(next);
                        made = made.push(res is Ok);
                    }
                    i = i + 1;
                }
                assert(done =~= plan);
                assert(paid_some_of(paid0, rt.payments(), plan));
                self.events.push(Event::WinningPixel(index, winning, winning_sub_pixel));
                self.lottery_index = index.saturating_add(1);
                self.lottery = Some(LotteryConfig { start: n, ..config });
                assert(self@ =~= drawn(s0, n, winning));
                return Weight { reads: 0, writes: 1 };
            }
        }
        Weight { reads: 1, writes: 0 }
    }
}

} // verus!
