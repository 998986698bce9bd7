//! The lottery: each round players pick pixels and sub-pixels for a fee,
//! part of which goes to the pixel's owner and the rest to the pot; when
//! the round is over a winning pixel is drawn at random and the pot is
//! shared between its owner and the accounts that picked it.

use std::collections::BTreeMap;

use vstd::prelude::*;

use crate::dispatch::{DispatchError, Payment};
use crate::dispatch::Origin;
use crate::scale::le_value;
use crate::subpixels::{bit_set, index_sum, set_bits};

pub mod accounts;
pub mod picking;
pub mod randomness;
pub mod rounds;

pub use picking::fee_split;
use accounts::picked_by;
pub use rounds::payout;

verus! {

broadcast use {vstd::std_specs::btree::group_btree_axioms, vstd::laws_cmp::group_laws_cmp};

/// What the runtime around the lottery holds that no payment changes: the
/// current block, the time, the least balance an account must keep, who
/// may manage the lottery, who owns each pixel, and the random hash it
/// gives for each subject in this block.
pub struct Env {
    pub block: u64,
    pub now: u64,
    pub minimum_balance: u128,
    pub manager: spec_fn(Origin) -> bool,
    pub owner: spec_fn(u32) -> Option<u64>,
    pub random: spec_fn(Seq<u8>) -> [u8; 32],
}

/// What the lottery needs from the runtime around it: the chain's clock and
/// block height, the manager's authority, the pixel registry, randomness,
/// the currency, and storage transactions.
///
/// An implementation keeps, as its specification, `payments`: the record of
/// the transfers and deposits its currency has carried out, in order;
/// `requested`: the record of those asked of it, carried out or not;
/// `refusals`: the record of those it refused, with its answers; and
/// `saved`: the records at which the open storage transactions began. Reads
/// answer from `env`, which payments and transactions leave as it is; a
/// transfer that fails moves nothing and is recorded with the currency's
/// answer; undoing a transaction returns `payments` to where the
/// transaction began, while `requested` and `refusals` keep what was asked
/// and refused.
///
/// The specification functions below are the implementation's to define.
/// Their defaults are left unspecified, and no proof of the lottery looks
/// into them: it relies only on the contracts of the methods.
pub trait Config {
    /// What no payment changes.
    closed spec fn env(&self) -> Env {
        arbitrary()
    }

    /// The payments carried out so far, in order.
    closed spec fn payments(&self) -> Seq<Payment> {
        arbitrary()
    }

    /// The payments asked of the currency so far, carried out or not, in
    /// order.
    closed spec fn requested(&self) -> Seq<Payment> {
        arbitrary()
    }

    /// The payments the currency refused so far, each with the error it
    /// answered, in order.
    closed spec fn refusals(&self) -> Seq<(Payment, DispatchError)> {
        arbitrary()
    }

    /// For each open storage transaction, innermost last, the payments made
    /// before it began.
    closed spec fn saved(&self) -> Seq<Seq<Payment>> {
        arbitrary()
    }

    /// The free balance of `who`.
    closed spec fn free_balance_of(&self, who: u64) -> u128 {
        arbitrary()
    }

    /// The total balance of `who`.
    closed spec fn total_balance_of(&self, who: u64) -> u128 {
        arbitrary()
    }

    /// The current block number.
    fn block_number(&self) -> (r: u64)
        ensures
            r == self.env().block,
    ;

    /// The current time, stamped on picks.
    fn now(&self) -> (r: u64)
        ensures
            r == self.env().now,
    ;

    /// Whether `origin` may manage the lottery.
    fn is_manager(&self, origin: &Origin) -> (r: bool)
        ensures
            r == (self.env().manager)(*origin),
    ;

    /// The owner of a pixel, if it is minted.
    fn pixel_owner(&self, pixel_id: u32) -> (r: Option<u64>)
        ensures
            r == (self.env().owner)(pixel_id),
    ;

    /// A random hash for `subject`, as of the current block.
    fn random(&self, subject: &Vec<u8>) -> (r: [u8; 32])
        ensures
            r == (self.env().random)(subject@),
    ;

    /// Moves `amount` from `from` to `to`, keeping `from` alive; a failed
    /// transfer moves nothing.
    fn transfer(&mut self, from: u64, to: u64, amount: u128) -> (r: Result<(), DispatchError>)
        ensures
            final(self).env() == old(self).env(),
            final(self).saved() == old(self).saved(),
            final(self).requested() == old(self).requested().push(Payment::Transfer { from, to, amount }),
            r is Ok ==> final(self).payments() == old(self).payments().push(
                Payment::Transfer { from, to, amount },
            ),
            r is Err ==> final(self).payments() == old(self).payments(),
            r is Ok ==> final(self).refusals() == old(self).refusals(),
            r matches Err(e) ==> final(self).refusals() == old(self).refusals().push(
                (Payment::Transfer { from, to, amount }, e),
            ),
    ;

    /// The free balance of `who`.
    fn free_balance(&self, who: u64) -> (r: u128)
        ensures
            r == self.free_balance_of(who),
    ;

    /// The total balance of `who`.
    fn total_balance(&self, who: u64) -> (r: u128)
        ensures
            r == self.total_balance_of(who),
    ;

    /// The least balance an account must keep to exist.
    fn minimum_balance(&self) -> (r: u128)
        ensures
            r == self.env().minimum_balance,
    ;

    /// Mints `amount` into `who`, creating the account if needed.
    fn deposit_creating(&mut self, who: u64, amount: u128)
        ensures
            final(self).env() == old(self).env(),
            final(self).saved() == old(self).saved(),
            final(self).payments() == old(self).payments().push(Payment::Deposit { who, amount }),
            final(self).requested() == old(self).requested().push(Payment::Deposit { who, amount }),
            final(self).refusals() == old(self).refusals(),
    ;

    /// Opens a storage transaction of the runtime.
    fn start_transaction(&mut self)
        ensures
            final(self).env() == old(self).env(),
            final(self).payments() == old(self).payments(),
            final(self).requested() == old(self).requested(),
            final(self).refusals() == old(self).refusals(),
            final(self).saved() == old(self).saved().push(old(self).payments()),
    ;

    /// Keeps what the innermost open transaction did.
    fn commit_transaction(&mut self)
        requires
            old(self).saved().len() > 0,
        ensures
            final(self).env() == old(self).env(),
            final(self).payments() == old(self).payments(),
            final(self).requested() == old(self).requested(),
            final(self).refusals() == old(self).refusals(),
            final(self).saved() == old(self).saved().drop_last(),
    ;

    /// Undoes what the innermost open transaction did.
    fn rollback_transaction(&mut self)
        requires
            old(self).saved().len() > 0,
        ensures
            final(self).env() == old(self).env(),
            final(self).payments() == old(self).saved().last(),
            final(self).requested() == old(self).requested(),
            final(self).refusals() == old(self).refusals(),
            final(self).saved() == old(self).saved().drop_last(),
    ;
}

/// One pick: an account's bet on some sub-pixels of a pixel.
#[derive(Clone, Copy, Debug, PartialEq, Eq, Structural)]
pub struct Pick {
    pub pick_id: u32,
    pub pixel_id: u16,
    /// The chosen sub-pixels, as a bit set.
    pub sub_pixels: u128,
    pub account: u64,
    pub date_picked: u64,
}

/// The terms of the running lottery.
#[derive(Clone, Copy, Debug, PartialEq, Eq, Structural)]
pub struct LotteryConfig {
    /// Price per sub-pixel picked.
    pub price: u128,
    /// The block the current round started at.
    pub start: u64,
    /// How long picks are accepted (start + length = end).
    pub length: u64,
    /// How long after the end the winner is drawn (start + length + delay = payout).
    pub delay: u64,
}

/// The pixel and sub-pixel the picks so far add up to, modulo the map's
/// size; the sub-pixel is reported as the winning one when a round is drawn.
#[derive(Clone, Copy, Debug, PartialEq, Eq, Structural)]
pub struct WinningPixelTup(pub u16, pub u8);

/// What the lottery reports.
#[derive(Clone, Copy, Debug, PartialEq, Eq, Structural)]
pub enum Event {
    LotteryStarted,
    /// A pick: round, account, pixel and sub-pixels.
    Picked(u32, u64, u16, u128),
    /// A round drawn: round, pixel and sub-pixel.
    WinningPixel(u32, u16, u8),
}

/// Why a lottery call fails.
#[derive(Clone, Copy, Debug, PartialEq, Eq, Structural)]
pub enum Error {
    /// A lottery has not been configured.
    NotConfigured,
    /// A lottery is already in progress.
    InProgress,
    /// The lottery round has already ended.
    AlreadyEnded,
    /// The account already takes part with this call.
    AlreadyParticipating,
    /// More pixels than one call may pick.
    TooManyPicks,
}

/// The lottery's storage.
pub struct Pallet {
    pallet_id: [u8; 8],
    max_pixel: u16,
    max_sub_pixel: u8,
    max_batch_pick: u32,
    lottery: Option<LotteryConfig>,
    pick_cnt: u32,
    winning_pixel: WinningPixelTup,
    total_reward: Option<u32>,
    lottery_account: Option<u64>,
    lottery_index: u32,
    picks: BTreeMap<u32, Pick>,
    pixel_picks: BTreeMap<(u32, u16), Vec<u32>>,
    sub_pixel_picks: BTreeMap<((u32, u16), u8), Vec<u32>>,
    pixel_pick_cnt: BTreeMap<(u32, u16), u32>,
    sub_pixel_pick_cnt: BTreeMap<((u32, u16), u8), u32>,
    account_picks: BTreeMap<(u32, u64), Vec<u16>>,
    account_pick_subpixels: BTreeMap<((u32, u64), u16), u128>,
    events: Vec<Event>,
}

/// The lottery's storage as values. Maps read as "absent means the default":
/// no picks, a count of 0, an empty bit set.
#[verifier::ext_equal]
pub struct LotteryState {
    /// The identifier the pot account is derived from.
    pub pallet_id: [u8; 8],
    /// How many pixels the map has.
    pub max_pixel: u16,
    /// How many sub-pixels a pixel has.
    pub max_sub_pixel: u8,
    /// How many pixels one call may pick.
    pub max_batch_pick: u32,
    pub lottery: Option<LotteryConfig>,
    /// The id of the last pick made.
    pub pick_cnt: u32,
    pub winning_pixel: WinningPixelTup,
    pub total_reward: Option<u32>,
    /// The pot account, once derived.
    pub lottery_account: Option<u64>,
    /// The current round.
    pub lottery_index: u32,
    pub picks: Map<u32, Pick>,
    /// (round, pixel) to the ids of the picks on the pixel.
    pub pixel_picks: Map<(u32, u16), Seq<u32>>,
    /// ((round, pixel), sub-pixel) to the ids of the picks on the sub-pixel.
    pub sub_pixel_picks: Map<((u32, u16), u8), Seq<u32>>,
    /// (round, pixel) to the number of sub-pixels picked on the pixel.
    pub pixel_pick_cnt: Map<(u32, u16), u32>,
    /// ((round, pixel), sub-pixel) to the number of picks on the sub-pixel.
    pub sub_pixel_pick_cnt: Map<((u32, u16), u8), u32>,
    /// (round, account) to the pixels the account picked.
    pub account_picks: Map<(u32, u64), Seq<u16>>,
    /// ((round, account), pixel) to the sub-pixels the account picked there.
    pub account_pick_subpixels: Map<((u32, u64), u16), u128>,
    pub events: Seq<Event>,
}

/// The value under `k`, or `d` when there is none.
pub open spec fn get_or<K, V>(m: Map<K, V>, k: K, d: V) -> V {
    if m.contains_key(k) {
        m[k]
    } else {
        d
    }
}

/// `x + y`, or `u32::MAX` when that is larger.
pub open spec fn sat_add_u32(x: u32, y: int) -> u32 {
    if x + y > u32::MAX {
        u32::MAX
    } else {
        (x + y) as u32
    }
}

/// `x + y`, or `u64::MAX` when that is larger.
pub open spec fn sat_add_u64(x: u64, y: u64) -> u64 {
    if x + y > u64::MAX {
        u64::MAX
    } else {
        (x + y) as u64
    }
}

/// The pot account of the pallet with identifier `pallet_id`: the first
/// eight bytes of `"modl"` followed by the identifier, read little-endian.
pub open spec fn pot_account_of(pallet_id: [u8; 8]) -> u64 {
    le_value((seq![0x6du8, 0x6fu8, 0x64u8, 0x6cu8] + pallet_id@).take(8)) as u64
}

impl View for Pallet {
    type V = LotteryState;

    closed spec fn view(&self) -> LotteryState {
        LotteryState {
            pallet_id: self.pallet_id,
            max_pixel: self.max_pixel,
            max_sub_pixel: self.max_sub_pixel,
            max_batch_pick: self.max_batch_pick,
            lottery: self.lottery,
            pick_cnt: self.pick_cnt,
            winning_pixel: self.winning_pixel,
            total_reward: self.total_reward,
            lottery_account: self.lottery_account,
            lottery_index: self.lottery_index,
            picks: self.picks@,
            pixel_picks: self.pixel_picks@.map_values(|v: Vec<u32>| v@),
            sub_pixel_picks: self.sub_pixel_picks@.map_values(|v: Vec<u32>| v@),
            pixel_pick_cnt: self.pixel_pick_cnt@,
            sub_pixel_pick_cnt: self.sub_pixel_pick_cnt@,
            account_picks: self.account_picks@.map_values(|v: Vec<u16>| v@),
            account_pick_subpixels: self.account_pick_subpixels@,
            events: self.events@,
        }
    }
}

/// The number of sub-pixels chosen by the picks `ids`.
pub open spec fn tickets(picks: Map<u32, Pick>, ids: Seq<u32>) -> nat
    decreases ids.len(),
{
    if ids.len() == 0 {
        0
    } else {
        tickets(picks, ids.drop_last()) + set_bits(picks[ids.last()].sub_pixels).len()
    }
}

/// Those of the picks `ids` that chose sub-pixel `b`, in order.
pub open spec fn choosing(picks: Map<u32, Pick>, ids: Seq<u32>, b: u8) -> Seq<u32>
    decreases ids.len(),
{
    if ids.len() == 0 {
        seq![]
    } else {
        let earlier = choosing(picks, ids.drop_last(), b);
        if b < 128 && bit_set(picks[ids.last()].sub_pixels, b) {
            earlier.push(ids.last())
        } else {
            earlier
        }
    }
}

/// The sub-pixels chosen by those of the picks `ids` that `who` made.
pub open spec fn chosen_by(picks: Map<u32, Pick>, ids: Seq<u32>, who: u64) -> u128
    decreases ids.len(),
{
    if ids.len() == 0 {
        0
    } else {
        let earlier = chosen_by(picks, ids.drop_last(), who);
        let last = picks[ids.last()];
        if last.account == who {
            earlier | last.sub_pixels
        } else {
            earlier
        }
    }
}

/// The pixel ids of the picks 1 to `n`, summed.
pub open spec fn pixel_sum(picks: Map<u32, Pick>, n: nat) -> nat
    decreases n,
{
    if n == 0 {
        0
    } else {
        pixel_sum(picks, (n - 1) as nat) + picks[n as u32].pixel_id as nat
    }
}

/// The sub-pixel ids chosen by the picks 1 to `n`, summed.
pub open spec fn sub_pixel_sum(picks: Map<u32, Pick>, n: nat) -> nat
    decreases n,
{
    if n == 0 {
        0
    } else {
        sub_pixel_sum(picks, (n - 1) as nat) + index_sum(set_bits(picks[n as u32].sub_pixels))
    }
}

/// Whether the winning pixel is what the picks made it: the sum of all
/// picked pixel ids modulo the number of pixels, and the sum of all picked
/// sub-pixel ids modulo the number of sub-pixels.
pub open spec fn winning_follows_picks(s: LotteryState) -> bool {
    &&& s.winning_pixel.0 == (pixel_sum(s.picks, s.pick_cnt as nat) as int) % (s.max_pixel as int)
    &&& s.winning_pixel.1 == (sub_pixel_sum(s.picks, s.pick_cnt as nat) as int) % (s.max_sub_pixel as int)
}

/// `x`, or `u32::MAX` when that is smaller.
pub open spec fn capped(x: nat) -> u32 {
    if x > u32::MAX {
        u32::MAX
    } else {
        x as u32
    }
}

/// Whether the picks and their indexes agree: the picks are stored under
/// their ids, which run from 1 to the pick counter; every pick listed under
/// a pixel is a pick of that pixel; every pick listed under a sub-pixel is a
/// pick of its pixel that chose the sub-pixel; and the count kept for a
/// sub-pixel is the number of picks listed under it; the count kept for a
/// pixel is the number of sub-pixels its listed picks chose (at most
/// `u32::MAX`); and the sub-pixels kept for an account on a pixel in a round
/// are those its picks listed there chose together; the pixels kept for an
/// account in a round are those it picked in the round; the picks listed
/// under a sub-pixel are those listed under its pixel that chose it; and
/// the picks listed under a pixel or a sub-pixel come in the order they were
/// made, each once.
pub open spec fn picks_indexed(s: LotteryState) -> bool {
    &&& forall|id: u32| #[trigger] s.picks.contains_key(id) <==> 1 <= id <= s.pick_cnt
    &&& forall|id: u32| #[trigger] s.picks.contains_key(id) ==> s.picks[id].pick_id == id
    &&& forall|k: (u32, u16), i: int|
        s.pixel_picks.contains_key(k) && 0 <= i < s.pixel_picks[k].len() ==> {
            let id = #[trigger] s.pixel_picks[k][i];
            &&& s.picks.contains_key(id)
            &&& s.picks[id].pixel_id == k.1
        }
    &&& forall|k: ((u32, u16), u8), i: int|
        s.sub_pixel_picks.contains_key(k) && 0 <= i < s.sub_pixel_picks[k].len() ==> {
            let id = #[trigger] s.sub_pixel_picks[k][i];
            &&& s.picks.contains_key(id)
            &&& s.picks[id].pixel_id == k.0.1
            &&& bit_set(s.picks[id].sub_pixels, k.1)
        }
    &&& forall|k: ((u32, u16), u8)|
        #[trigger] s.sub_pixel_pick_cnt.contains_key(k) <==> s.sub_pixel_picks.contains_key(k)
    &&& forall|k: ((u32, u16), u8)|
        #[trigger] s.sub_pixel_picks.contains_key(k) ==> s.sub_pixel_pick_cnt[k] == s.sub_pixel_picks[k].len()
    &&& forall|k: (u32, u16)| #[trigger] s.pixel_pick_cnt.contains_key(k) <==> s.pixel_picks.contains_key(k)
    &&& forall|k: (u32, u16)|
        #[trigger] s.pixel_picks.contains_key(k) ==> s.pixel_pick_cnt[k] == capped(tickets(s.picks, s.pixel_picks[k]))
    &&& forall|k: ((u32, u64), u16)|
        #[trigger] get_or(s.account_pick_subpixels, k, 0) == chosen_by(
            s.picks,
            get_or(s.pixel_picks, (k.0.0, k.1), seq![]),
            k.0.1,
        )
    &&& forall|k: (u32, u64), p: u16|
        #[trigger] get_or(s.account_picks, k, seq![]).contains(p) <==> picked_by(
            s.picks,
            get_or(s.pixel_picks, (k.0, p), seq![]),
            k.1,
        )
    &&& forall|k: ((u32, u16), u8)|
        #[trigger] get_or(s.sub_pixel_picks, k, seq![]) == choosing(s.picks, get_or(s.pixel_picks, k.0, seq![]), k.1)
    &&& forall|k: (u32, u16), i: int, j: int|
        s.pixel_picks.contains_key(k) && 0 <= i < j < s.pixel_picks[k].len() ==> #[trigger] s.pixel_picks[k][i]
            < #[trigger] s.pixel_picks[k][j]
    &&& forall|k: ((u32, u16), u8), i: int, j: int|
        s.sub_pixel_picks.contains_key(k) && 0 <= i < j < s.sub_pixel_picks[k].len() ==> #[trigger] s.sub_pixel_picks[k][i]
            < #[trigger] s.sub_pixel_picks[k][j]
}

/// Whether `s` is a state the lottery can be in: the map has pixels and
/// sub-pixels, the winning pixel lies on the map, the cached pot account is
/// the derived one, no list of picks is longer than the number of picks,
/// the picks and their indexes agree, and the winning pixel follows from the
/// picks.
pub open spec fn state_wf(s: LotteryState) -> bool {
    &&& s.max_pixel > 0
    &&& s.max_sub_pixel > 0
    &&& s.winning_pixel.0 < s.max_pixel
    &&& s.winning_pixel.1 < s.max_sub_pixel
    &&& s.lottery_account matches Some(a) ==> a == pot_account_of(s.pallet_id)
    &&& forall|k: (u32, u16)| #[trigger] s.pixel_picks.contains_key(k) ==> s.pixel_picks[k].len() <= s.pick_cnt
    &&& forall|k: ((u32, u16), u8)| #[trigger] s.sub_pixel_picks.contains_key(k) ==> s.sub_pixel_picks[k].len() <= s.pick_cnt
    &&& picks_indexed(s)
    &&& winning_follows_picks(s)
}

impl Pallet {
    /// Whether the storage is in a state the lottery can be in.
    pub open spec fn wf(&self) -> bool {
        state_wf(self@)
    }

    /// An unconfigured lottery for a map of `max_pixel` pixels of
    /// `max_sub_pixel` sub-pixels each, taking at most `max_batch_pick`
    /// pixels per call, whose pot is derived from `pallet_id`.
    pub fn new(pallet_id: [u8; 8], max_pixel: u16, max_sub_pixel: u8, max_batch_pick: u32) -> (p: Pallet)
        requires
            max_pixel > 0,
            max_sub_pixel > 0,
        ensures
            p.wf(),
            p@.pallet_id == pallet_id,
            p@.max_pixel == max_pixel,
            p@.max_sub_pixel == max_sub_pixel,
            p@.max_batch_pick == max_batch_pick,
            p@.lottery is None,
            p@.pick_cnt == 0,
            p@.winning_pixel == WinningPixelTup(0, 0),
            p@.total_reward is None,
            p@.lottery_account is None,
            p@.lottery_index == 0,
            p@.picks == Map::<u32, Pick>::empty(),
            p@.pixel_picks == Map::<(u32, u16), Seq<u32>>::empty(),
            p@.sub_pixel_picks == Map::<((u32, u16), u8), Seq<u32>>::empty(),
            p@.pixel_pick_cnt == Map::<(u32, u16), u32>::empty(),
            p@.sub_pixel_pick_cnt == Map::<((u32, u16), u8), u32>::empty(),
            p@.account_picks == Map::<(u32, u64), Seq<u16>>::empty(),
            p@.account_pick_subpixels == Map::<((u32, u64), u16), u128>::empty(),
            p@.events == Seq::<Event>::empty(),
    {
        let p = Pallet {
            pallet_id,
            max_pixel,
            max_sub_pixel,
            max_batch_pick,
            lottery: None,
            pick_cnt: 0,
            winning_pixel: WinningPixelTup(0, 0),
            total_reward: None,
            lottery_account: None,
            lottery_index: 0,
            picks: BTreeMap::new(),
            pixel_picks: BTreeMap::new(),
            sub_pixel_picks: BTreeMap::new(),
            pixel_pick_cnt: BTreeMap::new(),
            sub_pixel_pick_cnt: BTreeMap::new(),
            account_picks: BTreeMap::new(),
            account_pick_subpixels: BTreeMap::new(),
            events: Vec::new(),
        };
        assert(p@.pixel_picks =~= Map::<(u32, u16), Seq<u32>>::empty());
        assert(p@.sub_pixel_picks =~= Map::<((u32, u16), u8), Seq<u32>>::empty());
        assert(p@.account_picks =~= Map::<(u32, u64), Seq<u16>>::empty());
        assert(pixel_sum(p@.picks, 0) == 0);
        assert(sub_pixel_sum(p@.picks, 0) == 0);
        assert(picks_indexed(p@));
        assert(winning_follows_picks(p@));
        p
    }

    /// The running lottery's terms, if one was started.
    pub fn lottery(&self) -> (r: Option<LotteryConfig>)
        ensures
            r == self@.lottery,
    {
        self.lottery
    }

    /// The id of the last pick made.
    pub fn pick_cnt(&self) -> (r: u32)
        ensures
            r == self@.pick_cnt,
    {
        self.pick_cnt
    }

    /// The pixel and sub-pixel the picks so far add up to.
    pub fn winning_pixel(&self) -> (r: WinningPixelTup)
        ensures
            r == self@.winning_pixel,
    {
        self.winning_pixel
    }

    /// The total reward, which nothing sets.
    pub fn total_reward(&self) -> (r: Option<u32>)
        ensures
            r == self@.total_reward,
    {
        self.total_reward
    }

    /// The pot account, once it has been derived.
    pub fn lottery_account(&self) -> (r: Option<u64>)
        ensures
            r == self@.lottery_account,
    {
        self.lottery_account
    }

    /// The current round.
    pub fn lottery_index(&self) -> (r: u32)
        ensures
            r == self@.lottery_index,
    {
        self.lottery_index
    }

    /// The pick with id `pick_id`, if made.
    pub fn picks(&self, pick_id: &u32) -> (r: Option<Pick>)
        ensures
            r == (if self@.picks.contains_key(*pick_id) {
                Some(self@.picks[*pick_id])
            } else {
                None
            }),
    {
        match self.picks.get(pick_id) {
            Some(p) => Some(*p),
            None => None,
        }
    }

    /// The ids of the picks on `pixel_id` in round `index`, in order.
    pub fn pixel_picks(&self, index: &u32, pixel_id: &u16) -> (r: Vec<u32>)
        ensures
            r@ == get_or(self@.pixel_picks, (*index, *pixel_id), seq![]),
    {
        match self.pixel_picks.get(&(*index, *pixel_id)) {
            Some(v) => v.clone(),
            None => Vec::new(),
        }
    }

    /// The ids of the picks on sub-pixel `sub_pixel_id` of the pixel `cell`
    /// (round, pixel), in order.
    pub fn sub_pixel_picks(&self, cell: &(u32, u16), sub_pixel_id: &u8) -> (r: Vec<u32>)
        ensures
            r@ == get_or(self@.sub_pixel_picks, (*cell, *sub_pixel_id), seq![]),
    {
        match self.sub_pixel_picks.get(&(*cell, *sub_pixel_id)) {
            Some(v) => v.clone(),
            None => Vec::new(),
        }
    }

    /// The number of sub-pixels picked on `pixel_id` in round `index`.
    pub fn pixel_pick_cnt(&self, index: &u32, pixel_id: &u16) -> (r: u32)
        ensures
            r == get_or(self@.pixel_pick_cnt, (*index, *pixel_id), 0),
    {
        match self.pixel_pick_cnt.get(&(*index, *pixel_id)) {
            Some(c) => *c,
            None => 0,
        }
    }

    /// The number of picks on sub-pixel `sub_pixel_id` of the pixel `cell`
    /// (round, pixel).
    pub fn sub_pixel_pick_cnt(&self, cell: &(u32, u16), sub_pixel_id: &u8) -> (r: u32)
        ensures
            r == get_or(self@.sub_pixel_pick_cnt, (*cell, *sub_pixel_id), 0),
    {
        match self.sub_pixel_pick_cnt.get(&(*cell, *sub_pixel_id)) {
            Some(c) => *c,
            None => 0,
        }
    }

    /// The pixels `account` picked in round `index`.
    pub fn account_picks(&self, index: &u32, account: &u64) -> (r: Vec<u16>)
        ensures
            r@ == get_or(self@.account_picks, (*index, *account), seq![]),
    {
        match self.account_picks.get(&(*index, *account)) {
            Some(v) => v.clone(),
            None => Vec::new(),
        }
    }

    /// The sub-pixels the account picked on `pixel_id`, for `who` =
    /// (round, account), as a bit set.
    pub fn account_pick_subpixels(&self, who: &(u32, u64), pixel_id: &u16) -> (r: u128)
        ensures
            r == get_or(self@.account_pick_subpixels, (*who, *pixel_id), 0),
    {
        match self.account_pick_subpixels.get(&(*who, *pixel_id)) {
            Some(c) => *c,
            None => 0,
        }
    }

    /// Everything the lottery has reported, oldest first.
    pub fn events(&self) -> (r: &Vec<Event>)
        ensures
            r@ == self@.events,
    {
        &self.events
    }
}

} // verus!
