use std::collections::BTreeMap;

use pixel_billboard::dispatch::{DispatchError, Origin, Weight};
use pixel_billboard::lottery::{self, fee_split, payout, Event, Pallet as Lottery, WinningPixelTup};
use pixel_billboard::pixel::{self, Pallet as Pixels};

const PICK_FEE: u128 = 1000;
const PALLET_ID: [u8; 8] = *b"py/lotto";
const EXISTENTIAL_DEPOSIT: u128 = 1;

struct Clock(u64);

impl pixel::Config for Clock {
    fn now(&self) -> u64 {
        self.0
    }

    fn transfer(&mut self, _from: u64, _to: u64, _amount: u128) -> Result<(), DispatchError> {
        Err(DispatchError::Runtime(9))
    }
}

/// A small runtime: a ledger of balances with storage transactions, a
/// block height, a clock, the pixel registry and a randomness whose draw
/// for a seed is the seed plus `luck`.
struct Runtime {
    block: u64,
    now: u64,
    luck: u32,
    balances: BTreeMap<u64, u128>,
    saved: Vec<BTreeMap<u64, u128>>,
    pixels: Pixels,
}

impl Runtime {
    fn new() -> Runtime {
        let mut balances = BTreeMap::new();
        for who in 1..=4u64 {
            balances.insert(who, 1_000_000);
        }
        Runtime { block: 1, now: 42, luck: 0, balances, saved: Vec::new(), pixels: Pixels::new(100, 10) }
    }

    fn mint(&mut self, who: u64, pixel_id: u32) {
        let clock = Clock(self.now);
        assert_eq!(self.pixels.mint_pixel(&clock, Origin::Signed(who), pixel_id), Ok(()));
    }
}

impl lottery::Config for Runtime {
    fn block_number(&self) -> u64 {
        self.block
    }

    fn now(&self) -> u64 {
        self.now
    }

    fn is_manager(&self, origin: &Origin) -> bool {
        *origin == Origin::Root
    }

    fn pixel_owner(&self, pixel_id: u32) -> Option<u64> {
        self.pixels.pixel_owner(pixel_id)
    }

    fn random(&self, subject: &Vec<u8>) -> [u8; 32] {
        // The seed plus `luck` comes back first, so a draw for seed `s` is `s + luck`.
        let mut seed = [0u8; 4];
        seed.copy_from_slice(&subject[8..12]);
        let drawn = u32::from_le_bytes(seed).wrapping_add(self.luck);
        let mut out = [0xeeu8; 32];
        out[..4].copy_from_slice(&drawn.to_le_bytes());
        out
    }

    fn transfer(&mut self, from: u64, to: u64, amount: u128) -> Result<(), DispatchError> {
        if amount == 0 || from == to {
            return Ok(());
        }
        let have = *self.balances.get(&from).unwrap_or(&0);
        if have < amount || have - amount < EXISTENTIAL_DEPOSIT {
            return Err(DispatchError::Runtime(1));
        }
        let dest = *self.balances.get(&to).unwrap_or(&0);
        if dest + amount < EXISTENTIAL_DEPOSIT {
            return Err(DispatchError::Runtime(2));
        }
        self.balances.insert(from, have - amount);
        self.balances.insert(to, dest + amount);
        Ok(())
    }

    fn free_balance(&self, who: u64) -> u128 {
        *self.balances.get(&who).unwrap_or(&0)
    }

    fn total_balance(&self, who: u64) -> u128 {
        self.free_balance(who)
    }

    fn minimum_balance(&self) -> u128 {
        EXISTENTIAL_DEPOSIT
    }

    fn deposit_creating(&mut self, who: u64, amount: u128) {
        let have = self.free_balance(who);
        self.balances.insert(who, have + amount);
    }

    fn start_transaction(&mut self) {
        self.saved.push(self.balances.clone());
    }

    fn commit_transaction(&mut self) {
        self.saved.pop();
    }

    fn rollback_transaction(&mut self) {
        if let Some(b) = self.saved.pop() {
            self.balances = b;
        }
    }
}

fn new_lottery() -> Lottery {
    Lottery::new(PALLET_ID, 10000, 100, 100)
}

#[test]
fn pixel_owner_recevei_fee() {
    let mut rt = Runtime::new();
    let mut lottery = new_lottery();
    // account 1 own pixel with id 100
    rt.mint(1, 100);
    // admin start the lottery
    assert_eq!(lottery.start_lottery(&mut rt, Origin::Root, PICK_FEE, 100, 0), Ok(()));

    // account 1 before balance
    let before_balance = lottery::Config::free_balance(&rt, 1);

    // account 2 pick a lottery of pixel 100
    assert_eq!(lottery.pick(&mut rt, Origin::Signed(2), vec![(100, 1)]), Ok(()));

    // account 1 after balance
    let after_balance = lottery::Config::free_balance(&rt, 1);

    // check acc 1 balance increase 5% of the ticket fee
    assert_eq!(after_balance, before_balance + PICK_FEE / 20);
}

#[test]
fn pick_lottery_with_fee() {
    let mut rt = Runtime::new();
    let mut lottery = new_lottery();
    // admin start the lottery
    assert_eq!(lottery.start_lottery(&mut rt, Origin::Root, PICK_FEE, 100, 0), Ok(()));

    // account 1 before balance
    let before_balance = lottery::Config::free_balance(&rt, 1);

    // account 1 pick pixels
    let pixels = vec![(10, 1), (11, 1), (12, 1), (13, 1), (14, 1)];
    assert_eq!(lottery.pick(&mut rt, Origin::Signed(1), pixels.clone()), Ok(()));

    let after_balance = lottery::Config::free_balance(&rt, 1);

    // check balance deduced
    let total_fee = PICK_FEE.saturating_mul(pixels.len() as u128);
    assert_eq!(before_balance - total_fee, after_balance);
}

#[test]
fn get_vec_from_sub_pixels() {
    let sub_pixels_vec = Lottery::subpixels_to_vec(1);
    assert_eq!(sub_pixels_vec, vec![0]);

    let sub_pixels_vec = Lottery::subpixels_to_vec(3);
    assert_eq!(sub_pixels_vec, vec![0, 1]);

    let sub_pixels_vec = Lottery::subpixels_to_vec(11);
    assert_eq!(sub_pixels_vec, vec![0, 1, 3]);
}

#[test]
fn calculate_sum() {
    let arr: Vec<u8> = vec![1, 2, 3, 4, 5];
    assert_eq!(arr.iter().map(|i| (*i) as u32).sum::<u32>(), 15);
}

#[test]
fn get_accounts_picked_pixel() {
    let mut rt = Runtime::new();
    let mut lottery = new_lottery();
    assert_eq!(lottery.pick_pixel(&mut rt, 1, 1, 1, 0), Ok(())); // account 1 pick 1 subpixel 0 (00)
    assert_eq!(lottery.pick_pixel(&mut rt, 1, 1, 2, 0), Ok(())); // account 1 pick 1 subpixel 1 (10)
    assert_eq!(lottery.pick_pixel(&mut rt, 2, 1, 2, 0), Ok(())); // account 2 pick 1 subpixel 1 (10)
    assert_eq!(lottery.pick_pixel(&mut rt, 3, 2, 2, 0), Ok(())); // account 3 pick 2 subpixel 1 (10)
    assert_eq!(lottery.pick_pixel(&mut rt, 2, 1, 3, 0), Ok(())); // account 2 pick 1 subpixel 0,1 (11)
    assert_eq!(lottery.pick_pixel(&mut rt, 4, 1, 4, 0), Ok(())); // account 4 pick 1 subpixel 2 (100)

    // get all accounts that picked 1
    let accounts: Vec<u64> = lottery.get_accounts_picked_pixel(0, 1);
    assert_eq!(accounts, vec![1, 2, 4]);
}

#[test]
fn get_accounts_picked_subpixel() {
    let mut rt = Runtime::new();
    let mut lottery = new_lottery();
    assert_eq!(lottery.pick_pixel(&mut rt, 1, 1, 1, 0), Ok(())); // account 1 pick 1 subpixel 0 (00)
    assert_eq!(lottery.pick_pixel(&mut rt, 1, 1, 2, 0), Ok(())); // account 1 pick 1 subpixel 1 (10)
    assert_eq!(lottery.pick_pixel(&mut rt, 2, 1, 2, 0), Ok(())); // account 2 pick 1 subpixel 1 (10)
    assert_eq!(lottery.pick_pixel(&mut rt, 3, 2, 2, 0), Ok(())); // account 3 pick 2 subpixel 1 (10)
    assert_eq!(lottery.pick_pixel(&mut rt, 2, 1, 3, 0), Ok(())); // account 2 pick 1 subpixel 0,1 (11)
    assert_eq!(lottery.pick_pixel(&mut rt, 4, 1, 9, 0), Ok(())); // account 4 pick 1 subpixel 0,3 (1001)

    // get all accounts that picked 1, subpixel 1
    let accounts: Vec<u64> = lottery.get_accounts_picked_subpixel(0, 1, 1);
    assert_eq!(accounts, vec![1, 2]);

    // get all accounts that picked 1, subpixel 0
    let accounts: Vec<u64> = lottery.get_accounts_picked_subpixel(0, 1, 0);
    assert_eq!(accounts, vec![1, 2, 4]);

    // get all accounts that picked 1, subpixel 3
    let accounts: Vec<u64> = lottery.get_accounts_picked_subpixel(0, 1, 3);
    assert_eq!(accounts, vec![4]);
}

#[test]
fn subpixels_to_vec_lists_every_set_bit() {
    assert_eq!(Lottery::subpixels_to_vec(0), Vec::<u8>::new());
    let all_but_top: u128 = (1u128 << 127) - 1;
    let expected: Vec<u8> = (0..127).collect();
    assert_eq!(Lottery::subpixels_to_vec(all_but_top), expected);
    assert_eq!(Lottery::subpixels_to_vec(1u128 << 126), vec![126]);
}

#[test]
fn pot_account_is_derived_from_pallet_id_and_cached() {
    let mut lottery = new_lottery();
    assert_eq!(lottery.lottery_account(), None);
    let expected = u64::from_le_bytes(*b"modlpy/l");
    assert_eq!(lottery.pot_account_id(), expected);
    assert_eq!(lottery.lottery_account(), Some(expected));
    assert_eq!(lottery.pot_account_id(), expected);
}

#[test]
fn start_lottery_only_by_manager_and_only_once() {
    let mut rt = Runtime::new();
    let mut lottery = new_lottery();
    assert_eq!(lottery.start_lottery(&mut rt, Origin::Signed(1), PICK_FEE, 10, 5), Err(DispatchError::BadOrigin));
    assert_eq!(lottery.lottery_index(), 0);
    rt.block = 7;
    assert_eq!(lottery.start_lottery(&mut rt, Origin::Root, PICK_FEE, 10, 5), Ok(()));
    let config = lottery.lottery().unwrap();
    assert_eq!((config.price, config.start, config.length, config.delay), (PICK_FEE, 7, 10, 5));
    assert_eq!(lottery.lottery_index(), 1);
    assert_eq!(lottery.events(), &vec![Event::LotteryStarted]);
    // the pot account got the minimum balance
    let pot = lottery.lottery_account().unwrap();
    assert_eq!(lottery::Config::free_balance(&rt, pot), EXISTENTIAL_DEPOSIT);
    assert_eq!(
        lottery.start_lottery(&mut rt, Origin::Root, PICK_FEE, 10, 5),
        Err(DispatchError::Lottery(lottery::Error::InProgress))
    );
    assert_eq!(lottery.lottery_index(), 1);
}

#[test]
fn pick_needs_signer_running_lottery_and_open_round() {
    let mut rt = Runtime::new();
    let mut lottery = new_lottery();
    assert_eq!(lottery.pick(&mut rt, Origin::Root, vec![(1, 1)]), Err(DispatchError::BadOrigin));
    assert_eq!(
        lottery.pick(&mut rt, Origin::Signed(1), vec![(1, 1)]),
        Err(DispatchError::Lottery(lottery::Error::NotConfigured))
    );
    assert_eq!(lottery.start_lottery(&mut rt, Origin::Root, PICK_FEE, 10, 5), Ok(()));
    rt.block = 11;
    assert_eq!(
        lottery.pick(&mut rt, Origin::Signed(1), vec![(1, 1)]),
        Err(DispatchError::Lottery(lottery::Error::AlreadyEnded))
    );
    assert_eq!(lottery.pick_cnt(), 0);
}

#[test]
fn failed_pick_undoes_the_whole_call() {
    let mut rt = Runtime::new();
    let mut lottery = new_lottery();
    assert_eq!(lottery.start_lottery(&mut rt, Origin::Root, 400_000, 10, 5), Ok(()));
    let before = lottery::Config::free_balance(&rt, 3);
    // two sub-pixels each: the first pick costs 800_000, the second cannot be paid
    let r = lottery.pick(&mut rt, Origin::Signed(3), vec![(5, 3), (6, 3)]);
    assert_eq!(r, Err(DispatchError::Runtime(1)));
    assert_eq!(lottery::Config::free_balance(&rt, 3), before);
    assert_eq!(lottery.pick_cnt(), 0);
    assert_eq!(lottery.picks(&1), None);
    assert_eq!(lottery.pixel_picks(&1, &5), Vec::<u32>::new());
    assert_eq!(lottery.winning_pixel(), WinningPixelTup(0, 0));
}

#[test]
fn pick_is_recorded_in_every_index() {
    let mut rt = Runtime::new();
    let mut lottery = new_lottery();
    assert_eq!(lottery.start_lottery(&mut rt, Origin::Root, 10, 100, 0), Ok(()));
    // sub-pixels 0 and 3, then 3 and 4, on pixel 9990
    assert_eq!(lottery.pick(&mut rt, Origin::Signed(2), vec![(9990, 0b1001), (9990, 0b11000)]), Ok(()));
    assert_eq!(lottery.pick_cnt(), 2);
    let first = lottery.picks(&1).unwrap();
    assert_eq!((first.pick_id, first.pixel_id, first.sub_pixels, first.account, first.date_picked), (1, 9990, 0b1001, 2, 42));
    assert_eq!(lottery.pixel_picks(&1, &9990), vec![1, 2]);
    assert_eq!(lottery.pixel_pick_cnt(&1, &9990), 4);
    assert_eq!(lottery.sub_pixel_picks(&(1, 9990), &3), vec![1, 2]);
    assert_eq!(lottery.sub_pixel_pick_cnt(&(1, 9990), &3), 2);
    assert_eq!(lottery.sub_pixel_picks(&(1, 9990), &0), vec![1]);
    assert_eq!(lottery.sub_pixel_pick_cnt(&(1, 9990), &4), 1);
    assert_eq!(lottery.account_picks(&1, &2), vec![9990]);
    assert_eq!(lottery.account_pick_subpixels(&(1, 2), &9990), 0b11001);
    // (0 + 9990) % 10000 = 9990, then (9990 + 9990) % 10000 = 9980;
    // sub-pixels (0 + 0 + 3) % 100 = 3, then (3 + 3 + 4) % 100 = 10
    assert_eq!(lottery.winning_pixel(), WinningPixelTup(9980, 10));
    assert_eq!(lottery.total_reward(), None);
}

#[test]
fn draw_pays_owner_and_winners_and_starts_next_round() {
    let mut rt = Runtime::new();
    let mut lottery = new_lottery();
    rt.mint(4, 7);
    assert_eq!(lottery.start_lottery(&mut rt, Origin::Root, 1000, 10, 2), Ok(()));
    // accounts 1 and 2 pick sub-pixel 0 of pixel 7
    assert_eq!(lottery.pick(&mut rt, Origin::Signed(1), vec![(7, 1)]), Ok(()));
    assert_eq!(lottery.pick(&mut rt, Origin::Signed(2), vec![(7, 1)]), Ok(()));
    // nothing happens before the payout block 1 + 10 + 2
    assert_eq!(lottery.on_initialize(&mut rt, 12), Weight { reads: 1, writes: 0 });
    assert_eq!(lottery.lottery_index(), 1);
    // the draw comes out on pixel 14, which has no owner and no picks: the pot stays
    rt.luck = 14;
    let pot = lottery.lottery_account().unwrap();
    let pot_before = lottery::Config::free_balance(&rt, pot);
    assert_eq!(lottery.on_initialize(&mut rt, 13), Weight { reads: 0, writes: 1 });
    assert_eq!(lottery::Config::free_balance(&rt, pot), pot_before);
    assert_eq!(lottery.lottery_index(), 2);
    assert_eq!(lottery.lottery().unwrap().start, 13);
    // the report carries the winning sub-pixel: (0 + 0) % 100
    assert_eq!(lottery.events().last(), Some(&Event::WinningPixel(1, 14, 0)));
}

#[test]
fn draw_shares_the_pot() {
    let mut rt = Runtime::new();
    let mut lottery = new_lottery();
    rt.mint(4, 5);
    assert_eq!(lottery.start_lottery(&mut rt, Origin::Root, 1000, 10, 0), Ok(()));
    // account 1 picks sub-pixel 0 of pixel 5, which account 4 owns
    assert_eq!(lottery.pick(&mut rt, Origin::Signed(1), vec![(5, 1)]), Ok(()));
    rt.block = 11;
    let pot = lottery.lottery_account().unwrap();
    // pot: 1 (minimum) + 950 from the pick
    assert_eq!(lottery::Config::free_balance(&rt, pot), 951);
    let owner_before = lottery::Config::free_balance(&rt, 4);
    let winner_before = lottery::Config::free_balance(&rt, 1);
    // the draw comes out on pixel 5
    rt.luck = 5;
    assert_eq!(lottery.on_initialize(&mut rt, 11), Weight { reads: 0, writes: 1 });
    // 950 in the pot: 47 to the owner, 903 to the only winner
    assert_eq!(lottery::Config::free_balance(&rt, 4), owner_before + 47);
    assert_eq!(lottery::Config::free_balance(&rt, 1), winner_before + 903);
    assert_eq!(lottery::Config::free_balance(&rt, pot), 1);
    assert_eq!(lottery.events().last(), Some(&Event::WinningPixel(1, 5, 0)));
}

#[test]
fn draw_shares_the_pot_equally_among_pickers() {
    let mut rt = Runtime::new();
    let mut lottery = new_lottery();
    assert_eq!(lottery.start_lottery(&mut rt, Origin::Root, 100, 10, 0), Ok(()));
    // accounts 1, 2 and 3 pick pixel 9 (account 1 twice); nobody owns it
    assert_eq!(lottery.pick(&mut rt, Origin::Signed(1), vec![(9, 1), (9, 2)]), Ok(()));
    assert_eq!(lottery.pick(&mut rt, Origin::Signed(2), vec![(9, 0b100)]), Ok(()));
    assert_eq!(lottery.pick(&mut rt, Origin::Signed(3), vec![(9, 1)]), Ok(()));
    let pot = lottery.lottery_account().unwrap();
    // pot: 1 (minimum) + 4 * 100
    assert_eq!(lottery::Config::free_balance(&rt, pot), 401);
    let before: Vec<u128> = (1..=3).map(|who| lottery::Config::free_balance(&rt, who)).collect();
    rt.luck = 9;
    assert_eq!(lottery.on_initialize(&mut rt, 11), Weight { reads: 0, writes: 1 });
    // 400 shared by 3 accounts: 133 each, 1 stays in the pot
    for who in 1..=3u64 {
        assert_eq!(lottery::Config::free_balance(&rt, who), before[(who - 1) as usize] + 133);
    }
    assert_eq!(lottery::Config::free_balance(&rt, pot), 2);
    // sub-pixels 0, 1, 2, 0 summed: 3
    assert_eq!(lottery.events().last(), Some(&Event::WinningPixel(1, 9, 3)));
}

#[test]
fn fee_and_payout_shares() {
    assert_eq!(fee_split(1000, true), (50, 950));
    assert_eq!(fee_split(1000, false), (0, 1000));
    assert_eq!(fee_split(19, true), (0, 19));
    assert_eq!(payout(1000, true, 3), (50, 316));
    assert_eq!(payout(1000, false, 0), (0, 0));
    assert_eq!(payout(7, false, 2), (0, 3));
}

#[test]
fn choose_ticket_draws_below_total() {
    let mut rt = Runtime::new();
    let lottery = new_lottery();
    assert_eq!(lottery.choose_ticket(&rt, 0), None);
    // the first draw is seed 0, below the bound: ticket 0
    assert_eq!(lottery.choose_ticket(&rt, 10), Some(0));
    // draws for seeds come back as the seeds themselves
    assert_eq!(lottery.generate_random_number(&rt, 0x0403_0201), 0x0403_0201);
    assert_eq!(lottery.generate_random_number(&rt, 77), 77);
    // a first draw of 23 gives ticket 23 % 10
    rt.luck = 23;
    assert_eq!(lottery.choose_ticket(&rt, 10), Some(3));
}

#[test]
fn choose_ticket_redraws_above_the_unbiased_bound() {
    let mut rt = Runtime::new();
    let lottery = new_lottery();
    // for 10 tickets the bound is u32::MAX - 5: the draws 4294967290 to
    // 4294967295 are refused, and the seventh draw wraps round to 0
    rt.luck = 4_294_967_290;
    assert_eq!(lottery.choose_ticket(&rt, 10), Some(0));
    // for 2^31 + 1 tickets the bound is 2^31 + 1: all 100 draws from there
    // on are refused and the hundredth, 2^31 + 1 + 99, is kept
    rt.luck = 2_147_483_649;
    assert_eq!(lottery.choose_ticket(&rt, 2_147_483_649), Some(99));
}

#[test]
fn pick_refuses_more_pixels_than_one_call_may_take() {
    let mut rt = Runtime::new();
    let mut lottery = Lottery::new(PALLET_ID, 10000, 100, 2);
    assert_eq!(lottery.start_lottery(&mut rt, Origin::Root, PICK_FEE, 10, 0), Ok(()));
    let before = lottery::Config::free_balance(&rt, 1);
    assert_eq!(
        lottery.pick(&mut rt, Origin::Signed(1), vec![(1, 1), (2, 1), (3, 1)]),
        Err(DispatchError::Lottery(lottery::Error::TooManyPicks))
    );
    assert_eq!(lottery::Config::free_balance(&rt, 1), before);
    assert_eq!(lottery.pick_cnt(), 0);
    assert_eq!(lottery.pick(&mut rt, Origin::Signed(1), vec![(1, 1), (2, 1)]), Ok(()));
    assert_eq!(lottery.pick_cnt(), 2);
}

#[test]
fn pick_fee_goes_to_owner_and_pot() {
    let mut rt = Runtime::new();
    let mut lottery = new_lottery();
    rt.mint(4, 3);
    assert_eq!(lottery.start_lottery(&mut rt, Origin::Root, 1000, 10, 0), Ok(()));
    let pot = lottery.lottery_account().unwrap();
    let payer = lottery::Config::free_balance(&rt, 2);
    let owner = lottery::Config::free_balance(&rt, 4);
    // three sub-pixels of the owned pixel 3, then one of the unowned pixel 8
    assert_eq!(lottery.pick(&mut rt, Origin::Signed(2), vec![(3, 0b111), (8, 1)]), Ok(()));
    assert_eq!(lottery::Config::free_balance(&rt, 2), payer - 4000);
    assert_eq!(lottery::Config::free_balance(&rt, 4), owner + 150);
    assert_eq!(lottery::Config::free_balance(&rt, pot), 1 + 2850 + 1000);
}

#[test]
fn accounts_from_pick_ids_skip_unknown_and_repeated() {
    let mut rt = Runtime::new();
    let mut lottery = new_lottery();
    assert_eq!(lottery.pick_pixel(&mut rt, 3, 8, 1, 0), Ok(()));
    assert_eq!(lottery.pick_pixel(&mut rt, 1, 8, 1, 0), Ok(()));
    assert_eq!(lottery.pick_pixel(&mut rt, 3, 9, 1, 0), Ok(()));
    assert_eq!(lottery.get_accounts_from_pick_ids(vec![3, 7, 2, 1, 2]), vec![3, 1]);
    assert_eq!(lottery.get_accounts_from_pick_ids(vec![]), Vec::<u64>::new());
    assert_eq!(lottery.get_accounts_picked_pixel(1, 8), Vec::<u64>::new());
}

#[test]
fn random_subject_and_number() {
    let lottery = new_lottery();
    let mut expected = PALLET_ID.to_vec();
    expected.extend_from_slice(&[0x01, 0x02, 0x03, 0x04]);
    assert_eq!(lottery.random_subject(0x0403_0201), expected);
    let mut hash = [0xffu8; 32];
    hash[0] = 0x78;
    hash[1] = 0x56;
    hash[2] = 0x34;
    hash[3] = 0x12;
    assert_eq!(Lottery::random_number_from(&hash), 0x1234_5678);
}

#[test]
fn subpixel_list_packs_back_into_the_set() {
    for set in [0u128, 1, 11, 0b1011_0000, (1u128 << 127) - 1, 1u128 << 100] {
        let packed = Lottery::subpixels_to_vec(set).iter().fold(0u128, |acc, i| acc | (1u128 << *i));
        assert_eq!(packed, set);
    }
}

#[test]
fn pick_pixel_alone_keeps_the_owner_payment_when_the_pot_payment_fails() {
    let mut rt = Runtime::new();
    let mut lottery = new_lottery();
    rt.mint(4, 3);
    let payer = lottery::Config::free_balance(&rt, 2);
    let owner = lottery::Config::free_balance(&rt, 4);
    // a fee of 1_000_000: 50_000 to the owner goes through, the 950_000
    // left for the pot would empty the payer's account
    let r = lottery.pick_pixel(&mut rt, 2, 3, 1, 1_000_000);
    assert_eq!(r, Err(DispatchError::Runtime(1)));
    assert_eq!(lottery::Config::free_balance(&rt, 2), payer - 50_000);
    assert_eq!(lottery::Config::free_balance(&rt, 4), owner + 50_000);
    assert_eq!(lottery.pick_cnt(), 0);
    assert_eq!(lottery.pixel_picks(&0, &3), Vec::<u32>::new());
}

#[test]
fn picks_are_listed_in_the_order_they_were_made() {
    let mut rt = Runtime::new();
    let mut lottery = new_lottery();
    assert_eq!(lottery.start_lottery(&mut rt, Origin::Root, 10, 100, 0), Ok(()));
    assert_eq!(lottery.pick(&mut rt, Origin::Signed(1), vec![(2, 1), (3, 1), (2, 3)]), Ok(()));
    assert_eq!(lottery.pick(&mut rt, Origin::Signed(2), vec![(2, 2)]), Ok(()));
    assert_eq!(lottery.pixel_picks(&1, &2), vec![1, 3, 4]);
    assert_eq!(lottery.sub_pixel_picks(&(1, 2), &1), vec![3, 4]);
    assert_eq!(lottery.sub_pixel_picks(&(1, 2), &0), vec![1, 3]);
    // three sub-pixel picks on pixel 2 by account 1, one by account 2
    assert_eq!(lottery.pixel_pick_cnt(&1, &2), 4);
}

#[test]
fn an_empty_pick_succeeds_and_changes_nothing() {
    let mut rt = Runtime::new();
    let mut lottery = new_lottery();
    assert_eq!(lottery.start_lottery(&mut rt, Origin::Root, PICK_FEE, 10, 0), Ok(()));
    let before = lottery::Config::free_balance(&rt, 1);
    assert_eq!(lottery.pick(&mut rt, Origin::Signed(1), vec![]), Ok(()));
    assert_eq!(lottery.pick_cnt(), 0);
    assert_eq!(lottery::Config::free_balance(&rt, 1), before);
}

#[test]
fn winning_pixel_sum_wraps_round_the_map_for_any_pixel_id() {
    let mut rt = Runtime::new();
    let mut lottery = new_lottery();
    assert_eq!(lottery.start_lottery(&mut rt, Origin::Root, 1, 10, 0), Ok(()));
    // 9990 first, then 65535: (9990 + 65535) % 10000 = 5525
    assert_eq!(lottery.pick(&mut rt, Origin::Signed(1), vec![(9990, 1), (65535, 1)]), Ok(()));
    assert_eq!(lottery.winning_pixel().0, 5525);
    assert_eq!(lottery.pick_cnt(), 2);
}
