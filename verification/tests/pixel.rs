use std::collections::BTreeMap;

use pixel_billboard::dispatch::{DispatchError, Origin};
use pixel_billboard::pixel::{self, Error, Event, Pallet as Pixels};

/// A clock whose currency refuses every payment.
struct Clock(u64);

impl pixel::Config for Clock {
    fn now(&self) -> u64 {
        self.0
    }

    fn transfer(&mut self, _from: u64, _to: u64, _amount: u128) -> Result<(), DispatchError> {
        Err(DispatchError::Runtime(9))
    }
}

/// A clock and a ledger of balances.
struct Bank {
    now: u64,
    balances: BTreeMap<u64, u128>,
}

impl pixel::Config for Bank {
    fn now(&self) -> u64 {
        self.now
    }

    fn transfer(&mut self, from: u64, to: u64, amount: u128) -> Result<(), DispatchError> {
        let have = *self.balances.get(&from).unwrap_or(&0);
        if have <= amount {
            return Err(DispatchError::Runtime(1));
        }
        let dest = *self.balances.get(&to).unwrap_or(&0);
        self.balances.insert(from, have - amount);
        self.balances.insert(to, dest + amount);
        Ok(())
    }
}

fn bank() -> Bank {
    let mut balances = BTreeMap::new();
    balances.insert(1, 1000);
    balances.insert(2, 1000);
    balances.insert(3, 50);
    Bank { now: 3, balances }
}

#[test]
fn mint_makes_the_minter_owner() {
    let clock = Clock(5);
    let mut pixels = Pixels::new(3, 10);
    assert_eq!(pixels.is_pixel_owner(&7, &1), Err(Error::PixelNotExist));
    assert_eq!(pixels.mint_pixel(&clock, Origin::Signed(1), 7), Ok(()));
    assert_eq!(pixels.is_pixel_owner(&7, &1), Ok(true));
    assert_eq!(pixels.is_pixel_owner(&7, &2), Ok(false));
    assert_eq!(pixels.pixel_owner(7), Some(1));
    assert_eq!(pixels.pixel_owner(8), None);
    let p = pixels.pixels(&7).unwrap();
    assert_eq!((p.pixel_id, p.image.clone(), p.price, p.owner, p.date_minted), (7, None, None, 1, 5));
    assert_eq!(pixels.pixels_owned(&1), vec![7]);
    assert_eq!(pixels.events(), &vec![Event::Minted(1, vec![7])]);
}

#[test]
fn mint_needs_a_signer_and_room() {
    let clock = Clock(5);
    let mut pixels = Pixels::new(2, 10);
    assert_eq!(pixels.mint_pixel(&clock, Origin::Root, 1), Err(DispatchError::BadOrigin));
    assert_eq!(pixels.mint(&clock, &3, 1), Ok(()));
    assert_eq!(pixels.mint(&clock, &3, 2), Ok(()));
    assert_eq!(pixels.mint(&clock, &3, 3), Err(Error::ExceedMaxPixelOwned));
    assert_eq!(
        pixels.mint_pixel(&clock, Origin::Signed(3), 4),
        Err(DispatchError::Pixel(Error::ExceedMaxPixelOwned))
    );
    assert_eq!(pixels.pixels_owned(&3), vec![1, 2]);
    assert_eq!(pixels.pixels(&3), None);
}

#[test]
fn batch_mint_is_all_or_none() {
    let clock = Clock(9);
    let mut pixels = Pixels::new(3, 10);
    assert_eq!(pixels.batch_mint_pixels(&clock, Origin::Signed(1), vec![1, 2]), Ok(()));
    assert_eq!(pixels.pixels_owned(&1), vec![1, 2]);
    assert_eq!(
        pixels.batch_mint_pixels(&clock, Origin::Signed(1), vec![3, 4]),
        Err(DispatchError::Pixel(Error::ExceedMaxPixelOwned))
    );
    assert_eq!(pixels.pixels_owned(&1), vec![1, 2]);
    assert_eq!(pixels.pixels(&3), None);
    assert_eq!(pixels.batch_mint_pixels(&clock, Origin::Signed(1), vec![3]), Ok(()));
    assert_eq!(pixels.pixels_owned(&1), vec![1, 2, 3]);
    assert_eq!(pixels.events().len(), 2);
    assert_eq!(pixels.events()[1], Event::Minted(1, vec![3]));
    assert_eq!(pixels.batch_mint_pixels(&clock, Origin::Unsigned, vec![5]), Err(DispatchError::BadOrigin));
}

#[test]
fn set_price_only_by_owner() {
    let clock = Clock(1);
    let mut pixels = Pixels::new(3, 10);
    assert_eq!(pixels.set_price(Origin::Signed(1), 4, Some(10)), Err(DispatchError::Pixel(Error::PixelNotExist)));
    assert_eq!(pixels.mint_pixel(&clock, Origin::Signed(1), 4), Ok(()));
    assert_eq!(pixels.set_price(Origin::Signed(2), 4, Some(10)), Err(DispatchError::Pixel(Error::NotPixelOwner)));
    assert_eq!(pixels.set_price(Origin::Root, 4, Some(10)), Err(DispatchError::BadOrigin));
    assert_eq!(pixels.pixels(&4).unwrap().price, None);
    assert_eq!(pixels.set_price(Origin::Signed(1), 4, Some(10)), Ok(()));
    assert_eq!(pixels.pixels(&4).unwrap().price, Some(10));
    assert_eq!(pixels.events().last(), Some(&Event::PriceSet(1, 4, Some(10))));
}

#[test]
fn set_image_stores_only_an_image() {
    let clock = Clock(1);
    let mut pixels = Pixels::new(3, 10);
    assert_eq!(pixels.mint_pixel(&clock, Origin::Signed(1), 4), Ok(()));
    assert_eq!(pixels.set_image(Origin::Signed(2), 4, Some(b"x".to_vec()), (1, 1)), Err(DispatchError::Pixel(Error::NotPixelOwner)));
    assert_eq!(pixels.set_image(Origin::Signed(1), 4, None, (2, 3)), Ok(()));
    assert_eq!(pixels.images(&4), None);
    assert_eq!(pixels.set_image(Origin::Signed(1), 4, Some(b"ipfs://a".to_vec()), (2, 3)), Ok(()));
    let image = pixels.images(&4).unwrap();
    assert_eq!((image.pixel_id, image.url.clone(), image.size), (4, b"ipfs://a".to_vec(), (2, 3)));
    assert_eq!(pixels.events().last(), Some(&Event::ImageSet(1, 4, Some(b"ipfs://a".to_vec()), (2, 3))));
}

#[test]
fn a_minted_pixel_cannot_be_minted_again() {
    let clock = Clock(1);
    let mut pixels = Pixels::new(3, 10);
    assert_eq!(pixels.mint_pixel(&clock, Origin::Signed(1), 4), Ok(()));
    assert_eq!(pixels.mint(&clock, &2, 4), Err(Error::PixelAlreadyMinted));
    assert_eq!(
        pixels.mint_pixel(&clock, Origin::Signed(1), 4),
        Err(DispatchError::Pixel(Error::PixelAlreadyMinted))
    );
    assert_eq!(pixels.pixel_owner(4), Some(1));
    assert_eq!(pixels.pixels_owned(&1), vec![4]);
    assert_eq!(pixels.pixels_owned(&2), Vec::<u32>::new());
    // a batch that names a pixel twice, or a minted one, mints nothing
    assert_eq!(
        pixels.batch_mint_pixels(&clock, Origin::Signed(2), vec![5, 6, 5]),
        Err(DispatchError::Pixel(Error::PixelAlreadyMinted))
    );
    assert_eq!(
        pixels.batch_mint_pixels(&clock, Origin::Signed(2), vec![5, 4]),
        Err(DispatchError::Pixel(Error::PixelAlreadyMinted))
    );
    assert_eq!(pixels.pixels(&5), None);
    assert_eq!(pixels.pixels_owned(&2), Vec::<u32>::new());
    assert_eq!(pixels.events().len(), 1);
}

#[test]
fn transfer_changes_nothing() {
    let clock = Clock(1);
    let mut pixels = Pixels::new(2, 10);
    assert_eq!(pixels.batch_mint_pixels(&clock, Origin::Signed(1), vec![4, 5]), Ok(()));
    assert_eq!(pixels.transfer(Origin::Signed(1), 2, 4), Ok(()));
    assert_eq!(pixels.transfer(Origin::Root, 2, 9), Ok(()));
    assert_eq!(pixels.pixel_owner(4), Some(1));
    assert_eq!(pixels.pixels_owned(&1), vec![4, 5]);
    assert_eq!(pixels.pixels_owned(&2), Vec::<u32>::new());
    assert_eq!(pixels.events().len(), 1);
}

#[test]
fn buying_pays_the_seller_and_moves_the_pixel() {
    let mut bank = bank();
    let mut pixels = Pixels::new(3, 10);
    assert_eq!(pixels.mint_pixel(&bank, Origin::Signed(1), 4), Ok(()));
    assert_eq!(pixels.pixels(&4).unwrap().date_minted, 3);
    assert_eq!(pixels.buy_pixel(&mut bank, Origin::Signed(2), 4, 100), Err(DispatchError::Pixel(Error::NotForSale)));
    assert_eq!(pixels.set_price(Origin::Signed(1), 4, Some(300)), Ok(()));
    assert_eq!(pixels.buy_pixel(&mut bank, Origin::Signed(2), 4, 299), Err(DispatchError::Pixel(Error::BidPriceTooLow)));
    assert_eq!(pixels.buy_pixel(&mut bank, Origin::Signed(1), 4, 300), Err(DispatchError::Pixel(Error::BuyerIsOwner)));
    assert_eq!(pixels.buy_pixel(&mut bank, Origin::Signed(2), 8, 300), Err(DispatchError::Pixel(Error::PixelNotExist)));
    assert_eq!(pixels.buy_pixel(&mut bank, Origin::Unsigned, 4, 300), Err(DispatchError::BadOrigin));
    // account 3 cannot pay: the currency's error, and nothing moves
    assert_eq!(pixels.buy_pixel(&mut bank, Origin::Signed(3), 4, 300), Err(DispatchError::Runtime(1)));
    assert_eq!(pixels.pixel_owner(4), Some(1));
    // account 2 bids more than asked and pays the price
    assert_eq!(pixels.buy_pixel(&mut bank, Origin::Signed(2), 4, 500), Ok(()));
    assert_eq!(bank.balances[&1], 1300);
    assert_eq!(bank.balances[&2], 700);
    assert_eq!(pixels.pixel_owner(4), Some(2));
    assert_eq!(pixels.pixels(&4).unwrap().price, None);
    assert_eq!(pixels.pixels_owned(&1), Vec::<u32>::new());
    assert_eq!(pixels.pixels_owned(&2), vec![4]);
    assert_eq!(pixels.events().last(), Some(&Event::Buy(1, 2, 4, 300)));
}

#[test]
fn buying_needs_room_for_the_pixel() {
    let mut bank = bank();
    let mut pixels = Pixels::new(1, 10);
    assert_eq!(pixels.mint_pixel(&bank, Origin::Signed(1), 4), Ok(()));
    assert_eq!(pixels.mint_pixel(&bank, Origin::Signed(2), 5), Ok(()));
    assert_eq!(pixels.set_price(Origin::Signed(1), 4, Some(10)), Ok(()));
    assert_eq!(pixels.buy_pixel(&mut bank, Origin::Signed(2), 4, 10), Err(DispatchError::Pixel(Error::ExceedMaxPixelOwned)));
    assert_eq!(bank.balances[&2], 1000);
}
