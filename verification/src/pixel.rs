//! The pixel registry: accounts mint pixels of the billboard, price them,
//! buy them from one another and hang images on them.

use std::collections::BTreeMap;

use vstd::prelude::*;

use crate::dispatch::{asked_in_turn, ensure_signed, signer, DispatchError, Origin, Payment};

verus! {

broadcast use {vstd::std_specs::btree::group_btree_axioms, vstd::laws_cmp::group_laws_cmp};

/// What the registry needs from the runtime around it: the chain's clock
/// and its currency.
///
/// An implementation keeps, as its specification, `payments`: the record of
/// the transfers its currency has carried out, in order; `requested`: the
/// record of those asked of it, carried out or not; and `refusals`: the
/// record of those it refused, with its answers. A transfer that fails
/// moves nothing, and no transfer moves the clock.
///
/// The specification functions below are the implementation's to define.
/// Their defaults are left unspecified, and no proof of the registry looks
/// into them: it relies only on the contracts of the methods.
pub trait Config {
    /// The current time.
    closed spec fn clock(&self) -> u64 {
        arbitrary()
    }

    /// The payments carried out so far, in order.
    closed spec fn payments(&self) -> Seq<Payment> {
        arbitrary()
    }

    /// The payments asked of the currency so far, carried out or not, in
    /// order.
    closed spec fn requested(&self) -> Seq<Payment> {
        arbitrary()
    }

    /// The payments the currency refused so far, each with the error it
    /// answered, in order.
    closed spec fn refusals(&self) -> Seq<(Payment, DispatchError)> {
        arbitrary()
    }

    /// The current time, stamped on newly minted pixels.
    fn now(&self) -> (r: u64)
        ensures
            r == self.clock(),
    ;

    /// Moves `amount` from `from` to `to`, keeping `from` alive; a failed
    /// transfer moves nothing.
    fn transfer(&mut self, from: u64, to: u64, amount: u128) -> (r: Result<(), DispatchError>)
        ensures
            final(self).clock() == old(self).clock(),
            final(self).requested() == old(self).requested().push(Payment::Transfer { from, to, amount }),
            r is Ok ==> final(self).payments() == old(self).payments().push(
                Payment::Transfer { from, to, amount },
            ),
            r is Err ==> final(self).payments() == old(self).payments(),
            r is Ok ==> final(self).refusals() == old(self).refusals(),
            r matches Err(e) ==> final(self).refusals() == old(self).refusals().push(
                (Payment::Transfer { from, to, amount }, e),
            ),
    ;
}

/// A minted pixel.
#[derive(Clone, Debug, PartialEq, Eq)]
pub struct Pixel {
    pub pixel_id: u32,
    pub image: Option<Vec<u8>>,
    pub price: Option<u128>,
    pub owner: u64,
    pub date_minted: u64,
}

/// A pixel as a value.
pub struct PixelView {
    pub pixel_id: u32,
    pub image: Option<Seq<u8>>,
    pub price: Option<u128>,
    pub owner: u64,
    pub date_minted: u64,
}

pub open spec fn option_bytes_view(o: Option<Vec<u8>>) -> Option<Seq<u8>> {
    match o {
        Some(v) => Some(v@),
        None => None,
    }
}

impl View for Pixel {
    type V = PixelView;

    open spec fn view(&self) -> PixelView {
        PixelView {
            pixel_id: self.pixel_id,
            image: option_bytes_view(self.image),
            price: self.price,
            owner: self.owner,
            date_minted: self.date_minted,
        }
    }
}

/// An image hung on a pixel.
#[derive(Debug, PartialEq, Eq)]
pub struct Image {
    pub pixel_id: u32,
    pub url: Vec<u8>,
    pub size: (u32, u32),
}

/// An image as a value.
pub struct ImageView {
    pub pixel_id: u32,
    pub url: Seq<u8>,
    pub size: (u32, u32),
}

impl View for Image {
    type V = ImageView;

    open spec fn view(&self) -> ImageView {
        ImageView { pixel_id: self.pixel_id, url: self.url@, size: self.size }
    }
}

/// What the registry reports.
#[derive(Debug, PartialEq, Eq)]
pub enum Event {
    /// Pixels minted: the account and the pixel ids.
    Minted(u64, Vec<u32>),
    /// A price set: the account, the pixel id and the price.
    PriceSet(u64, u32, Option<u128>),
    /// A pixel bought: the seller, the buyer, the pixel id and the price.
    Buy(u64, u64, u32, u128),
    /// An image set: the account, the pixel id, the image url and its size.
    ImageSet(u64, u32, Option<Vec<u8>>, (u32, u32)),
}

/// An event as a value.
pub enum EventView {
    Minted(u64, Seq<u32>),
    PriceSet(u64, u32, Option<u128>),
    Buy(u64, u64, u32, u128),
    ImageSet(u64, u32, Option<Seq<u8>>, (u32, u32)),
}

impl View for Event {
    type V = EventView;

    open spec fn view(&self) -> EventView {
        match self {
            Event::Minted(who, ids) => EventView::Minted(*who, ids@),
            Event::PriceSet(who, id, price) => EventView::PriceSet(*who, *id, *price),
            Event::Buy(seller, buyer, id, price) => EventView::Buy(*seller, *buyer, *id, *price),
            Event::ImageSet(who, id, url, size) => EventView::ImageSet(
                *who,
                *id,
                option_bytes_view(*url),
                *size,
            ),
        }
    }
}

/// Why a registry call fails.
#[derive(Clone, Copy, Debug, PartialEq, Eq, Structural)]
pub enum Error {
    /// The pixel is minted already.
    PixelAlreadyMinted,
    /// The account owns as many pixels as allowed.
    ExceedMaxPixelOwned,
    /// The pixel was never minted.
    PixelNotExist,
    /// The caller does not own the pixel.
    NotPixelOwner,
    /// The pixel has no price, so it is not for sale.
    NotForSale,
    /// The bid is below the pixel's price.
    BidPriceTooLow,
    /// The buyer owns the pixel already.
    BuyerIsOwner,
}

/// The registry's storage.
pub struct Pallet {
    max_pixel_owned: u32,
    max_pixel_batch_mint: u32,
    pixels: BTreeMap<u32, Pixel>,
    images: BTreeMap<u32, Image>,
    pixels_owned: BTreeMap<u64, Vec<u32>>,
    events: Vec<Event>,
}

/// The registry's storage as values.
#[verifier::ext_equal]
pub struct PixelState {
    /// The most pixels one account may own.
    pub max_pixel_owned: u32,
    /// The most pixels one call may mint.
    pub max_pixel_batch_mint: u32,
    pub pixels: Map<u32, PixelView>,
    pub images: Map<u32, ImageView>,
    /// The pixels each account has minted, in order; an absent account owns none.
    pub pixels_owned: Map<u64, Seq<u32>>,
    pub events: Seq<EventView>,
}

/// The pixels listed for `who`, empty when `who` has none.
pub open spec fn owned_by(s: PixelState, who: u64) -> Seq<u32> {
    if s.pixels_owned.contains_key(who) {
        s.pixels_owned[who]
    } else {
        seq![]
    }
}

/// A pixel as `mint` creates it.
pub open spec fn fresh_pixel(pixel_id: u32, owner: u64, date_minted: u64) -> PixelView {
    PixelView { pixel_id, image: None, price: None, owner, date_minted }
}

/// The registry after `owner` mints `pixel_id` at time `date_minted`.
pub open spec fn minted(s: PixelState, owner: u64, pixel_id: u32, date_minted: u64) -> PixelState {
    PixelState {
        pixels: s.pixels.insert(pixel_id, fresh_pixel(pixel_id, owner, date_minted)),
        pixels_owned: s.pixels_owned.insert(owner, owned_by(s, owner).push(pixel_id)),
        ..s
    }
}

/// Whether `who` may mint one more pixel.
pub open spec fn can_mint(s: PixelState, who: u64) -> bool {
    owned_by(s, who).len() < s.max_pixel_owned
}

/// The registry after the price of `pixel_id` is set to `price`.
pub open spec fn priced(s: PixelState, pixel_id: u32, price: Option<u128>) -> PixelState {
    PixelState {
        pixels: s.pixels.insert(pixel_id, PixelView { price, ..s.pixels[pixel_id] }),
        ..s
    }
}

/// The registry after `image` is hung on `pixel_id`; without an image nothing is stored.
pub open spec fn imaged(s: PixelState, pixel_id: u32, image: Option<Seq<u8>>, size: (u32, u32)) -> PixelState {
    match image {
        Some(url) => PixelState {
            images: s.images.insert(pixel_id, ImageView { pixel_id, url, size }),
            ..s
        },
        None => s,
    }
}

/// The registry with `e` reported.
pub open spec fn reported(s: PixelState, e: EventView) -> PixelState {
    PixelState { events: s.events.push(e), ..s }
}

/// What a call by `origin` about `pixel_id` fails with before it changes
/// anything: `BadOrigin` unless signed, `PixelNotExist` for a pixel never
/// minted, `NotPixelOwner` when the signer does not own it.
pub open spec fn owner_check(s: PixelState, origin: Origin, pixel_id: u32) -> Option<DispatchError> {
    match origin {
        Origin::Signed(who) => if !s.pixels.contains_key(pixel_id) {
            Some(DispatchError::Pixel(Error::PixelNotExist))
        } else if s.pixels[pixel_id].owner != who {
            Some(DispatchError::Pixel(Error::NotPixelOwner))
        } else {
            None
        },
        _ => Some(DispatchError::BadOrigin),
    }
}

/// Only the signer who owns a minted pixel passes the owner's check.
pub proof fn lemma_owner_check_exact(s: PixelState, origin: Origin, pixel_id: u32)
    ensures
        owner_check(s, origin, pixel_id) is None <==> (origin is Signed && s.pixels.contains_key(pixel_id)
            && s.pixels[pixel_id].owner == signer(origin)),
{
}

/// The registry after `owner` mints each of `ids` in turn at time
/// `date_minted`.
pub open spec fn minted_all(s: PixelState, owner: u64, ids: Seq<u32>, date_minted: u64) -> PixelState {
    PixelState {
        pixels: s.pixels.union_prefer_right(
            Map::new(|id: u32| ids.contains(id), |id: u32| fresh_pixel(id, owner, date_minted)),
        ),
        pixels_owned: if ids.len() == 0 {
            s.pixels_owned
        } else {
            s.pixels_owned.insert(owner, owned_by(s, owner) + ids)
        },
        ..s
    }
}

/// Why minting each of `ids` from the `j`-th on, in turn, for `who` fails,
/// if it does: the first of them that is minted already (before or earlier
/// in `ids`) fails with `PixelAlreadyMinted`, and the first that would take
/// `who` past the most pixels one account may own fails with
/// `ExceedMaxPixelOwned`.
pub open spec fn batch_error(s: PixelState, who: u64, ids: Seq<u32>, j: int) -> Option<Error>
    decreases ids.len() - j,
{
    if j < 0 || j >= ids.len() {
        None
    } else if s.pixels.contains_key(ids[j]) || ids.take(j).contains(ids[j]) {
        Some(Error::PixelAlreadyMinted)
    } else if owned_by(s, who).len() + j >= s.max_pixel_owned {
        Some(Error::ExceedMaxPixelOwned)
    } else {
        batch_error(s, who, ids, j + 1)
    }
}

/// The registry after `pixel_id` passes from its owner to `to`: it leaves
/// the owner's list, joins the end of `to`'s, and is no longer for sale.
pub open spec fn moved(s: PixelState, pixel_id: u32, to: u64) -> PixelState {
    let from = s.pixels[pixel_id].owner;
    let left = owned_by(s, from);
    PixelState {
        pixels: s.pixels.insert(pixel_id, PixelView { owner: to, price: None, ..s.pixels[pixel_id] }),
        pixels_owned: s.pixels_owned.insert(from, left.remove(left.index_of(pixel_id))).insert(
            to,
            owned_by(s, to).push(pixel_id),
        ),
        ..s
    }
}

/// What `buy_pixel` by `origin` of `pixel_id` for `bid_price` fails with
/// before it pays anything: `BadOrigin` unless signed, `PixelNotExist`,
/// `BuyerIsOwner` when the buyer owns it, `NotForSale` when it has no price,
/// `BidPriceTooLow` when the bid is below the price, and
/// `ExceedMaxPixelOwned` when the buyer owns as many pixels as allowed.
pub open spec fn buy_check(s: PixelState, origin: Origin, pixel_id: u32, bid_price: u128) -> Option<DispatchError> {
    match origin {
        Origin::Signed(buyer) => if !s.pixels.contains_key(pixel_id) {
            Some(DispatchError::Pixel(Error::PixelNotExist))
        } else if s.pixels[pixel_id].owner == buyer {
            Some(DispatchError::Pixel(Error::BuyerIsOwner))
        } else if s.pixels[pixel_id].price is None {
            Some(DispatchError::Pixel(Error::NotForSale))
        } else if bid_price < s.pixels[pixel_id].price.unwrap() {
            Some(DispatchError::Pixel(Error::BidPriceTooLow))
        } else if !can_mint(s, buyer) {
            Some(DispatchError::Pixel(Error::ExceedMaxPixelOwned))
        } else {
            None
        },
        _ => Some(DispatchError::BadOrigin),
    }
}

/// What is written is read back: after `owner` mints `pixel_id` the pixel
/// exists and `owner` owns it, with no price and no image, and it is the
/// last of `owner`'s pixels; after its price is set, the pixel has that
/// price and keeps its owner.
pub proof fn lemma_read_back(s: PixelState, owner: u64, pixel_id: u32, date: u64, price: Option<u128>)
    ensures
        minted(s, owner, pixel_id, date).pixels.contains_key(pixel_id),
        minted(s, owner, pixel_id, date).pixels[pixel_id].owner == owner,
        minted(s, owner, pixel_id, date).pixels[pixel_id].date_minted == date,
        minted(s, owner, pixel_id, date).pixels[pixel_id].price is None,
        minted(s, owner, pixel_id, date).pixels[pixel_id].image is None,
        owned_by(minted(s, owner, pixel_id, date), owner) == owned_by(s, owner).push(pixel_id),
        s.pixels.contains_key(pixel_id) ==> priced(s, pixel_id, price).pixels[pixel_id].price == price,
        s.pixels.contains_key(pixel_id) ==> priced(s, pixel_id, price).pixels[pixel_id].owner
            == s.pixels[pixel_id].owner,
        owner_check(minted(s, owner, pixel_id, date), Origin::Signed(owner), pixel_id) is None,
{
}

/// Setting a price sets exactly the price given: a `Some` puts the pixel on
/// sale at that price and `None` takes it off sale, whatever its price was.
/// Nothing else of the pixel changes, nor any other pixel, owner list or
/// image; and of two prices set in turn, the later one stands.
pub proof fn lemma_price_is_set(s: PixelState, pixel_id: u32, price: Option<u128>, later: Option<u128>, other: u32)
    requires
        s.pixels.contains_key(pixel_id),
    ensures
        priced(s, pixel_id, price).pixels.contains_key(pixel_id),
        priced(s, pixel_id, price).pixels[pixel_id].price == price,
        price is None ==> priced(s, pixel_id, price).pixels[pixel_id].price is None,
        priced(s, pixel_id, price).pixels[pixel_id].owner == s.pixels[pixel_id].owner,
        priced(s, pixel_id, price).pixels[pixel_id].pixel_id == s.pixels[pixel_id].pixel_id,
        priced(s, pixel_id, price).pixels[pixel_id].image == s.pixels[pixel_id].image,
        priced(s, pixel_id, price).pixels[pixel_id].date_minted == s.pixels[pixel_id].date_minted,
        other != pixel_id ==> priced(s, pixel_id, price).pixels.contains_key(other) == s.pixels.contains_key(other),
        other != pixel_id && s.pixels.contains_key(other) ==> priced(s, pixel_id, price).pixels[other]
            == s.pixels[other],
        priced(s, pixel_id, price).pixels_owned == s.pixels_owned,
        priced(s, pixel_id, price).images == s.images,
        priced(priced(s, pixel_id, price), pixel_id, later).pixels[pixel_id].price == later,
{
}

/// Hanging an image stores exactly that image, with that size, under the
/// pixel, replacing any image hung there before; without an image nothing
/// changes. No other image and no pixel changes; of two images hung in
/// turn, the later one stands.
pub proof fn lemma_image_is_hung(
    s: PixelState,
    pixel_id: u32,
    url: Seq<u8>,
    size: (u32, u32),
    later: Seq<u8>,
    later_size: (u32, u32),
    other: u32,
)
    ensures
        imaged(s, pixel_id, Some(url), size).images.contains_key(pixel_id),
        imaged(s, pixel_id, Some(url), size).images[pixel_id].pixel_id == pixel_id,
        imaged(s, pixel_id, Some(url), size).images[pixel_id].url == url,
        imaged(s, pixel_id, Some(url), size).images[pixel_id].size == size,
        imaged(s, pixel_id, None, size) == s,
        other != pixel_id ==> imaged(s, pixel_id, Some(url), size).images.contains_key(other)
            == s.images.contains_key(other),
        other != pixel_id && s.images.contains_key(other) ==> imaged(s, pixel_id, Some(url), size).images[other]
            == s.images[other],
        imaged(s, pixel_id, Some(url), size).pixels == s.pixels,
        imaged(s, pixel_id, Some(url), size).pixels_owned == s.pixels_owned,
        imaged(imaged(s, pixel_id, Some(url), size), pixel_id, Some(later), later_size).images[pixel_id].url
            == later,
        imaged(imaged(s, pixel_id, Some(url), size), pixel_id, Some(later), later_size).images[pixel_id].size
            == later_size,
{
}

/// A purchase passes its checks exactly when a signed account other than
/// the owner bids at least the asking price of a minted pixel that is for
/// sale, and has room for one more pixel.
pub proof fn lemma_buy_check_exact(s: PixelState, origin: Origin, pixel_id: u32, bid_price: u128)
    ensures
        buy_check(s, origin, pixel_id, bid_price) is None <==> (origin is Signed && s.pixels.contains_key(pixel_id)
            && s.pixels[pixel_id].owner != signer(origin) && s.pixels[pixel_id].price is Some
            && s.pixels[pixel_id].price.unwrap() <= bid_price && owned_by(s, signer(origin)).len()
            < s.max_pixel_owned),
{
}

/// Whether `s` is a state the registry can be in: no account owns more
/// pixels than allowed or lists a pixel twice; every pixel is stored under
/// its own id and is listed among its owner's pixels, and every listed pixel
/// is a minted pixel of the account that lists it; images hang only on
/// minted pixels, under their own ids.
pub open spec fn registry_wf(s: PixelState) -> bool {
    &&& forall|who: u64| #[trigger] owned_by(s, who).len() <= s.max_pixel_owned
    &&& forall|who: u64| #[trigger] owned_by(s, who).no_duplicates()
    &&& forall|id: u32| #[trigger] s.pixels.contains_key(id) ==> s.pixels[id].pixel_id == id && owned_by(
        s,
        s.pixels[id].owner,
    ).contains(id)
    &&& forall|who: u64, id: u32| #[trigger] owned_by(s, who).contains(id) ==> s.pixels.contains_key(id)
        && s.pixels[id].owner == who
    &&& forall|id: u32| #[trigger] s.images.contains_key(id) ==> s.pixels.contains_key(id) && s.images[id].pixel_id == id
}

/// The pixel index is the pixels' owners: an account lists exactly the
/// minted pixels it owns, each once.
pub proof fn lemma_owned_is_owners(s: PixelState, who: u64, id: u32)
    requires
        registry_wf(s),
    ensures
        owned_by(s, who).contains(id) <==> s.pixels.contains_key(id) && s.pixels[id].owner == who,
        owned_by(s, who).no_duplicates(),
{
}

/// Minting keeps the registry in a state it can be in.
pub proof fn lemma_minted_wf(s: PixelState, owner: u64, pixel_id: u32, date: u64)
    requires
        registry_wf(s),
        can_mint(s, owner),
        !s.pixels.contains_key(pixel_id),
    ensures
        registry_wf(minted(s, owner, pixel_id, date)),
{
    let t = minted(s, owner, pixel_id, date);
    let old_list = owned_by(s, owner);
    let grown = old_list.push(pixel_id);
    assert(!old_list.contains(pixel_id));
    assert(owned_by(t, owner) == grown);
    assert forall|who: u64| #[trigger] owned_by(t, who).len() <= t.max_pixel_owned by {
        if who != owner {
            assert(owned_by(t, who) == owned_by(s, who));
        }
    }
    assert forall|who: u64| #[trigger] owned_by(t, who).no_duplicates() by {
        if who != owner {
            assert(owned_by(t, who) == owned_by(s, who));
        } else {
            assert(old_list.no_duplicates());
            assert forall|i: int, j: int| 0 <= i < grown.len() && 0 <= j < grown.len() && i != j implies grown[i]
                != grown[j] by {
                if i == old_list.len() {
                    assert(old_list[j] == grown[j]);
                } else if j == old_list.len() {
                    assert(old_list[i] == grown[i]);
                } else {
                    assert(old_list[i] == grown[i]);
                    assert(old_list[j] == grown[j]);
                }
            }
        }
    }
    assert forall|id: u32| #[trigger] t.pixels.contains_key(id) implies t.pixels[id].pixel_id == id && owned_by(
        t,
        t.pixels[id].owner,
    ).contains(id) by {
        if id == pixel_id {
            assert(grown[grown.len() - 1] == pixel_id);
        } else if s.pixels[id].owner == owner {
            let k = choose|k: int| 0 <= k < old_list.len() && #[trigger] old_list[k] == id;
            assert(grown[k] == id);
        }
    }
    assert forall|who: u64, id: u32| #[trigger] owned_by(t, who).contains(id) implies t.pixels.contains_key(id)
        && t.pixels[id].owner == who by {
        if who != owner {
            assert(owned_by(t, who) == owned_by(s, who));
            assert(owned_by(s, who).contains(id));
        } else if id != pixel_id {
            let k = choose|k: int| 0 <= k < grown.len() && #[trigger] grown[k] == id;
            assert(old_list[k] == id);
            assert(old_list.contains(id));
        }
    }
}

/// Removing a listed value from a list without duplicates leaves the other
/// values, each once.
proof fn lemma_remove_listed(l: Seq<u32>, x: u32)
    requires
        l.no_duplicates(),
        l.contains(x),
    ensures
        l.remove(l.index_of(x)).len() == l.len() - 1,
        l.remove(l.index_of(x)).no_duplicates(),
        forall|y: u32| #[trigger] l.remove(l.index_of(x)).contains(y) <==> l.contains(y) && y != x,
{
    let i = l.index_of(x);
    let r = l.remove(i);
    l.remove_ensures(i);
    assert forall|y: u32| #[trigger] r.contains(y) <==> l.contains(y) && y != x by {
        if r.contains(y) {
            let k = choose|k: int| 0 <= k < r.len() && #[trigger] r[k] == y;
            if k < i {
                assert(l[k] == y);
            } else {
                assert(l[k + 1] == y);
            }
        }
        if l.contains(y) && y != x {
            let k = choose|k: int| 0 <= k < l.len() && #[trigger] l[k] == y;
            if k < i {
                assert(r[k] == y);
            } else {
                assert(k != i);
                assert(r[k - 1] == y);
            }
        }
    }
    assert forall|a: int, b: int| 0 <= a < r.len() && 0 <= b < r.len() && a != b implies r[a] != r[b] by {
        let la = if a < i { a } else { a + 1 };
        let lb = if b < i { b } else { b + 1 };
        assert(r[a] == l[la]);
        assert(r[b] == l[lb]);
    }
}

/// Passing a pixel to another account that has room keeps the registry in
/// a state it can be in.
pub proof fn lemma_moved_wf(s: PixelState, pixel_id: u32, to: u64)
    requires
        registry_wf(s),
        s.pixels.contains_key(pixel_id),
        s.pixels[pixel_id].owner != to,
        can_mint(s, to),
    ensures
        registry_wf(moved(s, pixel_id, to)),
{
    let t = moved(s, pixel_id, to);
    let from = s.pixels[pixel_id].owner;
    let left = owned_by(s, from);
    let rest = left.remove(left.index_of(pixel_id));
    let target = owned_by(s, to);
    let grown = target.push(pixel_id);
    lemma_remove_listed(left, pixel_id);
    assert(owned_by(t, from) == rest);
    assert(owned_by(t, to) == grown);
    assert(!target.contains(pixel_id));
    assert forall|who: u64| #[trigger] owned_by(t, who).len() <= t.max_pixel_owned by {
        if who != from && who != to {
            assert(owned_by(t, who) == owned_by(s, who));
        }
    }
    assert forall|who: u64| #[trigger] owned_by(t, who).no_duplicates() by {
        if who != from && who != to {
            assert(owned_by(t, who) == owned_by(s, who));
        } else if who == to {
            assert(target.no_duplicates());
            assert forall|i: int, j: int| 0 <= i < grown.len() && 0 <= j < grown.len() && i != j implies grown[i]
                != grown[j] by {
                if i == target.len() {
                    assert(target[j] == grown[j]);
                } else if j == target.len() {
                    assert(target[i] == grown[i]);
                } else {
                    assert(target[i] == grown[i]);
                    assert(target[j] == grown[j]);
                }
            }
        }
    }
    assert forall|id: u32| #[trigger] t.pixels.contains_key(id) implies t.pixels[id].pixel_id == id && owned_by(
        t,
        t.pixels[id].owner,
    ).contains(id) by {
        if id == pixel_id {
            assert(grown[grown.len() - 1] == pixel_id);
        } else {
            let w = s.pixels[id].owner;
            assert(owned_by(s, w).contains(id));
            if w == to {
                let k = choose|k: int| 0 <= k < target.len() && #[trigger] target[k] == id;
                assert(grown[k] == id);
            } else if w != from {
                assert(owned_by(t, w) == owned_by(s, w));
            }
        }
    }
    assert forall|who: u64, id: u32| #[trigger] owned_by(t, who).contains(id) implies t.pixels.contains_key(id)
        && t.pixels[id].owner == who by {
        if who == to {
            if id != pixel_id {
                let k = choose|k: int| 0 <= k < grown.len() && #[trigger] grown[k] == id;
                assert(target[k] == id);
                assert(target.contains(id));
            }
        } else if who != from {
            assert(owned_by(t, who) == owned_by(s, who));
            assert(owned_by(s, who).contains(id));
        } else {
            assert(left.contains(id));
        }
    }
}

/// Passing a pixel on, as a purchase does, makes `to` its owner:
/// it is listed for `to` and no longer for its previous owner, it is no
/// longer for sale, and every other pixel stays as it was.
pub proof fn lemma_moved_owner(s: PixelState, pixel_id: u32, to: u64, other: u32)
    requires
        registry_wf(s),
        s.pixels.contains_key(pixel_id),
        s.pixels[pixel_id].owner != to,
        can_mint(s, to),
    ensures
        moved(s, pixel_id, to).pixels[pixel_id].owner == to,
        moved(s, pixel_id, to).pixels[pixel_id].price is None,
        owned_by(moved(s, pixel_id, to), to).contains(pixel_id),
        !owned_by(moved(s, pixel_id, to), s.pixels[pixel_id].owner).contains(pixel_id),
        other != pixel_id ==> moved(s, pixel_id, to).pixels.contains_key(other) == s.pixels.contains_key(other)
            && moved(s, pixel_id, to).pixels[other] == s.pixels[other],
{
    lemma_moved_wf(s, pixel_id, to);
    let t = moved(s, pixel_id, to);
    lemma_owned_is_owners(t, s.pixels[pixel_id].owner, pixel_id);
    lemma_owned_is_owners(t, to, pixel_id);
}

/// A change that keeps every pixel's id and owner and every account's list
/// keeps the registry in a state it can be in.
proof fn lemma_same_owners_wf(s: PixelState, t: PixelState)
    requires
        registry_wf(s),
        t.max_pixel_owned == s.max_pixel_owned,
        t.pixels_owned == s.pixels_owned,
        t.pixels.dom() == s.pixels.dom(),
        forall|id: u32| #[trigger] t.pixels.contains_key(id) ==> t.pixels[id].pixel_id == s.pixels[id].pixel_id
            && t.pixels[id].owner == s.pixels[id].owner,
        forall|id: u32| #[trigger] t.images.contains_key(id) ==> t.pixels.contains_key(id) && t.images[id].pixel_id == id,
    ensures
        registry_wf(t),
{
    assert forall|who: u64| #[trigger] owned_by(t, who) == owned_by(s, who) by {}
    assert forall|id: u32| #[trigger] t.pixels.contains_key(id) implies t.pixels[id].pixel_id == id && owned_by(
        t,
        t.pixels[id].owner,
    ).contains(id) by {
        assert(owned_by(t, t.pixels[id].owner) == owned_by(s, s.pixels[id].owner));
    }
    assert forall|who: u64, id: u32| #[trigger] owned_by(t, who).contains(id) implies t.pixels.contains_key(id)
        && t.pixels[id].owner == who by {
        assert(owned_by(t, who) == owned_by(s, who));
        assert(owned_by(s, who).contains(id));
    }
    assert forall|who: u64| #[trigger] owned_by(t, who).no_duplicates() by {
        assert(owned_by(t, who) == owned_by(s, who));
    }
    assert forall|who: u64| #[trigger] owned_by(t, who).len() <= t.max_pixel_owned by {
        assert(owned_by(t, who) == owned_by(s, who));
    }
}

/// Pricing a minted pixel, hanging an image on it and reporting keep the
/// registry in a state it can be in.
pub proof fn lemma_updates_wf(s: PixelState, pixel_id: u32, price: Option<u128>, image: Option<Seq<u8>>, size: (u32, u32), e: EventView)
    requires
        registry_wf(s),
    ensures
        s.pixels.contains_key(pixel_id) ==> registry_wf(priced(s, pixel_id, price)),
        s.pixels.contains_key(pixel_id) ==> registry_wf(imaged(s, pixel_id, image, size)),
        registry_wf(reported(s, e)),
{
    if s.pixels.contains_key(pixel_id) {
        let t = priced(s, pixel_id, price);
        assert(t.pixels.dom() =~= s.pixels.dom());
        lemma_same_owners_wf(s, t);
        lemma_same_owners_wf(s, imaged(s, pixel_id, image, size));
    }
    lemma_same_owners_wf(s, reported(s, e));
}

impl View for Pallet {
    type V = PixelState;

    closed spec fn view(&self) -> PixelState {
        PixelState {
            max_pixel_owned: self.max_pixel_owned,
            max_pixel_batch_mint: self.max_pixel_batch_mint,
            pixels: self.pixels@.map_values(|p: Pixel| p@),
            images: self.images@.map_values(|i: Image| i@),
            pixels_owned: self.pixels_owned@.map_values(|v: Vec<u32>| v@),
            events: self.events@.map_values(|e: Event| e@),
        }
    }
}

impl Pallet {
    /// Whether the storage is in a state the registry can be in.
    pub open spec fn wf(&self) -> bool {
        registry_wf(self@)
    }

    /// An empty registry with the given limits.
    pub fn new(max_pixel_owned: u32, max_pixel_batch_mint: u32) -> (p: Pallet)
        ensures
            p.wf(),
            p@.max_pixel_owned == max_pixel_owned,
            p@.max_pixel_batch_mint == max_pixel_batch_mint,
            p@.pixels == Map::<u32, PixelView>::empty(),
            p@.images == Map::<u32, ImageView>::empty(),
            p@.pixels_owned == Map::<u64, Seq<u32>>::empty(),
            p@.events == Seq::<EventView>::empty(),
    {
        let p = Pallet {
            max_pixel_owned,
            max_pixel_batch_mint,
            pixels: BTreeMap::new(),
            images: BTreeMap::new(),
            pixels_owned: BTreeMap::new(),
            events: Vec::new(),
        };
        assert(p@.pixels =~= Map::<u32, PixelView>::empty());
        assert(p@.images =~= Map::<u32, ImageView>::empty());
        assert(p@.pixels_owned =~= Map::<u64, Seq<u32>>::empty());
        assert(p@.events =~= Seq::<EventView>::empty());
        p
    }
}

impl Pallet {
    /// Mints `pixel_id` for `owner`, stamped with the runtime's current time.
    /// Fails, changing nothing, with `PixelAlreadyMinted` when the pixel is
    /// minted already and with `ExceedMaxPixelOwned` when `owner` already
    /// owns as many pixels as allowed.
    pub fn mint<R: Config>(&mut self, rt: &R, owner: &u64, pixel_id: u32) -> (r: Result<(), Error>)
        requires
            old(self).wf(),
        ensures
            final(self).wf(),
            old(self)@.pixels.contains_key(pixel_id) ==> r == Err::<(), Error>(Error::PixelAlreadyMinted),
            !old(self)@.pixels.contains_key(pixel_id) && !can_mint(old(self)@, *owner) ==> r == Err::<
                (),
                Error,
            >(Error::ExceedMaxPixelOwned),
            r is Ok <==> !old(self)@.pixels.contains_key(pixel_id) && can_mint(old(self)@, *owner),
            r is Err ==> final(self)@ == old(self)@,
            r is Ok ==> final(self)@ == minted(old(self)@, *owner, pixel_id, rt.clock()),
    {
        match self.pixels.get(&pixel_id) {
            Some(_) => {
                return Err(Error::PixelAlreadyMinted);
            },
            None => {},
        }
        let date_minted = rt.now();
        let pixel = Pixel { pixel_id, image: None, price: None, owner: *owner, date_minted };
        let ghost s0 = self@;
        let count = match self.pixels_owned.get(owner) {
            Some(v) => v.len(),
            None => 0,
        };
        assert(count == owned_by(s0, *owner).len());
        if count >= self.max_pixel_owned as usize {
            return Err(Error::ExceedMaxPixelOwned);
        }
        let mut owned: Vec<u32> = match self.pixels_owned.remove(owner) {
            Some(v) => v,
            None => Vec::new(),
        };
        assert(owned@ == owned_by(s0, *owner));
        owned.push(pixel_id);
        self.pixels_owned.insert(*owner, owned);
        self.pixels.insert(pixel_id, pixel);
        let ghost expected = minted(s0, *owner, pixel_id, date_minted);
        assert(self@.pixels =~= expected.pixels);
        assert(self@.pixels_owned =~= expected.pixels_owned);
        assert(self@ =~= expected);
        proof {
            lemma_minted_wf(s0, *owner, pixel_id, date_minted);
        }
        Ok(())
    }

    /// Whether `acct` owns `pixel_id`; `PixelNotExist` when it was never minted.
    pub fn is_pixel_owner(&self, pixel_id: &u32, acct: &u64) -> (r: Result<bool, Error>)
        ensures
            self@.pixels.contains_key(*pixel_id) ==> r == Ok::<bool, Error>(
                self@.pixels[*pixel_id].owner == *acct,
            ),
            !self@.pixels.contains_key(*pixel_id) ==> r == Err::<bool, Error>(Error::PixelNotExist),
    {
        match self.pixels.get(pixel_id) {
            Some(pixel) => Ok(pixel.owner == *acct),
            None => Err(Error::PixelNotExist),
        }
    }

    /// The owner of `pixel_id`, if it was minted.
    pub fn pixel_owner(&self, pixel_id: u32) -> (r: Option<u64>)
        ensures
            r == (if self@.pixels.contains_key(pixel_id) {
                Some(self@.pixels[pixel_id].owner)
            } else {
                None
            }),
    {
        match self.pixels.get(&pixel_id) {
            Some(pixel) => Some(pixel.owner),
            None => None,
        }
    }

    /// Hangs `new_image` of the given size on `pixel_id`; only its owner may.
    /// Without an image nothing is stored, but the call is still reported.
    pub fn set_image(
        &mut self,
        origin: Origin,
        pixel_id: u32,
        new_image: Option<Vec<u8>>,
        size: (u32, u32),
    ) -> (r: Result<(), DispatchError>)
        requires
            old(self).wf(),
        ensures
            final(self).wf(),
            owner_check(old(self)@, origin, pixel_id) matches Some(e) ==> r == Err::<(), DispatchError>(e)
                && final(self)@ == old(self)@,
            owner_check(old(self)@, origin, pixel_id) is None ==> r is Ok && final(self)@ == reported(
                imaged(old(self)@, pixel_id, option_bytes_view(new_image), size),
                EventView::ImageSet(signer(origin), pixel_id, option_bytes_view(new_image), size),
            ),
            r is Ok && new_image is Some ==> final(self)@.images.contains_key(pixel_id)
                && final(self)@.images[pixel_id].url == new_image.unwrap()@ && final(self)@.images[pixel_id].size
                == size,
            r is Ok && new_image is None ==> final(self)@.images == old(self)@.images,
    {
        let sender = self.check_owner(origin, pixel_id)?;
        let ghost s0 = self@;
        let ghost image_view = option_bytes_view(new_image);
        if let Some(url) = &new_image {
            let image = Image { pixel_id, url: url.clone(), size };
            self.images.insert(pixel_id, image);
        }
        self.events.push(Event::ImageSet(sender, pixel_id, new_image, size));
        let ghost expected = reported(
            imaged(s0, pixel_id, image_view, size),
            EventView::ImageSet(sender, pixel_id, image_view, size),
        );
        assert(self@.images =~= expected.images);
        assert(self@.events =~= expected.events);
        assert(self@ =~= expected);
        proof {
            let e = EventView::ImageSet(sender, pixel_id, image_view, size);
            lemma_updates_wf(s0, pixel_id, None, image_view, size, e);
            lemma_updates_wf(imaged(s0, pixel_id, image_view, size), pixel_id, None, image_view, size, e);
        }
        Ok(())
    }

    /// Whether `who` may own one more pixel.
    fn can_own_more(&self, who: &u64) -> (r: bool)
        ensures
            r == can_mint(self@, *who),
    {
        let count = match self.pixels_owned.get(who) {
            Some(v) => v.len(),
            None => 0,
        };
        count < self.max_pixel_owned as usize
    }

    /// Passes the minted `pixel_id` from its owner to `to`, which has room
    /// for it: the pixel leaves the owner's list for the end of `to`'s and is
    /// no longer for sale.
    fn move_pixel(&mut self, pixel_id: u32, to: u64)
        requires
            old(self).wf(),
            old(self)@.pixels.contains_key(pixel_id),
            old(self)@.pixels[pixel_id].owner != to,
            can_mint(old(self)@, to),
        ensures
            final(self).wf(),
            final(self)@ == moved(old(self)@, pixel_id, to),
    {
        let ghost s0 = self@;
        let mut pixel = self.pixels.remove(&pixel_id).unwrap();
        let from = pixel.owner;
        let mut left: Vec<u32> = match self.pixels_owned.remove(&from) {
            Some(v) => v,
            None => Vec::new(),
        };
        assert(left@ == owned_by(s0, from));
        proof {
            lemma_owned_is_owners(s0, from, pixel_id);
        }
        let n = left.len();
        let mut k: usize = 0;
        while k < n
            invariant
                0 <= k <= n,
                n == left.len(),
                forall|m: int| 0 <= m < k ==> left@[m] != pixel_id,
            ensures
                0 <= k <= n,
                forall|m: int| 0 <= m < k ==> left@[m] != pixel_id,
                k < n ==> left@[k as int] == pixel_id,
            decreases n - k,
        {
            if left[k] == pixel_id {
                break;
            }
            k = k + 1;
        }
        proof {
            let w = choose|w: int| 0 <= w < left@.len() && left@[w] == pixel_id;
            assert(left@[w] == pixel_id);
            assert(k < n);
            let i = left@.index_of(pixel_id);
            assert(left@[i] == pixel_id);
            assert(i == k);
        }
        left.remove(k);
        self.pixels_owned.insert(from, left);
        let mut gained: Vec<u32> = match self.pixels_owned.remove(&to) {
            Some(v) => v,
            None => Vec::new(),
        };
        assert(gained@ == owned_by(s0, to));
        gained.push(pixel_id);
        self.pixels_owned.insert(to, gained);
        pixel.owner = to;
        pixel.price = None;
        self.pixels.insert(pixel_id, pixel);
        let ghost expected = moved(s0, pixel_id, to);
        assert(self@.pixels =~= expected.pixels);
        assert(self@.pixels_owned =~= expected.pixels_owned);
        assert(self@ =~= expected);
        proof {
            lemma_moved_wf(s0, pixel_id, to);
        }
    }

    /// Giving a pixel to another account is not a service of the registry,
    /// which passes pixels on only by sale (`buy_pixel`): the call is
    /// accepted from any origin and changes nothing.
    pub fn transfer(&mut self, origin: Origin, to: u64, pixel_id: u32) -> (r: Result<(), DispatchError>)
        ensures
            r is Ok,
            final(self)@ == old(self)@,
    {
        Ok(())
    }

    /// The signer buys `pixel_id`, which is for sale at a price no higher
    /// than `bid_price`: the price is paid to the owner, the pixel passes to
    /// the buyer (no longer for sale) and the sale is reported. The checks
    /// of `buy_check` come first and change nothing; when the payment fails,
    /// its error is returned and nothing changes.
    pub fn buy_pixel<R: Config>(&mut self, rt: &mut R, origin: Origin, pixel_id: u32, bid_price: u128) -> (r:
        Result<(), DispatchError>)
        requires
            old(self).wf(),
        ensures
            final(self).wf(),
            final(rt).clock() == old(rt).clock(),
            buy_check(old(self)@, origin, pixel_id, bid_price) matches Some(e) ==> r == Err::<(), DispatchError>(e)
                && final(rt).requested() == old(rt).requested() && final(rt).refusals() == old(rt).refusals(),
            r is Ok ==> final(rt).refusals() == old(rt).refusals(),
            buy_check(old(self)@, origin, pixel_id, bid_price) is None ==> (r matches Err(e) ==> final(rt).refusals()
                == old(rt).refusals().push(
                (
                    Payment::Transfer {
                        from: signer(origin),
                        to: old(self)@.pixels[pixel_id].owner,
                        amount: old(self)@.pixels[pixel_id].price.unwrap(),
                    },
                    e,
                ),
            )),
            buy_check(old(self)@, origin, pixel_id, bid_price) is None ==> asked_in_turn(
                old(rt).requested(),
                final(rt).requested(),
                old(rt).payments(),
                final(rt).payments(),
                seq![
                    Payment::Transfer {
                        from: signer(origin),
                        to: old(self)@.pixels[pixel_id].owner,
                        amount: old(self)@.pixels[pixel_id].price.unwrap(),
                    },
                ],
                r is Ok,
            ),
            r is Err ==> final(self)@ == old(self)@ && final(rt).payments() == old(rt).payments(),
            r is Ok ==> buy_check(old(self)@, origin, pixel_id, bid_price) is None,
            r is Ok ==> final(self)@ == reported(
                moved(old(self)@, pixel_id, signer(origin)),
                EventView::Buy(
                    old(self)@.pixels[pixel_id].owner,
                    signer(origin),
                    pixel_id,
                    old(self)@.pixels[pixel_id].price.unwrap(),
                ),
            ),
    {
        let buyer = ensure_signed(origin)?;
        let (seller, asked) = match self.pixels.get(&pixel_id) {
            Some(p) => (p.owner, p.price),
            None => {
                return Err(DispatchError::Pixel(Error::PixelNotExist));
            },
        };
        if seller == buyer {
            return Err(DispatchError::Pixel(Error::BuyerIsOwner));
        }
        let price = match asked {
            Some(p) => p,
            None => {
                return Err(DispatchError::Pixel(Error::NotForSale));
            },
        };
        if bid_price < price {
            return Err(DispatchError::Pixel(Error::BidPriceTooLow));
        }
        if !self.can_own_more(&buyer) {
            return Err(DispatchError::Pixel(Error::ExceedMaxPixelOwned));
        }
        let ghost asked0 = rt.requested();
        let ghost paid0 = rt.payments();
        let ghost bill = seq![Payment::Transfer { from: buyer, to: seller, amount: price }];
        match rt.transfer(buyer, seller, price) {
            Ok(()) => {},
            Err(e) => {
                assert(rt.requested() =~= asked0 + bill.take(1));
                assert(rt.payments() =~= paid0 + bill.take(0));
                return Err(e);
            },
        }
        assert(rt.requested() =~= asked0 + bill);
        assert(rt.payments() =~= paid0 + bill);
        self.move_pixel(pixel_id, buyer);
        let ghost s1 = self@;
        self.events.push(Event::Buy(seller, buyer, pixel_id, price));
        assert(self@.events =~= s1.events.push(EventView::Buy(seller, buyer, pixel_id, price)));
        assert(self@ =~= reported(s1, EventView::Buy(seller, buyer, pixel_id, price)));
        proof {
            lemma_updates_wf(s1, pixel_id, None, None, (0, 0), EventView::Buy(seller, buyer, pixel_id, price));
        }
        Ok(())
    }

    /// Mints `pixel_id` for the signer and reports it.
    pub fn mint_pixel<R: Config>(&mut self, rt: &R, origin: Origin, pixel_id: u32) -> (r: Result<
        (),
        DispatchError,
    >)
        requires
            old(self).wf(),
        ensures
            final(self).wf(),
            !(origin is Signed) ==> r == Err::<(), DispatchError>(DispatchError::BadOrigin),
            origin is Signed && old(self)@.pixels.contains_key(pixel_id) ==> r == Err::<(), DispatchError>(
                DispatchError::Pixel(Error::PixelAlreadyMinted),
            ),
            origin is Signed && !old(self)@.pixels.contains_key(pixel_id) && !can_mint(old(self)@, signer(origin))
                ==> r == Err::<(), DispatchError>(DispatchError::Pixel(Error::ExceedMaxPixelOwned)),
            r is Err ==> final(self)@ == old(self)@,
            origin is Signed && !old(self)@.pixels.contains_key(pixel_id) && can_mint(old(self)@, signer(origin))
                ==> r is Ok && final(self)@ == reported(
                minted(old(self)@, signer(origin), pixel_id, rt.clock()),
                EventView::Minted(signer(origin), seq![pixel_id]),
            ),
    {
        let sender = ensure_signed(origin)?;
        match self.mint(rt, &sender, pixel_id) {
            Ok(()) => {},
            Err(e) => {
                return Err(DispatchError::Pixel(e));
            },
        }
        let ghost s1 = self@;
        let pixel_ids = vec![pixel_id];
        assert(pixel_ids@ =~= seq![pixel_id]);
        self.events.push(Event::Minted(sender, pixel_ids));
        assert(self@.events =~= s1.events.push(EventView::Minted(sender, seq![pixel_id])));
        assert(self@ =~= reported(s1, EventView::Minted(sender, seq![pixel_id])));
        proof {
            lemma_updates_wf(s1, pixel_id, None, None, (0, 0), EventView::Minted(sender, seq![pixel_id]));
        }
        Ok(())
    }

    /// Mints each of `pixel_ids` in turn for the signer and reports them
    /// together. All or none: when one of them cannot be minted, the call
    /// fails with that mint's error (`batch_error`) and nothing changes.
    pub fn batch_mint_pixels<R: Config>(&mut self, rt: &R, origin: Origin, pixel_ids: Vec<u32>) -> (r:
        Result<(), DispatchError>)
        requires
            old(self).wf(),
            pixel_ids.len() <= old(self)@.max_pixel_batch_mint,
        ensures
            final(self).wf(),
            !(origin is Signed) ==> r == Err::<(), DispatchError>(DispatchError::BadOrigin),
            r is Err ==> final(self)@ == old(self)@,
            origin is Signed ==> (batch_error(old(self)@, signer(origin), pixel_ids@, 0) matches Some(e) ==> r
                == Err::<(), DispatchError>(DispatchError::Pixel(e))),
            origin is Signed && batch_error(old(self)@, signer(origin), pixel_ids@, 0) is None ==> r is Ok
                && final(self)@ == reported(
                minted_all(old(self)@, signer(origin), pixel_ids@, rt.clock()),
                EventView::Minted(signer(origin), pixel_ids@),
            ),
    {
        let sender = ensure_signed(origin)?;
        let ghost s0 = self@;
        let ghost date = rt.clock();
        let saved_pixels = self.pixels.clone();
        let saved_owned = self.pixels_owned.clone();
        let n = pixel_ids.len();
        let mut j: usize = 0;
        assert(pixel_ids@.take(0) =~= Seq::<u32>::empty());
        assert(self@.pixels =~= minted_all(s0, sender, pixel_ids@.take(0), date).pixels);
        assert(self@ =~= minted_all(s0, sender, pixel_ids@.take(0), date));
        while j < n
            invariant
                0 <= j <= n,
                n == pixel_ids.len(),
                self.wf(),
                old(self).wf(),
                saved_pixels@ == old(self).pixels@,
                saved_owned@ == old(self).pixels_owned@,
                s0 == old(self)@,
                date == rt.clock(),
                origin == Origin::Signed(sender),
                owned_by(self@, sender).len() == owned_by(s0, sender).len() + j,
                self@ == minted_all(s0, sender, pixel_ids@.take(j as int), date),
                batch_error(s0, sender, pixel_ids@, 0) == batch_error(s0, sender, pixel_ids@, j as int),
            decreases n - j,
        {
            let ghost before = self@;
            let id = pixel_ids[j];
            proof {
                let ids = pixel_ids@.take(j as int);
                assert(before.pixels.contains_key(id) <==> s0.pixels.contains_key(id) || ids.contains(id));
            }
            match self.mint(rt, &sender, id) {
                Ok(()) => {},
                Err(e) => {
                    self.pixels = saved_pixels;
                    self.pixels_owned = saved_owned;
                    assert(self@ =~= s0);
                    return Err(DispatchError::Pixel(e));
                },
            }
            proof {
                broadcast use vstd::seq_lib::group_seq_properties;
                let ids = pixel_ids@.take(j as int);
                let ids1 = pixel_ids@.take(j + 1);
                assert(ids1 =~= ids.push(id));
                let next = minted_all(s0, sender, ids1, date);
                assert forall|k: u32| #[trigger] self@.pixels.contains_key(k) implies next.pixels.contains_key(k)
                    && self@.pixels[k] == next.pixels[k] by {
                    if k == id {
                        assert(ids1.contains(k));
                    } else if ids.contains(k) {
                        assert(ids1.contains(k));
                        assert(self@.pixels[k] == before.pixels[k]);
                    } else {
                        assert(!ids1.contains(k));
                        assert(self@.pixels[k] == before.pixels[k]);
                    }
                }
                assert forall|k: u32| #[trigger] next.pixels.contains_key(k) implies self@.pixels.contains_key(k) by {
                    if k != id && ids1.contains(k) {
                        assert(ids.contains(k));
                    }
                }
                assert(self@.pixels =~= next.pixels);
                assert(owned_by(before, sender) =~= owned_by(s0, sender) + ids);
                assert(self@.pixels_owned =~= next.pixels_owned);
                assert(self@ =~= next);
            }
            j = j + 1;
        }
        assert(pixel_ids@.take(n as int) =~= pixel_ids@);
        let ghost s1 = self@;
        let ghost ids_view = pixel_ids@;
        self.events.push(Event::Minted(sender, pixel_ids));
        assert(self@.events =~= s1.events.push(EventView::Minted(sender, ids_view)));
        assert(self@ =~= reported(s1, EventView::Minted(sender, ids_view)));
        proof {
            lemma_updates_wf(s1, 0, None, None, (0, 0), EventView::Minted(sender, ids_view));
        }
        Ok(())
    }

    /// The pixel stored under `pixel_id`, if minted.
    pub fn pixels(&self, pixel_id: &u32) -> (r: Option<Pixel>)
        ensures
            r is Some <==> self@.pixels.contains_key(*pixel_id),
            r matches Some(p) ==> p@ == self@.pixels[*pixel_id],
    {
        match self.pixels.get(pixel_id) {
            Some(p) => {
                let image = match &p.image {
                    Some(bytes) => Some(bytes.clone()),
                    None => None,
                };
                Some(
                    Pixel {
                        pixel_id: p.pixel_id,
                        image,
                        price: p.price,
                        owner: p.owner,
                        date_minted: p.date_minted,
                    },
                )
            },
            None => None,
        }
    }

    /// The image hung on `pixel_id`, if any.
    pub fn images(&self, pixel_id: &u32) -> (r: Option<Image>)
        ensures
            r is Some <==> self@.images.contains_key(*pixel_id),
            r matches Some(i) ==> i@ == self@.images[*pixel_id],
    {
        match self.images.get(pixel_id) {
            Some(i) => Some(Image { pixel_id: i.pixel_id, url: i.url.clone(), size: i.size }),
            None => None,
        }
    }

    /// The pixels `who` has minted, in order; empty for an account with none.
    pub fn pixels_owned(&self, who: &u64) -> (r: Vec<u32>)
        ensures
            r@ == owned_by(self@, *who),
    {
        match self.pixels_owned.get(who) {
            Some(v) => v.clone(),
            None => Vec::new(),
        }
    }

    /// Everything the registry has reported, oldest first.
    pub fn events(&self) -> (r: &Vec<Event>)
        ensures
            r@.map_values(|e: Event| e@) == self@.events,
    {
        &self.events
    }

    /// Fails unless `origin` is signed by the owner of the minted `pixel_id`.
    fn check_owner(&self, origin: Origin, pixel_id: u32) -> (r: Result<u64, DispatchError>)
        ensures
            owner_check(self@, origin, pixel_id) matches Some(e) ==> r == Err::<u64, DispatchError>(e),
            owner_check(self@, origin, pixel_id) is None ==> r == Ok::<u64, DispatchError>(signer(origin)),
    {
        let sender = ensure_signed(origin)?;
        match self.is_pixel_owner(&pixel_id, &sender) {
            Ok(true) => Ok(sender),
            Ok(false) => Err(DispatchError::Pixel(Error::NotPixelOwner)),
            Err(e) => Err(DispatchError::Pixel(e)),
        }
    }

    /// Sets the price of `pixel_id`; only its owner may.
    pub fn set_price(&mut self, origin: Origin, pixel_id: u32, new_price: Option<u128>) -> (r: Result<
        (),
        DispatchError,
    >)
        requires
            old(self).wf(),
        ensures
            final(self).wf(),
            owner_check(old(self)@, origin, pixel_id) matches Some(e) ==> r == Err::<(), DispatchError>(e)
                && final(self)@ == old(self)@,
            owner_check(old(self)@, origin, pixel_id) is None ==> r is Ok && final(self)@ == reported(
                priced(old(self)@, pixel_id, new_price),
                EventView::PriceSet(signer(origin), pixel_id, new_price),
            ),
            r is Ok ==> final(self)@.pixels.contains_key(pixel_id) && final(self)@.pixels[pixel_id].price
                == new_price && final(self)@.pixels[pixel_id].owner == signer(origin),
    {
        let sender = self.check_owner(origin, pixel_id)?;
        let ghost s0 = self@;
        let mut pixel = self.pixels.remove(&pixel_id).unwrap();
        pixel.price = new_price;
        self.pixels.insert(pixel_id, pixel);
        self.events.push(Event::PriceSet(sender, pixel_id, new_price));
        let ghost expected = reported(
            priced(s0, pixel_id, new_price),
            EventView::PriceSet(sender, pixel_id, new_price),
        );
        assert(self@.pixels =~= expected.pixels);
        assert(self@.events =~= expected.events);
        assert(self@ =~= expected);
        proof {
            let e = EventView::PriceSet(sender, pixel_id, new_price);
            lemma_updates_wf(s0, pixel_id, new_price, None, (0, 0), e);
            lemma_updates_wf(priced(s0, pixel_id, new_price), pixel_id, new_price, None, (0, 0), e);
        }
        Ok(())
    }
}

} // verus!
