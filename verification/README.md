# pixel_billboard

A pixel billboard with a lottery on top, verified with Verus.

* `pixel` — the pixel registry: accounts mint pixels (each pixel once, each
  account up to a limit, batches all or none), set their price, hang images
  on them and buy them from one another. The list of pixels
  kept for an account is exactly the pixels it owns.
* `lottery` — rounds of betting on pixels. A pick pays a price per chosen
  sub-pixel, 5% to the pixel's owner and the rest to the pot, and is
  recorded under its pixel, each of its sub-pixels and its account. When a
  round's payout block is reached a winning pixel is drawn at random among
  the pixels of the map, the pot is shared between its owner (5%) and the
  accounts that picked it (equal shares of the rest), and the next round
  starts.
* `subpixels` — sub-pixel choices are bit sets in a `u128`.
* `dispatch` — origins, errors, the payments a runtime carries out and the
  weight a block hook reports.
* `scale` — the SCALE encodings used for randomness subjects and account ids,
  through `parity-scale-codec`.

Accounts are `u64`, balances `u128`, block numbers and times `u64`. The
runtime around each pallet (clock, block height, currency, randomness,
manager authority, pixel owners, storage transactions) is the `Config`
trait of the pallet, implemented by the embedding runtime. Its contract
describes the currency by the record of payments it has carried out; the
contracts of the pallets say which payments each call asks for (the pick
fee, the pot top-up, the payout, the price of a pixel), while the balances
themselves belong to the runtime.

Every storage change is stated over a view of the pallet (`PixelState`,
`LotteryState`) and the invariants (`Pallet::wf`) are kept by every call.
