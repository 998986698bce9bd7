//! A pixel billboard: owners mint pixels of a shared map, and a lottery
//! lets players bet on pixels and their sub-pixels each round.
//!
//! `pixel` holds the pixel registry, `lottery` the betting rounds and
//! their payouts, `subpixels` the bit sets that name sub-pixels,
//! `dispatch` the origins, errors and payments of calls, and `scale` the byte
//! encodings the lottery uses.

pub mod dispatch;
pub mod lottery;
pub mod pixel;
pub mod scale;
pub mod subpixels;
