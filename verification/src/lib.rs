//! A combinatorial auction engine: bid validation, winner determination,
//! proportional asset allocation, iterative clock-auction price discovery,
//! Vickrey-Clarke-Groves payments, and settlement against bidder balances.
//!
//! All monetary amounts are integers in a single currency unit. Quantities
//! and bid fractions are integers scaled by [`model::FRACTION_SCALE`]:
//! a fraction of one half is `FRACTION_SCALE / 2`, and an asset quantity of
//! two whole units is `2 * FRACTION_SCALE`.

pub mod assoc;
pub mod cca_auction;
pub mod clearing;
pub mod helpers;
pub mod model;
pub mod simple_auction;
pub mod vcg_auction;
pub mod wdp;
