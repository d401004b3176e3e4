//! Off-chain previews of taker orders against an order-book ladder, and
//! decoding of the binary order packets of the exchange in both the current
//! and the deprecated wire layout.

pub mod ladder;
pub mod packet;
pub mod wire;
