//! A verified English ("British") auction engine for bundles of non-fungible
//! asset lots.
//!
//! A seller locks one or more asset lots plus a refundable deposit, buyers
//! place strictly increasing bids (each bid reserving funds until outbid), and
//! an auction resolves either by an instant "hammer" price, by deadline expiry
//! with redemption by the highest bidder, or by cancellation while unbid.
//!
//! The engine interleaves three resources that must stay reconciled under
//! every success and failure path: the seller's native-currency deposit, the
//! bidders' auction-currency reservations, and the asset-quantity
//! reservations held in escrow. The collaborating services (a multi-currency
//! ledger, an asset escrow, and an id/category allocator) are modelled as
//! plain state owned by the engine, so that the reconciliation invariants are
//! stated and proved over the whole system.

pub mod types;
pub mod ledger;
pub mod escrow;
pub mod allocator;
pub mod store;
pub mod model;
pub mod auction;
pub mod laws;

pub use auction::Pallet;
pub use store::{BritishAuction, BritishAuctionBid};
pub use types::{BidOutcome, Error, Event, OrderItem, PerU16, NATIVE_CURRENCY_ID};
