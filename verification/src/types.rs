//! Core scalar types of the auction engine: amounts, identifiers, the
//! fixed-point percentage type used for the minimum-raise policy, and the
//! saturating arithmetic helpers that all amount arithmetic goes through.

use vstd::prelude::*;

verus! {

/// A fungible amount (free balance, reserved balance, price, deposit).
pub type Balance = u128;
/// An account on the ledger.
pub type AccountId = u64;
/// A fungible currency identifier.
pub type CurrencyId = u32;
/// A block height.
pub type BlockNumber = u64;
/// A globally unique identifier (auction ids and category ids share one
/// allocator).
pub type GlobalId = u64;
/// An asset class identifier.
pub type ClassId = u32;
/// An asset token identifier within a class.
pub type TokenId = u32;
/// A quantity of one asset token.
pub type Quantity = u64;

/// The currency in which the seller's deposit is reserved.
pub const NATIVE_CURRENCY_ID: CurrencyId = 0;

/// The denominator of the `PerU16` fixed-point type.
pub const PER_U16_ACCURACY: u16 = 65535;

/// `a + b`, clamped at `u128::MAX`.
pub open spec fn sat_add_u128(a: u128, b: u128) -> u128 {
    if a + b > u128::MAX {
        u128::MAX
    } else {
        (a + b) as u128
    }
}

/// `a + b`, clamped at `u64::MAX`.
pub open spec fn sat_add_u64(a: u64, b: u64) -> u64 {
    if a + b > u64::MAX {
        u64::MAX
    } else {
        (a + b) as u64
    }
}

/// Saturating addition on balances.
pub fn saturating_add_u128(a: u128, b: u128) -> (r: u128)
    ensures
        r == sat_add_u128(a, b),
{
    if a <= u128::MAX - b {
        a + b
    } else {
        u128::MAX
    }
}

/// Saturating addition on block heights.
pub fn saturating_add_u64(a: u64, b: u64) -> (r: u64)
    ensures
        r == sat_add_u64(a, b),
{
    if a <= u64::MAX - b {
        a + b
    } else {
        u64::MAX
    }
}

/// A fraction with 1/65535 granularity, the fixed-point type of the
/// minimum-raise policy. `parts` out of 65535 is the fraction's value.
#[derive(Clone, Copy, Debug, PartialEq, Eq, Structural)]
pub struct PerU16 {
    pub parts: u16,
}

/// `ceil(b * parts / 65535)`: the ceiling product of a fraction and an
/// amount. Rounding up guarantees that a bidder cannot undercut the
/// minimum raise by a sub-unit fraction.
pub open spec fn per_u16_mul_ceil(parts: u16, b: u128) -> int {
    (b * parts + (PER_U16_ACCURACY - 1)) / (PER_U16_ACCURACY as int)
}

impl PerU16 {
    /// The zero fraction.
    pub fn zero() -> (r: PerU16)
        ensures
            r.parts == 0,
    {
        PerU16 { parts: 0 }
    }

    /// The fraction holding `parts` 65535-ths.
    pub fn from_parts(parts: u16) -> (r: PerU16)
        ensures
            r.parts == parts,
    {
        PerU16 { parts }
    }

    /// `x` percent, clamped at 100, rounded down to the 1/65535 grid.
    pub fn from_percent(x: u16) -> (r: PerU16)
        ensures
            r.parts == (if x > 100 { 100int } else { x as int }) * PER_U16_ACCURACY / 100,
    {
        let capped: u16 = if x > 100 {
            100
        } else {
            x
        };
        let parts: u32 = (capped as u32) * (PER_U16_ACCURACY as u32) / 100;
        PerU16 { parts: parts as u16 }
    }

    /// `ceil(self * b)`, never larger than `b`.
    pub fn mul_ceil(self, b: u128) -> (r: u128)
        ensures
            r == per_u16_mul_ceil(self.parts, b),
            r <= b,
    {
        let acc: u128 = PER_U16_ACCURACY as u128;
        let q: u128 = b / acc;
        let rem: u128 = b % acc;
        let p: u128 = self.parts as u128;
        proof {
            assert(q * p <= q * 65535) by (nonlinear_arith)
                requires
                    p <= 65535,
                    q >= 0,
            ;
            assert(q * 65535 + rem == b) by (nonlinear_arith)
                requires
                    q == b / 65535,
                    rem == b % 65535,
                    b >= 0,
            ;
            assert(rem * p <= 65534 * 65535) by (nonlinear_arith)
                requires
                    rem <= 65534,
                    p <= 65535,
            ;
        }
        let low: u128 = (rem * p + (acc - 1)) / acc;
        proof {
            lemma_mul_ceil_split(q as int, rem as int, p as int);
            assert(low <= rem) by (nonlinear_arith)
                requires
                    low == (rem * p + 65534) / 65535,
                    0 <= rem <= 65534,
                    0 <= p <= 65535,
            ;
            assert(q * p + low <= b);
        }
        let r: u128 = q * p + low;
        r
    }
}

/// Splitting `b = 65535*q + rem` distributes through the ceiling product:
/// `ceil((65535*q + rem) * p / 65535) == q*p + ceil(rem * p / 65535)`.
proof fn lemma_mul_ceil_split(q: int, rem: int, p: int)
    requires
        0 <= q,
        0 <= rem < 65535,
        0 <= p <= 65535,
    ensures
        ((65535 * q + rem) * p + 65534) / 65535 == q * p + (rem * p + 65534) / 65535,
{
    assert((65535 * q + rem) * p + 65534 == 65535 * (q * p) + (rem * p + 65534)) by (nonlinear_arith);
    lemma_div_shift(q * p, rem * p + 65534);
    assert(q * p >= 0) by (nonlinear_arith)
        requires
            q >= 0,
            p >= 0,
    ;
    assert(rem * p >= 0) by (nonlinear_arith)
        requires
            rem >= 0,
            p >= 0,
    ;
}

/// `(65535*x + y) / 65535 == x + y / 65535` for non-negative `x`, `y`.
proof fn lemma_div_shift(x: int, y: int)
    requires
        0 <= x,
        0 <= y,
    ensures
        (65535 * x + y) / 65535 == x + y / 65535,
{
    assert((65535 * x + y) / 65535 == x + y / 65535) by (nonlinear_arith)
        requires
            0 <= x,
            0 <= y,
    ;
}

/// One lot being sold in an auction: a quantity of one asset token.
#[derive(Clone, Copy, Debug, PartialEq, Eq, Structural)]
pub struct OrderItem {
    pub class_id: ClassId,
    pub token_id: TokenId,
    pub quantity: Quantity,
}

/// The error taxonomy of the engine. The first eleven variants are the
/// engine's own validation, not-found and state errors; the rest surface
/// failures of the collaborating ledger, escrow and allocator services.
#[derive(Clone, Copy, Debug, PartialEq, Eq, Structural)]
pub enum Error {
    /// Submitted deposit is below the minimum-deposit policy.
    SubmitWithInvalidDeposit,
    /// Submitted deadline is not in the future.
    SubmitWithInvalidDeadline,
    /// More than one lot in the submitted list is royalty-bearing.
    TooManyTokenChargedRoyalty,
    /// A non-zero hammer price does not exceed the initial price.
    InvalidHammerPrice,
    /// No auction under this owner and id.
    BritishAuctionNotFound,
    /// No bid record under this auction id.
    BritishAuctionBidNotFound,
    /// The effective deadline has passed; no further bids are accepted.
    BritishAuctionClosed,
    /// The offered price does not exceed the lowest acceptable raise.
    PriceTooLow,
    /// A bid exists, so the auction cannot be removed.
    CannotRemoveAuction,
    /// The effective deadline has not passed, so the auction cannot be
    /// redeemed.
    CannotRedeemAuction,
    /// The current highest bidder may not outbid themselves.
    DuplicatedBid,
    /// A lot's quantity is zero.
    InvalidQuantity,
    /// A lot refers to a token the escrow does not know.
    TokenIdNotFound,
    /// The submitted category does not exist.
    CategoryNotFound,
    /// The ledger cannot reserve or transfer: the free balance is too low.
    InsufficientBalance,
    /// The escrow cannot reserve: the free quantity is too low.
    InsufficientQuantity,
    /// The allocator ran out of ids, or a balance or quantity bound would
    /// be exceeded.
    ArithmeticOverflow,
}

/// How a successful bid resolved: an accepted raise, or an instant hammer
/// settlement that ended the auction.
#[derive(Clone, Copy, Debug, PartialEq, Eq, Structural)]
pub enum BidOutcome {
    Accepted,
    Hammered,
}

/// Domain events, one per successful operation, carrying the acting account
/// and the auction id.
#[derive(Clone, Copy, Debug, PartialEq, Eq, Structural)]
pub enum Event {
    CreatedBritishAuction(AccountId, GlobalId),
    RemovedBritishAuction(AccountId, GlobalId),
    RedeemedBritishAuction(AccountId, GlobalId),
    BidBritishAuction(AccountId, GlobalId),
    HammerBritishAuction(AccountId, GlobalId),
}

} // verus!
