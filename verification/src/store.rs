//! The auction store: the persisted auction and bid records. Both records
//! of one auction live in a single entry keyed by the auction id, so an
//! auction record exists if and only if its bid record does.

use vstd::prelude::*;
use crate::types::{AccountId, Balance, BlockNumber, CurrencyId, GlobalId, OrderItem, PerU16};

verus! {

/// An auction record, as configured by its seller at submission.
#[derive(Debug)]
pub struct BritishAuction {
    /// The currency bids are denominated in.
    pub currency_id: CurrencyId,
    /// An instant-settlement price; zero disables the hammer path.
    pub hammer_price: Balance,
    /// The minimum fractional raise over the previous offer.
    pub min_raise: PerU16,
    /// The seller's collateral, reserved for the auction's lifetime.
    pub deposit: Balance,
    /// The starting price; the synthetic initial bid record carries it.
    pub init_price: Balance,
    /// The height after which no further bids are accepted.
    pub deadline: BlockNumber,
    /// If true, the effective deadline is extended past the last offer.
    pub allow_delay: bool,
    /// The category this auction is counted under.
    pub category_id: GlobalId,
    /// The lots being sold.
    pub items: Vec<OrderItem>,
}

/// A bid record: the current highest offer on one auction.
#[derive(Clone, Copy, Debug, PartialEq, Eq, Structural)]
pub struct BritishAuctionBid {
    /// The highest reserved offer so far; starts at the initial price.
    pub last_offer_price: Balance,
    /// The current highest bidder; absent before any real bid.
    pub last_offer_account: Option<AccountId>,
    /// The height of the current highest offer; zero before any real bid.
    pub last_offer_block: BlockNumber,
}

/// One store entry: an auction and its bid record, under one id and owner.
#[derive(Debug)]
pub struct StoreEntry {
    pub id: GlobalId,
    pub owner: AccountId,
    pub auction: BritishAuction,
    pub bid: BritishAuctionBid,
}

/// The auction store.
pub struct AuctionStore {
    entries: Vec<StoreEntry>,
}

/// Whether an entry with id `id` exists in `s`.
pub open spec fn contains_id(s: Seq<StoreEntry>, id: GlobalId) -> bool {
    exists|i: int| 0 <= i < s.len() && s[i].id == id
}

/// Whether the entries of `s` have pairwise distinct ids.
pub open spec fn ids_unique(s: Seq<StoreEntry>) -> bool {
    forall|i: int, j: int| 0 <= i < j < s.len() ==> s[i].id != s[j].id
}

/// Field-wise equality of two auction records.
pub open spec fn auction_matches(x: &BritishAuction, y: &BritishAuction) -> bool {
    &&& x.currency_id == y.currency_id
    &&& x.hammer_price == y.hammer_price
    &&& x.min_raise == y.min_raise
    &&& x.deposit == y.deposit
    &&& x.init_price == y.init_price
    &&& x.deadline == y.deadline
    &&& x.allow_delay == y.allow_delay
    &&& x.category_id == y.category_id
    &&& x.items@ == y.items@
}

/// A fresh copy of a lot list.
pub fn copy_items(src: &Vec<OrderItem>) -> (r: Vec<OrderItem>)
    ensures
        r@ == src@,
{
    let mut r: Vec<OrderItem> = Vec::new();
    let n = src.len();
    let mut i: usize = 0;
    while i < n
        invariant
            n == src@.len(),
            i <= n,
            r@ == src@.take(i as int),
        decreases n - i,
    {
        r.push(src[i]);
        proof {
            assert(r@ =~= src@.take(i + 1));
        }
        i = i + 1;
    }
    proof {
        assert(src@.take(n as int) =~= src@);
    }
    r
}

/// A fresh copy of an auction record.
pub fn copy_auction(src: &BritishAuction) -> (r: BritishAuction)
    ensures
        auction_matches(&r, src),
{
    BritishAuction {
        currency_id: src.currency_id,
        hammer_price: src.hammer_price,
        min_raise: src.min_raise,
        deposit: src.deposit,
        init_price: src.init_price,
        deadline: src.deadline,
        allow_delay: src.allow_delay,
        category_id: src.category_id,
        items: copy_items(&src.items),
    }
}

impl AuctionStore {
    /// The store's entries, in insertion order.
    pub closed spec fn s(&self) -> Seq<StoreEntry> {
        self.entries@
    }

    /// Well-formed: ids are pairwise distinct.
    pub open spec fn wf(&self) -> bool {
        ids_unique(self.s())
    }

    /// An empty store.
    pub fn new() -> (r: AuctionStore)
        ensures
            r.wf(),
            r.s() == Seq::<StoreEntry>::empty(),
    {
        AuctionStore { entries: Vec::new() }
    }

    /// The number of live auctions.
    pub fn len(&self) -> (r: usize)
        ensures
            r == self.s().len(),
    {
        self.entries.len()
    }

    /// The index of the entry with id `id`, if one exists; its id is held
    /// by no other entry.
    pub fn get_index(&self, id: GlobalId) -> (r: Option<usize>)
        requires
            self.wf(),
        ensures
            match r {
                Some(i) => {
                    &&& i < self.s().len()
                    &&& self.s()[i as int].id == id
                    &&& forall|j: int| 0 <= j < self.s().len() && self.s()[j].id == id ==> j == i
                },
                None => !contains_id(self.s(), id),
            },
    {
        let n = self.entries.len();
        let mut i: usize = 0;
        while i < n
            invariant
                n == self.s().len(),
                i <= n,
                self.wf(),
                forall|j: int| 0 <= j < i ==> self.s()[j].id != id,
            decreases n - i,
        {
            if self.entries[i].id == id {
                return Some(i);
            }
            i = i + 1;
        }
        None
    }

    /// Borrow the entry at index `i`.
    pub fn entry_at(&self, i: usize) -> (r: &StoreEntry)
        requires
            i < self.s().len(),
        ensures
            *r == self.s()[i as int],
    {
        &self.entries[i]
    }

    /// Add an entry under a fresh id.
    pub fn insert(&mut self, e: StoreEntry)
        requires
            old(self).wf(),
            !contains_id(old(self).s(), e.id),
        ensures
            final(self).wf(),
            final(self).s() == old(self).s().push(e),
    {
        self.entries.push(e);
        proof {
            assert forall|i: int, j: int|
                0 <= i < j < self.s().len() implies self.s()[i].id != self.s()[j].id by {
                if j == self.s().len() - 1 {
                    assert(!(old(self).s()[i].id == e.id));
                }
            }
        }
    }

    /// Take the entry at index `i` out of the store.
    pub fn remove_at(&mut self, i: usize) -> (r: StoreEntry)
        requires
            old(self).wf(),
            i < old(self).s().len(),
        ensures
            final(self).wf(),
            r == old(self).s()[i as int],
            final(self).s() == old(self).s().remove(i as int),
    {
        let r = self.entries.remove(i);
        proof {
            let s0 = old(self).s();
            let s1 = self.s();
            assert forall|x: int, y: int|
                0 <= x < y < s1.len() implies s1[x].id != s1[y].id by {
                let x0 = if x < i {
                    x
                } else {
                    x + 1
                };
                let y0 = if y < i {
                    y
                } else {
                    y + 1
                };
                assert(s1[x] == s0[x0] && s1[y] == s0[y0]);
            }
        }
        r
    }
}

} // verus!
