//! The engine's global laws, each proved from the operations' contracts
//! and the system invariant: record co-existence, exact reservation
//! accounting, strict bid monotonicity, terminal-state closure, and the
//! submit/remove round trip.

use vstd::prelude::*;
use crate::types::{
    AccountId, Balance, BlockNumber, ClassId, CurrencyId, Error, GlobalId, OrderItem, PerU16,
    TokenId, NATIVE_CURRENCY_ID,
};
use crate::model::{
    esc_contrib, items_qty, led_contrib, led_sum, lowest_price, lemma_led_sum_ge_entry,
};
use crate::auction::{
    bid_err, bid_raise_ok, delete_rel, redeem_err, remove_err, submit_err, submit_ok, Pallet,
};

verus! {

/// An Auction record exists if and only if a Bid record exists for the
/// same id: both live in one store entry, so a lookup by owner implies a
/// bid record under the id, and a bid record implies an auction record
/// under the entry's owner.
pub proof fn lemma_auction_bid_coexist(p: &Pallet, owner: AccountId, auction_id: GlobalId)
    requires
        p.inv(),
    ensures
        p.has_auction(owner, auction_id) ==> p.has_auction_id(auction_id),
        p.has_auction_id(auction_id) ==> exists|o: AccountId| p.has_auction(o, auction_id),
{
    if p.has_auction_id(auction_id) {
        let i = choose|i: int| 0 <= i < p.store.s().len() && p.store.s()[i].id == auction_id;
        let o = p.store.s()[i].owner;
        assert(p.has_auction(o, auction_id));
    }
}

/// After any successful bid, the currency reserved for that auction is
/// exactly `last_offer_price`, held by exactly `last_offer_account`: no
/// other account contributes a bid reservation for this auction, the
/// bidder's real ledger reservation covers the offer, and every account's
/// reservation is exactly the sum of what the live auctions (current
/// offers plus native-currency deposits) account for.
pub proof fn lemma_bid_reservation_exact(p: &Pallet, i: int, acct: AccountId)
    requires
        p.inv(),
        0 <= i < p.store.s().len(),
        p.store.s()[i].bid.last_offer_account == Some(acct),
    ensures
        p.ledger.reserved_of(acct, p.store.s()[i].auction.currency_id)
            >= p.store.s()[i].bid.last_offer_price,
        forall|a2: AccountId, c2: CurrencyId|
            (#[trigger] p.ledger.reserved_of(a2, c2)) as int == led_sum(p.store.s(), a2, c2),
        // this auction accounts for the full offer from its bidder ...
        led_contrib(p.store.s()[i], acct, p.store.s()[i].auction.currency_id)
            >= p.store.s()[i].bid.last_offer_price,
        // ... and for no bid reservation from anyone else, only the
        // seller's native-currency deposit
        forall|a2: AccountId, c2: CurrencyId|
            a2 != acct ==> led_contrib(p.store.s()[i], a2, c2) == (
            if p.store.s()[i].owner == a2 && c2 == NATIVE_CURRENCY_ID {
                p.store.s()[i].auction.deposit as int
            } else {
                0
            }),
{
    let e = p.store.s()[i];
    let c = e.auction.currency_id;
    assert(p.ledger.reserved_of(acct, c) as int == led_sum(p.store.s(), acct, c));
    lemma_led_sum_ge_entry(p.store.s(), i, acct, c);
}

/// An accepted raise strictly exceeds the previous offer: the lowest
/// acceptable price is at least the previous offer, and acceptance is
/// strict.
pub proof fn lemma_raise_strictly_increases(
    w: &Pallet,
    purchaser: AccountId,
    price: Balance,
    owner: AccountId,
    auction_id: GlobalId,
    i: int,
)
    requires
        w.inv(),
        0 <= i < w.store.s().len(),
        w.store.s()[i].id == auction_id,
        w.store.s()[i].owner == owner,
        bid_err(w, purchaser, price, owner, auction_id) is None,
        !(w.store.s()[i].auction.hammer_price > 0 && price
            >= w.store.s()[i].auction.hammer_price),
    ensures
        price > w.store.s()[i].bid.last_offer_price,
{
    let e = w.store.s()[i];
    assert(w.has_auction_id(auction_id));
    let j = choose|j: int| 0 <= j < w.store.s().len() && w.store.s()[j].id == auction_id;
    assert(j == i);
    assert(price > lowest_price(e.bid.last_offer_price, e.auction.min_raise));
}

/// Across a sequence of accepted non-hammer bids on one auction, the
/// offer price strictly increases: two consecutive accepted raises give
/// strictly increasing prices over the offer they started from.
pub proof fn lemma_bid_sequence_monotonic(
    w0: &Pallet,
    w1: &Pallet,
    w2: &Pallet,
    buyer1: AccountId,
    price1: Balance,
    buyer2: AccountId,
    price2: Balance,
    owner: AccountId,
    auction_id: GlobalId,
    i: int,
)
    requires
        w0.inv(),
        w1.inv(),
        0 <= i < w0.store.s().len(),
        w0.store.s()[i].id == auction_id,
        w0.store.s()[i].owner == owner,
        bid_err(w0, buyer1, price1, owner, auction_id) is None,
        bid_raise_ok(w0, w1, buyer1, price1, auction_id, i),
        bid_err(w1, buyer2, price2, owner, auction_id) is None,
        bid_raise_ok(
            w1,
            w2,
            buyer2,
            price2,
            auction_id,
            w1.store.s().len() - 1,
        ),
        !(w1.store.s()[w1.store.s().len() - 1].auction.hammer_price > 0 && price2
            >= w1.store.s()[w1.store.s().len() - 1].auction.hammer_price),
    ensures
        w0.store.s()[i].bid.last_offer_price < price1,
        price1 < price2,
{
    lemma_raise_strictly_increases(w0, buyer1, price1, owner, auction_id, i);
    let e1 = w1.store.s().last();
    assert(e1.id == auction_id);
    assert(e1.owner == owner);
    assert(e1.bid.last_offer_price == price1);
    lemma_raise_strictly_increases(
        w1,
        buyer2,
        price2,
        owner,
        auction_id,
        w1.store.s().len() - 1,
    );
}

/// Once an auction is deleted (hammer, redeem or remove all shrink the
/// store by its entry), its id is gone, and every further bid, redeem or
/// remove call on that id reports it as not found. The id is never
/// reused, because the allocator's counter only grows past it.
pub proof fn lemma_terminal_not_found(
    p: &Pallet,
    purchaser: AccountId,
    price: Balance,
    owner: AccountId,
    auction_id: GlobalId,
)
    requires
        p.inv(),
        !p.has_auction_id(auction_id),
    ensures
        bid_err(p, purchaser, price, owner, auction_id) == Some(Error::BritishAuctionNotFound),
        redeem_err(p, owner, auction_id) == Some(Error::BritishAuctionBidNotFound),
        remove_err(p, owner, auction_id) == Some(Error::BritishAuctionBidNotFound),
{
}

/// Deleting entry `i` removes its id from the store: no other entry holds
/// it.
pub proof fn lemma_deleted_id_gone(w0: &Pallet, w1: &Pallet, i: int)
    requires
        w0.inv(),
        0 <= i < w0.store.s().len(),
        w1.store.s() == w0.store.s().remove(i),
    ensures
        !w1.has_auction_id(w0.store.s()[i].id),
{
    let s0 = w0.store.s();
    let s1 = w1.store.s();
    let id = s0[i].id;
    assert forall|j: int| 0 <= j < s1.len() implies (#[trigger] s1[j]).id != id by {
        let j0 = if j < i {
            j
        } else {
            j + 1
        };
        assert(s1[j] == s0[j0]);
    }
}

/// Round trip: submission reserves exactly the deposit and the lot
/// quantities, and removing the still-unbid auction releases exactly
/// them, so every balance, every quantity and every category count
/// returns to its pre-submission value.
pub proof fn lemma_submit_remove_round_trip(
    w0: &Pallet,
    w1: &Pallet,
    w2: &Pallet,
    who: AccountId,
    currency_id: CurrencyId,
    hammer_price: Balance,
    min_raise: PerU16,
    deposit: Balance,
    init_price: Balance,
    deadline: BlockNumber,
    allow_delay: bool,
    category_id: GlobalId,
    items: Seq<OrderItem>,
    i: int,
)
    requires
        w0.inv(),
        w1.inv(),
        submit_err(w0, who, hammer_price, deposit, init_price, deadline, category_id, items)
            is None,
        submit_ok(
            w0,
            w1,
            who,
            currency_id,
            hammer_price,
            min_raise,
            deposit,
            init_price,
            deadline,
            allow_delay,
            category_id,
            items,
        ),
        0 <= i < w1.store.s().len(),
        w1.store.s()[i].id == w0.alloc.next_id_spec(),
        delete_rel(w1, w2, i),
    ensures
        forall|a: AccountId, c: CurrencyId|
            #[trigger] w2.ledger.free_of(a, c) == w0.ledger.free_of(a, c),
        forall|a: AccountId, c: CurrencyId|
            #[trigger] w2.ledger.reserved_of(a, c) == w0.ledger.reserved_of(a, c),
        forall|a: AccountId, cl: ClassId, t: TokenId|
            #[trigger] w2.escrow.free_of(a, cl, t) == w0.escrow.free_of(a, cl, t),
        forall|a: AccountId, cl: ClassId, t: TokenId|
            #[trigger] w2.escrow.reserved_of(a, cl, t) == w0.escrow.reserved_of(a, cl, t),
        forall|g: GlobalId| #[trigger] w2.alloc.count_of(g) == w0.alloc.count_of(g),
{
    let s1 = w1.store.s();
    let e = s1[i];
    let id = w0.alloc.next_id_spec();
    // the deleted entry is the submitted one: the old entries' ids are
    // all below the issued id
    assert(s1.last() == s1[s1.len() - 1]);
    if i != s1.len() - 1 {
        assert(s1.drop_last()[i] == s1[i]);
        assert(w0.store.s()[i].id < id);
        assert(false);
    }
    assert(e == s1.last());
    assert(e.auction.deposit == deposit);
    assert(e.auction.items@ == items);
    assert(e.owner == who);
    assert(e.bid.last_offer_account is None);
    assert(w0.ledger.free_of(who, NATIVE_CURRENCY_ID) >= deposit);
    crate::ledger::lemma_position_bounded(&w0.ledger, who, NATIVE_CURRENCY_ID);
    assert forall|a: AccountId, c: CurrencyId|
        #[trigger] w2.ledger.reserved_of(a, c) == w0.ledger.reserved_of(a, c) by {
        assert(w2.ledger.reserved_of(a, c) as int == w1.ledger.reserved_of(a, c) - led_contrib(
            e,
            a,
            c,
        ));
    }
    assert forall|a: AccountId, c: CurrencyId|
        #[trigger] w2.ledger.free_of(a, c) == w0.ledger.free_of(a, c) by {
        assert(w2.ledger.free_of(a, c) as int == w1.ledger.free_of(a, c) + led_contrib(e, a, c));
    }
    assert forall|a: AccountId, cl: ClassId, t: TokenId|
        #[trigger] w2.escrow.free_of(a, cl, t) == w0.escrow.free_of(a, cl, t) by {
        assert(w2.escrow.free_of(a, cl, t) as int == w1.escrow.free_of(a, cl, t) + esc_contrib(
            e,
            a,
            cl,
            t,
        ));
        if a == who {
            assert(w1.escrow.free_of(who, cl, t) as int == w0.escrow.free_of(who, cl, t)
                - items_qty(items, cl, t));
        } else {
            assert(w1.escrow.free_of(a, cl, t) == w0.escrow.free_of(a, cl, t));
        }
    }
    assert forall|a: AccountId, cl: ClassId, t: TokenId|
        #[trigger] w2.escrow.reserved_of(a, cl, t) == w0.escrow.reserved_of(a, cl, t) by {
        assert(w2.escrow.reserved_of(a, cl, t) as int == w1.escrow.reserved_of(a, cl, t)
            - esc_contrib(e, a, cl, t));
        if a == who {
            assert(w1.escrow.reserved_of(who, cl, t) as int == w0.escrow.reserved_of(who, cl, t)
                + items_qty(items, cl, t));
        } else {
            assert(w1.escrow.reserved_of(a, cl, t) == w0.escrow.reserved_of(a, cl, t));
        }
    }
    assert forall|g: GlobalId| #[trigger] w2.alloc.count_of(g) == w0.alloc.count_of(g) by {
    }
}

} // verus!
