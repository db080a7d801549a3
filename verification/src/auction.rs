//! The auction lifecycle engine: submission, bidding, hammer settlement,
//! redemption and removal, over the ledger, escrow, allocator and auction
//! store that the engine owns.
//!
//! The engine's invariant reconciles the three resources: every ledger
//! reservation, every escrow reservation and every category count is
//! accounted for exactly by the live auctions.
//!
//! Every operation is all-or-nothing: it validates before it mutates (or
//! undoes the few reservations it made before a late failure), so a failed
//! call leaves the state exactly as it found it, which each operation's
//! error case states.

use vstd::prelude::*;
use crate::types::{
    AccountId, Balance, BlockNumber, ClassId, CurrencyId, Error, Event, GlobalId, OrderItem,
    PerU16, Quantity, TokenId, NATIVE_CURRENCY_ID, saturating_add_u128, saturating_add_u64,
};
use crate::ledger::{Ledger, Position, lemma_position_bounded};
use crate::escrow::{Escrow, Holding, TokenInfo};
use crate::allocator::Allocator;
use crate::store::{
    AuctionStore, BritishAuction, BritishAuctionBid, StoreEntry, auction_matches, contains_id,
    copy_auction,
};
use crate::model::{
    cat_sum, effective_deadline, esc_contrib, esc_sum, items_qty, led_contrib,
    led_sum, lots_available, lowest_price, royalty_count, scan_items_from, lemma_scan_ok,
    lemma_cat_sum_absent,
    lemma_cat_sum_ge_entry, lemma_cat_sum_le_len, lemma_cat_sum_push, lemma_cat_sum_remove,
    lemma_esc_sum_ge_entry, lemma_esc_sum_push, lemma_esc_sum_remove, lemma_items_qty_nonneg,
    lemma_items_qty_take_all, lemma_items_qty_take_mono, lemma_items_qty_take_step,
    lemma_led_sum_ge_entry, lemma_led_sum_push, lemma_led_sum_remove,
    lemma_royalty_count_same, lemma_steps_imply_available,
};

verus! {

/// Whether one auction's lot list is consistent with the escrow: at most
/// one royalty-bearing lot, every lot's token registered, every quantity
/// positive.
pub open spec fn entry_items_ok(esc: Escrow, e: StoreEntry) -> bool {
    &&& royalty_count(esc, e.auction.items@) <= 1
    &&& forall|k: int|
        0 <= k < e.auction.items@.len() ==> esc.has_token(
            (#[trigger] e.auction.items@[k]).class_id,
            e.auction.items@[k].token_id,
        )
    &&& forall|k: int|
        0 <= k < e.auction.items@.len() ==> (#[trigger] e.auction.items@[k]).quantity >= 1
}

/// The auction lifecycle engine and the state it owns.
pub struct Pallet {
    /// The multi-currency ledger.
    pub ledger: Ledger,
    /// The asset escrow and token registry.
    pub escrow: Escrow,
    /// The id/category allocator and policy parameters.
    pub alloc: Allocator,
    /// The live auctions, each with its bid record.
    pub store: AuctionStore,
    /// The current block height.
    pub block_number: BlockNumber,
    /// The emitted domain events, oldest first.
    pub events: Vec<Event>,
}

impl Pallet {
    /// The system invariant: the components are well-formed, auction ids
    /// were issued by the allocator, every auction's category exists, the
    /// lot lists are consistent with the escrow, and each reservation and
    /// category count is accounted for exactly by the live auctions.
    pub open spec fn inv(&self) -> bool {
        &&& self.ledger.wf()
        &&& self.escrow.wf()
        &&& self.alloc.wf()
        &&& self.store.wf()
        &&& forall|i: int|
            0 <= i < self.store.s().len() ==> #[trigger] self.store.s()[i].id
                < self.alloc.next_id_spec()
        &&& forall|i: int|
            0 <= i < self.store.s().len() ==> self.alloc.has_category(
                (#[trigger] self.store.s()[i]).auction.category_id,
            )
        &&& forall|i: int|
            0 <= i < self.store.s().len() ==> entry_items_ok(
                self.escrow,
                #[trigger] self.store.s()[i],
            )
        &&& forall|a: AccountId, c: CurrencyId|
            (#[trigger] self.ledger.reserved_of(a, c)) as int == led_sum(self.store.s(), a, c)
        &&& forall|a: AccountId, cl: ClassId, t: TokenId|
            (#[trigger] self.escrow.reserved_of(a, cl, t)) as int == esc_sum(
                self.store.s(),
                a,
                cl,
                t,
            )
        &&& forall|g: GlobalId|
            (#[trigger] self.alloc.count_of(g)) as int == cat_sum(self.store.s(), g)
    }

    /// Whether an auction with id `id` exists.
    pub open spec fn has_auction_id(&self, id: GlobalId) -> bool {
        contains_id(self.store.s(), id)
    }

    /// Whether an auction with id `id` owned by `owner` exists.
    pub open spec fn has_auction(&self, owner: AccountId, id: GlobalId) -> bool {
        exists|i: int|
            0 <= i < self.store.s().len() && self.store.s()[i].id == id && self.store.s()[i].owner
                == owner
    }

    /// A fresh engine with the given policy parameters and no state.
    pub fn new(min_deposit: Balance, auction_delay: BlockNumber) -> (r: Pallet)
        ensures
            r.inv(),
            r.store.s() == Seq::<StoreEntry>::empty(),
            r.ledger.m() == Map::<(AccountId, CurrencyId), Position>::empty(),
            r.escrow.holds_m() == Map::<(AccountId, ClassId, TokenId), Holding>::empty(),
            r.escrow.tokens_m() == Map::<(ClassId, TokenId), TokenInfo>::empty(),
            r.alloc.cats_m() == Map::<GlobalId, u128>::empty(),
            r.alloc.next_id_spec() == 0,
            r.alloc.min_deposit_spec() == min_deposit,
            r.alloc.delay_spec() == auction_delay,
            r.block_number == 0,
            r.events@ == Seq::<Event>::empty(),
    {
        let r = Pallet {
            ledger: Ledger::new(),
            escrow: Escrow::new(),
            alloc: Allocator::new(min_deposit, auction_delay),
            store: AuctionStore::new(),
            block_number: 0,
            events: Vec::new(),
        };
        proof {
            assert forall|a: AccountId, c: CurrencyId|
                (#[trigger] r.ledger.reserved_of(a, c)) as int == led_sum(r.store.s(), a, c) by {
            }
            assert forall|a: AccountId, cl: ClassId, t: TokenId|
                (#[trigger] r.escrow.reserved_of(a, cl, t)) as int == esc_sum(
                r.store.s(),
                a,
                cl,
                t,
            ) by {
            }
            assert forall|g: GlobalId|
                (#[trigger] r.alloc.count_of(g)) as int == cat_sum(r.store.s(), g) by {
            }
        }
        r
    }

    /// Set the current block height.
    pub fn set_block_number(&mut self, n: BlockNumber)
        requires
            old(self).inv(),
        ensures
            final(self).inv(),
            final(self).block_number == n,
            final(self).ledger == old(self).ledger,
            final(self).escrow == old(self).escrow,
            final(self).alloc == old(self).alloc,
            final(self).store == old(self).store,
            final(self).events == old(self).events,
    {
        self.block_number = n;
    }

    /// Endow `a` with `amount` of free balance in currency `c`; a test and
    /// genesis fixture standing for the ledger's own issuance. Fails only
    /// when the ledger's grand total would exceed `u128::MAX`.
    pub fn deposit_free(&mut self, a: AccountId, c: CurrencyId, amount: Balance) -> (r: Result<
        (),
        Error,
    >)
        requires
            old(self).inv(),
        ensures
            final(self).inv(),
            r is Ok <==> old(self).ledger.grand_total() + amount <= u128::MAX,
            r is Ok ==> final(self).ledger.m() == old(self).ledger.m().insert(
                (a, c),
                Position {
                    free: (old(self).ledger.free_of(a, c) + amount) as Balance,
                    reserved: old(self).ledger.reserved_of(a, c),
                },
            ),
            r is Err ==> *final(self) == *old(self) && r == Err::<(), Error>(
                Error::ArithmeticOverflow,
            ),
            final(self).escrow == old(self).escrow,
            final(self).alloc == old(self).alloc,
            final(self).store == old(self).store,
            final(self).block_number == old(self).block_number,
            final(self).events == old(self).events,
    {
        let r = self.ledger.deposit_free(a, c, amount);
        proof {
            if r is Ok {
                assert forall|a2: AccountId, c2: CurrencyId|
                    (#[trigger] self.ledger.reserved_of(a2, c2)) as int == led_sum(
                    self.store.s(),
                    a2,
                    c2,
                ) by {
                    assert(old(self).ledger.reserved_of(a2, c2) as int == led_sum(
                        old(self).store.s(),
                        a2,
                        c2,
                    ));
                    assert(self.ledger.reserved_of(a2, c2) == old(self).ledger.reserved_of(a2, c2));
                }
            }
        }
        r
    }

    /// Register or replenish token (`cl`, `t`) for `owner`; a test and
    /// genesis fixture standing for the asset registry's own minting.
    pub fn mint_token(
        &mut self,
        owner: AccountId,
        cl: ClassId,
        t: TokenId,
        qty: Quantity,
        royalty: bool,
    ) -> (r: Result<(), Error>)
        requires
            old(self).inv(),
        ensures
            final(self).inv(),
            r is Ok <==> old(self).escrow.issuance_of(cl, t) + qty <= u64::MAX,
            r is Ok ==> final(self).escrow.holds_m() == old(self).escrow.holds_m().insert(
                (owner, cl, t),
                Holding {
                    free: (old(self).escrow.free_of(owner, cl, t) + qty) as Quantity,
                    reserved: old(self).escrow.reserved_of(owner, cl, t),
                },
            ),
            r is Ok ==> final(self).escrow.tokens_m() == old(self).escrow.tokens_m().insert(
                (cl, t),
                TokenInfo {
                    royalty: if old(self).escrow.has_token(cl, t) {
                        old(self).escrow.royalty_of(cl, t)
                    } else {
                        royalty
                    },
                    issuance: (old(self).escrow.issuance_of(cl, t) + qty) as Quantity,
                },
            ),
            r is Err ==> *final(self) == *old(self) && r == Err::<(), Error>(
                Error::ArithmeticOverflow,
            ),
            final(self).ledger == old(self).ledger,
            final(self).alloc == old(self).alloc,
            final(self).store == old(self).store,
            final(self).block_number == old(self).block_number,
            final(self).events == old(self).events,
    {
        let r = self.escrow.mint(owner, cl, t, qty, royalty);
        proof {
            if r is Ok {
                assert forall|a2: AccountId, c2: ClassId, t2: TokenId|
                    (#[trigger] self.escrow.reserved_of(a2, c2, t2)) as int == esc_sum(
                    self.store.s(),
                    a2,
                    c2,
                    t2,
                ) by {
                    assert(old(self).escrow.reserved_of(a2, c2, t2) as int == esc_sum(
                        old(self).store.s(),
                        a2,
                        c2,
                        t2,
                    ));
                    assert(self.escrow.reserved_of(a2, c2, t2) == old(self).escrow.reserved_of(
                        a2,
                        c2,
                        t2,
                    ));
                }
                assert forall|i: int|
                    0 <= i < self.store.s().len() implies entry_items_ok(
                    self.escrow,
                    #[trigger] self.store.s()[i],
                ) by {
                    let e = self.store.s()[i];
                    assert(entry_items_ok(old(self).escrow, e));
                    assert forall|k: int|
                        0 <= k < e.auction.items@.len() implies old(self).escrow.royalty_of(
                        (#[trigger] e.auction.items@[k]).class_id,
                        e.auction.items@[k].token_id,
                    ) == self.escrow.royalty_of(
                        e.auction.items@[k].class_id,
                        e.auction.items@[k].token_id,
                    ) by {
                        let kk = (e.auction.items@[k].class_id, e.auction.items@[k].token_id);
                        assert(old(self).escrow.has_token(kk.0, kk.1));
                    }
                    lemma_royalty_count_same(old(self).escrow, self.escrow, e.auction.items@);
                }
            }
        }
        r
    }

    /// Create a new category, issuing its id; a fixture standing for the
    /// category registry. Fails if and only if the id space is exhausted.
    pub fn create_category(&mut self) -> (r: Result<GlobalId, Error>)
        requires
            old(self).inv(),
        ensures
            final(self).inv(),
            r is Ok <==> old(self).alloc.next_id_spec() < u64::MAX,
            r is Ok ==> r == Ok::<GlobalId, Error>(old(self).alloc.next_id_spec())
                && final(self).alloc.cats_m() == old(self).alloc.cats_m().insert(
                old(self).alloc.next_id_spec(),
                0,
            ) && final(self).alloc.next_id_spec() == old(self).alloc.next_id_spec() + 1,
            r is Err ==> *final(self) == *old(self) && r == Err::<GlobalId, Error>(
                Error::ArithmeticOverflow,
            ),
            final(self).alloc.min_deposit_spec() == old(self).alloc.min_deposit_spec(),
            final(self).alloc.delay_spec() == old(self).alloc.delay_spec(),
            final(self).ledger == old(self).ledger,
            final(self).escrow == old(self).escrow,
            final(self).store == old(self).store,
            final(self).block_number == old(self).block_number,
            final(self).events == old(self).events,
    {
        let ghost next0 = self.alloc.next_id_spec();
        let r = self.alloc.create_category();
        proof {
            if r is Ok {
                assert forall|g: GlobalId|
                    (#[trigger] self.alloc.count_of(g)) as int == cat_sum(self.store.s(), g) by {
                    assert(old(self).alloc.count_of(g) as int == cat_sum(old(self).store.s(), g));
                    if g == next0 {
                        // no live auction can be in the newly issued category
                        assert forall|i: int|
                            0 <= i < self.store.s().len() implies self.store.s()[i].auction.category_id
                            != g by {
                            assert(old(self).alloc.has_category(
                                (#[trigger] old(self).store.s()[i]).auction.category_id,
                            ));
                            if self.store.s()[i].auction.category_id == g {
                                assert(old(self).alloc.cats_m().contains_key(g));
                                crate::allocator::lemma_cat_ids_bounded(&old(self).alloc, g);
                                assert(false);
                            }
                        }
                        lemma_cat_sum_absent(self.store.s(), g);
                    }
                }
            }
        }
        r
    }
    /// Delete the entry at `idx`, releasing every reservation tied to it:
    /// the current bidder's currency reservation, the seller's deposit,
    /// the lots, and the category count.
    fn delete_british_auction(&mut self, idx: usize) -> (r: StoreEntry)
        requires
            old(self).inv(),
            idx < old(self).store.s().len(),
        ensures
            final(self).inv(),
            r == old(self).store.s()[idx as int],
            delete_rel(old(self), final(self), idx as int),
            final(self).events == old(self).events,
            final(self).block_number == old(self).block_number,
    {
        let ghost s0 = old(self).store.s();
        let ghost e0 = old(self).store.s()[idx as int];
        proof {
            assert(old(self).ledger.reserved_of(e0.owner, NATIVE_CURRENCY_ID) as int == led_sum(
                s0,
                e0.owner,
                NATIVE_CURRENCY_ID,
            ));
            lemma_led_sum_ge_entry(s0, idx as int, e0.owner, NATIVE_CURRENCY_ID);
            if let Some(acct) = e0.bid.last_offer_account {
                assert(old(self).ledger.reserved_of(acct, e0.auction.currency_id) as int
                    == led_sum(s0, acct, e0.auction.currency_id));
                lemma_led_sum_ge_entry(s0, idx as int, acct, e0.auction.currency_id);
            }
            assert(entry_items_ok(old(self).escrow, old(self).store.s()[idx as int]));
        }
        let e = self.store.remove_at(idx);
        // release the current bidder's currency reservation
        if let Some(acct) = e.bid.last_offer_account {
            let released = self.ledger.unreserve(
                acct,
                e.auction.currency_id,
                e.bid.last_offer_price,
            );
            proof {
                assert(led_contrib(e0, acct, e0.auction.currency_id) >= e0.bid.last_offer_price);
                assert(released == e0.bid.last_offer_price);
            }
        }
        // release the seller's deposit
        let released2 = self.ledger.unreserve(e.owner, NATIVE_CURRENCY_ID, e.auction.deposit);
        proof {
            assert(led_contrib(e0, e0.owner, NATIVE_CURRENCY_ID) >= (if e0.bid.last_offer_account
                == Some(e0.owner) && e0.auction.currency_id == NATIVE_CURRENCY_ID {
                e0.bid.last_offer_price as int
            } else {
                0
            }) + e0.auction.deposit);
            assert(released2 == e0.auction.deposit);
            assert forall|a2: AccountId, c2: CurrencyId|
                (#[trigger] self.ledger.reserved_of(a2, c2)) as int == old(
                self,
            ).ledger.reserved_of(a2, c2) - led_contrib(e0, a2, c2) && (
            #[trigger] self.ledger.free_of(a2, c2)) as int == old(self).ledger.free_of(a2, c2)
                + led_contrib(e0, a2, c2) by {
                assert(old(self).ledger.reserved_of(a2, c2) as int == led_sum(s0, a2, c2));
                lemma_led_sum_ge_entry(s0, idx as int, a2, c2);
            }
        }
        // release the lots
        let ghost led1 = self.ledger;
        let ghost esc0 = old(self).escrow;
        let n = e.auction.items.len();
        let mut i: usize = 0;
        while i < n
            invariant
                n == e.auction.items@.len(),
                i <= n,
                e == e0,
                self.escrow.wf(),
                self.escrow.tokens_m() == esc0.tokens_m(),
                self.ledger == led1,
                self.alloc == old(self).alloc,
                self.store.wf(),
                self.store.s() == s0.remove(idx as int),
                self.block_number == old(self).block_number,
                self.events == old(self).events,
                esc0 == old(self).escrow,
                old(self).inv(),
                idx < old(self).store.s().len(),
                s0 == old(self).store.s(),
                e0 == s0[idx as int],
                forall|a2: AccountId, cl: ClassId, t: TokenId|
                    a2 != e0.owner ==> (#[trigger] self.escrow.reserved_of(a2, cl, t))
                        == esc0.reserved_of(a2, cl, t) && self.escrow.free_of(a2, cl, t)
                        == esc0.free_of(a2, cl, t),
                forall|cl: ClassId, t: TokenId|
                    (#[trigger] self.escrow.reserved_of(e0.owner, cl, t)) as int
                        == esc0.reserved_of(e0.owner, cl, t) - items_qty(
                        e0.auction.items@.take(i as int),
                        cl,
                        t,
                    ),
                forall|cl: ClassId, t: TokenId|
                    (#[trigger] self.escrow.free_of(e0.owner, cl, t)) as int == esc0.free_of(
                        e0.owner,
                        cl,
                        t,
                    ) + items_qty(e0.auction.items@.take(i as int), cl, t),
            decreases n - i,
        {
            let it = e.auction.items[i];
            let ghost items = e0.auction.items@;
            let ghost esc_pre = self.escrow;
            proof {
                assert(items[i as int] == it);
                lemma_items_qty_take_step(items, i as int, it.class_id, it.token_id);
                lemma_items_qty_take_mono(
                    items,
                    i + 1,
                    items.len() as int,
                    it.class_id,
                    it.token_id,
                );
                lemma_items_qty_take_all(items, it.class_id, it.token_id);
                // the whole remaining quantity is still reserved
                assert(old(self).escrow.reserved_of(e0.owner, it.class_id, it.token_id) as int
                    == esc_sum(s0, e0.owner, it.class_id, it.token_id));
                lemma_esc_sum_ge_entry(s0, idx as int, e0.owner, it.class_id, it.token_id);
                assert(esc_contrib(s0[idx as int], e0.owner, it.class_id, it.token_id)
                    == items_qty(items, it.class_id, it.token_id));
                assert(entry_items_ok(old(self).escrow, old(self).store.s()[idx as int]));
                assert((#[trigger] items[i as int]).quantity >= 1);
                assert(self.escrow.reserved_of(e0.owner, it.class_id, it.token_id)
                    >= it.quantity);
            }
            let _rel = self.escrow.unreserve_tokens(e.owner, it.class_id, it.token_id, it.quantity);
            proof {
                assert(_rel == it.quantity);
                assert forall|cl: ClassId, t: TokenId|
                    (#[trigger] self.escrow.reserved_of(e0.owner, cl, t)) as int
                        == esc0.reserved_of(e0.owner, cl, t) - items_qty(
                        items.take(i + 1),
                        cl,
                        t,
                    ) by {
                    lemma_items_qty_take_step(items, i as int, cl, t);
                    assert(esc_pre.reserved_of(e0.owner, cl, t) as int == esc0.reserved_of(
                        e0.owner,
                        cl,
                        t,
                    ) - items_qty(items.take(i as int), cl, t));
                }
                assert forall|cl: ClassId, t: TokenId|
                    (#[trigger] self.escrow.free_of(e0.owner, cl, t)) as int == esc0.free_of(
                        e0.owner,
                        cl,
                        t,
                    ) + items_qty(items.take(i + 1), cl, t) by {
                    lemma_items_qty_take_step(items, i as int, cl, t);
                    assert(esc_pre.free_of(e0.owner, cl, t) as int == esc0.free_of(e0.owner, cl, t)
                        + items_qty(items.take(i as int), cl, t));
                }
                assert forall|a2: AccountId, cl: ClassId, t: TokenId|
                    a2 != e0.owner implies (#[trigger] self.escrow.reserved_of(a2, cl, t))
                        == esc0.reserved_of(a2, cl, t) && self.escrow.free_of(a2, cl, t)
                        == esc0.free_of(a2, cl, t) by {
                    assert(esc_pre.reserved_of(a2, cl, t) == esc0.reserved_of(a2, cl, t));
                    assert(esc_pre.free_of(a2, cl, t) == esc0.free_of(a2, cl, t));
                }
            }
            i = i + 1;
        }
        proof {
            assert(e0.auction.items@.take(n as int) =~= e0.auction.items@);
            assert forall|a2: AccountId, cl: ClassId, t: TokenId|
                (#[trigger] self.escrow.reserved_of(a2, cl, t)) as int == old(
                self,
            ).escrow.reserved_of(a2, cl, t) - esc_contrib(e0, a2, cl, t) && (
            #[trigger] self.escrow.free_of(a2, cl, t)) as int == old(self).escrow.free_of(
                a2,
                cl,
                t,
            ) + esc_contrib(e0, a2, cl, t) by {
                if a2 == e0.owner {
                    assert(self.escrow.reserved_of(e0.owner, cl, t) as int == esc0.reserved_of(
                        e0.owner,
                        cl,
                        t,
                    ) - items_qty(e0.auction.items@.take(n as int), cl, t));
                    assert(self.escrow.free_of(e0.owner, cl, t) as int == esc0.free_of(
                        e0.owner,
                        cl,
                        t,
                    ) + items_qty(e0.auction.items@.take(n as int), cl, t));
                } else {
                    assert(self.escrow.reserved_of(a2, cl, t) == esc0.reserved_of(a2, cl, t));
                    assert(self.escrow.free_of(a2, cl, t) == esc0.free_of(a2, cl, t));
                }
            }
            // the category exists and counts this auction
            assert(old(self).alloc.has_category(
                (#[trigger] old(self).store.s()[idx as int]).auction.category_id,
            ));
            assert(old(self).alloc.count_of(e0.auction.category_id) as int == cat_sum(
                s0,
                e0.auction.category_id,
            ));
            lemma_cat_sum_ge_entry(s0, idx as int, e0.auction.category_id);
        }
        self.alloc.dec_count_in_category(e.auction.category_id);
        proof {
            let s1 = self.store.s();
            assert(s1 == s0.remove(idx as int));
            assert forall|a2: AccountId, c2: CurrencyId|
                (#[trigger] self.ledger.reserved_of(a2, c2)) as int == old(
                self,
            ).ledger.reserved_of(a2, c2) - led_contrib(e0, a2, c2) && (
            #[trigger] self.ledger.free_of(a2, c2)) as int == old(self).ledger.free_of(a2, c2)
                + led_contrib(e0, a2, c2) by {
                assert(led1.reserved_of(a2, c2) as int == old(self).ledger.reserved_of(a2, c2)
                    - led_contrib(e0, a2, c2));
                assert(led1.free_of(a2, c2) as int == old(self).ledger.free_of(a2, c2)
                    + led_contrib(e0, a2, c2));
            }
            assert forall|a2: AccountId, c2: CurrencyId|
                (#[trigger] self.ledger.reserved_of(a2, c2)) as int == led_sum(s1, a2, c2) by {
                assert(old(self).ledger.reserved_of(a2, c2) as int == led_sum(s0, a2, c2));
                assert(self.ledger.reserved_of(a2, c2) as int == old(self).ledger.reserved_of(
                    a2,
                    c2,
                ) - led_contrib(e0, a2, c2));
                lemma_led_sum_remove(s0, idx as int, a2, c2);
            }
            assert forall|a2: AccountId, cl: ClassId, t: TokenId|
                (#[trigger] self.escrow.reserved_of(a2, cl, t)) as int == esc_sum(
                s1,
                a2,
                cl,
                t,
            ) by {
                assert(old(self).escrow.reserved_of(a2, cl, t) as int == esc_sum(s0, a2, cl, t));
                lemma_esc_sum_remove(s0, idx as int, a2, cl, t);
            }
            assert forall|g: GlobalId|
                (#[trigger] self.alloc.count_of(g)) as int == cat_sum(s1, g) by {
                assert(old(self).alloc.count_of(g) as int == cat_sum(s0, g));
                lemma_cat_sum_remove(s0, idx as int, g);
            }
            assert forall|j: int|
                0 <= j < s1.len() implies entry_items_ok(self.escrow, #[trigger] s1[j]) by {
                let j0 = if j < idx as int {
                    j
                } else {
                    j + 1
                };
                assert(s1[j] == s0[j0]);
                assert(entry_items_ok(old(self).escrow, old(self).store.s()[j0]));
                let e2 = s1[j];
                assert forall|k: int|
                    0 <= k < e2.auction.items@.len() implies old(self).escrow.royalty_of(
                    (#[trigger] e2.auction.items@[k]).class_id,
                    e2.auction.items@[k].token_id,
                ) == self.escrow.royalty_of(
                    e2.auction.items@[k].class_id,
                    e2.auction.items@[k].token_id,
                ) by {
                }
                lemma_royalty_count_same(old(self).escrow, self.escrow, e2.auction.items@);
            }
            assert forall|j: int|
                0 <= j < s1.len() implies #[trigger] s1[j].id < self.alloc.next_id_spec() by {
                let j0 = if j < idx as int {
                    j
                } else {
                    j + 1
                };
                assert(s1[j] == s0[j0]);
                assert((#[trigger] old(self).store.s()[j0]).id < old(self).alloc.next_id_spec());
            }
            assert forall|j: int|
                0 <= j < s1.len() implies self.alloc.has_category(
                (#[trigger] s1[j]).auction.category_id,
            ) by {
                let j0 = if j < idx as int {
                    j
                } else {
                    j + 1
                };
                assert(s1[j] == s0[j0]);
                assert(old(self).alloc.has_category(
                    (#[trigger] old(self).store.s()[j0]).auction.category_id,
                ));
            }
            assert forall|a2: AccountId, cl: ClassId, t: TokenId|
                (#[trigger] self.escrow.free_of(a2, cl, t)) as int == old(self).escrow.free_of(
                a2,
                cl,
                t,
            ) + esc_contrib(e0, a2, cl, t) by {
                if a2 == e0.owner {
                    assert(self.escrow.free_of(e0.owner, cl, t) as int == esc0.free_of(
                        e0.owner,
                        cl,
                        t,
                    ) + items_qty(e0.auction.items@.take(n as int), cl, t));
                } else {
                    assert(self.escrow.reserved_of(a2, cl, t) == esc0.reserved_of(a2, cl, t));
                    assert(self.escrow.free_of(a2, cl, t) == esc0.free_of(a2, cl, t));
                }
            }
            assert(self.store.s() == s0.remove(idx as int));
            assert(self.ledger.grand_total() == old(self).ledger.grand_total());
            assert(self.escrow.tokens_m() == old(self).escrow.tokens_m());
            assert(self.alloc.cats_m() == old(self).alloc.cats_m().insert(
                e0.auction.category_id,
                (old(self).alloc.count_of(e0.auction.category_id) - 1) as u128,
            ));
            assert(self.alloc.next_id_spec() == old(self).alloc.next_id_spec());
            assert(self.alloc.min_deposit_spec() == old(self).alloc.min_deposit_spec());
            assert(self.alloc.delay_spec() == old(self).alloc.delay_spec());
        }
        e
    }


    /// Remove an auction that was never bid on: delete it and release the
    /// deposit and the lots. Fails if the auction does not exist under the
    /// caller, or if a bid exists.
    pub fn remove_british_auction(&mut self, who: AccountId, auction_id: GlobalId) -> (r: Result<
        (),
        Error,
    >)
        requires
            old(self).inv(),
        ensures
            final(self).inv(),
            r is Err ==> *final(self) == *old(self) && remove_err(old(self), who, auction_id)
                == Some(r->Err_0),
            r is Ok ==> remove_err(old(self), who, auction_id) is None,
            r is Ok ==> exists|i: int|
                {
                    &&& 0 <= i < old(self).store.s().len()
                    &&& (#[trigger] old(self).store.s()[i]).id == auction_id
                    &&& old(self).store.s()[i].owner == who
                    &&& delete_rel(old(self), final(self), i)
                },
            r is Ok ==> final(self).events@ == old(self).events@.push(
                Event::RemovedBritishAuction(who, auction_id),
            ),
            r is Ok ==> final(self).block_number == old(self).block_number,
    {
        let idx = match self.store.get_index(auction_id) {
            None => {
                return Err(Error::BritishAuctionBidNotFound);
            },
            Some(i) => i,
        };
        let (e_owner, e_bid) = {
            let ent = self.store.entry_at(idx);
            (ent.owner, ent.bid)
        };
        if e_owner != who {
            return Err(Error::BritishAuctionNotFound);
        }
        if e_bid.last_offer_account.is_some() {
            return Err(Error::CannotRemoveAuction);
        }
        let _e = self.delete_british_auction(idx);
        self.events.push(Event::RemovedBritishAuction(who, auction_id));
        proof {
            let i = idx as int;
            assert((#[trigger] old(self).store.s()[i]).id == auction_id);
            assert(old(self).store.s()[i].owner == who);
            assert(delete_rel(old(self), self, i));
        }
        Ok(())
    }
    /// Undo the escrow reservations of the first `k` lots, restoring the
    /// holdings to `esc0`, the escrow state before the reservations.
    fn undo_lot_reservations(
        &mut self,
        who: AccountId,
        items: &Vec<OrderItem>,
        k: usize,
        Ghost(esc0): Ghost<Escrow>,
    )
        requires
            old(self).escrow.wf(),
            old(self).escrow.tokens_m() == esc0.tokens_m(),
            k <= items@.len(),
            old(self).escrow.holds_m().dom() == esc0.holds_m().dom(),
            forall|cl: ClassId, t: TokenId|
                (#[trigger] old(self).escrow.reserved_of(who, cl, t)) as int == esc0.reserved_of(
                    who,
                    cl,
                    t,
                ) + items_qty(items@.take(k as int), cl, t),
            forall|cl: ClassId, t: TokenId|
                (#[trigger] old(self).escrow.free_of(who, cl, t)) as int == esc0.free_of(
                    who,
                    cl,
                    t,
                ) - items_qty(items@.take(k as int), cl, t),
            forall|a2: AccountId, cl: ClassId, t: TokenId|
                a2 != who ==> (#[trigger] old(self).escrow.reserved_of(a2, cl, t))
                    == esc0.reserved_of(a2, cl, t),
            forall|a2: AccountId, cl: ClassId, t: TokenId|
                a2 != who ==> (#[trigger] old(self).escrow.free_of(a2, cl, t)) == esc0.free_of(
                    a2,
                    cl,
                    t,
                ),
            forall|j: int| 0 <= j < k ==> (#[trigger] items@[j]).quantity >= 1,
        ensures
            final(self).escrow.holds_m() == esc0.holds_m(),
            final(self).escrow.tokens_m() == esc0.tokens_m(),
            final(self).escrow.wf(),
            final(self).ledger == old(self).ledger,
            final(self).alloc == old(self).alloc,
            final(self).store == old(self).store,
            final(self).block_number == old(self).block_number,
            final(self).events == old(self).events,
    {
        let mut j: usize = 0;
        while j < k
            invariant
                j <= k,
                k <= items@.len(),
                self.escrow.wf(),
                self.escrow.tokens_m() == esc0.tokens_m(),
                self.escrow.holds_m().dom() == esc0.holds_m().dom(),
                self.ledger == old(self).ledger,
                self.alloc == old(self).alloc,
                self.store == old(self).store,
                self.block_number == old(self).block_number,
                self.events == old(self).events,
                forall|cl: ClassId, t: TokenId|
                    (#[trigger] self.escrow.reserved_of(who, cl, t)) as int == esc0.reserved_of(
                        who,
                        cl,
                        t,
                    ) + items_qty(items@.take(k as int), cl, t) - items_qty(
                        items@.take(j as int),
                        cl,
                        t,
                    ),
                forall|cl: ClassId, t: TokenId|
                    (#[trigger] self.escrow.free_of(who, cl, t)) as int == esc0.free_of(
                        who,
                        cl,
                        t,
                    ) - items_qty(items@.take(k as int), cl, t) + items_qty(
                        items@.take(j as int),
                        cl,
                        t,
                    ),
                forall|a2: AccountId, cl: ClassId, t: TokenId|
                    a2 != who ==> (#[trigger] self.escrow.reserved_of(a2, cl, t))
                        == esc0.reserved_of(a2, cl, t),
                forall|a2: AccountId, cl: ClassId, t: TokenId|
                    a2 != who ==> (#[trigger] self.escrow.free_of(a2, cl, t)) == esc0.free_of(
                        a2,
                        cl,
                        t,
                    ),
                forall|x: int| 0 <= x < k ==> (#[trigger] items@[x]).quantity >= 1,
            decreases k - j,
        {
            let it = items[j];
            let ghost esc_pre = self.escrow;
            proof {
                assert(items@[j as int] == it);
                lemma_items_qty_take_step(items@, j as int, it.class_id, it.token_id);
                lemma_items_qty_take_mono(items@, j + 1, k as int, it.class_id, it.token_id);
                lemma_items_qty_nonneg(items@.take(j as int), it.class_id, it.token_id);
                assert(self.escrow.reserved_of(who, it.class_id, it.token_id) >= it.quantity);
            }
            let rel = self.escrow.unreserve_tokens(who, it.class_id, it.token_id, it.quantity);
            proof {
                assert(rel == it.quantity);
                assert forall|cl: ClassId, t: TokenId|
                    (#[trigger] self.escrow.reserved_of(who, cl, t)) as int == esc0.reserved_of(
                    who,
                    cl,
                    t,
                ) + items_qty(items@.take(k as int), cl, t) - items_qty(
                    items@.take(j + 1),
                    cl,
                    t,
                ) by {
                    lemma_items_qty_take_step(items@, j as int, cl, t);
                    assert(esc_pre.reserved_of(who, cl, t) as int == esc0.reserved_of(who, cl, t)
                        + items_qty(items@.take(k as int), cl, t) - items_qty(
                        items@.take(j as int),
                        cl,
                        t,
                    ));
                }
                assert forall|cl: ClassId, t: TokenId|
                    (#[trigger] self.escrow.free_of(who, cl, t)) as int == esc0.free_of(
                    who,
                    cl,
                    t,
                ) - items_qty(items@.take(k as int), cl, t) + items_qty(
                    items@.take(j + 1),
                    cl,
                    t,
                ) by {
                    lemma_items_qty_take_step(items@, j as int, cl, t);
                    assert(esc_pre.free_of(who, cl, t) as int == esc0.free_of(who, cl, t)
                        - items_qty(items@.take(k as int), cl, t) + items_qty(
                        items@.take(j as int),
                        cl,
                        t,
                    ));
                }
                assert forall|a2: AccountId, cl: ClassId, t: TokenId|
                    a2 != who implies (#[trigger] self.escrow.reserved_of(a2, cl, t))
                    == esc0.reserved_of(a2, cl, t) by {
                    assert(esc_pre.reserved_of(a2, cl, t) == esc0.reserved_of(a2, cl, t));
                }
                assert forall|a2: AccountId, cl: ClassId, t: TokenId|
                    a2 != who implies (#[trigger] self.escrow.free_of(a2, cl, t)) == esc0.free_of(
                    a2,
                    cl,
                    t,
                ) by {
                    assert(esc_pre.free_of(a2, cl, t) == esc0.free_of(a2, cl, t));
                }
            }
            j = j + 1;
        }
        proof {
            let m1 = self.escrow.holds_m();
            let m0 = esc0.holds_m();
            assert forall|key: (AccountId, ClassId, TokenId)| #[trigger]
                m0.contains_key(key) implies m1.contains_key(key) && m1[key] == m0[key] by {
                let (a2, cl, t) = key;
                if a2 == who {
                    assert(self.escrow.reserved_of(a2, cl, t) == esc0.reserved_of(a2, cl, t));
                    assert(self.escrow.free_of(a2, cl, t) == esc0.free_of(a2, cl, t));
                } else {
                    assert(self.escrow.reserved_of(a2, cl, t) == esc0.reserved_of(a2, cl, t));
                    assert(self.escrow.free_of(a2, cl, t) == esc0.free_of(a2, cl, t));
                }
            }
            assert(m1 =~= m0);
        }
    }

    /// Submit a new auction: reserve the deposit and every lot from the
    /// seller, count it under its category, issue its id, and create the
    /// auction and bid records. Any failure leaves the state unchanged.
    #[verifier::rlimit(50)]
    pub fn submit_british_auction(
        &mut self,
        who: AccountId,
        currency_id: CurrencyId,
        hammer_price: Balance,
        min_raise: PerU16,
        deposit: Balance,
        init_price: Balance,
        deadline: BlockNumber,
        allow_delay: bool,
        category_id: GlobalId,
        items: Vec<OrderItem>,
    ) -> (r: Result<GlobalId, Error>)
        requires
            old(self).inv(),
        ensures
            final(self).inv(),
            r is Err ==> submit_err(
                old(self),
                who,
                hammer_price,
                deposit,
                init_price,
                deadline,
                category_id,
                items@,
            ) == Some(r->Err_0),
            r is Ok ==> submit_err(
                old(self),
                who,
                hammer_price,
                deposit,
                init_price,
                deadline,
                category_id,
                items@,
            ) is None && r == Ok::<GlobalId, Error>(old(self).alloc.next_id_spec()),
            r is Err ==> final(self).ledger == old(self).ledger,
            r is Err ==> final(self).escrow.holds_m() == old(self).escrow.holds_m(),
            r is Err ==> final(self).escrow.tokens_m() == old(self).escrow.tokens_m(),
            r is Err ==> final(self).alloc == old(self).alloc,
            r is Err ==> final(self).store == old(self).store,
            r is Err ==> final(self).block_number == old(self).block_number,
            r is Err ==> final(self).events == old(self).events,
            r is Ok ==> submit_ok(
                old(self),
                final(self),
                who,
                currency_id,
                hammer_price,
                min_raise,
                deposit,
                init_price,
                deadline,
                allow_delay,
                category_id,
                items@,
            ),
    {
        let ghost esc0 = old(self).escrow;
        // validation guards, in order
        if deposit < self.alloc.get_min_order_deposit() {
            return Err(Error::SubmitWithInvalidDeposit);
        }
        if !(self.block_number < deadline) {
            return Err(Error::SubmitWithInvalidDeadline);
        }
        if hammer_price > 0 && !(hammer_price > init_price) {
            return Err(Error::InvalidHammerPrice);
        }
        // scan the lots: quantities, token existence, the royalty rule
        let n = items.len();
        let mut seen = false;
        let mut i: usize = 0;
        while i < n
            invariant
                n == items@.len(),
                i <= n,
                *self == *old(self),
                old(self).inv(),
                deposit >= old(self).alloc.min_deposit_spec(),
                old(self).block_number < deadline,
                hammer_price > 0 ==> hammer_price > init_price,
                scan_items_from(self.escrow, items@, 0, false) == scan_items_from(
                    self.escrow,
                    items@,
                    i as int,
                    seen,
                ),
            decreases n - i,
        {
            let it = items[i];
            if it.quantity == 0 {
                return Err(Error::InvalidQuantity);
            }
            match self.escrow.token_charged_royalty(it.class_id, it.token_id) {
                Err(e) => {
                    return Err(e);
                },
                Ok(roy) => {
                    if roy && seen {
                        return Err(Error::TooManyTokenChargedRoyalty);
                    }
                    seen = seen || roy;
                },
            }
            i = i + 1;
        }
        proof {
            assert(scan_items_from(old(self).escrow, items@, 0, false) is None);
        }
        // the deposit must be coverable
        if self.ledger.free_balance(who, NATIVE_CURRENCY_ID) < deposit {
            return Err(Error::InsufficientBalance);
        }
        // reserve the lots, undoing everything on failure
        let mut err: Option<Error> = None;
        let mut k: usize = 0;
        while k < n && err.is_none()
            invariant
                n == items@.len(),
                k <= n,
                old(self).inv(),
                esc0 == old(self).escrow,
                scan_items_from(esc0, items@, 0, false) is None,
                self.ledger == old(self).ledger,
                self.alloc == old(self).alloc,
                self.store == old(self).store,
                self.block_number == old(self).block_number,
                self.events == old(self).events,
                self.escrow.wf(),
                self.escrow.tokens_m() == esc0.tokens_m(),
                self.escrow.holds_m().dom() == esc0.holds_m().dom(),
                forall|cl: ClassId, t: TokenId|
                    (#[trigger] self.escrow.reserved_of(who, cl, t)) as int == esc0.reserved_of(
                        who,
                        cl,
                        t,
                    ) + items_qty(items@.take(k as int), cl, t),
                forall|cl: ClassId, t: TokenId|
                    (#[trigger] self.escrow.free_of(who, cl, t)) as int == esc0.free_of(
                        who,
                        cl,
                        t,
                    ) - items_qty(items@.take(k as int), cl, t),
                forall|a2: AccountId, cl: ClassId, t: TokenId|
                    a2 != who ==> (#[trigger] self.escrow.reserved_of(a2, cl, t))
                        == esc0.reserved_of(a2, cl, t),
                forall|a2: AccountId, cl: ClassId, t: TokenId|
                    a2 != who ==> (#[trigger] self.escrow.free_of(a2, cl, t)) == esc0.free_of(
                        a2,
                        cl,
                        t,
                    ),
                forall|j: int|
                    0 <= j < k ==> (esc0.free_of(
                        who,
                        (#[trigger] items@[j]).class_id,
                        items@[j].token_id,
                    )) as int >= items_qty(
                        items@.take(j + 1),
                        items@[j].class_id,
                        items@[j].token_id,
                    ),
                deposit >= old(self).alloc.min_deposit_spec(),
                old(self).block_number < deadline,
                hammer_price > 0 ==> hammer_price > init_price,
                old(self).ledger.free_of(who, NATIVE_CURRENCY_ID) >= deposit,
                err is Some ==> err == Some(Error::InsufficientQuantity) && !lots_available(
                    esc0,
                    who,
                    items@,
                ),
            decreases n - k, (if err is None {
                1int
            } else {
                0int
            }),
        {
            let it = items[k];
            let ghost esc_pre = self.escrow;
            proof {
                assert(items@[k as int] == it);
                lemma_scan_ok(esc0, items@, 0, false);
                assert(it.quantity >= 1);
            }
            match self.escrow.reserve_tokens(who, it.class_id, it.token_id, it.quantity) {
                Err(_) => {
                    proof {
                        // the failing lot witnesses unavailability
                        lemma_items_qty_take_step(items@, k as int, it.class_id, it.token_id);
                        lemma_items_qty_take_mono(
                            items@,
                            k + 1,
                            n as int,
                            it.class_id,
                            it.token_id,
                        );
                        lemma_items_qty_take_all(items@, it.class_id, it.token_id);
                        assert((esc0.free_of(who, it.class_id, it.token_id) as int) < items_qty(
                            items@,
                            it.class_id,
                            it.token_id,
                        ));
                        assert(!lots_available(esc0, who, items@));
                    }
                    err = Some(Error::InsufficientQuantity);
                },
                Ok(_) => {
                    proof {
                        assert(esc_pre.free_of(who, it.class_id, it.token_id) >= it.quantity);
                        lemma_items_qty_take_step(items@, k as int, it.class_id, it.token_id);
                        lemma_items_qty_nonneg(items@.take(k as int), it.class_id, it.token_id);
                        assert forall|cl: ClassId, t: TokenId|
                            (#[trigger] self.escrow.reserved_of(who, cl, t)) as int
                            == esc0.reserved_of(who, cl, t) + items_qty(
                            items@.take(k + 1),
                            cl,
                            t,
                        ) by {
                            lemma_items_qty_take_step(items@, k as int, cl, t);
                            assert(esc_pre.reserved_of(who, cl, t) as int == esc0.reserved_of(
                                who,
                                cl,
                                t,
                            ) + items_qty(items@.take(k as int), cl, t));
                        }
                        assert forall|cl: ClassId, t: TokenId|
                            (#[trigger] self.escrow.free_of(who, cl, t)) as int == esc0.free_of(
                            who,
                            cl,
                            t,
                        ) - items_qty(items@.take(k + 1), cl, t) by {
                            lemma_items_qty_take_step(items@, k as int, cl, t);
                            assert(esc_pre.free_of(who, cl, t) as int == esc0.free_of(who, cl, t)
                                - items_qty(items@.take(k as int), cl, t));
                        }
                        assert forall|a2: AccountId, cl: ClassId, t: TokenId|
                            a2 != who implies (#[trigger] self.escrow.reserved_of(a2, cl, t))
                            == esc0.reserved_of(a2, cl, t) by {
                            assert(esc_pre.reserved_of(a2, cl, t) == esc0.reserved_of(a2, cl, t));
                        }
                        assert forall|a2: AccountId, cl: ClassId, t: TokenId|
                            a2 != who implies (#[trigger] self.escrow.free_of(a2, cl, t))
                            == esc0.free_of(a2, cl, t) by {
                            assert(esc_pre.free_of(a2, cl, t) == esc0.free_of(a2, cl, t));
                        }
                        // the step condition for this lot
                        assert((esc0.free_of(who, it.class_id, it.token_id)) as int >= items_qty(
                            items@.take(k + 1),
                            it.class_id,
                            it.token_id,
                        ));
                    }
                    k = k + 1;
                },
            }
        }
        if err.is_none() {
            proof {
                assert(k == n);
                assert(items@.take(n as int) =~= items@);
                lemma_steps_imply_available(esc0, who, items@);
            }
            if !self.alloc.category_exists(category_id) {
                err = Some(Error::CategoryNotFound);
            } else if self.alloc.peek_next_id() == u64::MAX {
                err = Some(Error::ArithmeticOverflow);
            }
        }
        if err.is_some() {
            let e = match err {
                Some(e) => e,
                None => {
                    proof {
                        assert(false);
                    }
                    Error::ArithmeticOverflow
                },
            };
            proof {
                lemma_scan_ok(esc0, items@, 0, false);
            }
            self.undo_lot_reservations(who, &items, k, Ghost(esc0));
            proof {
                assert forall|a2: AccountId, c2: ClassId, t2: TokenId|
                    (#[trigger] self.escrow.reserved_of(a2, c2, t2)) as int == esc_sum(
                    self.store.s(),
                    a2,
                    c2,
                    t2,
                ) by {
                    assert(old(self).escrow.reserved_of(a2, c2, t2) as int == esc_sum(
                        old(self).store.s(),
                        a2,
                        c2,
                        t2,
                    ));
                }
                assert forall|j: int|
                    0 <= j < self.store.s().len() implies entry_items_ok(
                    self.escrow,
                    #[trigger] self.store.s()[j],
                ) by {
                    assert(entry_items_ok(old(self).escrow, old(self).store.s()[j]));
                    let e2 = self.store.s()[j];
                    lemma_royalty_count_same(old(self).escrow, self.escrow, e2.auction.items@);
                }
            }
            return Err(e);
        }
        // all checks passed: commit
        let store_len = self.store.len();
        proof {
            assert(self.store.s().len() == store_len);
            assert(old(self).alloc.count_of(category_id) as int == cat_sum(
                old(self).store.s(),
                category_id,
            ));
            lemma_cat_sum_le_len(old(self).store.s(), category_id);
            assert(old(self).alloc.count_of(category_id) < u128::MAX);
        }
        let lr = self.ledger.reserve(who, NATIVE_CURRENCY_ID, deposit);
        if lr.is_err() {
            // unreachable: the free balance was checked above
            proof {
                assert(false);
            }
            return Err(Error::InsufficientBalance);
        }
        self.alloc.inc_count_in_category(category_id);
        let id = match self.alloc.get_then_inc_id() {
            Ok(id) => id,
            Err(_) => {
                // unreachable: the id space was checked above
                proof {
                    assert(false);
                }
                return Err(Error::ArithmeticOverflow);
            },
        };
        let ghost itemsv = items@;
        let auction = BritishAuction {
            currency_id,
            hammer_price,
            min_raise,
            deposit,
            init_price,
            deadline,
            allow_delay,
            category_id,
            items,
        };
        let bid = BritishAuctionBid {
            last_offer_price: init_price,
            last_offer_account: None,
            last_offer_block: 0,
        };
        let entry = StoreEntry { id, owner: who, auction, bid };
        proof {
            // the id is fresh
            assert forall|j: int|
                0 <= j < self.store.s().len() implies (#[trigger] self.store.s()[j]).id != id by {
                assert((#[trigger] old(self).store.s()[j]).id < old(self).alloc.next_id_spec());
            }
        }
        let ghost s0 = self.store.s();
        self.store.insert(entry);
        self.events.push(Event::CreatedBritishAuction(who, id));
        proof {
            let s1 = self.store.s();
            let ghost e = s1.last();
            assert(s1 == s0.push(e));
            assert(s1.drop_last() =~= s0);
            lemma_scan_ok(esc0, items@, 0, false);
            assert forall|a2: AccountId, c2: CurrencyId|
                (#[trigger] self.ledger.reserved_of(a2, c2)) as int == led_sum(s1, a2, c2) by {
                assert(old(self).ledger.reserved_of(a2, c2) as int == led_sum(s0, a2, c2));
                lemma_led_sum_push(s0, e, a2, c2);
            }
            assert forall|a2: AccountId, cl: ClassId, t: TokenId|
                (#[trigger] self.escrow.reserved_of(a2, cl, t)) as int == esc_sum(
                s1,
                a2,
                cl,
                t,
            ) by {
                assert(old(self).escrow.reserved_of(a2, cl, t) as int == esc_sum(s0, a2, cl, t));
                lemma_esc_sum_push(s0, e, a2, cl, t);
                assert(items@.take(n as int) =~= items@);
            }
            assert forall|g: GlobalId|
                (#[trigger] self.alloc.count_of(g)) as int == cat_sum(s1, g) by {
                assert(old(self).alloc.count_of(g) as int == cat_sum(s0, g));
                lemma_cat_sum_push(s0, e, g);
            }
            assert forall|j: int|
                0 <= j < s1.len() implies entry_items_ok(self.escrow, #[trigger] s1[j]) by {
                if j < s0.len() {
                    assert(entry_items_ok(old(self).escrow, old(self).store.s()[j]));
                    lemma_royalty_count_same(old(self).escrow, self.escrow, s1[j].auction.items@);
                } else {
                    assert(s1[j] == e);
                    lemma_royalty_count_same(esc0, self.escrow, itemsv);
                }
            }
            assert forall|j: int|
                0 <= j < s1.len() implies #[trigger] s1[j].id < self.alloc.next_id_spec() by {
                if j < s0.len() {
                    assert((#[trigger] old(self).store.s()[j]).id < old(self).alloc.next_id_spec());
                }
            }
            assert forall|j: int|
                0 <= j < s1.len() implies self.alloc.has_category(
                (#[trigger] s1[j]).auction.category_id,
            ) by {
                if j < s0.len() {
                    assert(old(self).alloc.has_category(
                        (#[trigger] old(self).store.s()[j]).auction.category_id,
                    ));
                }
            }
            assert forall|cl: ClassId, t: TokenId|
                (#[trigger] self.escrow.free_of(who, cl, t)) as int == old(self).escrow.free_of(
                who,
                cl,
                t,
            ) - items_qty(itemsv, cl, t) by {
                assert(items@.take(n as int) =~= items@);
            }
        }
        Ok(id)
    }

    /// The effective deadline of an auction, given its configuration and
    /// the height of the last offer.
    fn get_deadline(&self, deadline: BlockNumber, allow_delay: bool, last_offer_block: BlockNumber) -> (r: BlockNumber)
        ensures
            r == effective_deadline(deadline, allow_delay, last_offer_block, self.alloc.delay_spec()),
    {
        if allow_delay {
            let extended = saturating_add_u64(last_offer_block, self.alloc.auction_delay());
            if deadline > extended {
                deadline
            } else {
                extended
            }
        } else {
            deadline
        }
    }

    /// Settle a just-deleted auction: transfer `amount` from `buyer` to the
    /// seller and every lot from the seller to `buyer`.
    fn settle_after_delete(
        &mut self,
        e: &StoreEntry,
        buyer: AccountId,
        amount: Balance,
        Ghost(w0): Ghost<Pallet>,
        Ghost(i): Ghost<int>,
    )
        requires
            old(self).inv(),
            w0.inv(),
            0 <= i < w0.store.s().len(),
            *e == w0.store.s()[i],
            delete_rel(&w0, old(self), i),
            old(self).block_number == w0.block_number,
            old(self).ledger.free_of(buyer, e.auction.currency_id) >= amount,
        ensures
            final(self).inv(),
            final(self).store == old(self).store,
            final(self).alloc == old(self).alloc,
            final(self).block_number == old(self).block_number,
            final(self).events == old(self).events,
            settle_ok(&w0, final(self), buyer, amount, i),
    {
        let c = e.auction.currency_id;
        let owner = e.owner;
        proof {
            lemma_position_bounded(&w0.ledger, owner, c);
            lemma_led_sum_ge_entry(w0.store.s(), i, owner, c);
            assert(w0.ledger.reserved_of(owner, c) as int == led_sum(w0.store.s(), owner, c));
        }
        let tr = self.ledger.transfer(c, buyer, owner, amount);
        if tr.is_err() {
            // unreachable: the buyer's free balance covers the amount
            proof {
                assert(false);
            }
            return ;
        }
        let ghost led1 = self.ledger;
        proof {
            assert forall|a2: AccountId, c2: CurrencyId|
                (#[trigger] self.ledger.reserved_of(a2, c2)) as int == w0.ledger.reserved_of(
                a2,
                c2,
            ) - led_contrib(w0.store.s()[i], a2, c2) by {
                assert(old(self).ledger.reserved_of(a2, c2) as int == w0.ledger.reserved_of(a2, c2)
                    - led_contrib(w0.store.s()[i], a2, c2));
            }
            assert forall|a2: AccountId, c2: CurrencyId|
                (#[trigger] self.ledger.free_of(a2, c2)) as int == w0.ledger.free_of(a2, c2)
                + led_contrib(w0.store.s()[i], a2, c2) - (if a2 == buyer && c2 == c && buyer
                != owner {
                amount as int
            } else {
                0
            }) + (if a2 == owner && c2 == c && buyer != owner {
                amount as int
            } else {
                0
            }) by {
                assert(old(self).ledger.free_of(a2, c2) as int == w0.ledger.free_of(a2, c2)
                    + led_contrib(w0.store.s()[i], a2, c2));
            }
        }
        // hand the lots over
        let ghost esc1 = self.escrow;
        let n = e.auction.items.len();
        let mut j: usize = 0;
        while j < n
            invariant
                n == e.auction.items@.len(),
                j <= n,
                owner == e.owner,
                w0.inv(),
                0 <= i < w0.store.s().len(),
                *e == w0.store.s()[i],
                self.escrow.wf(),
                self.escrow.tokens_m() == esc1.tokens_m(),
                self.ledger == led1,
                self.alloc == old(self).alloc,
                self.store == old(self).store,
                self.block_number == old(self).block_number,
                self.events == old(self).events,
                esc1 == old(self).escrow,
                forall|cl: ClassId, t: TokenId|
                    (#[trigger] self.escrow.free_of(owner, cl, t)) as int == esc1.free_of(
                        owner,
                        cl,
                        t,
                    ) - (if buyer != owner {
                        items_qty(e.auction.items@.take(j as int), cl, t)
                    } else {
                        0
                    }),
                buyer != owner ==> forall|cl: ClassId, t: TokenId|
                    (#[trigger] self.escrow.free_of(buyer, cl, t)) as int == esc1.free_of(
                        buyer,
                        cl,
                        t,
                    ) + items_qty(e.auction.items@.take(j as int), cl, t),
                forall|a2: AccountId, cl: ClassId, t: TokenId|
                    a2 != owner && a2 != buyer ==> (#[trigger] self.escrow.free_of(a2, cl, t))
                        == esc1.free_of(a2, cl, t),
                forall|a2: AccountId, cl: ClassId, t: TokenId|
                    (#[trigger] self.escrow.reserved_of(a2, cl, t)) == esc1.reserved_of(a2, cl, t),
                forall|cl: ClassId, t: TokenId|
                    (#[trigger] esc1.free_of(owner, cl, t)) as int >= items_qty(
                        e.auction.items@,
                        cl,
                        t,
                    ),
            decreases n - j,
        {
            let it = e.auction.items[j];
            let ghost items = e.auction.items@;
            let ghost esc_pre = self.escrow;
            proof {
                assert(items[j as int] == it);
                lemma_items_qty_take_step(items, j as int, it.class_id, it.token_id);
                lemma_items_qty_take_mono(items, j + 1, items.len() as int, it.class_id, it.token_id);
                lemma_items_qty_take_all(items, it.class_id, it.token_id);
                lemma_items_qty_nonneg(items.take(j as int), it.class_id, it.token_id);
                assert(self.escrow.free_of(owner, it.class_id, it.token_id) >= it.quantity);
            }
            let tq = self.escrow.transfer(owner, buyer, it.class_id, it.token_id, it.quantity);
            if tq.is_err() {
                // unreachable: the deletion freed every lot's quantity
                proof {
                    assert(false);
                }
                return ;
            }
            proof {
                assert forall|cl: ClassId, t: TokenId|
                    (#[trigger] self.escrow.free_of(owner, cl, t)) as int == esc1.free_of(
                    owner,
                    cl,
                    t,
                ) - (if buyer != owner {
                    items_qty(items.take(j + 1), cl, t)
                } else {
                    0
                }) by {
                    lemma_items_qty_take_step(items, j as int, cl, t);
                    assert(esc_pre.free_of(owner, cl, t) as int == esc1.free_of(owner, cl, t) - (
                    if buyer != owner {
                        items_qty(items.take(j as int), cl, t)
                    } else {
                        0
                    }));
                }
                if buyer != owner {
                    assert forall|cl: ClassId, t: TokenId|
                        (#[trigger] self.escrow.free_of(buyer, cl, t)) as int == esc1.free_of(
                        buyer,
                        cl,
                        t,
                    ) + items_qty(items.take(j + 1), cl, t) by {
                        lemma_items_qty_take_step(items, j as int, cl, t);
                        assert(esc_pre.free_of(buyer, cl, t) as int == esc1.free_of(buyer, cl, t)
                            + items_qty(items.take(j as int), cl, t));
                    }
                }
                assert forall|a2: AccountId, cl: ClassId, t: TokenId|
                    a2 != owner && a2 != buyer implies (#[trigger] self.escrow.free_of(a2, cl, t))
                    == esc1.free_of(a2, cl, t) by {
                    assert(esc_pre.free_of(a2, cl, t) == esc1.free_of(a2, cl, t));
                }
                assert forall|a2: AccountId, cl: ClassId, t: TokenId|
                    (#[trigger] self.escrow.reserved_of(a2, cl, t)) == esc1.reserved_of(
                    a2,
                    cl,
                    t,
                ) by {
                    assert(esc_pre.reserved_of(a2, cl, t) == esc1.reserved_of(a2, cl, t));
                }
            }
            j = j + 1;
        }
        proof {
            let e0 = w0.store.s()[i];
            assert(e.auction.items@.take(n as int) =~= e.auction.items@);
            // re-establish the invariant: reservations were not touched
            assert forall|a2: AccountId, c2: CurrencyId|
                (#[trigger] self.ledger.reserved_of(a2, c2)) as int == led_sum(
                self.store.s(),
                a2,
                c2,
            ) by {
                assert(old(self).ledger.reserved_of(a2, c2) as int == led_sum(
                    old(self).store.s(),
                    a2,
                    c2,
                ));
                assert(led1.reserved_of(a2, c2) == old(self).ledger.reserved_of(a2, c2));
            }
            assert forall|a2: AccountId, cl: ClassId, t: TokenId|
                (#[trigger] self.escrow.reserved_of(a2, cl, t)) as int == esc_sum(
                self.store.s(),
                a2,
                cl,
                t,
            ) by {
                assert(old(self).escrow.reserved_of(a2, cl, t) as int == esc_sum(
                    old(self).store.s(),
                    a2,
                    cl,
                    t,
                ));
                assert(esc1.reserved_of(a2, cl, t) == old(self).escrow.reserved_of(a2, cl, t));
            }
            assert forall|j2: int|
                0 <= j2 < self.store.s().len() implies entry_items_ok(
                self.escrow,
                #[trigger] self.store.s()[j2],
            ) by {
                assert(entry_items_ok(old(self).escrow, old(self).store.s()[j2]));
                lemma_royalty_count_same(
                    old(self).escrow,
                    self.escrow,
                    self.store.s()[j2].auction.items@,
                );
            }
            // the settlement relation's free-balance clauses
            assert forall|a2: AccountId, c2: CurrencyId|
                (#[trigger] self.ledger.free_of(a2, c2)) as int == w0.ledger.free_of(a2, c2)
                + led_contrib(e0, a2, c2) - (if a2 == buyer && c2 == c && buyer != e0.owner {
                amount as int
            } else {
                0
            }) + (if a2 == e0.owner && c2 == c && buyer != e0.owner {
                amount as int
            } else {
                0
            }) by {
                assert(led1.free_of(a2, c2) == self.ledger.free_of(a2, c2));
            }
            assert forall|a2: AccountId, cl: ClassId, t: TokenId|
                (#[trigger] self.escrow.free_of(a2, cl, t)) as int == w0.escrow.free_of(a2, cl, t)
                + esc_contrib(e0, a2, cl, t) - (if a2 == e0.owner && buyer != e0.owner {
                items_qty(e0.auction.items@, cl, t)
            } else {
                0
            }) + (if a2 == buyer && buyer != e0.owner {
                items_qty(e0.auction.items@, cl, t)
            } else {
                0
            }) by {
                assert(esc1.free_of(a2, cl, t) as int == w0.escrow.free_of(a2, cl, t)
                    + esc_contrib(e0, a2, cl, t));
                if a2 == e0.owner {
                    assert(self.escrow.free_of(e0.owner, cl, t) as int == esc1.free_of(
                        e0.owner,
                        cl,
                        t,
                    ) - (if buyer != e0.owner {
                        items_qty(e0.auction.items@.take(n as int), cl, t)
                    } else {
                        0
                    }));
                } else if a2 == buyer {
                    if buyer != e0.owner {
                        assert(self.escrow.free_of(buyer, cl, t) as int == esc1.free_of(
                            buyer,
                            cl,
                            t,
                        ) + items_qty(e0.auction.items@.take(n as int), cl, t));
                    }
                } else {
                    assert(self.escrow.free_of(a2, cl, t) == esc1.free_of(a2, cl, t));
                }
            }
            assert forall|a2: AccountId, cl: ClassId, t: TokenId|
                (#[trigger] self.escrow.reserved_of(a2, cl, t)) as int == w0.escrow.reserved_of(
                a2,
                cl,
                t,
            ) - esc_contrib(e0, a2, cl, t) by {
                assert(esc1.reserved_of(a2, cl, t) as int == w0.escrow.reserved_of(a2, cl, t)
                    - esc_contrib(e0, a2, cl, t));
                assert(self.escrow.reserved_of(a2, cl, t) == esc1.reserved_of(a2, cl, t));
            }
            assert forall|a2: AccountId, c2: CurrencyId|
                (#[trigger] self.ledger.reserved_of(a2, c2)) as int == w0.ledger.reserved_of(
                a2,
                c2,
            ) - led_contrib(e0, a2, c2) by {
                assert(led1.reserved_of(a2, c2) == self.ledger.reserved_of(a2, c2));
            }
        }
    }

    /// Place a bid: either an accepted raise of the current offer, or an
    /// instant hammer settlement when the offer reaches the hammer price.
    #[verifier::rlimit(50)]
    pub fn bid_british_auction(
        &mut self,
        purchaser: AccountId,
        price: Balance,
        auction_owner: AccountId,
        auction_id: GlobalId,
    ) -> (r: Result<crate::types::BidOutcome, Error>)
        requires
            old(self).inv(),
        ensures
            final(self).inv(),
            r is Err ==> *final(self) == *old(self) && bid_err(
                old(self),
                purchaser,
                price,
                auction_owner,
                auction_id,
            ) == Some(r->Err_0),
            r is Ok ==> bid_err(old(self), purchaser, price, auction_owner, auction_id) is None,
            r == Ok::<crate::types::BidOutcome, Error>(crate::types::BidOutcome::Accepted)
                ==> exists|i: int|
                {
                    &&& 0 <= i < old(self).store.s().len()
                    &&& (#[trigger] old(self).store.s()[i]).id == auction_id
                    &&& old(self).store.s()[i].owner == auction_owner
                    &&& bid_raise_ok(old(self), final(self), purchaser, price, auction_id, i)
                },
            r == Ok::<crate::types::BidOutcome, Error>(crate::types::BidOutcome::Hammered)
                ==> exists|i: int|
                {
                    &&& 0 <= i < old(self).store.s().len()
                    &&& (#[trigger] old(self).store.s()[i]).id == auction_id
                    &&& old(self).store.s()[i].owner == auction_owner
                    &&& old(self).store.s()[i].auction.hammer_price > 0
                    &&& price >= old(self).store.s()[i].auction.hammer_price
                    &&& settle_ok(
                        old(self),
                        final(self),
                        purchaser,
                        old(self).store.s()[i].auction.hammer_price,
                        i,
                    )
                    &&& final(self).events@ == old(self).events@.push(
                        Event::HammerBritishAuction(purchaser, auction_id),
                    )
                },
    {
        let idx = match self.store.get_index(auction_id) {
            None => {
                return Err(Error::BritishAuctionNotFound);
            },
            Some(i) => i,
        };
        let (e_owner, e_bid, a_currency, a_hammer, a_min_raise, a_deadline, a_allow_delay, a_deposit) = {
            let ent = self.store.entry_at(idx);
            (
                ent.owner,
                ent.bid,
                ent.auction.currency_id,
                ent.auction.hammer_price,
                ent.auction.min_raise,
                ent.auction.deadline,
                ent.auction.allow_delay,
                ent.auction.deposit,
            )
        };
        let ghost e0 = old(self).store.s()[idx as int];
        if e_owner != auction_owner {
            return Err(Error::BritishAuctionNotFound);
        }
        let dl = self.get_deadline(a_deadline, a_allow_delay, e_bid.last_offer_block);
        if !(dl >= self.block_number) {
            return Err(Error::BritishAuctionClosed);
        }
        if a_hammer > 0 && price >= a_hammer {
            // what the deletion will free up for the purchaser in this currency
            proof {
                assert(old(self).ledger.reserved_of(purchaser, a_currency) as int == led_sum(
                    old(self).store.s(),
                    purchaser,
                    a_currency,
                ));
                lemma_led_sum_ge_entry(old(self).store.s(), idx as int, purchaser, a_currency);
                lemma_position_bounded(&old(self).ledger, purchaser, a_currency);
            }
            let mut gain: Balance = 0;
            if let Some(acct) = e_bid.last_offer_account {
                if acct == purchaser {
                    gain = e_bid.last_offer_price;
                }
            }
            if purchaser == e_owner && a_currency == NATIVE_CURRENCY_ID {
                gain = gain + a_deposit;
            }
            proof {
                assert(gain as int == led_contrib(e0, purchaser, a_currency));
            }
            let avail = self.ledger.free_balance(purchaser, a_currency) + gain;
            if avail < a_hammer {
                return Err(Error::InsufficientBalance);
            }
            let e = self.delete_british_auction(idx);
            proof {
                assert(self.ledger.free_of(purchaser, a_currency) as int == old(
                    self,
                ).ledger.free_of(purchaser, a_currency) + led_contrib(e0, purchaser, a_currency));
            }
            self.settle_after_delete(
                &e,
                purchaser,
                a_hammer,
                Ghost(*old(self)),
                Ghost(idx as int),
            );
            self.events.push(Event::HammerBritishAuction(purchaser, auction_id));
            proof {
                let i = idx as int;
                assert((#[trigger] old(self).store.s()[i]).id == auction_id);
                assert(settle_ok(old(self), self, purchaser, a_hammer, i));
            }
            return Ok(crate::types::BidOutcome::Hammered);
        }
        // raise path
        let lowest = saturating_add_u128(
            e_bid.last_offer_price,
            a_min_raise.mul_ceil(e_bid.last_offer_price),
        );
        if !(price > lowest) {
            return Err(Error::PriceTooLow);
        }
        if let Some(acct) = e_bid.last_offer_account {
            if acct == purchaser {
                return Err(Error::DuplicatedBid);
            }
        }
        if self.ledger.free_balance(purchaser, a_currency) < price {
            return Err(Error::InsufficientBalance);
        }
        // release the outbid bidder, reserve the new offer
        if let Some(acct) = e_bid.last_offer_account {
            proof {
                assert(old(self).ledger.reserved_of(acct, a_currency) as int == led_sum(
                    old(self).store.s(),
                    acct,
                    a_currency,
                ));
                lemma_led_sum_ge_entry(old(self).store.s(), idx as int, acct, a_currency);
                lemma_position_bounded(&old(self).ledger, acct, a_currency);
            }
            let released = self.ledger.unreserve(acct, a_currency, e_bid.last_offer_price);
            proof {
                assert(released == e_bid.last_offer_price);
            }
        }
        let rr = self.ledger.reserve(purchaser, a_currency, price);
        if rr.is_err() {
            // unreachable: the purchaser's free balance was checked above
            proof {
                assert(false);
            }
            return Err(Error::InsufficientBalance);
        }
        let mut ent = self.store.remove_at(idx);
        ent.bid = BritishAuctionBid {
            last_offer_price: price,
            last_offer_account: Some(purchaser),
            last_offer_block: self.block_number,
        };
        proof {
            // the id is unique, so it is absent from the shrunken store
            let s0 = old(self).store.s();
            let s1 = s0.remove(idx as int);
            assert forall|j: int| 0 <= j < s1.len() implies (#[trigger] s1[j]).id != auction_id by {
                let j0 = if j < idx as int {
                    j
                } else {
                    j + 1
                };
                assert(s1[j] == s0[j0]);
            }
        }
        self.store.insert(ent);
        self.events.push(Event::BidBritishAuction(purchaser, auction_id));
        proof {
            let s0 = old(self).store.s();
            let i = idx as int;
            let s1 = self.store.s();
            let e1 = s1.last();
            assert(s1 == s0.remove(i).push(e1));
            assert(e1.auction == e0.auction);
            assert forall|a2: AccountId, c2: CurrencyId|
                (#[trigger] self.ledger.reserved_of(a2, c2)) as int == led_sum(s1, a2, c2) by {
                assert(old(self).ledger.reserved_of(a2, c2) as int == led_sum(s0, a2, c2));
                lemma_led_sum_remove(s0, i, a2, c2);
                lemma_led_sum_push(s0.remove(i), e1, a2, c2);
            }
            assert forall|a2: AccountId, cl: ClassId, t: TokenId|
                (#[trigger] self.escrow.reserved_of(a2, cl, t)) as int == esc_sum(
                s1,
                a2,
                cl,
                t,
            ) by {
                assert(old(self).escrow.reserved_of(a2, cl, t) as int == esc_sum(s0, a2, cl, t));
                lemma_esc_sum_remove(s0, i, a2, cl, t);
                lemma_esc_sum_push(s0.remove(i), e1, a2, cl, t);
            }
            assert forall|g: GlobalId|
                (#[trigger] self.alloc.count_of(g)) as int == cat_sum(s1, g) by {
                assert(old(self).alloc.count_of(g) as int == cat_sum(s0, g));
                lemma_cat_sum_remove(s0, i, g);
                lemma_cat_sum_push(s0.remove(i), e1, g);
            }
            assert forall|j: int|
                0 <= j < s1.len() implies entry_items_ok(self.escrow, #[trigger] s1[j]) by {
                let j0 = if j < s1.len() - 1 {
                    if j < i {
                        j
                    } else {
                        j + 1
                    }
                } else {
                    i
                };
                assert(s1[j] == s0[j0] || j == s1.len() - 1);
                assert(entry_items_ok(old(self).escrow, old(self).store.s()[j0]));
                if j == s1.len() - 1 {
                    assert(s1[j] == e1);
                    assert(e1.auction.items@ == s0[i].auction.items@);
                }
            }
            assert forall|j: int|
                0 <= j < s1.len() implies #[trigger] s1[j].id < self.alloc.next_id_spec() by {
                let j0 = if j < s1.len() - 1 {
                    if j < i {
                        j
                    } else {
                        j + 1
                    }
                } else {
                    i
                };
                assert((#[trigger] old(self).store.s()[j0]).id < old(self).alloc.next_id_spec());
                assert(s1[j] == s0[j0] || s1[j].id == s0[i].id);
            }
            assert forall|j: int|
                0 <= j < s1.len() implies self.alloc.has_category(
                (#[trigger] s1[j]).auction.category_id,
            ) by {
                let j0 = if j < s1.len() - 1 {
                    if j < i {
                        j
                    } else {
                        j + 1
                    }
                } else {
                    i
                };
                assert(old(self).alloc.has_category(
                    (#[trigger] old(self).store.s()[j0]).auction.category_id,
                ));
                assert(s1[j] == s0[j0] || s1[j].auction == s0[i].auction);
            }
            assert((#[trigger] s0[i]).id == auction_id);
            assert(bid_raise_ok(old(self), self, purchaser, price, auction_id, i));
        }
        Ok(crate::types::BidOutcome::Accepted)
    }

    /// Redeem an auction whose deadline has passed: delete it and settle
    /// with the highest bidder.
    pub fn redeem_british_auction(&mut self, auction_owner: AccountId, auction_id: GlobalId) -> (r:
        Result<(), Error>)
        requires
            old(self).inv(),
        ensures
            final(self).inv(),
            r is Err ==> *final(self) == *old(self) && redeem_err(
                old(self),
                auction_owner,
                auction_id,
            ) == Some(r->Err_0),
            r is Ok ==> redeem_err(old(self), auction_owner, auction_id) is None,
            r is Ok ==> exists|i: int|
                {
                    &&& 0 <= i < old(self).store.s().len()
                    &&& (#[trigger] old(self).store.s()[i]).id == auction_id
                    &&& old(self).store.s()[i].owner == auction_owner
                    &&& old(self).store.s()[i].bid.last_offer_account matches Some(winner)
                        && settle_ok(
                        old(self),
                        final(self),
                        winner,
                        old(self).store.s()[i].bid.last_offer_price,
                        i,
                    ) && final(self).events@ == old(self).events@.push(
                        Event::RedeemedBritishAuction(winner, auction_id),
                    )
                },
    {
        let idx = match self.store.get_index(auction_id) {
            None => {
                return Err(Error::BritishAuctionBidNotFound);
            },
            Some(i) => i,
        };
        let (e_owner, e_bid, a_currency, a_deadline, a_allow_delay) = {
            let ent = self.store.entry_at(idx);
            (
                ent.owner,
                ent.bid,
                ent.auction.currency_id,
                ent.auction.deadline,
                ent.auction.allow_delay,
            )
        };
        let ghost e0 = old(self).store.s()[idx as int];
        if e_owner != auction_owner {
            return Err(Error::BritishAuctionNotFound);
        }
        let dl = self.get_deadline(a_deadline, a_allow_delay, e_bid.last_offer_block);
        if !(dl < self.block_number) {
            return Err(Error::CannotRedeemAuction);
        }
        let winner = match e_bid.last_offer_account {
            None => {
                return Err(Error::CannotRemoveAuction);
            },
            Some(acct) => acct,
        };
        proof {
            assert(old(self).ledger.reserved_of(winner, a_currency) as int == led_sum(
                old(self).store.s(),
                winner,
                a_currency,
            ));
            lemma_led_sum_ge_entry(old(self).store.s(), idx as int, winner, a_currency);
            lemma_position_bounded(&old(self).ledger, winner, a_currency);
        }
        let e = self.delete_british_auction(idx);
        proof {
            assert(self.ledger.free_of(winner, a_currency) as int == old(self).ledger.free_of(
                winner,
                a_currency,
            ) + led_contrib(e0, winner, a_currency));
            assert(led_contrib(e0, winner, a_currency) >= e0.bid.last_offer_price);
        }
        self.settle_after_delete(
            &e,
            winner,
            e.bid.last_offer_price,
            Ghost(*old(self)),
            Ghost(idx as int),
        );
        self.events.push(Event::RedeemedBritishAuction(winner, auction_id));
        proof {
            let i = idx as int;
            assert((#[trigger] old(self).store.s()[i]).id == auction_id);
            assert(settle_ok(old(self), self, winner, e0.bid.last_offer_price, i));
        }
        Ok(())
    }
}

impl Pallet {
    /// The auction record under (`owner`, `auction_id`), if any; a fresh
    /// copy of the stored record.
    pub fn british_auctions(&self, owner: AccountId, auction_id: GlobalId) -> (r: Option<
        BritishAuction,
    >)
        requires
            self.inv(),
        ensures
            match r {
                Some(a) => exists|i: int|
                    {
                        &&& 0 <= i < self.store.s().len()
                        &&& (#[trigger] self.store.s()[i]).id == auction_id
                        &&& self.store.s()[i].owner == owner
                        &&& auction_matches(&a, &self.store.s()[i].auction)
                    },
                None => !self.has_auction(owner, auction_id),
            },
    {
        match self.store.get_index(auction_id) {
            None => None,
            Some(i) => {
                let ent = self.store.entry_at(i);
                if ent.owner == owner {
                    let a = copy_auction(&ent.auction);
                    proof {
                        assert((#[trigger] self.store.s()[i as int]).id == auction_id);
                    }
                    Some(a)
                } else {
                    None
                }
            },
        }
    }

    /// The bid record under `auction_id`, if any.
    pub fn british_auction_bids(&self, auction_id: GlobalId) -> (r: Option<BritishAuctionBid>)
        requires
            self.inv(),
        ensures
            match r {
                Some(b) => exists|i: int|
                    {
                        &&& 0 <= i < self.store.s().len()
                        &&& (#[trigger] self.store.s()[i]).id == auction_id
                        &&& b == self.store.s()[i].bid
                    },
                None => !self.has_auction_id(auction_id),
            },
    {
        match self.store.get_index(auction_id) {
            None => None,
            Some(i) => {
                let b = self.store.entry_at(i).bid;
                proof {
                    assert((#[trigger] self.store.s()[i as int]).id == auction_id);
                }
                Some(b)
            },
        }
    }

    /// The free balance of `a` in currency `c`.
    pub fn free_balance(&self, a: AccountId, c: CurrencyId) -> (r: Balance)
        requires
            self.inv(),
        ensures
            r == self.ledger.free_of(a, c),
    {
        self.ledger.free_balance(a, c)
    }

    /// The reserved balance of `a` in currency `c`.
    pub fn reserved_balance(&self, a: AccountId, c: CurrencyId) -> (r: Balance)
        requires
            self.inv(),
        ensures
            r == self.ledger.reserved_of(a, c),
    {
        self.ledger.reserved_balance(a, c)
    }

    /// The free quantity of token (`cl`, `t`) held by `a`.
    pub fn free_quantity(&self, a: AccountId, cl: ClassId, t: TokenId) -> (r: Quantity)
        requires
            self.inv(),
        ensures
            r == self.escrow.free_of(a, cl, t),
    {
        self.escrow.free_quantity(a, cl, t)
    }

    /// The reserved quantity of token (`cl`, `t`) held by `a`.
    pub fn reserved_quantity(&self, a: AccountId, cl: ClassId, t: TokenId) -> (r: Quantity)
        requires
            self.inv(),
        ensures
            r == self.escrow.reserved_of(a, cl, t),
    {
        self.escrow.reserved_quantity(a, cl, t)
    }

    /// The item count of category `g`, if it exists.
    pub fn category_count(&self, g: GlobalId) -> (r: Option<u128>)
        requires
            self.inv(),
        ensures
            self.alloc.has_category(g) ==> r == Some::<u128>(self.alloc.count_of(g)),
            !self.alloc.has_category(g) ==> r is None,
    {
        self.alloc.category_count(g)
    }

    /// The next id the shared allocator will issue.
    pub fn current_gid(&self) -> (r: GlobalId)
        ensures
            r == self.alloc.next_id_spec(),
    {
        self.alloc.peek_next_id()
    }

    /// The emitted events, oldest first.
    pub fn events(&self) -> (r: &Vec<Event>)
        ensures
            r@ == self.events@,
    {
        &self.events
    }
}

/// What the shared deletion primitive does to the state, entry `i` of the
/// old store being deleted: the store entry disappears, the bidder's
/// reservation and the seller's deposit return to their free balances, the
/// lots return to the seller's free quantities, and the category count
/// goes down by one. Block height and events are untouched by deletion.
pub open spec fn delete_rel(w0: &Pallet, w1: &Pallet, i: int) -> bool {
    let e = w0.store.s()[i];
    &&& w1.store.s() == w0.store.s().remove(i)
    &&& forall|a2: AccountId, c2: CurrencyId|
        (#[trigger] w1.ledger.reserved_of(a2, c2)) as int == w0.ledger.reserved_of(a2, c2)
            - led_contrib(e, a2, c2)
    &&& forall|a2: AccountId, c2: CurrencyId|
        (#[trigger] w1.ledger.free_of(a2, c2)) as int == w0.ledger.free_of(a2, c2) + led_contrib(
            e,
            a2,
            c2,
        )
    &&& w1.ledger.grand_total() == w0.ledger.grand_total()
    &&& forall|a2: AccountId, cl: ClassId, t: TokenId|
        (#[trigger] w1.escrow.reserved_of(a2, cl, t)) as int == w0.escrow.reserved_of(a2, cl, t)
            - esc_contrib(e, a2, cl, t)
    &&& forall|a2: AccountId, cl: ClassId, t: TokenId|
        (#[trigger] w1.escrow.free_of(a2, cl, t)) as int == w0.escrow.free_of(a2, cl, t)
            + esc_contrib(e, a2, cl, t)
    &&& w1.escrow.tokens_m() == w0.escrow.tokens_m()
    &&& w1.alloc.cats_m() == w0.alloc.cats_m().insert(
        e.auction.category_id,
        (w0.alloc.count_of(e.auction.category_id) - 1) as u128,
    )
    &&& w1.alloc.next_id_spec() == w0.alloc.next_id_spec()
    &&& w1.alloc.min_deposit_spec() == w0.alloc.min_deposit_spec()
    &&& w1.alloc.delay_spec() == w0.alloc.delay_spec()
}

/// The first check that fails on a submission, if any, in the order the
/// engine applies them: the deposit floor, the deadline, the hammer price,
/// the lot scan, the seller's balance, the lot availability, the category,
/// and the id space.
pub open spec fn submit_err(
    w: &Pallet,
    who: AccountId,
    hammer_price: Balance,
    deposit: Balance,
    init_price: Balance,
    deadline: BlockNumber,
    category_id: GlobalId,
    items: Seq<OrderItem>,
) -> Option<Error> {
    if deposit < w.alloc.min_deposit_spec() {
        Some(Error::SubmitWithInvalidDeposit)
    } else if !(w.block_number < deadline) {
        Some(Error::SubmitWithInvalidDeadline)
    } else if hammer_price > 0 && !(hammer_price > init_price) {
        Some(Error::InvalidHammerPrice)
    } else if scan_items_from(w.escrow, items, 0, false) is Some {
        scan_items_from(w.escrow, items, 0, false)
    } else if w.ledger.free_of(who, NATIVE_CURRENCY_ID) < deposit {
        Some(Error::InsufficientBalance)
    } else if !lots_available(w.escrow, who, items) {
        Some(Error::InsufficientQuantity)
    } else if !w.alloc.has_category(category_id) {
        Some(Error::CategoryNotFound)
    } else if w.alloc.next_id_spec() == u64::MAX {
        Some(Error::ArithmeticOverflow)
    } else {
        None
    }
}

/// What a successful submission does to the state: one new store entry
/// carrying the submitted configuration and the synthetic initial bid,
/// the deposit moved from the seller's free to reserved balance, every
/// lot's quantity moved from free to reserved in the escrow, the category
/// counted up, the id issued, and the creation event appended.
pub open spec fn submit_ok(
    w0: &Pallet,
    w1: &Pallet,
    who: AccountId,
    currency_id: CurrencyId,
    hammer_price: Balance,
    min_raise: PerU16,
    deposit: Balance,
    init_price: Balance,
    deadline: BlockNumber,
    allow_delay: bool,
    category_id: GlobalId,
    items: Seq<OrderItem>,
) -> bool {
    let id = w0.alloc.next_id_spec();
    let s1 = w1.store.s();
    let e = s1.last();
    &&& s1.len() == w0.store.s().len() + 1
    &&& s1.drop_last() == w0.store.s()
    &&& e.id == id
    &&& e.owner == who
    &&& e.auction.currency_id == currency_id
    &&& e.auction.hammer_price == hammer_price
    &&& e.auction.min_raise == min_raise
    &&& e.auction.deposit == deposit
    &&& e.auction.init_price == init_price
    &&& e.auction.deadline == deadline
    &&& e.auction.allow_delay == allow_delay
    &&& e.auction.category_id == category_id
    &&& e.auction.items@ == items
    &&& e.bid == BritishAuctionBid {
        last_offer_price: init_price,
        last_offer_account: None,
        last_offer_block: 0,
    }
    &&& w1.ledger.m() == w0.ledger.m().insert(
        (who, NATIVE_CURRENCY_ID),
        Position {
            free: (w0.ledger.free_of(who, NATIVE_CURRENCY_ID) - deposit) as Balance,
            reserved: (w0.ledger.reserved_of(who, NATIVE_CURRENCY_ID) + deposit) as Balance,
        },
    )
    &&& w1.escrow.tokens_m() == w0.escrow.tokens_m()
    &&& forall|cl: ClassId, t: TokenId|
        (#[trigger] w1.escrow.free_of(who, cl, t)) as int == w0.escrow.free_of(who, cl, t)
            - items_qty(items, cl, t)
    &&& forall|cl: ClassId, t: TokenId|
        (#[trigger] w1.escrow.reserved_of(who, cl, t)) as int == w0.escrow.reserved_of(who, cl, t)
            + items_qty(items, cl, t)
    &&& forall|a2: AccountId, cl: ClassId, t: TokenId|
        a2 != who ==> (#[trigger] w1.escrow.free_of(a2, cl, t)) == w0.escrow.free_of(a2, cl, t)
    &&& forall|a2: AccountId, cl: ClassId, t: TokenId|
        a2 != who ==> (#[trigger] w1.escrow.reserved_of(a2, cl, t)) == w0.escrow.reserved_of(
            a2,
            cl,
            t,
        )
    &&& w1.alloc.cats_m() == w0.alloc.cats_m().insert(
        category_id,
        (w0.alloc.count_of(category_id) + 1) as u128,
    )
    &&& w1.alloc.next_id_spec() == id + 1
    &&& w1.alloc.min_deposit_spec() == w0.alloc.min_deposit_spec()
    &&& w1.alloc.delay_spec() == w0.alloc.delay_spec()
    &&& w1.block_number == w0.block_number
    &&& w1.events@ == w0.events@.push(Event::CreatedBritishAuction(who, id))
}

/// The first check that fails on a bid, if any: the auction is looked up
/// under its owner, the effective deadline must not have passed, and then
/// either the hammer path's funding check or the raise path's price,
/// self-outbid and funding checks apply.
pub open spec fn bid_err(
    w: &Pallet,
    purchaser: AccountId,
    price: Balance,
    owner: AccountId,
    auction_id: GlobalId,
) -> Option<Error> {
    if !w.has_auction_id(auction_id) {
        Some(Error::BritishAuctionNotFound)
    } else {
        let i = choose|i: int| 0 <= i < w.store.s().len() && w.store.s()[i].id == auction_id;
        let e = w.store.s()[i];
        let c = e.auction.currency_id;
        if e.owner != owner {
            Some(Error::BritishAuctionNotFound)
        } else if !(effective_deadline(
            e.auction.deadline,
            e.auction.allow_delay,
            e.bid.last_offer_block,
            w.alloc.delay_spec(),
        ) >= w.block_number) {
            Some(Error::BritishAuctionClosed)
        } else if e.auction.hammer_price > 0 && price >= e.auction.hammer_price {
            // deleting the auction first frees the purchaser's own stakes
            if w.ledger.free_of(purchaser, c) + led_contrib(e, purchaser, c)
                < e.auction.hammer_price {
                Some(Error::InsufficientBalance)
            } else {
                None
            }
        } else if !(price > lowest_price(e.bid.last_offer_price, e.auction.min_raise)) {
            Some(Error::PriceTooLow)
        } else if e.bid.last_offer_account == Some(purchaser) {
            Some(Error::DuplicatedBid)
        } else if w.ledger.free_of(purchaser, c) < price {
            Some(Error::InsufficientBalance)
        } else {
            None
        }
    }
}

/// What an accepted raise does to the state, entry `i` of the old store
/// being the auction: the bid record is replaced, the previous bidder's
/// reservation returns to their free balance, the new bidder's offer moves
/// from free to reserved, and the bid event is appended. Everything else
/// is untouched.
pub open spec fn bid_raise_ok(
    w0: &Pallet,
    w1: &Pallet,
    purchaser: AccountId,
    price: Balance,
    auction_id: GlobalId,
    i: int,
) -> bool {
    let e = w0.store.s()[i];
    let c = e.auction.currency_id;
    let s1 = w1.store.s();
    let e1 = s1.last();
    &&& !(e.auction.hammer_price > 0 && price >= e.auction.hammer_price)
    &&& s1 == w0.store.s().remove(i).push(e1)
    &&& e1.id == e.id
    &&& e1.owner == e.owner
    &&& e1.auction == e.auction
    &&& e1.bid == BritishAuctionBid {
        last_offer_price: price,
        last_offer_account: Some(purchaser),
        last_offer_block: w0.block_number,
    }
    &&& forall|a2: AccountId, c2: CurrencyId|
        (#[trigger] w1.ledger.reserved_of(a2, c2)) as int == w0.ledger.reserved_of(a2, c2)
            - led_contrib(e, a2, c2) + led_contrib(e1, a2, c2)
    &&& forall|a2: AccountId, c2: CurrencyId|
        (#[trigger] w1.ledger.free_of(a2, c2)) as int == w0.ledger.free_of(a2, c2) + (
        if e.bid.last_offer_account == Some(a2) && c2 == c {
            e.bid.last_offer_price as int
        } else {
            0
        }) - (if a2 == purchaser && c2 == c {
            price as int
        } else {
            0
        })
    &&& w1.ledger.grand_total() == w0.ledger.grand_total()
    &&& w1.escrow == w0.escrow
    &&& w1.alloc == w0.alloc
    &&& w1.block_number == w0.block_number
    &&& w1.events@ == w0.events@.push(Event::BidBritishAuction(purchaser, auction_id))
}

/// What a settlement (hammer or redemption) does to the state, entry `i`
/// of the old store being the auction and `buyer` paying `amount`: the
/// auction is deleted as by the deletion primitive, the settlement amount
/// moves from the buyer's free balance to the seller's, and every lot
/// moves from the seller's free quantities to the buyer's.
pub open spec fn settle_ok(
    w0: &Pallet,
    w1: &Pallet,
    buyer: AccountId,
    amount: Balance,
    i: int,
) -> bool {
    let e = w0.store.s()[i];
    let c = e.auction.currency_id;
    &&& w1.store.s() == w0.store.s().remove(i)
    &&& forall|a2: AccountId, c2: CurrencyId|
        (#[trigger] w1.ledger.reserved_of(a2, c2)) as int == w0.ledger.reserved_of(a2, c2)
            - led_contrib(e, a2, c2)
    &&& forall|a2: AccountId, c2: CurrencyId|
        (#[trigger] w1.ledger.free_of(a2, c2)) as int == w0.ledger.free_of(a2, c2) + led_contrib(
            e,
            a2,
            c2,
        ) - (if a2 == buyer && c2 == c && buyer != e.owner {
            amount as int
        } else {
            0
        }) + (if a2 == e.owner && c2 == c && buyer != e.owner {
            amount as int
        } else {
            0
        })
    &&& w1.ledger.grand_total() == w0.ledger.grand_total()
    &&& forall|a2: AccountId, cl: ClassId, t: TokenId|
        (#[trigger] w1.escrow.reserved_of(a2, cl, t)) as int == w0.escrow.reserved_of(a2, cl, t)
            - esc_contrib(e, a2, cl, t)
    &&& forall|a2: AccountId, cl: ClassId, t: TokenId|
        (#[trigger] w1.escrow.free_of(a2, cl, t)) as int == w0.escrow.free_of(a2, cl, t)
            + esc_contrib(e, a2, cl, t) - (if a2 == e.owner && buyer != e.owner {
            items_qty(e.auction.items@, cl, t)
        } else {
            0
        }) + (if a2 == buyer && buyer != e.owner {
            items_qty(e.auction.items@, cl, t)
        } else {
            0
        })
    &&& w1.escrow.tokens_m() == w0.escrow.tokens_m()
    &&& w1.alloc.cats_m() == w0.alloc.cats_m().insert(
        e.auction.category_id,
        (w0.alloc.count_of(e.auction.category_id) - 1) as u128,
    )
    &&& w1.alloc.next_id_spec() == w0.alloc.next_id_spec()
    &&& w1.alloc.min_deposit_spec() == w0.alloc.min_deposit_spec()
    &&& w1.alloc.delay_spec() == w0.alloc.delay_spec()
    &&& w1.block_number == w0.block_number
}

/// The first check that fails on a redemption, if any: the bid record is
/// looked up by id first, then the auction under its owner; the effective
/// deadline must have passed and a bidder must exist.
pub open spec fn redeem_err(w: &Pallet, owner: AccountId, auction_id: GlobalId) -> Option<Error> {
    if !w.has_auction_id(auction_id) {
        Some(Error::BritishAuctionBidNotFound)
    } else {
        let i = choose|i: int| 0 <= i < w.store.s().len() && w.store.s()[i].id == auction_id;
        let e = w.store.s()[i];
        if e.owner != owner {
            Some(Error::BritishAuctionNotFound)
        } else if !(effective_deadline(
            e.auction.deadline,
            e.auction.allow_delay,
            e.bid.last_offer_block,
            w.alloc.delay_spec(),
        ) < w.block_number) {
            Some(Error::CannotRedeemAuction)
        } else if e.bid.last_offer_account is None {
            Some(Error::CannotRemoveAuction)
        } else {
            None
        }
    }
}

/// The first check that fails on a removal, if any: the bid record is
/// looked up by id first, then the auction record under its owner, then
/// the auction must never have been bid on.
pub open spec fn remove_err(w: &Pallet, who: AccountId, auction_id: GlobalId) -> Option<Error> {
    if !w.has_auction_id(auction_id) {
        Some(Error::BritishAuctionBidNotFound)
    } else {
        let i = choose|i: int|
            0 <= i < w.store.s().len() && w.store.s()[i].id == auction_id;
        let e = w.store.s()[i];
        if e.owner != who {
            Some(Error::BritishAuctionNotFound)
        } else if e.bid.last_offer_account is Some {
            Some(Error::CannotRemoveAuction)
        } else {
            None
        }
    }
}

} // verus!
