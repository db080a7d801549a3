//! The accounting model of the engine: how much of each ledger reservation,
//! escrow reservation and category count the live auctions account for,
//! and the deadline and minimum-raise policy functions.

use vstd::prelude::*;
use crate::types::{
    AccountId, Balance, BlockNumber, ClassId, CurrencyId, Error, GlobalId, OrderItem, PerU16,
    Quantity, TokenId, NATIVE_CURRENCY_ID, sat_add_u128, sat_add_u64, per_u16_mul_ceil,
};
use crate::escrow::Escrow;
use crate::store::StoreEntry;

verus! {

/// The effective deadline of an auction: with the delay extension enabled
/// it is the later of the configured deadline and the last offer's height
/// plus the allocator's auction delay.
pub open spec fn effective_deadline(
    deadline: BlockNumber,
    allow_delay: bool,
    last_offer_block: BlockNumber,
    delay: BlockNumber,
) -> BlockNumber {
    if allow_delay {
        let extended = sat_add_u64(last_offer_block, delay);
        if deadline > extended {
            deadline
        } else {
            extended
        }
    } else {
        deadline
    }
}

/// The lowest price a raise must strictly exceed: the previous offer plus
/// the ceiling product of the previous offer and the minimum raise.
pub open spec fn lowest_price(last_offer_price: Balance, min_raise: PerU16) -> Balance {
    sat_add_u128(last_offer_price, per_u16_mul_ceil(min_raise.parts, last_offer_price) as Balance)
}

/// The currency amount of (`a`, `c`) that one live auction accounts for:
/// its current bid reservation and, in the native currency, its seller's
/// deposit.
pub open spec fn led_contrib(e: StoreEntry, a: AccountId, c: CurrencyId) -> int {
    (if e.bid.last_offer_account == Some(a) && e.auction.currency_id == c {
        e.bid.last_offer_price as int
    } else {
        0
    }) + (if e.owner == a && c == NATIVE_CURRENCY_ID {
        e.auction.deposit as int
    } else {
        0
    })
}

/// The currency amount of (`a`, `c`) that all live auctions account for.
pub open spec fn led_sum(s: Seq<StoreEntry>, a: AccountId, c: CurrencyId) -> int
    decreases s.len(),
{
    if s.len() == 0 {
        0
    } else {
        led_sum(s.drop_last(), a, c) + led_contrib(s.last(), a, c)
    }
}

/// The total quantity of token (`cl`, `t`) among the lots `items`.
pub open spec fn items_qty(items: Seq<OrderItem>, cl: ClassId, t: TokenId) -> int
    decreases items.len(),
{
    if items.len() == 0 {
        0
    } else {
        items_qty(items.drop_last(), cl, t) + (if items.last().class_id == cl
            && items.last().token_id == t {
            items.last().quantity as int
        } else {
            0
        })
    }
}

/// The quantity of token (`cl`, `t`) reserved from `a` that one live
/// auction accounts for.
pub open spec fn esc_contrib(e: StoreEntry, a: AccountId, cl: ClassId, t: TokenId) -> int {
    if e.owner == a {
        items_qty(e.auction.items@, cl, t)
    } else {
        0
    }
}

/// The quantity of token (`cl`, `t`) reserved from `a` that all live
/// auctions account for.
pub open spec fn esc_sum(s: Seq<StoreEntry>, a: AccountId, cl: ClassId, t: TokenId) -> int
    decreases s.len(),
{
    if s.len() == 0 {
        0
    } else {
        esc_sum(s.drop_last(), a, cl, t) + esc_contrib(s.last(), a, cl, t)
    }
}

/// One if the auction is counted under category `g`.
pub open spec fn cat_contrib(e: StoreEntry, g: GlobalId) -> int {
    if e.auction.category_id == g {
        1int
    } else {
        0int
    }
}

/// The number of live auctions counted under category `g`.
pub open spec fn cat_sum(s: Seq<StoreEntry>, g: GlobalId) -> int
    decreases s.len(),
{
    if s.len() == 0 {
        0
    } else {
        cat_sum(s.drop_last(), g) + cat_contrib(s.last(), g)
    }
}

/// The number of royalty-bearing lots among `items` from position `i` on.
pub open spec fn royalty_count_from(esc: Escrow, items: Seq<OrderItem>, i: int) -> int
    decreases items.len() - i,
{
    if i < 0 || i >= items.len() {
        0
    } else {
        (if esc.royalty_of(items[i].class_id, items[i].token_id) {
            1int
        } else {
            0int
        }) + royalty_count_from(esc, items, i + 1)
    }
}

/// The number of royalty-bearing lots among `items`.
pub open spec fn royalty_count(esc: Escrow, items: Seq<OrderItem>) -> int {
    royalty_count_from(esc, items, 0)
}

/// The first lot check that fails during a submission scan from position
/// `i` on, if any: a zero quantity, an unknown token, or a royalty-bearing
/// lot when one was already seen.
pub open spec fn scan_items_from(
    esc: Escrow,
    items: Seq<OrderItem>,
    i: int,
    seen: bool,
) -> Option<Error>
    decreases items.len() - i,
{
    if i < 0 || i >= items.len() {
        None
    } else {
        let it = items[i];
        if it.quantity == 0 {
            Some(Error::InvalidQuantity)
        } else if !esc.has_token(it.class_id, it.token_id) {
            Some(Error::TokenIdNotFound)
        } else if esc.royalty_of(it.class_id, it.token_id) && seen {
            Some(Error::TooManyTokenChargedRoyalty)
        } else {
            scan_items_from(esc, items, i + 1, seen || esc.royalty_of(it.class_id, it.token_id))
        }
    }
}

/// A clean scan means: every lot from `i` on has a positive quantity and a
/// registered token, and at most one royalty-bearing lot remains (none if
/// one was already seen).
pub proof fn lemma_scan_ok(esc: Escrow, items: Seq<OrderItem>, i: int, seen: bool)
    requires
        scan_items_from(esc, items, i, seen) is None,
        0 <= i,
    ensures
        forall|j: int|
            i <= j < items.len() ==> (#[trigger] items[j]).quantity >= 1 && esc.has_token(
                items[j].class_id,
                items[j].token_id,
            ),
        royalty_count_from(esc, items, i) + (if seen {
            1int
        } else {
            0int
        }) <= 1,
    decreases items.len() - i,
{
    if i < items.len() {
        let it = items[i];
        lemma_scan_ok(esc, items, i + 1, seen || esc.royalty_of(it.class_id, it.token_id));
    }
}

/// Whether the escrow can cover every lot: for each lot, the seller's free
/// quantity of its token covers the total quantity of that token over the
/// whole list.
pub open spec fn lots_available(esc: Escrow, who: AccountId, items: Seq<OrderItem>) -> bool {
    forall|i: int|
        0 <= i < items.len() ==> (#[trigger] esc.free_of(
            who,
            items[i].class_id,
            items[i].token_id,
        )) as int >= items_qty(items, items[i].class_id, items[i].token_id)
}

/// Two escrows that agree on the royalty flags of every lot's token count
/// the same number of royalty-bearing lots.
pub proof fn lemma_royalty_count_same(e1: Escrow, e2: Escrow, items: Seq<OrderItem>)
    requires
        forall|k: int|
            0 <= k < items.len() ==> e1.royalty_of(
                (#[trigger] items[k]).class_id,
                items[k].token_id,
            ) == e2.royalty_of(items[k].class_id, items[k].token_id),
    ensures
        royalty_count(e1, items) == royalty_count(e2, items),
{
    lemma_royalty_count_same_from(e1, e2, items, 0);
}

proof fn lemma_royalty_count_same_from(e1: Escrow, e2: Escrow, items: Seq<OrderItem>, i: int)
    requires
        forall|k: int|
            0 <= k < items.len() ==> e1.royalty_of(
                (#[trigger] items[k]).class_id,
                items[k].token_id,
            ) == e2.royalty_of(items[k].class_id, items[k].token_id),
        0 <= i,
    ensures
        royalty_count_from(e1, items, i) == royalty_count_from(e2, items, i),
    decreases items.len() - i,
{
    if i < items.len() {
        lemma_royalty_count_same_from(e1, e2, items, i + 1);
    }
}

// --- lemmas about the sums ---

pub proof fn lemma_led_sum_push(s: Seq<StoreEntry>, e: StoreEntry, a: AccountId, c: CurrencyId)
    ensures
        led_sum(s.push(e), a, c) == led_sum(s, a, c) + led_contrib(e, a, c),
{
    assert(s.push(e).drop_last() =~= s);
}

pub proof fn lemma_led_sum_remove(s: Seq<StoreEntry>, i: int, a: AccountId, c: CurrencyId)
    requires
        0 <= i < s.len(),
    ensures
        led_sum(s.remove(i), a, c) == led_sum(s, a, c) - led_contrib(s[i], a, c),
    decreases s.len(),
{
    if i == s.len() - 1 {
        assert(s.remove(i) =~= s.drop_last());
    } else {
        lemma_led_sum_remove(s.drop_last(), i, a, c);
        assert(s.remove(i).drop_last() =~= s.drop_last().remove(i));
        assert(s.remove(i).last() == s.last());
    }
}

pub proof fn lemma_led_sum_nonneg(s: Seq<StoreEntry>, a: AccountId, c: CurrencyId)
    ensures
        led_sum(s, a, c) >= 0,
    decreases s.len(),
{
    if s.len() > 0 {
        lemma_led_sum_nonneg(s.drop_last(), a, c);
    }
}

pub proof fn lemma_led_sum_ge_entry(s: Seq<StoreEntry>, i: int, a: AccountId, c: CurrencyId)
    requires
        0 <= i < s.len(),
    ensures
        led_sum(s, a, c) >= led_contrib(s[i], a, c),
    decreases s.len(),
{
    if i == s.len() - 1 {
        lemma_led_sum_nonneg(s.drop_last(), a, c);
    } else {
        lemma_led_sum_ge_entry(s.drop_last(), i, a, c);
        assert(s.drop_last()[i] == s[i]);
    }
}

pub proof fn lemma_esc_sum_push(
    s: Seq<StoreEntry>,
    e: StoreEntry,
    a: AccountId,
    cl: ClassId,
    t: TokenId,
)
    ensures
        esc_sum(s.push(e), a, cl, t) == esc_sum(s, a, cl, t) + esc_contrib(e, a, cl, t),
{
    assert(s.push(e).drop_last() =~= s);
}

pub proof fn lemma_esc_sum_remove(s: Seq<StoreEntry>, i: int, a: AccountId, cl: ClassId, t: TokenId)
    requires
        0 <= i < s.len(),
    ensures
        esc_sum(s.remove(i), a, cl, t) == esc_sum(s, a, cl, t) - esc_contrib(s[i], a, cl, t),
    decreases s.len(),
{
    if i == s.len() - 1 {
        assert(s.remove(i) =~= s.drop_last());
    } else {
        lemma_esc_sum_remove(s.drop_last(), i, a, cl, t);
        assert(s.remove(i).drop_last() =~= s.drop_last().remove(i));
        assert(s.remove(i).last() == s.last());
    }
}

pub proof fn lemma_esc_sum_nonneg(s: Seq<StoreEntry>, a: AccountId, cl: ClassId, t: TokenId)
    ensures
        esc_sum(s, a, cl, t) >= 0,
    decreases s.len(),
{
    if s.len() > 0 {
        lemma_esc_sum_nonneg(s.drop_last(), a, cl, t);
        lemma_items_qty_nonneg(s.last().auction.items@, cl, t);
    }
}

pub proof fn lemma_esc_sum_ge_entry(
    s: Seq<StoreEntry>,
    i: int,
    a: AccountId,
    cl: ClassId,
    t: TokenId,
)
    requires
        0 <= i < s.len(),
    ensures
        esc_sum(s, a, cl, t) >= esc_contrib(s[i], a, cl, t),
    decreases s.len(),
{
    if i == s.len() - 1 {
        lemma_esc_sum_nonneg(s.drop_last(), a, cl, t);
    } else {
        lemma_esc_sum_ge_entry(s.drop_last(), i, a, cl, t);
        assert(s.drop_last()[i] == s[i]);
        lemma_items_qty_nonneg(s.last().auction.items@, cl, t);
    }
}

pub proof fn lemma_cat_sum_push(s: Seq<StoreEntry>, e: StoreEntry, g: GlobalId)
    ensures
        cat_sum(s.push(e), g) == cat_sum(s, g) + cat_contrib(e, g),
{
    assert(s.push(e).drop_last() =~= s);
}

pub proof fn lemma_cat_sum_remove(s: Seq<StoreEntry>, i: int, g: GlobalId)
    requires
        0 <= i < s.len(),
    ensures
        cat_sum(s.remove(i), g) == cat_sum(s, g) - cat_contrib(s[i], g),
    decreases s.len(),
{
    if i == s.len() - 1 {
        assert(s.remove(i) =~= s.drop_last());
    } else {
        lemma_cat_sum_remove(s.drop_last(), i, g);
        assert(s.remove(i).drop_last() =~= s.drop_last().remove(i));
        assert(s.remove(i).last() == s.last());
    }
}

pub proof fn lemma_cat_sum_nonneg(s: Seq<StoreEntry>, g: GlobalId)
    ensures
        cat_sum(s, g) >= 0,
    decreases s.len(),
{
    if s.len() > 0 {
        lemma_cat_sum_nonneg(s.drop_last(), g);
    }
}

pub proof fn lemma_cat_sum_ge_entry(s: Seq<StoreEntry>, i: int, g: GlobalId)
    requires
        0 <= i < s.len(),
    ensures
        cat_sum(s, g) >= cat_contrib(s[i], g),
    decreases s.len(),
{
    if i == s.len() - 1 {
        lemma_cat_sum_nonneg(s.drop_last(), g);
    } else {
        lemma_cat_sum_ge_entry(s.drop_last(), i, g);
        assert(s.drop_last()[i] == s[i]);
    }
}

pub proof fn lemma_cat_sum_le_len(s: Seq<StoreEntry>, g: GlobalId)
    ensures
        cat_sum(s, g) <= s.len(),
    decreases s.len(),
{
    if s.len() > 0 {
        lemma_cat_sum_le_len(s.drop_last(), g);
    }
}

pub proof fn lemma_cat_sum_absent(s: Seq<StoreEntry>, g: GlobalId)
    requires
        forall|i: int| 0 <= i < s.len() ==> s[i].auction.category_id != g,
    ensures
        cat_sum(s, g) == 0,
    decreases s.len(),
{
    if s.len() > 0 {
        assert(forall|i: int| 0 <= i < s.drop_last().len() ==> s.drop_last()[i] == s[i]);
        lemma_cat_sum_absent(s.drop_last(), g);
    }
}

// --- lemmas about lot quantities ---

pub proof fn lemma_items_qty_nonneg(items: Seq<OrderItem>, cl: ClassId, t: TokenId)
    ensures
        items_qty(items, cl, t) >= 0,
    decreases items.len(),
{
    if items.len() > 0 {
        lemma_items_qty_nonneg(items.drop_last(), cl, t);
    }
}

/// One more lot extends the prefix sums by that lot's quantity.
pub proof fn lemma_items_qty_take_step(items: Seq<OrderItem>, i: int, cl: ClassId, t: TokenId)
    requires
        0 <= i < items.len(),
    ensures
        items_qty(items.take(i + 1), cl, t) == items_qty(items.take(i), cl, t) + (
        if items[i].class_id == cl && items[i].token_id == t {
            items[i].quantity as int
        } else {
            0
        }),
{
    assert(items.take(i + 1).drop_last() =~= items.take(i));
    assert(items.take(i + 1).last() == items[i]);
}

/// Prefix sums grow with the prefix.
pub proof fn lemma_items_qty_take_mono(items: Seq<OrderItem>, i: int, j: int, cl: ClassId, t: TokenId)
    requires
        0 <= i <= j <= items.len(),
    ensures
        items_qty(items.take(i), cl, t) <= items_qty(items.take(j), cl, t),
    decreases j - i,
{
    if i < j {
        lemma_items_qty_take_step(items, j - 1, cl, t);
        lemma_items_qty_take_mono(items, i, j - 1, cl, t);
    }
}

pub proof fn lemma_items_qty_take_all(items: Seq<OrderItem>, cl: ClassId, t: TokenId)
    ensures
        items_qty(items.take(items.len() as int), cl, t) == items_qty(items, cl, t),
{
    assert(items.take(items.len() as int) =~= items);
}

/// If every lot's step condition held against the starting quantities,
/// the aggregate availability condition holds.
pub proof fn lemma_steps_imply_available(esc: Escrow, who: AccountId, items: Seq<OrderItem>)
    requires
        forall|i: int|
            0 <= i < items.len() ==> (#[trigger] esc.free_of(
                who,
                items[i].class_id,
                items[i].token_id,
            )) as int >= items_qty(items.take(i + 1), items[i].class_id, items[i].token_id),
    ensures
        lots_available(esc, who, items),
{
    assert forall|i: int|
        0 <= i < items.len() implies (#[trigger] esc.free_of(
        who,
        items[i].class_id,
        items[i].token_id,
    )) as int >= items_qty(items, items[i].class_id, items[i].token_id) by {
        let cl = items[i].class_id;
        let t = items[i].token_id;
        lemma_last_occurrence(esc, who, items, i, cl, t);
    }
}

/// Helper: the free quantity covers the total of token (`cl`, `t`), given
/// the step conditions and that lot `i` has that token.
proof fn lemma_last_occurrence(
    esc: Escrow,
    who: AccountId,
    items: Seq<OrderItem>,
    i: int,
    cl: ClassId,
    t: TokenId,
)
    requires
        forall|x: int|
            0 <= x < items.len() ==> (#[trigger] esc.free_of(
                who,
                items[x].class_id,
                items[x].token_id,
            )) as int >= items_qty(items.take(x + 1), items[x].class_id, items[x].token_id),
        0 <= i < items.len(),
        items[i].class_id == cl,
        items[i].token_id == t,
    ensures
        esc.free_of(who, cl, t) as int >= items_qty(items, cl, t),
    decreases items.len(),
{
    let n = items.len() as int;
    if items.last().class_id == cl && items.last().token_id == t {
        // the last lot of this token gives the full-sum condition
        assert(esc.free_of(who, cl, t) as int >= items_qty(items.take(n), cl, t));
        lemma_items_qty_take_all(items, cl, t);
    } else {
        // the token does not occur at the end; recurse on the prefix
        assert(i < n - 1);
        let prefix = items.drop_last();
        assert(prefix =~= items.take(n - 1));
        assert forall|x: int|
            0 <= x < prefix.len() implies (#[trigger] esc.free_of(
            who,
            prefix[x].class_id,
            prefix[x].token_id,
        )) as int >= items_qty(prefix.take(x + 1), prefix[x].class_id, prefix[x].token_id) by {
            assert(prefix[x] == items[x]);
            assert(prefix.take(x + 1) =~= items.take(x + 1));
        }
        lemma_last_occurrence(esc, who, prefix, i, cl, t);
        assert(items_qty(items, cl, t) == items_qty(prefix, cl, t));
    }
}

} // verus!
