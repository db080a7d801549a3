use nftmart_auction::auction::Pallet;
use nftmart_auction::types::{BidOutcome, Error, Event, OrderItem, PerU16, NATIVE_CURRENCY_ID};

const ALICE: u64 = 1;
const BOB: u64 = 2;
const CHARLIE: u64 = 3;
const DAVE: u64 = 4;
const CLASS_ID0: u32 = 0;
const TOKEN_ID0: u32 = 0;
const TOKEN_ID1: u32 = 1;

fn item(class_id: u32, token_id: u32, quantity: u64) -> OrderItem {
    OrderItem { class_id, token_id, quantity }
}

/// A world with BOB holding two token lots and everyone funded.
fn setup() -> Pallet {
    let mut p = Pallet::new(10, 4);
    p.deposit_free(ALICE, NATIVE_CURRENCY_ID, 1000).unwrap();
    p.deposit_free(BOB, NATIVE_CURRENCY_ID, 100).unwrap();
    p.deposit_free(CHARLIE, NATIVE_CURRENCY_ID, 1000).unwrap();
    p.deposit_free(DAVE, NATIVE_CURRENCY_ID, 100).unwrap();
    p.mint_token(BOB, CLASS_ID0, TOKEN_ID0, 20, false).unwrap();
    p.mint_token(BOB, CLASS_ID0, TOKEN_ID1, 40, false).unwrap();
    p
}

/// Submit the standard auction of the scenarios: two lots, hammer price
/// 500, minimum raise 50%, deposit 50, initial price 200, deadline 10.
fn submit_standard(p: &mut Pallet, cate_id: u64) -> u64 {
    let auction_id = p.current_gid();
    p.submit_british_auction(
        BOB,
        NATIVE_CURRENCY_ID,
        500,
        PerU16::from_percent(50),
        50,
        200,
        10,
        true,
        cate_id,
        vec![item(CLASS_ID0, TOKEN_ID0, 10), item(CLASS_ID0, TOKEN_ID1, 20)],
    )
    .unwrap();
    auction_id
}

#[test]
fn submit_british_auction_should_work() {
    let mut p = Pallet::new(10, 4);
    p.deposit_free(BOB, NATIVE_CURRENCY_ID, 100).unwrap();
    p.mint_token(BOB, CLASS_ID0, TOKEN_ID0, 20, false).unwrap();
    p.mint_token(BOB, CLASS_ID0, TOKEN_ID1, 40, false).unwrap();
    assert_eq!(p.free_quantity(BOB, CLASS_ID0, TOKEN_ID0), 20);
    assert_eq!(p.reserved_quantity(BOB, CLASS_ID0, TOKEN_ID0), 0);
    assert_eq!(p.free_quantity(BOB, CLASS_ID0, TOKEN_ID1), 40);
    assert_eq!(p.reserved_quantity(BOB, CLASS_ID0, TOKEN_ID1), 0);

    let cate_id = p.current_gid();
    p.create_category().unwrap();

    let bob_free = 100;
    assert_eq!(p.free_balance(BOB, NATIVE_CURRENCY_ID), bob_free);

    let deposit = 50;

    let auction_id = p.current_gid();
    p.submit_british_auction(
        BOB,
        NATIVE_CURRENCY_ID,
        500, // hammer_price
        PerU16::from_percent(50), // min_raise
        deposit, // deposit
        200, // init_price
        10, // deadline
        true, // allow_delay
        cate_id, // category_id
        vec![item(CLASS_ID0, TOKEN_ID0, 10), item(CLASS_ID0, TOKEN_ID1, 20)],
    )
    .unwrap();

    assert_eq!(p.free_quantity(BOB, CLASS_ID0, TOKEN_ID0), 10);
    assert_eq!(p.reserved_quantity(BOB, CLASS_ID0, TOKEN_ID0), 10);
    assert_eq!(p.free_quantity(BOB, CLASS_ID0, TOKEN_ID1), 20);
    assert_eq!(p.reserved_quantity(BOB, CLASS_ID0, TOKEN_ID1), 20);
    assert_eq!(p.free_balance(BOB, NATIVE_CURRENCY_ID), bob_free - deposit);
    assert_eq!(p.category_count(cate_id), Some(1));
    assert!(p.british_auction_bids(auction_id).is_some());
    assert!(p.british_auctions(BOB, auction_id).is_some());
}

#[test]
fn minimum_raise_rejects_at_the_bound() {
    // initPrice=200, minRaise=50%: lowestAcceptable = 200 + ceil(100) = 300,
    // so 300 is rejected and 301 is accepted.
    let mut p = setup();
    let cate_id = p.create_category().unwrap();
    let auction_id = submit_standard(&mut p, cate_id);

    assert_eq!(
        p.bid_british_auction(ALICE, 300, BOB, auction_id),
        Err(Error::PriceTooLow)
    );
    assert_eq!(
        p.bid_british_auction(ALICE, 301, BOB, auction_id),
        Ok(BidOutcome::Accepted)
    );
    let bid = p.british_auction_bids(auction_id).unwrap();
    assert_eq!(bid.last_offer_price, 301);
    assert_eq!(bid.last_offer_account, Some(ALICE));
    assert_eq!(p.reserved_balance(ALICE, NATIVE_CURRENCY_ID), 301);
}

#[test]
fn hammer_price_settles_instantly() {
    // A bid at or above hammerPrice deletes the auction, pays the seller
    // and hands the lots to the buyer; further bids find nothing.
    let mut p = setup();
    let cate_id = p.create_category().unwrap();
    let auction_id = submit_standard(&mut p, cate_id);
    assert_eq!(
        p.bid_british_auction(ALICE, 301, BOB, auction_id),
        Ok(BidOutcome::Accepted)
    );

    let bob_free_before = p.free_balance(BOB, NATIVE_CURRENCY_ID);
    assert_eq!(
        p.bid_british_auction(CHARLIE, 500, BOB, auction_id),
        Ok(BidOutcome::Hammered)
    );
    // the seller got the hammer price plus the deposit back
    assert_eq!(
        p.free_balance(BOB, NATIVE_CURRENCY_ID),
        bob_free_before + 500 + 50
    );
    // the outbid bidder got the reservation back
    assert_eq!(p.reserved_balance(ALICE, NATIVE_CURRENCY_ID), 0);
    assert_eq!(p.free_balance(ALICE, NATIVE_CURRENCY_ID), 1000);
    // the buyer paid and owns the lots
    assert_eq!(p.free_balance(CHARLIE, NATIVE_CURRENCY_ID), 500);
    assert_eq!(p.free_quantity(CHARLIE, CLASS_ID0, TOKEN_ID0), 10);
    assert_eq!(p.free_quantity(CHARLIE, CLASS_ID0, TOKEN_ID1), 20);
    assert_eq!(p.reserved_quantity(BOB, CLASS_ID0, TOKEN_ID0), 0);
    // the auction is gone
    assert!(p.british_auctions(BOB, auction_id).is_none());
    assert!(p.british_auction_bids(auction_id).is_none());
    assert_eq!(
        p.bid_british_auction(ALICE, 600, BOB, auction_id),
        Err(Error::BritishAuctionNotFound)
    );
    assert_eq!(p.category_count(cate_id), Some(0));
}

#[test]
fn remove_before_any_bid_releases_everything() {
    let mut p = setup();
    let cate_id = p.create_category().unwrap();
    let auction_id = submit_standard(&mut p, cate_id);
    assert_eq!(p.category_count(cate_id), Some(1));

    p.remove_british_auction(BOB, auction_id).unwrap();
    assert_eq!(p.free_balance(BOB, NATIVE_CURRENCY_ID), 100);
    assert_eq!(p.reserved_balance(BOB, NATIVE_CURRENCY_ID), 0);
    assert_eq!(p.free_quantity(BOB, CLASS_ID0, TOKEN_ID0), 20);
    assert_eq!(p.reserved_quantity(BOB, CLASS_ID0, TOKEN_ID0), 0);
    assert_eq!(p.free_quantity(BOB, CLASS_ID0, TOKEN_ID1), 40);
    assert_eq!(p.reserved_quantity(BOB, CLASS_ID0, TOKEN_ID1), 0);
    assert_eq!(p.category_count(cate_id), Some(0));
    assert!(p.british_auctions(BOB, auction_id).is_none());
}

#[test]
fn remove_fails_once_a_bid_exists() {
    let mut p = setup();
    let cate_id = p.create_category().unwrap();
    let auction_id = submit_standard(&mut p, cate_id);
    assert_eq!(
        p.bid_british_auction(ALICE, 301, BOB, auction_id),
        Ok(BidOutcome::Accepted)
    );

    assert_eq!(
        p.remove_british_auction(BOB, auction_id),
        Err(Error::CannotRemoveAuction)
    );
    // state unchanged, reservations intact
    assert!(p.british_auctions(BOB, auction_id).is_some());
    assert_eq!(p.reserved_balance(BOB, NATIVE_CURRENCY_ID), 50);
    assert_eq!(p.reserved_balance(ALICE, NATIVE_CURRENCY_ID), 301);
    assert_eq!(p.reserved_quantity(BOB, CLASS_ID0, TOKEN_ID0), 10);
    assert_eq!(p.category_count(cate_id), Some(1));
}

#[test]
fn bid_after_deadline_is_rejected() {
    // deadline=10, height 11, allowDelay=false: the auction is closed.
    let mut p = setup();
    let cate_id = p.create_category().unwrap();
    let auction_id = p.current_gid();
    p.submit_british_auction(
        BOB,
        NATIVE_CURRENCY_ID,
        500,
        PerU16::from_percent(50),
        50,
        200,
        10,
        false, // allow_delay
        cate_id,
        vec![item(CLASS_ID0, TOKEN_ID0, 10)],
    )
    .unwrap();
    p.set_block_number(11);
    assert_eq!(
        p.bid_british_auction(ALICE, 301, BOB, auction_id),
        Err(Error::BritishAuctionClosed)
    );
}

#[test]
fn delay_extends_the_deadline_past_the_last_offer() {
    // allowDelay=true with auction_delay=4: a bid at height 9 keeps the
    // auction open until height 13.
    let mut p = setup();
    let cate_id = p.create_category().unwrap();
    let auction_id = submit_standard(&mut p, cate_id);
    p.set_block_number(9);
    assert_eq!(
        p.bid_british_auction(ALICE, 301, BOB, auction_id),
        Ok(BidOutcome::Accepted)
    );
    p.set_block_number(13);
    assert_eq!(
        p.bid_british_auction(CHARLIE, 460, BOB, auction_id),
        Ok(BidOutcome::Accepted)
    );
    p.set_block_number(18);
    assert_eq!(
        p.bid_british_auction(ALICE, 495, BOB, auction_id),
        Err(Error::BritishAuctionClosed)
    );
}

#[test]
fn redeem_pays_the_seller_and_hands_over_the_lots() {
    let mut p = setup();
    let cate_id = p.create_category().unwrap();
    let auction_id = submit_standard(&mut p, cate_id);
    assert_eq!(
        p.bid_british_auction(CHARLIE, 301, BOB, auction_id),
        Ok(BidOutcome::Accepted)
    );
    // not yet past the effective deadline
    assert_eq!(
        p.redeem_british_auction(BOB, auction_id),
        Err(Error::CannotRedeemAuction)
    );
    p.set_block_number(20);
    p.redeem_british_auction(BOB, auction_id).unwrap();
    assert_eq!(p.free_balance(BOB, NATIVE_CURRENCY_ID), 100 + 301);
    assert_eq!(p.reserved_balance(BOB, NATIVE_CURRENCY_ID), 0);
    assert_eq!(p.free_balance(CHARLIE, NATIVE_CURRENCY_ID), 1000 - 301);
    assert_eq!(p.reserved_balance(CHARLIE, NATIVE_CURRENCY_ID), 0);
    assert_eq!(p.free_quantity(CHARLIE, CLASS_ID0, TOKEN_ID0), 10);
    assert_eq!(p.free_quantity(CHARLIE, CLASS_ID0, TOKEN_ID1), 20);
    assert!(p.british_auctions(BOB, auction_id).is_none());
    assert_eq!(
        p.redeem_british_auction(BOB, auction_id),
        Err(Error::BritishAuctionBidNotFound)
    );
}

#[test]
fn redeem_without_a_bid_is_rejected() {
    let mut p = setup();
    let cate_id = p.create_category().unwrap();
    let auction_id = submit_standard(&mut p, cate_id);
    p.set_block_number(20);
    assert_eq!(
        p.redeem_british_auction(BOB, auction_id),
        Err(Error::CannotRemoveAuction)
    );
}

#[test]
fn outbidding_returns_the_previous_reservation() {
    let mut p = setup();
    let cate_id = p.create_category().unwrap();
    let auction_id = submit_standard(&mut p, cate_id);
    assert_eq!(
        p.bid_british_auction(ALICE, 301, BOB, auction_id),
        Ok(BidOutcome::Accepted)
    );
    assert_eq!(p.reserved_balance(ALICE, NATIVE_CURRENCY_ID), 301);
    assert_eq!(
        p.bid_british_auction(CHARLIE, 460, BOB, auction_id),
        Ok(BidOutcome::Accepted)
    );
    assert_eq!(p.reserved_balance(ALICE, NATIVE_CURRENCY_ID), 0);
    assert_eq!(p.free_balance(ALICE, NATIVE_CURRENCY_ID), 1000);
    assert_eq!(p.reserved_balance(CHARLIE, NATIVE_CURRENCY_ID), 460);
}

#[test]
fn the_highest_bidder_cannot_outbid_themselves() {
    let mut p = setup();
    let cate_id = p.create_category().unwrap();
    let auction_id = submit_standard(&mut p, cate_id);
    assert_eq!(
        p.bid_british_auction(CHARLIE, 301, BOB, auction_id),
        Ok(BidOutcome::Accepted)
    );
    assert_eq!(
        p.bid_british_auction(CHARLIE, 460, BOB, auction_id),
        Err(Error::DuplicatedBid)
    );
}

#[test]
fn submit_validation_errors() {
    let mut p = setup();
    let cate_id = p.create_category().unwrap();
    let raise = PerU16::from_percent(50);
    let lots = vec![item(CLASS_ID0, TOKEN_ID0, 10)];

    // deposit below the minimum-deposit policy (10)
    assert_eq!(
        p.submit_british_auction(BOB, 0, 500, raise, 5, 200, 10, true, cate_id, lots.clone()),
        Err(Error::SubmitWithInvalidDeposit)
    );
    // deadline not in the future
    p.set_block_number(10);
    assert_eq!(
        p.submit_british_auction(BOB, 0, 500, raise, 50, 200, 10, true, cate_id, lots.clone()),
        Err(Error::SubmitWithInvalidDeadline)
    );
    p.set_block_number(0);
    // non-zero hammer price not above the initial price
    assert_eq!(
        p.submit_british_auction(BOB, 0, 200, raise, 50, 200, 10, true, cate_id, lots.clone()),
        Err(Error::InvalidHammerPrice)
    );
    // a zero-quantity lot
    assert_eq!(
        p.submit_british_auction(
            BOB,
            0,
            500,
            raise,
            50,
            200,
            10,
            true,
            cate_id,
            vec![item(CLASS_ID0, TOKEN_ID0, 0)]
        ),
        Err(Error::InvalidQuantity)
    );
    // an unknown token
    assert_eq!(
        p.submit_british_auction(
            BOB,
            0,
            500,
            raise,
            50,
            200,
            10,
            true,
            cate_id,
            vec![item(CLASS_ID0, 9, 1)]
        ),
        Err(Error::TokenIdNotFound)
    );
    // not enough balance for the deposit
    assert_eq!(
        p.submit_british_auction(BOB, 0, 500, raise, 200, 100, 10, true, cate_id, lots.clone()),
        Err(Error::InsufficientBalance)
    );
    // not enough free quantity
    assert_eq!(
        p.submit_british_auction(
            BOB,
            0,
            500,
            raise,
            50,
            200,
            10,
            true,
            cate_id,
            vec![item(CLASS_ID0, TOKEN_ID0, 21)]
        ),
        Err(Error::InsufficientQuantity)
    );
    // an unknown category
    assert_eq!(
        p.submit_british_auction(BOB, 0, 500, raise, 50, 200, 10, true, 999, lots.clone()),
        Err(Error::CategoryNotFound)
    );
    // nothing was reserved by any failed attempt
    assert_eq!(p.reserved_balance(BOB, NATIVE_CURRENCY_ID), 0);
    assert_eq!(p.reserved_quantity(BOB, CLASS_ID0, TOKEN_ID0), 0);
}

#[test]
fn at_most_one_royalty_bearing_lot() {
    let mut p = Pallet::new(10, 4);
    p.deposit_free(BOB, NATIVE_CURRENCY_ID, 100).unwrap();
    p.mint_token(BOB, CLASS_ID0, TOKEN_ID0, 20, true).unwrap();
    p.mint_token(BOB, CLASS_ID0, TOKEN_ID1, 40, true).unwrap();
    let cate_id = p.create_category().unwrap();
    assert_eq!(
        p.submit_british_auction(
            BOB,
            NATIVE_CURRENCY_ID,
            500,
            PerU16::from_percent(50),
            50,
            200,
            10,
            true,
            cate_id,
            vec![item(CLASS_ID0, TOKEN_ID0, 10), item(CLASS_ID0, TOKEN_ID1, 20)]
        ),
        Err(Error::TooManyTokenChargedRoyalty)
    );
    // a single royalty-bearing lot is fine
    p.submit_british_auction(
        BOB,
        NATIVE_CURRENCY_ID,
        500,
        PerU16::from_percent(50),
        50,
        200,
        10,
        true,
        cate_id,
        vec![item(CLASS_ID0, TOKEN_ID0, 10)],
    )
    .unwrap();
}

#[test]
fn wrong_owner_is_not_found() {
    let mut p = setup();
    let cate_id = p.create_category().unwrap();
    let auction_id = submit_standard(&mut p, cate_id);
    assert_eq!(
        p.bid_british_auction(ALICE, 301, CHARLIE, auction_id),
        Err(Error::BritishAuctionNotFound)
    );
    assert_eq!(
        p.redeem_british_auction(CHARLIE, auction_id),
        Err(Error::BritishAuctionNotFound)
    );
    assert_eq!(
        p.remove_british_auction(CHARLIE, auction_id),
        Err(Error::BritishAuctionNotFound)
    );
}

#[test]
fn insufficient_bid_funds_are_rejected() {
    let mut p = setup();
    let cate_id = p.create_category().unwrap();
    let auction_id = submit_standard(&mut p, cate_id);
    // DAVE has 100 free, offers 350
    assert_eq!(
        p.bid_british_auction(DAVE, 350, BOB, auction_id),
        Err(Error::InsufficientBalance)
    );
}

#[test]
fn events_record_the_lifecycle() {
    let mut p = setup();
    let cate_id = p.create_category().unwrap();
    let auction_id = submit_standard(&mut p, cate_id);
    p.bid_british_auction(ALICE, 301, BOB, auction_id).unwrap();
    p.bid_british_auction(CHARLIE, 500, BOB, auction_id).unwrap();
    assert_eq!(
        p.events(),
        &vec![
            Event::CreatedBritishAuction(BOB, auction_id),
            Event::BidBritishAuction(ALICE, auction_id),
            Event::HammerBritishAuction(CHARLIE, auction_id),
        ]
    );
}

#[test]
fn auction_and_bid_records_coexist() {
    let mut p = setup();
    let cate_id = p.create_category().unwrap();
    let auction_id = submit_standard(&mut p, cate_id);
    assert_eq!(
        p.british_auctions(BOB, auction_id).is_some(),
        p.british_auction_bids(auction_id).is_some()
    );
    p.remove_british_auction(BOB, auction_id).unwrap();
    assert_eq!(
        p.british_auctions(BOB, auction_id).is_some(),
        p.british_auction_bids(auction_id).is_some()
    );
}

#[test]
fn the_seller_can_hammer_their_own_auction() {
    // Buying back at the hammer price is allowed: the deposit and lots
    // return to the seller and the payment is a self-transfer.
    let mut p = setup();
    p.deposit_free(BOB, NATIVE_CURRENCY_ID, 900).unwrap();
    let cate_id = p.create_category().unwrap();
    let auction_id = submit_standard(&mut p, cate_id);
    assert_eq!(
        p.bid_british_auction(BOB, 500, BOB, auction_id),
        Ok(BidOutcome::Hammered)
    );
    assert_eq!(p.free_balance(BOB, NATIVE_CURRENCY_ID), 1000);
    assert_eq!(p.reserved_balance(BOB, NATIVE_CURRENCY_ID), 0);
    assert_eq!(p.free_quantity(BOB, CLASS_ID0, TOKEN_ID0), 20);
    assert_eq!(p.free_quantity(BOB, CLASS_ID0, TOKEN_ID1), 40);
    assert!(p.british_auctions(BOB, auction_id).is_none());
}

#[test]
fn zero_min_raise_still_requires_a_strict_increase() {
    let mut p = setup();
    let cate_id = p.create_category().unwrap();
    let auction_id = p.current_gid();
    p.submit_british_auction(
        BOB,
        NATIVE_CURRENCY_ID,
        0, // no hammer price
        PerU16::zero(),
        50,
        200,
        10,
        true,
        cate_id,
        vec![item(CLASS_ID0, TOKEN_ID0, 10)],
    )
    .unwrap();
    assert_eq!(
        p.bid_british_auction(ALICE, 200, BOB, auction_id),
        Err(Error::PriceTooLow)
    );
    assert_eq!(
        p.bid_british_auction(ALICE, 201, BOB, auction_id),
        Ok(BidOutcome::Accepted)
    );
    assert_eq!(
        p.bid_british_auction(CHARLIE, 201, BOB, auction_id),
        Err(Error::PriceTooLow)
    );
    assert_eq!(
        p.bid_british_auction(CHARLIE, 202, BOB, auction_id),
        Ok(BidOutcome::Accepted)
    );
}

#[test]
fn unknown_ids_follow_the_lookup_order() {
    // bid looks the auction record up first; redeem and remove go through
    // the bid record first.
    let mut p = setup();
    assert_eq!(
        p.bid_british_auction(ALICE, 301, BOB, 99),
        Err(Error::BritishAuctionNotFound)
    );
    assert_eq!(
        p.redeem_british_auction(BOB, 99),
        Err(Error::BritishAuctionBidNotFound)
    );
    assert_eq!(
        p.remove_british_auction(BOB, 99),
        Err(Error::BritishAuctionBidNotFound)
    );
}
