use auction_ledger::auction::Auction;
use auction_ledger::item::BidError;
use auction_ledger::item::CreateItem;
use auction_ledger::item::Identity;

fn id(byte: u8) -> Identity {
    Identity { bytes: vec![byte] }
}

fn input(name: &str, description: &str, is_listed: bool) -> CreateItem {
    CreateItem {
        name: name.to_string(),
        description: description.to_string(),
        is_listed,
    }
}

#[test]
fn create_then_get_round_trip() {
    let mut auction = Auction::new();
    let creator = id(1);
    let r = auction.create_item(7, input("lamp", "brass lamp", true), &creator);
    assert_eq!(r, Ok(()));
    let item = auction.get_item(7).expect("the record was just created");
    assert_eq!(item.name, "lamp");
    assert_eq!(item.description, "brass lamp");
    assert!(item.is_listed);
    assert_eq!(item.owner.bytes, vec![1u8]);
    assert!(item.bids.is_empty());
}

#[test]
fn create_overwrites_existing_record() {
    let mut auction = Auction::new();
    let first = id(1);
    let second = id(2);
    assert_eq!(
        auction.create_item(7, input("lamp", "", true), &first),
        Ok(())
    );
    assert_eq!(auction.bid(7, 10, &id(3)), Ok(()));
    assert_eq!(
        auction.create_item(7, input("vase", "", false), &second),
        Ok(())
    );
    let item = auction.get_item(7).unwrap();
    assert_eq!(item.name, "vase");
    assert_eq!(item.owner.bytes, vec![2u8]);
    assert!(item.bids.is_empty());
    assert!(!item.is_listed);
}

#[test]
fn bids_are_recorded_strictly_increasing() {
    let mut auction = Auction::new();
    let owner = id(1);
    assert_eq!(
        auction.create_item(3, input("clock", "", true), &owner),
        Ok(())
    );
    assert_eq!(auction.bid(3, 5, &id(2)), Ok(()));
    assert_eq!(auction.bid(3, 10, &id(3)), Ok(()));
    assert_eq!(auction.bid(3, 20, &id(2)), Ok(()));
    let item = auction.get_item(3).unwrap();
    let amounts: Vec<u64> = item.bids.iter().map(|b| b.amount).collect();
    assert_eq!(amounts, vec![5, 10, 20]);
    assert_eq!(item.bids[0].identity.bytes, vec![2u8]);
    assert_eq!(item.bids[1].identity.bytes, vec![3u8]);
    assert_eq!(item.bids[2].identity.bytes, vec![2u8]);
}

#[test]
fn bid_not_exceeding_highest_fails_and_changes_nothing() {
    let mut auction = Auction::new();
    let owner = id(1);
    assert_eq!(
        auction.create_item(3, input("clock", "", true), &owner),
        Ok(())
    );
    assert_eq!(auction.bid(3, 20, &id(2)), Ok(()));
    assert_eq!(auction.bid(3, 20, &id(3)), Err(BidError::BidMoreForThisItem));
    assert_eq!(auction.bid(3, 15, &id(3)), Err(BidError::BidMoreForThisItem));
    assert_eq!(auction.bid(3, 0, &id(3)), Err(BidError::BidMoreForThisItem));
    let item = auction.get_item(3).unwrap();
    assert_eq!(item.bids.len(), 1);
    assert_eq!(item.bids[0].amount, 20);
}

#[test]
fn first_bid_must_exceed_zero() {
    let mut auction = Auction::new();
    assert_eq!(
        auction.create_item(3, input("clock", "", true), &id(1)),
        Ok(())
    );
    assert_eq!(auction.bid(3, 0, &id(2)), Err(BidError::BidMoreForThisItem));
    assert_eq!(auction.bid(3, 1, &id(2)), Ok(()));
}

#[test]
fn bid_on_unlisted_item_fails_regardless_of_amount() {
    let mut auction = Auction::new();
    let owner = id(1);
    assert_eq!(
        auction.create_item(4, input("chair", "", false), &owner),
        Ok(())
    );
    assert_eq!(auction.bid(4, 1, &id(2)), Err(BidError::ItemNotListed));
    assert_eq!(
        auction.bid(4, u64::MAX, &id(2)),
        Err(BidError::ItemNotListed)
    );
    let item = auction.get_item(4).unwrap();
    assert!(item.bids.is_empty());
    assert!(!item.is_listed);
}

#[test]
fn bid_on_missing_key_fails() {
    let mut auction = Auction::new();
    assert_eq!(auction.bid(9, 10, &id(2)), Err(BidError::NoSuchItem));
}

#[test]
fn edit_by_non_owner_is_rejected_and_changes_nothing() {
    let mut auction = Auction::new();
    let owner = id(1);
    let stranger = id(2);
    assert_eq!(
        auction.create_item(5, input("desk", "oak", true), &owner),
        Ok(())
    );
    assert_eq!(
        auction.edit_item(5, input("table", "pine", false), &stranger),
        Err(BidError::AccessRejected)
    );
    let item = auction.get_item(5).unwrap();
    assert_eq!(item.name, "desk");
    assert_eq!(item.description, "oak");
    assert!(item.is_listed);
    assert_eq!(item.owner.bytes, vec![1u8]);
}

#[test]
fn unlist_by_non_owner_is_rejected_and_changes_nothing() {
    let mut auction = Auction::new();
    let owner = id(1);
    assert_eq!(
        auction.create_item(5, input("desk", "", true), &owner),
        Ok(())
    );
    assert_eq!(auction.bid(5, 10, &id(2)), Ok(()));
    assert_eq!(
        auction.unlist_item(5, &id(3)),
        Err(BidError::AccessRejected)
    );
    let item = auction.get_item(5).unwrap();
    assert!(item.is_listed);
    assert_eq!(item.owner.bytes, vec![1u8]);
    assert_eq!(item.bids.len(), 1);
}

#[test]
fn edit_on_missing_key_fails() {
    let mut auction = Auction::new();
    assert_eq!(
        auction.edit_item(5, input("x", "y", true), &id(1)),
        Err(BidError::NoSuchItem)
    );
}

#[test]
fn unlist_on_missing_key_fails() {
    let mut auction = Auction::new();
    assert_eq!(auction.unlist_item(5, &id(1)), Err(BidError::NoSuchItem));
}

#[test]
fn edit_preserves_bids_and_owner() {
    let mut auction = Auction::new();
    let owner = id(1);
    assert_eq!(
        auction.create_item(6, input("desk", "oak", true), &owner),
        Ok(())
    );
    assert_eq!(auction.bid(6, 10, &id(2)), Ok(()));
    assert_eq!(auction.bid(6, 25, &id(3)), Ok(()));
    assert_eq!(
        auction.edit_item(6, input("table", "pine", false), &owner),
        Ok(())
    );
    let item = auction.get_item(6).unwrap();
    assert_eq!(item.name, "table");
    assert_eq!(item.description, "pine");
    assert!(!item.is_listed);
    assert_eq!(item.owner.bytes, vec![1u8]);
    let amounts: Vec<u64> = item.bids.iter().map(|b| b.amount).collect();
    assert_eq!(amounts, vec![10, 25]);
    assert_eq!(item.bids[0].identity.bytes, vec![2u8]);
    assert_eq!(item.bids[1].identity.bytes, vec![3u8]);
}

#[test]
fn unlist_transfers_ownership_to_highest_bidder() {
    let mut auction = Auction::new();
    let a = id(1);
    let b = id(2);
    let c = id(3);
    assert_eq!(auction.create_item(8, input("boat", "", true), &a), Ok(()));
    assert_eq!(auction.bid(8, 10, &b), Ok(()));
    assert_eq!(auction.bid(8, 20, &c), Ok(()));
    assert_eq!(auction.unlist_item(8, &a), Ok(()));
    let item = auction.get_item(8).unwrap();
    assert!(!item.is_listed);
    assert_eq!(item.owner.bytes, vec![3u8]);
    let amounts: Vec<u64> = item.bids.iter().map(|b| b.amount).collect();
    assert_eq!(amounts, vec![10, 20]);
}

#[test]
fn unlist_without_bids_fails_and_item_stays_listed() {
    let mut auction = Auction::new();
    let owner = id(1);
    assert_eq!(
        auction.create_item(8, input("boat", "", true), &owner),
        Ok(())
    );
    assert_eq!(auction.unlist_item(8, &owner), Err(BidError::UpdateError));
    let item = auction.get_item(8).unwrap();
    assert!(item.is_listed);
    assert_eq!(item.owner.bytes, vec![1u8]);
}

#[test]
fn unlisted_item_accepts_no_further_bids() {
    let mut auction = Auction::new();
    let owner = id(1);
    assert_eq!(
        auction.create_item(8, input("boat", "", true), &owner),
        Ok(())
    );
    assert_eq!(auction.bid(8, 10, &id(2)), Ok(()));
    assert_eq!(auction.unlist_item(8, &owner), Ok(()));
    assert_eq!(auction.bid(8, 100, &id(3)), Err(BidError::ItemNotListed));
    let item = auction.get_item(8).unwrap();
    assert_eq!(item.bids.len(), 1);
}
