use auction_ledger::auction::Auction;
use auction_ledger::item::BidError;
use auction_ledger::item::Bidder;
use auction_ledger::item::CreateItem;
use auction_ledger::item::Identity;
use auction_ledger::item::Item;
use auction_ledger::store::record_fits;

fn id(byte: u8) -> Identity {
    Identity { bytes: vec![byte] }
}

fn input(name: &str, description: &str, is_listed: bool) -> CreateItem {
    CreateItem {
        name: name.to_string(),
        description: description.to_string(),
        is_listed,
    }
}

#[test]
fn empty_ledger_has_nothing() {
    let auction = Auction::new();
    assert!(auction.get_item(1).is_none());
    assert!(auction.get_all_items().is_empty());
    assert_eq!(auction.get_listed_items_count(), 0);
    assert!(auction.get_item_sold_for_most().is_none());
    assert!(auction.get_item_bid_on_most().is_none());
}

#[test]
fn listed_items_count_tracks_listing_state() {
    let mut auction = Auction::new();
    let owner = id(1);
    assert_eq!(auction.create_item(1, input("a", "", true), &owner), Ok(()));
    assert_eq!(auction.create_item(2, input("b", "", false), &owner), Ok(()));
    assert_eq!(auction.create_item(3, input("c", "", true), &owner), Ok(()));
    assert_eq!(auction.get_listed_items_count(), 2);
    assert_eq!(auction.bid(3, 10, &id(2)), Ok(()));
    assert_eq!(auction.unlist_item(3, &owner), Ok(()));
    assert_eq!(auction.get_listed_items_count(), 1);
}

#[test]
fn all_items_come_in_key_order() {
    let mut auction = Auction::new();
    let owner = id(1);
    assert_eq!(auction.create_item(30, input("c", "", true), &owner), Ok(()));
    assert_eq!(auction.create_item(10, input("a", "", true), &owner), Ok(()));
    assert_eq!(auction.create_item(20, input("b", "", false), &owner), Ok(()));
    let items = auction.get_all_items();
    let names: Vec<&str> = items.iter().map(|i| i.name.as_str()).collect();
    assert_eq!(names, vec!["a", "b", "c"]);
}

#[test]
fn repeated_get_all_items_is_identical() {
    let mut auction = Auction::new();
    let owner = id(1);
    assert_eq!(auction.create_item(1, input("a", "x", true), &owner), Ok(()));
    assert_eq!(auction.create_item(2, input("b", "y", false), &owner), Ok(()));
    assert_eq!(auction.bid(1, 10, &id(2)), Ok(()));
    let first = auction.get_all_items();
    let second = auction.get_all_items();
    assert_eq!(first.len(), second.len());
    for (x, y) in first.iter().zip(second.iter()) {
        assert_eq!(x.name, y.name);
        assert_eq!(x.description, y.description);
        assert_eq!(x.is_listed, y.is_listed);
        assert_eq!(x.owner.bytes, y.owner.bytes);
        assert_eq!(x.bids.len(), y.bids.len());
        for (p, q) in x.bids.iter().zip(y.bids.iter()) {
            assert_eq!(p.amount, q.amount);
            assert_eq!(p.identity.bytes, q.identity.bytes);
        }
    }
}

/// Builds an unlisted item under `key` whose recorded bids are `amounts`,
/// placed by distinct bidders, then closed by the owner.
fn closed_item_with_bids(auction: &mut Auction, key: u64, amounts: &[u64]) {
    let owner = id(1);
    assert_eq!(
        auction.create_item(key, input("item", "", true), &owner),
        Ok(())
    );
    for (i, &amount) in amounts.iter().enumerate() {
        assert_eq!(auction.bid(key, amount, &id(10 + i as u8)), Ok(()));
    }
    assert_eq!(auction.unlist_item(key, &owner), Ok(()));
}

#[test]
fn aggregates_pick_highest_sale_and_most_bids() {
    let mut auction = Auction::new();
    // X: bids 5, 30. Y: bid 40. Z: no bids, created unlisted.
    closed_item_with_bids(&mut auction, 1, &[5, 30]);
    closed_item_with_bids(&mut auction, 2, &[40]);
    assert_eq!(
        auction.create_item(3, input("z", "", false), &id(1)),
        Ok(())
    );
    let sold = auction.get_item_sold_for_most().unwrap();
    assert_eq!(sold.bids.last().unwrap().amount, 40);
    let most = auction.get_item_bid_on_most().unwrap();
    assert_eq!(most.bids.len(), 2);
    assert_eq!(most.bids[1].amount, 30);
}

#[test]
fn aggregates_ignore_listed_items() {
    let mut auction = Auction::new();
    let owner = id(1);
    // A listed item with the highest bid and the most bids of all.
    assert_eq!(
        auction.create_item(1, input("listed", "", true), &owner),
        Ok(())
    );
    assert_eq!(auction.bid(1, 50, &id(2)), Ok(()));
    assert_eq!(auction.bid(1, 60, &id(3)), Ok(()));
    assert_eq!(auction.bid(1, 70, &id(4)), Ok(()));
    closed_item_with_bids(&mut auction, 2, &[10]);
    let sold = auction.get_item_sold_for_most().unwrap();
    assert_eq!(sold.name, "item");
    assert_eq!(sold.bids.last().unwrap().amount, 10);
    let most = auction.get_item_bid_on_most().unwrap();
    assert_eq!(most.bids.len(), 1);
}

#[test]
fn aggregate_ties_go_to_first_in_key_order() {
    let mut auction = Auction::new();
    closed_item_with_bids(&mut auction, 4, &[15, 25]);
    closed_item_with_bids(&mut auction, 9, &[25]);
    // Both sold for 25; the item under the smaller key wins.
    let sold = auction.get_item_sold_for_most().unwrap();
    assert_eq!(sold.bids.len(), 2);
    // Bid counts 2 and 1; the first item also has the most bids.
    let most = auction.get_item_bid_on_most().unwrap();
    assert_eq!(most.bids.len(), 2);
}

#[test]
fn create_rejects_record_over_size_bound() {
    let mut auction = Auction::new();
    let long_name = "n".repeat(101);
    let r = auction.create_item(1, input(&long_name, "", true), &id(1));
    assert_eq!(r, Err(BidError::UpdateError));
    assert!(auction.get_item(1).is_none());
}

#[test]
fn create_at_exact_size_bound_succeeds() {
    let mut auction = Auction::new();
    // 98 name chars + 0 description + 1 flag + 1 owner byte = 100.
    let name = "n".repeat(98);
    assert_eq!(auction.create_item(1, input(&name, "", true), &id(1)), Ok(()));
    // One character more exceeds the bound.
    let name = "n".repeat(99);
    assert_eq!(
        auction.create_item(2, input(&name, "", true), &id(1)),
        Err(BidError::UpdateError)
    );
}

#[test]
fn bid_growing_record_past_bound_fails_unchanged() {
    let mut auction = Auction::new();
    let owner = id(1);
    // 85 + 0 + 1 + 1 = 87 units; a bid adds its identity bytes + 8.
    let name = "n".repeat(85);
    assert_eq!(auction.create_item(1, input(&name, "", true), &owner), Ok(()));
    // 87 + 5 + 8 = 100: fits exactly.
    let small = Identity {
        bytes: vec![7, 7, 7, 7, 7],
    };
    assert_eq!(auction.bid(1, 10, &small), Ok(()));
    // 100 + 1 + 8 would exceed the bound.
    let r = auction.bid(1, 20, &id(2));
    assert_eq!(r, Err(BidError::UpdateError));
    let item = auction.get_item(1).unwrap();
    assert_eq!(item.bids.len(), 1);
    assert_eq!(item.bids[0].amount, 10);
}

#[test]
fn edit_growing_record_past_bound_fails_unchanged() {
    let mut auction = Auction::new();
    let owner = id(1);
    assert_eq!(auction.create_item(1, input("a", "", true), &owner), Ok(()));
    let long_description = "d".repeat(120);
    let r = auction.edit_item(1, input("a", &long_description, true), &owner);
    assert_eq!(r, Err(BidError::UpdateError));
    let item = auction.get_item(1).unwrap();
    assert_eq!(item.description, "");
}

#[test]
fn record_fits_decides_the_exact_boundary() {
    // 50 + 40 + 1 + 0 + (1 identity byte + 8) = 100: fits.
    let item = Item {
        name: "n".repeat(50),
        description: "d".repeat(40),
        is_listed: false,
        bids: vec![Bidder {
            identity: Identity { bytes: vec![9] },
            amount: 5,
        }],
        owner: Identity { bytes: vec![] },
    };
    assert!(record_fits(&item));
    // One more owner byte makes 101.
    let item = Item {
        owner: Identity { bytes: vec![1] },
        ..item
    };
    assert!(!record_fits(&item));
}
