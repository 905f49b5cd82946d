//! The auction engine: the operations that read and mutate item records
//! through the record store while enforcing ownership, listing-state and
//! bid-ordering rules. Every operation is one atomic fetch-validate-write
//! against a single key.

use vstd::prelude::*;

use crate::item::bids_well_formed;
use crate::item::max_amount;
use crate::item::BidError;
use crate::item::Bidder;
use crate::item::BidderView;
use crate::item::CreateItem;
use crate::item::CreateItemView;
use crate::item::Identity;
use crate::item::Item;
use crate::item::ItemView;
use crate::store::record_size;
use crate::store::seq_get;
use crate::store::seq_put;
use crate::store::sorted;
use crate::store::ItemStore;
use crate::store::MAX_RECORD_SIZE;

verus! {

/// The item derived from a create input: the input's fields, the caller as
/// owner, and no bids.
pub open spec fn item_from(input: CreateItemView, caller: Seq<u8>) -> ItemView {
    ItemView {
        name: input.name,
        description: input.description,
        is_listed: input.is_listed,
        bids: Seq::empty(),
        owner: caller,
    }
}

/// The item after an edit: the input's fields replace `name`, `description`
/// and `is_listed`, while the bid history and the owner are preserved.
pub open spec fn edited(cur: ItemView, input: CreateItemView) -> ItemView {
    ItemView {
        name: input.name,
        description: input.description,
        is_listed: input.is_listed,
        bids: cur.bids,
        owner: cur.owner,
    }
}

/// The item after a close: unlisted, everything else as before except that
/// ownership passes to the last bidder — in a well-formed history the one
/// who bid the highest amount.
pub open spec fn unlisted(cur: ItemView) -> ItemView {
    ItemView {
        name: cur.name,
        description: cur.description,
        is_listed: false,
        bids: cur.bids,
        owner: cur.bids.last().identity,
    }
}

/// The item after a bid: the new bid is appended to the history, everything
/// else is unchanged.
pub open spec fn with_bid(cur: ItemView, caller: Seq<u8>, amount: u64) -> ItemView {
    ItemView {
        name: cur.name,
        description: cur.description,
        is_listed: cur.is_listed,
        bids: cur.bids.push(BidderView { identity: caller, amount }),
        owner: cur.owner,
    }
}

/// The number of records whose item is listed.
pub open spec fn count_listed(s: Seq<(u64, ItemView)>) -> int
    decreases s.len(),
{
    if s.len() == 0 {
        0
    } else {
        count_listed(s.drop_last()) + if s.last().1.is_listed {
            1int
        } else {
            0int
        }
    }
}

/// The amount an item sold for: its highest bid amount if it is unlisted
/// and was bid on, and `0` otherwise. Listed or bid-less items never count.
pub open spec fn sold_amount(it: ItemView) -> u64 {
    if !it.is_listed && it.bids.len() > 0 {
        max_amount(it.bids)
    } else {
        0
    }
}

/// The number of bids an item counts for among closed sales: its bid count
/// if it is unlisted, and `0` otherwise.
pub open spec fn closed_bid_count(it: ItemView) -> int {
    if !it.is_listed {
        it.bids.len() as int
    } else {
        0
    }
}

/// The auction ledger: the record store together with the engine's rules.
pub struct Auction {
    store: ItemStore,
}

impl View for Auction {
    type V = Seq<(u64, ItemView)>;

    closed spec fn view(&self) -> Seq<(u64, ItemView)> {
        self.store@
    }
}

/// After a put of a well-formed record into a store of well-formed records,
/// every record is well formed.
proof fn lemma_put_keeps_bids_well_formed(s: Seq<(u64, ItemView)>, key: u64, v: ItemView)
    requires
        forall|i: int| 0 <= i < s.len() ==> bids_well_formed((#[trigger] s[i]).1.bids),
        bids_well_formed(v.bids),
    ensures
        forall|i: int|
            0 <= i < seq_put(s, key, v).len() ==> bids_well_formed(
                (#[trigger] seq_put(s, key, v)[i]).1.bids,
            ),
{
    crate::store::lemma_seq_put_items(s, key, v);
    let t = seq_put(s, key, v);
    assert forall|i: int| 0 <= i < t.len() implies bids_well_formed(
        (#[trigger] t[i]).1.bids,
    ) by {
        if t[i] != (key, v) {
            let j = choose|j: int| 0 <= j < s.len() && s[j] == t[i];
            assert(bids_well_formed(s[j].1.bids));
        }
    }
}

/// The record a successful lookup returns on a well-formed ledger has a
/// well-formed bid history.
proof fn lemma_get_bids_well_formed(s: Seq<(u64, ItemView)>, key: u64)
    requires
        forall|i: int| 0 <= i < s.len() ==> bids_well_formed((#[trigger] s[i]).1.bids),
        seq_get(s, key) is Some,
    ensures
        bids_well_formed(seq_get(s, key)->Some_0.bids),
{
    crate::store::lemma_seq_get_in(s, key);
    let it = seq_get(s, key)->Some_0;
    let i = choose|i: int| 0 <= i < s.len() && s[i] == (key, it);
    assert(bids_well_formed(s[i].1.bids));
}

impl Auction {
    /// The ledger's invariant: records stand in strictly increasing key
    /// order, and every stored bid history is well formed.
    pub open spec fn wf(&self) -> bool {
        &&& sorted(self@)
        &&& forall|i: int| 0 <= i < self@.len() ==> bids_well_formed((#[trigger] self@[i]).1.bids)
    }

    /// An empty ledger.
    pub fn new() -> (r: Auction)
        ensures
            r.wf(),
            r@ == Seq::<(u64, ItemView)>::empty(),
    {
        Auction { store: ItemStore::new() }
    }

    /// Returns a copy of the item filed under `key`, or `None` if the key
    /// holds no record. No side effects.
    pub fn get_item(&self, key: u64) -> (r: Option<Item>)
        ensures
            match r {
                Some(item) => seq_get(self@, key) == Some(item@),
                None => seq_get(self@, key) is None,
            },
    {
        self.store.get(key)
    }

    /// Returns a copy of every stored item, in the store's key-ordered
    /// traversal order. No side effects.
    pub fn get_all_items(&self) -> (r: Vec<Item>)
        ensures
            r@.len() == self@.len(),
            forall|i: int| 0 <= i < r@.len() ==> (#[trigger] r@[i])@ == self@[i].1,
    {
        let mut items: Vec<Item> = Vec::new();
        let n = self.store.len();
        let mut i: usize = 0;
        while i < n
            invariant
                0 <= i <= n,
                n == self@.len(),
                items@.len() == i,
                forall|j: int| 0 <= j < i ==> (#[trigger] items@[j])@ == self@[j].1,
            decreases n - i,
        {
            items.push(self.store.item_at(i).duplicate());
            i = i + 1;
        }
        items
    }

    /// The number of records whose item is currently listed. No side
    /// effects.
    pub fn get_listed_items_count(&self) -> (r: u64)
        ensures
            r == count_listed(self@),
    {
        let ghost s = self@;
        let n = self.store.len();
        let mut count: u64 = 0;
        let mut i: usize = 0;
        while i < n
            invariant
                0 <= i <= n,
                s == self@,
                n == s.len(),
                count <= i,
                count == count_listed(s.take(i as int)),
            decreases n - i,
        {
            proof {
                assert(s.take(i + 1).drop_last() =~= s.take(i as int));
                assert(s.take(i + 1).last() == s[i as int]);
            }
            if self.store.item_at(i).is_listed {
                count = count + 1;
            }
            i = i + 1;
        }
        proof {
            assert(s.take(n as int) =~= s);
        }
        count
    }

    /// Among unlisted items that were bid on, returns a copy of the one
    /// whose highest bid amount is the largest, the first in traversal
    /// order on a tie. Returns `None` if no unlisted item has any bid. No
    /// side effects.
    pub fn get_item_sold_for_most(&self) -> (r: Option<Item>)
        ensures
            match r {
                None => forall|i: int| 0 <= i < self@.len() ==> sold_amount(#[trigger] self@[i].1) == 0,
                Some(item) => exists|i: int|
                    {
                        &&& 0 <= i < self@.len()
                        &&& item@ == #[trigger] self@[i].1
                        &&& sold_amount(self@[i].1) > 0
                        &&& forall|j: int|
                            0 <= j < i ==> sold_amount(#[trigger] self@[j].1) < sold_amount(
                                self@[i].1,
                            )
                        &&& forall|j: int|
                            0 <= j < self@.len() ==> sold_amount(#[trigger] self@[j].1)
                                <= sold_amount(self@[i].1)
                    },
            },
    {
        let ghost s = self@;
        let n = self.store.len();
        let mut have: bool = false;
        let mut best_i: usize = 0;
        let mut best_amount: u64 = 0;
        let mut i: usize = 0;
        while i < n
            invariant
                0 <= i <= n,
                s == self@,
                n == s.len(),
                !have ==> best_amount == 0 && forall|j: int|
                    0 <= j < i ==> sold_amount(#[trigger] s[j].1) == 0,
                have ==> {
                    &&& best_i < i
                    &&& sold_amount(s[best_i as int].1) == best_amount
                    &&& best_amount > 0
                    &&& forall|j: int|
                        0 <= j < best_i ==> sold_amount(#[trigger] s[j].1) < best_amount
                    &&& forall|j: int| 0 <= j < i ==> sold_amount(#[trigger] s[j].1) <= best_amount
                },
            decreases n - i,
        {
            let item = self.store.item_at(i);
            if !item.is_listed && item.bids.len() > 0 {
                let amount = item.highest_bid();
                assert(sold_amount(s[i as int].1) == amount);
                if amount > best_amount {
                    best_amount = amount;
                    best_i = i;
                    have = true;
                }
            } else {
                assert(sold_amount(s[i as int].1) == 0);
            }
            i = i + 1;
        }
        if have {
            Some(self.store.item_at(best_i).duplicate())
        } else {
            None
        }
    }

    /// Among unlisted items, returns a copy of the one with the most bids,
    /// the first in traversal order on a tie. Returns `None` if no unlisted
    /// item has any bid. No side effects.
    pub fn get_item_bid_on_most(&self) -> (r: Option<Item>)
        ensures
            match r {
                None => forall|i: int|
                    0 <= i < self@.len() ==> closed_bid_count(#[trigger] self@[i].1) == 0,
                Some(item) => exists|i: int|
                    {
                        &&& 0 <= i < self@.len()
                        &&& item@ == #[trigger] self@[i].1
                        &&& closed_bid_count(self@[i].1) > 0
                        &&& forall|j: int|
                            0 <= j < i ==> closed_bid_count(#[trigger] self@[j].1)
                                < closed_bid_count(self@[i].1)
                        &&& forall|j: int|
                            0 <= j < self@.len() ==> closed_bid_count(#[trigger] self@[j].1)
                                <= closed_bid_count(self@[i].1)
                    },
            },
    {
        let ghost s = self@;
        let n = self.store.len();
        let mut have: bool = false;
        let mut best_i: usize = 0;
        let mut best_count: u64 = 0;
        let mut i: usize = 0;
        while i < n
            invariant
                0 <= i <= n,
                s == self@,
                n == s.len(),
                !have ==> best_count == 0 && forall|j: int|
                    0 <= j < i ==> closed_bid_count(#[trigger] s[j].1) == 0,
                have ==> {
                    &&& best_i < i
                    &&& closed_bid_count(s[best_i as int].1) == best_count
                    &&& best_count > 0
                    &&& forall|j: int|
                        0 <= j < best_i ==> closed_bid_count(#[trigger] s[j].1) < best_count
                    &&& forall|j: int|
                        0 <= j < i ==> closed_bid_count(#[trigger] s[j].1) <= best_count
                },
            decreases n - i,
        {
            let item = self.store.item_at(i);
            if !item.is_listed {
                let bids_count = item.bids.len() as u64;
                assert(closed_bid_count(s[i as int].1) == bids_count);
                if bids_count > best_count {
                    best_count = bids_count;
                    best_i = i;
                    have = true;
                }
            } else {
                assert(closed_bid_count(s[i as int].1) == 0);
            }
            i = i + 1;
        }
        if have {
            Some(self.store.item_at(best_i).duplicate())
        } else {
            None
        }
    }

    /// Files a new item under `key`, owned by the caller, with the input's
    /// fields and an empty bid history. Silently replaces any record already
    /// filed under `key`. Fails with `UpdateError`, leaving the ledger
    /// unchanged, exactly when the new record exceeds the store's size
    /// bound.
    pub fn create_item(&mut self, key: u64, input: CreateItem, caller: &Identity) -> (r: Result<
        (),
        BidError,
    >)
        requires
            old(self).wf(),
        ensures
            final(self).wf(),
            match r {
                Ok(_) => {
                    &&& record_size(item_from(input@, caller@)) <= MAX_RECORD_SIZE as int
                    &&& final(self)@ == seq_put(old(self)@, key, item_from(input@, caller@))
                },
                Err(e) => {
                    &&& e == BidError::UpdateError
                    &&& record_size(item_from(input@, caller@)) > MAX_RECORD_SIZE as int
                    &&& final(self)@ == old(self)@
                },
            },
    {
        let new_item = Item {
            name: input.name,
            description: input.description,
            is_listed: input.is_listed,
            bids: Vec::new(),
            owner: caller.duplicate(),
        };
        proof {
            assert(new_item@ =~= item_from(input@, caller@));
            lemma_put_keeps_bids_well_formed(self@, key, new_item@);
        }
        match self.store.insert(key, new_item) {
            Ok(_) => Ok(()),
            Err(_) => Err(BidError::UpdateError),
        }
    }

    /// Replaces the descriptive fields and listing state of the item filed
    /// under `key` with the input's, preserving its bid history and owner.
    /// Fails with `NoSuchItem` if the key holds no record, `AccessRejected`
    /// if the caller is not the owner, and `UpdateError` if the edited
    /// record exceeds the store's size bound; on failure the ledger is
    /// unchanged.
    pub fn edit_item(&mut self, key: u64, input: CreateItem, caller: &Identity) -> (r: Result<
        (),
        BidError,
    >)
        requires
            old(self).wf(),
        ensures
            final(self).wf(),
            match seq_get(old(self)@, key) {
                None => r == Err::<(), BidError>(BidError::NoSuchItem) && final(self)@ == old(
                    self,
                )@,
                Some(cur) => if cur.owner != caller@ {
                    r == Err::<(), BidError>(BidError::AccessRejected) && final(self)@ == old(
                        self,
                    )@
                } else if record_size(edited(cur, input@)) <= MAX_RECORD_SIZE as int {
                    r == Ok::<(), BidError>(()) && final(self)@ == seq_put(
                        old(self)@,
                        key,
                        edited(cur, input@),
                    )
                } else {
                    r == Err::<(), BidError>(BidError::UpdateError) && final(self)@ == old(self)@
                },
            },
    {
        let ghost s = self@;
        let cur_item = match self.store.get(key) {
            Some(item) => item,
            None => {
                return Err(BidError::NoSuchItem);
            },
        };
        if !caller.same_as(&cur_item.owner) {
            return Err(BidError::AccessRejected);
        }
        let new_item = Item {
            name: input.name,
            description: input.description,
            is_listed: input.is_listed,
            bids: cur_item.bids,
            owner: cur_item.owner,
        };
        proof {
            let cur = seq_get(s, key)->Some_0;
            assert(new_item@ =~= edited(cur, input@));
            lemma_get_bids_well_formed(s, key);
            lemma_put_keeps_bids_well_formed(s, key, new_item@);
        }
        match self.store.insert(key, new_item) {
            Ok(_) => Ok(()),
            Err(_) => Err(BidError::UpdateError),
        }
    }

    /// Closes the item filed under `key`: sets it unlisted and passes
    /// ownership to the highest bidder. Fails with `NoSuchItem` if the key
    /// holds no record, `AccessRejected` if the caller is not the owner,
    /// and `UpdateError` if the item has no bids (there is no winner to
    /// transfer to) or the closed record exceeds the store's size bound; on
    /// failure the ledger is unchanged — in particular the item stays
    /// listed.
    pub fn unlist_item(&mut self, key: u64, caller: &Identity) -> (r: Result<(), BidError>)
        requires
            old(self).wf(),
        ensures
            final(self).wf(),
            match seq_get(old(self)@, key) {
                None => r == Err::<(), BidError>(BidError::NoSuchItem) && final(self)@ == old(
                    self,
                )@,
                Some(cur) => if cur.owner != caller@ {
                    r == Err::<(), BidError>(BidError::AccessRejected) && final(self)@ == old(
                        self,
                    )@
                } else if cur.bids.len() == 0 {
                    r == Err::<(), BidError>(BidError::UpdateError) && final(self)@ == old(self)@
                } else if record_size(unlisted(cur)) <= MAX_RECORD_SIZE as int {
                    r == Ok::<(), BidError>(()) && final(self)@ == seq_put(
                        old(self)@,
                        key,
                        unlisted(cur),
                    )
                } else {
                    r == Err::<(), BidError>(BidError::UpdateError) && final(self)@ == old(self)@
                },
            },
    {
        let ghost s = self@;
        let cur_item = match self.store.get(key) {
            Some(item) => item,
            None => {
                return Err(BidError::NoSuchItem);
            },
        };
        if !caller.same_as(&cur_item.owner) {
            return Err(BidError::AccessRejected);
        }
        if cur_item.bids.len() == 0 {
            return Err(BidError::UpdateError);
        }
        let winner = cur_item.bids[cur_item.bids.len() - 1].identity.duplicate();
        let new_item = Item {
            name: cur_item.name,
            description: cur_item.description,
            is_listed: false,
            bids: cur_item.bids,
            owner: winner,
        };
        proof {
            let cur = seq_get(s, key)->Some_0;
            assert(new_item@ =~= unlisted(cur));
            lemma_get_bids_well_formed(s, key);
            lemma_put_keeps_bids_well_formed(s, key, new_item@);
        }
        match self.store.insert(key, new_item) {
            Ok(_) => Ok(()),
            Err(_) => Err(BidError::UpdateError),
        }
    }

    /// Places a bid of `amount` by the caller on the item filed under
    /// `key`, appending it to the item's bid history. Fails with
    /// `NoSuchItem` if the key holds no record, `ItemNotListed` if the item
    /// is not listed, `BidMoreForThisItem` if `amount` does not strictly
    /// exceed the item's current highest bid amount, and `UpdateError` if
    /// the grown record exceeds the store's size bound; on failure the
    /// ledger is unchanged.
    pub fn bid(&mut self, key: u64, amount: u64, caller: &Identity) -> (r: Result<(), BidError>)
        requires
            old(self).wf(),
        ensures
            final(self).wf(),
            match seq_get(old(self)@, key) {
                None => r == Err::<(), BidError>(BidError::NoSuchItem) && final(self)@ == old(
                    self,
                )@,
                Some(cur) => if !cur.is_listed {
                    r == Err::<(), BidError>(BidError::ItemNotListed) && final(self)@ == old(
                        self,
                    )@
                } else if amount <= max_amount(cur.bids) {
                    r == Err::<(), BidError>(BidError::BidMoreForThisItem) && final(self)@ == old(
                        self,
                    )@
                } else if record_size(with_bid(cur, caller@, amount)) <= MAX_RECORD_SIZE as int {
                    r == Ok::<(), BidError>(()) && final(self)@ == seq_put(
                        old(self)@,
                        key,
                        with_bid(cur, caller@, amount),
                    )
                } else {
                    r == Err::<(), BidError>(BidError::UpdateError) && final(self)@ == old(self)@
                },
            },
    {
        let ghost s = self@;
        let mut cur_item = match self.store.get(key) {
            Some(item) => item,
            None => {
                return Err(BidError::NoSuchItem);
            },
        };
        if !cur_item.is_listed {
            return Err(BidError::ItemNotListed);
        }
        let current_highest = cur_item.highest_bid();
        if amount <= current_highest {
            return Err(BidError::BidMoreForThisItem);
        }
        let ghost cur = seq_get(s, key)->Some_0;
        let ghost old_bids = cur_item.bids@.map_values(|b: Bidder| b@);
        cur_item.bids.push(Bidder { identity: caller.duplicate(), amount });
        proof {
            assert(cur_item.bids@.map_values(|b: Bidder| b@) =~= old_bids.push(
                BidderView { identity: caller@, amount },
            ));
            assert(cur_item@ =~= with_bid(cur, caller@, amount));
            lemma_get_bids_well_formed(s, key);
            crate::item::lemma_push_bid_well_formed(
                cur.bids,
                BidderView { identity: caller@, amount },
            );
            lemma_put_keeps_bids_well_formed(s, key, cur_item@);
        }
        match self.store.insert(key, cur_item) {
            Ok(_) => Ok(()),
            Err(_) => Err(BidError::UpdateError),
        }
    }

    /// Refiles a record read back from the durable storage collaborator,
    /// as when the ledger is rebuilt at process start. Accepts the record
    /// only if its bid history is well formed and it fits the store's size
    /// bound; otherwise fails with `UpdateError` and leaves the ledger
    /// unchanged.
    pub fn restore_item(&mut self, key: u64, item: Item) -> (r: Result<(), BidError>)
        requires
            old(self).wf(),
        ensures
            final(self).wf(),
            match r {
                Ok(_) => {
                    &&& bids_well_formed(item@.bids)
                    &&& record_size(item@) <= MAX_RECORD_SIZE as int
                    &&& final(self)@ == seq_put(old(self)@, key, item@)
                },
                Err(e) => {
                    &&& e == BidError::UpdateError
                    &&& !(bids_well_formed(item@.bids) && record_size(item@)
                        <= MAX_RECORD_SIZE as int)
                    &&& final(self)@ == old(self)@
                },
            },
    {
        if !item.bids_are_well_formed() {
            return Err(BidError::UpdateError);
        }
        proof {
            lemma_put_keeps_bids_well_formed(self@, key, item@);
        }
        match self.store.insert(key, item) {
            Ok(_) => Ok(()),
            Err(_) => Err(BidError::UpdateError),
        }
    }
}

/// Law: the amounts in any bid history a well-formed ledger holds are
/// strictly increasing in bid order.
pub proof fn lemma_stored_bids_monotonic(a: Auction, key: u64)
    requires
        a.wf(),
        seq_get(a@, key) is Some,
    ensures
        ({
            let bids = seq_get(a@, key)->Some_0.bids;
            forall|i: int, j: int|
                0 <= i < j < bids.len() ==> #[trigger] bids[i].amount < #[trigger] bids[j].amount
        }),
{
    lemma_get_bids_well_formed(a@, key);
}

/// Law: closing an item passes ownership to a bidder who bid the item's
/// highest amount.
pub proof fn lemma_unlist_transfers_to_highest(cur: ItemView)
    requires
        bids_well_formed(cur.bids),
        cur.bids.len() > 0,
    ensures
        exists|i: int|
            0 <= i < cur.bids.len() && (#[trigger] cur.bids[i]).identity == unlisted(cur).owner
                && cur.bids[i].amount == max_amount(cur.bids),
{
    crate::item::lemma_last_bid_is_max(cur.bids);
    assert(cur.bids[cur.bids.len() - 1].identity == unlisted(cur).owner && cur.bids[cur.bids.len()
        - 1].amount == max_amount(cur.bids));
}

/// Law: an item written by a successful create and then read back under the
/// same key holds exactly the input's fields, the creator as owner, and an
/// empty bid history.
pub proof fn lemma_create_then_get(
    pre: Seq<(u64, ItemView)>,
    post: Seq<(u64, ItemView)>,
    key: u64,
    input: CreateItemView,
    caller: Seq<u8>,
)
    requires
        post == seq_put(pre, key, item_from(input, caller)),
    ensures
        ({
            let got = seq_get(post, key);
            &&& got is Some
            &&& got->Some_0.name == input.name
            &&& got->Some_0.description == input.description
            &&& got->Some_0.is_listed == input.is_listed
            &&& got->Some_0.owner == caller
            &&& got->Some_0.bids == Seq::<BidderView>::empty()
        }),
{
    crate::store::lemma_seq_put_get(pre, key, item_from(input, caller));
}

/// Law: two reads of all items against one ledger state describe the same
/// sequence of item values.
pub proof fn lemma_get_all_items_identical(
    s: Seq<(u64, ItemView)>,
    r1: Seq<ItemView>,
    r2: Seq<ItemView>,
)
    requires
        r1.len() == s.len(),
        forall|i: int| 0 <= i < r1.len() ==> #[trigger] r1[i] == s[i].1,
        r2.len() == s.len(),
        forall|i: int| 0 <= i < r2.len() ==> #[trigger] r2[i] == s[i].1,
    ensures
        r1 == r2,
{
    assert(r1 =~= r2);
}

} // verus!

