//! The record types of the ledger: identities, bids, items, and the inputs
//! and errors of the auction operations, together with their mathematical
//! views and the size measure that the record store enforces.

use vstd::prelude::*;

verus! {

/// An opaque caller identity: a token supplied by the hosting environment,
/// compared only for equality and never interpreted.
pub struct Identity {
    pub bytes: Vec<u8>,
}

impl View for Identity {
    type V = Seq<u8>;

    open spec fn view(&self) -> Seq<u8> {
        self.bytes@
    }
}

/// One recorded bid event: who bid, and how much.
pub struct Bidder {
    pub identity: Identity,
    pub amount: u64,
}

/// The mathematical value of a [`Bidder`].
#[verifier::ext_equal]
pub ghost struct BidderView {
    pub identity: Seq<u8>,
    pub amount: u64,
}

impl View for Bidder {
    type V = BidderView;

    open spec fn view(&self) -> BidderView {
        BidderView { identity: self.identity@, amount: self.amount }
    }
}

/// A single auctionable listing: an owner, descriptive fields, a listing
/// state, and the history of bids in the order they were placed.
pub struct Item {
    pub name: String,
    pub description: String,
    pub is_listed: bool,
    pub bids: Vec<Bidder>,
    pub owner: Identity,
}

/// The mathematical value of an [`Item`].
#[verifier::ext_equal]
pub ghost struct ItemView {
    pub name: Seq<char>,
    pub description: Seq<char>,
    pub is_listed: bool,
    pub bids: Seq<BidderView>,
    pub owner: Seq<u8>,
}

impl View for Item {
    type V = ItemView;

    open spec fn view(&self) -> ItemView {
        ItemView {
            name: self.name@,
            description: self.description@,
            is_listed: self.is_listed,
            bids: self.bids@.map_values(|b: Bidder| b@),
            owner: self.owner@,
        }
    }
}

/// The transient input of `create_item` and `edit_item`: the caller-supplied
/// fields of an item. Never persisted as-is; the engine derives an [`Item`]
/// from it together with the caller identity.
pub struct CreateItem {
    pub name: String,
    pub description: String,
    pub is_listed: bool,
}

/// The mathematical value of a [`CreateItem`].
#[verifier::ext_equal]
pub ghost struct CreateItemView {
    pub name: Seq<char>,
    pub description: Seq<char>,
    pub is_listed: bool,
}

impl View for CreateItem {
    type V = CreateItemView;

    open spec fn view(&self) -> CreateItemView {
        CreateItemView {
            name: self.name@,
            description: self.description@,
            is_listed: self.is_listed,
        }
    }
}

/// The failure outcomes of the auction operations. `AlreadyBid` is part of
/// the error vocabulary but is returned by no operation.
#[derive(Clone, Copy, PartialEq, Eq, Structural, Debug)]
pub enum BidError {
    AlreadyBid,
    NoSuchItem,
    AccessRejected,
    UpdateError,
    ItemNotListed,
    BidMoreForThisItem,
}

/// The highest amount among a sequence of bids, `0` if there are none.
pub open spec fn max_amount(bids: Seq<BidderView>) -> u64
    decreases bids.len(),
{
    if bids.len() == 0 {
        0u64
    } else {
        let rest = max_amount(bids.drop_last());
        if bids.last().amount > rest {
            bids.last().amount
        } else {
            rest
        }
    }
}

/// `max_amount` is an upper bound of every amount in the sequence, and is
/// attained unless the sequence is empty.
pub proof fn lemma_max_amount_bound(bids: Seq<BidderView>)
    ensures
        forall|i: int| 0 <= i < bids.len() ==> #[trigger] bids[i].amount <= max_amount(bids),
        bids.len() > 0 ==> exists|i: int|
            0 <= i < bids.len() && #[trigger] bids[i].amount == max_amount(bids),
    decreases bids.len(),
{
    if bids.len() > 0 {
        let sub = bids.drop_last();
        lemma_max_amount_bound(sub);
        assert forall|i: int| 0 <= i < bids.len() implies #[trigger] bids[i].amount <= max_amount(
            bids,
        ) by {
            if i < bids.len() - 1 {
                assert(bids[i] == sub[i]);
                assert(sub[i].amount <= max_amount(sub));
            }
        }
        if bids.last().amount > max_amount(sub) {
            assert(bids[bids.len() - 1].amount == max_amount(bids));
        } else if sub.len() > 0 {
            let j = choose|j: int|
                0 <= j < sub.len() && #[trigger] sub[j].amount == max_amount(sub);
            assert(bids[j] == sub[j]);
            assert(bids[j].amount == max_amount(bids));
        } else {
            assert(bids[0].amount == max_amount(bids));
        }
    }
}

/// A well-formed bid history: amounts are strictly increasing in bid order,
/// and every amount is positive (each bid strictly exceeded the highest
/// amount before it, which starts at `0`).
pub open spec fn bids_well_formed(bids: Seq<BidderView>) -> bool {
    &&& forall|i: int, j: int|
        0 <= i < j < bids.len() ==> #[trigger] bids[i].amount < #[trigger] bids[j].amount
    &&& forall|i: int| 0 <= i < bids.len() ==> #[trigger] bids[i].amount > 0
}

/// In a well-formed, nonempty bid history the last bid carries the highest
/// amount.
pub proof fn lemma_last_bid_is_max(bids: Seq<BidderView>)
    requires
        bids_well_formed(bids),
        bids.len() > 0,
    ensures
        max_amount(bids) == bids.last().amount,
{
    lemma_max_amount_bound(bids);
    assert(bids.last().amount <= max_amount(bids));
}

/// Appending a bid that strictly exceeds the current highest amount keeps a
/// bid history well formed.
pub proof fn lemma_push_bid_well_formed(bids: Seq<BidderView>, bid: BidderView)
    requires
        bids_well_formed(bids),
        bid.amount > max_amount(bids),
    ensures
        bids_well_formed(bids.push(bid)),
{
    lemma_max_amount_bound(bids);
    let t = bids.push(bid);
    assert forall|i: int, j: int| 0 <= i < j < t.len() implies #[trigger] t[i].amount
        < #[trigger] t[j].amount by {
        if j == t.len() - 1 {
            assert(t[i] == bids[i]);
            assert(bids[i].amount <= max_amount(bids));
        } else {
            assert(t[i] == bids[i] && t[j] == bids[j]);
        }
    }
    assert forall|i: int| 0 <= i < t.len() implies #[trigger] t[i].amount > 0 by {
        if i < t.len() - 1 {
            assert(t[i] == bids[i]);
        }
    }
}

/// Amounts that increase from each bid to the next increase across the
/// whole history.
pub proof fn lemma_adjacent_implies_increasing(bids: Seq<BidderView>)
    requires
        forall|k: int| 0 < k < bids.len() ==> #[trigger] bids[k - 1].amount < bids[k].amount,
    ensures
        forall|i: int, j: int|
            0 <= i < j < bids.len() ==> #[trigger] bids[i].amount < #[trigger] bids[j].amount,
{
    assert forall|i: int, j: int| 0 <= i < j < bids.len() implies #[trigger] bids[i].amount
        < #[trigger] bids[j].amount by {
        lemma_amount_chain(bids, i, j);
    }
}

/// The amount at `i` lies strictly below the amount at any later `j`, given
/// that adjacent amounts increase.
proof fn lemma_amount_chain(bids: Seq<BidderView>, i: int, j: int)
    requires
        forall|k: int| 0 < k < bids.len() ==> #[trigger] bids[k - 1].amount < bids[k].amount,
        0 <= i < j < bids.len(),
    ensures
        bids[i].amount < bids[j].amount,
    decreases j - i,
{
    if i + 1 < j {
        assert(bids[(i + 1) - 1].amount < bids[i + 1].amount);
        lemma_amount_chain(bids, i + 1, j);
    } else {
        assert(bids[j - 1].amount < bids[j].amount);
    }
}

impl Identity {
    /// An identity equal in value to this one.
    pub fn duplicate(&self) -> (r: Identity)
        ensures
            r@ == self@,
    {
        let mut bytes: Vec<u8> = Vec::new();
        let mut i: usize = 0;
        while i < self.bytes.len()
            invariant
                0 <= i <= self.bytes.len(),
                bytes@ == self.bytes@.take(i as int),
            decreases self.bytes.len() - i,
        {
            bytes.push(self.bytes[i]);
            proof {
                assert(self.bytes@.take(i + 1).drop_last() == self.bytes@.take(i as int));
                assert(self.bytes@.take(i + 1).last() == self.bytes@[i as int]);
                assert(bytes@ == self.bytes@.take(i + 1));
            }
            i = i + 1;
        }
        proof {
            assert(self.bytes@.take(self.bytes@.len() as int) == self.bytes@);
        }
        Identity { bytes }
    }

    /// Whether two identities are the same token.
    pub fn same_as(&self, other: &Identity) -> (r: bool)
        ensures
            r == (self@ == other@),
    {
        let mut i: usize = 0;
        if self.bytes.len() != other.bytes.len() {
            proof {
                assert(self@ != other@) by {
                    assert(self@.len() != other@.len());
                }
            }
            return false;
        }
        while i < self.bytes.len()
            invariant
                0 <= i <= self.bytes.len(),
                self.bytes@.len() == other.bytes@.len(),
                forall|j: int| 0 <= j < i ==> self.bytes@[j] == other.bytes@[j],
            decreases self.bytes.len() - i,
        {
            if self.bytes[i] != other.bytes[i] {
                return false;
            }
            i = i + 1;
        }
        proof {
            assert(self@ =~= other@);
        }
        true
    }
}

impl Bidder {
    /// A bid record equal in value to this one.
    pub fn duplicate(&self) -> (r: Bidder)
        ensures
            r@ == self@,
    {
        Bidder { identity: self.identity.duplicate(), amount: self.amount }
    }
}

impl Item {
    /// An item record equal in value to this one.
    pub fn duplicate(&self) -> (r: Item)
        ensures
            r@ == self@,
    {
        let mut bids: Vec<Bidder> = Vec::new();
        let mut i: usize = 0;
        while i < self.bids.len()
            invariant
                0 <= i <= self.bids.len(),
                bids@.map_values(|b: Bidder| b@) == self.bids@.map_values(|b: Bidder| b@).take(
                    i as int,
                ),
            decreases self.bids.len() - i,
        {
            let ghost prefix = bids@;
            bids.push(self.bids[i].duplicate());
            proof {
                let full = self.bids@.map_values(|b: Bidder| b@);
                assert(bids@.map_values(|b: Bidder| b@) =~= prefix.map_values(|b: Bidder| b@).push(
                    bids@.last()@,
                ));
                assert(full.take(i + 1) =~= full.take(i as int).push(full[i as int]));
            }
            i = i + 1;
        }
        proof {
            let full = self.bids@.map_values(|b: Bidder| b@);
            assert(full.take(full.len() as int) == full);
        }
        let r = Item {
            name: self.name.clone(),
            description: self.description.clone(),
            is_listed: self.is_listed,
            bids,
            owner: self.owner.duplicate(),
        };
        proof {
            assert(r@ =~= self@);
        }
        r
    }

    /// Decides whether this item's bid history is well formed: amounts
    /// strictly increasing in bid order, and every amount positive.
    pub fn bids_are_well_formed(&self) -> (r: bool)
        ensures
            r == bids_well_formed(self@.bids),
    {
        let ghost bids = self@.bids;
        let n = self.bids.len();
        if n == 0 {
            return true;
        }
        if self.bids[0].amount == 0 {
            assert(bids[0].amount == 0);
            return false;
        }
        let mut i: usize = 1;
        while i < n
            invariant
                1 <= i <= n,
                bids == self@.bids,
                bids.len() == n,
                bids[0].amount > 0,
                forall|k: int| 0 < k < i ==> #[trigger] bids[k - 1].amount < bids[k].amount,
            decreases n - i,
        {
            if self.bids[i - 1].amount >= self.bids[i].amount {
                assert(bids[i - 1].amount >= bids[i as int].amount);
                return false;
            }
            i = i + 1;
        }
        proof {
            lemma_adjacent_implies_increasing(bids);
            assert forall|k: int| 0 <= k < bids.len() implies #[trigger] bids[k].amount > 0 by {
                if k > 0 {
                    assert(bids[0].amount < bids[k].amount);
                }
            }
        }
        true
    }

    /// Computes the current highest bid amount of this item, `0` if it has
    /// no bids yet.
    pub fn highest_bid(&self) -> (r: u64)
        ensures
            r == max_amount(self@.bids),
    {
        let ghost bids = self@.bids;
        let mut best: u64 = 0;
        let mut i: usize = 0;
        while i < self.bids.len()
            invariant
                0 <= i <= self.bids.len(),
                bids == self@.bids,
                bids.len() == self.bids.len(),
                best == max_amount(bids.take(i as int)),
            decreases self.bids.len() - i,
        {
            let amount = self.bids[i].amount;
            assert(bids.take(i + 1).drop_last() == bids.take(i as int));
            assert(bids.take(i + 1).last() == bids[i as int]);
            if amount > best {
                best = amount;
            }
            i = i + 1;
        }
        assert(bids.take(self.bids.len() as int) == bids);
        best
    }
}

} // verus!
