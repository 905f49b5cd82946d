//! The persistent record store: a keyed mapping from 64-bit keys to item
//! records, kept in key order, with a bound on the size of each stored
//! record. Mutation is whole-record: a record is read, rebuilt, and written
//! back in full.

use vstd::prelude::*;

use crate::item::Item;
use crate::item::ItemView;

verus! {

/// The largest size, as measured by [`record_size`], that one stored record
/// may have. A write that would exceed it fails; nothing is truncated.
pub const MAX_RECORD_SIZE: u64 = 100;

/// The size a bid history occupies in a stored record: one unit per identity
/// byte and eight per bid amount.
pub open spec fn bids_size(bids: Seq<crate::item::BidderView>) -> int
    decreases bids.len(),
{
    if bids.len() == 0 {
        0
    } else {
        bids_size(bids.drop_last()) + bids.last().identity.len() + 8
    }
}

/// The size an item occupies in a stored record: one unit per character of
/// the two strings, one per owner-identity byte, one for the listing flag,
/// and the size of the bid history.
pub open spec fn record_size(it: ItemView) -> int {
    it.name.len() + it.description.len() + 1 + it.owner.len() + bids_size(it.bids)
}

/// Why a store write was refused.
#[derive(Clone, Copy, PartialEq, Eq, Structural, Debug)]
pub enum StoreError {
    /// The record's size exceeds [`MAX_RECORD_SIZE`].
    RecordTooLarge,
}

/// A bid history never has negative size.
pub proof fn lemma_bids_size_nonneg(bids: Seq<crate::item::BidderView>)
    ensures
        bids_size(bids) >= 0,
    decreases bids.len(),
{
    if bids.len() > 0 {
        lemma_bids_size_nonneg(bids.drop_last());
    }
}

/// A prefix of a bid history is no larger than the whole.
pub proof fn lemma_bids_size_prefix(bids: Seq<crate::item::BidderView>, i: int)
    requires
        0 <= i <= bids.len(),
    ensures
        bids_size(bids.take(i)) <= bids_size(bids),
    decreases bids.len() - i,
{
    if i == bids.len() {
        assert(bids.take(i) =~= bids);
    } else {
        lemma_bids_size_prefix(bids, i + 1);
        assert(bids.take(i + 1).drop_last() =~= bids.take(i));
        assert(bids.take(i + 1).last() == bids[i]);
    }
}

/// Whether `item` fits the store's record size bound. Decides exactly the
/// condition `record_size(item@) <= MAX_RECORD_SIZE`.
pub fn record_fits(item: &Item) -> (r: bool)
    ensures
        r == (record_size(item@) <= MAX_RECORD_SIZE as int),
{
    let ghost it = item@;
    proof {
        lemma_bids_size_nonneg(it.bids);
    }
    let name_len = item.name.as_str().unicode_len();
    if name_len > 100 {
        return false;
    }
    let description_len = item.description.as_str().unicode_len();
    if description_len > 100 {
        return false;
    }
    let owner_len = item.owner.bytes.len();
    if owner_len > 100 {
        return false;
    }
    let mut size: u64 = 1 + name_len as u64 + description_len as u64 + owner_len as u64;
    if size > MAX_RECORD_SIZE {
        return false;
    }
    let mut i: usize = 0;
    while i < item.bids.len()
        invariant
            0 <= i <= item.bids.len(),
            it == item@,
            it.bids.len() == item.bids.len(),
            size == 1 + it.name.len() + it.description.len() + it.owner.len() + bids_size(
                it.bids.take(i as int),
            ),
            size <= MAX_RECORD_SIZE,
        decreases item.bids.len() - i,
    {
        proof {
            assert(it.bids.take(i + 1).drop_last() =~= it.bids.take(i as int));
            assert(it.bids.take(i + 1).last() == it.bids[i as int]);
            lemma_bids_size_prefix(it.bids, i + 1);
        }
        let id_len = item.bids[i].identity.bytes.len();
        if id_len > 100 {
            return false;
        }
        size = size + id_len as u64 + 8;
        if size > MAX_RECORD_SIZE {
            return false;
        }
        i = i + 1;
    }
    proof {
        assert(it.bids.take(item.bids.len() as int) =~= it.bids);
    }
    true
}

/// One stored record: a key and the item filed under it.
pub struct Entry {
    pub key: u64,
    pub item: Item,
}

/// A durable keyed mapping from `u64` keys to [`Item`] records, in strictly
/// increasing key order.
pub struct ItemStore {
    entries: Vec<Entry>,
}

impl View for ItemStore {
    type V = Seq<(u64, ItemView)>;

    closed spec fn view(&self) -> Seq<(u64, ItemView)> {
        self.entries@.map_values(|e: Entry| (e.key, e.item@))
    }
}

/// Keys appear at most once and in strictly increasing order.
pub open spec fn sorted(s: Seq<(u64, ItemView)>) -> bool {
    forall|i: int, j: int| 0 <= i < j < s.len() ==> (#[trigger] s[i]).0 < (#[trigger] s[j]).0
}

/// The record filed under `key`, if any: the first entry whose key matches.
pub open spec fn seq_get(s: Seq<(u64, ItemView)>, key: u64) -> Option<ItemView>
    decreases s.len(),
{
    if s.len() == 0 {
        None
    } else if s[0].0 == key {
        Some(s[0].1)
    } else {
        seq_get(s.drop_first(), key)
    }
}

/// The store after filing `v` under `key`: the entry at `key` is replaced if
/// present, and inserted at its key-ordered position otherwise.
pub open spec fn seq_put(s: Seq<(u64, ItemView)>, key: u64, v: ItemView) -> Seq<(u64, ItemView)>
    decreases s.len(),
{
    if s.len() == 0 {
        seq![(key, v)]
    } else if key < s[0].0 {
        seq![(key, v)] + s
    } else if key == s[0].0 {
        seq![(key, v)] + s.drop_first()
    } else {
        seq![s[0]] + seq_put(s.drop_first(), key, v)
    }
}

/// After a put, the key filed to holds exactly the value written.
pub proof fn lemma_seq_put_get(s: Seq<(u64, ItemView)>, key: u64, v: ItemView)
    ensures
        seq_get(seq_put(s, key, v), key) == Some(v),
    decreases s.len(),
{
    let t = seq_put(s, key, v);
    if s.len() == 0 {
    } else if key < s[0].0 {
    } else if key == s[0].0 {
    } else {
        lemma_seq_put_get(s.drop_first(), key, v);
        assert(t.drop_first() == seq_put(s.drop_first(), key, v));
    }
}

/// A put leaves every other key's record unchanged.
pub proof fn lemma_seq_put_get_other(s: Seq<(u64, ItemView)>, key: u64, v: ItemView, other: u64)
    requires
        other != key,
    ensures
        seq_get(seq_put(s, key, v), other) == seq_get(s, other),
    decreases s.len(),
{
    let t = seq_put(s, key, v);
    if s.len() == 0 {
        assert(t.drop_first() =~= Seq::<(u64, ItemView)>::empty());
        assert(seq_get(t, other) == seq_get(s, other));
    } else if key < s[0].0 {
        assert(t.drop_first() =~= s);
        assert(seq_get(t, other) == seq_get(s, other));
    } else if key == s[0].0 {
        assert(t.drop_first() =~= s.drop_first());
        assert(seq_get(t, other) == seq_get(s, other));
    } else {
        lemma_seq_put_get_other(s.drop_first(), key, v, other);
        assert(t.drop_first() =~= seq_put(s.drop_first(), key, v));
        if s[0].0 == other {
            assert(seq_get(t, other) == Some(t[0].1));
        }
        assert(seq_get(t, other) == seq_get(s, other));
    }
}

/// A successful lookup returns a record the store holds under that key.
pub proof fn lemma_seq_get_in(s: Seq<(u64, ItemView)>, key: u64)
    ensures
        match seq_get(s, key) {
            Some(it) => exists|i: int| 0 <= i < s.len() && s[i] == (key, it),
            None => true,
        },
    decreases s.len(),
{
    if s.len() > 0 && s[0].0 != key {
        lemma_seq_get_in(s.drop_first(), key);
        if seq_get(s, key) is Some {
            let it = seq_get(s, key)->Some_0;
            let i = choose|i: int| 0 <= i < s.drop_first().len() && s.drop_first()[i] == (key, it);
            assert(s[i + 1] == (key, it));
        }
    }
}

/// Every record in the store after a put is either the value written or a
/// record the store already held.
pub proof fn lemma_seq_put_items(s: Seq<(u64, ItemView)>, key: u64, v: ItemView)
    ensures
        forall|i: int|
            0 <= i < seq_put(s, key, v).len() ==> (#[trigger] seq_put(s, key, v)[i]) == (key, v)
                || s.contains(seq_put(s, key, v)[i]),
    decreases s.len(),
{
    let t = seq_put(s, key, v);
    if s.len() == 0 {
    } else if key < s[0].0 {
        assert(forall|i: int| 1 <= i < t.len() ==> t[i] == s[i - 1] && s.contains(s[i - 1]));
    } else if key == s[0].0 {
        assert(forall|i: int| 1 <= i < t.len() ==> t[i] == s[i] && s.contains(s[i]));
    } else {
        lemma_seq_put_items(s.drop_first(), key, v);
        let rest = seq_put(s.drop_first(), key, v);
        assert(forall|i: int| 1 <= i < t.len() ==> t[i] == rest[i - 1]);
        assert(s.contains(s[0]));
        assert(forall|i: int|
            0 <= i < s.drop_first().len() ==> #[trigger] s.drop_first()[i] == s[i + 1]
                && s.contains(s[i + 1]));
    }
}

/// A put on a key-ordered store leaves it key-ordered.
pub proof fn lemma_seq_put_sorted(s: Seq<(u64, ItemView)>, key: u64, v: ItemView)
    requires
        sorted(s),
    ensures
        sorted(seq_put(s, key, v)),
    decreases s.len(),
{
    let t = seq_put(s, key, v);
    if s.len() == 0 {
    } else if key < s[0].0 {
        assert(forall|i: int| 1 <= i < t.len() ==> t[i] == s[i - 1]);
    } else if key == s[0].0 {
        assert(forall|i: int| 1 <= i < t.len() ==> t[i] == s.drop_first()[i - 1]);
    } else {
        assert(sorted(s.drop_first())) by {
            assert(forall|i: int|
                0 <= i < s.drop_first().len() ==> #[trigger] s.drop_first()[i] == s[i + 1]);
        }
        lemma_seq_put_sorted(s.drop_first(), key, v);
        let rest = seq_put(s.drop_first(), key, v);
        lemma_seq_put_items(s.drop_first(), key, v);
        assert(forall|i: int| 1 <= i < t.len() ==> t[i] == rest[i - 1]);
        assert(forall|i: int| 0 <= i < rest.len() ==> s[0].0 < (#[trigger] rest[i]).0) by {
            assert(forall|i: int|
                0 <= i < s.drop_first().len() ==> #[trigger] s.drop_first()[i] == s[i + 1]);
        }
    }
}

impl ItemStore {
    /// Whether the store's entries are in strictly increasing key order.
    pub open spec fn wf(&self) -> bool {
        sorted(self@)
    }

    /// An empty store.
    pub fn new() -> (r: ItemStore)
        ensures
            r.wf(),
            r@ == Seq::<(u64, ItemView)>::empty(),
    {
        let r = ItemStore { entries: Vec::new() };
        proof {
            assert(r@ == Seq::<(u64, ItemView)>::empty());
        }
        r
    }

    /// The number of stored records.
    pub fn count(&self) -> (r: u64)
        ensures
            r == self@.len(),
    {
        self.entries.len() as u64
    }

    /// The number of stored records, as an index bound.
    pub fn len(&self) -> (r: usize)
        ensures
            r == self@.len(),
    {
        self.entries.len()
    }

    /// The record at position `i` of the key-ordered traversal.
    pub fn item_at(&self, i: usize) -> (r: &Item)
        requires
            i < self@.len(),
        ensures
            r@ == self@[i as int].1,
    {
        &self.entries[i].item
    }

    /// The key at position `i` of the key-ordered traversal.
    pub fn key_at(&self, i: usize) -> (r: u64)
        requires
            i < self@.len(),
        ensures
            r == self@[i as int].0,
    {
        self.entries[i].key
    }

    /// Returns a copy of the record filed under `key`, or `None` if the key
    /// holds no record. No side effects.
    pub fn get(&self, key: u64) -> (r: Option<Item>)
        ensures
            match r {
                Some(item) => seq_get(self@, key) == Some(item@),
                None => seq_get(self@, key) is None,
            },
    {
        let ghost s = self@;
        let mut i: usize = 0;
        while i < self.entries.len()
            invariant
                0 <= i <= self.entries.len(),
                s == self@,
                s.len() == self.entries.len(),
                forall|j: int| 0 <= j < i ==> (#[trigger] s[j]).0 != key,
            decreases self.entries.len() - i,
        {
            if self.entries[i].key == key {
                proof {
                    lemma_seq_get_at(s, key, i as int);
                }
                return Some(self.entries[i].item.duplicate());
            }
            i = i + 1;
        }
        proof {
            lemma_seq_get_absent(s, key);
        }
        None
    }

    /// Writes the full record for `key`, replacing any prior value there,
    /// and returns the previous value, if any. Fails, leaving the store
    /// unchanged, if the record's size exceeds [`MAX_RECORD_SIZE`].
    pub fn insert(&mut self, key: u64, item: Item) -> (r: Result<Option<Item>, StoreError>)
        requires
            old(self).wf(),
        ensures
            final(self).wf(),
            match r {
                Ok(prev) => {
                    &&& record_size(item@) <= MAX_RECORD_SIZE as int
                    &&& final(self)@ == seq_put(old(self)@, key, item@)
                    &&& match prev {
                        Some(p) => seq_get(old(self)@, key) == Some(p@),
                        None => seq_get(old(self)@, key) is None,
                    }
                },
                Err(e) => {
                    &&& e == StoreError::RecordTooLarge
                    &&& record_size(item@) > MAX_RECORD_SIZE as int
                    &&& final(self)@ == old(self)@
                },
            },
    {
        let ghost s = self@;
        let ghost v = item@;
        if !record_fits(&item) {
            return Err(StoreError::RecordTooLarge);
        }
        let mut pos: usize = 0;
        while pos < self.entries.len() && self.entries[pos].key < key
            invariant
                0 <= pos <= self.entries.len(),
                s == self@,
                s.len() == self.entries.len(),
                forall|j: int| 0 <= j < pos ==> (#[trigger] s[j]).0 < key,
            decreases self.entries.len() - pos,
        {
            pos = pos + 1;
        }
        proof {
            lemma_seq_put_at(s, key, v, pos as int);
            lemma_seq_put_sorted(s, key, v);
        }
        if pos < self.entries.len() && self.entries[pos].key == key {
            let prev = self.entries.remove(pos);
            self.entries.insert(pos, Entry { key, item });
            proof {
                assert(self@ =~= s.update(pos as int, (key, v)));
                lemma_seq_get_at(s, key, pos as int);
            }
            Ok(Some(prev.item))
        } else {
            self.entries.insert(pos, Entry { key, item });
            proof {
                assert(self@ =~= s.insert(pos as int, (key, v)));
                assert(forall|j: int| 0 <= j < s.len() ==> (#[trigger] s[j]).0 != key) by {
                    assert(forall|j: int|
                        pos <= j < s.len() ==> (#[trigger] s[j]).0 >= s[pos as int].0);
                }
                lemma_seq_get_absent(s, key);
            }
            Ok(None)
        }
    }
}

/// Where the first `pos` keys lie below `key`, a put replaces in place if
/// entry `pos` carries `key`, and otherwise inserts at position `pos`.
proof fn lemma_seq_put_at(s: Seq<(u64, ItemView)>, key: u64, v: ItemView, pos: int)
    requires
        sorted(s),
        0 <= pos <= s.len(),
        forall|j: int| 0 <= j < pos ==> (#[trigger] s[j]).0 < key,
        pos < s.len() ==> s[pos].0 >= key,
    ensures
        pos < s.len() && s[pos].0 == key ==> seq_put(s, key, v) =~= s.update(pos, (key, v)),
        !(pos < s.len() && s[pos].0 == key) ==> seq_put(s, key, v) =~= s.insert(pos, (key, v)),
    decreases pos,
{
    let t = seq_put(s, key, v);
    if pos == 0 {
        if s.len() == 0 {
            assert(t =~= s.insert(0, (key, v)));
        } else if s[0].0 == key {
            assert(t =~= s.update(0, (key, v)));
        } else {
            assert(t =~= s.insert(0, (key, v)));
        }
    } else {
        let sub = s.drop_first();
        assert(forall|i: int| 0 <= i < sub.len() ==> #[trigger] sub[i] == s[i + 1]);
        assert(s[0].0 < key);
        lemma_seq_put_at(sub, key, v, pos - 1);
        assert(t =~= seq![s[0]] + seq_put(sub, key, v));
        if pos < s.len() && s[pos].0 == key {
            assert(seq_put(sub, key, v) =~= sub.update(pos - 1, (key, v)));
            assert(t =~= s.update(pos, (key, v)));
        } else {
            assert(seq_put(sub, key, v) =~= sub.insert(pos - 1, (key, v)));
            assert(t =~= s.insert(pos, (key, v)));
        }
    }
}

/// If the first `i` entries miss `key` and entry `i` carries it, the lookup
/// yields entry `i`'s record.
proof fn lemma_seq_get_at(s: Seq<(u64, ItemView)>, key: u64, i: int)
    requires
        0 <= i < s.len(),
        forall|j: int| 0 <= j < i ==> (#[trigger] s[j]).0 != key,
        s[i].0 == key,
    ensures
        seq_get(s, key) == Some(s[i].1),
    decreases i,
{
    if i > 0 {
        assert(forall|j: int|
            0 <= j < s.drop_first().len() ==> #[trigger] s.drop_first()[j] == s[j + 1]);
        lemma_seq_get_at(s.drop_first(), key, i - 1);
    }
}

/// If no entry carries `key`, the lookup yields nothing.
proof fn lemma_seq_get_absent(s: Seq<(u64, ItemView)>, key: u64)
    requires
        forall|j: int| 0 <= j < s.len() ==> (#[trigger] s[j]).0 != key,
    ensures
        seq_get(s, key) is None,
    decreases s.len(),
{
    if s.len() > 0 {
        assert(forall|j: int|
            0 <= j < s.drop_first().len() ==> #[trigger] s.drop_first()[j] == s[j + 1]);
        lemma_seq_get_absent(s.drop_first(), key);
    }
}

} // verus!
