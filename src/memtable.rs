//! The in-memory sorted table of recent mutations.

use crate::keys::{compare_keys, key_lt, lemma_key_lt_total, lemma_key_lt_transitive};
use std::cmp::Ordering;
use vstd::prelude::*;
use vstd::slice::slice_to_vec;

verus! {

/// Errors that can occur during MemTable operations.
#[derive(Debug)]
pub enum MemTableError {
    TableFull,
    InvalidKey(String),
    InvalidValue(String),
}

/// Result type for MemTable operations.
pub type MemTableResult<T> = Result<T, MemTableError>;

/// A single mutation: a key with a value, or with no value for a deletion
/// (a tombstone).
#[derive(Debug)]
pub struct Entry {
    pub key: Vec<u8>,
    pub value: Option<Vec<u8>>,
    pub timestamp: u64,
    pub sequence_number: u64,
}

/// The mathematical content of an [`Entry`].
pub struct EntryView {
    pub key: Seq<u8>,
    pub value: Option<Seq<u8>>,
    pub timestamp: u64,
    pub sequence_number: u64,
}

/// The bytes of an optional value.
pub open spec fn bytes_view(v: Option<Vec<u8>>) -> Option<Seq<u8>> {
    match v {
        Some(b) => Some(b@),
        None => None,
    }
}

/// The length of an optional value; zero for a tombstone.
pub open spec fn value_len(v: Option<Seq<u8>>) -> nat {
    match v {
        Some(b) => b.len(),
        None => 0,
    }
}

/// Bytes an entry is charged in a MemTable: key, value, timestamp and sequence.
pub open spec fn entry_size(e: EntryView) -> int {
    (e.key.len() + value_len(e.value) + 16) as int
}

/// Sum of the sizes of a sequence of entries.
pub open spec fn total_size(s: Seq<EntryView>) -> int
    decreases s.len(),
{
    if s.len() == 0 {
        0
    } else {
        total_size(s.drop_last()) + entry_size(s.last())
    }
}

/// The views of a sequence of entries.
pub open spec fn entry_views(s: Seq<Entry>) -> Seq<EntryView> {
    s.map_values(|e: Entry| e@)
}

/// Keys strictly ascending, hence unique.
pub open spec fn strictly_sorted(s: Seq<EntryView>) -> bool {
    forall|i: int, j: int| 0 <= i < j < s.len() ==> key_lt(#[trigger] s[i].key, #[trigger] s[j].key)
}

/// `s` lists exactly the entries of `m`, each under its own key, in key order.
pub open spec fn represents(s: Seq<EntryView>, m: Map<Seq<u8>, EntryView>) -> bool {
    &&& strictly_sorted(s)
    &&& forall|i: int| 0 <= i < s.len() ==> #[trigger] m.contains_key(s[i].key) && m[s[i].key] == s[i]
    &&& forall|k: Seq<u8>| #[trigger] m.contains_key(k) ==> exists|i: int| 0 <= i < s.len() && s[i].key == k
}

/// What a layer holds for a key: `None` when the layer does not know the key,
/// `Some(None)` for a tombstone, `Some(Some(v))` for a value.
pub open spec fn probe(m: Map<Seq<u8>, EntryView>, k: Seq<u8>) -> Option<Option<Seq<u8>>> {
    if m.contains_key(k) {
        Some(m[k].value)
    } else {
        None
    }
}

impl View for Entry {
    type V = EntryView;

    open spec fn view(&self) -> EntryView {
        EntryView {
            key: self.key@,
            value: bytes_view(self.value),
            timestamp: self.timestamp,
            sequence_number: self.sequence_number,
        }
    }
}

/// The outcome of a point lookup in one layer.
#[derive(Debug)]
pub enum Lookup {
    Value(Vec<u8>),
    Tombstone,
    Absent,
}

impl View for Lookup {
    type V = Option<Option<Seq<u8>>>;

    open spec fn view(&self) -> Option<Option<Seq<u8>>> {
        match self {
            Lookup::Value(v) => Some(Some(v@)),
            Lookup::Tombstone => Some(None),
            Lookup::Absent => None,
        }
    }
}

/// Copies a byte vector.
pub fn copy_bytes(v: &Vec<u8>) -> (r: Vec<u8>)
    ensures
        r@ == v@,
{
    slice_to_vec(v.as_slice())
}

/// Copies an optional byte vector.
pub fn copy_value(v: &Option<Vec<u8>>) -> (r: Option<Vec<u8>>)
    ensures
        bytes_view(r) == bytes_view(*v),
{
    match v {
        Some(b) => Some(copy_bytes(b)),
        None => None,
    }
}

impl Entry {
    /// Create a new entry.
    pub fn new(key: Vec<u8>, value: Option<Vec<u8>>, timestamp: u64, sequence_number: u64) -> (r:
        Self)
        ensures
            r.key == key,
            r.value == value,
            r.timestamp == timestamp,
            r.sequence_number == sequence_number,
    {
        Entry { key, value, timestamp, sequence_number }
    }

    /// Check if this entry is a deletion (tombstone).
    pub fn is_deletion(&self) -> (r: bool)
        ensures
            r == (self.value is None),
    {
        self.value.is_none()
    }

    /// Size of this entry in bytes: key, value, timestamp and sequence number.
    pub fn size_bytes(&self) -> (r: usize)
        requires
            entry_size(self@) <= usize::MAX,
        ensures
            r == entry_size(self@),
    {
        let value_len: usize = match &self.value {
            Some(v) => v.len(),
            None => 0,
        };
        self.key.len() + value_len + 16
    }

    /// A copy of this entry.
    pub fn duplicate(&self) -> (r: Entry)
        ensures
            r@ == self@,
    {
        Entry {
            key: copy_bytes(&self.key),
            value: copy_value(&self.value),
            timestamp: self.timestamp,
            sequence_number: self.sequence_number,
        }
    }
}

/// Size of an entry computed without overflow.
fn wide_entry_size(e: &Entry) -> (r: u128)
    ensures
        r == entry_size(e@),
        r < 0x10_0000_0000_0000_0000,
{
    let value_len: u128 = match &e.value {
        Some(v) => v.len() as u128,
        None => 0,
    };
    e.key.len() as u128 + value_len + 16
}

/// Relies on std::time::SystemTime::elapsed: the wall-clock time since the
/// Unix epoch, in milliseconds (0 if the clock reads earlier). Nothing is
/// promised of the value.
#[verifier::external_body]
fn now_millis() -> (r: u64) {
    match std::time::UNIX_EPOCH.elapsed() {
        Ok(d) => d.as_millis() as u64,
        Err(_) => 0,
    }
}

/// Inserting an entry adds its size.
pub proof fn lemma_total_size_insert(s: Seq<EntryView>, i: int, e: EntryView)
    requires
        0 <= i <= s.len(),
    ensures
        total_size(s.insert(i, e)) == total_size(s) + entry_size(e),
    decreases s.len(),
{
    if i < s.len() {
        assert(s.insert(i, e).drop_last() =~= s.drop_last().insert(i, e));
        lemma_total_size_insert(s.drop_last(), i, e);
    } else {
        assert(s.insert(i, e).drop_last() =~= s);
    }
}

/// Replacing an entry swaps its size for the new one's.
pub proof fn lemma_total_size_update(s: Seq<EntryView>, i: int, e: EntryView)
    requires
        0 <= i < s.len(),
    ensures
        total_size(s.update(i, e)) == total_size(s) - entry_size(s[i]) + entry_size(e),
    decreases s.len(),
{
    if i < s.len() - 1 {
        assert(s.update(i, e).drop_last() =~= s.drop_last().update(i, e));
        lemma_total_size_update(s.drop_last(), i, e);
    } else {
        assert(s.update(i, e).drop_last() =~= s.drop_last());
    }
}

/// Each entry's size is part of the total.
pub proof fn lemma_total_size_bounds(s: Seq<EntryView>, i: int)
    requires
        0 <= i < s.len(),
    ensures
        0 <= entry_size(s[i]) <= total_size(s),
    decreases s.len(),
{
    lemma_total_size_nonneg(s.drop_last());
    if i < s.len() - 1 {
        lemma_total_size_bounds(s.drop_last(), i);
    }
}

/// Sizes are never negative.
pub proof fn lemma_total_size_nonneg(s: Seq<EntryView>)
    ensures
        0 <= total_size(s),
    decreases s.len(),
{
    if s.len() > 0 {
        lemma_total_size_nonneg(s.drop_last());
    }
}

/// Ordered in-memory store of recent mutations, kept as a vector sorted by key.
pub struct MemTable {
    data: Vec<Entry>,
    size_bytes: usize,
    max_size_bytes: usize,
    sequence_number: u64,
    contents: Ghost<Map<Seq<u8>, EntryView>>,
}

impl View for MemTable {
    type V = Map<Seq<u8>, EntryView>;

    /// The entry held for each key.
    closed spec fn view(&self) -> Map<Seq<u8>, EntryView> {
        self.contents@
    }
}

impl MemTable {
    /// The entries in key order.
    pub closed spec fn entry_seq(&self) -> Seq<EntryView> {
        self.data@.map_values(|e: Entry| e@)
    }

    /// Bytes currently charged.
    pub closed spec fn size(&self) -> nat {
        self.size_bytes as nat
    }

    /// The configured bound on `size`.
    pub closed spec fn max_size(&self) -> nat {
        self.max_size_bytes as nat
    }

    /// The local sequence counter.
    pub closed spec fn seq(&self) -> u64 {
        self.sequence_number
    }

    /// The vector lists the entries in key order, and the size is their sum
    /// and within the bound.
    pub closed spec fn wf(&self) -> bool {
        &&& represents(self.entry_seq(), self@)
        &&& self.size_bytes == total_size(self.entry_seq())
        &&& self.size_bytes <= self.max_size_bytes
    }

    /// Size after a mutation of `k` to `v` is accepted, replacing any entry
    /// under the same key.
    pub open spec fn size_after(&self, k: Seq<u8>, v: Option<Seq<u8>>) -> int {
        self.size() + k.len() + value_len(v) + 16 - if self@.contains_key(k) {
            entry_size(self@[k])
        } else {
            0
        }
    }

    /// Whether a mutation of `k` to `v` keeps the table within its bound.
    pub open spec fn accepts(&self, k: Seq<u8>, v: Option<Seq<u8>>) -> bool {
        self.size_after(k, v) <= self.max_size()
    }

    /// What a well-formed table guarantees to its users.
    pub proof fn lemma_wf(&self)
        requires
            self.wf(),
        ensures
            represents(self.entry_seq(), self@),
            self.size() == total_size(self.entry_seq()),
            self.size() <= self.max_size(),
            self@.dom().finite(),
            self@.dom().len() == self.entry_seq().len(),
    {
        self.lemma_dom_len();
    }

    proof fn lemma_dom_len(&self)
        requires
            self.wf(),
        ensures
            self@.dom().finite(),
            self@.dom().len() == self.entry_seq().len(),
    {
        let s = self.entry_seq();
        let keys = s.map_values(|e: EntryView| e.key);
        assert forall|i: int, j: int| 0 <= i < keys.len() && 0 <= j < keys.len() && i != j implies keys[i]
            != keys[j] by {
            if i < j {
                lemma_key_lt_total(s[i].key, s[j].key);
            } else {
                lemma_key_lt_total(s[j].key, s[i].key);
            }
        }
        assert(keys.no_duplicates());
        keys.unique_seq_to_set();
        assert(self@.dom() =~= keys.to_set()) by {
            assert forall|k: Seq<u8>| self@.dom().contains(k) implies keys.to_set().contains(k) by {
                let i = choose|i: int| 0 <= i < s.len() && s[i].key == k;
                assert(keys[i] == k);
            }
        }
    }

    /// Create a new MemTable with the specified maximum size.
    pub fn new(max_size_bytes: usize) -> (r: Self)
        ensures
            r.wf(),
            r@ == Map::<Seq<u8>, EntryView>::empty(),
            r.entry_seq().len() == 0,
            r.size() == 0,
            r.max_size() == max_size_bytes,
            r.seq() == 0,
    {
        let r = MemTable {
            data: Vec::new(),
            size_bytes: 0,
            max_size_bytes,
            sequence_number: 0,
            contents: Ghost(Map::empty()),
        };
        assert(r.entry_seq() =~= Seq::<EntryView>::empty());
        r
    }

    /// Create a new MemTable with the default size of 64 MiB.
    pub fn new_default() -> (r: Self)
        ensures
            r.wf(),
            r@ == Map::<Seq<u8>, EntryView>::empty(),
            r.entry_seq().len() == 0,
            r.size() == 0,
            r.max_size() == 64 * 1024 * 1024,
            r.seq() == 0,
    {
        Self::new(64 * 1024 * 1024)
    }

    /// Binary search for `key`: `Ok` with its position, or `Err` with the
    /// position where it would be inserted.
    fn search(&self, key: &[u8]) -> (r: Result<usize, usize>)
        requires
            self.wf(),
        ensures
            match r {
                Ok(i) => i < self.entry_seq().len() && self.entry_seq()[i as int].key == key@,
                Err(i) => {
                    &&& i <= self.entry_seq().len()
                    &&& forall|j: int| 0 <= j < i ==> key_lt(#[trigger] self.entry_seq()[j].key, key@)
                    &&& forall|j: int|
                        i <= j < self.entry_seq().len() ==> key_lt(key@, #[trigger] self.entry_seq()[j].key)
                },
            },
    {
        let ghost s = self.entry_seq();
        let mut lo: usize = 0;
        let mut hi: usize = self.data.len();
        while lo < hi
            invariant
                s == self.entry_seq(),
                self.wf(),
                lo <= hi <= s.len(),
                s.len() == self.data@.len(),
                forall|j: int| 0 <= j < lo ==> key_lt(#[trigger] s[j].key, key@),
                forall|j: int| hi <= j < s.len() ==> key_lt(key@, #[trigger] s[j].key),
            decreases hi - lo,
        {
            let mid = lo + (hi - lo) / 2;
            assert(s[mid as int] == self.data@[mid as int]@);
            match compare_keys(self.data[mid].key.as_slice(), key) {
                Ordering::Equal => {
                    return Ok(mid);
                },
                Ordering::Less => {
                    assert forall|j: int| 0 <= j < mid + 1 implies key_lt(#[trigger] s[j].key, key@) by {
                        if j < mid {
                            lemma_key_lt_transitive(s[j].key, s[mid as int].key, key@);
                        }
                    }
                    lo = mid + 1;
                },
                Ordering::Greater => {
                    assert forall|j: int| mid <= j < s.len() implies key_lt(key@, #[trigger] s[j].key) by {
                        if j > mid {
                            lemma_key_lt_transitive(key@, s[mid as int].key, s[j].key);
                        }
                    }
                    hi = mid;
                },
            }
        }
        Err(lo)
    }

    /// Find an entry by key using binary search.
    fn find_entry(&self, key: &[u8]) -> (r: Option<&Entry>)
        requires
            self.wf(),
        ensures
            match r {
                Some(e) => self@.contains_key(key@) && e@ == self@[key@],
                None => !self@.contains_key(key@),
            },
    {
        match self.search(key) {
            Ok(i) => {
                assert(self.entry_seq()[i as int] == self.data@[i as int]@);
                assert(self@.contains_key(self.entry_seq()[i as int].key));
                Some(&self.data[i])
            },
            Err(i) => {
                proof {
                    if self@.contains_key(key@) {
                        let s = self.entry_seq();
                        let j = choose|j: int| 0 <= j < s.len() && s[j].key == key@;
                        crate::keys::lemma_key_lt_irreflexive(key@);
                    }
                }
                None
            },
        }
    }

    /// Insert or replace `entry` under its key; returns the replaced entry.
    fn insert_or_update(&mut self, entry: Entry) -> (r: Option<Entry>)
        requires
            old(self).wf(),
            old(self).accepts(entry@.key, entry@.value),
        ensures
            final(self).wf(),
            final(self)@ == old(self)@.insert(entry@.key, entry@),
            final(self).max_size() == old(self).max_size(),
            final(self).seq() == old(self).seq(),
            final(self).size() == old(self).size_after(entry@.key, entry@.value),
            match r {
                Some(e) => old(self)@.contains_key(entry@.key) && e@ == old(self)@[entry@.key],
                None => !old(self)@.contains_key(entry@.key),
            },
    {
        let ghost s = self.entry_seq();
        let ghost e = entry@;
        let ghost m = self@;
        let new_size = wide_entry_size(&entry);
        match self.search(entry.key.as_slice()) {
            Ok(i) => {
                assert(s[i as int] == self.data@[i as int]@);
                proof {
                    lemma_total_size_bounds(s, i as int);
                    lemma_total_size_update(s, i as int, e);
                    assert(m.contains_key(e.key));
                    assert(m[e.key] == s[i as int]);
                }
                let old_size = wide_entry_size(&self.data[i]);
                let total = self.size_bytes as u128 - old_size + new_size;
                let mut old_entry = entry;
                std::mem::swap(&mut self.data[i], &mut old_entry);
                self.size_bytes = total as usize;
                self.contents = Ghost(m.insert(e.key, e));
                proof {
                    let s2 = self.entry_seq();
                    assert(s2 =~= s.update(i as int, e));
                    assert forall|j: int, k: int| 0 <= j < k < s2.len() implies key_lt(
                        #[trigger] s2[j].key,
                        #[trigger] s2[k].key,
                    ) by {
                        assert(s[j].key == s2[j].key);
                        assert(s[k].key == s2[k].key);
                    }
                    assert forall|j: int| 0 <= j < s2.len() implies #[trigger] self@.contains_key(
                        s2[j].key,
                    ) && self@[s2[j].key] == s2[j] by {
                        if j != i {
                            assert(s2[j] == s[j]);
                            assert(m.contains_key(s[j].key));
                            if j < i {
                                lemma_key_lt_total(s[j].key, s[i as int].key);
                            } else {
                                lemma_key_lt_total(s[i as int].key, s[j].key);
                            }
                        }
                    }
                    assert forall|k: Seq<u8>| #[trigger] self@.contains_key(k) implies exists|j: int|
                        0 <= j < s2.len() && s2[j].key == k by {
                        if k != e.key {
                            let j = choose|j: int| 0 <= j < s.len() && s[j].key == k;
                            assert(s2[j].key == k);
                        } else {
                            assert(s2[i as int].key == k);
                        }
                    }
                }
                Some(old_entry)
            },
            Err(i) => {
                proof {
                    lemma_total_size_insert(s, i as int, e);
                    if m.contains_key(e.key) {
                        let j = choose|j: int| 0 <= j < s.len() && s[j].key == e.key;
                        crate::keys::lemma_key_lt_irreflexive(e.key);
                    }
                }
                let total = self.size_bytes as u128 + new_size;
                self.data.insert(i, entry);
                self.size_bytes = total as usize;
                self.contents = Ghost(m.insert(e.key, e));
                proof {
                    let s2 = self.entry_seq();
                    assert(s2 =~= s.insert(i as int, e));
                    assert forall|j: int, k: int| 0 <= j < k < s2.len() implies key_lt(
                        #[trigger] s2[j].key,
                        #[trigger] s2[k].key,
                    ) by {
                        if j < i && k == i {
                        } else if j == i && k > i {
                            assert(s2[k] == s[k - 1]);
                        } else if j < i && k > i {
                            assert(s2[k] == s[k - 1]);
                        } else if j > i {
                            assert(s2[k] == s[k - 1]);
                            assert(s2[j] == s[j - 1]);
                        }
                    }
                    assert forall|j: int| 0 <= j < s2.len() implies #[trigger] self@.contains_key(
                        s2[j].key,
                    ) && self@[s2[j].key] == s2[j] by {
                        if j < i {
                            assert(s2[j] == s[j]);
                            assert(m.contains_key(s[j].key));
                            lemma_key_lt_total(s[j].key, e.key);
                        } else if j > i {
                            assert(s2[j] == s[j - 1]);
                            assert(m.contains_key(s[j - 1].key));
                            lemma_key_lt_total(e.key, s[j - 1].key);
                        }
                    }
                    assert forall|k: Seq<u8>| #[trigger] self@.contains_key(k) implies exists|j: int|
                        0 <= j < s2.len() && s2[j].key == k by {
                        if k != e.key {
                            let j = choose|j: int| 0 <= j < s.len() && s[j].key == k;
                            if j < i {
                                assert(s2[j].key == k);
                            } else {
                                assert(s2[j + 1].key == k);
                            }
                        } else {
                            assert(s2[i as int].key == k);
                        }
                    }
                }
                None
            },
        }
    }
    /// Insert `entry` as given, keeping its timestamp and sequence number;
    /// the local counter moves up to the entry's sequence number if it is
    /// behind it. Fails with `InvalidKey` on an empty key and with `TableFull`
    /// if the table would exceed its bound; a failed call changes nothing.
    pub fn insert_entry(&mut self, entry: Entry) -> (r: MemTableResult<()>)
        requires
            old(self).wf(),
        ensures
            final(self).wf(),
            final(self).max_size() == old(self).max_size(),
            entry@.key.len() == 0 ==> r matches Err(MemTableError::InvalidKey(_)),
            entry@.key.len() > 0 && !old(self).accepts(entry@.key, entry@.value) ==> r matches Err(
                MemTableError::TableFull,
            ),
            entry@.key.len() > 0 && old(self).accepts(entry@.key, entry@.value) ==> r is Ok,
            r is Ok ==> {
                &&& final(self)@ == old(self)@.insert(entry@.key, entry@)
                &&& final(self).size() == old(self).size_after(entry@.key, entry@.value)
                &&& final(self).seq() == if entry.sequence_number > old(self).seq() {
                    entry.sequence_number
                } else {
                    old(self).seq()
                }
            },
            r is Err ==> {
                &&& final(self)@ == old(self)@
                &&& final(self).size() == old(self).size()
                &&& final(self).seq() == old(self).seq()
                &&& final(self).entry_seq() == old(self).entry_seq()
            },
    {
        if entry.key.len() == 0 {
            return Err(MemTableError::InvalidKey("Key cannot be empty".to_string()));
        }
        let added = wide_entry_size(&entry);
        let replaced: u128 = match self.find_entry(entry.key.as_slice()) {
            Some(e) => {
                proof {
                    let s = self.entry_seq();
                    let j = choose|j: int| 0 <= j < s.len() && s[j].key == entry@.key;
                    lemma_total_size_bounds(s, j);
                }
                wide_entry_size(e)
            },
            None => 0,
        };
        if self.size_bytes as u128 + added - replaced > self.max_size_bytes as u128 {
            return Err(MemTableError::TableFull);
        }
        let seq = entry.sequence_number;
        self.insert_or_update(entry);
        if seq > self.sequence_number {
            self.sequence_number = seq;
        }
        Ok(())
    }

    /// Put a key-value pair, stamped with the current time and the next
    /// sequence number. An empty key fails with `InvalidKey` and changes
    /// nothing. Otherwise the sequence counter advances, and the pair is
    /// stored unless the table would exceed its bound (`TableFull`).
    pub fn put(&mut self, key: &[u8], value: &[u8]) -> (r: MemTableResult<()>)
        requires
            old(self).wf(),
            old(self).seq() < u64::MAX,
        ensures
            final(self).wf(),
            final(self).max_size() == old(self).max_size(),
            key@.len() == 0 ==> (r matches Err(MemTableError::InvalidKey(_))),
            key@.len() == 0 ==> final(self).seq() == old(self).seq(),
            key@.len() > 0 ==> final(self).seq() == old(self).seq() + 1,
            key@.len() > 0 && !old(self).accepts(key@, Some(value@)) ==> r matches Err(
                MemTableError::TableFull,
            ),
            key@.len() > 0 && old(self).accepts(key@, Some(value@)) ==> r is Ok,
            r is Ok ==> {
                &&& final(self)@ == old(self)@.insert(key@, final(self)@[key@])
                &&& final(self)@[key@].key == key@
                &&& final(self)@[key@].value == Some(value@)
                &&& final(self)@[key@].sequence_number == old(self).seq() + 1
                &&& final(self).size() == old(self).size_after(key@, Some(value@))
            },
            r is Err ==> final(self)@ == old(self)@ && final(self).size() == old(self).size()
                && final(self).entry_seq() == old(self).entry_seq(),
    {
        if key.len() == 0 {
            return Err(MemTableError::InvalidKey("Key cannot be empty".to_string()));
        }
        let timestamp = now_millis();
        self.sequence_number = self.sequence_number + 1;
        let entry = Entry::new(slice_to_vec(key), Some(slice_to_vec(value)), timestamp, self.sequence_number);
        self.insert_entry(entry)
    }

    /// Delete a key by storing a tombstone, stamped like [`MemTable::put`];
    /// fails in the same cases.
    pub fn delete(&mut self, key: &[u8]) -> (r: MemTableResult<()>)
        requires
            old(self).wf(),
            old(self).seq() < u64::MAX,
        ensures
            final(self).wf(),
            final(self).max_size() == old(self).max_size(),
            key@.len() == 0 ==> (r matches Err(MemTableError::InvalidKey(_))),
            key@.len() == 0 ==> final(self).seq() == old(self).seq(),
            key@.len() > 0 ==> final(self).seq() == old(self).seq() + 1,
            key@.len() > 0 && !old(self).accepts(key@, None) ==> r matches Err(MemTableError::TableFull),
            key@.len() > 0 && old(self).accepts(key@, None) ==> r is Ok,
            r is Ok ==> {
                &&& final(self)@ == old(self)@.insert(key@, final(self)@[key@])
                &&& final(self)@[key@].key == key@
                &&& final(self)@[key@].value == None::<Seq<u8>>
                &&& final(self)@[key@].sequence_number == old(self).seq() + 1
                &&& final(self).size() == old(self).size_after(key@, None)
            },
            r is Err ==> final(self)@ == old(self)@ && final(self).size() == old(self).size()
                && final(self).entry_seq() == old(self).entry_seq(),
    {
        if key.len() == 0 {
            return Err(MemTableError::InvalidKey("Key cannot be empty".to_string()));
        }
        let timestamp = now_millis();
        self.sequence_number = self.sequence_number + 1;
        let entry = Entry::new(slice_to_vec(key), None, timestamp, self.sequence_number);
        self.insert_entry(entry)
    }

    /// What the table holds for a key: its value, a tombstone, or nothing
    /// (then older layers must be searched).
    pub fn get(&self, key: &[u8]) -> (r: MemTableResult<Lookup>)
        requires
            self.wf(),
        ensures
            key@.len() == 0 ==> r matches Err(MemTableError::InvalidKey(_)),
            key@.len() > 0 ==> (r matches Ok(l) && l@ == probe(self@, key@)),
    {
        if key.len() == 0 {
            return Err(MemTableError::InvalidKey("Key cannot be empty".to_string()));
        }
        match self.find_entry(key) {
            Some(e) => match &e.value {
                Some(v) => Ok(Lookup::Value(copy_bytes(v))),
                None => Ok(Lookup::Tombstone),
            },
            None => Ok(Lookup::Absent),
        }
    }

    /// Get the current size of the MemTable in bytes.
    pub fn size_bytes(&self) -> (r: usize)
        ensures
            r == self.size(),
    {
        self.size_bytes
    }

    /// The configured bound on the size in bytes.
    pub fn max_size_bytes(&self) -> (r: usize)
        ensures
            r == self.max_size(),
    {
        self.max_size_bytes
    }

    /// Check if the MemTable is empty.
    pub fn is_empty(&self) -> (r: bool)
        ensures
            r == (self.entry_seq().len() == 0),
    {
        self.data.len() == 0
    }

    /// Get the number of entries in the MemTable.
    pub fn len(&self) -> (r: usize)
        ensures
            r == self.entry_seq().len(),
    {
        self.data.len()
    }

    /// Get the current sequence number.
    pub fn sequence_number(&self) -> (r: u64)
        ensures
            r == self.seq(),
    {
        self.sequence_number
    }

    /// Check if the MemTable has reached its bound.
    pub fn is_full(&self) -> (r: bool)
        ensures
            r == (self.size() >= self.max_size()),
    {
        self.size_bytes >= self.max_size_bytes
    }

    /// All entries in ascending key order (for flushing to an SSTable).
    pub fn entries(&self) -> (r: Vec<Entry>)
        ensures
            r@.len() == self.entry_seq().len(),
            forall|i: int| 0 <= i < r@.len() ==> #[trigger] r@[i]@ == self.entry_seq()[i],
    {
        let mut out: Vec<Entry> = Vec::new();
        let mut i: usize = 0;
        while i < self.data.len()
            invariant
                i <= self.data@.len(),
                out@.len() == i,
                forall|j: int| 0 <= j < i ==> #[trigger] out@[j]@ == self.entry_seq()[j],
            decreases self.data@.len() - i,
        {
            out.push(self.data[i].duplicate());
            i = i + 1;
        }
        out
    }

    /// Clear the MemTable and reset the sequence number.
    pub fn clear(&mut self)
        requires
            old(self).wf(),
        ensures
            final(self).wf(),
            final(self)@ == Map::<Seq<u8>, EntryView>::empty(),
            final(self).entry_seq().len() == 0,
            final(self).size() == 0,
            final(self).seq() == 0,
            final(self).max_size() == old(self).max_size(),
    {
        self.data.clear();
        self.size_bytes = 0;
        self.sequence_number = 0;
        self.contents = Ghost(Map::empty());
        assert(self.entry_seq() =~= Seq::<EntryView>::empty());
    }
}

} // verus!
