//! Compaction: merging the entries of several tables into one, keeping the
//! newest entry of each key and dropping tombstones.

use crate::keys::{compare_keys, key_lt, lemma_key_lt_irreflexive, lemma_key_lt_total, lemma_key_lt_transitive};
use crate::memtable::{bytes_view, copy_bytes, copy_value, entry_views, strictly_sorted, Entry, EntryView};
use crate::sstable::{
    index_section, table_fits, write_index, CompressionType, SSTableError, SSTableIndex, TableImage,
};
use std::cmp::Ordering;
use vstd::prelude::*;

verus! {

/// Errors that can occur during compaction.
#[derive(Debug)]
pub enum CompactionError {
    Io(std::io::Error),
    SSTable(SSTableError),
    InvalidInput(String),
    CompactionFailed(String),
}

/// Result type for compaction operations.
pub type CompactionResult<T> = Result<T, CompactionError>;

/// An entry taken from one of the input tables, tagged with that table's
/// position in the input.
#[derive(Debug)]
pub struct CompactionEntry {
    pub key: Vec<u8>,
    pub value: Option<Vec<u8>>,
    pub timestamp: u64,
    pub sequence_number: u64,
    pub source_sstable: usize,
}

/// The mathematical content of a [`CompactionEntry`].
pub struct TaggedEntry {
    pub entry: EntryView,
    pub source: usize,
}

impl View for CompactionEntry {
    type V = TaggedEntry;

    open spec fn view(&self) -> TaggedEntry {
        TaggedEntry {
            entry: EntryView {
                key: self.key@,
                value: bytes_view(self.value),
                timestamp: self.timestamp,
                sequence_number: self.sequence_number,
            },
            source: self.source_sstable,
        }
    }
}

impl CompactionEntry {
    /// Create a new compaction entry.
    pub fn new(
        key: Vec<u8>,
        value: Option<Vec<u8>>,
        timestamp: u64,
        sequence_number: u64,
        source_sstable: usize,
    ) -> (r: Self)
        ensures
            r.key == key,
            r.value == value,
            r.timestamp == timestamp,
            r.sequence_number == sequence_number,
            r.source_sstable == source_sstable,
    {
        CompactionEntry { key, value, timestamp, sequence_number, source_sstable }
    }

    /// Check if this entry is a deletion (tombstone).
    pub fn is_deletion(&self) -> (r: bool)
        ensures
            r == (self.value is None),
    {
        self.value.is_none()
    }

    fn duplicate(&self) -> (r: Self)
        ensures
            r@ == self@,
    {
        CompactionEntry {
            key: copy_bytes(&self.key),
            value: copy_value(&self.value),
            timestamp: self.timestamp,
            sequence_number: self.sequence_number,
            source_sstable: self.source_sstable,
        }
    }
}

/// The views of a sequence of compaction entries.
pub open spec fn tagged_views(s: Seq<CompactionEntry>) -> Seq<TaggedEntry> {
    s.map_values(|e: CompactionEntry| e@)
}

/// `a` supersedes `b`: a higher sequence number, or the same one from a
/// later input table.
pub open spec fn newer(a: TaggedEntry, b: TaggedEntry) -> bool {
    a.entry.sequence_number > b.entry.sequence_number || (a.entry.sequence_number
        == b.entry.sequence_number && a.source > b.source)
}

/// The newest entry of each key among `s`; of entries that tie, the first.
pub open spec fn newest(s: Seq<TaggedEntry>) -> Map<Seq<u8>, TaggedEntry>
    decreases s.len(),
{
    if s.len() == 0 {
        Map::empty()
    } else {
        let m = newest(s.drop_last());
        let e = s.last();
        if m.contains_key(e.entry.key) && !newer(e, m[e.entry.key]) {
            m
        } else {
            m.insert(e.entry.key, e)
        }
    }
}

/// Keys strictly ascending.
pub open spec fn tagged_sorted(s: Seq<TaggedEntry>) -> bool {
    forall|i: int, j: int| 0 <= i < j < s.len() ==> key_lt(#[trigger] s[i].entry.key, #[trigger] s[j].entry.key)
}

/// `out` lists, in key order, the newest entry of every key of `s` whose
/// newest entry is not a tombstone, and nothing else.
pub open spec fn survivors(s: Seq<TaggedEntry>, out: Seq<TaggedEntry>) -> bool {
    let m = newest(s);
    &&& tagged_sorted(out)
    &&& forall|i: int| 0 <= i < out.len() ==> #[trigger] m.contains_key(out[i].entry.key)
        && m[out[i].entry.key] == out[i] && out[i].entry.value is Some
    &&& forall|k: Seq<u8>| #[trigger] m.contains_key(k) && m[k].entry.value is Some ==> exists|i: int|
        0 <= i < out.len() && out[i].entry.key == k
}

/// The entries of `t`, tagged with source `src`.
pub open spec fn tag_table(t: Seq<EntryView>, src: usize) -> Seq<TaggedEntry> {
    t.map_values(|e: EntryView| TaggedEntry { entry: e, source: src })
}

/// The entries of all tables in input order, each tagged with its table's
/// position.
pub open spec fn tag_all(ts: Seq<Seq<EntryView>>) -> Seq<TaggedEntry>
    decreases ts.len(),
{
    if ts.len() == 0 {
        Seq::empty()
    } else {
        tag_all(ts.drop_last()) + tag_table(ts.last(), (ts.len() - 1) as usize)
    }
}

/// `out` is the result of compacting the tables `ts`: in key order, the
/// newest entry of each key whose newest entry is not a tombstone.
pub open spec fn compacts_to(ts: Seq<Seq<EntryView>>, out: Seq<EntryView>) -> bool {
    let m = newest(tag_all(ts));
    &&& strictly_sorted(out)
    &&& forall|i: int| 0 <= i < out.len() ==> #[trigger] m.contains_key(out[i].key) && m[out[i].key].entry
        == out[i] && out[i].value is Some
    &&& forall|k: Seq<u8>| #[trigger] m.contains_key(k) && m[k].entry.value is Some ==> exists|i: int|
        0 <= i < out.len() && out[i].key == k
}

/// Binary search over entries sorted by key.
fn search_tagged(s: &Vec<CompactionEntry>, key: &[u8]) -> (r: Result<usize, usize>)
    requires
        tagged_sorted(tagged_views(s@)),
    ensures
        match r {
            Ok(i) => i < s@.len() && s@[i as int].key@ == key@,
            Err(i) => {
                &&& i <= s@.len()
                &&& forall|j: int| 0 <= j < i ==> key_lt(#[trigger] s@[j].key@, key@)
                &&& forall|j: int| i <= j < s@.len() ==> key_lt(key@, #[trigger] s@[j].key@)
            },
        },
{
    let ghost v = tagged_views(s@);
    let mut lo: usize = 0;
    let mut hi: usize = s.len();
    while lo < hi
        invariant
            v == tagged_views(s@),
            tagged_sorted(v),
            lo <= hi <= s@.len(),
            forall|j: int| 0 <= j < lo ==> key_lt(#[trigger] s@[j].key@, key@),
            forall|j: int| hi <= j < s@.len() ==> key_lt(key@, #[trigger] s@[j].key@),
        decreases hi - lo,
    {
        let mid = lo + (hi - lo) / 2;
        match compare_keys(s[mid].key.as_slice(), key) {
            Ordering::Equal => {
                return Ok(mid);
            },
            Ordering::Less => {
                assert forall|j: int| 0 <= j < mid + 1 implies key_lt(#[trigger] s@[j].key@, key@) by {
                    if j < mid {
                        assert(v[j].entry.key == s@[j].key@);
                        assert(v[mid as int].entry.key == s@[mid as int].key@);
                        lemma_key_lt_transitive(s@[j].key@, s@[mid as int].key@, key@);
                    }
                }
                lo = mid + 1;
            },
            Ordering::Greater => {
                assert forall|j: int| mid <= j < s@.len() implies key_lt(key@, #[trigger] s@[j].key@) by {
                    if j > mid {
                        assert(v[j].entry.key == s@[j].key@);
                        assert(v[mid as int].entry.key == s@[mid as int].key@);
                        lemma_key_lt_transitive(key@, s@[mid as int].key@, s@[j].key@);
                    }
                }
                hi = mid;
            },
        }
    }
    Err(lo)
}

/// `acc` lists exactly the entries of `m`, each under its own key, in key
/// order.
spec fn lists(acc: Seq<TaggedEntry>, m: Map<Seq<u8>, TaggedEntry>) -> bool {
    &&& tagged_sorted(acc)
    &&& forall|i: int| 0 <= i < acc.len() ==> #[trigger] m.contains_key(acc[i].entry.key) && m[acc[i].entry.key]
        == acc[i]
    &&& forall|k: Seq<u8>| #[trigger] m.contains_key(k) ==> exists|i: int| 0 <= i < acc.len() && acc[i].entry.key == k
}

/// Keep in `acc` the newest entry of each key, given one more entry.
#[verifier::spinoff_prover]
fn absorb(acc: &mut Vec<CompactionEntry>, e: CompactionEntry, m: Ghost<Map<Seq<u8>, TaggedEntry>>)
    requires
        lists(tagged_views(old(acc)@), m@),
    ensures
        lists(
            tagged_views(final(acc)@),
            if m@.contains_key(e@.entry.key) && !newer(e@, m@[e@.entry.key]) {
                m@
            } else {
                m@.insert(e@.entry.key, e@)
            },
        ),
{
    let ghost s = tagged_views(acc@);
    let ghost ev = e@;
    let ghost m = m@;
    match search_tagged(acc, e.key.as_slice()) {
        Ok(i) => {
            proof {
                assert(s[i as int].entry.key == ev.entry.key);
                assert(m.contains_key(s[i as int].entry.key));
            }
            let cur = &acc[i];
            let is_newer = e.sequence_number > cur.sequence_number || (e.sequence_number
                == cur.sequence_number && e.source_sstable > cur.source_sstable);
            proof {
                assert(m[ev.entry.key] == s[i as int]);
                assert(s[i as int] == acc@[i as int]@);
                assert(is_newer == newer(ev, m[ev.entry.key]));
            }
            if is_newer {
                acc.set(i, e);
                proof {
                    let s2 = tagged_views(acc@);
                    let m2 = m.insert(ev.entry.key, ev);
                    assert(s2 =~= s.update(i as int, ev));
                    assert forall|j: int, k: int| 0 <= j < k < s2.len() implies key_lt(
                        #[trigger] s2[j].entry.key,
                        #[trigger] s2[k].entry.key,
                    ) by {
                        assert(s[j].entry.key == s2[j].entry.key);
                        assert(s[k].entry.key == s2[k].entry.key);
                    }
                    assert forall|j: int| 0 <= j < s2.len() implies #[trigger] m2.contains_key(
                        s2[j].entry.key,
                    ) && m2[s2[j].entry.key] == s2[j] by {
                        if j != i {
                            assert(m.contains_key(s[j].entry.key));
                            if j < i {
                                lemma_key_lt_total(s[j].entry.key, s[i as int].entry.key);
                            } else {
                                lemma_key_lt_total(s[i as int].entry.key, s[j].entry.key);
                            }
                        }
                    }
                    assert forall|k: Seq<u8>| #[trigger] m2.contains_key(k) implies exists|j: int|
                        0 <= j < s2.len() && s2[j].entry.key == k by {
                        if k != ev.entry.key {
                            let j = choose|j: int| 0 <= j < s.len() && s[j].entry.key == k;
                            assert(s2[j].entry.key == k);
                        } else {
                            assert(s2[i as int].entry.key == k);
                        }
                    }
                }
            }
        },
        Err(i) => {
            proof {
                if m.contains_key(ev.entry.key) {
                    let j = choose|j: int| 0 <= j < s.len() && s[j].entry.key == ev.entry.key;
                    lemma_key_lt_irreflexive(ev.entry.key);
                }
            }
            acc.insert(i, e);
            proof {
                let s2 = tagged_views(acc@);
                let m2 = m.insert(ev.entry.key, ev);
                assert(s2 =~= s.insert(i as int, ev));
                assert forall|j: int, k: int| 0 <= j < k < s2.len() implies key_lt(
                    #[trigger] s2[j].entry.key,
                    #[trigger] s2[k].entry.key,
                ) by {
                    if j < i && k == i {
                        assert(s[j].entry.key == s2[j].entry.key);
                    } else if j == i && k > i {
                        assert(s2[k] == s[k - 1]);
                    } else if j < i && k > i {
                        assert(s2[k] == s[k - 1]);
                        assert(s2[j] == s[j]);
                    } else if j > i {
                        assert(s2[k] == s[k - 1]);
                        assert(s2[j] == s[j - 1]);
                    } else {
                        assert(s2[k] == s[k]);
                        assert(s2[j] == s[j]);
                    }
                }
                assert forall|j: int| 0 <= j < s2.len() implies #[trigger] m2.contains_key(
                    s2[j].entry.key,
                ) && m2[s2[j].entry.key] == s2[j] by {
                    if j < i {
                        assert(s2[j] == s[j]);
                        assert(m.contains_key(s[j].entry.key));
                        lemma_key_lt_total(s[j].entry.key, ev.entry.key);
                    } else if j > i {
                        assert(s2[j] == s[j - 1]);
                        assert(m.contains_key(s[j - 1].entry.key));
                        lemma_key_lt_total(ev.entry.key, s[j - 1].entry.key);
                    }
                }
                assert forall|k: Seq<u8>| #[trigger] m2.contains_key(k) implies exists|j: int|
                    0 <= j < s2.len() && s2[j].entry.key == k by {
                    if k != ev.entry.key {
                        let j = choose|j: int| 0 <= j < s.len() && s[j].entry.key == k;
                        if j < i {
                            assert(s2[j].entry.key == k);
                        } else {
                            assert(s2[j + 1].entry.key == k);
                        }
                    } else {
                        assert(s2[i as int].entry.key == k);
                    }
                }
            }
        },
    }
}

/// Merges input tables into one.
pub struct CompactionEngine {
    output_path: String,
    compression: CompressionType,
}

impl CompactionEngine {
    /// Create a compaction engine writing to `output_path`.
    pub fn new(output_path: &str, compression: CompressionType) -> (r: Self)
        ensures
            r.output_path_spec() == output_path@,
            r.compression_spec() == compression,
    {
        CompactionEngine { output_path: output_path.to_owned(), compression }
    }

    /// Where the compacted table goes.
    pub closed spec fn output_path_spec(&self) -> Seq<char> {
        self.output_path@
    }

    /// The compression recorded in the output.
    pub closed spec fn compression_spec(&self) -> CompressionType {
        self.compression
    }

    /// Where the compacted table goes.
    pub fn output_path(&self) -> (r: &str)
        ensures
            r@ == self.output_path_spec(),
    {
        self.output_path.as_str()
    }

    /// The compression recorded in the output's header.
    pub fn compression(&self) -> (r: CompressionType)
        ensures
            r == self.compression_spec(),
    {
        self.compression
    }

    /// Keep only the newest entry of each key (highest sequence number, then
    /// latest input table), drop the keys whose newest entry is a tombstone,
    /// and return the rest in ascending key order.
    pub fn remove_tombstones_and_duplicates(&self, entries: Vec<CompactionEntry>) -> (r: CompactionResult<
        Vec<CompactionEntry>,
    >)
        ensures
            r matches Ok(out) && survivors(tagged_views(entries@), tagged_views(out@)),
    {
        let ghost s = tagged_views(entries@);
        let mut acc: Vec<CompactionEntry> = Vec::new();
        let mut i: usize = 0;
        proof {
            assert(tagged_views(acc@) =~= Seq::<TaggedEntry>::empty());
        }
        while i < entries.len()
            invariant
                s == tagged_views(entries@),
                i <= entries@.len(),
                lists(tagged_views(acc@), newest(s.take(i as int))),
            decreases entries@.len() - i,
        {
            let e = entries[i].duplicate();
            proof {
                assert(s.take(i + 1).drop_last() =~= s.take(i as int));
                assert(s.take(i + 1).last() == e@);
            }
            absorb(&mut acc, e, Ghost(newest(s.take(i as int))));
            i = i + 1;
        }
        assert(s.take(i as int) =~= s);
        let ghost a = tagged_views(acc@);
        let ghost m = newest(s);
        let mut out: Vec<CompactionEntry> = Vec::new();
        let mut j: usize = 0;
        while j < acc.len()
            invariant
                a == tagged_views(acc@),
                m == newest(s),
                lists(a, m),
                j <= a.len(),
                tagged_sorted(tagged_views(out@)),
                forall|x: int| 0 <= x < out@.len() ==> #[trigger] m.contains_key(out@[x]@.entry.key)
                    && m[out@[x]@.entry.key] == out@[x]@ && out@[x]@.entry.value is Some,
                forall|x: int, y: int| 0 <= x < out@.len() && j <= y < a.len() ==> key_lt(
                    #[trigger] out@[x]@.entry.key,
                    #[trigger] a[y].entry.key,
                ),
                forall|y: int| 0 <= y < j && (#[trigger] a[y]).entry.value is Some ==> exists|x: int|
                    0 <= x < out@.len() && out@[x]@ == a[y],
            decreases a.len() - j,
        {
            if !acc[j].is_deletion() {
                let ghost before = out@;
                out.push(acc[j].duplicate());
                proof {
                    assert(out@[out@.len() - 1]@ == a[j as int]);
                    assert(m.contains_key(a[j as int].entry.key));
                    assert forall|x: int, y: int| 0 <= x < out@.len() && j + 1 <= y < a.len() implies key_lt(
                        #[trigger] out@[x]@.entry.key,
                        #[trigger] a[y].entry.key,
                    ) by {
                        if x < before.len() {
                            assert(out@[x] == before[x]);
                        } else {
                            assert(key_lt(a[j as int].entry.key, a[y].entry.key));
                        }
                    }
                    assert forall|x: int, z: int| 0 <= x < z < out@.len() implies key_lt(
                        #[trigger] tagged_views(out@)[x].entry.key,
                        #[trigger] tagged_views(out@)[z].entry.key,
                    ) by {
                        assert(out@[x] == before[x] || x == before.len());
                        if z < before.len() {
                            assert(out@[z] == before[z]);
                            assert(out@[x] == before[x]);
                            assert(tagged_views(before)[x].entry.key == tagged_views(out@)[x].entry.key);
                            assert(tagged_views(before)[z].entry.key == tagged_views(out@)[z].entry.key);
                        } else {
                            assert(out@[x] == before[x]);
                            assert(key_lt(before[x]@.entry.key, a[j as int].entry.key));
                        }
                    }
                    assert forall|x: int| 0 <= x < out@.len() implies #[trigger] m.contains_key(out@[x]@.entry.key)
                        && m[out@[x]@.entry.key] == out@[x]@ && out@[x]@.entry.value is Some by {
                        if x < before.len() {
                            assert(out@[x] == before[x]);
                        }
                    }
                    assert forall|y: int| 0 <= y < j + 1 && (#[trigger] a[y]).entry.value is Some implies exists|x: int|
                        0 <= x < out@.len() && out@[x]@ == a[y] by {
                        if y < j {
                            let x = choose|x: int| 0 <= x < before.len() && before[x]@ == a[y];
                            assert(out@[x] == before[x]);
                        } else {
                            assert(out@[before.len() as int]@ == a[y]);
                        }
                    }
                }
            }
            j = j + 1;
        }
        proof {
            let o = tagged_views(out@);
            assert forall|k: Seq<u8>| #[trigger] m.contains_key(k) && m[k].entry.value is Some implies exists|x: int|
                0 <= x < o.len() && o[x].entry.key == k by {
                let y = choose|y: int| 0 <= y < a.len() && a[y].entry.key == k;
                assert(a[y].entry.value is Some);
                let x = choose|x: int| 0 <= x < out@.len() && out@[x]@ == a[y];
                assert(o[x].entry.key == k);
            }
            assert forall|x: int| 0 <= x < o.len() implies #[trigger] m.contains_key(o[x].entry.key) && m[o[x].entry.key]
                == o[x] && o[x].entry.value is Some by {
                assert(o[x] == out@[x]@);
            }
        }
        Ok(out)
    }
    /// Merge the entries of the input tables, given oldest first: entries of
    /// a later table win over entries of an earlier one with the same
    /// sequence number. `InvalidInput` when no table is given.
    pub fn merge_tables(&self, tables: &Vec<Vec<Entry>>) -> (r: CompactionResult<Vec<Entry>>)
        ensures
            tables@.len() == 0 <==> r is Err,
            r is Err ==> (r matches Err(CompactionError::InvalidInput(_))),
            r matches Ok(out) ==> compacts_to(table_views(tables@), entry_views(out@)),
    {
        if tables.len() == 0 {
            return Err(CompactionError::InvalidInput("No input SSTables provided for compaction".to_string()));
        }
        let ghost ts = table_views(tables@);
        let mut tagged: Vec<CompactionEntry> = Vec::new();
        let mut t: usize = 0;
        proof {
            assert(ts.take(0) =~= Seq::<Seq<EntryView>>::empty());
            assert(tagged_views(tagged@) =~= tag_all(ts.take(0)));
        }
        while t < tables.len()
            invariant
                ts == table_views(tables@),
                t <= tables@.len(),
                tagged_views(tagged@) == tag_all(ts.take(t as int)),
            decreases tables@.len() - t,
        {
            let table = &tables[t];
            let ghost tv = ts[t as int];
            let ghost base = tag_all(ts.take(t as int));
            let mut j: usize = 0;
            proof {
                assert(tv == entry_views(table@));
                assert(tag_table(tv.take(0), t) =~= Seq::<TaggedEntry>::empty());
                assert(base + tag_table(tv.take(0), t) =~= base);
            }
            while j < table.len()
                invariant
                    tv == entry_views(table@),
                    j <= table@.len(),
                    tagged_views(tagged@) == base + tag_table(tv.take(j as int), t),
                decreases table@.len() - j,
            {
                let e = &table[j];
                let ghost before = tagged_views(tagged@);
                tagged.push(
                    CompactionEntry::new(copy_bytes(&e.key), copy_value(&e.value), e.timestamp, e.sequence_number, t),
                );
                proof {
                    assert(tv.take(j + 1) =~= tv.take(j as int).push(tv[j as int]));
                    assert(tag_table(tv.take(j + 1), t) =~= tag_table(tv.take(j as int), t).push(
                        TaggedEntry { entry: tv[j as int], source: t },
                    ));
                    assert(tagged_views(tagged@) =~= before.push(TaggedEntry { entry: tv[j as int], source: t }));
                    assert(tagged_views(tagged@) =~= base + tag_table(tv.take(j + 1), t));
                }
                j = j + 1;
            }
            proof {
                assert(tv.take(j as int) =~= tv);
                let tt = ts.take(t + 1);
                assert(tt.drop_last() =~= ts.take(t as int));
                assert(tt.last() == tv);
                assert(tag_all(tt) == tag_all(tt.drop_last()) + tag_table(tt.last(), (tt.len() - 1) as usize));
            }
            t = t + 1;
        }
        assert(ts.take(t as int) =~= ts);
        let survivors_vec = match self.remove_tombstones_and_duplicates(tagged) {
            Ok(v) => v,
            Err(e) => {
                return Err(e);
            },
        };
        let ghost sv = tagged_views(survivors_vec@);
        let mut out: Vec<Entry> = Vec::new();
        let mut i: usize = 0;
        while i < survivors_vec.len()
            invariant
                sv == tagged_views(survivors_vec@),
                i <= sv.len(),
                out@.len() == i,
                forall|x: int| 0 <= x < i ==> (#[trigger] out@[x])@ == sv[x].entry,
            decreases sv.len() - i,
        {
            let c = &survivors_vec[i];
            out.push(Entry::new(copy_bytes(&c.key), copy_value(&c.value), c.timestamp, c.sequence_number));
            i = i + 1;
        }
        proof {
            let o = entry_views(out@);
            let m = newest(tag_all(ts));
            assert forall|x: int| 0 <= x < o.len() implies o[x] == sv[x].entry by {
                assert(out@[x]@ == sv[x].entry);
            }
            assert forall|a: int, b: int| 0 <= a < b < o.len() implies key_lt(#[trigger] o[a].key, #[trigger] o[b].key) by {
                assert(key_lt(sv[a].entry.key, sv[b].entry.key));
            }
            assert forall|k: Seq<u8>| #[trigger] m.contains_key(k) && m[k].entry.value is Some implies exists|x: int|
                0 <= x < o.len() && o[x].key == k by {
                let x = choose|x: int| 0 <= x < sv.len() && sv[x].entry.key == k;
                assert(o[x].key == k);
            }
            assert forall|x: int| 0 <= x < o.len() implies #[trigger] m.contains_key(o[x].key) && m[o[x].key].entry
                == o[x] && o[x].value is Some by {
                assert(m.contains_key(sv[x].entry.key));
            }
        }
        Ok(out)
    }

    /// Compact the input tables, given oldest first, into the image of one
    /// table. `InvalidInput` when no table is given or nothing survives;
    /// `SSTable` when the survivors do not fit a table.
    pub fn compact(&self, tables: &Vec<Vec<Entry>>) -> (r: CompactionResult<TableImage>)
        ensures
            tables@.len() == 0 ==> (r matches Err(CompactionError::InvalidInput(_))),
            forall|out: Seq<EntryView>|
                tables@.len() > 0 && #[trigger] compacts_to(table_views(tables@), out) && table_fits(out) ==> r is Ok,
            r matches Err(CompactionError::InvalidInput(_)) ==> tables@.len() == 0 || forall|out: Seq<EntryView>|
                #[trigger] compacts_to(table_views(tables@), out) ==> out.len() == 0,
            r is Err ==> (r matches Err(CompactionError::InvalidInput(_))) || (r matches Err(
                CompactionError::SSTable(SSTableError::InvalidFormat(_)),
            )),
            r matches Ok(img) ==> {
                &&& img.wf()
                &&& compacts_to(table_views(tables@), img@)
                &&& crate::sstable::index_sorted(img.index_entries())
                &&& img.header_spec().compression_type == self.compression_spec().spec_code()
                &&& img.header_spec().entry_count == img@.len()
                &&& crate::sstable::header_bytes(img.header_spec()) == img.bytes_spec().subrange(0, 64)
                &&& crate::sstable::table_file_holds(img.bytes_spec(), img@)
                &&& img.layout_ok()
            },
    {
        let merged = match self.merge_tables(tables) {
            Ok(m) => m,
            Err(e) => {
                return Err(e);
            },
        };
        proof {
            assert forall|out: Seq<EntryView>| #[trigger] compacts_to(table_views(tables@), out) implies out == entry_views(
                merged@,
            ) by {
                lemma_compacts_to_unique(table_views(tables@), out, entry_views(merged@));
            }
        }
        if merged.len() == 0 {
            return Err(CompactionError::InvalidInput("No entries to write to compacted SSTable".to_string()));
        }
        match TableImage::from_entries(&merged, self.compression) {
            Ok(img) => Ok(img),
            Err(e) => Err(CompactionError::SSTable(e)),
        }
    }

    /// Append the index section of `index`; returns its length.
    pub fn write_index(index: &SSTableIndex, out: &mut Vec<u8>) -> (r: usize)
        requires
            index.entries@.len() <= u32::MAX,
            forall|i: int| 0 <= i < index.entries@.len() ==> (#[trigger] index.entries@[i]).key@.len() <= u32::MAX,
        ensures
            final(out)@ == old(out)@ + index_section(index.entries@),
            r == index_section(index.entries@).len(),
    {
        write_index(index, out)
    }
}

/// The entries of each input table.
pub open spec fn table_views(ts: Seq<Vec<Entry>>) -> Seq<Seq<EntryView>> {
    ts.map_values(|t: Vec<Entry>| entry_views(t@))
}

/// With keys strictly ascending, the newest entry of each key is its only
/// entry.
proof fn lemma_newest_of_sorted(s: Seq<TaggedEntry>)
    requires
        tagged_sorted(s),
    ensures
        forall|i: int| 0 <= i < s.len() ==> #[trigger] newest(s).contains_key(s[i].entry.key)
            && newest(s)[s[i].entry.key] == s[i],
        forall|k: Seq<u8>| #[trigger] newest(s).contains_key(k) ==> exists|i: int| 0 <= i < s.len() && s[i].entry.key == k,
    decreases s.len(),
{
    if s.len() > 0 {
        let p = s.drop_last();
        assert forall|a: int, b: int| 0 <= a < b < p.len() implies key_lt(#[trigger] p[a].entry.key, #[trigger] p[b].entry.key) by {
            assert(key_lt(s[a].entry.key, s[b].entry.key));
        }
        lemma_newest_of_sorted(p);
        let m = newest(p);
        let e = s.last();
        if m.contains_key(e.entry.key) {
            let i = choose|i: int| 0 <= i < p.len() && p[i].entry.key == e.entry.key;
            assert(key_lt(s[i].entry.key, s[s.len() - 1].entry.key));
            lemma_key_lt_irreflexive(e.entry.key);
        }
        assert(newest(s) == m.insert(e.entry.key, e));
        assert forall|i: int| 0 <= i < s.len() implies #[trigger] newest(s).contains_key(s[i].entry.key)
            && newest(s)[s[i].entry.key] == s[i] by {
            if i < s.len() - 1 {
                assert(s[i] == p[i]);
                assert(key_lt(s[i].entry.key, e.entry.key));
                lemma_key_lt_irreflexive(e.entry.key);
            }
        }
        assert forall|k: Seq<u8>| #[trigger] newest(s).contains_key(k) implies exists|i: int|
            0 <= i < s.len() && s[i].entry.key == k by {
            if k != e.entry.key {
                let i = choose|i: int| 0 <= i < p.len() && p[i].entry.key == k;
                assert(s[i] == p[i]);
            } else {
                assert(s[s.len() - 1].entry.key == k);
            }
        }
    }
}

/// `e` is one of the entries of `s`.
#[verifier::opaque]
spec fn holds(s: Seq<EntryView>, e: EntryView) -> bool {
    exists|j: int| 0 <= j < s.len() && s[j] == e
}

proof fn lemma_holds_at(s: Seq<EntryView>, e: EntryView, j: int)
    requires
        0 <= j < s.len(),
        s[j] == e,
    ensures
        holds(s, e),
{
    reveal(holds);
}

proof fn lemma_position(s: Seq<EntryView>, e: EntryView) -> (j: int)
    requires
        holds(s, e),
    ensures
        0 <= j < s.len(),
        s[j] == e,
{
    reveal(holds);
    choose|j: int| 0 <= j < s.len() && s[j] == e
}

/// Two key-sorted sequences holding the same entries are equal.
proof fn lemma_sorted_same_entries(a: Seq<EntryView>, b: Seq<EntryView>)
    requires
        strictly_sorted(a),
        strictly_sorted(b),
        forall|i: int| 0 <= i < a.len() ==> holds(b, #[trigger] a[i]),
        forall|j: int| 0 <= j < b.len() ==> holds(a, #[trigger] b[j]),
    ensures
        a == b,
    decreases a.len() + b.len(),
{
    if a.len() == 0 || b.len() == 0 {
        if a.len() > 0 {
            let j = lemma_position(b, a[0]);
        }
        if b.len() > 0 {
            let i = lemma_position(a, b[0]);
        }
        assert(a =~= b);
    } else {
        let j0 = lemma_position(b, a[0]);
        let i0 = lemma_position(a, b[0]);
        if j0 > 0 {
            assert(key_lt(b[0].key, b[j0].key));
            if i0 > 0 {
                assert(key_lt(a[0].key, a[i0].key));
                lemma_key_lt_total(a[0].key, a[i0].key);
            } else {
                lemma_key_lt_irreflexive(a[0].key);
            }
        }
        assert(a[0] == b[0]);
        let a2 = a.drop_first();
        let b2 = b.drop_first();
        assert forall|i: int| 0 <= i < a2.len() implies holds(b2, #[trigger] a2[i]) by {
            assert(a2[i] == a[i + 1]);
            let j = lemma_position(b, a[i + 1]);
            if j == 0 {
                assert(key_lt(a[0].key, a[i + 1].key));
                lemma_key_lt_irreflexive(a[0].key);
            }
            assert(b2[j - 1] == b[j]);
            lemma_holds_at(b2, a2[i], j - 1);
        }
        assert forall|j: int| 0 <= j < b2.len() implies holds(a2, #[trigger] b2[j]) by {
            assert(b2[j] == b[j + 1]);
            let i = lemma_position(a, b[j + 1]);
            if i == 0 {
                assert(key_lt(b[0].key, b[j + 1].key));
                lemma_key_lt_irreflexive(b[0].key);
            }
            assert(a2[i - 1] == a[i]);
            lemma_holds_at(a2, b2[j], i - 1);
        }
        assert forall|x: int, y: int| 0 <= x < y < a2.len() implies key_lt(#[trigger] a2[x].key, #[trigger] a2[y].key) by {
            assert(key_lt(a[x + 1].key, a[y + 1].key));
        }
        assert forall|x: int, y: int| 0 <= x < y < b2.len() implies key_lt(#[trigger] b2[x].key, #[trigger] b2[y].key) by {
            assert(key_lt(b[x + 1].key, b[y + 1].key));
        }
        lemma_sorted_same_entries(a2, b2);
        assert(a =~= seq![a[0]] + a2);
        assert(b =~= seq![b[0]] + b2);
    }
}

/// The result of a compaction is determined by its inputs.
proof fn lemma_compacts_to_unique(ts: Seq<Seq<EntryView>>, a: Seq<EntryView>, b: Seq<EntryView>)
    requires
        compacts_to(ts, a),
        compacts_to(ts, b),
    ensures
        a == b,
{
    let m = newest(tag_all(ts));
    assert forall|i: int| 0 <= i < a.len() implies holds(b, #[trigger] a[i]) by {
        assert(m.contains_key(a[i].key));
        assert(m[a[i].key].entry == a[i]);
        assert(m.contains_key(a[i].key) && m[a[i].key].entry.value is Some);
        let j = choose|j: int| 0 <= j < b.len() && b[j].key == a[i].key;
        assert(m.contains_key(b[j].key));
        lemma_holds_at(b, a[i], j);
    }
    assert forall|j: int| 0 <= j < b.len() implies holds(a, #[trigger] b[j]) by {
        assert(m.contains_key(b[j].key));
        assert(m[b[j].key].entry == b[j]);
        assert(m.contains_key(b[j].key) && m[b[j].key].entry.value is Some);
        let i = choose|i: int| 0 <= i < a.len() && a[i].key == b[j].key;
        assert(m.contains_key(a[i].key));
        lemma_holds_at(a, b[j], i);
    }
    lemma_sorted_same_entries(a, b);
}

/// Compaction is idempotent: compacting, on its own, a table that a
/// compaction produced (keys strictly ascending, no tombstones) gives back
/// exactly that table, so the same live keys and values and no tombstones.
pub proof fn lemma_compaction_idempotent(t: Seq<EntryView>, out: Seq<EntryView>)
    requires
        strictly_sorted(t),
        forall|i: int| 0 <= i < t.len() ==> (#[trigger] t[i]).value is Some,
        compacts_to(seq![t], out),
    ensures
        out == t,
{
    let ts = seq![t];
    let s = tag_table(t, 0);
    assert(ts.drop_last() =~= Seq::<Seq<EntryView>>::empty());
    assert(tag_all(ts.drop_last()) =~= Seq::<TaggedEntry>::empty());
    assert(tag_all(ts) =~= s);
    assert forall|a: int, b: int| 0 <= a < b < s.len() implies key_lt(#[trigger] s[a].entry.key, #[trigger] s[b].entry.key) by {
        assert(key_lt(t[a].key, t[b].key));
    }
    lemma_newest_of_sorted(s);
    let m = newest(s);
    assert forall|i: int| 0 <= i < out.len() implies holds(t, #[trigger] out[i]) by {
        assert(m.contains_key(out[i].key));
        let j = choose|j: int| 0 <= j < s.len() && s[j].entry.key == out[i].key;
        assert(m[s[j].entry.key] == s[j]);
        assert(t[j] == out[i]);
        lemma_holds_at(t, out[i], j);
    }
    assert forall|j: int| 0 <= j < t.len() implies holds(out, #[trigger] t[j]) by {
        assert(s[j].entry == t[j]);
        assert(m.contains_key(s[j].entry.key) && m[s[j].entry.key] == s[j]);
        assert(m[t[j].key].entry.value is Some);
        let i = choose|i: int| 0 <= i < out.len() && out[i].key == t[j].key;
        assert(m.contains_key(out[i].key));
        lemma_holds_at(out, t[j], i);
    }
    lemma_sorted_same_entries(out, t);
}

} // verus!
