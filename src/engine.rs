//! The engine's decisions: which layer answers a read, how a write's key is
//! checked, and how log and table files are ordered on recovery. The engine
//! that owns files drives these from outside.

use crate::codec::stored_value;
use crate::memtable::{bytes_view, probe, represents, Entry, EntryView, Lookup, MemTable, MemTableError};
use crate::sstable::{table_probe, CompressionType, SSTableError, TableImage};
use crate::wal::WALError;
use vstd::prelude::*;

verus! {

/// Errors that can occur during engine operations.
#[derive(Debug)]
pub enum EngineError {
    WAL(WALError),
    MemTable(MemTableError),
    SSTable(SSTableError),
    Io(std::io::Error),
    InvalidConfig(String),
    RecoveryFailed(String),
}

/// Result type for engine operations.
pub type EngineResult<T> = Result<T, EngineError>;

/// Configuration options for the engine.
#[derive(Debug, Clone)]
pub struct EngineConfig {
    /// Directory holding the log and table files.
    pub data_dir: String,
    /// MemTable size in bytes at which it is flushed to a table.
    pub memtable_size: usize,
    /// Compression recorded in table headers.
    pub compression: CompressionType,
    /// Number of table levels (reserved).
    pub max_levels: usize,
}

impl Default for EngineConfig {
    fn default() -> (r: Self)
        ensures
            r.data_dir@ == "./data"@,
            r.memtable_size == 64 * 1024 * 1024,
            r.compression == CompressionType::Uncompressed,
            r.max_levels == 7,
    {
        EngineConfig {
            data_dir: "./data".to_string(),
            memtable_size: 64 * 1024 * 1024,
            compression: CompressionType::Uncompressed,
            max_levels: 7,
        }
    }
}

/// Engine statistics.
#[derive(Debug, Clone)]
pub struct EngineStats {
    pub memtable_size: usize,
    pub sstable_count: usize,
    pub data_dir: String,
}

/// Reject an empty key with `InvalidConfig`.
pub fn check_key(key: &[u8]) -> (r: EngineResult<()>)
    ensures
        key@.len() == 0 <==> r is Err,
        r is Err ==> (r matches Err(EngineError::InvalidConfig(_))),
{
    if key.len() == 0 {
        Err(EngineError::InvalidConfig("Key cannot be empty".to_string()))
    } else {
        Ok(())
    }
}

/// The value a read returns given what each layer holds for the key,
/// newest layer first: the first layer that knows the key decides, and a
/// tombstone there means not present.
pub open spec fn layered_get(layers: Seq<Option<Option<Seq<u8>>>>) -> Option<Seq<u8>>
    decreases layers.len(),
{
    if layers.len() == 0 {
        None
    } else {
        match layers[0] {
            Some(v) => v,
            None => layered_get(layers.drop_first()),
        }
    }
}

/// What each table holds for `k`, newest table first.
pub open spec fn table_layers(tables: Seq<Seq<EntryView>>, k: Seq<u8>) -> Seq<Option<Option<Seq<u8>>>> {
    tables.map_values(|t: Seq<EntryView>| table_probe(t, k))
}

/// The value a read of `k` returns from a MemTable holding `mem` over the
/// tables `tables`, newest first.
pub open spec fn engine_get(mem: Map<Seq<u8>, EntryView>, tables: Seq<Seq<EntryView>>, k: Seq<u8>) -> Option<Seq<u8>> {
    layered_get(seq![probe(mem, k)] + table_layers(tables, k))
}

/// The value a layer's answer decides on, if it knows the key.
pub open spec fn decided(l: Option<Option<Seq<u8>>>) -> Option<Seq<u8>> {
    match l {
        Some(v) => v,
        None => None,
    }
}

/// What the read path does next.
#[derive(Debug)]
pub enum ReadStep {
    /// The read is answered.
    Done(Option<Vec<u8>>),
    /// Look the key up in the table at this position (newest first).
    Probe(usize),
}

/// The step after a layer answered `found`; `next` is the position of the
/// table to probe if this layer does not know the key, and `table_count`
/// how many tables there are.
pub fn read_step(found: Lookup, next: usize, table_count: usize) -> (r: ReadStep)
    ensures
        found@ is Some ==> (r matches ReadStep::Done(v) && bytes_view(v) == decided(found@)),
        found@ is None && next < table_count ==> (r matches ReadStep::Probe(i) && i == next),
        found@ is None && next >= table_count ==> (r matches ReadStep::Done(v) && v is None),
{
    match found {
        Lookup::Value(v) => ReadStep::Done(Some(v)),
        Lookup::Tombstone => ReadStep::Done(None),
        Lookup::Absent => if next < table_count {
            ReadStep::Probe(next)
        } else {
            ReadStep::Done(None)
        },
    }
}


/// The first layer that knows the key decides the read.
pub proof fn lemma_layered_get_first(first: Option<Option<Seq<u8>>>, rest: Seq<Option<Option<Seq<u8>>>>)
    ensures
        layered_get(seq![first] + rest) == match first {
            Some(v) => v,
            None => layered_get(rest),
        },
{
    let l = seq![first] + rest;
    assert(l[0] == first);
    assert(l.drop_first() =~= rest);
}

/// Read-your-writes and newest-wins across layers: when the MemTable holds
/// a value for the key (as after a successful put), that value is what a
/// read returns, whatever the tables hold.
pub proof fn lemma_memtable_value_wins(
    mem: Map<Seq<u8>, EntryView>,
    tables: Seq<Seq<EntryView>>,
    k: Seq<u8>,
    v: Seq<u8>,
)
    requires
        mem.contains_key(k),
        mem[k].value == Some(v),
    ensures
        engine_get(mem, tables, k) == Some(v),
{
    lemma_layered_get_first(probe(mem, k), table_layers(tables, k));
}

/// Delete semantics and tombstones masking older layers: when the MemTable
/// holds a tombstone for the key (as after a successful delete), a read
/// returns not present, whatever the tables hold.
pub proof fn lemma_memtable_tombstone_masks(mem: Map<Seq<u8>, EntryView>, tables: Seq<Seq<EntryView>>, k: Seq<u8>)
    requires
        mem.contains_key(k),
        mem[k].value is None,
    ensures
        engine_get(mem, tables, k) is None,
{
    lemma_layered_get_first(probe(mem, k), table_layers(tables, k));
}

/// Flushing keeps every read unchanged: the MemTable's entries, listed in
/// key order, become the newest table and the MemTable starts empty. An
/// empty value would read back as a tombstone, so none may be stored.
pub proof fn lemma_flush_preserves_reads(
    mem: Map<Seq<u8>, EntryView>,
    s: Seq<EntryView>,
    tables: Seq<Seq<EntryView>>,
    k: Seq<u8>,
)
    requires
        represents(s, mem),
        forall|i: int| 0 <= i < s.len() ==> ((#[trigger] s[i]).value matches Some(b) ==> b.len() > 0),
    ensures
        engine_get(Map::empty(), seq![s] + tables, k) == engine_get(mem, tables, k),
{
    let after = seq![s] + tables;
    assert(table_layers(after, k) =~= seq![table_probe(s, k)] + table_layers(tables, k));
    lemma_layered_get_first(probe(Map::<Seq<u8>, EntryView>::empty(), k), table_layers(after, k));
    lemma_layered_get_first(table_probe(s, k), table_layers(tables, k));
    lemma_layered_get_first(probe(mem, k), table_layers(tables, k));
    if exists|i: int| 0 <= i < s.len() && s[i].key == k {
        let i = choose|i: int| 0 <= i < s.len() && s[i].key == k;
        assert(mem.contains_key(s[i].key) && mem[s[i].key] == s[i]);
        assert(s[i].value matches Some(b) ==> b.len() > 0);
        assert(stored_value(s[i].value) == s[i].value);
    } else {
        if mem.contains_key(k) {
            let i = choose|i: int| 0 <= i < s.len() && s[i].key == k;
        }
    }
}

/// Read-your-writes and newest-wins: after a put of `v` under `e.key` is
/// applied to a MemTable holding `mem` (see [`apply_logged`]), a read of the
/// key returns `v` whatever the older tables hold; and if the MemTable is
/// then flushed into the newest table `s`, the read still returns `v`,
/// provided no flushed value is empty.
pub proof fn lemma_put_then_read(
    mem: Map<Seq<u8>, EntryView>,
    tables: Seq<Seq<EntryView>>,
    e: EntryView,
    v: Seq<u8>,
    s: Seq<EntryView>,
)
    requires
        e.value == Some(v),
    ensures
        engine_get(mem.insert(e.key, e), tables, e.key) == Some(v),
        represents(s, mem.insert(e.key, e)) && (forall|i: int|
            0 <= i < s.len() ==> ((#[trigger] s[i]).value matches Some(b) ==> b.len() > 0)) ==> engine_get(
            Map::empty(),
            seq![s] + tables,
            e.key,
        ) == Some(v),
{
    lemma_memtable_value_wins(mem.insert(e.key, e), tables, e.key, v);
    if represents(s, mem.insert(e.key, e)) && (forall|i: int|
        0 <= i < s.len() ==> ((#[trigger] s[i]).value matches Some(b) ==> b.len() > 0)) {
        lemma_flush_preserves_reads(mem.insert(e.key, e), s, tables, e.key);
    }
}

/// Delete semantics: after a delete of `e.key` is applied to the MemTable
/// (a tombstone), a read of the key returns not present whatever the older
/// tables hold, and still does once the MemTable is flushed into the newest
/// table `s`.
pub proof fn lemma_delete_then_read(
    mem: Map<Seq<u8>, EntryView>,
    tables: Seq<Seq<EntryView>>,
    e: EntryView,
    s: Seq<EntryView>,
)
    requires
        e.value is None,
    ensures
        engine_get(mem.insert(e.key, e), tables, e.key) is None,
        represents(s, mem.insert(e.key, e)) ==> engine_get(Map::empty(), seq![s] + tables, e.key) is None,
{
    let m = mem.insert(e.key, e);
    lemma_memtable_tombstone_masks(m, tables, e.key);
    if represents(s, m) {
        let after = seq![s] + tables;
        assert(table_layers(after, e.key) =~= seq![table_probe(s, e.key)] + table_layers(tables, e.key));
        lemma_layered_get_first(probe(Map::<Seq<u8>, EntryView>::empty(), e.key), table_layers(after, e.key));
        lemma_layered_get_first(table_probe(s, e.key), table_layers(tables, e.key));
        let i = choose|i: int| 0 <= i < s.len() && s[i].key == e.key;
        assert(m.contains_key(s[i].key) && m[s[i].key] == s[i]);
    }
}

/// The entries of each table image.
pub open spec fn image_views(tables: Seq<TableImage>) -> Seq<Seq<EntryView>> {
    tables.map_values(|t: TableImage| t@)
}

/// Read a key from a MemTable over in-memory tables, newest first, the way
/// the engine reads: `InvalidConfig` for an empty key, otherwise the value
/// of the first layer that knows the key.
pub fn read_layers(memtable: &MemTable, tables: &Vec<TableImage>, key: &[u8]) -> (r: EngineResult<Option<Vec<u8>>>)
    requires
        memtable.wf(),
        forall|i: int| 0 <= i < tables@.len() ==> (#[trigger] tables@[i]).wf(),
    ensures
        key@.len() == 0 <==> r is Err,
        r is Err ==> (r matches Err(EngineError::InvalidConfig(_))),
        r matches Ok(v) ==> bytes_view(v) == engine_get(memtable@, image_views(tables@), key@),
{
    if let Err(e) = check_key(key) {
        return Err(e);
    }
    let ghost ts = image_views(tables@);
    let ghost layers = table_layers(ts, key@);
    let found = match memtable.get(key) {
        Ok(l) => l,
        Err(e) => {
            return Err(EngineError::MemTable(e));
        },
    };
    proof {
        lemma_layered_get_first(probe(memtable@, key@), layers);
        assert(layers.subrange(0, layers.len() as int) =~= layers);
    }
    let n = tables.len();
    let mut step = read_step(found, 0, n);
    let mut i: usize = 0;
    loop
        invariant
            key@.len() > 0,
            n == tables@.len(),
            ts == image_views(tables@),
            layers == table_layers(ts, key@),
            layers.len() == tables@.len(),
            forall|j: int| 0 <= j < tables@.len() ==> (#[trigger] tables@[j]).wf(),
            i <= tables@.len(),
            match step {
                ReadStep::Done(v) => bytes_view(v) == engine_get(memtable@, ts, key@),
                ReadStep::Probe(p) => p == i && i < tables@.len() && engine_get(memtable@, ts, key@)
                    == layered_get(layers.subrange(i as int, layers.len() as int)),
            },
            step matches ReadStep::Done(_) || engine_get(memtable@, ts, key@) == layered_get(
                layers.subrange(i as int, layers.len() as int),
            ),
        decreases tables@.len() - i, if step is Probe { 1int } else { 0int },
    {
        match step {
            ReadStep::Done(answer) => {
                return Ok(answer);
            },
            ReadStep::Probe(p) => {
                let found = match tables[p].lookup(key) {
                    Ok(l) => l,
                    Err(e) => {
                        return Err(EngineError::SSTable(e));
                    },
                };
                proof {
                    let rest = layers.subrange(i as int, layers.len() as int);
                    assert(rest =~= seq![layers[i as int]] + layers.subrange(i + 1, layers.len() as int));
                    assert(layers[i as int] == table_probe(tables@[i as int]@, key@));
                    lemma_layered_get_first(layers[i as int], layers.subrange(i + 1, layers.len() as int));
                    if i + 1 == tables@.len() {
                        assert(layers.subrange(i + 1, layers.len() as int) =~= Seq::<Option<Option<Seq<u8>>>>::empty());
                    }
                }
                step = read_step(found, p + 1, n);
                i = i + 1;
            },
        }
    }
}

/// What the engine does after a mutation has been logged.
#[derive(Debug, PartialEq, Eq, Structural)]
pub enum WriteStep {
    /// The mutation is in the MemTable.
    Applied,
    /// The mutation is in the MemTable, which is now full: flush it.
    AppliedThenFlush,
    /// The MemTable has no room for the mutation: flush it, then apply the
    /// mutation to the fresh MemTable.
    FlushThenRetry,
}

/// Apply a logged mutation to the MemTable and decide whether to flush.
/// A MemTable without room gets the mutation after a flush, unless it is
/// already empty: then the mutation can never fit and `TableFull` is
/// returned.
pub fn apply_logged(memtable: &mut MemTable, entry: Entry) -> (r: EngineResult<WriteStep>)
    requires
        old(memtable).wf(),
    ensures
        final(memtable).wf(),
        final(memtable).max_size() == old(memtable).max_size(),
        entry@.key.len() == 0 ==> (r matches Err(EngineError::MemTable(MemTableError::InvalidKey(_)))),
        entry@.key.len() > 0 && old(memtable).accepts(entry@.key, entry@.value) ==> {
            &&& final(memtable)@ == old(memtable)@.insert(entry@.key, entry@)
            &&& final(memtable).size() == old(memtable).size_after(entry@.key, entry@.value)
            &&& r matches Ok(step) && (step == WriteStep::AppliedThenFlush <==> final(memtable).size()
                >= final(memtable).max_size()) && step != WriteStep::FlushThenRetry
        },
        !(entry@.key.len() > 0 && old(memtable).accepts(entry@.key, entry@.value)) ==> final(memtable).size()
            == old(memtable).size(),
        entry@.key.len() > 0 && !old(memtable).accepts(entry@.key, entry@.value) ==> {
            &&& final(memtable)@ == old(memtable)@
            &&& old(memtable).entry_seq().len() > 0 ==> (r matches Ok(WriteStep::FlushThenRetry))
            &&& old(memtable).entry_seq().len() == 0 ==> (r matches Err(
                EngineError::MemTable(MemTableError::TableFull),
            ))
        },
{
    let was_empty = memtable.is_empty();
    match memtable.insert_entry(entry) {
        Ok(()) => {
            if memtable.is_full() {
                Ok(WriteStep::AppliedThenFlush)
            } else {
                Ok(WriteStep::Applied)
            }
        },
        Err(MemTableError::TableFull) => {
            if was_empty {
                Err(EngineError::MemTable(MemTableError::TableFull))
            } else {
                Ok(WriteStep::FlushThenRetry)
            }
        },
        Err(e) => Err(EngineError::MemTable(e)),
    }
}

/// ASCII "wal.log", the first log generation.
pub open spec fn first_log_name() -> Seq<u8> {
    seq![119u8, 97u8, 108u8, 46u8, 108u8, 111u8, 103u8]
}

/// ASCII "wal_".
pub open spec fn log_prefix() -> Seq<u8> {
    seq![119u8, 97u8, 108u8, 95u8]
}

/// ASCII ".log".
pub open spec fn log_suffix() -> Seq<u8> {
    seq![46u8, 108u8, 111u8, 103u8]
}

/// ASCII "sstable_".
pub open spec fn table_prefix() -> Seq<u8> {
    seq![115u8, 115u8, 116u8, 97u8, 98u8, 108u8, 101u8, 95u8]
}

/// ASCII ".sst".
pub open spec fn table_suffix() -> Seq<u8> {
    seq![46u8, 115u8, 115u8, 116u8]
}

/// The value of a string of ASCII decimal digits.
pub open spec fn decimal_value(d: Seq<u8>) -> nat
    decreases d.len(),
{
    if d.len() == 0 {
        0
    } else {
        decimal_value(d.drop_last()) * 10 + (d.last() - 48) as nat
    }
}

/// The timestamp a file name embeds: a non-empty run of decimal digits
/// that fits in 128 bits, or 0 otherwise.
pub open spec fn timestamp_of(d: Seq<u8>) -> nat {
    if d.len() > 0 && (forall|i: int| 0 <= i < d.len() ==> 48 <= #[trigger] d[i] <= 57) && decimal_value(d)
        <= u128::MAX {
        decimal_value(d)
    } else {
        0
    }
}

/// Where a log file sorts on recovery: "wal.log" first, then
/// "wal_<ts>.log" by timestamp; other names are not logs.
pub open spec fn log_order(name: Seq<u8>) -> Option<nat> {
    if name == first_log_name() {
        Some(0)
    } else if name.len() >= 8 && name.subrange(0, 4) == log_prefix() && name.subrange(
        name.len() - 4,
        name.len() as int,
    ) == log_suffix() {
        Some(timestamp_of(name.subrange(4, name.len() - 4)))
    } else {
        None
    }
}

/// Where a table file sorts on recovery (newest, the largest, first): the
/// timestamp of "sstable_<ts>.sst", 0 for another "<stem>.sst"; other names
/// are not tables.
pub open spec fn table_order(name: Seq<u8>) -> Option<nat> {
    if name.len() > 4 && name.subrange(name.len() - 4, name.len() as int) == table_suffix() {
        let stem = name.subrange(0, name.len() - 4);
        if stem.len() >= 8 && stem.subrange(0, 8) == table_prefix() {
            Some(timestamp_of(stem.subrange(8, stem.len() as int)))
        } else {
            Some(0)
        }
    } else {
        None
    }
}

fn bytes_equal(a: &[u8], b: &[u8]) -> (r: bool)
    ensures
        r == (a@ == b@),
{
    match crate::keys::compare_keys(a, b) {
        std::cmp::Ordering::Equal => true,
        _ => false,
    }
}

/// Parse the embedded timestamp.
fn parse_timestamp(d: &[u8]) -> (r: u128)
    ensures
        r == timestamp_of(d@),
{
    if d.len() == 0 {
        return 0;
    }
    let mut acc: u128 = 0;
    let mut i: usize = 0;
    while i < d.len()
        invariant
            i <= d@.len(),
            d@.len() > 0,
            acc == decimal_value(d@.take(i as int)),
            forall|j: int| 0 <= j < i ==> 48 <= #[trigger] d@[j] <= 57,
        decreases d@.len() - i,
    {
        let c = d[i];
        proof {
            assert(d@.take(i + 1).drop_last() =~= d@.take(i as int));
            assert(d@.take(i + 1).last() == c);
        }
        if c < 48 || c > 57 {
            return 0;
        }
        let digit = (c - 48) as u128;
        let next = match acc.checked_mul(10) {
            Some(x) => x.checked_add(digit),
            None => None,
        };
        match next {
            Some(x) => {
                acc = x;
            },
            None => {
                proof {
                    lemma_decimal_prefix_grows(d@, i + 1);
                }
                return 0;
            },
        }
        i = i + 1;
    }
    assert(d@.take(i as int) =~= d@);
    acc
}

proof fn lemma_decimal_prefix_grows(d: Seq<u8>, n: int)
    requires
        0 <= n <= d.len(),
    ensures
        decimal_value(d.take(n)) <= decimal_value(d),
    decreases d.len(),
{
    if n < d.len() {
        assert(d.drop_last().take(n) =~= d.take(n));
        lemma_decimal_prefix_grows(d.drop_last(), n);
    } else {
        assert(d.take(n) =~= d);
    }
}

/// Where a file sorts among the logs, or `None` if its name is not a log's.
pub fn log_file_order(name: &[u8]) -> (r: Option<u128>)
    ensures
        match log_order(name@) {
            Some(t) => r == Some(t as u128),
            None => r is None,
        },
{
    let first: [u8; 7] = [119u8, 97u8, 108u8, 46u8, 108u8, 111u8, 103u8];
    let first_slice = vstd::array::array_as_slice(&first);
    assert(first_slice@ =~= first_log_name());
    if bytes_equal(name, first_slice) {
        return Some(0);
    }
    let n = name.len();
    if n < 8 {
        return None;
    }
    let prefix: [u8; 4] = [119u8, 97u8, 108u8, 95u8];
    let suffix: [u8; 4] = [46u8, 108u8, 111u8, 103u8];
    let prefix_slice = vstd::array::array_as_slice(&prefix);
    let suffix_slice = vstd::array::array_as_slice(&suffix);
    assert(prefix_slice@ =~= log_prefix());
    assert(suffix_slice@ =~= log_suffix());
    if !bytes_equal(vstd::slice::slice_subrange(name, 0, 4), prefix_slice) || !bytes_equal(
        vstd::slice::slice_subrange(name, n - 4, n),
        suffix_slice,
    ) {
        return None;
    }
    Some(parse_timestamp(vstd::slice::slice_subrange(name, 4, n - 4)))
}

/// Where a file sorts among the tables, or `None` if its name is not a
/// table's.
pub fn table_file_order(name: &[u8]) -> (r: Option<u128>)
    ensures
        match table_order(name@) {
            Some(t) => r == Some(t as u128),
            None => r is None,
        },
{
    let n = name.len();
    if n <= 4 {
        return None;
    }
    let suffix: [u8; 4] = [46u8, 115u8, 115u8, 116u8];
    let suffix_slice = vstd::array::array_as_slice(&suffix);
    assert(suffix_slice@ =~= table_suffix());
    if !bytes_equal(vstd::slice::slice_subrange(name, n - 4, n), suffix_slice) {
        return None;
    }
    let stem = vstd::slice::slice_subrange(name, 0, n - 4);
    if stem.len() < 8 {
        return Some(0);
    }
    let prefix: [u8; 8] = [115u8, 115u8, 116u8, 97u8, 98u8, 108u8, 101u8, 95u8];
    let prefix_slice = vstd::array::array_as_slice(&prefix);
    assert(prefix_slice@ =~= table_prefix());
    if !bytes_equal(vstd::slice::slice_subrange(stem, 0, 8), prefix_slice) {
        return Some(0);
    }
    Some(parse_timestamp(vstd::slice::slice_subrange(stem, 8, stem.len())))
}

} // verus!
