//! The write-ahead log: how a mutation is framed before it is appended, and
//! how a log's bytes are read back and replayed into a MemTable after a
//! restart, skipping over corruption.

use crate::codec::{
    decode_entry, encodable, entry_at, entry_bytes, entry_end, lemma_entry_round_trip, push_entry,
    read_u32, stored, u32_at,
};
use crate::memtable::{
    bytes_view, copy_bytes, copy_value, entry_size, total_size, value_len,
    Entry, EntryView, MemTable, MemTableError,
};
use vstd::prelude::*;

verus! {

/// The error type of I/O operations, carried in error values.
#[verifier::external_type_specification]
#[verifier::external_body]
pub struct ExIoError(std::io::Error);

/// Errors that can occur during WAL operations.
#[derive(Debug)]
pub enum WALError {
    Io(std::io::Error),
    InvalidRecord(String),
    CorruptedFile(String),
    MemTable(MemTableError),
    FileNotFound(String),
}

/// Result type for WAL operations.
pub type WALResult<T> = Result<T, WALError>;

/// Largest key length accepted when reading a log back.
pub const MAX_KEY_LEN: u32 = 1024 * 1024;

/// Largest value length accepted when reading a log back.
pub const MAX_VALUE_LEN: u32 = 100 * 1024 * 1024;

/// A single logged mutation; no value marks a deletion.
#[derive(Debug)]
pub struct WALRecord {
    pub key: Vec<u8>,
    pub value: Option<Vec<u8>>,
    pub timestamp: u64,
    pub sequence_number: u64,
}

impl View for WALRecord {
    type V = EntryView;

    open spec fn view(&self) -> EntryView {
        EntryView {
            key: self.key@,
            value: bytes_view(self.value),
            timestamp: self.timestamp,
            sequence_number: self.sequence_number,
        }
    }
}

impl WALRecord {
    /// Create a new WAL record.
    pub fn new(key: Vec<u8>, value: Option<Vec<u8>>, timestamp: u64, sequence_number: u64) -> (r:
        Self)
        ensures
            r.key == key,
            r.value == value,
            r.timestamp == timestamp,
            r.sequence_number == sequence_number,
    {
        WALRecord { key, value, timestamp, sequence_number }
    }

    /// Check if this record is a deletion (tombstone).
    pub fn is_deletion(&self) -> (r: bool)
        ensures
            r == (self.value is None),
    {
        self.value.is_none()
    }

    /// Convert to a MemTable entry.
    pub fn to_entry(&self) -> (r: Entry)
        ensures
            r@ == self@,
    {
        Entry::new(copy_bytes(&self.key), copy_value(&self.value), self.timestamp, self.sequence_number)
    }
}

/// The views of a sequence of records.
pub open spec fn record_views(s: Seq<WALRecord>) -> Seq<EntryView> {
    s.map_values(|r: WALRecord| r@)
}

/// A header at `p` whose lengths are within the sanity bounds.
pub open spec fn plausible_at(b: Seq<u8>, p: int) -> bool {
    u32_at(b, p) <= MAX_KEY_LEN && u32_at(b, p + 4) <= MAX_VALUE_LEN
}

/// A whole, plausible record starts at `p`.
pub open spec fn complete_at(b: Seq<u8>, p: int) -> bool {
    &&& 0 <= p
    &&& p + 24 <= b.len()
    &&& plausible_at(b, p)
    &&& entry_end(b, p) <= b.len()
}

/// The records read from offset `p` on. When `scanning`, the reader is
/// looking for the next offset with a plausible header. A malformed or cut
/// record either ends the reading or, with `resync`, starts a scan at the
/// following byte. Fewer than 24 bytes left end the reading.
pub open spec fn records_from(b: Seq<u8>, p: int, scanning: bool, resync: bool) -> Seq<EntryView>
    decreases b.len() - p, if scanning {
        1int
    } else {
        0int
    },
{
    if p < 0 || p + 24 > b.len() {
        Seq::empty()
    } else if scanning {
        if plausible_at(b, p) {
            records_from(b, p, false, resync)
        } else {
            records_from(b, p + 1, true, resync)
        }
    } else if complete_at(b, p) {
        seq![entry_at(b, p)] + records_from(b, entry_end(b, p), false, resync)
    } else if resync {
        records_from(b, p + 1, true, resync)
    } else {
        Seq::empty()
    }
}

/// The records that replay recovers from a log, resynchronising after
/// corruption.
pub open spec fn log_records(b: Seq<u8>) -> Seq<EntryView> {
    records_from(b, 0, false, true)
}

/// The records before the first corruption.
pub open spec fn intact_records(b: Seq<u8>) -> Seq<EntryView> {
    records_from(b, 0, false, false)
}

/// The bytes of a log holding `rs` in order.
pub open spec fn encode_log(rs: Seq<EntryView>) -> Seq<u8>
    decreases rs.len(),
{
    if rs.len() == 0 {
        Seq::empty()
    } else {
        entry_bytes(rs[0]) + encode_log(rs.drop_first())
    }
}

/// A record that reads back as itself: lengths within the sanity bounds,
/// and a value, when present, not empty (an empty value is stored like a
/// tombstone).
pub open spec fn loggable(e: EntryView) -> bool {
    &&& e.key.len() <= MAX_KEY_LEN
    &&& value_len(e.value) <= MAX_VALUE_LEN
    &&& e.value matches Some(v) ==> v.len() > 0
}

/// The MemTable contents after inserting `rs` in order.
pub open spec fn apply_all(m: Map<Seq<u8>, EntryView>, rs: Seq<EntryView>) -> Map<
    Seq<u8>,
    EntryView,
>
    decreases rs.len(),
{
    if rs.len() == 0 {
        m
    } else {
        apply_all(m, rs.drop_last()).insert(rs.last().key, rs.last())
    }
}

/// The MemTable size after one more entry, replacing any under its key.
pub open spec fn step_size(m: Map<Seq<u8>, EntryView>, size: int, e: EntryView) -> int {
    size + entry_size(e) - if m.contains_key(e.key) {
        entry_size(m[e.key])
    } else {
        0
    }
}

/// The MemTable size after inserting `rs` in order.
pub open spec fn size_after_all(m: Map<Seq<u8>, EntryView>, size: int, rs: Seq<EntryView>) -> int
    decreases rs.len(),
{
    if rs.len() == 0 {
        size
    } else {
        step_size(apply_all(m, rs.drop_last()), size_after_all(m, size, rs.drop_last()), rs.last())
    }
}

/// Whether a MemTable holding `m` in `size` bytes, bounded by `max`,
/// accepts every record of `rs` in turn: each has a key and fits.
pub open spec fn all_accepted(m: Map<Seq<u8>, EntryView>, size: int, max: int, rs: Seq<EntryView>) -> bool
    decreases rs.len(),
{
    if rs.len() == 0 {
        true
    } else {
        &&& all_accepted(m, size, max, rs.drop_last())
        &&& rs.last().key.len() > 0
        &&& size_after_all(m, size, rs) <= max
    }
}

proof fn lemma_all_accepted_prefix(m: Map<Seq<u8>, EntryView>, size: int, max: int, rs: Seq<EntryView>, j: int)
    requires
        0 <= j <= rs.len(),
        all_accepted(m, size, max, rs),
    ensures
        all_accepted(m, size, max, rs.take(j)),
    decreases rs.len(),
{
    if j < rs.len() {
        assert(rs.drop_last().take(j) =~= rs.take(j));
        lemma_all_accepted_prefix(m, size, max, rs.drop_last(), j);
    } else {
        assert(rs.take(j) =~= rs);
    }
}

/// The largest sequence number among `rs`, or zero.
pub open spec fn max_sequence(rs: Seq<EntryView>) -> u64
    decreases rs.len(),
{
    if rs.len() == 0 {
        0
    } else if rs.last().sequence_number > max_sequence(rs.drop_last()) {
        rs.last().sequence_number
    } else {
        max_sequence(rs.drop_last())
    }
}

/// Frame `record` for appending to a log whose last sequence number is
/// `last`. The record must carry the next sequence number, `last + 1`, and
/// lengths that fit the header; otherwise `InvalidRecord`.
pub fn frame_record(last: u64, record: &WALRecord) -> (r: WALResult<Vec<u8>>)
    ensures
        (last < u64::MAX && record.sequence_number == last + 1 && encodable(record@)) <==> r is Ok,
        r matches Ok(b) ==> b@ == entry_bytes(record@),
        r is Err ==> (r matches Err(WALError::InvalidRecord(_))),
{
    if last == u64::MAX || record.sequence_number != last + 1 {
        return Err(WALError::InvalidRecord("Unexpected sequence number".to_string()));
    }
    let value_len: usize = match &record.value {
        Some(v) => v.len(),
        None => 0,
    };
    if record.key.len() > 0xffff_ffff || value_len > 0xffff_ffff {
        return Err(WALError::InvalidRecord("Record too large".to_string()));
    }
    let mut out: Vec<u8> = Vec::new();
    let entry = record.to_entry();
    push_entry(&mut out, &entry);
    assert(out@ =~= entry_bytes(record@));
    Ok(out)
}

/// Read the records of a log, with or without resynchronising after
/// corruption.
fn collect_records(buf: &[u8], resync: bool) -> (r: Vec<WALRecord>)
    ensures
        record_views(r@) == records_from(buf@, 0, false, resync),
{
    let ghost b = buf@;
    let len = buf.len();
    let mut out: Vec<WALRecord> = Vec::new();
    let mut pos: usize = 0;
    let mut scanning = false;
    while len >= 24 && pos <= len - 24
        invariant
            b == buf@,
            len == b.len(),
            pos <= len,
            record_views(out@) + records_from(b, pos as int, scanning, resync) == records_from(
                b,
                0,
                false,
                resync,
            ),
        decreases len - pos,
    {
        let key_len = read_u32(buf, pos);
        let value_len = read_u32(buf, pos + 4);
        let plausible = key_len <= MAX_KEY_LEN && value_len <= MAX_VALUE_LEN;
        if scanning && !plausible {
            pos = pos + 1;
        } else {
            assert(records_from(b, pos as int, scanning, resync) == records_from(
                b,
                pos as int,
                false,
                resync,
            ));
            if plausible && (key_len as usize) + (value_len as usize) <= len - pos - 24 {
                let e = decode_entry(buf, pos);
                let ghost before = record_views(out@);
                let rec = WALRecord::new(e.key, e.value, e.timestamp, e.sequence_number);
                out.push(rec);
                assert(record_views(out@) =~= before.push(entry_at(b, pos as int)));
                assert(before + records_from(b, pos as int, false, resync) =~= before.push(
                    entry_at(b, pos as int),
                ) + records_from(b, entry_end(b, pos as int), false, resync));
                pos = pos + 24 + key_len as usize + value_len as usize;
                scanning = false;
            } else if resync {
                pos = pos + 1;
                scanning = true;
            } else {
                assert(records_from(b, pos as int, false, resync) =~= Seq::<EntryView>::empty());
                assert(record_views(out@) =~= record_views(out@) + Seq::<EntryView>::empty());
                return out;
            }
        }
    }
    assert(record_views(out@) =~= record_views(out@) + Seq::<EntryView>::empty());
    out
}

/// The records a log holds, read in order; after a malformed or cut record
/// the reader scans forward to the next offset whose header lengths are
/// plausible and resumes there.
pub fn read_log(buf: &[u8]) -> (r: Vec<WALRecord>)
    ensures
        record_views(r@) == log_records(buf@),
{
    collect_records(buf, true)
}

/// The highest sequence number among the records before the first
/// corruption, or zero: the watermark a log resumes from.
pub fn sequence_watermark(buf: &[u8]) -> (r: u64)
    ensures
        r == max_sequence(intact_records(buf@)),
{
    let records = collect_records(buf, false);
    let ghost rs = record_views(records@);
    let mut max: u64 = 0;
    let mut i: usize = 0;
    while i < records.len()
        invariant
            rs == record_views(records@),
            i <= records@.len(),
            max == max_sequence(rs.take(i as int)),
        decreases records@.len() - i,
    {
        assert(rs.take(i + 1).drop_last() =~= rs.take(i as int));
        if records[i].sequence_number > max {
            max = records[i].sequence_number;
        }
        i = i + 1;
    }
    assert(rs.take(i as int) =~= rs);
    max
}

proof fn lemma_total_size_prefix(s: Seq<EntryView>, j: int)
    requires
        0 <= j <= s.len(),
    ensures
        total_size(s.take(j)) <= total_size(s),
    decreases s.len(),
{
    if j < s.len() {
        assert(s.drop_last().take(j) =~= s.take(j));
        lemma_total_size_prefix(s.drop_last(), j);
    } else {
        assert(s.take(j) =~= s);
    }
}

/// Insert `records` into `memtable` in order, keeping their sequence numbers.
/// Stops at the first record the MemTable rejects (an empty key, or no room)
/// with `WALError::MemTable`; it succeeds exactly when every record is
/// accepted in turn, in particular when every key is non-empty and the
/// table has room for all of them.
pub fn apply_records(records: &Vec<WALRecord>, memtable: &mut MemTable) -> (r: WALResult<usize>)
    requires
        old(memtable).wf(),
    ensures
        final(memtable).wf(),
        final(memtable).max_size() == old(memtable).max_size(),
        all_accepted(
            old(memtable)@,
            old(memtable).size() as int,
            old(memtable).max_size() as int,
            record_views(records@),
        ) <==> r is Ok,
        r matches Ok(n) ==> n == records@.len() && final(memtable)@ == apply_all(
            old(memtable)@,
            record_views(records@),
        ) && final(memtable).size() == size_after_all(
            old(memtable)@,
            old(memtable).size() as int,
            record_views(records@),
        ),
        ((forall|i: int| 0 <= i < records@.len() ==> (#[trigger] records@[i]@).key.len() > 0)
            && old(memtable).size() + total_size(record_views(records@)) <= old(memtable).max_size())
            ==> r is Ok,
        r is Err ==> (r matches Err(WALError::MemTable(_))),
{
    let ghost rs = record_views(records@);
    let ghost m0 = memtable@;
    let ghost size0 = memtable.size();
    let ghost roomy = (forall|i: int| 0 <= i < records@.len() ==> (#[trigger] records@[i]@).key.len() > 0)
        && size0 + total_size(rs) <= memtable.max_size();
    let mut i: usize = 0;
    assert(rs.take(0) =~= Seq::<EntryView>::empty());
    while i < records.len()
        invariant
            rs == record_views(records@),
            size0 == old(memtable).size(),
            m0 == old(memtable)@,
            memtable.wf(),
            memtable.max_size() == old(memtable).max_size(),
            i <= records@.len(),
            memtable@ == apply_all(m0, rs.take(i as int)),
            memtable.size() <= size0 + total_size(rs.take(i as int)),
            memtable.size() == size_after_all(m0, size0 as int, rs.take(i as int)),
            all_accepted(m0, size0 as int, old(memtable).max_size() as int, rs.take(i as int)),
            roomy == ((forall|i: int| 0 <= i < records@.len() ==> (#[trigger] records@[i]@).key.len() > 0)
                && size0 + total_size(rs) <= old(memtable).max_size()),
        decreases records@.len() - i,
    {
        let entry = records[i].to_entry();
        let ghost e = entry@;
        proof {
            assert(rs.take(i + 1).drop_last() =~= rs.take(i as int));
            assert(rs[i as int] == e);
            lemma_total_size_prefix(rs, i + 1);
            if memtable@.contains_key(e.key) {
                memtable.lemma_wf();
                let s = memtable.entry_seq();
                let j = choose|j: int| 0 <= j < s.len() && s[j].key == e.key;
                crate::memtable::lemma_total_size_bounds(s, j);
            }
            if roomy {
                assert(records@[i as int]@.key.len() > 0);
                assert(rs.take(i + 1).last() == e);
                assert(total_size(rs.take(i + 1)) == total_size(rs.take(i as int)) + entry_size(e));
                assert(memtable.size_after(e.key, e.value) <= memtable.size() + entry_size(e));
                assert(memtable.accepts(e.key, e.value));
            }
        }
        proof {
            assert(size_after_all(m0, size0 as int, rs.take(i + 1)) == step_size(
                memtable@,
                memtable.size() as int,
                e,
            ));
        }
        match memtable.insert_entry(entry) {
            Ok(()) => {},
            Err(err) => {
                proof {
                    assert(!all_accepted(m0, size0 as int, old(memtable).max_size() as int, rs.take(i + 1)));
                    if all_accepted(m0, size0 as int, old(memtable).max_size() as int, rs) {
                        lemma_all_accepted_prefix(m0, size0 as int, old(memtable).max_size() as int, rs, i + 1);
                    }
                }
                return Err(WALError::MemTable(err));
            },
        }
        i = i + 1;
    }
    assert(rs.take(i as int) =~= rs);
    Ok(i)
}

/// Replay a log's bytes into `memtable`: the records of [`read_log`],
/// inserted by [`apply_records`]. Returns how many records were applied.
pub fn replay(buf: &[u8], memtable: &mut MemTable) -> (r: WALResult<usize>)
    requires
        old(memtable).wf(),
    ensures
        final(memtable).wf(),
        final(memtable).max_size() == old(memtable).max_size(),
        all_accepted(
            old(memtable)@,
            old(memtable).size() as int,
            old(memtable).max_size() as int,
            log_records(buf@),
        ) <==> r is Ok,
        r matches Ok(n) ==> n == log_records(buf@).len() && final(memtable)@ == apply_all(
            old(memtable)@,
            log_records(buf@),
        ) && final(memtable).size() == size_after_all(
            old(memtable)@,
            old(memtable).size() as int,
            log_records(buf@),
        ),
        ((forall|i: int| 0 <= i < log_records(buf@).len() ==> (#[trigger] log_records(buf@)[i]).key.len()
            > 0) && old(memtable).size() + total_size(log_records(buf@)) <= old(memtable).max_size())
            ==> r is Ok,
        r is Err ==> (r matches Err(WALError::MemTable(_))),
{
    let records = read_log(buf);
    proof {
        let rs = record_views(records@);
        assert forall|i: int| 0 <= i < records@.len() implies (#[trigger] records@[i]@) == rs[i] by {}
    }
    apply_records(&records, memtable)
}

proof fn lemma_records_from_encoded(b: Seq<u8>, p: int, rs: Seq<EntryView>, t: Seq<u8>, resync: bool)
    requires
        0 <= p <= b.len(),
        b.subrange(p, b.len() as int) == encode_log(rs) + t,
        t.len() < 24,
        forall|i: int| 0 <= i < rs.len() ==> loggable(#[trigger] rs[i]),
    ensures
        records_from(b, p, false, resync) == rs,
    decreases rs.len(),
{
    if rs.len() == 0 {
        assert(b.subrange(p, b.len() as int).len() == t.len());
    } else {
        let e = rs[0];
        assert(loggable(rs[0]));
        let eb = entry_bytes(e);
        let n = eb.len() as int;
        assert(encode_log(rs) == eb + encode_log(rs.drop_first()));
        assert((encode_log(rs) + t).len() >= n);
        assert((encode_log(rs) + t).subrange(0, n) =~= eb);
        assert(b.subrange(p, p + n) =~= b.subrange(p, b.len() as int).subrange(0, n));
        lemma_entry_round_trip(b, p, e);
        assert(stored(e) == e);
        assert(complete_at(b, p));
        let rest = rs.drop_first();
        assert forall|i: int| 0 <= i < rest.len() implies loggable(#[trigger] rest[i]) by {
            assert(rest[i] == rs[i + 1]);
        }
        assert(b.subrange(p + n, b.len() as int) =~= (encode_log(rs) + t).subrange(
            n,
            (encode_log(rs) + t).len() as int,
        ));
        assert((encode_log(rs) + t).subrange(n, (encode_log(rs) + t).len() as int) =~= encode_log(rest)
            + t);
        lemma_records_from_encoded(b, p + n, rest, t, resync);
        assert(rs =~= seq![e] + rest);
    }
}

/// Appending a framed record to a log appends it to the log's records.
pub proof fn lemma_encode_log_push(rs: Seq<EntryView>, e: EntryView)
    ensures
        encode_log(rs.push(e)) == encode_log(rs) + entry_bytes(e),
    decreases rs.len(),
{
    if rs.len() == 0 {
        let s = rs.push(e);
        assert(s[0] == e);
        assert(s.drop_first() =~= Seq::<EntryView>::empty());
        assert(encode_log(s.drop_first()) == Seq::<u8>::empty());
        assert(encode_log(s) == entry_bytes(e) + encode_log(s.drop_first()));
        assert(entry_bytes(e) + Seq::<u8>::empty() =~= entry_bytes(e));
        assert(Seq::<u8>::empty() + entry_bytes(e) =~= entry_bytes(e));
    } else {
        assert(rs.push(e).drop_first() =~= rs.drop_first().push(e));
        lemma_encode_log_push(rs.drop_first(), e);
        assert(encode_log(rs.push(e)) =~= encode_log(rs) + entry_bytes(e));
    }
}

/// Write-ahead log round trip: reading back a log written from loggable
/// records gives exactly those records, with or without resynchronisation,
/// so replaying it into a fresh MemTable yields the same entry for every
/// key as inserting the records directly.
pub proof fn lemma_wal_round_trip(rs: Seq<EntryView>)
    requires
        forall|i: int| 0 <= i < rs.len() ==> loggable(#[trigger] rs[i]),
    ensures
        log_records(encode_log(rs)) == rs,
        intact_records(encode_log(rs)) == rs,
        apply_all(Map::empty(), log_records(encode_log(rs))) == apply_all(Map::empty(), rs),
{
    let b = encode_log(rs);
    assert(b.subrange(0, b.len() as int) =~= b + Seq::<u8>::empty());
    lemma_records_from_encoded(b, 0, rs, Seq::empty(), true);
    lemma_records_from_encoded(b, 0, rs, Seq::empty(), false);
}

/// Recovery after a crash: when the log holds any prefix of the committed
/// records, followed by the torn start of a record too short to hold a
/// header, reading it back yields exactly that prefix.
pub proof fn lemma_recovery_after_crash(rs: Seq<EntryView>, n: int, torn: Seq<u8>)
    requires
        forall|i: int| 0 <= i < rs.len() ==> loggable(#[trigger] rs[i]),
        0 <= n <= rs.len(),
        torn.len() < 24,
    ensures
        log_records(encode_log(rs.take(n)) + torn) == rs.take(n),
{
    let p = rs.take(n);
    assert forall|i: int| 0 <= i < p.len() implies loggable(#[trigger] p[i]) by {
        assert(p[i] == rs[i]);
    }
    let b = encode_log(p) + torn;
    assert(b.subrange(0, b.len() as int) =~= b);
    lemma_records_from_encoded(b, 0, p, torn, true);
}

/// Replaying logs one after another is replaying their records in
/// sequence: later records overwrite earlier ones across files too.
pub proof fn lemma_apply_all_concat(m: Map<Seq<u8>, EntryView>, r1: Seq<EntryView>, r2: Seq<EntryView>)
    ensures
        apply_all(apply_all(m, r1), r2) == apply_all(m, r1 + r2),
    decreases r2.len(),
{
    if r2.len() == 0 {
        assert(r1 + r2 =~= r1);
    } else {
        lemma_apply_all_concat(m, r1, r2.drop_last());
        assert((r1 + r2).drop_last() =~= r1 + r2.drop_last());
        assert((r1 + r2).last() == r2.last());
    }
}

} // verus!
