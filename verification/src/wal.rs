//! The write-ahead log: framed, checksummed records of what is about to be done.
use vstd::prelude::*;
use vstd::slice::slice_subrange;
use crate::bytes::{copy_range, opt_view, push_bytes};
use crate::constants::{WalRecordHeader, WalRecordType, WAL_HEADER_SIZE};
use crate::error::{KvdbError, Result};
use crate::storage::{changes, written, Change, FileOp, StoredFile};

verus! {

/// A checksum from which one bit was divided out.
pub open spec fn crc_bit(c: u32) -> u32 {
    if c & 1 == 1 {
        (c >> 1) ^ 0xEDB8_8320
    } else {
        c >> 1
    }
}

/// A checksum from which `n` bits were divided out.
pub open spec fn crc_bits(c: u32, n: nat) -> u32
    decreases n,
{
    if n == 0 {
        c
    } else {
        crc_bit(crc_bits(c, (n - 1) as nat))
    }
}

/// What is left when the bytes were divided by the polynomial, one after the other.
pub open spec fn crc_rest(data: Seq<u8>) -> u32
    decreases data.len(),
{
    if data.len() == 0 {
        0xFFFF_FFFF
    } else {
        crc_bits(crc_rest(data.drop_last()) ^ data.last() as u32, 8)
    }
}

/// The CRC-32 checksum of a run of bytes, the one that gzip and PNG use.
#[verifier::opaque]
pub open spec fn crc32(data: Seq<u8>) -> u32 {
    !crc_rest(data)
}

/// `crc32fast::hash`: the CRC-32 checksum of the bytes of the slice.
pub assume_specification[ crc32fast::hash ](buf: &[u8]) -> (r: u32)
    ensures
        r == crc32(buf@),
;

/// A record of the log.
#[derive(Debug)]
pub struct WalRecord {
    pub record_type: WalRecordType,
    pub key: Vec<u8>,
    pub value: Option<Vec<u8>>,
}

/// The model of a record of the log.
pub struct LogEntry {
    pub kind: WalRecordType,
    pub key: Seq<u8>,
    pub value: Option<Seq<u8>>,
}

impl View for WalRecord {
    type V = LogEntry;

    open spec fn view(&self) -> LogEntry {
        LogEntry {
            kind: self.record_type,
            key: self.key@,
            value: match self.value {
                Some(v) => Some(v@),
                None => None,
            },
        }
    }
}

/// The model of a run of records.
pub open spec fn logged(v: Seq<WalRecord>) -> Seq<LogEntry> {
    Seq::new(v.len(), |i: int| v[i]@)
}

impl LogEntry {
    /// The bytes of the value; a missing value has none.
    pub open spec fn body(self) -> Seq<u8> {
        match self.value {
            Some(v) => v,
            None => Seq::empty(),
        }
    }

    /// The header of the record. It has 16 bits for the length of the key and 32 for that of the
    /// value.
    pub open spec fn header(self, checksum: u32) -> WalRecordHeader {
        WalRecordHeader {
            checksum,
            record_type: self.kind,
            key_len: (self.key.len() % 0x1_0000) as u16,
            value_len: (self.body().len() % 0x1_0000_0000) as u32,
        }
    }

    /// What the checksum of the record covers.
    pub open spec fn covered(self) -> Seq<u8> {
        self.header(0).tail() + self.key + self.body()
    }

    /// The bytes of the record, given its checksum.
    pub open spec fn framed(self, checksum: u32) -> Seq<u8> {
        self.header(checksum).encoded() + self.key + self.body()
    }

    /// The bytes of the record.
    pub open spec fn encoded(self) -> Seq<u8> {
        self.framed(crc32(self.covered()))
    }

    /// How far the log moves on behind the record.
    pub open spec fn step(self) -> int {
        WAL_HEADER_SIZE + self.key.len() + self.body().len() % 0x1_0000_0000
    }

    /// The lengths of the key and the value fit in the header.
    pub open spec fn fits(self) -> bool {
        self.key.len() < 0x1_0000 && self.body().len() < 0x1_0000_0000
    }

    /// The record as it is read back: an empty value is read as a missing one.
    pub open spec fn read_back(self) -> LogEntry {
        LogEntry {
            value: if self.body().len() == 0 {
                None
            } else {
                self.value
            },
            ..self
        }
    }
}

/// The header that stands at `o`.
pub open spec fn header_at(b: Seq<u8>, o: int) -> WalRecordHeader {
    WalRecordHeader::decoded(b.skip(o))
}

/// The end of the record that starts at `o`, if its header is sensible and the record complete.
pub open spec fn frame_end(b: Seq<u8>, o: int) -> Option<int> {
    let h = header_at(b, o);
    let end = o + WAL_HEADER_SIZE + h.key_len + h.value_len;
    if WalRecordType::is_code(b[o + 4]) && end <= b.len() {
        Some(end)
    } else {
        None
    }
}

/// The record that starts at `o`.
pub open spec fn entry_from(b: Seq<u8>, o: int) -> LogEntry {
    let h = header_at(b, o);
    let k = o + WAL_HEADER_SIZE;
    LogEntry {
        kind: h.record_type,
        key: b.subrange(k, k + h.key_len),
        value: if h.value_len > 0 {
            Some(b.subrange(k + h.key_len, k + h.key_len + h.value_len))
        } else {
            None
        },
    }
}

/// The records from `o` on to `limit`. What is too short for a header ends the log; a record that
/// is not complete, or does not match its checksum, spoils it.
pub open spec fn read_from(b: Seq<u8>, o: int, limit: int) -> Option<Seq<LogEntry>>
    decreases
        (if o < limit {
            limit - o
        } else {
            0
        }),
{
    if o >= limit || b.len() - o < WAL_HEADER_SIZE {
        Some(Seq::empty())
    } else {
        match frame_end(b, o) {
            None => None,
            Some(end) => if crc32(b.subrange(o + 4, end)) != header_at(b, o).checksum {
                None
            } else {
                match read_from(b, end, limit) {
                    None => None,
                    Some(rest) => Some(seq![entry_from(b, o)] + rest),
                }
            },
        }
    }
}

/// Puts a record together, given its checksum.
pub fn frame(record_type: WalRecordType, key: &[u8], value: Option<&[u8]>, checksum: u32) -> (v:
    Vec<u8>)
    requires
        WAL_HEADER_SIZE + key@.len() + (LogEntry {
            kind: record_type,
            key: key@,
            value: opt_view(value),
        }).body().len() <= usize::MAX,
    ensures
        v@ == (LogEntry { kind: record_type, key: key@, value: opt_view(value) }).framed(checksum),
        v@.skip(4) == (LogEntry {
            kind: record_type,
            key: key@,
            value: opt_view(value),
        }).covered(),
        v@.len() == WAL_HEADER_SIZE + key@.len() + (LogEntry {
            kind: record_type,
            key: key@,
            value: opt_view(value),
        }).body().len(),
{
    let ghost e = LogEntry { kind: record_type, key: key@, value: opt_view(value) };
    let value_len: u32 = match value {
        Some(v) => (v.len() as u64 % 0x1_0000_0000) as u32,
        None => 0,
    };
    let header = WalRecordHeader {
        checksum,
        record_type,
        key_len: (key.len() % 0x1_0000) as u16,
        value_len,
    };
    assert(header == e.header(checksum));
    let mut buf = header.as_bytes();
    let ghost b0 = buf@;
    push_bytes(&mut buf, key);
    if let Some(v) = value {
        push_bytes(&mut buf, v);
    }
    proof {
        assert(buf@ =~= e.framed(checksum));
        assert(b0.subrange(4, WAL_HEADER_SIZE as int) =~= b0.skip(4));
        assert(buf@.skip(4) =~= e.covered());
    }
    buf
}

/// Takes a record out of the log, given the checksum of what its own checksum covers.
pub fn take_record(log: &[u8], o: usize, end: usize, computed: u32) -> (r: Result<WalRecord>)
    requires
        o + WAL_HEADER_SIZE <= log@.len(),
        frame_end(log@, o as int) == Some(end as int),
    ensures
        match r {
            Ok(rec) => computed == header_at(log@, o as int).checksum && rec@ == entry_from(
                log@,
                o as int,
            ),
            Err(e) => computed != header_at(log@, o as int).checksum && e is WalCorrupted,
        },
{
    let rest = slice_subrange(log, o, log.len());
    assert(rest@ =~= log@.skip(o as int));
    let header = WalRecordHeader::from_bytes(rest);
    if computed != header.checksum {
        return Err(KvdbError::WalCorrupted);
    }
    let k: usize = o + WAL_HEADER_SIZE;
    let v: usize = k + header.key_len as usize;
    let key = copy_range(log, k, v);
    let value = if header.value_len > 0 {
        Some(copy_range(log, v, end))
    } else {
        None
    };
    Ok(WalRecord { record_type: header.record_type, key, value })
}

/// Where the record that starts at `o` ends.
fn find_end(log: &[u8], o: usize) -> (r: Option<usize>)
    requires
        o + WAL_HEADER_SIZE <= log@.len(),
    ensures
        match r {
            Some(end) => frame_end(log@, o as int) == Some(end as int),
            None => frame_end(log@, o as int) is None,
        },
{
    let rest = slice_subrange(log, o, log.len());
    assert(rest@ =~= log@.skip(o as int));
    if rest[4] < 1 || rest[4] > 4 {
        return None;
    }
    let header = WalRecordHeader::from_bytes(rest);
    let left: usize = log.len() - o - WAL_HEADER_SIZE;
    let key_len: usize = header.key_len as usize;
    if left < key_len || ((left - key_len) as u64) < header.value_len as u64 {
        return None;
    }
    Some(o + WAL_HEADER_SIZE + key_len + header.value_len as usize)
}

/// Write-Ahead Log for crash recovery.
pub struct Wal {
    file: StoredFile,
    file_path: String,
    current_offset: u64,
}

impl Wal {
    /// What the log file holds once the pending changes are carried out.
    pub closed spec fn bytes(&self) -> Seq<u8> {
        self.file.bytes()
    }

    /// The changes to the log file that are still to be carried out.
    pub closed spec fn pending(&self) -> Seq<Change> {
        self.file.pending()
    }

    /// Where the next record goes.
    pub closed spec fn offset(&self) -> int {
        self.current_offset as int
    }

    /// The path of the log file.
    pub closed spec fn path(&self) -> Seq<char> {
        self.file_path@
    }

    /// The records of the log, unless it is spoiled.
    pub open spec fn records(&self) -> Option<Seq<LogEntry>> {
        read_from(self.bytes(), 0, self.offset())
    }

    /// The log of the database at the path, given what its file holds.
    pub fn new(db_path: &str, contents: Vec<u8>) -> (r: Result<Self>)
        ensures
            r matches Ok(w) && w.bytes() == contents@ && w.offset() == contents@.len()
                && w.pending() == Seq::<Change>::empty() && w.path() == db_path@ + ".wal"@,
    {
        let mut file_path = db_path.to_owned();
        file_path.append(".wal");
        let current_offset: u64 = contents.len() as u64;
        Ok(Wal { file: StoredFile::new(contents), file_path, current_offset })
    }

    fn append_record(
        &mut self,
        record_type: WalRecordType,
        key: &[u8],
        value: Option<&[u8]>,
    ) -> (r: Result<()>)
        requires
            old(self).has_room(
                (LogEntry { kind: record_type, key: key@, value: opt_view(value) }),
            ),
        ensures
            r is Ok,
            final(self).appended(
                old(self),
                (LogEntry { kind: record_type, key: key@, value: opt_view(value) }),
            ),
    {
        let mut buf = frame(record_type, key, value, 0);
        // Compute checksum
        let covered = slice_subrange(buf.as_slice(), 4, buf.len());
        assert(covered@ =~= buf@.skip(4));
        let checksum = crc32fast::hash(covered);
        buf = frame(record_type, key, value, checksum);
        self.file.write_at(self.current_offset, buf.as_slice());
        let value_len: u64 = match value {
            Some(v) => v.len() as u64 % 0x1_0000_0000,
            None => 0,
        };
        self.current_offset = self.current_offset + (WAL_HEADER_SIZE as u64 + key.len() as u64
            + value_len);
        Ok(())
    }

    /// Memory holds the log with the record, and a value whose length does not fit in the header
    /// is not mistaken for a short one.
    pub open spec fn has_room(&self, e: LogEntry) -> bool {
        &&& self.offset() + WAL_HEADER_SIZE + e.key.len() + e.body().len() <= usize::MAX
        &&& e.body().len() < 0x1_0000_0000 || e.step() > 2048
    }

    /// The record was written where the log ended.
    pub open spec fn appended(&self, before: &Wal, e: LogEntry) -> bool {
        &&& self.bytes() == written(before.bytes(), before.offset(), e.encoded())
        &&& self.offset() == before.offset() + e.step()
        &&& self.pending() == before.pending().push(Change::Write(before.offset(), e.encoded()))
        &&& self.path() == before.path()
    }

    /// Force sync WAL to disk.
    pub fn sync(&mut self) -> (r: Result<()>)
        ensures
            r is Ok,
            final(self).bytes() == old(self).bytes(),
            final(self).offset() == old(self).offset(),
            final(self).path() == old(self).path(),
            final(self).pending() == old(self).pending().push(Change::Sync),
    {
        self.file.sync();
        Ok(())
    }

    pub fn log_insert(&mut self, key: &[u8], value: &[u8]) -> (r: Result<()>)
        requires
            old(self).has_room(insert_record(key@, value@)),
        ensures
            r is Ok,
            final(self).appended(old(self), insert_record(key@, value@)),
    {
        self.append_record(WalRecordType::Insert, key, Some(value))
    }

    pub fn log_delete(&mut self, key: &[u8]) -> (r: Result<()>)
        requires
            old(self).has_room(delete_record(key@)),
        ensures
            r is Ok,
            final(self).appended(old(self), delete_record(key@)),
    {
        self.append_record(WalRecordType::Delete, key, None)
    }

    pub fn log_commit(&mut self) -> (r: Result<()>)
        requires
            old(self).has_room(commit_record()),
        ensures
            r is Ok,
            final(self).appended(old(self), commit_record()),
    {
        let none: Vec<u8> = Vec::new();
        assert(none@ =~= Seq::<u8>::empty());
        self.append_record(WalRecordType::Commit, none.as_slice(), None)
    }

    pub fn log_abort(&mut self) -> (r: Result<()>)
        requires
            old(self).has_room(abort_record()),
        ensures
            r is Ok,
            final(self).appended(old(self), abort_record()),
    {
        let none: Vec<u8> = Vec::new();
        assert(none@ =~= Seq::<u8>::empty());
        self.append_record(WalRecordType::Abort, none.as_slice(), None)
    }

    /// Read all records from the WAL.
    pub fn read_all(&mut self) -> (r: Result<Vec<WalRecord>>)
        ensures
            *final(self) == *old(self),
            match r {
                Ok(v) => old(self).records() == Some(logged(v@)),
                Err(e) => old(self).records() is None && e is WalCorrupted,
            },
    {
        let mut records: Vec<WalRecord> = Vec::new();
        let log = self.file.contents().as_slice();
        let ghost b = log@;
        let limit: u64 = self.current_offset;
        let mut offset: usize = 0;
        assert(logged(records@) =~= Seq::<LogEntry>::empty());
        proof {
            let r = read_from(b, 0, limit as int);
            if let Some(s) = r {
                assert(Seq::<LogEntry>::empty() + s =~= s);
            }
        }
        while (offset as u64) < limit
            invariant_except_break
                continued(
                    logged(records@),
                    read_from(b, offset as int, limit as int),
                ) == read_from(b, 0, limit as int),
            invariant
                b == log@,
                offset <= b.len(),
                *self == *old(self),
                b == self.bytes(),
                limit == self.offset(),
            ensures
                read_from(b, 0, limit as int) == Some(logged(records@)),
            decreases b.len() - offset,
        {
            if log.len() - offset < WAL_HEADER_SIZE {
                assert(logged(records@) + Seq::<LogEntry>::empty() =~= logged(records@));
                break;
            }
            let end = match find_end(log, offset) {
                Some(end) => end,
                None => {
                    return Err(KvdbError::WalCorrupted);
                },
            };
            // Verify checksum
            let covered = slice_subrange(log, offset + 4, end);
            let computed = crc32fast::hash(covered);
            let record = match take_record(log, offset, end, computed) {
                Ok(record) => record,
                Err(e) => {
                    return Err(e);
                },
            };
            let ghost done = logged(records@);
            proof {
                let e = entry_from(b, offset as int);
                if let Some(rest) = read_from(b, end as int, limit as int) {
                    assert(done + (seq![e] + rest) =~= done.push(e) + rest);
                }
            }
            records.push(record);
            assert(logged(records@) =~= done.push(entry_from(b, offset as int)));
            offset = end;
            proof {
                if offset >= limit {
                    assert(logged(records@) + Seq::<LogEntry>::empty() =~= logged(records@));
                }
            }
        }
        proof {
            assert(logged(records@) + Seq::<LogEntry>::empty() =~= logged(records@));
        }
        Ok(records)
    }

    /// Clear the WAL.
    pub fn clear(&mut self) -> (r: Result<()>)
        ensures
            r is Ok,
            final(self).bytes() == Seq::<u8>::empty(),
            final(self).offset() == 0,
            final(self).path() == old(self).path(),
            final(self).pending() == old(self).pending().push(Change::SetLen(0)),
    {
        self.file.set_len(0);
        self.current_offset = 0;
        assert(self.bytes() =~= Seq::<u8>::empty());
        Ok(())
    }

    pub fn file_path(&self) -> (p: &str)
        ensures
            p@ == self.path(),
    {
        self.file_path.as_str()
    }

    /// Where the next record goes.
    pub fn end(&self) -> (o: u64)
        ensures
            o == self.offset(),
    {
        self.current_offset
    }

    /// What the log file holds once the pending changes are carried out.
    pub fn contents(&self) -> (b: &Vec<u8>)
        ensures
            b@ == self.bytes(),
    {
        self.file.contents()
    }

    /// Hands the pending changes over to the one who carries them out.
    pub fn take_pending(&mut self) -> (v: Vec<FileOp>)
        ensures
            changes(v@) == old(self).pending(),
            final(self).bytes() == old(self).bytes(),
            final(self).offset() == old(self).offset(),
            final(self).path() == old(self).path(),
            final(self).pending() == Seq::<Change>::empty(),
    {
        self.file.take_pending()
    }
}

/// The record of a key that is bound.
pub open spec fn insert_record(k: Seq<u8>, v: Seq<u8>) -> LogEntry {
    LogEntry { kind: WalRecordType::Insert, key: k, value: Some(v) }
}

/// The record of a key that is taken out.
pub open spec fn delete_record(k: Seq<u8>) -> LogEntry {
    LogEntry { kind: WalRecordType::Delete, key: k, value: None }
}

/// The record that ends a transaction that counts.
pub open spec fn commit_record() -> LogEntry {
    LogEntry { kind: WalRecordType::Commit, key: Seq::empty(), value: None }
}

/// The record that ends a transaction that does not count.
pub open spec fn abort_record() -> LogEntry {
    LogEntry { kind: WalRecordType::Abort, key: Seq::empty(), value: None }
}

/// Records that were read, with those that follow.
pub open spec fn continued(done: Seq<LogEntry>, rest: Option<Seq<LogEntry>>) -> Option<
    Seq<LogEntry>,
> {
    match rest {
        Some(r) => Some(done + r),
        None => None,
    }
}

} // verus!
