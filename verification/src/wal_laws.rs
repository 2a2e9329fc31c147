//! What was written to the log is read back from it.
use vstd::prelude::*;
use crate::constants::WAL_HEADER_SIZE;
use crate::storage::written;
use crate::wal::{continued, crc32, entry_from, frame_end, header_at, read_from, LogEntry, Wal};

verus! {

/// The bytes of a run of records, one behind the other.
pub open spec fn log_bytes(rs: Seq<LogEntry>) -> Seq<u8>
    decreases rs.len(),
{
    if rs.len() == 0 {
        Seq::empty()
    } else {
        log_bytes(rs.drop_last()) + rs.last().encoded()
    }
}

/// The lengths of all keys and values fit in the headers of their records.
pub open spec fn all_fit(rs: Seq<LogEntry>) -> bool {
    forall|i: int| 0 <= i < rs.len() ==> (#[trigger] rs[i]).fits()
}

/// The records as they are read back.
pub open spec fn read_back(rs: Seq<LogEntry>) -> Seq<LogEntry> {
    Seq::new(rs.len(), |i: int| rs[i].read_back())
}

/// The log holds the records and nothing else.
pub open spec fn holds_log(w: &Wal, rs: Seq<LogEntry>) -> bool {
    w.bytes() == log_bytes(rs) && w.offset() == w.bytes().len()
}

/// A record that stands in the log is found there.
proof fn lemma_record_at(b: Seq<u8>, o: int, e: LogEntry, c: u32)
    requires
        e.fits(),
        0 <= o,
        o + e.framed(c).len() <= b.len(),
        b.subrange(o, o + e.framed(c).len()) == e.framed(c),
    ensures
        e.framed(c).len() == e.step(),
        header_at(b, o) == e.header(c),
        frame_end(b, o) == Some(o + e.step()),
        b.subrange(o + 4, o + e.step()) == e.covered(),
        entry_from(b, o) == e.read_back(),
{
    let h = e.header(c);
    let x = e.framed(c);
    h.lemma_encoded_len();
    let s = b.skip(o);
    assert(x.len() == WAL_HEADER_SIZE + e.key.len() + e.body().len());
    assert forall|j: int| 0 <= j < x.len() implies s[j] == x[j] by {
        assert(b.subrange(o, o + x.len())[j] == x[j]);
    }
    assert(s.subrange(0, WAL_HEADER_SIZE as int) =~= h.encoded());
    h.lemma_decoded(s);
    assert(s[4] == b[o + 4]);
    let k = o + WAL_HEADER_SIZE;
    assert(b.subrange(k, k + e.key.len()) =~= e.key) by {
        assert forall|j: int| 0 <= j < e.key.len() implies b[k + j] == e.key[j] by {
            assert(s[WAL_HEADER_SIZE + j] == x[WAL_HEADER_SIZE + j]);
        }
    }
    let v = k + e.key.len();
    assert(b.subrange(v, v + e.body().len()) =~= e.body()) by {
        assert forall|j: int| 0 <= j < e.body().len() implies b[v + j] == e.body()[j] by {
            assert(s[WAL_HEADER_SIZE + e.key.len() + j] == x[WAL_HEADER_SIZE + e.key.len() + j]);
        }
    }
    assert(b.subrange(o + 4, o + e.step()) =~= e.covered()) by {
        let t = s.subrange(4, WAL_HEADER_SIZE as int);
        assert(t == h.tail());
        assert(h.tail() == e.header(0).tail());
        assert forall|j: int| 0 <= j < e.covered().len() implies b[o + 4 + j] == e.covered()[j] by {
            assert(s[4 + j] == x[4 + j]);
            if j < 7 {
                assert(t[j] == s[4 + j]);
            }
        }
    }
    match e.value {
        Some(val) => {
            assert(e.body() == val);
        },
        None => {},
    }
}

/// Reading a log that starts with complete records: they come first, as they were written.
proof fn lemma_read_start(rs: Seq<LogEntry>, b: Seq<u8>, limit: int)
    requires
        all_fit(rs),
        log_bytes(rs).len() <= limit <= b.len(),
        b.subrange(0, log_bytes(rs).len() as int) == log_bytes(rs),
    ensures
        read_from(b, 0, limit) == continued(
            read_back(rs),
            read_from(b, log_bytes(rs).len() as int, limit),
        ),
    decreases rs.len(),
{
    if rs.len() == 0 {
        if let Some(r) = read_from(b, 0, limit) {
            assert(read_back(rs) + r =~= r);
        }
    } else {
        let qs = rs.drop_last();
        let e = rs.last();
        let o = log_bytes(qs).len() as int;
        let n = log_bytes(rs).len() as int;
        assert(all_fit(qs)) by {
            assert forall|i: int| 0 <= i < qs.len() implies (#[trigger] qs[i]).fits() by {
                assert(qs[i] == rs[i]);
            }
        }
        assert(b.subrange(0, o) =~= log_bytes(qs)) by {
            assert forall|j: int| 0 <= j < o implies b[j] == log_bytes(qs)[j] by {
                assert(b.subrange(0, n)[j] == log_bytes(rs)[j]);
            }
        }
        lemma_read_start(qs, b, limit);
        assert(b.subrange(o, n) =~= e.encoded()) by {
            assert forall|j: int| 0 <= j < e.encoded().len() implies b[o + j]
                == e.encoded()[j] by {
                assert(b.subrange(0, n)[o + j] == log_bytes(rs)[o + j]);
            }
        }
        assert(e.fits()) by {
            assert(rs[rs.len() - 1] == e);
        }
        lemma_record_at(b, o, e, crc32(e.covered()));
        let rest = read_from(b, n, limit);
        if let Some(r) = rest {
            assert(read_back(qs) + (seq![e.read_back()] + r) =~= read_back(rs) + r);
        }
    }
}

/// What was logged is read back, but that an empty value is read as a missing one. A start of a
/// header behind the records, as a crash leaves it, does not matter.
pub proof fn law_log_round_trip(rs: Seq<LogEntry>, tail: Seq<u8>)
    requires
        all_fit(rs),
        tail.len() < WAL_HEADER_SIZE,
    ensures
        read_from(
            log_bytes(rs) + tail,
            0,
            (log_bytes(rs) + tail).len() as int,
        ) == Some(read_back(rs)),
{
    let b = log_bytes(rs) + tail;
    assert(b.subrange(0, log_bytes(rs).len() as int) =~= log_bytes(rs));
    lemma_read_start(rs, b, b.len() as int);
    assert(read_back(rs) + Seq::<LogEntry>::empty() =~= read_back(rs));
}

/// A log whose last record lacks bytes of its key or value is rejected.
pub proof fn law_truncated_log(rs: Seq<LogEntry>, e: LogEntry, n: int)
    requires
        all_fit(rs),
        e.fits(),
        WAL_HEADER_SIZE <= n < e.encoded().len(),
    ensures
        read_from(
            log_bytes(rs) + e.encoded().take(n),
            0,
            (log_bytes(rs) + e.encoded().take(n)).len() as int,
        ) is None,
{
    let o = log_bytes(rs).len() as int;
    let x = e.encoded();
    let b = log_bytes(rs) + x.take(n);
    assert(b.subrange(0, o) =~= log_bytes(rs));
    lemma_read_start(rs, b, b.len() as int);
    let h = e.header(crc32(e.covered()));
    h.lemma_encoded_len();
    let s = b.skip(o);
    assert(s.subrange(0, WAL_HEADER_SIZE as int) =~= h.encoded());
    h.lemma_decoded(s);
}

/// A log with a record that does not match its checksum is rejected, whatever follows.
pub proof fn law_wrong_checksum(rs: Seq<LogEntry>, e: LogEntry, c: u32, rest: Seq<u8>)
    requires
        all_fit(rs),
        e.fits(),
        c != crc32(e.covered()),
    ensures
        read_from(
            log_bytes(rs) + e.framed(c) + rest,
            0,
            (log_bytes(rs) + e.framed(c) + rest).len() as int,
        ) is None,
{
    let o = log_bytes(rs).len() as int;
    let b = log_bytes(rs) + e.framed(c) + rest;
    assert(b.subrange(0, o) =~= log_bytes(rs));
    lemma_read_start(rs, b, b.len() as int);
    assert(b.subrange(o, o + e.framed(c).len()) =~= e.framed(c));
    lemma_record_at(b, o, e, c);
}

/// A log in which a record begins that is none of the four is rejected, whatever follows.
pub proof fn law_unknown_record(rs: Seq<LogEntry>, rest: Seq<u8>)
    requires
        all_fit(rs),
        rest.len() >= 11,
        rest[4] < 1 || rest[4] > 4,
    ensures
        read_from(log_bytes(rs) + rest, 0, (log_bytes(rs) + rest).len() as int) is None,
{
    let o = log_bytes(rs).len() as int;
    let b = log_bytes(rs) + rest;
    assert(b.subrange(0, o) =~= log_bytes(rs));
    lemma_read_start(rs, b, b.len() as int);
    assert(b[o + 4] == rest[4]);
}

/// A write at the end of a file appends to it.
pub proof fn lemma_written_end(b: Seq<u8>, d: Seq<u8>)
    ensures
        written(b, b.len() as int, d) == b + d,
{
    if d.len() == 0 {
        assert(b + d =~= b);
    } else {
        assert(written(b, b.len() as int, d) =~= b + d);
    }
}

/// A record that is written where the log ends joins the others.
pub proof fn lemma_joins_log(before: &Wal, bytes: Seq<u8>, rs: Seq<LogEntry>, e: LogEntry)
    requires
        holds_log(before, rs),
        bytes == written(before.bytes(), before.offset(), e.encoded()),
        e.fits(),
    ensures
        bytes == log_bytes(rs.push(e)),
        before.offset() + e.step() == bytes.len(),
{
    assert(rs.push(e).drop_last() =~= rs);
    lemma_written_end(before.bytes(), e.encoded());
    e.header(crc32(e.covered())).lemma_encoded_len();
}

/// Logging a record adds it to the log, and the log is read back with it.
pub proof fn law_appended(before: &Wal, after: &Wal, rs: Seq<LogEntry>, e: LogEntry)
    requires
        holds_log(before, rs),
        after.appended(before, e),
        e.fits(),
    ensures
        holds_log(after, rs.push(e)),
        all_fit(rs) ==> after.records() == Some(read_back(rs.push(e))),
{
    let qs = rs.push(e);
    lemma_joins_log(before, after.bytes(), rs, e);
    if all_fit(rs) {
        assert(all_fit(qs)) by {
            assert forall|i: int| 0 <= i < qs.len() implies (#[trigger] qs[i]).fits() by {
                if i < rs.len() {
                    assert(qs[i] == rs[i]);
                }
            }
        }
        law_log_round_trip(qs, Seq::empty());
        assert(log_bytes(qs) + Seq::<u8>::empty() =~= log_bytes(qs));
    }
}

/// A cleared log holds no records.
pub proof fn law_cleared(w: &Wal)
    requires
        w.bytes() == Seq::<u8>::empty(),
        w.offset() == 0,
    ensures
        holds_log(w, Seq::empty()),
        w.records() == Some(Seq::<LogEntry>::empty()),
{
}

} // verus!
