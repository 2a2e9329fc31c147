//! How numbers, records of the log, pairs of an export and metadata are laid out, byte by byte.
use vstd::prelude::*;
use crate::bytes::{enc16, enc32, enc64, le16, le32, le64, lemma_enc16, lemma_enc32, lemma_enc64};
use crate::constants::{MetaData, PageId, WalRecordType};
use crate::entries::Entry;
use crate::export::{export_bytes, pair_bytes, run_bytes};
use crate::node::{child_at, entries_of, node_kind};
use crate::pager::file_pages;
use crate::wal::{crc32, LogEntry};

verus! {

/// Numbers are written with the least significant byte first.
pub proof fn law_little_endian(x: u16, y: u32, z: u64)
    ensures
        enc16(x).len() == 2,
        x == enc16(x)[0] + 256 * enc16(x)[1],
        enc32(y).len() == 4,
        y == enc32(y)[0] + 256 * enc32(y)[1] + 65536 * enc32(y)[2] + 16777216 * enc32(y)[3],
        enc64(z).len() == 8,
        z == enc64(z)[0] + 256 * enc64(z)[1] + 65536 * enc64(z)[2] + 16777216 * enc64(z)[3]
            + 0x1_0000_0000 * (enc64(z)[4] + 256 * enc64(z)[5] + 65536 * enc64(z)[6] + 16777216
            * enc64(z)[7]),
{
    lemma_enc16(x);
    lemma_enc32(y);
    lemma_enc64(z);
    reveal(le16);
    reveal(le32);
    reveal(le64);
}

/// Bytes are read as numbers with the least significant byte first.
pub proof fn law_read_little_endian(s: Seq<u8>, o: int)
    ensures
        le16(s, o) == s[o] + 256 * s[o + 1],
        le32(s, o) == s[o] + 256 * s[o + 1] + 65536 * s[o + 2] + 16777216 * s[o + 3],
        le64(s, o) == le32(s, o) + 0x1_0000_0000 * le32(s, o + 4),
{
    reveal(le16);
    reveal(le32);
    reveal(le64);
}

/// A record of the log: its checksum, which covers all that follows, a byte for what it records,
/// the lengths of the key and the value, and both.
pub proof fn law_record_layout(e: LogEntry)
    requires
        e.fits(),
    ensures
        ({
            let x = e.encoded();
            let k = e.key.len() as int;
            let v = e.body().len() as int;
            &&& x.len() == 11 + k + v
            &&& x[0] + 256 * x[1] + 65536 * x[2] + 16777216 * x[3] == crc32(x.skip(4))
            &&& x[4] == (match e.kind {
                WalRecordType::Insert => 1u8,
                WalRecordType::Delete => 2u8,
                WalRecordType::Commit => 3u8,
                WalRecordType::Abort => 4u8,
            })
            &&& x[5] + 256 * x[6] == k
            &&& x[7] + 256 * x[8] + 65536 * x[9] + 16777216 * x[10] == v
            &&& x.subrange(11, 11 + k) == e.key
            &&& x.subrange(11 + k, 11 + k + v) == e.body()
        }),
{
    let x = e.encoded();
    let c = crc32(e.covered());
    let kl = (e.key.len() % 0x1_0000) as u16;
    let vl = (e.body().len() % 0x1_0000_0000) as u32;
    law_little_endian(kl, c, 0);
    law_little_endian(kl, vl, 0);
    assert(x.skip(4) =~= e.covered());
    assert(x.subrange(11, 11 + e.key.len() as int) =~= e.key);
    assert(x.subrange(11 + e.key.len() as int, x.len() as int) =~= e.body());
    assert(x[5] == enc16(kl)[0] && x[6] == enc16(kl)[1]);
    assert(x[7] == enc32(vl)[0] && x[8] == enc32(vl)[1] && x[9] == enc32(vl)[2] && x[10] == enc32(
        vl,
    )[3]);
}

/// An export starts with a text of eight letters and the version; then follow the pairs, each with
/// the lengths of its key and its value, and both.
pub proof fn law_export_layout(es: Seq<Entry>, e: Entry)
    requires
        e.0.len() < 0x1_0000,
        e.1.len() < 0x1_0000_0000,
    ensures
        export_bytes(Seq::empty()) == seq![
            0x54u8,
            0x4B,
            0x44,
            0x42,
            0x5F,
            0x45,
            0x58,
            0x50,
            1,
            0,
            0,
            0,
        ],
        ({
            let b = export_bytes(es);
            let x = export_bytes(es.push(e));
            let o = b.len() as int;
            let k = e.0.len() as int;
            let v = e.1.len() as int;
            &&& x.len() == o + 6 + k + v
            &&& x.take(o) == b
            &&& x[o] + 256 * x[o + 1] == k
            &&& x[o + 2] + 256 * x[o + 3] + 65536 * x[o + 4] + 16777216 * x[o + 5] == v
            &&& x.subrange(o + 6, o + 6 + k) == e.0
            &&& x.subrange(o + 6 + k, o + 6 + k + v) == e.1
        }),
{
    let b = export_bytes(es);
    let x = export_bytes(es.push(e));
    let p = pair_bytes(e);
    let o = b.len() as int;
    let kl = (e.0.len() % 0x1_0000) as u16;
    let vl = (e.1.len() % 0x1_0000_0000) as u32;
    law_little_endian(kl, vl, 0);
    law_little_endian(0, 1, 0);
    assert(es.push(e).drop_last() =~= es);
    assert(x =~= b + p);
    assert(x.take(o) =~= b);
    assert(x[o] == p[0] && x[o + 1] == p[1]);
    assert(x[o + 2] == p[2] && x[o + 3] == p[3] && x[o + 4] == p[4] && x[o + 5] == p[5]);
    assert(p[0] == enc16(kl)[0] && p[1] == enc16(kl)[1]);
    assert(p[2] == enc32(vl)[0] && p[3] == enc32(vl)[1] && p[4] == enc32(vl)[2] && p[5] == enc32(
        vl,
    )[3]);
    assert(x.subrange(o + 6, o + 6 + e.0.len() as int) =~= e.0);
    assert(x.subrange(o + 6 + e.0.len() as int, x.len() as int) =~= e.1);
    assert(run_bytes(Seq::empty()) =~= Seq::<u8>::empty());
    let h = export_bytes(Seq::empty());
    assert(h.len() == 12);
    assert(h[8] == enc32(1)[0] && h[9] == enc32(1)[1] && h[10] == enc32(1)[2] && h[11] == enc32(
        1,
    )[3]);
}

/// The metadata: mark, version, page size, root page, first free page, last page and an offset.
pub proof fn law_metadata_layout(m: MetaData)
    ensures
        m.encoded().len() == 48,
        m.encoded().subrange(0, 8) == enc64(m.magic),
        m.encoded().subrange(8, 12) == enc32(m.version),
        m.encoded().subrange(12, 16) == enc32(m.page_size),
        m.encoded().subrange(16, 24) == enc64(m.root_page),
        m.encoded().subrange(24, 32) == enc64(m.freelist_page),
        m.encoded().subrange(32, 40) == enc64(m.last_page_id),
        m.encoded().subrange(40, 48) == enc64(m.wal_offset),
{
    let x = m.encoded();
    lemma_enc64(m.magic);
    lemma_enc32(m.version);
    lemma_enc32(m.page_size);
    lemma_enc64(m.root_page);
    lemma_enc64(m.freelist_page);
    lemma_enc64(m.last_page_id);
    lemma_enc64(m.wal_offset);
    assert(x.subrange(0, 8) =~= enc64(m.magic));
    assert(x.subrange(8, 12) =~= enc32(m.version));
    assert(x.subrange(12, 16) =~= enc32(m.page_size));
    assert(x.subrange(16, 24) =~= enc64(m.root_page));
    assert(x.subrange(24, 32) =~= enc64(m.freelist_page));
    assert(x.subrange(32, 40) =~= enc64(m.last_page_id));
    assert(x.subrange(40, 48) =~= enc64(m.wal_offset));
}

/// A node page: a byte for whether it is a leaf, the number of keys, and behind five bytes another
/// eight for each key, which tell where it and its value stand and how long they are. The numbers
/// of the children stand at the end of the page.
pub proof fn law_page_layout(p: Seq<u8>, i: int)
    requires
        p.len() == 4096,
        0 <= i < 64,
    ensures
        p[0] == 1 ==> node_kind(p) is Leaf,
        p[0] == 2 ==> node_kind(p) is Internal,
        entries_of(p).len() == p[1] + 256 * p[2],
        i < entries_of(p).len() ==> ({
            let o = 5 + 8 * i;
            let k = p[o] + 256 * p[o + 1];
            let v = p[o + 4] + 256 * p[o + 5];
            entries_of(p)[i] == (
                p.subrange(k, k + p[o + 2] + 256 * p[o + 3]),
                p.subrange(v, v + p[o + 6] + 256 * p[o + 7]),
            )
        }),
        child_at(p, i) == le64(p, 4096 - 520 + 8 * i),
{
    reveal(le16);
}

/// A page of a file is the run of 4096 bytes at its place; what the file lacks of it is zero.
pub proof fn law_page_of_file(b: Seq<u8>, id: PageId, j: int)
    requires
        0 <= j < 4096,
    ensures
        file_pages(b)[id].len() == 4096,
        file_pages(b)[id][j] == (if 4096 * id + j < b.len() {
            b[4096 * id + j]
        } else {
            0u8
        }),
{
}

} // verus!
