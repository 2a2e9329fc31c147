//! The portable format of an exported database: a header, then the pairs, one behind the other.
use vstd::prelude::*;
use crate::bytes::{
    copy_range, enc16, enc32, le16, le32, lemma_enc16, lemma_enc32, lemma_le_window, push_bytes,
    push_u16, push_u32, read_u16, read_u32,
};
use crate::constants::{MAX_KEY_SIZE, MAX_VALUE_SIZE};
use crate::entries::Entry;
use crate::error::{invalid_argument, io_error, KvdbError, Result};
use crate::shape::storable;

verus! {

/// The text "TKDB_EXP".
pub open spec fn export_magic() -> Seq<u8> {
    seq![0x54, 0x4B, 0x44, 0x42, 0x5F, 0x45, 0x58, 0x50]
}

/// The version of the format.
pub const EXPORT_VERSION: u32 = 1;

/// Size of the header: the text and the version.
pub const EXPORT_HEADER_SIZE: usize = 12;

/// What starts an export.
pub open spec fn export_header() -> Seq<u8> {
    export_magic() + enc32(EXPORT_VERSION)
}

/// The bytes of a pair: the lengths of key and value, then both.
pub open spec fn pair_bytes(e: Entry) -> Seq<u8> {
    enc16((e.0.len() % 0x1_0000) as u16) + enc32((e.1.len() % 0x1_0000_0000) as u32) + e.0 + e.1
}

/// The bytes of a run of pairs.
pub open spec fn run_bytes(s: Seq<Entry>) -> Seq<u8>
    decreases s.len(),
{
    if s.len() == 0 {
        Seq::empty()
    } else {
        run_bytes(s.drop_last()) + pair_bytes(s.last())
    }
}

/// The export of the pairs.
pub open spec fn export_bytes(s: Seq<Entry>) -> Seq<u8> {
    export_header() + run_bytes(s)
}

/// What stands at a place of an export.
pub enum Item {
    /// Nothing more.
    End,
    /// A part of a pair.
    Short,
    /// Lengths that no pair has.
    BadSize,
    /// A pair, and the place behind it.
    Pair(Seq<u8>, Seq<u8>, int),
}

/// What stands at `o`.
pub open spec fn item_at(b: Seq<u8>, o: int) -> Item {
    let k = le16(b, o) as int;
    let v = le32(b, o + 2) as int;
    if b.len() - o < 2 {
        Item::End
    } else if b.len() - o < 6 {
        Item::Short
    } else if k == 0 || k > MAX_KEY_SIZE || v > MAX_VALUE_SIZE {
        Item::BadSize
    } else if b.len() - o < 6 + k + v {
        Item::Short
    } else {
        Item::Pair(
            b.subrange(o + 6, o + 6 + k),
            b.subrange(o + 6 + k, o + 6 + k + v),
            o + 6 + k + v,
        )
    }
}

/// The pairs from `o` on, up to what is none.
pub open spec fn pairs_from(b: Seq<u8>, o: int) -> Seq<Entry>
    decreases b.len() - o,
{
    match item_at(b, o) {
        Item::Pair(k, v, next) => if o < next <= b.len() {
            seq![(k, v)] + pairs_from(b, next)
        } else {
            Seq::empty()
        },
        _ => Seq::empty(),
    }
}

/// What follows the pairs from `o` on.
pub open spec fn ending_from(b: Seq<u8>, o: int) -> Item
    decreases b.len() - o,
{
    match item_at(b, o) {
        Item::Pair(k, v, next) => if o < next <= b.len() {
            ending_from(b, next)
        } else {
            Item::End
        },
        i => i,
    }
}

/// The error with which bytes that run out are answered.
pub open spec fn is_short_read(e: KvdbError) -> bool {
    e.is_io_error("failed to fill whole buffer"@)
}

fn short_read() -> (e: KvdbError)
    ensures
        is_short_read(e),
{
    io_error("failed to fill whole buffer")
}

/// Why the bytes are no export, if they are none.
pub open spec fn header_error(b: Seq<u8>, e: KvdbError) -> bool {
    if b.len() < 8 {
        is_short_read(e)
    } else if b.take(8) != export_magic() {
        e.is_invalid_argument("invalid export file"@)
    } else if b.len() < EXPORT_HEADER_SIZE {
        is_short_read(e)
    } else {
        e.is_invalid_argument("unsupported export version"@)
    }
}

/// The bytes start as an export of this version does.
pub open spec fn header_ok(b: Seq<u8>) -> bool {
    b.len() >= EXPORT_HEADER_SIZE && b.take(8) == export_magic() && le32(b, 8) == EXPORT_VERSION
}

/// Starts an export.
pub fn push_export_header(out: &mut Vec<u8>)
    ensures
        final(out)@ == old(out)@ + export_header(),
{
    let ghost b0 = out@;
    out.push(0x54);
    out.push(0x4B);
    out.push(0x44);
    out.push(0x42);
    out.push(0x5F);
    out.push(0x45);
    out.push(0x58);
    out.push(0x50);
    assert(out@ =~= b0 + export_magic());
    push_u32(out, EXPORT_VERSION);
    assert(out@ =~= b0 + export_header());
}

/// Adds a pair to an export.
pub fn push_pair(out: &mut Vec<u8>, key: &[u8], value: &[u8])
    ensures
        final(out)@ == old(out)@ + pair_bytes((key@, value@)),
{
    let ghost b0 = out@;
    push_u16(out, (key.len() % 0x1_0000) as u16);
    push_u32(out, (value.len() as u64 % 0x1_0000_0000) as u32);
    push_bytes(out, key);
    push_bytes(out, value);
    assert(out@ =~= b0 + pair_bytes((key@, value@)));
}

/// Checks that the bytes start as an export does.
pub fn check_export_header(input: &[u8]) -> (r: Result<()>)
    ensures
        match r {
            Ok(_) => header_ok(input@),
            Err(e) => !header_ok(input@) && header_error(input@, e),
        },
{
    if input.len() < 8 {
        return Err(short_read());
    }
    if input[0] != 0x54 || input[1] != 0x4B || input[2] != 0x44 || input[3] != 0x42 || input[4]
        != 0x5F || input[5] != 0x45 || input[6] != 0x58 || input[7] != 0x50 {
        proof {
            let m = export_magic();
            assert(m[0] == 0x54 && m[1] == 0x4B && m[2] == 0x44 && m[3] == 0x42);
            assert(m[4] == 0x5F && m[5] == 0x45 && m[6] == 0x58 && m[7] == 0x50);
            if input@.take(8) == m {
                assert(forall|i: int| 0 <= i < 8 ==> input@[i] == input@.take(8)[i]);
            }
        }
        return Err(invalid_argument("invalid export file"));
    }
    assert(input@.take(8) =~= export_magic());
    if input.len() < EXPORT_HEADER_SIZE {
        return Err(short_read());
    }
    if read_u32(input, 8) != EXPORT_VERSION {
        return Err(invalid_argument("unsupported export version"));
    }
    Ok(())
}

/// Reads the pair at `o`, and says where the next one starts.
pub fn next_pair(input: &[u8], o: usize) -> (r: Result<Option<(Vec<u8>, Vec<u8>, usize)>>)
    requires
        o <= input@.len(),
    ensures
        match r {
            Ok(Some(p)) => item_at(input@, o as int) == Item::Pair(p.0@, p.1@, p.2 as int) && o
                < p.2 <= input@.len() && storable(p.0@, p.1@),
            Ok(None) => item_at(input@, o as int) is End,
            Err(e) => match item_at(input@, o as int) {
                Item::Short => is_short_read(e),
                Item::BadSize => e.is_invalid_argument("invalid record size"@),
                _ => false,
            },
        },
{
    let left: usize = input.len() - o;
    if left < 2 {
        return Ok(None);
    }
    if left < 6 {
        return Err(short_read());
    }
    let key_len: usize = read_u16(input, o) as usize;
    let val_len: u32 = read_u32(input, o + 2);
    if key_len == 0 || key_len > MAX_KEY_SIZE || val_len > MAX_VALUE_SIZE as u32 {
        return Err(invalid_argument("invalid record size"));
    }
    let val_len: usize = val_len as usize;
    if left - 6 < key_len + val_len {
        return Err(short_read());
    }
    let k: usize = o + 6;
    let key = copy_range(input, k, k + key_len);
    let value = copy_range(input, k + key_len, k + key_len + val_len);
    Ok(Some((key, value, k + key_len + val_len)))
}

/// All pairs of a run can be stored.
pub open spec fn all_storable(s: Seq<Entry>) -> bool {
    forall|i: int| 0 <= i < s.len() ==> storable((#[trigger] s[i]).0, s[i].1)
}

proof fn lemma_pair_at(b: Seq<u8>, o: int, e: Entry)
    requires
        storable(e.0, e.1),
        0 <= o,
        o + pair_bytes(e).len() <= b.len(),
        b.subrange(o, o + pair_bytes(e).len()) == pair_bytes(e),
    ensures
        pair_bytes(e).len() == 6 + e.0.len() + e.1.len(),
        item_at(b, o) == Item::Pair(e.0, e.1, o + pair_bytes(e).len()),
{
    let x = pair_bytes(e);
    let kl = (e.0.len() % 0x1_0000) as u16;
    let vl = (e.1.len() % 0x1_0000_0000) as u32;
    lemma_enc16(kl);
    lemma_enc32(vl);
    assert forall|j: int| 0 <= j < x.len() implies #[trigger] b[o + j] == x[j] by {
        assert(b.subrange(o, o + x.len())[j] == x[j]);
    }
    assert forall|j: int| 0 <= j < 2 implies #[trigger] b[o + j] == enc16(kl)[0 + j] by {}
    lemma_le_window(b, o, enc16(kl), 0, 2);
    assert forall|j: int| 0 <= j < 4 implies #[trigger] b[o + 2 + j] == enc32(vl)[0 + j] by {
        assert(b[o + (2 + j)] == x[2 + j]);
    }
    lemma_le_window(b, o + 2, enc32(vl), 0, 4);
    let k = o + 6;
    assert(b.subrange(k, k + e.0.len()) =~= e.0) by {
        assert forall|j: int| 0 <= j < e.0.len() implies b[k + j] == e.0[j] by {
            assert(b[o + (6 + j)] == x[6 + j]);
        }
    }
    let v = k + e.0.len();
    assert(b.subrange(v, v + e.1.len()) =~= e.1) by {
        assert forall|j: int| 0 <= j < e.1.len() implies b[v + j] == e.1[j] by {
            assert(b[o + (6 + e.0.len() + j)] == x[6 + e.0.len() + j]);
        }
    }
}

proof fn lemma_pairs_from(b: Seq<u8>, s: Seq<Entry>, n: int)
    requires
        all_storable(s),
        0 <= n <= s.len(),
        b == export_bytes(s),
    ensures
        pairs_from(b, 12 + run_bytes(s.take(n)).len() as int) == s.skip(n),
        ending_from(b, 12 + run_bytes(s.take(n)).len() as int) is End,
    decreases s.len() - n,
{
    lemma_enc32(EXPORT_VERSION);
    let o = 12 + run_bytes(s.take(n)).len() as int;
    lemma_run_start(s, n);
    if n == s.len() {
        assert(s.take(n) =~= s);
        assert(s.skip(n) =~= Seq::<Entry>::empty());
        assert(b.len() == o);
    } else {
        let e = s[n];
        lemma_run_start(s, n + 1);
        lemma_pairs_from(b, s, n + 1);
        assert(s.take(n + 1).drop_last() =~= s.take(n));
        let q = run_bytes(s.take(n + 1));
        assert(b.subrange(o, o + pair_bytes(e).len()) =~= pair_bytes(e)) by {
            assert forall|j: int| 0 <= j < pair_bytes(e).len() implies b[o + j]
                == pair_bytes(e)[j] by {
                let r = run_bytes(s);
                assert(b[o + j] == r[o - 12 + j]);
                assert(r.take(q.len() as int)[o - 12 + j] == q[o - 12 + j]);
            }
        }
        lemma_pair_at(b, o, e);
        assert(seq![e] + s.skip(n + 1) =~= s.skip(n));
    }
}

/// The bytes of the first pairs start the bytes of all of them.
proof fn lemma_run_start(s: Seq<Entry>, n: int)
    requires
        0 <= n <= s.len(),
    ensures
        run_bytes(s.take(n)).len() <= run_bytes(s).len(),
        run_bytes(s).take(run_bytes(s.take(n)).len() as int) == run_bytes(s.take(n)),
    decreases s.len() - n,
{
    if n == s.len() {
        assert(s.take(n) =~= s);
        assert(run_bytes(s).take(run_bytes(s).len() as int) =~= run_bytes(s));
    } else {
        lemma_run_start(s, n + 1);
        let a = run_bytes(s.take(n));
        let b = run_bytes(s.take(n + 1));
        assert(s.take(n + 1).drop_last() =~= s.take(n));
        assert(b.take(a.len() as int) =~= a);
        assert(run_bytes(s).take(a.len() as int) =~= run_bytes(s).take(b.len() as int).take(
            a.len() as int,
        ));
    }
}

/// What was exported is imported.
pub proof fn law_export_round_trip(s: Seq<Entry>)
    requires
        all_storable(s),
    ensures
        header_ok(export_bytes(s)),
        pairs_from(export_bytes(s), EXPORT_HEADER_SIZE as int) == s,
        ending_from(export_bytes(s), EXPORT_HEADER_SIZE as int) is End,
{
    let b = export_bytes(s);
    lemma_enc32(EXPORT_VERSION);
    assert(b.take(8) =~= export_magic());
    assert forall|j: int| 0 <= j < 4 implies #[trigger] b[8 + j] == enc32(EXPORT_VERSION)[0
        + j] by {}
    lemma_le_window(b, 8, enc32(EXPORT_VERSION), 0, 4);
    assert(s.take(0) =~= Seq::<Entry>::empty());
    lemma_pairs_from(b, s, 0);
    assert(s.skip(0) =~= s);
}

/// The pairs of an export that goes on come first.
proof fn lemma_pairs_then(b: Seq<u8>, s: Seq<Entry>, rest: Seq<u8>, n: int)
    requires
        all_storable(s),
        0 <= n <= s.len(),
        b == export_bytes(s) + rest,
    ensures
        ({
            let o = 12 + run_bytes(s.take(n)).len() as int;
            let end = export_bytes(s).len() as int;
            &&& pairs_from(b, o) == s.skip(n) + pairs_from(b, end)
            &&& ending_from(b, o) == ending_from(b, end)
        }),
    decreases s.len() - n,
{
    lemma_enc32(EXPORT_VERSION);
    let o = 12 + run_bytes(s.take(n)).len() as int;
    let end = export_bytes(s).len() as int;
    lemma_run_start(s, n);
    if n == s.len() {
        assert(s.take(n) =~= s);
        assert(o == end);
        assert(s.skip(n) + pairs_from(b, end) =~= pairs_from(b, end));
    } else {
        let e = s[n];
        lemma_run_start(s, n + 1);
        lemma_pairs_then(b, s, rest, n + 1);
        assert(s.take(n + 1).drop_last() =~= s.take(n));
        let q = run_bytes(s.take(n + 1));
        assert(b.subrange(o, o + pair_bytes(e).len()) =~= pair_bytes(e)) by {
            assert forall|j: int| 0 <= j < pair_bytes(e).len() implies b[o + j]
                == pair_bytes(e)[j] by {
                let r = run_bytes(s);
                assert(b[o + j] == r[o - 12 + j]);
                assert(r.take(q.len() as int)[o - 12 + j] == q[o - 12 + j]);
            }
        }
        lemma_pair_at(b, o, e);
        assert(seq![e] + (s.skip(n + 1) + pairs_from(b, end)) =~= s.skip(n) + pairs_from(b, end));
    }
}

proof fn lemma_export_then(s: Seq<Entry>, rest: Seq<u8>)
    requires
        all_storable(s),
    ensures
        ({
            let b = export_bytes(s) + rest;
            let end = export_bytes(s).len() as int;
            &&& header_ok(b)
            &&& pairs_from(b, EXPORT_HEADER_SIZE as int) == s + pairs_from(b, end)
            &&& ending_from(b, EXPORT_HEADER_SIZE as int) == ending_from(b, end)
        }),
{
    let b = export_bytes(s) + rest;
    lemma_enc32(EXPORT_VERSION);
    assert(b.take(8) =~= export_magic());
    assert forall|j: int| 0 <= j < 4 implies #[trigger] b[8 + j] == enc32(EXPORT_VERSION)[0
        + j] by {}
    lemma_le_window(b, 8, enc32(EXPORT_VERSION), 0, 4);
    assert(s.take(0) =~= Seq::<Entry>::empty());
    lemma_pairs_then(b, s, rest, 0);
    assert(s.skip(0) =~= s);
}

/// Of an export that was cut off within a pair, the pairs before it are imported. Less than two
/// bytes of the pair are passed over; with two or more of them the bytes have run out.
pub proof fn law_export_cut(s: Seq<Entry>, e: Entry, n: int)
    requires
        all_storable(s),
        1 <= e.0.len() <= 1024,
        e.1.len() <= 2048,
        0 <= n < 6 + e.0.len() + e.1.len(),
    ensures
        ({
            let b = export_bytes(s) + pair_bytes(e).take(n);
            &&& header_ok(b)
            &&& pairs_from(b, 12) == s
            &&& n < 2 ==> ending_from(b, 12) is End
            &&& n >= 2 ==> ending_from(b, 12) is Short
        }),
{
    let x = pair_bytes(e);
    let rest = x.take(n);
    let b = export_bytes(s) + rest;
    let o = export_bytes(s).len() as int;
    let kl = (e.0.len() % 0x1_0000) as u16;
    let vl = (e.1.len() % 0x1_0000_0000) as u32;
    lemma_enc16(kl);
    lemma_enc32(vl);
    lemma_export_then(s, rest);
    if n >= 6 {
        assert forall|j: int| 0 <= j < 2 implies #[trigger] b[o + j] == enc16(kl)[0 + j] by {
            assert(b[o + j] == rest[j]);
        }
        lemma_le_window(b, o, enc16(kl), 0, 2);
        assert forall|j: int| 0 <= j < 4 implies #[trigger] b[o + 2 + j] == enc32(vl)[0 + j] by {
            assert(b[o + (2 + j)] == rest[2 + j]);
        }
        lemma_le_window(b, o + 2, enc32(vl), 0, 4);
    }
    assert(s + Seq::<Entry>::empty() =~= s);
}

/// Of an export in which a pair has an empty key, a key of more than 1024 bytes or a value of more
/// than 2048, the pairs before it are imported, and its size is rejected.
pub proof fn law_export_bad_size(s: Seq<Entry>, rest: Seq<u8>)
    requires
        all_storable(s),
        rest.len() >= 6,
        ({
            let k = rest[0] + 256 * rest[1];
            let v = rest[2] + 256 * rest[3] + 65536 * rest[4] + 16777216 * rest[5];
            k == 0 || k > 1024 || v > 2048
        }),
    ensures
        ({
            let b = export_bytes(s) + rest;
            &&& header_ok(b)
            &&& pairs_from(b, 12) == s
            &&& ending_from(b, 12) is BadSize
        }),
{
    let b = export_bytes(s) + rest;
    let o = export_bytes(s).len() as int;
    lemma_export_then(s, rest);
    reveal(le16);
    reveal(le32);
    assert(b[o] == rest[0] && b[o + 1] == rest[1] && b[o + 2] == rest[2] && b[o + 3] == rest[3]
        && b[o + 4] == rest[4] && b[o + 5] == rest[5]);
    assert(s + Seq::<Entry>::empty() =~= s);
}

/// Bytes are those of an export if they start with its text and version.
pub proof fn law_export_start(b: Seq<u8>)
    ensures
        header_ok(b) <==> b.len() >= 12 && b.take(8) == seq![
            0x54u8,
            0x4B,
            0x44,
            0x42,
            0x5F,
            0x45,
            0x58,
            0x50,
        ] && b[8] == 1 && b[9] == 0 && b[10] == 0 && b[11] == 0,
{
    reveal(le32);
}

} // verus!
