//! Little-endian integers, byte windows and the byte-wise order of keys.
use vstd::prelude::*;

verus! {

/// The two bytes at `o`, least significant first, read as a number.
#[verifier::opaque]
pub open spec fn le16(s: Seq<u8>, o: int) -> u16 {
    (s[o] + 256 * s[o + 1]) as u16
}

/// The four bytes at `o`, least significant first, read as a number.
#[verifier::opaque]
pub open spec fn le32(s: Seq<u8>, o: int) -> u32 {
    (s[o] + 256 * s[o + 1] + 0x1_0000 * s[o + 2] + 0x100_0000 * s[o + 3]) as u32
}

/// The eight bytes at `o`, least significant first, read as a number.
#[verifier::opaque]
pub open spec fn le64(s: Seq<u8>, o: int) -> u64 {
    (le32(s, o) + 0x1_0000_0000 * le32(s, o + 4)) as u64
}

/// The little-endian bytes of a 16-bit number.
#[verifier::opaque]
pub open spec fn enc16(x: u16) -> Seq<u8> {
    seq![(x % 256) as u8, (x / 256) as u8]
}

/// The little-endian bytes of a 32-bit number.
#[verifier::opaque]
pub open spec fn enc32(x: u32) -> Seq<u8> {
    enc16((x % 0x1_0000) as u16) + enc16((x / 0x1_0000) as u16)
}

/// The little-endian bytes of a 64-bit number.
#[verifier::opaque]
pub open spec fn enc64(x: u64) -> Seq<u8> {
    enc32((x % 0x1_0000_0000) as u32) + enc32((x / 0x1_0000_0000) as u32)
}

/// `s` with the bytes from `o` on replaced by `b`.
pub open spec fn splice(s: Seq<u8>, o: int, b: Seq<u8>) -> Seq<u8> {
    Seq::new(s.len(), |j: int| if o <= j < o + b.len() { b[j - o] } else { s[j] })
}

/// A run of zero bytes.
pub open spec fn zeros(n: nat) -> Seq<u8> {
    Seq::new(n, |j: int| 0u8)
}

/// Encoding a number and reading it back gives the number.
pub proof fn lemma_enc16(x: u16)
    ensures
        enc16(x).len() == 2,
        le16(enc16(x), 0) == x,
{
    reveal(le16);
    reveal(enc16);
}

pub proof fn lemma_enc32(x: u32)
    ensures
        enc32(x).len() == 4,
        le32(enc32(x), 0) == x,
{
    reveal(le32);
    reveal(le16);
    reveal(enc16);
    reveal(enc32);
    lemma_enc16((x % 0x1_0000) as u16);
    lemma_enc16((x / 0x1_0000) as u16);
}

pub proof fn lemma_enc64(x: u64)
    ensures
        enc64(x).len() == 8,
        le64(enc64(x), 0) == x,
{
    reveal(le32);
    reveal(le64);
    reveal(enc64);
    let lo = (x % 0x1_0000_0000) as u32;
    let hi = (x / 0x1_0000_0000) as u32;
    lemma_enc32(lo);
    lemma_enc32(hi);
    assert(le32(enc64(x), 0) == le32(enc32(lo), 0));
    assert(le32(enc64(x), 4) == le32(enc32(hi), 0));
}

/// Reading depends on the bytes that are read alone.
pub proof fn lemma_le_window(s: Seq<u8>, o: int, t: Seq<u8>, q: int, n: int)
    requires
        0 <= o,
        0 <= q,
        o + n <= s.len(),
        q + n <= t.len(),
        forall|j: int| 0 <= j < n ==> #[trigger] s[o + j] == t[q + j],
    ensures
        n >= 2 ==> le16(s, o) == le16(t, q),
        n >= 4 ==> le32(s, o) == le32(t, q),
        n >= 8 ==> le64(s, o) == le64(t, q),
{
    reveal(le16);
    reveal(le32);
    reveal(le64);
    if n >= 2 {
        assert(s[o + 0] == t[q + 0] && s[o + 1] == t[q + 1]);
    }
    if n >= 4 {
        assert(s[o + 2] == t[q + 2] && s[o + 3] == t[q + 3]);
    }
    if n >= 8 {
        assert(s[o + 4] == t[q + 4] && s[o + 5] == t[q + 5]);
        assert(s[o + 6] == t[q + 6] && s[o + 7] == t[q + 7]);
    }
}

/// Reads a 16-bit number.
pub fn read_u16(s: &[u8], o: usize) -> (x: u16)
    requires
        o + 2 <= s@.len(),
    ensures
        x == le16(s@, o as int),
{
    proof {
        reveal(le16);
    }
    s[o] as u16 + 256 * (s[o + 1] as u16)
}

/// Reads a 32-bit number.
pub fn read_u32(s: &[u8], o: usize) -> (x: u32)
    requires
        o + 4 <= s@.len(),
    ensures
        x == le32(s@, o as int),
{
    proof {
        reveal(le32);
    }
    s[o] as u32 + 256 * (s[o + 1] as u32) + 0x1_0000 * (s[o + 2] as u32) + 0x100_0000 * (s[o
        + 3] as u32)
}

/// Reads a 64-bit number.
pub fn read_u64(s: &[u8], o: usize) -> (x: u64)
    requires
        o + 8 <= s@.len(),
    ensures
        x == le64(s@, o as int),
{
    proof {
        reveal(le64);
    }
    assert(o + 8 <= s.len());
    read_u32(s, o) as u64 + 0x1_0000_0000 * (read_u32(s, o + 4) as u64)
}

/// Appends the little-endian bytes of a 16-bit number.
pub fn push_u16(v: &mut Vec<u8>, x: u16)
    ensures
        final(v)@ == old(v)@ + enc16(x),
        final(v)@.len() == old(v)@.len() + 2,
{
    proof {
        reveal(enc16);
    }
    v.push((x % 256) as u8);
    v.push((x / 256) as u8);
    assert(v@ =~= old(v)@ + enc16(x));
}

/// Appends the little-endian bytes of a 32-bit number.
pub fn push_u32(v: &mut Vec<u8>, x: u32)
    ensures
        final(v)@ == old(v)@ + enc32(x),
        final(v)@.len() == old(v)@.len() + 4,
{
    proof {
        reveal(enc32);
        reveal(enc16);
    }
    push_u16(v, (x % 0x1_0000) as u16);
    push_u16(v, (x / 0x1_0000) as u16);
    assert(v@ =~= old(v)@ + enc32(x));
}

/// Appends the little-endian bytes of a 64-bit number.
pub fn push_u64(v: &mut Vec<u8>, x: u64)
    ensures
        final(v)@ == old(v)@ + enc64(x),
        final(v)@.len() == old(v)@.len() + 8,
{
    proof {
        reveal(enc64);
    }
    push_u32(v, (x % 0x1_0000_0000) as u32);
    push_u32(v, (x / 0x1_0000_0000) as u32);
    assert(v@ =~= old(v)@ + enc64(x));
}

/// Appends a run of bytes.
pub fn push_bytes(v: &mut Vec<u8>, b: &[u8])
    ensures
        final(v)@ == old(v)@ + b@,
{
    let mut i: usize = 0;
    while i < b.len()
        invariant
            i <= b@.len(),
            v@ == old(v)@ + b@.subrange(0, i as int),
        decreases b@.len() - i,
    {
        v.push(b[i]);
        i += 1;
        assert(v@ =~= old(v)@ + b@.subrange(0, i as int));
    }
    assert(b@.subrange(0, b@.len() as int) =~= b@);
}

/// Copies the bytes from `start` to `end`.
pub fn copy_range(s: &[u8], start: usize, end: usize) -> (v: Vec<u8>)
    requires
        start <= end <= s@.len(),
    ensures
        v@ == s@.subrange(start as int, end as int),
{
    let mut v: Vec<u8> = Vec::with_capacity(end - start);
    let mut i: usize = start;
    while i < end
        invariant
            start <= i <= end <= s@.len(),
            v@ == s@.subrange(start as int, i as int),
        decreases end - i,
    {
        v.push(s[i]);
        i += 1;
        assert(v@ =~= s@.subrange(start as int, i as int));
    }
    v
}

/// Copies a run of bytes.
pub fn copy_all(s: &[u8]) -> (v: Vec<u8>)
    ensures
        v@ == s@,
{
    let v = copy_range(s, 0, s.len());
    assert(v@ =~= s@);
    v
}

/// `a` comes strictly before `b` in the byte-wise order, in which a proper prefix comes first.
pub open spec fn key_lt(a: Seq<u8>, b: Seq<u8>) -> bool
    decreases a.len(),
{
    if b.len() == 0 {
        false
    } else if a.len() == 0 {
        true
    } else if a[0] != b[0] {
        a[0] < b[0]
    } else {
        key_lt(a.drop_first(), b.drop_first())
    }
}

/// `a` comes before `b` or is `b`.
pub open spec fn key_le(a: Seq<u8>, b: Seq<u8>) -> bool {
    a == b || key_lt(a, b)
}

/// No key comes before itself.
pub proof fn lemma_key_irreflexive(a: Seq<u8>)
    ensures
        !key_lt(a, a),
    decreases a.len(),
{
    if a.len() > 0 {
        lemma_key_irreflexive(a.drop_first());
    }
}

/// Of two keys that differ, exactly one comes before the other.
pub proof fn lemma_key_total(a: Seq<u8>, b: Seq<u8>)
    ensures
        a == b || key_lt(a, b) || key_lt(b, a),
        !(key_lt(a, b) && key_lt(b, a)),
        a == b ==> !key_lt(a, b),
    decreases a.len(),
{
    if a == b {
        lemma_key_irreflexive(a);
    }
    if a.len() == 0 && b.len() == 0 {
        assert(a =~= b);
    } else if a.len() > 0 && b.len() > 0 && a[0] == b[0] {
        lemma_key_total(a.drop_first(), b.drop_first());
        if a.drop_first() == b.drop_first() {
            assert(a =~= seq![a[0]] + a.drop_first());
            assert(b =~= seq![b[0]] + b.drop_first());
        }
    }
}

/// The byte-wise order is transitive.
pub proof fn lemma_key_transitive(a: Seq<u8>, b: Seq<u8>, c: Seq<u8>)
    requires
        key_lt(a, b),
        key_lt(b, c),
    ensures
        key_lt(a, c),
    decreases a.len(),
{
    if a.len() > 0 && a[0] == b[0] && b[0] == c[0] {
        lemma_key_transitive(a.drop_first(), b.drop_first(), c.drop_first());
    }
}

/// The byte-wise order is a strict total order.
pub proof fn lemma_key_order()
    ensures
        forall|a: Seq<u8>, b: Seq<u8>|
            #![trigger key_lt(a, b)]
            !(key_lt(a, b) && key_lt(b, a)) && !(key_lt(a, b) && a == b) && (key_lt(a, b)
                || key_lt(b, a) || a == b),
        forall|a: Seq<u8>, b: Seq<u8>, c: Seq<u8>|
            #![trigger key_lt(a, b), key_lt(b, c)]
            key_lt(a, b) && key_lt(b, c) ==> key_lt(a, c),
{
    assert forall|a: Seq<u8>, b: Seq<u8>|
        #![trigger key_lt(a, b)]
        !(key_lt(a, b) && key_lt(b, a)) && !(key_lt(a, b) && a == b) && (key_lt(a, b) || key_lt(
            b,
            a,
        ) || a == b) by {
        lemma_key_total(a, b);
    }
    assert forall|a: Seq<u8>, b: Seq<u8>, c: Seq<u8>|
        #![trigger key_lt(a, b), key_lt(b, c)]
        key_lt(a, b) && key_lt(b, c) implies key_lt(a, c) by {
        lemma_key_transitive(a, b, c);
    }
}

/// Where the first key ends, or differs from the second.
proof fn lemma_key_differs(a: Seq<u8>, b: Seq<u8>) -> (i: int)
    requires
        key_lt(a, b),
    ensures
        0 <= i <= a.len(),
        i < b.len(),
        a.take(i) == b.take(i),
        i < a.len() ==> a[i] < b[i],
    decreases a.len(),
{
    if a.len() > 0 && a[0] == b[0] {
        let j = lemma_key_differs(a.drop_first(), b.drop_first());
        let i = j + 1;
        assert(a.drop_first().take(j) == b.drop_first().take(j));
        assert forall|x: int| 0 <= x < i implies a.take(i)[x] == b.take(i)[x] by {
            if x > 0 {
                assert(a.drop_first().take(j)[x - 1] == a[x]);
                assert(b.drop_first().take(j)[x - 1] == b[x]);
            }
        }
        assert(a.take(i) =~= b.take(i));
        i
    } else {
        assert(a.take(0) =~= b.take(0));
        0
    }
}

proof fn lemma_key_before(a: Seq<u8>, b: Seq<u8>, i: int)
    requires
        0 <= i <= a.len(),
        i < b.len(),
        a.take(i) == b.take(i),
        i < a.len() ==> a[i] < b[i],
    ensures
        key_lt(a, b),
    decreases i,
{
    if i > 0 {
        assert(a.take(i)[0] == a[0] && b.take(i)[0] == b[0]);
        let x = a.drop_first();
        let y = b.drop_first();
        assert(x.take(i - 1) =~= a.take(i).drop_first());
        assert(y.take(i - 1) =~= b.take(i).drop_first());
        lemma_key_before(x, y, i - 1);
    }
}

/// Keys are ordered as words in a dictionary whose letters are the bytes, by their numbers: one key
/// comes before another if it is a proper start of it, or if its byte is the smaller one at the
/// first place where they differ, and only then.
pub proof fn law_key_order(a: Seq<u8>, b: Seq<u8>)
    ensures
        key_lt(a, b) <==> {
            ||| a.len() < b.len() && a == b.take(a.len() as int)
            ||| exists|i: int|
                0 <= i < a.len() && i < b.len() && a.take(i) == b.take(i) && #[trigger] a[i] < b[i]
        },
        key_le(a, b) <==> key_lt(a, b) || a == b,
{
    if key_lt(a, b) {
        let i = lemma_key_differs(a, b);
        if i == a.len() {
            assert(a.take(i) =~= a);
        } else {
            assert(a[i] < b[i]);
        }
    }
    if a.len() < b.len() && a == b.take(a.len() as int) {
        assert(a.take(a.len() as int) =~= a);
        lemma_key_before(a, b, a.len() as int);
    }
    if exists|i: int|
        0 <= i < a.len() && i < b.len() && a.take(i) == b.take(i) && #[trigger] a[i] < b[i] {
        let i = choose|i: int|
            0 <= i < a.len() && i < b.len() && a.take(i) == b.take(i) && #[trigger] a[i] < b[i];
        lemma_key_before(a, b, i);
    }
}

/// How two keys stand to each other.
#[derive(Clone, Copy, PartialEq, Eq, Debug)]
pub enum KeyOrder {
    Less,
    Equal,
    Greater,
}

/// Compares two keys byte by byte.
pub fn key_order(a: &[u8], b: &[u8]) -> (r: KeyOrder)
    ensures
        match r {
            KeyOrder::Less => key_lt(a@, b@) && a@ != b@ && !key_lt(b@, a@),
            KeyOrder::Equal => a@ == b@ && !key_lt(a@, b@) && !key_lt(b@, a@),
            KeyOrder::Greater => key_lt(b@, a@) && a@ != b@ && !key_lt(a@, b@),
        },
        r is Less <==> {
            ||| a@.len() < b@.len() && a@ == b@.take(a@.len() as int)
            ||| exists|i: int|
                0 <= i < a@.len() && i < b@.len() && a@.take(i) == b@.take(i) && #[trigger] a@[i]
                    < b@[i]
        },
        r is Equal <==> a@ == b@,
{
    proof {
        law_key_order(a@, b@);
        lemma_key_total(a@, b@);
        lemma_key_total(b@, a@);
        assert(a@.skip(0) =~= a@);
        assert(b@.skip(0) =~= b@);
    }
    let mut i: usize = 0;
    while i < a.len() && i < b.len()
        invariant
            i <= a@.len(),
            i <= b@.len(),
            key_lt(a@, b@) == key_lt(a@.skip(i as int), b@.skip(i as int)),
            key_lt(b@, a@) == key_lt(b@.skip(i as int), a@.skip(i as int)),
            a@ == b@ || key_lt(a@, b@) || key_lt(b@, a@),
            !(key_lt(a@, b@) && key_lt(b@, a@)),
            a@ == b@ ==> !key_lt(a@, b@),
        decreases a@.len() - i,
    {
        proof {
            law_key_order(a@, b@);
        }
        if a[i] < b[i] {
            return KeyOrder::Less;
        }
        if a[i] > b[i] {
            return KeyOrder::Greater;
        }
        assert(a@.skip(i as int).drop_first() =~= a@.skip(i + 1));
        assert(b@.skip(i as int).drop_first() =~= b@.skip(i + 1));
        i += 1;
    }
    if i < b.len() {
        KeyOrder::Less
    } else if i < a.len() {
        KeyOrder::Greater
    } else {
        KeyOrder::Equal
    }
}

/// A slice as the model has it.
pub open spec fn opt_view(v: Option<&[u8]>) -> Option<Seq<u8>> {
    match v {
        Some(x) => Some(x@),
        None => None,
    }
}

} // verus!
