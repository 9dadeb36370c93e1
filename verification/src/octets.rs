//! Byte-level building blocks: comparison, little-endian integers, and fixed-size chunks.

use vstd::prelude::*;

verus! {

/// The `len` low-order bytes of `n`, least significant first.
pub open spec fn le_bytes(n: nat, len: nat) -> Seq<u8>
    decreases len,
{
    if len == 0 {
        Seq::empty()
    } else {
        seq![(n % 256) as u8] + le_bytes(n / 256, (len - 1) as nat)
    }
}

/// The number whose bytes, least significant first, are `s`.
pub open spec fn le_value(s: Seq<u8>) -> nat
    decreases s.len(),
{
    if s.len() == 0 {
        0
    } else {
        s[0] as nat + 256 * le_value(s.drop_first())
    }
}

/// 256 to the power `len`: how many numbers `len` bytes can hold.
pub open spec fn le_capacity(len: nat) -> nat
    decreases len,
{
    if len == 0 {
        1
    } else {
        256 * le_capacity((len - 1) as nat)
    }
}

/// The whole chunks of 32 bytes that `raw` starts with.
pub open spec fn chunks(raw: Seq<u8>) -> Seq<Seq<u8>> {
    Seq::new(raw.len() / 32, |i: int| raw.subrange(32 * i, 32 * i + 32))
}

/// The bytes of each id in a list of 32-byte ids.
pub open spec fn ids_of(ids: Seq<[u8; 32]>) -> Seq<Seq<u8>> {
    ids.map_values(|id: [u8; 32]| id@)
}

/// Writing a number in `len` bytes and reading it back gives the number, if it fits.
pub proof fn lemma_le_round_trip(n: nat, len: nat)
    requires
        n < le_capacity(len),
    ensures
        le_bytes(n, len).len() == len,
        le_value(le_bytes(n, len)) == n,
    decreases len,
{
    if len > 0 {
        let rest = le_bytes(n / 256, (len - 1) as nat);
        assert(n / 256 < le_capacity((len - 1) as nat));
        lemma_le_round_trip(n / 256, (len - 1) as nat);
        assert(le_bytes(n, len).drop_first() =~= rest);
    }
}

/// A number read from bytes fits in as many bytes, and is written back as those bytes.
pub proof fn lemma_le_value_bounded(s: Seq<u8>)
    ensures
        le_value(s) < le_capacity(s.len()),
        le_bytes(le_value(s), s.len()) == s,
    decreases s.len(),
{
    if s.len() > 0 {
        lemma_le_value_bounded(s.drop_first());
        assert(le_value(s) % 256 == s[0]);
        assert(le_value(s) / 256 == le_value(s.drop_first()));
        assert(s =~= seq![s[0]] + s.drop_first());
    } else {
        assert(le_bytes(0, 0) =~= s);
    }
}

/// Every number, fitting or not, is written in exactly `len` bytes.
pub proof fn lemma_le_bytes_len(n: nat, len: nat)
    ensures
        le_bytes(n, len).len() == len,
    decreases len,
{
    if len > 0 {
        lemma_le_bytes_len(n / 256, (len - 1) as nat);
    }
}

/// Appends the `len` low-order bytes of `n` to `out`.
pub fn push_le(out: &mut Vec<u8>, n: u64, len: usize)
    ensures
        final(out)@ == old(out)@ + le_bytes(n as nat, len as nat),
{
    let mut rest: u64 = n;
    let mut left: usize = len;
    while left > 0
        invariant
            left <= len,
            out@ + le_bytes(rest as nat, left as nat) == old(out)@ + le_bytes(n as nat, len as nat),
        decreases left,
    {
        let ghost before = out@;
        out.push((rest % 256) as u8);
        proof {
            let tail = le_bytes((rest / 256) as nat, (left - 1) as nat);
            assert(before + le_bytes(rest as nat, left as nat) =~= out@ + tail);
        }
        rest = rest / 256;
        left = left - 1;
    }
    assert(out@ + le_bytes(rest as nat, 0) =~= out@);
}

/// Reads the number that the bytes `from..to` of `raw` hold, least significant first.
pub fn read_le(raw: &[u8], from: usize, to: usize) -> (n: u64)
    requires
        from <= to <= raw@.len(),
        to - from <= 8,
    ensures
        n == le_value(raw@.subrange(from as int, to as int)),
{
    let mut n: u64 = 0;
    let mut at: usize = to;
    proof {
        assert(raw@.subrange(to as int, to as int) =~= Seq::empty());
    }
    while at > from
        invariant
            from <= at <= to <= raw@.len(),
            to - from <= 8,
            n == le_value(raw@.subrange(at as int, to as int)),
        decreases at,
    {
        let ghost read = raw@.subrange(at as int, to as int);
        at = at - 1;
        proof {
            let more = raw@.subrange(at as int, to as int);
            assert(more.drop_first() =~= read);
            lemma_le_value_bounded(more);
            lemma_capacity_monotone(more.len(), 8);
            lemma_le_widths();
        }
        n = raw[at] as u64 + 256 * n;
    }
    n
}

proof fn lemma_capacity_monotone(small: nat, large: nat)
    requires
        small <= large,
    ensures
        0 < le_capacity(small) <= le_capacity(large),
    decreases large,
{
    if small < large {
        lemma_capacity_monotone(small, (large - 1) as nat);
    } else if large > 0 {
        lemma_capacity_monotone((small - 1) as nat, (large - 1) as nat);
    }
}

/// The bounds of the widths in use: two, four and eight bytes.
pub proof fn lemma_le_widths()
    ensures
        le_capacity(2) == 0x1_0000,
        le_capacity(4) == 0x1_0000_0000,
        le_capacity(8) == 0x1_0000_0000_0000_0000,
{
    reveal_with_fuel(le_capacity, 9);
}

/// Whether two byte strings are equal.
pub fn bytes_eq(a: &[u8], b: &[u8]) -> (same: bool)
    ensures
        same == (a@ == b@),
{
    if a.len() != b.len() {
        return false;
    }
    let mut i: usize = 0;
    while i < a.len()
        invariant
            i <= a@.len(),
            a@.len() == b@.len(),
            forall|j: int| 0 <= j < i ==> a@[j] == b@[j],
        decreases a@.len() - i,
    {
        if a[i] != b[i] {
            return false;
        }
        i = i + 1;
    }
    assert(a@ =~= b@);
    true
}

/// Texts with the same UTF-8 encoding are equal.
pub proof fn lemma_utf8_injective(a: Seq<char>, b: Seq<char>)
    requires
        vstd::utf8::encode_utf8(a) == vstd::utf8::encode_utf8(b),
    ensures
        a == b,
{
    vstd::utf8::encode_utf8_decode_utf8(a);
    vstd::utf8::encode_utf8_decode_utf8(b);
}

/// Whether two strings are equal.
pub fn str_eq(a: &str, b: &str) -> (same: bool)
    ensures
        same == (a@ == b@),
{
    let same = bytes_eq(a.as_bytes(), b.as_bytes());
    proof {
        if same {
            lemma_utf8_injective(a@, b@);
        }
    }
    same
}

/// Appends a byte string to `out`.
pub fn append(out: &mut Vec<u8>, more: &[u8])
    ensures
        final(out)@ == old(out)@ + more@,
{
    out.extend_from_slice(more);
    assert(out@ =~= old(out)@ + more@);
}

/// Chunk by chunk and byte by byte: chunk `i` holds the 32 bytes from `32 * i` on, and there are as
/// many chunks as there are whole ones.
pub proof fn law_chunks(raw: Seq<u8>)
    ensures
        chunks(raw).len() == raw.len() / 32,
        forall|i: int| 0 <= i < raw.len() / 32 ==> (#[trigger] chunks(raw)[i]).len() == 32,
        forall|i: int, j: int|
            0 <= i < raw.len() / 32 && 0 <= j < 32 ==> #[trigger] chunks(raw)[i][j] == raw[32 * i + j],
{
    assert forall|i: int| 0 <= i < raw.len() / 32 implies (#[trigger] chunks(raw)[i]).len() == 32 by {
        assert(0 <= 32 * i && 32 * i + 32 <= raw.len());
    }
    assert forall|i: int, j: int| 0 <= i < raw.len() / 32 && 0 <= j < 32 implies #[trigger] chunks(raw)[i][j] == raw[32
        * i + j] by {
        assert(0 <= 32 * i && 32 * i + 32 <= raw.len());
    }
}

/// The ids of a list are their bytes, one by one.
pub proof fn law_ids(ids: Seq<[u8; 32]>)
    ensures
        ids_of(ids).len() == ids.len(),
        forall|i: int| 0 <= i < ids.len() ==> #[trigger] ids_of(ids)[i] == ids[i]@,
{
}

/// Little-endian numbers of two, four and eight bytes: the first byte counts ones, the second 256s,
/// and so on.
pub proof fn law_little_endian(bytes: Seq<u8>)
    ensures
        bytes.len() == 2 ==> le_value(bytes) == bytes[0] + 0x100 * bytes[1],
        bytes.len() == 4 ==> le_value(bytes) == bytes[0] + 0x100 * bytes[1] + 0x1_0000 * bytes[2] + 0x100_0000
            * bytes[3],
        bytes.len() == 8 ==> le_value(bytes) == bytes[0] + 0x100 * bytes[1] + 0x1_0000 * bytes[2] + 0x100_0000
            * bytes[3] + 0x1_0000_0000 * bytes[4] + 0x100_0000_0000 * bytes[5] + 0x1_0000_0000_0000 * bytes[6]
            + 0x100_0000_0000_0000 * bytes[7],
{
    reveal_with_fuel(le_value, 9);
}

} // verus!
