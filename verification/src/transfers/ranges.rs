//! Sets of chunk numbers, and how they are negotiated on the wire.
//!
//! Ranges are written as `[u32-le count] [count × (start u64-le, end u64-le)]`.

use vstd::prelude::*;

use crate::octets;

verus! {

/// Each range on the wire is two little-endian u64 values: start and end.
pub const RANGE_ENTRY_BYTES: usize = 16;

/// A set of chunk numbers, held as `bao_tree::ChunkRanges`.
#[verifier::external_body]
#[derive(Debug, PartialEq, Eq)]
pub struct ChunkRanges {
    inner: bao_tree::ChunkRanges,
}

/// The boundaries of a set of chunk numbers: where it begins, where it ends, where it begins
/// again, and so on.
pub uninterp spec fn boundaries(ranges: ChunkRanges) -> Seq<u64>;

/// Whether boundaries come in strictly ascending order.
pub open spec fn sorted(bounds: Seq<u64>) -> bool {
    forall|i: int, j: int| 0 <= i < j < bounds.len() ==> bounds[i] < bounds[j]
}

/// Whether a chunk number lies between a beginning and the end that follows it, or after a last
/// beginning.
pub open spec fn covers(bounds: Seq<u64>, chunk: u64) -> bool {
    exists|i: int| {
        &&& 0 <= i < bounds.len()
        &&& i % 2 == 0
        &&& #[trigger] bounds[i] <= chunk
        &&& i + 1 < bounds.len() ==> chunk < bounds[i + 1]
    }
}

impl ChunkRanges {
    /// `ChunkRanges::empty`: no chunk.
    #[verifier::external_body]
    fn empty() -> (ranges: ChunkRanges)
        ensures
            boundaries(ranges) == Seq::<u64>::empty(),
    {
        ChunkRanges { inner: bao_tree::ChunkRanges::empty() }
    }

    /// `ChunkRanges::from`, of a range: the chunks from `start` on and before `end`; none, if
    /// `start` does not lie before `end`.
    #[verifier::external_body]
    fn from_range(start: u64, end: u64) -> (ranges: ChunkRanges)
        ensures
            boundaries(ranges) == if start < end {
                seq![start, end]
            } else {
                seq![]
            },
    {
        ChunkRanges { inner: bao_tree::ChunkRanges::from(bao_tree::ChunkNum(start)..bao_tree::ChunkNum(end)) }
    }

    /// `ChunkRanges::all`: every chunk.
    #[verifier::external_body]
    fn all() -> (ranges: ChunkRanges)
        ensures
            boundaries(ranges) == seq![0u64],
    {
        ChunkRanges { inner: bao_tree::ChunkRanges::all() }
    }

    /// The `|=` of `ChunkRanges`: a chunk is in the result if it is in one of the sets.
    #[verifier::external_body]
    fn union_with(&mut self, other: ChunkRanges)
        ensures
            sorted(boundaries(*final(self))),
            forall|chunk: u64| #[trigger]
                covers(boundaries(*final(self)), chunk) <==> covers(boundaries(*old(self)), chunk) || covers(
                    boundaries(other),
                    chunk,
                ),
    {
        self.inner |= other.inner;
    }

    /// The `!` of `ChunkRanges`: a chunk is in the result if it is not in the set.
    #[verifier::external_body]
    fn complement(self) -> (ranges: ChunkRanges)
        ensures
            sorted(boundaries(ranges)),
            forall|chunk: u64| #[trigger] covers(boundaries(ranges), chunk) <==> !covers(boundaries(self), chunk),
    {
        ChunkRanges { inner: !self.inner }
    }

    /// The `&` of `ChunkRanges`: a chunk is in the result if it is in both sets.
    #[verifier::external_body]
    fn intersection(self, other: ChunkRanges) -> (ranges: ChunkRanges)
        ensures
            sorted(boundaries(ranges)),
            forall|chunk: u64| #[trigger]
                covers(boundaries(ranges), chunk) <==> (covers(boundaries(self), chunk) && covers(
                    boundaries(other),
                    chunk,
                )),
    {
        ChunkRanges { inner: self.inner & other.inner }
    }

    /// `boundaries`, which come in strictly ascending order.
    #[verifier::external_body]
    fn boundaries(&self) -> (bounds: Vec<u64>)
        ensures
            bounds@ == boundaries(*self),
            sorted(bounds@),
    {
        self.inner.boundaries().iter().map(|bound| bound.0).collect()
    }

    /// The set of all chunks that lie in one of the ranges, each given by its start and its end.
    pub fn from_ranges(ranges: &[(u64, u64)]) -> (set: ChunkRanges)
        ensures
            sorted(boundaries(set)),
            forall|chunk: u64| #[trigger] covers(boundaries(set), chunk) <==> exists|i: int| {
                &&& 0 <= i < ranges@.len()
                &&& #[trigger] ranges@[i].0 <= chunk
                &&& chunk < ranges@[i].1
            },
    {
        let mut set = ChunkRanges::empty();
        let mut i: usize = 0;
        while i < ranges.len()
            invariant
                i <= ranges@.len(),
                sorted(boundaries(set)),
                forall|chunk: u64| #[trigger] covers(boundaries(set), chunk) <==> exists|j: int| {
                    &&& 0 <= j < i
                    &&& #[trigger] ranges@[j].0 <= chunk
                    &&& chunk < ranges@[j].1
                },
            decreases ranges@.len() - i,
        {
            let (start, end) = ranges[i];
            let more = ChunkRanges::from_range(start, end);
            let ghost added = boundaries(more);
            set.union_with(more);
            proof {
                assert forall|chunk: u64| covers(added, chunk) <==> start <= chunk < end by {
                    if start <= chunk < end {
                        assert(added[0] <= chunk);
                    }
                }
                assert forall|chunk: u64| #[trigger] covers(boundaries(set), chunk) <==> exists|j: int| {
                    &&& 0 <= j < i + 1
                    &&& #[trigger] ranges@[j].0 <= chunk
                    &&& chunk < ranges@[j].1
                } by {
                    if start <= chunk < end {
                        assert(ranges@[i as int].0 <= chunk);
                    }
                }
            }
            i = i + 1;
        }
        set
    }

    /// The ranges of the set, each with its start and its end; a last range may have no end.
    pub fn ranges(&self) -> (list: Vec<(u64, Option<u64>)>)
        ensures
            sorted(boundaries(*self)),
            list@.len() == (boundaries(*self).len() + 1) / 2,
            forall|i: int|
                0 <= i < list@.len() ==> #[trigger] list@[i] == (
                    boundaries(*self)[2 * i],
                    if 2 * i + 1 < boundaries(*self).len() {
                        Some(boundaries(*self)[2 * i + 1])
                    } else {
                        None
                    },
                ),
    {
        let bounds = self.boundaries();
        let mut list: Vec<(u64, Option<u64>)> = Vec::new();
        let mut i: usize = 0;
        while i < bounds.len()
            invariant
                bounds@ == boundaries(*self),
                i == 2 * list@.len() || i == bounds@.len() && i + 1 == 2 * list@.len(),
                i <= bounds@.len(),
                forall|j: int|
                    0 <= j < list@.len() ==> #[trigger] list@[j] == (
                        bounds@[2 * j],
                        if 2 * j + 1 < bounds@.len() {
                            Some(bounds@[2 * j + 1])
                        } else {
                            None
                        },
                    ),
            decreases bounds@.len() - i,
        {
            let start = bounds[i];
            if bounds.len() - i >= 2 {
                list.push((start, Some(bounds[i + 1])));
                i = i + 2;
            } else {
                list.push((start, None));
                i = i + 1;
            }
        }
        list
    }
}

/// The boundaries two by two, each in eight bytes. A last one without a second is left out.
pub open spec fn pairs_wire(bounds: Seq<u64>) -> Seq<u8>
    decreases bounds.len(),
{
    if bounds.len() < 2 {
        Seq::empty()
    } else {
        octets::le_bytes(bounds[0] as nat, 8) + octets::le_bytes(bounds[1] as nat, 8) + pairs_wire(
            bounds.subrange(2, bounds.len() as int),
        )
    }
}

/// A set of chunk numbers on the wire.
pub open spec fn ranges_wire(bounds: Seq<u64>) -> Seq<u8> {
    octets::le_bytes(bounds.len() / 2, 4) + pairs_wire(bounds)
}

/// Encodes chunk ranges into wire bytes.
///
/// The ranges that a peer already has are always bounded; of an unbounded set the last range is
/// not written.
pub fn encode_ranges_wire(ranges: &ChunkRanges) -> (out: Vec<u8>)
    ensures
        out@ == ranges_wire(boundaries(*ranges)),
{
    let bounds = ranges.boundaries();
    let mut out: Vec<u8> = Vec::new();
    octets::push_le(&mut out, (bounds.len() / 2) as u64, 4);
    let ghost count = out@;
    let mut i: usize = 0;
    proof {
        assert(bounds@.subrange(0, bounds@.len() as int) =~= bounds@);
    }
    while bounds.len() - i >= 2
        invariant
            i <= bounds@.len(),
            out@ + pairs_wire(bounds@.subrange(i as int, bounds@.len() as int)) == count + pairs_wire(bounds@),
        decreases bounds@.len() - i,
    {
        let ghost rest = bounds@.subrange(i as int, bounds@.len() as int);
        let ghost before = out@;
        octets::push_le(&mut out, bounds[i], 8);
        octets::push_le(&mut out, bounds[i + 1], 8);
        proof {
            assert(rest.subrange(2, rest.len() as int) =~= bounds@.subrange(i + 2, bounds@.len() as int));
            assert(before + pairs_wire(rest) =~= out@ + pairs_wire(rest.subrange(2, rest.len() as int)));
        }
        i = i + 2;
    }
    assert(out@ + Seq::<u8>::empty() =~= out@);
    out
}

/// The range data ends before the range at this index does.
#[derive(Debug, Clone, Copy, PartialEq, Eq, Structural)]
pub struct RangeDataTruncated {
    pub index: usize,
}

/// Where range `i` of the range data begins.
pub open spec fn start_at(raw: Seq<u8>, i: int) -> nat {
    octets::le_value(raw.subrange(16 * i, 16 * i + 8))
}

/// Where range `i` of the range data ends.
pub open spec fn end_at(raw: Seq<u8>, i: int) -> nat {
    octets::le_value(raw.subrange(16 * i + 8, 16 * i + 16))
}

/// Whether a chunk number lies in one of the first ranges of the range data.
pub open spec fn in_ranges(raw: Seq<u8>, count: int, chunk: u64) -> bool {
    exists|i: int| 0 <= i < count && #[trigger] start_at(raw, i) <= chunk < end_at(raw, i)
}

/// Decodes chunk ranges from wire bytes.
///
/// # Errors
///
/// Fails if there is less data than `count` ranges take, with the index of the first range that
/// is not complete.
pub fn decode_ranges_wire(count: u32, raw: &[u8]) -> (result: Result<ChunkRanges, RangeDataTruncated>)
    ensures
        match result {
            Ok(ranges) => {
                &&& 16 * count <= raw@.len()
                &&& sorted(boundaries(ranges))
                &&& forall|chunk: u64| #[trigger]
                    covers(boundaries(ranges), chunk) <==> in_ranges(raw@, count as int, chunk)
            },
            Err(e) => {
                &&& 16 * count > raw@.len()
                &&& e.index == raw@.len() / 16
            },
        },
{
    let mut ranges = ChunkRanges::empty();
    let size: usize = raw.len();
    let mut i: usize = 0;
    let mut left: u32 = count;
    while left > 0
        invariant
            i + left == count,
            size == raw@.len(),
            16 * i <= size,
            sorted(boundaries(ranges)),
            forall|chunk: u64| #[trigger]
                covers(boundaries(ranges), chunk) <==> in_ranges(raw@, i as int, chunk),
        decreases left,
    {
        let base: usize = i * RANGE_ENTRY_BYTES;
        if size - base < RANGE_ENTRY_BYTES {
            return Err(RangeDataTruncated { index: i });
        }
        let start = octets::read_le(raw, base, base + 8);
        let end = octets::read_le(raw, base + 8, base + 16);
        let more = ChunkRanges::from_range(start, end);
        let ghost added = boundaries(more);
        ranges.union_with(more);
        proof {
            assert forall|chunk: u64| covers(added, chunk) <==> start <= chunk < end by {
                if start <= chunk < end {
                    assert(added[0] <= chunk);
                }
            }
            assert forall|chunk: u64| #[trigger] covers(boundaries(ranges), chunk) <==> in_ranges(
                raw@,
                i + 1,
                chunk,
            ) by {
                if start <= chunk < end {
                    assert(start_at(raw@, i as int) <= chunk);
                }
                if in_ranges(raw@, i as int, chunk) {
                    let j = choose|j: int| 0 <= j < i && #[trigger] start_at(raw@, j) <= chunk < end_at(raw@, j);
                    assert(start_at(raw@, j) <= chunk);
                }
            }
        }
        i = i + 1;
        left = left - 1;
    }
    Ok(ranges)
}

/// The chunks that are missing where some are already there: all the others.
pub fn missing_ranges(already_have: ChunkRanges) -> (missing: ChunkRanges)
    ensures
        sorted(boundaries(missing)),
        forall|chunk: u64| #[trigger]
            covers(boundaries(missing), chunk) <==> !covers(boundaries(already_have), chunk),
{
    let all = ChunkRanges::all();
    let others = already_have.complement();
    let ghost every = boundaries(all);
    proof {
        assert forall|chunk: u64| covers(every, chunk) by {
            assert(every[0] <= chunk);
        }
    }
    all.intersection(others)
}

/// A chunk number between two neighbouring boundaries, or after the last, is in the set exactly
/// if the boundary before it is a beginning.
proof fn lemma_covers_at(bounds: Seq<u64>, i: int, chunk: u64)
    requires
        sorted(bounds),
        -1 <= i < bounds.len(),
        i >= 0 ==> bounds[i] <= chunk,
        i + 1 < bounds.len() ==> chunk < bounds[i + 1],
    ensures
        covers(bounds, chunk) <==> i >= 0 && i % 2 == 0,
{
    if covers(bounds, chunk) {
        let j = choose|j: int| {
            &&& 0 <= j < bounds.len()
            &&& j % 2 == 0
            &&& #[trigger] bounds[j] <= chunk
            &&& j + 1 < bounds.len() ==> chunk < bounds[j + 1]
        };
        if j < i {
            assert(bounds[j + 1] <= bounds[i]);
        } else if j > i {
            assert(bounds[i + 1] <= bounds[j]);
        }
    }
}

/// Boundaries are determined by which chunk numbers lie between them.
pub proof fn law_boundaries_are_canonical(a: Seq<u64>, b: Seq<u64>)
    requires
        sorted(a),
        sorted(b),
        forall|chunk: u64| #[trigger] covers(a, chunk) == covers(b, chunk),
    ensures
        a == b,
{
    let shorter = if a.len() <= b.len() { a.len() } else { b.len() };
    lemma_common_prefix(a, b, shorter as int);
    if a.len() < b.len() {
        lemma_differ_at(a, b, a.len() as int);
    } else if b.len() < a.len() {
        lemma_differ_at(b, a, b.len() as int);
    }
    assert(a =~= b);
}

/// Boundaries between which the same chunk numbers lie begin alike.
proof fn lemma_common_prefix(a: Seq<u64>, b: Seq<u64>, n: int)
    requires
        sorted(a),
        sorted(b),
        forall|chunk: u64| #[trigger] covers(a, chunk) == covers(b, chunk),
        0 <= n <= a.len(),
        n <= b.len(),
    ensures
        forall|i: int| 0 <= i < n ==> a[i] == b[i],
    decreases n,
{
    if n > 0 {
        lemma_common_prefix(a, b, n - 1);
        if a[n - 1] < b[n - 1] {
            lemma_differ_at(b, a, n - 1);
        } else if b[n - 1] < a[n - 1] {
            lemma_differ_at(a, b, n - 1);
        }
    }
}

/// Two lists of boundaries that begin alike, and of which one has its next boundary earlier, do
/// not have the same chunk numbers between them.
proof fn lemma_differ_at(a: Seq<u64>, b: Seq<u64>, k: int)
    requires
        sorted(a),
        sorted(b),
        0 <= k <= a.len(),
        k < b.len(),
        forall|i: int| 0 <= i < k ==> a[i] == b[i],
        k < a.len() ==> b[k] < a[k],
    ensures
        covers(a, b[k]) != covers(b, b[k]),
{
    lemma_covers_at(b, k, b[k]);
    if k > 0 {
        assert(b[k - 1] < b[k]);
    }
    lemma_covers_at(a, k - 1, b[k]);
}

/// What a pair of boundaries is on the wire.
proof fn lemma_pairs_wire_at(bounds: Seq<u64>, i: int)
    requires
        bounds.len() % 2 == 0,
        0 <= i < bounds.len() / 2,
    ensures
        pairs_wire(bounds).len() == 8 * bounds.len(),
        start_at(pairs_wire(bounds), i) == bounds[2 * i],
        end_at(pairs_wire(bounds), i) == bounds[2 * i + 1],
    decreases bounds.len(),
{
    let rest = bounds.subrange(2, bounds.len() as int);
    let wire = pairs_wire(bounds);
    let tail = pairs_wire(rest);
    octets::lemma_le_widths();
    octets::lemma_le_round_trip(bounds[0] as nat, 8);
    octets::lemma_le_round_trip(bounds[1] as nat, 8);
    lemma_pairs_wire_len(rest);
    if i == 0 {
        assert(wire.subrange(0, 8) =~= octets::le_bytes(bounds[0] as nat, 8));
        assert(wire.subrange(8, 16) =~= octets::le_bytes(bounds[1] as nat, 8));
    } else {
        lemma_pairs_wire_at(rest, i - 1);
        assert(wire.subrange(16 * i, 16 * i + 8) =~= tail.subrange(16 * (i - 1), 16 * (i - 1) + 8));
        assert(wire.subrange(16 * i + 8, 16 * i + 16) =~= tail.subrange(16 * (i - 1) + 8, 16 * (i - 1) + 16));
    }
}

/// How many bytes pairs of boundaries take.
proof fn lemma_pairs_wire_len(bounds: Seq<u64>)
    requires
        bounds.len() % 2 == 0,
    ensures
        pairs_wire(bounds).len() == 8 * bounds.len(),
    decreases bounds.len(),
{
    if bounds.len() >= 2 {
        octets::lemma_le_bytes_len(bounds[0] as nat, 8);
        octets::lemma_le_bytes_len(bounds[1] as nat, 8);
        lemma_pairs_wire_len(bounds.subrange(2, bounds.len() as int));
    }
}

/// A bounded set of chunk numbers is read back as it was written: the count on the wire is the
/// number of ranges, there is as much data as that many ranges take, and whatever has the ranges
/// of the data between its boundaries has the boundaries that were written.
pub proof fn law_ranges_round_trip(bounds: Seq<u64>, decoded: Seq<u64>)
    requires
        sorted(bounds),
        bounds.len() % 2 == 0,
        bounds.len() / 2 < 0x1_0000_0000,
        sorted(decoded),
        forall|chunk: u64| #[trigger]
            covers(decoded, chunk) <==> in_ranges(pairs_wire(bounds), (bounds.len() / 2) as int, chunk),
    ensures
        octets::le_value(ranges_wire(bounds).subrange(0, 4)) == bounds.len() / 2,
        ranges_wire(bounds).subrange(4, ranges_wire(bounds).len() as int) == pairs_wire(bounds),
        pairs_wire(bounds).len() == 16 * (bounds.len() / 2),
        decoded == bounds,
{
    let wire = pairs_wire(bounds);
    let count = (bounds.len() / 2) as int;
    octets::lemma_le_widths();
    octets::lemma_le_round_trip(bounds.len() / 2, 4);
    assert(ranges_wire(bounds).subrange(0, 4) =~= octets::le_bytes(bounds.len() / 2, 4));
    assert(ranges_wire(bounds).subrange(4, ranges_wire(bounds).len() as int) =~= wire);
    lemma_pairs_wire_len(bounds);
    assert forall|chunk: u64| #[trigger] covers(decoded, chunk) == covers(bounds, chunk) by {
        if in_ranges(wire, count, chunk) {
            let i = choose|i: int| 0 <= i < count && #[trigger] start_at(wire, i) <= chunk < end_at(wire, i);
            lemma_pairs_wire_at(bounds, i);
            assert(bounds[2 * i] <= chunk);
        }
        if covers(bounds, chunk) {
            let j = choose|j: int| {
                &&& 0 <= j < bounds.len()
                &&& j % 2 == 0
                &&& #[trigger] bounds[j] <= chunk
                &&& j + 1 < bounds.len() ==> chunk < bounds[j + 1]
            };
            lemma_pairs_wire_at(bounds, j / 2);
            assert(start_at(wire, j / 2) <= chunk);
        }
    }
    law_boundaries_are_canonical(decoded, bounds);
}

/// A chunk lies in one of the first ranges of range data if one of them starts at it or before it
/// and ends after it, both numbers being eight bytes, low byte first.
pub proof fn law_in_ranges(raw: Seq<u8>, count: int, chunk: u64)
    ensures
        in_ranges(raw, count, chunk) <==> exists|i: int|
            0 <= i < count && octets::le_value(#[trigger] raw.subrange(16 * i, 16 * i + 8)) <= chunk
                < octets::le_value(raw.subrange(16 * i + 8, 16 * i + 16)),
{
    if in_ranges(raw, count, chunk) {
        let i = choose|i: int| 0 <= i < count && #[trigger] start_at(raw, i) <= chunk < end_at(raw, i);
        assert(octets::le_value(raw.subrange(16 * i, 16 * i + 8)) <= chunk);
    }
    if exists|i: int|
        0 <= i < count && octets::le_value(#[trigger] raw.subrange(16 * i, 16 * i + 8)) <= chunk < octets::le_value(
            raw.subrange(16 * i + 8, 16 * i + 16),
        ) {
        let i = choose|i: int|
            0 <= i < count && octets::le_value(#[trigger] raw.subrange(16 * i, 16 * i + 8)) <= chunk < octets::le_value(
                raw.subrange(16 * i + 8, 16 * i + 16),
            );
        assert(start_at(raw, i) <= chunk < end_at(raw, i));
    }
}

/// A chunk number is in a set if and only if an odd number of its boundaries lie at or before it.
pub proof fn law_membership_by_parity(bounds: Seq<u64>, chunk: u64, before: int)
    requires
        sorted(bounds),
        0 <= before <= bounds.len(),
        forall|i: int| 0 <= i < before ==> #[trigger] bounds[i] <= chunk,
        forall|i: int| before <= i < bounds.len() ==> chunk < #[trigger] bounds[i],
    ensures
        covers(bounds, chunk) <==> before % 2 == 1,
{
    if before % 2 == 1 {
        assert(bounds[before - 1] <= chunk);
    }
    if covers(bounds, chunk) {
        let i = choose|i: int| {
            &&& 0 <= i < bounds.len()
            &&& i % 2 == 0
            &&& #[trigger] bounds[i] <= chunk
            &&& i + 1 < bounds.len() ==> chunk < bounds[i + 1]
        };
        assert(i < before);
        if i + 1 < before {
            assert(bounds[i + 1] <= chunk);
        }
    }
}

/// The chunks that are missing are those that are not there, for every chunk number.
pub proof fn law_missing(already_have: ChunkRanges, missing: ChunkRanges, chunk: u64)
    requires
        call_ensures(missing_ranges, (already_have,), missing),
    ensures
        covers(boundaries(missing), chunk) <==> !covers(boundaries(already_have), chunk),
{
}

/// Range data is read back range by range, and refused if it ends too early.
pub proof fn law_decoded_ranges(
    count: u32,
    raw: &[u8],
    result: Result<ChunkRanges, RangeDataTruncated>,
    chunk: u64,
)
    requires
        call_ensures(decode_ranges_wire, (count, raw), result),
    ensures
        result is Ok <==> 16 * count <= raw@.len(),
        result matches Err(e) ==> e.index == raw@.len() / 16,
        result matches Ok(set) ==> (covers(boundaries(set), chunk) <==> exists|i: int|
            0 <= i < count && octets::le_value(#[trigger] raw@.subrange(16 * i, 16 * i + 8)) <= chunk
                < octets::le_value(raw@.subrange(16 * i + 8, 16 * i + 16))),
{
    law_in_ranges(raw@, count as int, chunk);
}

/// A set on the wire: four bytes with the number of ranges, and then sixteen bytes for each range
/// that [`ChunkRanges::ranges`] lists with an end, its start and its end, all low byte first.
pub proof fn law_ranges_on_the_wire(
    set: &ChunkRanges,
    list: Vec<(u64, Option<u64>)>,
    out: Vec<u8>,
    i: int,
)
    requires
        call_ensures(ChunkRanges::ranges, (set,), list),
        call_ensures(encode_ranges_wire, (set,), out),
        list@.len() < 0x1_0000_0000,
        0 <= i < list@.len(),
    ensures
        ({
            let last = list@[list@.len() - 1].1 is Some;
            let ended = if last {
                list@.len() as int
            } else {
                list@.len() - 1
            };
            &&& forall|j: int| 0 <= j < ended ==> (#[trigger] list@[j]).1 is Some
            &&& out@.len() == 4 + 16 * ended
            &&& octets::le_value(out@.subrange(0, 4)) == ended
            &&& i < ended ==> octets::le_value(out@.subrange(4 + 16 * i, 12 + 16 * i)) == list@[i].0
            &&& i < ended ==> list@[i].1 is Some && octets::le_value(out@.subrange(12 + 16 * i, 20 + 16 * i))
                == list@[i].1->Some_0
        }),
{
    let bounds = boundaries(*set);
    let count = octets::le_bytes(bounds.len() / 2, 4);
    let wire = pairs_wire(bounds);
    octets::lemma_le_widths();
    octets::lemma_le_round_trip(bounds.len() / 2, 4);
    let paired = if bounds.len() % 2 == 0 {
        bounds
    } else {
        bounds.drop_last()
    };
    lemma_pairs_wire_unpaired(bounds);
    lemma_pairs_wire_len(paired);
    if i < paired.len() / 2 {
        lemma_pairs_wire_at(paired, i);
        assert(paired[2 * i] == bounds[2 * i] && paired[2 * i + 1] == bounds[2 * i + 1]);
    }
    assert(list@[list@.len() - 1].1 is Some <==> bounds.len() % 2 == 0);
    assert(out@.subrange(0, 4) =~= count);
    if i < paired.len() / 2 {
        assert(out@.subrange(4 + 16 * i, 12 + 16 * i) =~= wire.subrange(16 * i, 16 * i + 8));
        assert(out@.subrange(12 + 16 * i, 20 + 16 * i) =~= wire.subrange(16 * i + 8, 16 * i + 16));
    }
}

/// A last boundary without a second is left out.
proof fn lemma_pairs_wire_unpaired(bounds: Seq<u64>)
    ensures
        bounds.len() % 2 == 1 ==> pairs_wire(bounds) == pairs_wire(bounds.drop_last()),
    decreases bounds.len(),
{
    if bounds.len() > 2 && bounds.len() % 2 == 1 {
        let rest = bounds.subrange(2, bounds.len() as int);
        lemma_pairs_wire_unpaired(rest);
        assert(bounds.drop_last().subrange(2, bounds.len() - 1) =~= rest.drop_last());
    }
}

} // verus!
