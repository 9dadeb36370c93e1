//! How the database's rows are written: keys, member lists, ring-name lists, permission bits
//! and expiries.

use vstd::prelude::*;

use crate::error::Error;
use crate::octets;
use crate::registry::Permission;
use crate::time;
use crate::time::Timestamp;

verus! {

/// The byte strings one after the other.
pub open spec fn concat(parts: Seq<Seq<u8>>) -> Seq<u8>
    decreases parts.len(),
{
    if parts.len() == 0 {
        Seq::empty()
    } else {
        concat(parts.drop_last()) + parts.last()
    }
}

/// Encodes a list of peer ids: their bytes, one after the other.
pub fn encode_peer_ids(ids: &Vec<[u8; 32]>) -> (raw: Vec<u8>)
    ensures
        raw@ == concat(octets::ids_of(ids@)),
{
    let mut raw: Vec<u8> = Vec::new();
    let ghost all = octets::ids_of(ids@);
    let mut i: usize = 0;
    while i < ids.len()
        invariant
            i <= ids@.len(),
            all == octets::ids_of(ids@),
            raw@ == concat(all.take(i as int)),
        decreases ids@.len() - i,
    {
        octets::append(&mut raw, ids[i].as_slice());
        assert(all.take(i + 1).drop_last() =~= all.take(i as int));
        i = i + 1;
    }
    assert(all.take(i as int) =~= all);
    raw
}

/// The chunk of 32 bytes at `from`.
fn chunk_at(raw: &[u8], from: usize) -> (id: [u8; 32])
    requires
        from + 32 <= raw@.len(),
    ensures
        id@ == raw@.subrange(from as int, from + 32),
{
    let mut id: [u8; 32] = [0u8; 32];
    assert(raw.len() <= usize::MAX);
    let mut i: usize = 0;
    while i < 32
        invariant
            i <= 32,
            from + 32 <= raw@.len() <= usize::MAX,
            forall|j: int| 0 <= j < i ==> id@[j] == raw@[from + j],
        decreases 32 - i,
    {
        id[i] = raw[from + i];
        i = i + 1;
    }
    assert(id@ =~= raw@.subrange(from as int, from + 32));
    id
}

/// Decodes a list of peer ids; what is left over at the end is dropped.
pub fn decode_peer_ids(raw: &[u8]) -> (ids: Vec<[u8; 32]>)
    ensures
        octets::ids_of(ids@) == octets::chunks(raw@),
{
    let mut ids: Vec<[u8; 32]> = Vec::new();
    let count: usize = raw.len() / 32;
    let mut i: usize = 0;
    while i < count
        invariant
            i <= count,
            count == raw@.len() / 32,
            raw@.len() <= usize::MAX,
            ids@.len() == i,
            forall|j: int| 0 <= j < i ==> (#[trigger] ids@[j])@ == octets::chunks(raw@)[j],
        decreases count - i,
    {
        let id = chunk_at(raw, 32 * i);
        ids.push(id);
        i = i + 1;
    }
    assert(octets::ids_of(ids@) =~= octets::chunks(raw@));
    ids
}

/// Putting one more chunk at the end of whole chunks.
pub proof fn lemma_chunks_push(raw: Seq<u8>, id: Seq<u8>)
    requires
        raw.len() % 32 == 0,
        id.len() == 32,
    ensures
        (raw + id).len() % 32 == 0,
        octets::chunks(raw + id) == octets::chunks(raw).push(id),
{
    let more = raw + id;
    assert(more.len() / 32 == raw.len() / 32 + 1);
    assert forall|i: int| 0 <= i < more.len() / 32 implies #[trigger] octets::chunks(more)[i] == octets::chunks(
        raw,
    ).push(id)[i] by {
        if i < raw.len() / 32 {
            assert(more.subrange(32 * i, 32 * i + 32) =~= raw.subrange(32 * i, 32 * i + 32));
        } else {
            assert(more.subrange(32 * i, 32 * i + 32) =~= id);
        }
    }
    assert(octets::chunks(more) =~= octets::chunks(raw).push(id));
}

/// A list of peer ids is read back as it was written.
pub proof fn law_peer_ids_round_trip(ids: Seq<Seq<u8>>)
    requires
        forall|i: int| 0 <= i < ids.len() ==> (#[trigger] ids[i]).len() == 32,
    ensures
        octets::chunks(concat(ids)) == ids,
        concat(ids).len() % 32 == 0,
    decreases ids.len(),
{
    if ids.len() == 0 {
        assert(octets::chunks(concat(ids)) =~= ids);
    } else {
        let init = ids.drop_last();
        assert forall|i: int| 0 <= i < init.len() implies (#[trigger] init[i]).len() == 32 by {
            assert(ids[i].len() == 32);
        }
        law_peer_ids_round_trip(init);
        assert(ids[ids.len() - 1].len() == 32);
        lemma_chunks_push(concat(init), ids.last());
        assert(ids =~= init.push(ids.last()));
    }
}

/// The key of a membership's rows: the ring name, a NUL, and the peer's bytes.
///
/// The same peer can have a different label and expiry in each ring: they are properties of
/// the membership, not of the peer.
pub open spec fn member_row(ring: Seq<char>, peer: Seq<u8>) -> Seq<u8> {
    vstd::utf8::encode_utf8(ring) + seq![0u8] + peer
}

/// The key of a membership's rows.
pub fn member_key(ring_name: &str, peer: &[u8; 32]) -> (key: Vec<u8>)
    ensures
        key@ == member_row(ring_name@, peer@),
{
    let mut key: Vec<u8> = Vec::new();
    octets::append(&mut key, ring_name.as_bytes());
    key.push(0);
    octets::append(&mut key, peer.as_slice());
    assert(key@ =~= member_row(ring_name@, peer@));
    key
}

/// Different memberships have different keys.
pub proof fn law_member_keys_distinct(r1: Seq<char>, p1: Seq<u8>, r2: Seq<char>, p2: Seq<u8>)
    requires
        p1.len() == 32,
        p2.len() == 32,
        member_row(r1, p1) == member_row(r2, p2),
    ensures
        r1 == r2,
        p1 == p2,
{
    let k1 = member_row(r1, p1);
    let k2 = member_row(r2, p2);
    let n = k1.len() - 32;
    assert(k1.subrange(n, n + 32) =~= p1);
    assert(k2.subrange(n, n + 32) =~= p2);
    assert(k1.subrange(0, n - 1) =~= vstd::utf8::encode_utf8(r1));
    assert(k2.subrange(0, n - 1) =~= vstd::utf8::encode_utf8(r2));
    octets::lemma_utf8_injective(r1, r2);
}

/// Whether the length of a resource id fits in two bytes.
pub open spec fn id_fits(id: Seq<u8>) -> bool {
    id.len() < 0x1_0000
}

/// The key of a permission row: the length of the resource id in two bytes, the resource id,
/// and the ring name.
///
/// A resource id whose length does not fit in two bytes stands between two zero bytes and a
/// `0xff`, and another `0xff`. The boundary between id and name is unambiguous, whatever the id
/// holds: no text in UTF-8 has a byte `0xff`.
pub open spec fn perm_row(id: Seq<u8>, ring: Seq<char>) -> Seq<u8> {
    if id_fits(id) {
        octets::le_bytes(id.len(), 2) + id + vstd::utf8::encode_utf8(ring)
    } else {
        seq![0u8, 0u8, 0xffu8] + id + seq![0xffu8] + vstd::utf8::encode_utf8(ring)
    }
}

/// The key of a permission row.
pub fn perm_key(resource_id: &[u8], ring_name: &str) -> (key: Vec<u8>)
    ensures
        key@ == perm_row(resource_id@, ring_name@),
{
    let mut key: Vec<u8> = Vec::new();
    if resource_id.len() < 0x1_0000 {
        octets::push_le(&mut key, resource_id.len() as u64, 2);
        octets::append(&mut key, resource_id);
    } else {
        key.push(0);
        key.push(0);
        key.push(0xff);
        octets::append(&mut key, resource_id);
        key.push(0xff);
    }
    octets::append(&mut key, ring_name.as_bytes());
    assert(key@ =~= perm_row(resource_id@, ring_name@));
    key
}

/// Different associations have different keys.
pub proof fn law_perm_keys_distinct(id1: Seq<u8>, r1: Seq<char>, id2: Seq<u8>, r2: Seq<char>)
    requires
        perm_row(id1, r1) == perm_row(id2, r2),
    ensures
        id1 == id2,
        r1 == r2,
{
    let k1 = perm_row(id1, r1);
    let k2 = perm_row(id2, r2);
    if id_fits(id1) && id_fits(id2) {
        octets::lemma_le_widths();
        octets::lemma_le_round_trip(id1.len(), 2);
        octets::lemma_le_round_trip(id2.len(), 2);
        assert(k1.subrange(0, 2) =~= octets::le_bytes(id1.len(), 2));
        assert(k2.subrange(0, 2) =~= octets::le_bytes(id2.len(), 2));
        assert(id1.len() == id2.len());
        let n = id1.len() as int;
        assert(k1.subrange(2, 2 + n) =~= id1);
        assert(k2.subrange(2, 2 + n) =~= id2);
        assert(k1.subrange(2 + n, k1.len() as int) =~= vstd::utf8::encode_utf8(r1));
        assert(k2.subrange(2 + n, k2.len() as int) =~= vstd::utf8::encode_utf8(r2));
    } else if id_fits(id1) {
        lemma_short_key_is_no_long_key(id1, r1, k2);
    } else if id_fits(id2) {
        lemma_short_key_is_no_long_key(id2, r2, k1);
    } else {
        lemma_long_keys(id1, r1, id2, r2);
        lemma_long_keys(id2, r2, id1, r1);
        let n = id1.len() as int;
        assert(id1.len() == id2.len());
        assert(k1.subrange(3, 3 + n) =~= id1);
        assert(k2.subrange(3, 3 + n) =~= id2);
        assert(k1.subrange(4 + n, k1.len() as int) =~= vstd::utf8::encode_utf8(r1));
        assert(k2.subrange(4 + n, k2.len() as int) =~= vstd::utf8::encode_utf8(r2));
    }
    octets::lemma_utf8_injective(r1, r2);
}

/// The key of a short resource id does not begin as that of a long one does.
proof fn lemma_short_key_is_no_long_key(id: Seq<u8>, ring: Seq<char>, key: Seq<u8>)
    requires
        id_fits(id),
        key.len() >= 3,
        key[0] == 0,
        key[1] == 0,
        key[2] == 0xff,
    ensures
        perm_row(id, ring) != key,
{
    if perm_row(id, ring) == key {
        octets::lemma_le_widths();
        octets::lemma_le_round_trip(id.len(), 2);
        octets::lemma_le_round_trip(0, 2);
        assert(octets::le_bytes(id.len(), 2) =~= octets::le_bytes(0, 2)) by {
            assert(key.subrange(0, 2) =~= octets::le_bytes(id.len(), 2));
            reveal_with_fuel(octets::le_bytes, 3);
        }
        assert(id.len() == 0);
        let text = vstd::utf8::encode_utf8(ring);
        assert(text[0] == key[2]);
        lemma_no_ff_byte(ring);
        assert(text.contains(0xffu8));
    }
}

/// The last `0xff` in the key of a long resource id is the one that ends the id.
proof fn lemma_long_keys(id1: Seq<u8>, r1: Seq<char>, id2: Seq<u8>, r2: Seq<char>)
    requires
        !id_fits(id1),
        !id_fits(id2),
        perm_row(id1, r1) == perm_row(id2, r2),
    ensures
        id1.len() >= id2.len(),
{
    let key = perm_row(id1, r1);
    let text = vstd::utf8::encode_utf8(r1);
    let at = 3 + id2.len() as int;
    assert(perm_row(id2, r2)[at] == 0xff);
    if id1.len() < id2.len() {
        lemma_no_ff_byte(r1);
        let head = seq![0u8, 0u8, 0xffu8] + id1 + seq![0xffu8];
        let k = at - head.len();
        assert(head.len() == 4 + id1.len());
        assert(key == head + text);
        assert(key.len() >= 4 + id2.len());
        assert(0 <= k < text.len());
        assert(key[at] == text[k]);
        assert(text.contains(text[k]));
    }
}

/// No text has a byte `0xff` in UTF-8.
proof fn lemma_no_ff_byte(text: Seq<char>)
    ensures
        !vstd::utf8::encode_utf8(text).contains(0xffu8),
    decreases text.len(),
{
    let bytes = vstd::utf8::encode_utf8(text);
    if text.len() > 0 {
        let rest = text.drop_first();
        lemma_no_ff_byte(rest);
        let c = text[0] as u32;
        let head = vstd::utf8::encode_scalar(c);
        assert forall|i: int| 0 <= i < head.len() implies head[i] != 0xff by {
            assert((c & 0x7f) as u8 != 0xff) by (bit_vector);
            assert(0xc0u8 | ((c >> 6) & 0x1f) as u8 != 0xff) by (bit_vector);
            assert(0xe0u8 | ((c >> 12) & 0x0f) as u8 != 0xff) by (bit_vector);
            assert(0xf0u8 | ((c >> 18) & 0x7) as u8 != 0xff) by (bit_vector);
            assert(0x80u8 | (c & 0x3f) as u8 != 0xff) by (bit_vector);
            assert(0x80u8 | ((c >> 6) & 0x3f) as u8 != 0xff) by (bit_vector);
            assert(0x80u8 | ((c >> 12) & 0x3f) as u8 != 0xff) by (bit_vector);
        }
        assert forall|i: int| 0 <= i < bytes.len() implies bytes[i] != 0xff by {
            if i < head.len() {
                assert(bytes[i] == head[i]);
            } else {
                assert(bytes[i] == vstd::utf8::encode_utf8(rest)[i - head.len()]);
                assert(vstd::utf8::encode_utf8(rest).contains(bytes[i]));
            }
        }
    }
}

/// The bit that stands for a permission.
pub open spec fn bit(p: Permission) -> u8 {
    match p {
        Permission::Read => 0b001,
        Permission::Write => 0b010,
        Permission::Delete => 0b100,
    }
}

/// The permissions that a bitfield holds.
pub open spec fn perm_set(bits: u8) -> Set<Permission> {
    Set::new(|p: Permission| bits & bit(p) != 0)
}

/// The bit that stands for a permission.
pub fn permission_bit(p: Permission) -> (b: u8)
    ensures
        b == bit(p),
{
    match p {
        Permission::Read => 0b001,
        Permission::Write => 0b010,
        Permission::Delete => 0b100,
    }
}

/// The bitfield that stands for a set of permissions.
pub open spec fn set_byte(permissions: Set<Permission>) -> u8 {
    ((if permissions.contains(Permission::Read) { 0b001int } else { 0 })
        + (if permissions.contains(Permission::Write) { 0b010int } else { 0 })
        + (if permissions.contains(Permission::Delete) { 0b100int } else { 0 })) as u8
}

/// The bitfield of a list of permissions.
pub fn perms_to_byte(perms: &[Permission]) -> (bits: u8)
    ensures
        bits == set_byte(perms@.to_set()),
        perm_set(bits) == perms@.to_set(),
{
    let mut bits: u8 = 0;
    let mut i: usize = 0;
    proof {
        assert(0u8 & 1 == 0 && 0u8 & 2 == 0 && 0u8 & 4 == 0) by (bit_vector);
    }
    while i < perms.len()
        invariant
            i <= perms@.len(),
            bits < 8,
            forall|p: Permission| #[trigger]
                perm_set(bits).contains(p) <==> exists|j: int| 0 <= j < i && perms@[j] == p,
        decreases perms@.len() - i,
    {
        let b = permission_bit(perms[i]);
        let ghost before = bits;
        bits = bits | b;
        proof {
            assert((before | b) & 1 == (before & 1) | (b & 1)) by (bit_vector);
            assert((before | b) & 2 == (before & 2) | (b & 2)) by (bit_vector);
            assert((before | b) & 4 == (before & 4) | (b & 4)) by (bit_vector);
            assert(1u8 & 1 == 1 && 1u8 & 2 == 0 && 1u8 & 4 == 0) by (bit_vector);
            assert(2u8 & 1 == 0 && 2u8 & 2 == 2 && 2u8 & 4 == 0) by (bit_vector);
            assert(4u8 & 1 == 0 && 4u8 & 2 == 0 && 4u8 & 4 == 4) by (bit_vector);
            assert(before < 8 && b < 8 ==> (before | b) < 8) by (bit_vector);
            assert(forall|x: u8| #![auto] x | 0u8 == x) by (bit_vector);
            assert(forall|x: u8, y: u8| y != 0 ==> #[trigger] (x | y) != 0) by (bit_vector);
            assert forall|p: Permission| #[trigger] perm_set(bits).contains(p) <==> exists|j: int|
                0 <= j < i + 1 && perms@[j] == p by {
                assert(perm_set(bits).contains(p) <==> perm_set(before).contains(p) || perms@[i as int] == p);
            }
        }
        i = i + 1;
    }
    proof {
        let set = perms@.to_set();
        assert(perm_set(bits) =~= set);
        assert(set.contains(Permission::Read) == (bits & 1 != 0));
        assert(set.contains(Permission::Write) == (bits & 2 != 0));
        assert(set.contains(Permission::Delete) == (bits & 4 != 0));
        assert(bits < 8 ==> bits == (if bits & 1 != 0 { 1int } else { 0 }) + (if bits & 2 != 0 { 2int } else { 0 }) + (
        if bits & 4 != 0 { 4int } else { 0 })) by (bit_vector);
    }
    bits
}

/// The permissions that a bitfield holds, `Read` before `Write` before `Delete`.
pub open spec fn perm_list(bits: u8) -> Seq<Permission> {
    (if bits & 0b001 != 0 { seq![Permission::Read] } else { seq![] })
        + (if bits & 0b010 != 0 { seq![Permission::Write] } else { seq![] })
        + (if bits & 0b100 != 0 { seq![Permission::Delete] } else { seq![] })
}

/// The list of a bitfield holds what the bitfield holds.
pub proof fn lemma_perm_list(bits: u8)
    ensures
        perm_list(bits).to_set() == perm_set(bits),
{
    let list = perm_list(bits);
    let r: int = if bits & 0b001 != 0 { 1 } else { 0 };
    let w: int = if bits & 0b010 != 0 { 1 } else { 0 };
    assert forall|p: Permission| list.contains(p) <==> perm_set(bits).contains(p) by {
        if perm_set(bits).contains(p) {
            match p {
                Permission::Read => {
                    assert(list[0] == p);
                },
                Permission::Write => {
                    assert(list[r] == p);
                },
                Permission::Delete => {
                    assert(list[r + w] == p);
                },
            }
        }
    }
    assert(list.to_set() =~= perm_set(bits));
}

/// The permissions that a bitfield holds.
pub fn byte_to_perms(bits: u8) -> (perms: Vec<Permission>)
    ensures
        perms@ == perm_list(bits),
        perms@.to_set() == perm_set(bits),
{
    let mut perms: Vec<Permission> = Vec::new();
    if bits & 0b001 != 0 {
        perms.push(Permission::Read);
    }
    if bits & 0b010 != 0 {
        perms.push(Permission::Write);
    }
    if bits & 0b100 != 0 {
        perms.push(Permission::Delete);
    }
    proof {
        assert(perms@ =~= perm_list(bits));
        lemma_perm_list(bits);
    }
    perms
}

/// What an expiry in the database means: nanoseconds from the epoch.
pub open spec fn expiry_nanos(row: (u64, u32)) -> int {
    row.0 * time::NANOS_PER_SEC + row.1
}

/// The expiry that is kept for one that is given: nothing lies before the epoch.
pub open spec fn kept(end: int) -> int {
    if end < 0 {
        0
    } else {
        end
    }
}

/// The seconds and nanoseconds since the epoch of the expiry that is kept.
pub open spec fn expiry_row(end: int) -> (u64, u32) {
    (
        (kept(end) / (time::NANOS_PER_SEC as int)) as u64,
        (kept(end) % (time::NANOS_PER_SEC as int)) as u32,
    )
}

/// Encodes an expiry as seconds and nanoseconds since the epoch.
///
/// Times before the epoch are clamped to the epoch: they have passed either way.
pub fn encode_expiry(t: &Timestamp) -> (row: (u64, u32))
    ensures
        row == expiry_row(t@),
        expiry_nanos(row) == kept(t@),
        kept(t@) < time::TOO_LATE,
{
    let secs = t.secs();
    if secs < 0 {
        return (0, 0);
    }
    (secs as u64, t.subsec_nanos())
}

/// Decodes an expiry; fails if it lies too late to be represented.
pub fn decode_expiry(row: (u64, u32)) -> (result: Result<Timestamp, Error>)
    ensures
        match result {
            Ok(t) => expiry_nanos(row) < time::TOO_LATE && t@ == expiry_nanos(row),
            Err(e) => expiry_nanos(row) >= time::TOO_LATE && e is Storage,
        },
{
    let nanos: i128 = row.0 as i128 * time::NANOS_PER_SEC + row.1 as i128;
    if nanos >= time::TOO_LATE {
        return Err(Error::Storage("expiry out of range".to_string()));
    }
    Ok(Timestamp::from_offset(Ok(row)))
}

/// An expiry at or after the epoch is read back as it was written; one before the epoch is read
/// back as the epoch.
pub proof fn law_expiry_round_trip(end: int)
    requires
        end < time::TOO_LATE,
    ensures
        expiry_nanos(expiry_row(end)) == kept(end),
        end >= 0 ==> expiry_nanos(expiry_row(end)) == end,
{
    let n = kept(end);
    assert(n / 1_000_000_000 <= u64::MAX) by (nonlinear_arith)
        requires
            0 <= n < 9_223_372_036_854_775_808_000_000_000,
    ;
}

/// Ring names as character sequences.
pub open spec fn names_of(names: Seq<String>) -> Seq<Seq<char>> {
    names.map_values(|name: String| name@)
}

/// The texts in UTF-8, with a NUL between each two.
pub open spec fn joined(names: Seq<Seq<char>>) -> Seq<u8>
    decreases names.len(),
{
    if names.len() == 0 {
        Seq::empty()
    } else if names.len() == 1 {
        vstd::utf8::encode_utf8(names[0])
    } else {
        joined(names.drop_last()) + seq![0u8] + vstd::utf8::encode_utf8(names.last())
    }
}

/// The pieces of `raw` between its NUL bytes.
pub open spec fn pieces(raw: Seq<u8>) -> Seq<Seq<u8>>
    decreases raw.len(),
{
    if raw.len() == 0 {
        seq![Seq::empty()]
    } else {
        let before = pieces(raw.drop_last());
        if raw.last() == 0 {
            before.push(Seq::empty())
        } else {
            before.update(before.len() - 1, before.last().push(raw.last()))
        }
    }
}

/// What `String::from_utf8_lossy` makes of bytes.
pub uninterp spec fn lossy_text(bytes: Seq<u8>) -> Seq<char>;

/// `String::from_utf8_lossy` depends on nothing but the bytes; its result is given a name. Bytes
/// that are valid UTF-8 it decodes as they are.
#[verifier::external_body]
fn lossy(bytes: &[u8]) -> (text: String)
    ensures
        text@ == lossy_text(bytes@),
        vstd::utf8::valid_utf8(bytes@) ==> text@ == vstd::utf8::decode_utf8(bytes@),
{
    String::from_utf8_lossy(bytes).into_owned()
}

/// The text that bytes stand for: decoded as UTF-8, and made good where they are no UTF-8.
pub open spec fn text_in(bytes: Seq<u8>) -> Seq<char> {
    if vstd::utf8::valid_utf8(bytes) {
        vstd::utf8::decode_utf8(bytes)
    } else {
        lossy_text(bytes)
    }
}

/// The ring names that a row holds.
pub open spec fn names_in(raw: Seq<u8>) -> Seq<Seq<char>> {
    if raw.len() == 0 {
        Seq::empty()
    } else {
        pieces(raw).map_values(|piece: Seq<u8>| text_in(piece))
    }
}

/// Encodes a list of ring names, with a NUL between each two.
pub fn encode_ring_names(names: &Vec<String>) -> (raw: Vec<u8>)
    ensures
        raw@ == joined(names_of(names@)),
{
    let mut raw: Vec<u8> = Vec::new();
    let ghost all = names_of(names@);
    let mut i: usize = 0;
    while i < names.len()
        invariant
            i <= names@.len(),
            all == names_of(names@),
            raw@ == joined(all.take(i as int)),
        decreases names@.len() - i,
    {
        if i > 0 {
            raw.push(0);
        }
        octets::append(&mut raw, names[i].as_str().as_bytes());
        proof {
            let next = all.take(i + 1);
            assert(next.drop_last() =~= all.take(i as int));
            assert(raw@ =~= joined(next));
        }
        i = i + 1;
    }
    assert(all.take(i as int) =~= all);
    raw
}

/// There is always a piece.
proof fn lemma_pieces_nonempty(raw: Seq<u8>)
    ensures
        pieces(raw).len() > 0,
    decreases raw.len(),
{
    if raw.len() > 0 {
        lemma_pieces_nonempty(raw.drop_last());
    }
}

/// Decodes a list of ring names.
pub fn decode_ring_names(raw: &[u8]) -> (names: Vec<String>)
    ensures
        names_of(names@) == names_in(raw@),
{
    let mut names: Vec<String> = Vec::new();
    if raw.len() == 0 {
        assert(names_of(names@) =~= names_in(raw@));
        return names;
    }
    let mut current: Vec<u8> = Vec::new();
    let mut i: usize = 0;
    proof {
        assert(raw@.take(0) =~= Seq::empty());
        assert(pieces(Seq::empty()) =~= seq![Seq::<u8>::empty()]);
    }
    while i < raw.len()
        invariant
            i <= raw@.len(),
            pieces(raw@.take(i as int)).len() == names@.len() + 1,
            pieces(raw@.take(i as int)).last() == current@,
            forall|j: int|
                0 <= j < names@.len() ==> (#[trigger] names@[j])@ == text_in(pieces(raw@.take(i as int))[j]),
        decreases raw@.len() - i,
    {
        assert(raw@.take(i + 1).drop_last() =~= raw@.take(i as int));
        if raw[i] == 0 {
            let piece = current;
            names.push(lossy(piece.as_slice()));
            current = Vec::new();
        } else {
            current.push(raw[i]);
        }
        i = i + 1;
    }
    assert(raw@.take(i as int) =~= raw@);
    names.push(lossy(current.as_slice()));
    assert(names_of(names@) =~= names_in(raw@));
    names
}

/// Whether a text is free of NUL characters.
pub open spec fn nul_free(text: Seq<char>) -> bool {
    forall|i: int| 0 <= i < text.len() ==> text[i] != '\0'
}

/// A text without NUL characters has no NUL byte in UTF-8.
proof fn lemma_no_nul_byte(text: Seq<char>)
    requires
        nul_free(text),
    ensures
        !vstd::utf8::encode_utf8(text).contains(0u8),
    decreases text.len(),
{
    let bytes = vstd::utf8::encode_utf8(text);
    if text.len() > 0 {
        let rest = text.drop_first();
        assert forall|i: int| 0 <= i < rest.len() implies rest[i] != '\0' by {
            assert(rest[i] == text[i + 1]);
        }
        lemma_no_nul_byte(rest);
        let c = text[0] as u32;
        assert(c != 0) by {
            vstd::utf8::char_u32_cast(text[0], c);
            vstd::utf8::char_u32_cast('\0', 0u32);
            assert(text[0] != '\0');
        }
        let head = vstd::utf8::encode_scalar(c);
        lemma_scalar_bytes(c);
        assert forall|i: int| 0 <= i < bytes.len() implies bytes[i] != 0 by {
            if i < head.len() {
                assert(bytes[i] == head[i]);
            } else {
                assert(bytes[i] == vstd::utf8::encode_utf8(rest)[i - head.len()]);
                assert(vstd::utf8::encode_utf8(rest).contains(bytes[i]));
            }
        }
    }
}

/// The bytes of a character that is not NUL.
proof fn lemma_scalar_bytes(c: u32)
    requires
        c != 0,
    ensures
        forall|i: int| 0 <= i < vstd::utf8::encode_scalar(c).len() ==> vstd::utf8::encode_scalar(c)[i] != 0,
{
    assert(c <= 0x7f && c != 0 ==> (c & 0x7f) as u8 != 0) by (bit_vector);
    assert(forall|x: u8| (0xc0u8 | x) != 0) by (bit_vector);
    assert(forall|x: u8| (0xe0u8 | x) != 0) by (bit_vector);
    assert(forall|x: u8| (0xf0u8 | x) != 0) by (bit_vector);
    assert(forall|x: u8| (0x80u8 | x) != 0) by (bit_vector);
}

/// Putting bytes without a NUL at the end lengthens the last piece.
proof fn lemma_pieces_extend(raw: Seq<u8>, more: Seq<u8>)
    requires
        !more.contains(0u8),
    ensures
        pieces(raw + more) == pieces(raw).update(pieces(raw).len() - 1, pieces(raw).last() + more),
    decreases more.len(),
{
    lemma_pieces_nonempty(raw);
    if more.len() == 0 {
        assert(raw + more =~= raw);
        assert(pieces(raw).last() + more =~= pieces(raw).last());
        assert(pieces(raw) =~= pieces(raw).update(pieces(raw).len() - 1, pieces(raw).last()));
    } else {
        let init = more.drop_last();
        assert(!init.contains(0u8)) by {
            if init.contains(0u8) {
                let i = choose|i: int| 0 <= i < init.len() && init[i] == 0u8;
                assert(more[i] == 0u8);
            }
        }
        lemma_pieces_extend(raw, init);
        assert((raw + more).drop_last() =~= raw + init);
        assert(more[more.len() - 1] != 0);
        assert((raw + more).last() == more.last());
        assert((pieces(raw).last() + init).push(more.last()) =~= pieces(raw).last() + more);
        assert(pieces(raw + more) =~= pieces(raw).update(pieces(raw).len() - 1, pieces(raw).last() + more));
    }
}

/// Splitting what was joined gives the texts that were joined.
proof fn lemma_pieces_of_joined(names: Seq<Seq<char>>)
    requires
        names.len() > 0,
        forall|i: int| 0 <= i < names.len() ==> nul_free(#[trigger] names[i]),
    ensures
        pieces(joined(names)) == names.map_values(|name: Seq<char>| vstd::utf8::encode_utf8(name)),
    decreases names.len(),
{
    let f = |name: Seq<char>| vstd::utf8::encode_utf8(name);
    let last = vstd::utf8::encode_utf8(names.last());
    assert(nul_free(names[names.len() - 1]));
    lemma_no_nul_byte(names.last());
    if names.len() == 1 {
        let none = Seq::<u8>::empty();
        lemma_pieces_extend(none, last);
        assert(none + last =~= last);
        assert(pieces(none) =~= seq![none]);
        assert(pieces(last) =~= names.map_values(f));
    } else {
        let init = names.drop_last();
        assert forall|i: int| 0 <= i < init.len() implies nul_free(#[trigger] init[i]) by {
            assert(nul_free(names[i]));
        }
        lemma_pieces_of_joined(init);
        let cut = joined(init) + seq![0u8];
        assert(cut.drop_last() =~= joined(init));
        assert(pieces(cut) == pieces(joined(init)).push(Seq::empty()));
        lemma_pieces_extend(cut, last);
        assert(Seq::<u8>::empty() + last =~= last);
        assert(pieces(cut + last) =~= names.map_values(f));
    }
}

/// A list of names is read back as it was written, if no name holds a NUL: the one exception is
/// the list of nothing but an empty name, which is read back as the empty list.
pub proof fn law_ring_names_round_trip(names: Seq<Seq<char>>)
    requires
        forall|i: int| 0 <= i < names.len() ==> nul_free(#[trigger] names[i]),
        !(names.len() == 1 && names[0].len() == 0),
    ensures
        names_in(joined(names)) == names,
{
    if names.len() > 0 {
        lemma_pieces_of_joined(names);
        let encoded = pieces(joined(names));
        assert forall|i: int| 0 <= i < names.len() implies text_in(#[trigger] encoded[i]) == names[i] by {
            assert(encoded[i] == vstd::utf8::encode_utf8(names[i]));
            vstd::utf8::encode_utf8_valid_utf8(names[i]);
            vstd::utf8::encode_utf8_decode_utf8(names[i]);
        }
        if joined(names).len() == 0 {
            assert(encoded.len() == 1);
            assert(encoded[0] == vstd::utf8::encode_utf8(names[0]));
            assert(pieces(joined(names)) == seq![Seq::<u8>::empty()]);
            assert(names[0] == vstd::utf8::decode_utf8(Seq::empty()));
        }
    }
    assert(names_in(joined(names)) =~= names);
}

/// Peer ids are written one after the other, 32 bytes each, and are read back so: id `i` is the bytes
/// from `32 * i` on. Bytes that make no whole id at the end are left out.
pub proof fn law_peer_ids_on_disk(ids: &Vec<[u8; 32]>, raw: Vec<u8>, bytes: &[u8], read: Vec<[u8; 32]>)
    requires
        call_ensures(encode_peer_ids, (ids,), raw),
        call_ensures(decode_peer_ids, (bytes,), read),
    ensures
        raw@.len() == 32 * ids@.len(),
        forall|i: int, j: int|
            0 <= i < ids@.len() && 0 <= j < 32 ==> raw@[32 * i + j] == #[trigger] ids@[i]@[j],
        read@.len() == bytes@.len() / 32,
        forall|i: int, j: int|
            0 <= i < read@.len() && 0 <= j < 32 ==> #[trigger] read@[i]@[j] == bytes@[32 * i + j],
        bytes@ == raw@ ==> octets::ids_of(read@) == octets::ids_of(ids@),
{
    let list = octets::ids_of(ids@);
    octets::law_ids(ids@);
    octets::law_ids(read@);
    law_peer_ids_round_trip(list);
    octets::law_chunks(raw@);
    octets::law_chunks(bytes@);
    assert(octets::chunks(raw@) == list);
    assert forall|i: int, j: int| 0 <= i < ids@.len() && 0 <= j < 32 implies raw@[32 * i + j]
        == #[trigger] ids@[i]@[j] by {
        assert(octets::chunks(raw@)[i][j] == raw@[32 * i + j]);
        assert(list[i] == ids@[i]@);
    }
    assert forall|i: int, j: int| 0 <= i < read@.len() && 0 <= j < 32 implies #[trigger] read@[i]@[j] == bytes@[32 * i
        + j] by {
        assert(octets::chunks(bytes@)[i][j] == bytes@[32 * i + j]);
        assert(octets::ids_of(read@)[i] == read@[i]@);
    }
}

/// A label and an expiry are filed under the name of the ring, a NUL, and the bytes of the peer.
pub proof fn law_member_key_on_disk(ring: &str, peer: &[u8; 32], key: Vec<u8>)
    requires
        call_ensures(member_key, (ring, peer), key),
    ensures
        ({
            let name = vstd::utf8::encode_utf8(ring@);
            &&& key@.len() == name.len() + 33
            &&& key@.subrange(0, name.len() as int) == name
            &&& key@[name.len() as int] == 0
            &&& key@.subrange(name.len() as int + 1, name.len() as int + 33) == peer@
        }),
{
    let name = vstd::utf8::encode_utf8(ring@);
    assert(key@.subrange(0, name.len() as int) =~= name);
    assert(key@.subrange(name.len() as int + 1, name.len() as int + 33) =~= peer@);
}

/// Permissions are filed under the length of the resource id in two bytes, low byte first, the id,
/// and the name of the ring. An id whose length does not fit stands between the bytes `0 0 255` and
/// `255`.
pub proof fn law_perm_key_on_disk(id: &[u8], ring: &str, key: Vec<u8>)
    requires
        call_ensures(perm_key, (id, ring), key),
    ensures
        ({
            let n = id@.len() as int;
            let name = vstd::utf8::encode_utf8(ring@);
            &&& n < 65_536 ==> {
                &&& key@.len() == 2 + n + name.len()
                &&& key@[0] + 256 * key@[1] == n
                &&& key@.subrange(2, 2 + n) == id@
                &&& key@.subrange(2 + n, 2 + n + name.len()) == name
            }
            &&& n >= 65_536 ==> key@ == seq![0u8, 0u8, 255u8] + id@ + seq![255u8] + name
        }),
{
    let n = id@.len() as int;
    let name = vstd::utf8::encode_utf8(ring@);
    if n < 65_536 {
        let length = octets::le_bytes(id@.len(), 2);
        octets::lemma_le_widths();
        octets::lemma_le_round_trip(id@.len(), 2);
        octets::law_little_endian(length);
        assert(key@[0] == length[0] && key@[1] == length[1]);
        assert(key@.subrange(2, 2 + n) =~= id@);
        assert(key@.subrange(2 + n, 2 + n + name.len()) =~= name);
    }
}

/// A permission set is a byte in which `Read` counts one, `Write` two and `Delete` four, each once.
/// What is read back from a byte has each permission whose bit is set, once, and no other.
pub proof fn law_permissions_on_disk(
    permission: Permission,
    bit: u8,
    given: &[Permission],
    byte: u8,
    bits: u8,
    read: Vec<Permission>,
)
    requires
        call_ensures(permission_bit, (permission,), bit),
        call_ensures(perms_to_byte, (given,), byte),
        call_ensures(byte_to_perms, (bits,), read),
    ensures
        bit == match permission {
            Permission::Read => 1u8,
            Permission::Write => 2u8,
            Permission::Delete => 4u8,
        },
        byte == (if given@.contains(Permission::Read) { 1int } else { 0 }) + (if given@.contains(
            Permission::Write,
        ) { 2int } else { 0 }) + (if given@.contains(Permission::Delete) { 4int } else { 0 }),
        read@.contains(Permission::Read) <==> bits % 2 == 1,
        read@.contains(Permission::Write) <==> bits / 2 % 2 == 1,
        read@.contains(Permission::Delete) <==> bits / 4 % 2 == 1,
        forall|i: int, j: int| 0 <= i < j < read@.len() ==> read@[i] != read@[j] && read@[j] != Permission::Read
            && read@[i] != Permission::Delete,
        forall|p: Permission| bits == byte ==> (#[trigger] read@.contains(p) <==> given@.contains(p)),
{
    assert((bits & 0b001u8 != 0) == (bits % 2 == 1)) by (bit_vector);
    assert((bits & 0b010u8 != 0) == (bits / 2 % 2 == 1)) by (bit_vector);
    assert((bits & 0b100u8 != 0) == (bits / 4 % 2 == 1)) by (bit_vector);
    assert forall|p: Permission| #[trigger] read@.contains(p) <==> bits & self::bit(p) != 0 by {
        assert(read@.contains(p) == read@.to_set().contains(p));
        assert(perm_set(bits).contains(p) == (bits & self::bit(p) != 0));
    }
    assert forall|p: Permission| given@.contains(p) == given@.to_set().contains(p) by {}
    assert(read@.contains(Permission::Read) <==> bits & self::bit(Permission::Read) != 0);
    assert(read@.contains(Permission::Write) <==> bits & self::bit(Permission::Write) != 0);
    assert(read@.contains(Permission::Delete) <==> bits & self::bit(Permission::Delete) != 0);
    if bits == byte {
        assert forall|p: Permission| #[trigger] read@.contains(p) <==> given@.contains(p) by {
            assert(perm_set(byte).contains(p) == given@.to_set().contains(p));
            assert(read@.to_set().contains(p) == read@.contains(p));
        }
    }
}

/// An expiry is written in seconds and nanoseconds from the epoch, and one before the epoch as the
/// epoch. It is read back to the nanosecond; only one of 2^63 seconds or more cannot be.
pub proof fn law_expiries_on_disk(t: &Timestamp, row: (u64, u32), stored: (u64, u32), result: Result<Timestamp, Error>)
    requires
        call_ensures(encode_expiry, (t,), row),
        call_ensures(decode_expiry, (stored,), result),
    ensures
        t@ >= 0 ==> row.0 * 1_000_000_000 + row.1 == t@,
        t@ < 0 ==> row == (0u64, 0u32),
        row.1 < 1_000_000_000,
        result is Ok <==> stored.0 * 1_000_000_000 + stored.1 < 9_223_372_036_854_775_808_000_000_000,
        result matches Ok(read) ==> read@ == stored.0 * 1_000_000_000 + stored.1,
        result matches Err(e) ==> e is Storage,
{
    if t@ < 0 {
        assert(row.0 * 1_000_000_000 + row.1 == 0);
    } else {
        assert(row.0 * 1_000_000_000 + row.1 == t@);
    }
}

/// Ring names are written in UTF-8 with a NUL between one and the next, and nothing for none.
pub proof fn law_ring_names_on_disk(names: Seq<Seq<char>>, name: Seq<char>)
    ensures
        joined(Seq::empty()) == Seq::<u8>::empty(),
        joined(seq![name]) == vstd::utf8::encode_utf8(name),
        names.len() > 0 ==> joined(names.push(name)) == joined(names) + seq![0u8] + vstd::utf8::encode_utf8(name),
{
    assert(names.push(name).drop_last() =~= names);
}

/// Ring names are read back piece by piece: no bytes are no names, bytes without a NUL are one name,
/// and what follows the last NUL is the last name, after those that stand before it.
pub proof fn law_ring_names_in(raw: Seq<u8>, piece: Seq<u8>)
    requires
        forall|i: int| 0 <= i < piece.len() ==> piece[i] != 0,
    ensures
        names_in(Seq::empty()) == Seq::<Seq<char>>::empty(),
        piece.len() > 0 ==> names_in(piece) == seq![text_in(piece)],
        raw.len() > 0 ==> names_in(raw + seq![0u8] + piece) == names_in(raw).push(text_in(piece)),
        vstd::utf8::valid_utf8(piece) ==> text_in(piece) == vstd::utf8::decode_utf8(piece),
{
    let text = |p: Seq<u8>| text_in(p);
    lemma_pieces_after(Seq::empty(), piece);
    assert(Seq::<u8>::empty() + piece =~= piece);
    assert(pieces(Seq::empty()) =~= seq![Seq::<u8>::empty()]);
    assert(pieces(piece) =~= seq![piece]);
    if piece.len() > 0 {
        assert(names_in(piece) =~= seq![text_in(piece)]);
    }
    let start = raw + seq![0u8];
    assert(start.drop_last() =~= raw);
    lemma_pieces_after(start, piece);
    assert(pieces(start) == pieces(raw).push(Seq::empty()));
    assert(pieces(start + piece) =~= pieces(raw).push(piece));
    if raw.len() > 0 {
        assert(names_in(start + piece) =~= names_in(raw).push(text_in(piece)));
    }
}

/// Bytes without a NUL go on with the last piece.
proof fn lemma_pieces_after(raw: Seq<u8>, piece: Seq<u8>)
    requires
        forall|i: int| 0 <= i < piece.len() ==> piece[i] != 0,
    ensures
        pieces(raw).len() > 0,
        pieces(raw + piece) == pieces(raw).update(pieces(raw).len() - 1, pieces(raw).last() + piece),
    decreases raw.len() + piece.len(),
{
    if piece.len() == 0 {
        assert(raw + piece =~= raw);
        if raw.len() > 0 {
            lemma_pieces_after(raw.drop_last(), Seq::empty());
        }
        assert(pieces(raw).last() + piece =~= pieces(raw).last());
        assert(pieces(raw) =~= pieces(raw).update(pieces(raw).len() - 1, pieces(raw).last() + piece));
    } else {
        let init = piece.drop_last();
        lemma_pieces_after(raw, init);
        assert((raw + piece).drop_last() =~= raw + init);
        assert((pieces(raw).last() + init).push(piece.last()) =~= pieces(raw).last() + piece);
        assert(pieces(raw + piece) =~= pieces(raw).update(pieces(raw).len() - 1, pieces(raw).last() + piece));
    }
}

/// The texts of a list are those of its entries, one by one.
pub proof fn law_names(names: Seq<String>)
    ensures
        names_of(names).len() == names.len(),
        forall|i: int| 0 <= i < names.len() ==> #[trigger] names_of(names)[i] == names[i]@,
{
}

} // verus!
