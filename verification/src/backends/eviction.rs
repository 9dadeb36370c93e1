//! Going through the rings one by one and collecting the memberships that are over.

use vstd::prelude::*;

use crate::assoc;
use crate::laws;
use crate::model;
use crate::model::{MemberState, RegistryState};
use crate::registry;
use crate::registry::EvictedMembership;

verus! {

/// Whether the ring of `record` has the peer of `pair` as a member whose membership is over.
pub open spec fn lapsed_in(record: (Seq<char>, Seq<MemberState>), pair: (Seq<char>, Seq<u8>), now: int) -> bool {
    record.0 == pair.0 && exists|i: int|
        0 <= i < record.1.len() && (#[trigger] record.1[i]).peer == pair.1 && record.1[i].expired(now)
}

/// Whether [`lapsed_in`] holds of one of the first rings.
pub open spec fn lapsed_within(
    records: Seq<(Seq<char>, Seq<MemberState>)>,
    upto: int,
    pair: (Seq<char>, Seq<u8>),
    now: int,
) -> bool {
    exists|k: int| 0 <= k < upto && lapsed_in(#[trigger] records[k], pair, now)
}

/// Whether no ring occurs twice, and no peer twice in a ring.
pub open spec fn plain(records: Seq<(Seq<char>, Seq<MemberState>)>) -> bool {
    &&& assoc::unique_keys(records)
    &&& forall|j: int| 0 <= j < records.len() ==> model::distinct((#[trigger] records[j]).1)
}

/// Whether `evicted` are the memberships in the first rings that are over at `now`, each once.
pub open spec fn collects(
    evicted: Seq<EvictedMembership>,
    records: Seq<(Seq<char>, Seq<MemberState>)>,
    upto: int,
    now: int,
) -> bool {
    &&& plain(records) ==> forall|a: int, b: int|
        0 <= a < b < evicted.len() ==> (#[trigger] evicted[a])@ != (#[trigger] evicted[b])@
    &&& forall|a: int| 0 <= a < evicted.len() ==> lapsed_within(records, upto, (#[trigger] evicted[a])@, now)
    &&& forall|pair: (Seq<char>, Seq<u8>)| #[trigger]
        lapsed_within(records, upto, pair, now) ==> exists|a: int|
            0 <= a < evicted.len() && (#[trigger] evicted[a])@ == pair
}

/// The memberships that are over at `now`, in order.
pub open spec fn over(members: Seq<MemberState>, now: int) -> Seq<MemberState> {
    members.filter(|m: MemberState| m.expired(now))
}

/// Whether `after` is `before` with the memberships `gone` of the ring `name` put last.
pub open spec fn grows_by(
    before: Seq<EvictedMembership>,
    after: Seq<EvictedMembership>,
    name: Seq<char>,
    gone: Seq<MemberState>,
) -> bool {
    &&& after.len() == before.len() + gone.len()
    &&& forall|i: int| 0 <= i < before.len() ==> #[trigger] after[i] == before[i]
    &&& forall|i: int|
        before.len() <= i < after.len() ==> (#[trigger] after[i])@ == (name, gone[i - before.len()].peer)
}

/// Going through one more ring.
pub proof fn lemma_collect_step(
    before: Seq<EvictedMembership>,
    after: Seq<EvictedMembership>,
    records: Seq<(Seq<char>, Seq<MemberState>)>,
    i: int,
    now: int,
)
    requires
        0 <= i < records.len(),
        collects(before, records, i, now),
        grows_by(before, after, records[i].0, over(records[i].1, now)),
    ensures
        collects(after, records, i + 1, now),
{
    let pred = |m: MemberState| m.expired(now);
    let name = records[i].0;
    let members = records[i].1;
    let gone = over(members, now);
    assert forall|a: int| 0 <= a < gone.len() implies lapsed_in(records[i], (name, (#[trigger] gone[a]).peer), now) by {
        assert(gone.contains(gone[a]));
        laws::lemma_filter_members(members, pred, gone[a]);
        let k = choose|k: int| 0 <= k < members.len() && members[k] == gone[a];
        assert(members[k].peer == gone[a].peer);
    }
    assert forall|a: int| 0 <= a < after.len() implies lapsed_within(records, i + 1, (#[trigger] after[a])@, now) by {
        if a < before.len() {
            assert(after[a] == before[a]);
            let k = choose|k: int| 0 <= k < i && lapsed_in(#[trigger] records[k], before[a]@, now);
            assert(lapsed_in(records[k], after[a]@, now));
        } else {
            assert(after[a]@ == (name, gone[a - before.len()].peer));
            assert(lapsed_in(records[i], after[a]@, now));
        }
    }
    assert forall|pair: (Seq<char>, Seq<u8>)| #[trigger] lapsed_within(records, i + 1, pair, now) implies exists|a: int|
        0 <= a < after.len() && (#[trigger] after[a])@ == pair by {
        if lapsed_within(records, i, pair, now) {
            let a = choose|a: int| 0 <= a < before.len() && (#[trigger] before[a])@ == pair;
            assert(after[a] == before[a]);
        } else {
            assert(lapsed_in(records[i], pair, now));
            let k = choose|k: int|
                0 <= k < members.len() && (#[trigger] members[k]).peer == pair.1 && members[k].expired(now);
            assert(members.contains(members[k]));
            laws::lemma_filter_members(members, pred, members[k]);
            let b = choose|b: int| 0 <= b < gone.len() && gone[b] == members[k];
            assert(after[before.len() + b]@ == (name, gone[b].peer));
        }
    }
    if plain(records) {
        assert(model::distinct(records[i].1));
        laws::lemma_filter_distinct(members, pred);
        assert forall|a: int, b: int| 0 <= a < b < after.len() implies (#[trigger] after[a])@ != (
        #[trigger] after[b])@ by {
            if b < before.len() {
                assert(before[a]@ != before[b]@);
            } else if a < before.len() {
                let k = choose|k: int| 0 <= k < i && lapsed_in(#[trigger] records[k], before[a]@, now);
                assert(records[k].0 != records[i].0);
            } else {
                assert(gone[a - before.len()].peer != gone[b - before.len()].peer);
            }
        }
    }
}

/// After all rings of a registry, what was collected is what is over in the registry.
pub proof fn lemma_collected(
    evicted: Seq<EvictedMembership>,
    records: Seq<(Seq<char>, Seq<MemberState>)>,
    state: RegistryState,
    now: int,
)
    requires
        assoc::unique_keys(records),
        state.wf(),
        state.rings == assoc::assoc(records),
        collects(evicted, records, records.len() as int, now),
    ensures
        registry::lists_lapsed(evicted, state, now),
{
    assert forall|j: int| 0 <= j < records.len() implies model::distinct((#[trigger] records[j]).1) by {
        assoc::lemma_assoc_at(records, j);
    }
    assert forall|a: int| 0 <= a < evicted.len() implies state.lapsed(
        (#[trigger] evicted[a])@.0,
        evicted[a]@.1,
        now,
    ) by {
        let k = choose|k: int| 0 <= k < records.len() && lapsed_in(#[trigger] records[k], evicted[a]@, now);
        assoc::lemma_assoc_at(records, k);
    }
    assert forall|ring: Seq<char>, peer: Seq<u8>| #[trigger] state.lapsed(ring, peer, now) implies exists|a: int|
        0 <= a < evicted.len() && (#[trigger] evicted[a])@ == (ring, peer) by {
        assoc::lemma_assoc_dom(records, ring);
        let k = choose|k: int| 0 <= k < records.len() && (#[trigger] records[k]).0 == ring;
        assoc::lemma_assoc_at(records, k);
        assert(lapsed_in(records[k], (ring, peer), now));
        assert(lapsed_within(records, records.len() as int, (ring, peer), now));
    }
}

} // verus!
