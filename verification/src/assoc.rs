//! Lists: sequences of key–value pairs read as maps, and filtering step by step.

use vstd::prelude::*;

verus! {

/// The map that a sequence of pairs stands for.
pub open spec fn assoc<K, V>(pairs: Seq<(K, V)>) -> Map<K, V>
    decreases pairs.len(),
{
    if pairs.len() == 0 {
        Map::empty()
    } else {
        assoc(pairs.drop_last()).insert(pairs.last().0, pairs.last().1)
    }
}

/// Whether no key occurs twice.
pub open spec fn unique_keys<K, V>(pairs: Seq<(K, V)>) -> bool {
    forall|i: int, j: int| 0 <= i < j < pairs.len() ==> (#[trigger] pairs[i]).0 != (#[trigger] pairs[j]).0
}

/// The position of a key.
pub open spec fn has_key<K, V>(pairs: Seq<(K, V)>, key: K) -> bool {
    exists|i: int| 0 <= i < pairs.len() && (#[trigger] pairs[i]).0 == key
}

/// The keys of the map are the keys of the pairs.
pub proof fn lemma_assoc_dom<K, V>(pairs: Seq<(K, V)>, key: K)
    ensures
        assoc(pairs).contains_key(key) <==> has_key(pairs, key),
    decreases pairs.len(),
{
    if pairs.len() > 0 {
        let init = pairs.drop_last();
        lemma_assoc_dom(init, key);
        if has_key(init, key) {
            let i = choose|i: int| 0 <= i < init.len() && (#[trigger] init[i]).0 == key;
            assert(pairs[i].0 == key);
        }
        if has_key(pairs, key) && pairs.last().0 != key {
            let i = choose|i: int| 0 <= i < pairs.len() && (#[trigger] pairs[i]).0 == key;
            assert(init[i].0 == key);
        }
        if pairs.last().0 == key {
            assert(pairs[pairs.len() - 1].0 == key);
        }
    }
}

/// With unique keys, the map has the value of each pair at its key.
pub proof fn lemma_assoc_at<K, V>(pairs: Seq<(K, V)>, i: int)
    requires
        unique_keys(pairs),
        0 <= i < pairs.len(),
    ensures
        assoc(pairs).contains_key(pairs[i].0),
        assoc(pairs)[pairs[i].0] == pairs[i].1,
    decreases pairs.len(),
{
    if i < pairs.len() - 1 {
        let init = pairs.drop_last();
        assert(unique_keys(init)) by {
            assert forall|a: int, b: int| 0 <= a < b < init.len() implies (#[trigger] init[a]).0
                != (#[trigger] init[b]).0 by {
                assert(pairs[a].0 != pairs[b].0);
            }
        }
        lemma_assoc_at(init, i);
        assert(pairs[i].0 != pairs[pairs.len() - 1].0);
    }
}

/// Two lists of pairs with unique keys and the same pairs stand for the same map.
pub proof fn lemma_assoc_is<K, V>(pairs: Seq<(K, V)>, map: Map<K, V>)
    requires
        unique_keys(pairs),
        forall|i: int|
            0 <= i < pairs.len() ==> map.contains_key((#[trigger] pairs[i]).0) && map[pairs[i].0] == pairs[i].1,
        forall|key: K| #[trigger] map.contains_key(key) ==> has_key(pairs, key),
    ensures
        assoc(pairs) == map,
{
    assert forall|key: K| assoc(pairs).contains_key(key) == map.contains_key(key) by {
        lemma_assoc_dom(pairs, key);
        if has_key(pairs, key) {
            let i = choose|i: int| 0 <= i < pairs.len() && (#[trigger] pairs[i]).0 == key;
            assert(map.contains_key(pairs[i].0));
        }
    }
    assert forall|key: K| assoc(pairs).contains_key(key) implies assoc(pairs)[key] == map[key] by {
        lemma_assoc_dom(pairs, key);
        let i = choose|i: int| 0 <= i < pairs.len() && (#[trigger] pairs[i]).0 == key;
        lemma_assoc_at(pairs, i);
    }
    assert(assoc(pairs) =~= map);
}

/// Replacing the value of one pair replaces the value in the map.
pub proof fn lemma_assoc_update<K, V>(pairs: Seq<(K, V)>, i: int, value: V)
    requires
        unique_keys(pairs),
        0 <= i < pairs.len(),
    ensures
        unique_keys(pairs.update(i, (pairs[i].0, value))),
        assoc(pairs.update(i, (pairs[i].0, value))) == assoc(pairs).insert(pairs[i].0, value),
{
    let next = pairs.update(i, (pairs[i].0, value));
    let map = assoc(pairs).insert(pairs[i].0, value);
    assert forall|j: int| 0 <= j < next.len() implies map.contains_key((#[trigger] next[j]).0)
        && map[next[j].0] == next[j].1 by {
        lemma_assoc_at(pairs, j);
        if j < i {
            assert(pairs[j].0 != pairs[i].0);
        } else if j > i {
            assert(pairs[i].0 != pairs[j].0);
        }
    }
    assert forall|key: K| #[trigger] map.contains_key(key) implies has_key(next, key) by {
        lemma_assoc_dom(pairs, key);
        if key == pairs[i].0 {
            assert(next[i].0 == key);
        } else {
            let j = choose|j: int| 0 <= j < pairs.len() && (#[trigger] pairs[j]).0 == key;
            assert(next[j].0 == key);
        }
    }
    assert forall|a: int, b: int| 0 <= a < b < next.len() implies (#[trigger] next[a]).0 != (#[trigger] next[b]).0 by {
        assert(pairs[a].0 != pairs[b].0);
    }
    lemma_assoc_is(next, map);
}

/// Putting a pair with a new key last adds it to the map.
pub proof fn lemma_assoc_push<K, V>(pairs: Seq<(K, V)>, key: K, value: V)
    requires
        unique_keys(pairs),
        !has_key(pairs, key),
    ensures
        unique_keys(pairs.push((key, value))),
        assoc(pairs.push((key, value))) == assoc(pairs).insert(key, value),
{
    let next = pairs.push((key, value));
    assert(next.drop_last() =~= pairs);
    assert forall|a: int, b: int| 0 <= a < b < next.len() implies (#[trigger] next[a]).0 != (#[trigger] next[b]).0 by {
        if b < pairs.len() {
            assert(pairs[a].0 != pairs[b].0);
        } else {
            assert(pairs[a].0 != key);
        }
    }
}

/// Taking out a pair takes its key out of the map.
pub proof fn lemma_assoc_remove<K, V>(pairs: Seq<(K, V)>, i: int)
    requires
        unique_keys(pairs),
        0 <= i < pairs.len(),
    ensures
        unique_keys(pairs.remove(i)),
        assoc(pairs.remove(i)) == assoc(pairs).remove(pairs[i].0),
{
    let next = pairs.remove(i);
    let map = assoc(pairs).remove(pairs[i].0);
    assert forall|j: int| 0 <= j < next.len() implies map.contains_key((#[trigger] next[j]).0)
        && map[next[j].0] == next[j].1 by {
        if j < i {
            assert(next[j] == pairs[j]);
            lemma_assoc_at(pairs, j);
            assert(pairs[j].0 != pairs[i].0);
        } else {
            assert(next[j] == pairs[j + 1]);
            lemma_assoc_at(pairs, j + 1);
            assert(pairs[i].0 != pairs[j + 1].0);
        }
    }
    assert forall|key: K| #[trigger] map.contains_key(key) implies has_key(next, key) by {
        lemma_assoc_dom(pairs, key);
        let j = choose|j: int| 0 <= j < pairs.len() && (#[trigger] pairs[j]).0 == key;
        if j < i {
            assert(next[j].0 == key);
        } else {
            assert(j != i);
            assert(next[j - 1].0 == key);
        }
    }
    assert forall|a: int, b: int| 0 <= a < b < next.len() implies (#[trigger] next[a]).0 != (#[trigger] next[b]).0 by {
        let x = if a < i { a } else { a + 1 };
        let y = if b < i { b } else { b + 1 };
        assert(next[a] == pairs[x] && next[b] == pairs[y]);
        assert(pairs[x].0 != pairs[y].0);
    }
    lemma_assoc_is(next, map);
}

/// Mapping the values of the pairs maps the values of the map.
pub proof fn lemma_assoc_map_values<K, V>(pairs: Seq<(K, V)>, next: Seq<(K, V)>, f: spec_fn(V) -> V)
    requires
        unique_keys(pairs),
        next.len() == pairs.len(),
        forall|i: int| 0 <= i < pairs.len() ==> #[trigger] next[i] == (pairs[i].0, f(pairs[i].1)),
    ensures
        unique_keys(next),
        assoc(next) == assoc(pairs).map_values(f),
{
    let map = assoc(pairs).map_values(f);
    assert forall|a: int, b: int| 0 <= a < b < next.len() implies (#[trigger] next[a]).0 != (#[trigger] next[b]).0 by {
        assert(pairs[a].0 != pairs[b].0);
    }
    assert forall|j: int| 0 <= j < next.len() implies map.contains_key((#[trigger] next[j]).0)
        && map[next[j].0] == next[j].1 by {
        lemma_assoc_at(pairs, j);
    }
    assert forall|key: K| #[trigger] map.contains_key(key) implies has_key(next, key) by {
        lemma_assoc_dom(pairs, key);
        let j = choose|j: int| 0 <= j < pairs.len() && (#[trigger] pairs[j]).0 == key;
        assert(next[j].0 == key);
    }
    lemma_assoc_is(next, map);
}

/// One step of filtering from the left.
pub proof fn lemma_filter_step<A>(s: Seq<A>, k: int, pred: spec_fn(A) -> bool)
    requires
        0 <= k < s.len(),
    ensures
        s.take(k + 1).filter(pred) == if pred(s[k]) {
            s.take(k).filter(pred).push(s[k])
        } else {
            s.take(k).filter(pred)
        },
{
    reveal(Seq::filter);
    assert(s.take(k + 1).drop_last() =~= s.take(k));
}

} // verus!
