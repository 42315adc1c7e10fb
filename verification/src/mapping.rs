//! The mapping from replaced commits to the commits that replace them.

use vstd::prelude::*;
use crate::object_id::ObjectId;
use crate::rebase::RebaseOutput;

verus! {

/// `m` with each pair of `pairs` laid over it in order, a later pair taking
/// precedence over what was there; with `changed_only`, pairs whose two ids
/// are equal are left out, since they replace nothing.
pub open spec fn layer(m: Map<ObjectId, ObjectId>, pairs: Seq<(ObjectId, ObjectId)>, changed_only: bool) -> Map<
    ObjectId,
    ObjectId,
>
    decreases pairs.len(),
{
    if pairs.len() == 0 {
        m
    } else {
        let below = layer(m, pairs.drop_last(), changed_only);
        let p = pairs.last();
        if changed_only && p.0 == p.1 {
            below
        } else {
            below.insert(p.0, p.1)
        }
    }
}

/// The commit mapping of an operation: the pairs of the replay that
/// replaced a commit by another one, with the caller's overrides on top.
pub open spec fn build_mapping(replayed: Seq<(ObjectId, ObjectId)>, overrides: Seq<(ObjectId, ObjectId)>) -> Map<
    ObjectId,
    ObjectId,
> {
    layer(layer(Map::empty(), replayed, true), overrides, false)
}

/// No commit stands on the left of two pairs.
pub open spec fn keys_distinct(pairs: Seq<(ObjectId, ObjectId)>) -> bool {
    forall|i: int, j: int| 0 <= i < j < pairs.len() ==> (#[trigger] pairs[i]).0 != (#[trigger] pairs[j]).0
}

/// The mapping that a list of pairs stands for.
pub open spec fn pairs_map(pairs: Seq<(ObjectId, ObjectId)>) -> Map<ObjectId, ObjectId> {
    Map::new(
        |k: ObjectId| exists|i: int| 0 <= i < pairs.len() && (#[trigger] pairs[i]).0 == k,
        |k: ObjectId| pairs[choose|i: int| 0 <= i < pairs.len() && (#[trigger] pairs[i]).0 == k].1,
    )
}

/// Every override is in the mapping as given, and every commit that the
/// replay replaced by another is mapped: to its override if it has one,
/// else to its replacement.
pub proof fn law_mapping_total(replayed: Seq<(ObjectId, ObjectId)>, overrides: Seq<(ObjectId, ObjectId)>)
    ensures
        forall|k: int|
            0 <= k < overrides.len() ==> build_mapping(replayed, overrides).contains_key(
                (#[trigger] overrides[k]).0,
            ),
        forall|k: int|
            0 <= k < replayed.len() && (#[trigger] replayed[k]).0 != replayed[k].1 ==> build_mapping(
                replayed,
                overrides,
            ).contains_key(replayed[k].0),
        overrides.len() > 0 ==> build_mapping(replayed, overrides)[overrides.last().0] == overrides.last().1,
{
    let base = layer(Map::empty(), replayed, true);
    assert forall|k: int| 0 <= k < replayed.len() && (#[trigger] replayed[k]).0 != replayed[k].1 implies base.contains_key(
        replayed[k].0,
    ) by {
        lemma_layer_keeps(Map::empty(), replayed, true, k);
    }
    assert forall|k: int| 0 <= k < replayed.len() && (#[trigger] replayed[k]).0 != replayed[k].1 implies build_mapping(
        replayed,
        overrides,
    ).contains_key(replayed[k].0) by {
        lemma_layer_extends(base, overrides, false, replayed[k].0);
    }
    assert forall|k: int| 0 <= k < overrides.len() implies build_mapping(replayed, overrides).contains_key(
        (#[trigger] overrides[k]).0,
    ) by {
        lemma_layer_keeps(base, overrides, false, k);
    }
}

proof fn lemma_layer_extends(m: Map<ObjectId, ObjectId>, pairs: Seq<(ObjectId, ObjectId)>, changed_only: bool, key: ObjectId)
    requires
        m.contains_key(key),
    ensures
        layer(m, pairs, changed_only).contains_key(key),
    decreases pairs.len(),
{
    if pairs.len() > 0 {
        lemma_layer_extends(m, pairs.drop_last(), changed_only, key);
    }
}

proof fn lemma_layer_keeps(m: Map<ObjectId, ObjectId>, pairs: Seq<(ObjectId, ObjectId)>, changed_only: bool, k: int)
    requires
        0 <= k < pairs.len(),
        !changed_only || pairs[k].0 != pairs[k].1,
    ensures
        layer(m, pairs, changed_only).contains_key(pairs[k].0),
    decreases pairs.len(),
{
    if k < pairs.len() - 1 {
        assert(pairs.drop_last()[k] == pairs[k]);
        lemma_layer_keeps(m, pairs.drop_last(), changed_only, k);
    }
}

fn find_key(pairs: &Vec<(ObjectId, ObjectId)>, key: &ObjectId) -> (r: Option<usize>)
    ensures
        match r {
            Some(i) => i < pairs.len() && pairs@[i as int].0 == *key && forall|j: int|
                0 <= j < i ==> (#[trigger] pairs@[j]).0 != *key,
            None => forall|i: int| 0 <= i < pairs.len() ==> (#[trigger] pairs@[i]).0 != *key,
        },
{
    let mut i: usize = 0;
    while i < pairs.len()
        invariant
            i <= pairs.len(),
            forall|k: int| 0 <= k < i ==> (#[trigger] pairs@[k]).0 != *key,
        decreases pairs.len() - i,
    {
        if pairs[i].0 == *key {
            return Some(i);
        }
        i += 1;
    }
    None
}

/// What a list of pairs maps `key` to: the right side of the first pair
/// with `key` on the left. With distinct keys that is what the mapping
/// holds for it.
pub fn mapped(pairs: &Vec<(ObjectId, ObjectId)>, key: &ObjectId) -> (r: Option<ObjectId>)
    ensures
        r is Some <==> pairs_map(pairs@).contains_key(*key),
        r is Some ==> exists|i: int|
            0 <= i < pairs.len() && (#[trigger] pairs@[i]) == (*key, r.unwrap()) && forall|j: int|
                0 <= j < i ==> (#[trigger] pairs@[j]).0 != *key,
        r is Some && keys_distinct(pairs@) ==> r.unwrap() == pairs_map(pairs@)[*key],
{
    match find_key(pairs, key) {
        Some(i) => {
            proof {
                assert(pairs@[i as int].0 == *key);
                if keys_distinct(pairs@) {
                    let j = choose|j: int| 0 <= j < pairs@.len() && (#[trigger] pairs@[j]).0 == *key;
                    assert(j == i);
                }
            }
            Some(pairs[i].1)
        },
        None => None,
    }
}

fn insert_pair(pairs: &mut Vec<(ObjectId, ObjectId)>, key: ObjectId, value: ObjectId)
    requires
        keys_distinct(old(pairs)@),
    ensures
        keys_distinct(final(pairs)@),
        pairs_map(final(pairs)@) == pairs_map(old(pairs)@).insert(key, value),
{
    let ghost before = pairs@;
    match find_key(pairs, &key) {
        Some(i) => {
            pairs.set(i, (key, value));
            proof {
                let after = pairs@;
                assert forall|a: int, b: int| 0 <= a < b < after.len() implies (#[trigger] after[a]).0 != (
                #[trigger] after[b]).0 by {
                    assert(after[a].0 == before[a].0);
                    assert(after[b].0 == before[b].0);
                }
                assert forall|k: ObjectId| pairs_map(after).contains_key(k) <==> pairs_map(before).insert(
                    key,
                    value,
                ).contains_key(k) by {
                    if pairs_map(after).contains_key(k) {
                        let j = choose|j: int| 0 <= j < after.len() && (#[trigger] after[j]).0 == k;
                        assert(before[j].0 == k);
                    }
                    if pairs_map(before).contains_key(k) {
                        let j = choose|j: int| 0 <= j < before.len() && (#[trigger] before[j]).0 == k;
                        assert(after[j].0 == k);
                    }
                    if k == key {
                        assert(after[i as int].0 == k);
                    }
                }
                assert forall|k: ObjectId| pairs_map(after).contains_key(k) implies pairs_map(after)[k]
                    == pairs_map(before).insert(key, value)[k] by {
                    let j = choose|j: int| 0 <= j < after.len() && (#[trigger] after[j]).0 == k;
                    assert(before[j].0 == k);
                    if k == key {
                        assert(after[i as int].0 == k);
                        assert(j == i);
                    } else {
                        let j2 = choose|j2: int| 0 <= j2 < before.len() && (#[trigger] before[j2]).0 == k;
                        assert(j2 == j);
                        assert(after[j] == before[j]);
                    }
                }
                assert(pairs_map(after) =~= pairs_map(before).insert(key, value));
            }
        },
        None => {
            pairs.push((key, value));
            proof {
                let after = pairs@;
                let n = before.len() as int;
                assert forall|a: int, b: int| 0 <= a < b < after.len() implies (#[trigger] after[a]).0 != (
                #[trigger] after[b]).0 by {
                    assert(after[a] == before[a]);
                    if b < n {
                        assert(after[b] == before[b]);
                    }
                }
                assert forall|k: ObjectId| pairs_map(after).contains_key(k) <==> pairs_map(before).insert(
                    key,
                    value,
                ).contains_key(k) by {
                    if pairs_map(after).contains_key(k) {
                        let j = choose|j: int| 0 <= j < after.len() && (#[trigger] after[j]).0 == k;
                        if j < n {
                            assert(before[j].0 == k);
                        }
                    }
                    if pairs_map(before).contains_key(k) {
                        let j = choose|j: int| 0 <= j < before.len() && (#[trigger] before[j]).0 == k;
                        assert(after[j].0 == k);
                    }
                    if k == key {
                        assert(after[n].0 == k);
                    }
                }
                assert forall|k: ObjectId| pairs_map(after).contains_key(k) implies pairs_map(after)[k]
                    == pairs_map(before).insert(key, value)[k] by {
                    let j = choose|j: int| 0 <= j < after.len() && (#[trigger] after[j]).0 == k;
                    if k == key {
                        assert(after[n].0 == k);
                        assert(j == n);
                    } else {
                        assert(before[j].0 == k);
                        let j2 = choose|j2: int| 0 <= j2 < before.len() && (#[trigger] before[j2]).0 == k;
                        assert(j2 == j);
                    }
                }
                assert(pairs_map(after) =~= pairs_map(before).insert(key, value));
            }
        },
    }
}

/// Combines what a replay replaced with the caller's overrides into one
/// mapping, given as pairs with distinct keys; see [`build_mapping`].
pub fn rebase_mapping_with_overrides(output: &RebaseOutput, overrides: &Vec<(ObjectId, ObjectId)>) -> (r: Vec<
    (ObjectId, ObjectId),
>)
    ensures
        keys_distinct(r@),
        pairs_map(r@) == build_mapping(output.commit_mapping@, overrides@),
{
    let mut out: Vec<(ObjectId, ObjectId)> = Vec::new();
    let ghost replayed = output.commit_mapping@;
    proof {
        assert(pairs_map(out@) =~= Map::<ObjectId, ObjectId>::empty());
        assert(replayed.take(0) =~= Seq::<(ObjectId, ObjectId)>::empty());
    }
    let mut i: usize = 0;
    while i < output.commit_mapping.len()
        invariant
            i <= output.commit_mapping.len(),
            replayed == output.commit_mapping@,
            keys_distinct(out@),
            pairs_map(out@) == layer(Map::empty(), replayed.take(i as int), true),
        decreases output.commit_mapping.len() - i,
    {
        let (from, to) = output.commit_mapping[i];
        proof {
            assert(replayed.take(i as int + 1).drop_last() =~= replayed.take(i as int));
            assert(replayed.take(i as int + 1).last() == (from, to));
        }
        if from != to {
            insert_pair(&mut out, from, to);
        }
        i += 1;
    }
    proof {
        assert(replayed.take(replayed.len() as int) =~= replayed);
        assert(overrides@.take(0) =~= Seq::<(ObjectId, ObjectId)>::empty());
    }
    let ghost base = layer(Map::empty(), replayed, true);
    let mut i: usize = 0;
    while i < overrides.len()
        invariant
            i <= overrides.len(),
            keys_distinct(out@),
            pairs_map(out@) == layer(base, overrides@.take(i as int), false),
        decreases overrides.len() - i,
    {
        let (from, to) = overrides[i];
        proof {
            assert(overrides@.take(i as int + 1).drop_last() =~= overrides@.take(i as int));
            assert(overrides@.take(i as int + 1).last() == (from, to));
        }
        insert_pair(&mut out, from, to);
        i += 1;
    }
    proof {
        assert(overrides@.take(overrides@.len() as int) =~= overrides@);
    }
    out
}

} // verus!
