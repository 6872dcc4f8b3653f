//! Name-keyed association lists and the maps they denote. The history
//! reconciler keeps parameter maps as ordered entry lists; these are the
//! shared facts about lookup, overwrite and append.

use vstd::prelude::*;

verus! {

/// The map an association list denotes; a later entry wins.
pub open spec fn amap<V>(pairs: Seq<(Seq<char>, V)>) -> Map<Seq<char>, V>
    decreases pairs.len(),
{
    if pairs.len() == 0 {
        Map::empty()
    } else {
        let rest = amap(pairs.drop_first());
        if rest.contains_key(pairs[0].0) {
            rest
        } else {
            rest.insert(pairs[0].0, pairs[0].1)
        }
    }
}

/// All keys of the list are distinct.
pub open spec fn distinct_keys<V>(pairs: Seq<(Seq<char>, V)>) -> bool {
    forall|i: int, j: int|
        0 <= i < j < pairs.len() ==> (#[trigger] pairs[i]).0 != (#[trigger] pairs[j]).0
}

/// The map holds exactly the listed keys.
pub proof fn lemma_amap_contains<V>(pairs: Seq<(Seq<char>, V)>, k: Seq<char>)
    ensures
        amap(pairs).contains_key(k) <==> exists|i: int|
            0 <= i < pairs.len() && (#[trigger] pairs[i]).0 == k,
    decreases pairs.len(),
{
    if pairs.len() > 0 {
        lemma_amap_contains(pairs.drop_first(), k);
        if pairs[0].0 == k {
        } else if amap(pairs).contains_key(k) {
            let i = choose|i: int|
                0 <= i < pairs.drop_first().len() && (#[trigger] pairs.drop_first()[i]).0 == k;
            assert(pairs[i + 1].0 == k);
        } else {
            assert forall|i: int| 0 <= i < pairs.len() implies (#[trigger] pairs[i]).0 != k by {
                if i > 0 {
                    assert(pairs.drop_first()[i - 1].0 == pairs[i].0);
                }
            }
        }
    }
}

/// The value under a key is the value of the last entry carrying it.
pub proof fn lemma_amap_last<V>(pairs: Seq<(Seq<char>, V)>, i: int)
    requires
        0 <= i < pairs.len(),
        forall|j: int| i < j < pairs.len() ==> (#[trigger] pairs[j]).0 != pairs[i].0,
    ensures
        amap(pairs).contains_key(pairs[i].0),
        amap(pairs)[pairs[i].0] == pairs[i].1,
    decreases pairs.len(),
{
    let k = pairs[i].0;
    if i == 0 {
        lemma_amap_contains(pairs.drop_first(), k);
        assert(forall|j: int|
            0 <= j < pairs.drop_first().len() ==> (#[trigger] pairs.drop_first()[j]).0 == pairs[j
                + 1].0);
        assert(!amap(pairs.drop_first()).contains_key(k));
    } else {
        assert(forall|j: int|
            0 <= j < pairs.drop_first().len() ==> #[trigger] pairs.drop_first()[j] == pairs[j + 1]);
        lemma_amap_last(pairs.drop_first(), i - 1);
    }
}

/// Appending an entry with a fresh key inserts it.
pub proof fn lemma_amap_push<V>(pairs: Seq<(Seq<char>, V)>, p: (Seq<char>, V))
    requires
        forall|k: int| 0 <= k < pairs.len() ==> (#[trigger] pairs[k]).0 != p.0,
    ensures
        amap(pairs.push(p)) == amap(pairs).insert(p.0, p.1),
    decreases pairs.len(),
{
    if pairs.len() == 0 {
        assert(pairs.push(p).drop_first() =~= pairs);
        assert(amap(pairs.push(p)) =~= amap(pairs).insert(p.0, p.1));
    } else {
        assert(pairs.push(p).drop_first() =~= pairs.drop_first().push(p));
        assert(forall|k: int|
            0 <= k < pairs.drop_first().len() ==> (#[trigger] pairs.drop_first()[k]).0 == pairs[k
                + 1].0);
        lemma_amap_push(pairs.drop_first(), p);
        lemma_amap_contains(pairs.drop_first(), pairs[0].0);
        lemma_amap_contains(pairs.drop_first(), p.0);
        assert(amap(pairs.push(p)) =~= amap(pairs).insert(p.0, p.1));
    }
}

/// Overwriting the value at the unique position of a key updates the map.
pub proof fn lemma_amap_update<V>(pairs: Seq<(Seq<char>, V)>, i: int, v: V)
    requires
        distinct_keys(pairs),
        0 <= i < pairs.len(),
    ensures
        amap(pairs.update(i, (pairs[i].0, v))) == amap(pairs).insert(pairs[i].0, v),
        distinct_keys(pairs.update(i, (pairs[i].0, v))),
    decreases pairs.len(),
{
    let k = pairs[i].0;
    let upd = pairs.update(i, (k, v));
    if i == 0 {
        assert(upd.drop_first() =~= pairs.drop_first());
        lemma_amap_contains(pairs.drop_first(), k);
        assert(forall|j: int|
            0 <= j < pairs.drop_first().len() ==> (#[trigger] pairs.drop_first()[j]).0 == pairs[j
                + 1].0);
        assert(!amap(pairs.drop_first()).contains_key(k));
        assert(amap(upd) =~= amap(pairs).insert(k, v));
    } else {
        assert(upd.drop_first() =~= pairs.drop_first().update(i - 1, (pairs[i].0, v)));
        assert(forall|j: int|
            0 <= j < pairs.drop_first().len() ==> #[trigger] pairs.drop_first()[j] == pairs[j + 1]);
        assert(distinct_keys(pairs.drop_first()));
        lemma_amap_update(pairs.drop_first(), i - 1, v);
        lemma_amap_contains(pairs.drop_first(), pairs[0].0);
        assert(amap(upd) =~= amap(pairs).insert(k, v));
    }
}

/// Folding one insert into the left of a preferred-right union is the same
/// as letting the right side absorb the key first.
pub proof fn lemma_amap_union_insert_step<V>(
    m: Map<Seq<char>, V>,
    k: Seq<char>,
    v: V,
    rest: Map<Seq<char>, V>,
)
    ensures
        m.insert(k, v).union_prefer_right(rest) == m.union_prefer_right(
            if rest.contains_key(k) {
                rest
            } else {
                rest.insert(k, v)
            },
        ),
{
    assert(m.insert(k, v).union_prefer_right(rest) =~= m.union_prefer_right(
        if rest.contains_key(k) {
            rest
        } else {
            rest.insert(k, v)
        },
    ));
}

} // verus!
