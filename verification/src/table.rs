//! Lists of pairs with distinct keys, as maps.

use vstd::prelude::*;

verus! {

/// No key occurs twice.
pub open spec fn distinct<K, V>(s: Seq<(K, V)>) -> bool {
    forall|i: int, j: int| 0 <= i < j < s.len() ==> (#[trigger] s[i]).0 != (#[trigger] s[j]).0
}

/// The map that takes each key to its value.
pub open spec fn table<K, V>(s: Seq<(K, V)>) -> Map<K, V>
    decreases s.len(),
{
    if s.len() == 0 {
        Map::empty()
    } else {
        table(s.drop_last()).insert(s.last().0, s.last().1)
    }
}

/// The map holds the pairs of the list and nothing else, and has as many keys as
/// the list has pairs.
pub proof fn lemma_table<K, V>(s: Seq<(K, V)>)
    requires
        distinct(s),
    ensures
        table(s).dom().finite(),
        table(s).dom().len() == s.len(),
        forall|i: int|
            0 <= i < s.len() ==> table(s).contains_key((#[trigger] s[i]).0) && table(s)[s[i].0]
                == s[i].1,
        forall|k: K| #[trigger]
            table(s).contains_key(k) ==> exists|i: int| 0 <= i < s.len() && (#[trigger] s[i]).0 == k,
    decreases s.len(),
{
    if s.len() > 0 {
        let t = s.drop_last();
        assert forall|i: int, j: int| 0 <= i < j < t.len() implies (#[trigger] t[i]).0 != (
        #[trigger] t[j]).0 by {
            assert(t[i] == s[i] && t[j] == s[j]);
        }
        lemma_table(t);
        let k = s.last().0;
        if table(t).contains_key(k) {
            let i = choose|i: int| 0 <= i < t.len() && (#[trigger] t[i]).0 == k;
            assert(s[i].0 != s[s.len() - 1].0);
        }
        assert forall|i: int| 0 <= i < s.len() implies table(s).contains_key((#[trigger] s[i]).0)
            && table(s)[s[i].0] == s[i].1 by {
            if i < t.len() {
                assert(t[i] == s[i]);
                assert(s[i].0 != s[s.len() - 1].0);
            }
        }
        assert forall|q: K| #[trigger] table(s).contains_key(q) implies exists|i: int|
            0 <= i < s.len() && (#[trigger] s[i]).0 == q by {
            if q == k {
                assert(s[s.len() - 1].0 == q);
            } else {
                assert(table(t).contains_key(q));
                let i = choose|i: int| 0 <= i < t.len() && (#[trigger] t[i]).0 == q;
                assert(s[i].0 == q);
            }
        }
    }
}

/// One more pair with a new key.
pub proof fn lemma_push<K, V>(s: Seq<(K, V)>, k: K, v: V)
    requires
        distinct(s),
        !table(s).contains_key(k),
    ensures
        distinct(s.push((k, v))),
        table(s.push((k, v))) == table(s).insert(k, v),
{
    lemma_table(s);
    let t = s.push((k, v));
    assert(t.drop_last() =~= s);
    assert forall|i: int, j: int| 0 <= i < j < t.len() implies (#[trigger] t[i]).0 != (
    #[trigger] t[j]).0 by {
        if j == s.len() {
            assert(table(s).contains_key(s[i].0));
        }
    }
}

/// The value of one key replaced.
pub proof fn lemma_update<K, V>(s: Seq<(K, V)>, i: int, v: V)
    requires
        distinct(s),
        0 <= i < s.len(),
    ensures
        distinct(s.update(i, (s[i].0, v))),
        table(s.update(i, (s[i].0, v))) == table(s).insert(s[i].0, v),
{
    let t = s.update(i, (s[i].0, v));
    assert forall|a: int, b: int| 0 <= a < b < t.len() implies (#[trigger] t[a]).0 != (
    #[trigger] t[b]).0 by {
        assert(s[a].0 != s[b].0);
    }
    lemma_table(s);
    lemma_table(t);
    let want = table(s).insert(s[i].0, v);
    assert forall|k: K|
        #![trigger table(t).dom().contains(k)]
        #![trigger want.dom().contains(k)]
        #![trigger table(t)[k]]
        table(t).dom().contains(k) == want.dom().contains(k) && (table(t).dom().contains(k)
            ==> table(t)[k] == want[k]) by {
        if table(t).contains_key(k) {
            let a = choose|a: int| 0 <= a < t.len() && (#[trigger] t[a]).0 == k;
            assert(s[a].0 == k);
        }
        if want.contains_key(k) {
            if k == s[i].0 {
                assert(t[i].0 == k);
            } else {
                let a = choose|a: int| 0 <= a < s.len() && (#[trigger] s[a]).0 == k;
                assert(t[a].0 == k);
            }
        }
    }
    assert(table(t) =~= want);
}

/// One pair taken out, the last one put in its place.
pub proof fn lemma_swap_remove<K, V>(s: Seq<(K, V)>, i: int)
    requires
        distinct(s),
        0 <= i < s.len(),
    ensures
        distinct(s.update(i, s.last()).drop_last()),
        table(s.update(i, s.last()).drop_last()) == table(s).remove(s[i].0),
{
    let t = s.update(i, s.last()).drop_last();
    let n = s.len() - 1;
    let at = |j: int| if j == i {
        n
    } else {
        j
    };
    assert forall|j: int| 0 <= j < t.len() implies #[trigger] t[j] == s[at(j)] by {}
    assert forall|a: int, b: int| 0 <= a < b < t.len() implies (#[trigger] t[a]).0 != (
    #[trigger] t[b]).0 by {
        assert(s[at(a)].0 != s[at(b)].0);
    }
    lemma_table(s);
    lemma_table(t);
    let want = table(s).remove(s[i].0);
    assert forall|k: K|
        #![trigger table(t).dom().contains(k)]
        #![trigger want.dom().contains(k)]
        #![trigger table(t)[k]]
        table(t).dom().contains(k) == want.dom().contains(k) && (table(t).dom().contains(k)
            ==> table(t)[k] == want[k]) by {
        if table(t).contains_key(k) {
            let a = choose|a: int| 0 <= a < t.len() && (#[trigger] t[a]).0 == k;
            assert(s[at(a)].0 == k);
            assert(s[at(a)].0 != s[i].0);
        }
        if want.contains_key(k) {
            let a = choose|a: int| 0 <= a < s.len() && (#[trigger] s[a]).0 == k;
            if a == n {
                assert(t[i] == s[n]);
                assert(t[i].0 == k);
            } else {
                assert(t[a] == s[a]);
                assert(t[a].0 == k);
            }
        }
    }
    assert(table(t) =~= want);
}

/// What lies in a map still does without one of its keys.
pub proof fn lemma_submap_remove<K, V>(m: Map<K, V>, all: Map<K, V>, key: K)
    requires
        m.submap_of(all),
    ensures
        m.remove(key).submap_of(all),
{
    assert forall|k: K| #[trigger] m.remove(key).dom().contains(k) implies
        #[trigger] all.dom().contains(k) && m.remove(key)[k] == all[k] by {
        assert(m.dom().contains(k));
        assert(all.dom().contains(k));
    }
}

} // verus!
