//! Sequences of key/value entries with unique `u32` keys, and the maps
//! they denote.  Both the message's field table and the packet manager's
//! pending table are stored this way.

use vstd::prelude::*;

verus! {

/// No key occurs twice.
pub open spec fn unique_keys<V>(s: Seq<(u32, V)>) -> bool {
    forall|i: int, j: int| 0 <= i < j < s.len() ==> (#[trigger] s[i]).0 != (#[trigger] s[j]).0
}

/// The mapping an entry sequence denotes; later entries win.
pub open spec fn keyed_map<V>(s: Seq<(u32, V)>) -> Map<u32, V>
    decreases s.len(),
{
    if s.len() == 0 {
        Map::empty()
    } else {
        keyed_map(s.drop_last()).insert(s.last().0, s.last().1)
    }
}

/// With unique keys, the mapping holds exactly the entries.
pub proof fn lemma_keyed_map<V>(s: Seq<(u32, V)>)
    requires
        unique_keys(s),
    ensures
        forall|k: u32| keyed_map(s).contains_key(k) <==> (exists|i: int|
            0 <= i < s.len() && (#[trigger] s[i]).0 == k),
        forall|i: int| 0 <= i < s.len() ==> keyed_map(s).contains_key((#[trigger] s[i]).0)
            && keyed_map(s)[s[i].0] == s[i].1,
        keyed_map(s).dom().finite(),
        keyed_map(s).dom().len() == s.len(),
    decreases s.len(),
{
    if s.len() > 0 {
        let d = s.drop_last();
        assert(unique_keys(d));
        lemma_keyed_map(d);
        assert forall|i: int| 0 <= i < s.len() implies keyed_map(s).contains_key(
            (#[trigger] s[i]).0,
        ) && keyed_map(s)[s[i].0] == s[i].1 by {
            if i < s.len() - 1 {
                assert(d[i] == s[i]);
                assert(s[i].0 != s.last().0);
            }
        }
        assert(!keyed_map(d).contains_key(s.last().0));
        assert(keyed_map(s).dom() =~= keyed_map(d).dom().insert(s.last().0));
    }
}

/// Overwriting an entry's value updates the mapping at its key.
pub proof fn lemma_keyed_map_update<V>(s: Seq<(u32, V)>, i: int, v: V)
    requires
        unique_keys(s),
        0 <= i < s.len(),
    ensures
        keyed_map(s.update(i, (s[i].0, v))) == keyed_map(s).insert(s[i].0, v),
    decreases s.len(),
{
    let s2 = s.update(i, (s[i].0, v));
    if i == s.len() - 1 {
        assert(s2.drop_last() =~= s.drop_last());
        assert(s2.last() == (s[i].0, v));
        assert(keyed_map(s2) =~= keyed_map(s).insert(s[i].0, v));
    } else {
        let d = s.drop_last();
        assert(unique_keys(d));
        lemma_keyed_map_update(d, i, v);
        assert(s2.drop_last() =~= d.update(i, (d[i].0, v)));
        assert(s2.last() == s.last());
        assert(s[i].0 != s.last().0);
        assert(keyed_map(s2) =~= keyed_map(s).insert(s[i].0, v));
    }
}

/// Appending an entry inserts it into the mapping.
pub proof fn lemma_keyed_map_push<V>(s: Seq<(u32, V)>, k: u32, v: V)
    ensures
        keyed_map(s.push((k, v))) == keyed_map(s).insert(k, v),
{
    assert(s.push((k, v)).drop_last() =~= s);
    assert(s.push((k, v)).last() == (k, v));
}

/// Removing an entry removes its key from the mapping.
pub proof fn lemma_keyed_map_remove<V>(s: Seq<(u32, V)>, i: int)
    requires
        unique_keys(s),
        0 <= i < s.len(),
    ensures
        keyed_map(s.remove(i)) == keyed_map(s).remove(s[i].0),
    decreases s.len(),
{
    let s2 = s.remove(i);
    if i == s.len() - 1 {
        assert(s2 =~= s.drop_last());
        let d = s.drop_last();
        assert(unique_keys(d));
        lemma_keyed_map(d);
        assert(!keyed_map(d).contains_key(s[i].0));
        assert(keyed_map(s2) =~= keyed_map(s).remove(s[i].0));
    } else {
        let d = s.drop_last();
        assert(unique_keys(d));
        lemma_keyed_map_remove(d, i);
        assert(s2.drop_last() =~= d.remove(i));
        assert(s2.last() == s.last());
        assert(s[i].0 != s.last().0);
        assert(keyed_map(s2) =~= keyed_map(s).remove(s[i].0));
    }
}

} // verus!
