//! Grouping values by a text key.

use vstd::prelude::*;
use crate::chars::{copy, same, texts};

verus! {

/// The values that share a key, in the order they came in.
pub struct Group<T> {
    pub key: String,
    pub items: Vec<T>,
}

/// The values whose key is `k`, in order.
pub open spec fn items_of<T>(keys: Seq<Seq<char>>, vals: Seq<T>, k: Seq<char>) -> Seq<T>
    decreases keys.len(),
{
    if keys.len() == 0 || vals.len() == 0 {
        Seq::empty()
    } else {
        let rest = items_of(keys.drop_last(), vals.drop_last(), k);
        if keys.last() == k {
            rest.push(vals.last())
        } else {
            rest
        }
    }
}

/// `groups` holds every key once, with exactly its values.
pub open spec fn grouped<T>(groups: Seq<Group<T>>, keys: Seq<Seq<char>>, vals: Seq<T>) -> bool {
    &&& forall|g: int| 0 <= g < groups.len() ==> (#[trigger] groups[g]).items@ == items_of(keys, vals, groups[g].key@)
    &&& forall|g: int| 0 <= g < groups.len() ==> (#[trigger] groups[g]).items@.len() > 0
    &&& forall|g: int, h: int|
        0 <= g < groups.len() && 0 <= h < groups.len() && g != h ==> (#[trigger] groups[g]).key@ != (
        #[trigger] groups[h]).key@
    &&& forall|i: int| 0 <= i < keys.len() ==> has_key(groups, #[trigger] keys[i])
}

pub open spec fn has_key<T>(groups: Seq<Group<T>>, k: Seq<char>) -> bool {
    exists|g: int| 0 <= g < groups.len() && (#[trigger] groups[g]).key@ == k
}

/// The values put into groups by key.
pub fn group<T: Copy>(keys: &Vec<String>, vals: &Vec<T>) -> (r: Vec<Group<T>>)
    requires
        keys@.len() == vals@.len(),
    ensures
        grouped(r@, texts(keys@), vals@),
{
    let mut out: Vec<Group<T>> = Vec::new();
    let mut i: usize = 0;
    let ghost all = texts(keys@);
    while i < keys.len()
        invariant
            i <= keys@.len() == vals@.len(),
            all == texts(keys@),
            grouped(out@, all.subrange(0, i as int), vals@.subrange(0, i as int)),
        decreases keys@.len() - i,
    {
        let ghost ks = all.subrange(0, i as int);
        let ghost vs = vals@.subrange(0, i as int);
        let ghost ks1 = all.subrange(0, i + 1);
        let ghost vs1 = vals@.subrange(0, i + 1);
        assert(ks1.drop_last() =~= ks);
        assert(vs1.drop_last() =~= vs);
        assert(ks1.last() == keys@[i as int]@);
        let ghost before = out@;
        let mut p: usize = 0;
        while p < out.len() && !same(out[p].key.as_str(), keys[i].as_str())
            invariant
                i < keys@.len(),
                p <= out@.len(),
                forall|g: int| 0 <= g < p ==> (#[trigger] out@[g]).key@ != keys@[i as int]@,
            decreases out@.len() - p,
        {
            p += 1;
        }
        let v = vals[i];
        if p < out.len() {
            let mut g = out.remove(p);
            let ghost old_items = g.items@;
            g.items.push(v);
            out.insert(p, g);
            assert forall|h: int| 0 <= h < out@.len() implies (#[trigger] out@[h]).items@ == items_of(ks1, vs1, out@[h].key@)
                && out@[h].items@.len() > 0 && out@[h].key@ == before[h].key@ by {
                if h != p {
                    assert(out@[h] == before[h]);
                    assert(before[h].key@ != before[p as int].key@);
                }
            }
            assert forall|k: int| 0 <= k < ks1.len() implies has_key(out@, #[trigger] ks1[k]) by {
                if k < i {
                    assert(ks1[k] == ks[k]);
                    assert(has_key(before, ks[k]));
                    let h = choose|h: int| 0 <= h < before.len() && (#[trigger] before[h]).key@ == ks[k];
                    assert(out@[h].key@ == ks[k]);
                } else {
                    assert(out@[p as int].key@ == ks1[k]);
                }
            }
            assert forall|g1: int, h: int| 0 <= g1 < out@.len() && 0 <= h < out@.len() && g1 != h implies (#[trigger] out@[g1]).key@ != (
            #[trigger] out@[h]).key@ by {
                assert(out@[g1].key@ == before[g1].key@);
                assert(out@[h].key@ == before[h].key@);
            }
        } else {
            let mut items: Vec<T> = Vec::new();
            items.push(v);
            let ghost k = keys@[i as int]@;
            proof {
                lemma_no_items(before, ks, vs, k);
            }
            assert(items@ =~= items_of(ks1, vs1, k));
            out.push(Group { key: copy(keys[i].as_str()), items });
            assert forall|h: int| 0 <= h < out@.len() implies (#[trigger] out@[h]).items@ == items_of(ks1, vs1, out@[h].key@)
                && out@[h].items@.len() > 0 by {
                if h < before.len() {
                    assert(out@[h] == before[h]);
                }
            }
            assert forall|j: int| 0 <= j < ks1.len() implies has_key(out@, #[trigger] ks1[j]) by {
                if j < i {
                    assert(ks1[j] == ks[j]);
                    let h = choose|h: int| 0 <= h < before.len() && (#[trigger] before[h]).key@ == ks[j];
                    assert(out@[h] == before[h]);
                } else {
                    assert(out@[before.len() as int].key@ == ks1[j]);
                }
            }
        }
        i += 1;
    }
    assert(all.subrange(0, i as int) =~= all);
    assert(vals@.subrange(0, i as int) =~= vals@);
    out
}

proof fn lemma_no_items<T>(groups: Seq<Group<T>>, keys: Seq<Seq<char>>, vals: Seq<T>, k: Seq<char>)
    requires
        keys.len() == vals.len(),
        forall|i: int| 0 <= i < keys.len() ==> has_key(groups, #[trigger] keys[i]),
        forall|g: int| 0 <= g < groups.len() ==> (#[trigger] groups[g]).key@ != k,
    ensures
        items_of(keys, vals, k) == Seq::<T>::empty(),
    decreases keys.len(),
{
    if keys.len() > 0 {
        assert(has_key(groups, keys[keys.len() - 1]));
        assert forall|i: int| 0 <= i < keys.drop_last().len() implies has_key(groups, #[trigger] keys.drop_last()[i]) by {
            assert(keys.drop_last()[i] == keys[i]);
        }
        lemma_no_items(groups, keys.drop_last(), vals.drop_last(), k);
    }
}

} // verus!
