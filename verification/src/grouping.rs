//! Grouping paths by a key: the groups in the order of their keys' first
//! appearance, and the groups shared by two or more paths.

use vstd::prelude::*;

verus! {

/// Files that share a key (a size or a hash), in the order they came.
#[derive(Debug)]
pub struct KeyGroup {
    pub key: u64,
    pub paths: Vec<String>,
}

impl View for KeyGroup {
    type V = (u64, Seq<String>);

    open spec fn view(&self) -> (u64, Seq<String>) {
        (self.key, self.paths@)
    }
}

/// The views of a sequence of groups.
pub open spec fn group_views(gs: Seq<KeyGroup>) -> Seq<(u64, Seq<String>)> {
    gs.map_values(|g: KeyGroup| g@)
}

/// The distinct keys of `es`, in the order of their first appearance.
pub open spec fn keys_in_order<K>(es: Seq<(K, String)>) -> Seq<K>
    decreases es.len(),
{
    if es.len() == 0 {
        Seq::empty()
    } else {
        let ks = keys_in_order(es.drop_last());
        if ks.contains(es.last().0) {
            ks
        } else {
            ks.push(es.last().0)
        }
    }
}

/// The paths of `es` whose key is `k`, in order.
pub open spec fn members<K>(es: Seq<(K, String)>, k: K) -> Seq<String>
    decreases es.len(),
{
    if es.len() == 0 {
        Seq::empty()
    } else {
        let ms = members(es.drop_last(), k);
        if es.last().0 == k {
            ms.push(es.last().1)
        } else {
            ms
        }
    }
}

/// `es` grouped by key: one group per distinct key, in the order of the
/// keys' first appearance, each holding all paths with that key in order.
pub open spec fn grouping<K>(es: Seq<(K, String)>) -> Seq<(K, Seq<String>)> {
    keys_in_order(es).map_values(|k: K| (k, members(es, k)))
}

/// The groups of `gs` that hold at least two paths, in order.
pub open spec fn shared<K>(gs: Seq<(K, Seq<String>)>) -> Seq<(K, Seq<String>)>
    decreases gs.len(),
{
    if gs.len() == 0 {
        Seq::empty()
    } else {
        let rest = shared(gs.drop_last());
        if gs.last().1.len() >= 2 {
            rest.push(gs.last())
        } else {
            rest
        }
    }
}

/// The keys of a sequence of groups.
pub open spec fn keys_of<K>(gs: Seq<(K, Seq<String>)>) -> Seq<K> {
    gs.map_values(|g: (K, Seq<String>)| g.0)
}

/// Every group `shared` keeps is one of the groups it was given.
pub proof fn lemma_shared_from<K>(gs: Seq<(K, Seq<String>)>)
    ensures
        forall|k: int|
            0 <= k < shared(gs).len() ==> exists|m: int|
                0 <= m < gs.len() && #[trigger] shared(gs)[k] == gs[m],
    decreases gs.len(),
{
    if gs.len() > 0 {
        let d = gs.drop_last();
        lemma_shared_from(d);
        assert forall|k: int| 0 <= k < shared(gs).len() implies exists|m: int|
            0 <= m < gs.len() && #[trigger] shared(gs)[k] == gs[m] by {
            if k < shared(d).len() {
                assert(shared(gs)[k] == shared(d)[k]);
                let m = choose|m: int| 0 <= m < d.len() && shared(d)[k] == d[m];
                assert(gs[m] == d[m]);
            } else {
                assert(shared(gs)[k] == gs[gs.len() - 1]);
            }
        }
    }
}

/// The groups `shared` keeps have distinct keys if the groups it was given
/// have.
pub proof fn lemma_shared_keys_distinct<K>(gs: Seq<(K, Seq<String>)>)
    requires
        keys_of(gs).no_duplicates(),
    ensures
        keys_of(shared(gs)).no_duplicates(),
    decreases gs.len(),
{
    if gs.len() > 0 {
        let d = gs.drop_last();
        assert(keys_of(d).no_duplicates()) by {
            assert forall|a: int, b: int| 0 <= a < d.len() && 0 <= b < d.len() && a != b implies keys_of(
                d,
            )[a] != keys_of(d)[b] by {
                assert(keys_of(d)[a] == keys_of(gs)[a]);
                assert(keys_of(d)[b] == keys_of(gs)[b]);
            }
        }
        lemma_shared_keys_distinct(d);
        lemma_shared_from(d);
        let sd = shared(d);
        if gs.last().1.len() >= 2 {
            assert forall|a: int, b: int|
                0 <= a < shared(gs).len() && 0 <= b < shared(gs).len() && a != b implies keys_of(
                shared(gs),
            )[a] != keys_of(shared(gs))[b] by {
                if a < sd.len() && b < sd.len() {
                    assert(keys_of(shared(gs))[a] == keys_of(sd)[a]);
                    assert(keys_of(shared(gs))[b] == keys_of(sd)[b]);
                } else {
                    let c = if a < sd.len() { a } else { b };
                    let m = choose|m: int| 0 <= m < d.len() && sd[c] == d[m];
                    assert(keys_of(gs)[m] == d[m].0);
                    assert(keys_of(gs)[gs.len() - 1] == gs.last().0);
                    assert(keys_of(shared(gs))[c] == sd[c].0);
                }
            }
        }
    }
}

/// The keys of a grouping are its keys in order.
pub proof fn lemma_grouping_keys<K>(es: Seq<(K, String)>)
    ensures
        keys_of(grouping(es)) == keys_in_order(es),
        keys_of(grouping(es)).no_duplicates(),
{
    lemma_keys_distinct(es);
    assert(keys_of(grouping(es)) =~= keys_in_order(es));
}

pub proof fn lemma_keys_distinct<K>(es: Seq<(K, String)>)
    ensures
        keys_in_order(es).no_duplicates(),
    decreases es.len(),
{
    if es.len() > 0 {
        lemma_keys_distinct(es.drop_last());
    }
}

pub proof fn lemma_absent_key_has_no_members<K>(es: Seq<(K, String)>, k: K)
    requires
        !keys_in_order(es).contains(k),
    ensures
        members(es, k) == Seq::<String>::empty(),
    decreases es.len(),
{
    if es.len() > 0 {
        let ks = keys_in_order(es.drop_last());
        if ks.contains(k) {
            assert(keys_in_order(es).contains(k)) by {
                let j = choose|j: int| 0 <= j < ks.len() && ks[j] == k;
                if !ks.contains(es.last().0) {
                    assert(ks.push(es.last().0)[j] == k);
                }
            }
        }
        if es.last().0 == k {
            assert(keys_in_order(es).contains(k)) by {
                if ks.contains(k) {
                } else {
                    assert(keys_in_order(es)[ks.len() as int] == k);
                }
            }
        }
        lemma_absent_key_has_no_members(es.drop_last(), k);
    }
}

/// Groups `entries` by key: one group per distinct key, in the order of the
/// keys' first appearance, each with all its paths in order.
pub fn group_by_key(entries: Vec<(u64, String)>) -> (r: Vec<KeyGroup>)
    ensures
        group_views(r@) == grouping(entries@),
{
    let mut groups: Vec<KeyGroup> = Vec::new();
    let n = entries.len();
    for i in 0..n
        invariant
            n == entries@.len(),
            group_views(groups@) == grouping(entries@.take(i as int)),
    {
        let ghost es = entries@.take(i as int);
        let ghost es1 = entries@.take(i + 1);
        let ghost ks = keys_in_order(es);
        proof {
            assert(es1.drop_last() =~= es);
            assert(es1.last() == entries@[i as int]);
        }
        let key = entries[i].0;
        let path = entries[i].1.clone();
        assert(groups@.len() == ks.len()) by {
            assert(group_views(groups@).len() == groups@.len());
        }
        let mut j: usize = 0;
        while j < groups.len() && groups[j].key != key
            invariant
                j <= groups@.len(),
                groups@.len() == ks.len(),
                ks == keys_in_order(es),
                group_views(groups@) == grouping(es),
                forall|m: int| 0 <= m < j ==> ks[m] != key,
            decreases groups@.len() - j,
        {
            proof {
                assert(group_views(groups@)[j as int] == groups@[j as int]@);
                assert(grouping(es)[j as int] == (ks[j as int], members(es, ks[j as int])));
            }
            j = j + 1;
        }
        if j < groups.len() {
            proof {
                assert(group_views(groups@)[j as int] == groups@[j as int]@);
                assert(grouping(es)[j as int].0 == ks[j as int]);
                assert(ks[j as int] == key);
                lemma_keys_distinct(es);
                assert(ks.contains(key));
                assert(keys_in_order(es1) == ks);
            }
            let ghost old_groups = groups@;
            groups[j].paths.push(path);
            proof {
                assert forall|m: int| 0 <= m < ks.len() implies #[trigger] group_views(groups@)[m]
                    == (ks[m], members(es1, ks[m])) by {
                    assert(group_views(old_groups)[m] == (ks[m], members(es, ks[m])));
                    assert(group_views(old_groups)[m] == old_groups[m]@);
                    assert(group_views(groups@)[m] == groups@[m]@);
                    if m != j {
                        assert(ks[m] != ks[j as int]);
                    }
                }
                assert(group_views(groups@) =~= grouping(es1));
            }
        } else {
            proof {
                assert(!ks.contains(key)) by {
                    if ks.contains(key) {
                        let m = choose|m: int| 0 <= m < ks.len() && ks[m] == key;
                        assert(ks[m] != key);
                    }
                }
                assert(keys_in_order(es1) == ks.push(key));
                lemma_absent_key_has_no_members(es, key);
            }
            let ghost old_groups = groups@;
            let mut paths: Vec<String> = Vec::new();
            paths.push(path);
            groups.push(KeyGroup { key, paths });
            proof {
                assert forall|m: int| 0 <= m < ks.len() + 1 implies #[trigger] group_views(
                    groups@,
                )[m] == (ks.push(key)[m], members(es1, ks.push(key)[m])) by {
                    assert(group_views(groups@)[m] == groups@[m]@);
                    if m < ks.len() {
                        assert(group_views(old_groups)[m] == (ks[m], members(es, ks[m])));
                        assert(group_views(old_groups)[m] == old_groups[m]@);
                        assert(ks[m] != key);
                    } else {
                        assert(members(es1, key) =~= seq![path]);
                    }
                }
                assert(group_views(groups@) =~= grouping(es1));
            }
        }
    }
    proof {
        assert(entries@.take(n as int) =~= entries@);
    }
    groups
}

/// The groups of `groups` that hold at least two paths, in order.
pub fn keep_shared(groups: Vec<KeyGroup>) -> (r: Vec<KeyGroup>)
    ensures
        group_views(r@) == shared(group_views(groups@)),
{
    let ghost gs = group_views(groups@);
    let mut rest = groups;
    let mut kept_rev: Vec<KeyGroup> = Vec::new();
    while rest.len() > 0
        invariant
            rest@.len() <= gs.len(),
            group_views(rest@) == gs.take(rest@.len() as int),
            shared(gs) == shared(group_views(rest@)) + group_views(kept_rev@).reverse(),
        decreases rest@.len(),
    {
        let ghost before = group_views(rest@);
        let g = rest.pop().unwrap();
        proof {
            assert(before.drop_last() =~= group_views(rest@));
            assert(before.last() == g@);
        }
        if g.paths.len() >= 2 {
            let ghost k = group_views(kept_rev@);
            kept_rev.push(g);
            proof {
                assert(group_views(kept_rev@).reverse() =~= seq![g@] + k.reverse());
            }
        }
        proof {
            assert(group_views(rest@) =~= gs.take(rest@.len() as int));
        }
    }
    let mut kept: Vec<KeyGroup> = Vec::new();
    while kept_rev.len() > 0
        invariant
            shared(gs) == group_views(kept@) + group_views(kept_rev@).reverse(),
        decreases kept_rev@.len(),
    {
        let ghost before = group_views(kept_rev@);
        let g = kept_rev.pop().unwrap();
        proof {
            assert(before.drop_last() =~= group_views(kept_rev@));
            assert(before.reverse() =~= seq![g@] + group_views(kept_rev@).reverse());
        }
        let ghost k = group_views(kept@);
        kept.push(g);
        proof {
            assert(group_views(kept@) =~= k.push(g@));
        }
    }
    proof {
        assert(group_views(kept@) =~= shared(gs));
    }
    kept
}

pub proof fn lemma_shared_at_least_two<K>(gs: Seq<(K, Seq<String>)>)
    ensures
        forall|k: int| 0 <= k < shared(gs).len() ==> (#[trigger] shared(gs)[k]).1.len() >= 2,
    decreases gs.len(),
{
    if gs.len() > 0 {
        lemma_shared_at_least_two(gs.drop_last());
        let rest = shared(gs.drop_last());
        assert forall|k: int| 0 <= k < shared(gs).len() implies (#[trigger] shared(gs)[k]).1.len()
            >= 2 by {
            if k < rest.len() {
                assert(shared(gs)[k] == rest[k]);
            }
        }
    }
}

/// A key shared by two entries has at least two members.
pub proof fn lemma_two_members<K>(es: Seq<(K, String)>, i: int, j: int)
    requires
        0 <= i < j < es.len(),
        es[i].0 == es[j].0,
    ensures
        members(es, es[i].0).len() >= 2,
    decreases es.len(),
{
    let d = es.drop_last();
    let k = es[i].0;
    if j < es.len() - 1 {
        assert(d[i] == es[i] && d[j] == es[j]);
        lemma_two_members(d, i, j);
    } else {
        assert(d[i] == es[i]);
        lemma_member_listed(d, i);
        assert(members(es, k) == members(d, k).push(es.last().1));
    }
}

/// Every entry is listed among the members of its key, and its key among
/// the keys.
pub proof fn lemma_member_listed<K>(es: Seq<(K, String)>, i: int)
    requires
        0 <= i < es.len(),
    ensures
        members(es, es[i].0).contains(es[i].1),
        keys_in_order(es).contains(es[i].0),
    decreases es.len(),
{
    let d = es.drop_last();
    if i < es.len() - 1 {
        lemma_member_listed(d, i);
        assert(d[i] == es[i]);
        let m = choose|m: int| 0 <= m < members(d, es[i].0).len() && members(d, es[i].0)[m] == es[i].1;
        if es.last().0 == es[i].0 {
            assert(members(es, es[i].0)[m] == es[i].1);
        }
        let q = choose|q: int| 0 <= q < keys_in_order(d).len() && keys_in_order(d)[q] == es[i].0;
        if !keys_in_order(d).contains(es.last().0) {
            assert(keys_in_order(es)[q] == es[i].0);
        }
    } else {
        assert(members(es, es[i].0).last() == es[i].1);
        if !keys_in_order(d).contains(es[i].0) {
            assert(keys_in_order(es).last() == es[i].0);
        }
    }
}

/// Every member of a key comes from an entry with that key.
pub proof fn lemma_member_from<K>(es: Seq<(K, String)>, k: K, m: int)
    requires
        0 <= m < members(es, k).len(),
    ensures
        exists|i: int| 0 <= i < es.len() && es[i] == (k, #[trigger] members(es, k)[m]),
    decreases es.len(),
{
    let d = es.drop_last();
    if m < members(d, k).len() {
        lemma_member_from(d, k, m);
        let i = choose|i: int| 0 <= i < d.len() && d[i] == (k, #[trigger] members(d, k)[m]);
        assert(es[i] == d[i]);
        if es.last().0 == k {
            assert(members(es, k)[m] == members(d, k)[m]);
        }
    } else {
        assert(es[es.len() - 1] == (k, members(es, k)[m]));
    }
}

/// `shared` keeps exactly the groups of two or more paths.
pub proof fn lemma_shared_keeps<K>(gs: Seq<(K, Seq<String>)>, g: (K, Seq<String>))
    ensures
        shared(gs).contains(g) <==> gs.contains(g) && g.1.len() >= 2,
    decreases gs.len(),
{
    if gs.len() > 0 {
        let d = gs.drop_last();
        lemma_shared_keeps(d, g);
        if gs.contains(g) && g.1.len() >= 2 && !d.contains(g) {
            let m = choose|m: int| 0 <= m < gs.len() && gs[m] == g;
            if m < d.len() {
                assert(d[m] == g);
            }
            assert(shared(gs).last() == g);
        }
        if d.contains(g) {
            let m = choose|m: int| 0 <= m < d.len() && d[m] == g;
            assert(gs[m] == g);
        }
        if shared(d).contains(g) {
            let m = choose|m: int| 0 <= m < shared(d).len() && shared(d)[m] == g;
            assert(shared(gs)[m] == g);
        }
        if shared(gs).contains(g) && !shared(d).contains(g) {
            let m = choose|m: int| 0 <= m < shared(gs).len() && shared(gs)[m] == g;
            assert(gs[gs.len() - 1] == g);
        }
    }
}

} // verus!
