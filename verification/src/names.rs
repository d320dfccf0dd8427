//! Files that share a name: the first pass that reads no contents.

use vstd::prelude::*;
use crate::grouping::{
    grouping,
    keys_in_order,
    keys_of,
    lemma_grouping_keys,
    lemma_shared_keys_distinct,
    lemma_absent_key_has_no_members,
    lemma_keys_distinct,
    lemma_shared_at_least_two,
    members,
    shared,
};
use crate::text::chars_of;

verus! {

/// Files found under the same name.
#[derive(Debug)]
pub struct NameDuplicateSet {
    pub name: String,
    pub files: Vec<String>,
}

impl View for NameDuplicateSet {
    type V = (Seq<char>, Seq<String>);

    open spec fn view(&self) -> (Seq<char>, Seq<String>) {
        (self.name@, self.files@)
    }
}

/// The views of a sequence of name sets.
pub open spec fn name_set_views(ss: Seq<NameDuplicateSet>) -> Seq<(Seq<char>, Seq<String>)> {
    ss.map_values(|s: NameDuplicateSet| s@)
}

/// The pairs of file name and path, the name by its text.
pub open spec fn name_entries(es: Seq<(String, String)>) -> Seq<(Seq<char>, String)> {
    es.map_values(|e: (String, String)| (e.0@, e.1))
}

/// Groups the pairs of file name and path by name: one group per distinct
/// name, in the order of first appearance, each with all its paths in order.
pub fn group_by_name(entries: &Vec<(String, String)>) -> (r: Vec<NameDuplicateSet>)
    ensures
        name_set_views(r@) == grouping(name_entries(entries@)),
{
    let mut groups: Vec<NameDuplicateSet> = Vec::new();
    let n = entries.len();
    for i in 0..n
        invariant
            n == entries@.len(),
            name_set_views(groups@) == grouping(name_entries(entries@.take(i as int))),
    {
        let ghost es = name_entries(entries@.take(i as int));
        let ghost es1 = name_entries(entries@.take(i + 1));
        let ghost ks = keys_in_order(es);
        proof {
            assert(es1.drop_last() =~= es);
            assert(es1.last() == (entries@[i as int].0@, entries@[i as int].1));
        }
        let name = entries[i].0.clone();
        let path = entries[i].1.clone();
        assert(groups@.len() == ks.len()) by {
            assert(name_set_views(groups@).len() == groups@.len());
        }
        let mut j: usize = 0;
        while j < groups.len() && !groups[j].name.eq(&name)
            invariant
                j <= groups@.len(),
                groups@.len() == ks.len(),
                ks == keys_in_order(es),
                name_set_views(groups@) == grouping(es),
                forall|m: int| 0 <= m < j ==> ks[m] != name@,
            decreases groups@.len() - j,
        {
            proof {
                assert(name_set_views(groups@)[j as int] == groups@[j as int]@);
                assert(grouping(es)[j as int] == (ks[j as int], members(es, ks[j as int])));
            }
            j = j + 1;
        }
        if j < groups.len() {
            proof {
                assert(name_set_views(groups@)[j as int] == groups@[j as int]@);
                assert(grouping(es)[j as int].0 == ks[j as int]);
                assert(ks[j as int] == name@);
                lemma_keys_distinct(es);
                assert(ks.contains(name@));
                assert(keys_in_order(es1) == ks);
            }
            let ghost old_groups = groups@;
            groups[j].files.push(path);
            proof {
                assert forall|m: int| 0 <= m < ks.len() implies #[trigger] name_set_views(
                    groups@,
                )[m] == (ks[m], members(es1, ks[m])) by {
                    assert(name_set_views(old_groups)[m] == (ks[m], members(es, ks[m])));
                    assert(name_set_views(old_groups)[m] == old_groups[m]@);
                    assert(name_set_views(groups@)[m] == groups@[m]@);
                    if m != j {
                        assert(ks[m] != ks[j as int]);
                    }
                }
                assert(name_set_views(groups@) =~= grouping(es1));
            }
        } else {
            proof {
                assert(!ks.contains(name@)) by {
                    if ks.contains(name@) {
                        let m = choose|m: int| 0 <= m < ks.len() && ks[m] == name@;
                        assert(ks[m] != name@);
                    }
                }
                assert(keys_in_order(es1) == ks.push(name@));
                lemma_absent_key_has_no_members(es, name@);
            }
            let ghost old_groups = groups@;
            let mut files: Vec<String> = Vec::new();
            files.push(path);
            groups.push(NameDuplicateSet { name, files });
            proof {
                assert forall|m: int| 0 <= m < ks.len() + 1 implies #[trigger] name_set_views(
                    groups@,
                )[m] == (ks.push(name@)[m], members(es1, ks.push(name@)[m])) by {
                    assert(name_set_views(groups@)[m] == groups@[m]@);
                    if m < ks.len() {
                        assert(name_set_views(old_groups)[m] == (ks[m], members(es, ks[m])));
                        assert(name_set_views(old_groups)[m] == old_groups[m]@);
                        assert(ks[m] != name@);
                    } else {
                        assert(members(es1, name@) =~= seq![path]);
                    }
                }
                assert(name_set_views(groups@) =~= grouping(es1));
            }
        }
    }
    proof {
        assert(entries@.take(n as int) =~= entries@);
    }
    groups
}

/// Whether `a` comes before `b` in lexicographic order of code points.
pub open spec fn lex_less(a: Seq<char>, b: Seq<char>) -> bool
    decreases a.len(),
{
    if a.len() == 0 {
        b.len() > 0
    } else if b.len() == 0 {
        false
    } else if a[0] != b[0] {
        a[0] < b[0]
    } else {
        lex_less(a.drop_first(), b.drop_first())
    }
}

/// Lexicographic order is a strict total order: nothing comes before
/// itself, it is transitive, and of two different texts one comes first.
pub proof fn lemma_lex_order(a: Seq<char>, b: Seq<char>, c: Seq<char>)
    ensures
        !lex_less(a, a),
        lex_less(a, b) ==> !lex_less(b, a),
        lex_less(a, b) && lex_less(b, c) ==> lex_less(a, c),
        a != b ==> lex_less(a, b) || lex_less(b, a),
    decreases a.len(),
{
    if a.len() > 0 {
        lemma_lex_order(a.drop_first(), a.drop_first(), a.drop_first());
        if b.len() > 0 {
            lemma_lex_order(a.drop_first(), b.drop_first(), b.drop_first());
            if c.len() > 0 {
                lemma_lex_order(a.drop_first(), b.drop_first(), c.drop_first());
            }
            if a != b && a[0] == b[0] {
                assert(a.drop_first() != b.drop_first()) by {
                    if a.drop_first() == b.drop_first() {
                        assert(a =~= b) by {
                            assert forall|i: int| 0 <= i < a.len() implies a[i] == b[i] by {
                                if i > 0 {
                                    assert(a[i] == a.drop_first()[i - 1]);
                                    assert(b[i] == b.drop_first()[i - 1]);
                                }
                            }
                        }
                    }
                }
            }
        }
    } else {
        if b.len() == 0 {
            assert(a =~= b);
        }
    }
}

/// The name order is that of a dictionary, whatever the lengths: where `a`
/// and `b` first differ, at place `k`, the one with the smaller character
/// there comes first.
pub proof fn lemma_lex_first_difference(a: Seq<char>, b: Seq<char>, k: int)
    requires
        0 <= k < a.len(),
        k < b.len(),
        a.take(k) == b.take(k),
        a[k] != b[k],
    ensures
        lex_less(a, b) == (a[k] < b[k]),
        lex_less(b, a) == (b[k] < a[k]),
    decreases k,
{
    if k > 0 {
        assert(a[0] == a.take(k)[0]);
        assert(b[0] == b.take(k)[0]);
        assert(a.drop_first().take(k - 1) =~= b.drop_first().take(k - 1)) by {
            assert forall|i: int| 0 <= i < k - 1 implies #[trigger] a.drop_first().take(k - 1)[i]
                == b.drop_first().take(k - 1)[i] by {
                assert(a.take(k)[i + 1] == a[i + 1]);
                assert(b.take(k)[i + 1] == b[i + 1]);
                assert(a.take(k)[i + 1] == b.take(k)[i + 1]);
                assert(a.drop_first()[i] == a[i + 1]);
                assert(b.drop_first()[i] == b[i + 1]);
            }
        }
        lemma_lex_first_difference(a.drop_first(), b.drop_first(), k - 1);
    }
}

/// A name comes before every longer name that starts with it, and never
/// after it.
pub proof fn lemma_lex_prefix(a: Seq<char>, b: Seq<char>)
    requires
        a.len() < b.len(),
        b.take(a.len() as int) == a,
    ensures
        lex_less(a, b),
        !lex_less(b, a),
    decreases a.len(),
{
    if a.len() > 0 {
        assert(b[0] == b.take(a.len() as int)[0]);
        assert(b.drop_first().take(a.len() - 1) =~= a.drop_first()) by {
            assert forall|i: int| 0 <= i < a.len() - 1 implies #[trigger] b.drop_first().take(
                a.len() - 1,
            )[i] == a.drop_first()[i] by {
                assert(b.take(a.len() as int)[i + 1] == a[i + 1]);
            }
        }
        lemma_lex_prefix(a.drop_first(), b.drop_first());
    }
}

/// Whether the text of `a` comes before that of `b`.
pub fn name_less(a: &String, b: &String) -> (r: bool)
    ensures
        r == lex_less(a@, b@),
{
    let x = chars_of(a.as_str());
    let y = chars_of(b.as_str());
    proof {
        assert(x@.skip(0) =~= x@);
        assert(y@.skip(0) =~= y@);
    }
    let mut i: usize = 0;
    while i < x.len() && i < y.len() && x[i] == y[i]
        invariant
            i <= x@.len(),
            i <= y@.len(),
            lex_less(a@, b@) == lex_less(x@.skip(i as int), y@.skip(i as int)),
        decreases x@.len() - i,
    {
        proof {
            assert(x@.skip(i as int).drop_first() =~= x@.skip(i + 1));
            assert(y@.skip(i as int).drop_first() =~= y@.skip(i + 1));
        }
        i = i + 1;
    }
    if i == x.len() {
        i < y.len()
    } else if i == y.len() {
        false
    } else {
        x[i] < y[i]
    }
}

/// The sets of `sets` under at least two paths, in order.
fn keep_shared_names(sets: Vec<NameDuplicateSet>) -> (r: Vec<NameDuplicateSet>)
    ensures
        name_set_views(r@) == shared(name_set_views(sets@)),
{
    let ghost gs = name_set_views(sets@);
    let n = sets.len();
    let mut rest = sets;
    let mut kept: Vec<NameDuplicateSet> = Vec::new();
    for i in 0..n
        invariant
            n == gs.len(),
            name_set_views(rest@) == gs.skip(i as int),
            name_set_views(kept@) == shared(gs.take(i as int)),
    {
        assert(name_set_views(rest@).len() == rest@.len());
        let ghost before = rest@;
        let g = rest.remove(0);
        proof {
            assert(name_set_views(before)[0] == g@);
            assert forall|k: int| 0 <= k < rest@.len() implies #[trigger] name_set_views(rest@)[k]
                == gs.skip(i + 1)[k] by {
                assert(rest@[k] == before[k + 1]);
                assert(name_set_views(before)[k + 1] == before[k + 1]@);
            }
            assert(name_set_views(rest@) =~= gs.skip(i + 1));
            assert(gs.take(i + 1).drop_last() =~= gs.take(i as int));
            assert(gs.take(i + 1).last() == g@);
        }
        if g.files.len() >= 2 {
            let ghost k = name_set_views(kept@);
            kept.push(g);
            proof {
                assert(name_set_views(kept@) =~= k.push(g@));
            }
        }
    }
    proof {
        assert(gs.take(n as int) =~= gs);
    }
    kept
}

/// `r` holds the sets of `s`, whose names all differ, by name in
/// lexicographic order: `p` maps each place of `r` to the place of `s` it
/// comes from.
pub open spec fn sorted_by_name(
    s: Seq<(Seq<char>, Seq<String>)>,
    r: Seq<(Seq<char>, Seq<String>)>,
    p: Seq<int>,
) -> bool {
    &&& r.len() == s.len()
    &&& p.len() == s.len()
    &&& p.no_duplicates()
    &&& forall|i: int| 0 <= i < p.len() ==> 0 <= #[trigger] p[i] < s.len()
    &&& forall|i: int| 0 <= i < r.len() ==> #[trigger] r[i] == s[p[i]]
    &&& forall|i: int, j: int| 0 <= i < j < r.len() ==> lex_less(r[i].0, r[j].0)
}

/// Sorts `sets`, whose names all differ, by name.
pub fn sort_by_name(sets: Vec<NameDuplicateSet>) -> (r: Vec<NameDuplicateSet>)
    requires
        keys_of(name_set_views(sets@)).no_duplicates(),
    ensures
        exists|p: Seq<int>| sorted_by_name(name_set_views(sets@), name_set_views(r@), p),
{
    let ghost s = name_set_views(sets@);
    let n = sets.len();
    let mut rest = sets;
    let mut out: Vec<NameDuplicateSet> = Vec::new();
    let ghost mut p: Seq<int> = Seq::empty();
    for i in 0..n
        invariant
            n == s.len(),
            keys_of(s).no_duplicates(),
            name_set_views(rest@) == s.skip(i as int),
            out@.len() == i,
            p.len() == i,
            p.no_duplicates(),
            forall|k: int| 0 <= k < p.len() ==> 0 <= #[trigger] p[k] < i,
            forall|k: int| 0 <= k < out@.len() ==> #[trigger] name_set_views(out@)[k] == s[p[k]],
            forall|a: int, b: int|
                0 <= a < b < out@.len() ==> lex_less(
                    name_set_views(out@)[a].0,
                    name_set_views(out@)[b].0,
                ),
    {
        assert(name_set_views(rest@).len() == rest@.len());
        let ghost before = rest@;
        let x = rest.remove(0);
        proof {
            assert(name_set_views(before)[0] == x@);
            assert(s.skip(i as int)[0] == s[i as int]);
            assert forall|k: int| 0 <= k < rest@.len() implies #[trigger] name_set_views(rest@)[k]
                == s.skip(i + 1)[k] by {
                assert(rest@[k] == before[k + 1]);
                assert(name_set_views(before)[k + 1] == before[k + 1]@);
            }
            assert(name_set_views(rest@) =~= s.skip(i + 1));
        }
        let mut j: usize = 0;
        while j < out.len() && !name_less(&x.name, &out[j].name)
            invariant
                j <= out@.len(),
                forall|k: int| 0 <= k < j ==> !lex_less(x@.0, #[trigger] name_set_views(out@)[k].0),
            decreases out@.len() - j,
        {
            proof {
                assert(name_set_views(out@)[j as int] == out@[j as int]@);
            }
            j = j + 1;
        }
        let ghost old_out = name_set_views(out@);
        proof {
            if j < out@.len() {
                assert(old_out[j as int] == out@[j as int]@);
            }
        }
        out.insert(j, x);
        proof {
            let new_out = name_set_views(out@);
            assert(new_out =~= old_out.insert(j as int, x@));
            let q = p.insert(j as int, i as int);
            assert forall|k: int| 0 <= k < q.len() implies 0 <= #[trigger] q[k] < i + 1 by {
                if k > j {
                    assert(q[k] == p[k - 1]);
                } else if k < j {
                    assert(q[k] == p[k]);
                }
            }
            assert(q.no_duplicates()) by {
                assert forall|a: int, b: int| 0 <= a < q.len() && 0 <= b < q.len() && a != b implies q[a]
                    != q[b] by {
                    if a != j && b != j {
                        let pa = if a < j { a } else { a - 1 };
                        let pb = if b < j { b } else { b - 1 };
                        assert(q[a] == p[pa]);
                        assert(q[b] == p[pb]);
                    } else if a == j {
                        let pb = if b < j { b } else { b - 1 };
                        assert(q[b] == p[pb]);
                    } else {
                        let pa = if a < j { a } else { a - 1 };
                        assert(q[a] == p[pa]);
                    }
                }
            }
            assert forall|k: int| 0 <= k < out@.len() implies #[trigger] name_set_views(out@)[k]
                == s[q[k]] by {
                if k > j {
                    assert(q[k] == p[k - 1]);
                    assert(new_out[k] == old_out[k - 1]);
                } else if k < j {
                    assert(q[k] == p[k]);
                    assert(new_out[k] == old_out[k]);
                }
            }
            // The name of `x` differs from every name placed so far.
            assert forall|k: int| 0 <= k < old_out.len() implies old_out[k].0 != x@.0 by {
                assert(old_out[k] == s[p[k]]);
                assert(keys_of(s)[p[k]] == s[p[k]].0);
                assert(keys_of(s)[i as int] == s[i as int].0);
            }
            assert forall|a: int, b: int| 0 <= a < b < out@.len() implies lex_less(
                new_out[a].0,
                new_out[b].0,
            ) by {
                if a < j && b < j {
                    assert(new_out[a] == old_out[a] && new_out[b] == old_out[b]);
                } else if a < j && b == j {
                    assert(new_out[a] == old_out[a]);
                    assert(!lex_less(x@.0, old_out[a].0));
                    lemma_lex_order(x@.0, old_out[a].0, old_out[a].0);
                } else if a < j && b > j {
                    assert(new_out[a] == old_out[a] && new_out[b] == old_out[b - 1]);
                } else if a == j {
                    assert(new_out[b] == old_out[b - 1]);
                    assert(lex_less(x@.0, old_out[j as int].0));
                    if b - 1 > j {
                        lemma_lex_order(x@.0, old_out[j as int].0, old_out[b - 1].0);
                    }
                } else {
                    assert(new_out[a] == old_out[a - 1] && new_out[b] == old_out[b - 1]);
                }
            }
            p = q;
        }
    }
    proof {
        assert(sorted_by_name(s, name_set_views(out@), p));
    }
    out
}

/// The files that share a name with another: the pairs of name and path
/// grouped by name, in the order of the names' first appearance, the names
/// found only once left out, and the groups sorted by name.
pub fn find_name_duplicates(entries: &Vec<(String, String)>) -> (r: Vec<NameDuplicateSet>)
    ensures
        exists|p: Seq<int>|
            sorted_by_name(shared(grouping(name_entries(entries@))), name_set_views(r@), p),
        forall|k: int| 0 <= k < r@.len() ==> #[trigger] r@[k].files@.len() >= 2,
{
    let ghost g = shared(grouping(name_entries(entries@)));
    let groups = group_by_name(entries);
    let kept = keep_shared_names(groups);
    proof {
        lemma_grouping_keys(name_entries(entries@));
        lemma_shared_keys_distinct(grouping(name_entries(entries@)));
        lemma_shared_at_least_two(grouping(name_entries(entries@)));
    }
    let r = sort_by_name(kept);
    proof {
        let p = choose|p: Seq<int>| sorted_by_name(g, name_set_views(r@), p);
        assert forall|k: int| 0 <= k < r@.len() implies #[trigger] r@[k].files@.len() >= 2 by {
            assert(name_set_views(r@)[k] == r@[k]@);
            assert(name_set_views(r@)[k] == g[p[k]]);
        }
    }
    r
}

} // verus!
