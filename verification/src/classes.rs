//! What the comparisons of the search add up to: in each group of equal
//! hash, the first file collects every other file found identical to it,
//! and the rest start over.

use vstd::prelude::*;
use crate::grouper::{set_views, DuplicateSearch};
use crate::grouping::group_views;

verus! {

broadcast use vstd::seq_lib::group_filter_ensures;

/// The sets of two or more files that comparing `files` in turn makes, when
/// `same` tells which files are identical: the first file collects the
/// others identical to it, and those left start over.
pub open spec fn greedy(files: Seq<String>, same: spec_fn(String, String) -> bool) -> Seq<
    Seq<String>,
>
    decreases files.len(),
{
    if files.len() == 0 {
        Seq::empty()
    } else {
        let first = files[0];
        let rest = files.drop_first();
        let joined = seq![first] + rest.filter(|x: String| same(first, x));
        let left = rest.filter(|x: String| !same(first, x));
        proof {
            rest.lemma_filter_len(|x: String| !same(first, x));
        }
        (if joined.len() >= 2 {
            seq![joined]
        } else {
            Seq::empty()
        }) + greedy(left, same)
    }
}

/// The sets the search still makes of the group under comparison: `group`
/// collects the files of `remaining` from `cursor` on identical to its first
/// file; the files before `cursor` and those not identical start over.
pub open spec fn group_rest(
    group: Seq<String>,
    remaining: Seq<String>,
    cursor: int,
    same: spec_fn(String, String) -> bool,
) -> Seq<Seq<String>> {
    let first = group[0];
    let unseen = remaining.skip(cursor);
    let joined = group + unseen.filter(|x: String| same(first, x));
    let left = remaining.take(cursor) + unseen.filter(|x: String| !same(first, x));
    (if joined.len() >= 2 {
        seq![joined]
    } else {
        Seq::empty()
    }) + greedy(left, same)
}

/// The sets `sets`, each of files of `size` bytes.
pub open spec fn sized(size: u64, sets: Seq<Seq<String>>) -> Seq<(u64, Seq<String>)> {
    sets.map_values(|s: Seq<String>| (size, s))
}

/// The sets comparing makes of each hash group of `hgs`, in order.
pub open spec fn greedy_all(
    hgs: Seq<(u64, Seq<String>)>,
    same: spec_fn(String, String) -> bool,
) -> Seq<(u64, Seq<String>)>
    decreases hgs.len(),
{
    if hgs.len() == 0 {
        Seq::empty()
    } else {
        sized(hgs[0].0, greedy(hgs[0].1, same)) + greedy_all(hgs.drop_first(), same)
    }
}

/// The sets a search whose hashing is over ends with, when every comparison
/// it asks for is answered by `same`: those found, those it still makes of
/// the group under comparison, and those of the hash groups not taken up.
pub open spec fn outcome(s: &DuplicateSearch, same: spec_fn(String, String) -> bool) -> Seq<
    (u64, Seq<String>),
> {
    set_views(s.sets@) + (if s.group@.len() > 0 {
        sized(s.size, group_rest(s.group@, s.remaining@, s.cursor as int, same))
    } else {
        Seq::empty()
    }) + greedy_all(group_views(s.hash_groups@).skip(s.verified as int), same)
}

proof fn lemma_filter_nothing(same: spec_fn(String, String) -> bool, first: String)
    ensures
        Seq::<String>::empty().filter(|x: String| same(first, x)) == Seq::<String>::empty(),
        Seq::<String>::empty().filter(|x: String| !same(first, x)) == Seq::<String>::empty(),
{
    reveal(Seq::filter);
}

/// One comparison answered by `same` leaves the sets still to come of the
/// group unchanged: a file found identical joins the group, any other is
/// passed and starts over later.
proof fn lemma_group_rest_step(
    g: Seq<String>,
    r: Seq<String>,
    c: int,
    same: spec_fn(String, String) -> bool,
)
    requires
        g.len() > 0,
        0 <= c < r.len(),
    ensures
        same(g[0], r[c]) ==> group_rest(g.push(r[c]), r.remove(c), c, same) == group_rest(
            g,
            r,
            c,
            same,
        ),
        !same(g[0], r[c]) ==> group_rest(g, r, c + 1, same) == group_rest(g, r, c, same),
{
    let first = g[0];
    let x = r[c];
    let p = |y: String| same(first, y);
    let np = |y: String| !same(first, y);
    let tail = r.skip(c + 1);
    assert(r.skip(c) =~= seq![x] + tail);
    tail.lemma_filter_prepend(x, p);
    tail.lemma_filter_prepend(x, np);
    if same(first, x) {
        let g1 = g.push(x);
        let r1 = r.remove(c);
        assert(g1[0] == first);
        assert(r1.skip(c) =~= tail);
        assert(r1.take(c) =~= r.take(c));
        assert(g1 + tail.filter(p) =~= g + (seq![x] + tail).filter(p));
        assert(r.take(c) + tail.filter(np) =~= r.take(c) + (seq![x] + tail).filter(np));
    } else {
        assert(r.take(c + 1) =~= r.take(c).push(x));
        assert(g + tail.filter(p) =~= g + (seq![x] + tail).filter(p));
        assert(r.take(c + 1) + tail.filter(np) =~= r.take(c) + (seq![x] + tail).filter(np));
    }
}

/// Once every remaining file has been compared, the group is complete and
/// the remaining files start over.
proof fn lemma_group_rest_closed(g: Seq<String>, r: Seq<String>, same: spec_fn(String, String) -> bool)
    requires
        g.len() > 0,
    ensures
        group_rest(g, r, r.len() as int, same) == (if g.len() >= 2 {
            seq![g]
        } else {
            Seq::<Seq<String>>::empty()
        }) + greedy(r, same),
{
    lemma_filter_nothing(same, g[0]);
    assert(r.skip(r.len() as int) =~= Seq::<String>::empty());
    assert(r.take(r.len() as int) =~= r);
    assert(g + Seq::<String>::empty() =~= g);
    assert(r + Seq::<String>::empty() =~= r);
}

/// Comparing files starting from their first is the search's group of that
/// first file, with the others all still to compare.
proof fn lemma_greedy_starts(r: Seq<String>, same: spec_fn(String, String) -> bool)
    requires
        r.len() > 0,
    ensures
        greedy(r, same) == group_rest(seq![r[0]], r.drop_first(), 0, same),
{
    let rest = r.drop_first();
    assert(rest.skip(0) =~= rest);
    assert(rest.take(0) + rest.filter(|x: String| !same(r[0], x)) =~= rest.filter(
        |x: String| !same(r[0], x),
    ));
    assert(seq![r[0]][0] == r[0]);
}

/// Fewer than two files make no set.
proof fn lemma_greedy_few(r: Seq<String>, same: spec_fn(String, String) -> bool)
    requires
        r.len() <= 1,
    ensures
        greedy(r, same) == Seq::<Seq<String>>::empty(),
{
    if r.len() == 1 {
        lemma_filter_nothing(same, r[0]);
        assert(r.drop_first() =~= Seq::<String>::empty());
        assert(greedy(Seq::<String>::empty(), same) == Seq::<Seq<String>>::empty());
        assert(Seq::<Seq<String>>::empty() + Seq::<Seq<String>>::empty() =~= Seq::<
            Seq<String>,
        >::empty());
    }
}

proof fn lemma_sized_add(size: u64, a: Seq<Seq<String>>, b: Seq<Seq<String>>)
    ensures
        sized(size, a + b) == sized(size, a) + sized(size, b),
{
    assert(sized(size, a + b) =~= sized(size, a) + sized(size, b));
}

/// The sets the search ends with do not change when a comparison is
/// answered as `same` says: whatever comparisons are left, answered by
/// `same`, the search ends with `outcome(.., same)`.
pub proof fn lemma_comparison_keeps_outcome(
    old: &DuplicateSearch,
    answer: Option<bool>,
    new: &DuplicateSearch,
    same: spec_fn(String, String) -> bool,
)
    requires
        old.wf(),
        old.comparing(),
        DuplicateSearch::compared(old, answer, new),
        (answer is Some && answer->0) == same(old.group@[0], old.remaining@[old.cursor as int]),
    ensures
        outcome(new, same) == outcome(old, same),
{
    let g = old.group@;
    let r = old.remaining@;
    let c = old.cursor as int;
    let joined = answer == Some(true);
    let g1 = if joined { g.push(r[c]) } else { g };
    let r1 = if joined { r.remove(c) } else { r };
    let c1 = if joined { c } else { c + 1 };
    let hgs = group_views(old.hash_groups@);
    let v = old.verified as int;
    let rest_groups = greedy_all(hgs.skip(v), same);
    lemma_group_rest_step(g, r, c, same);
    assert(group_rest(g1, r1, c1, same) == group_rest(g, r, c, same));
    if c1 < r1.len() {
        assert(outcome(new, same) =~= outcome(old, same));
    } else {
        lemma_group_rest_closed(g1, r1, same);
        let closed = if g1.len() >= 2 {
            seq![g1]
        } else {
            Seq::<Seq<String>>::empty()
        };
        lemma_sized_add(old.size, closed, greedy(r1, same));
        assert(sized(old.size, closed) =~= if g1.len() >= 2 {
            seq![(old.size, g1)]
        } else {
            Seq::<(u64, Seq<String>)>::empty()
        });
        let sets1 = set_views(old.sets@) + sized(old.size, closed);
        assert(set_views(new.sets@) =~= sets1);
        if r1.len() >= 2 {
            lemma_greedy_starts(r1, same);
            assert(outcome(new, same) =~= outcome(old, same));
        } else {
            lemma_greedy_few(r1, same);
            assert(sized(old.size, Seq::<Seq<String>>::empty()) =~= Seq::<(u64, Seq<String>)>::empty());
            if v < hgs.len() {
                let p = hgs[v].1;
                assert(hgs[v] == old.hash_groups@[v]@);
                assert(p.len() >= 2);
                lemma_greedy_starts(p, same);
                assert(hgs.skip(v).drop_first() =~= hgs.skip(v + 1));
                assert(hgs.skip(v)[0] == hgs[v]);
                assert(group_views(new.hash_groups@) == hgs);
                assert(outcome(new, same) =~= outcome(old, same));
            } else {
                assert(hgs.skip(v).len() == 0);
                assert(group_views(new.hash_groups@) == hgs);
                assert(outcome(new, same) =~= outcome(old, same));
            }
        }
    }
}

/// When hashing is over, the search is bound to end, its comparisons
/// answered by `same`, with the sets comparing by `same` makes of each
/// hash group in turn.
pub proof fn lemma_comparisons_start(
    old: &DuplicateSearch,
    h: Option<u64>,
    new: &DuplicateSearch,
    same: spec_fn(String, String) -> bool,
)
    requires
        old.wf(),
        old.hashing(),
        new.wf(),
        DuplicateSearch::hashed_one(old, h, new),
        !new.hashing(),
    ensures
        outcome(new, same) == greedy_all(group_views(new.hash_groups@), same),
{
    let hgs = group_views(new.hash_groups@);
    assert(set_views(new.sets@) =~= Seq::<(u64, Seq<String>)>::empty());
    if hgs.len() > 0 {
        assert(hgs[0] == new.hash_groups@[0]@);
        lemma_greedy_starts(hgs[0].1, same);
        assert(hgs.skip(1) =~= hgs.drop_first());
    } else {
        assert(hgs.skip(0) =~= hgs);
    }
    assert(outcome(new, same) =~= greedy_all(hgs, same));
}

/// A finished search has found all its sets.
pub proof fn lemma_finished_outcome(s: &DuplicateSearch, same: spec_fn(String, String) -> bool)
    requires
        s.wf(),
        s.finished(),
    ensures
        outcome(s, same) == set_views(s.sets@),
{
    let hgs = group_views(s.hash_groups@);
    assert(hgs.skip(s.verified as int).len() == 0);
    assert(outcome(s, same) =~= set_views(s.sets@));
}

/// `same` is an equivalence: reflexive, symmetric and transitive.
pub open spec fn is_equivalence(same: spec_fn(String, String) -> bool) -> bool {
    &&& forall|a: String| #[trigger] same(a, a)
    &&& forall|a: String, b: String| #[trigger] same(a, b) ==> same(b, a)
    &&& forall|a: String, b: String, c: String|
        #[trigger] same(a, b) && #[trigger] same(b, c) ==> same(a, c)
}

proof fn lemma_filter_has(s: Seq<String>, p: spec_fn(String) -> bool, x: String)
    ensures
        s.filter(p).contains(x) <==> s.contains(x) && p(x),
{
    if s.filter(p).contains(x) {
        s.lemma_filter_contains_rev(p, x);
        let i = choose|i: int| 0 <= i < s.filter(p).len() && s.filter(p)[i] == x;
        s.lemma_filter_pred(p, i);
    }
    if s.contains(x) && p(x) {
        let i = choose|i: int| 0 <= i < s.len() && s[i] == x;
        s.lemma_filter_contains(p, i);
    }
}

proof fn lemma_filter_distinct(s: Seq<String>, p: spec_fn(String) -> bool)
    requires
        s.no_duplicates(),
    ensures
        s.filter(p).no_duplicates(),
    decreases s.len(),
{
    reveal(Seq::filter);
    if s.len() > 0 {
        let d = s.drop_last();
        assert(d.no_duplicates()) by {
            assert forall|i: int, j: int| 0 <= i < d.len() && 0 <= j < d.len() && i != j implies d[i]
                != d[j] by {
                assert(d[i] == s[i] && d[j] == s[j]);
            }
        }
        lemma_filter_distinct(d, p);
        if p(s.last()) {
            lemma_filter_has(d, p, s.last());
            assert(!d.contains(s.last())) by {
                if d.contains(s.last()) {
                    let i = choose|i: int| 0 <= i < d.len() && d[i] == s.last();
                    assert(s[i] == s[s.len() - 1]);
                }
            }
            let f = d.filter(p);
            assert forall|i: int, j: int|
                0 <= i < f.push(s.last()).len() && 0 <= j < f.push(s.last()).len() && i != j implies f.push(
                s.last(),
            )[i] != f.push(s.last())[j] by {
                if i < f.len() && j < f.len() {
                } else if i < f.len() {
                    assert(f.contains(f[i]));
                } else {
                    assert(f.contains(f[j]));
                }
            }
        }
    }
}

/// Every file of a set comparing makes is one of the files compared.
pub proof fn lemma_greedy_from(files: Seq<String>, same: spec_fn(String, String) -> bool, s: int, x: String)
    requires
        0 <= s < greedy(files, same).len(),
        greedy(files, same)[s].contains(x),
    ensures
        files.contains(x),
    decreases files.len(),
{
    let first = files[0];
    let rest = files.drop_first();
    let joined = seq![first] + rest.filter(|y: String| same(first, y));
    let left = rest.filter(|y: String| !same(first, y));
    let emitted = if joined.len() >= 2 {
        seq![joined]
    } else {
        Seq::<Seq<String>>::empty()
    };
    assert(greedy(files, same) == emitted + greedy(left, same));
    if s < emitted.len() {
        assert(greedy(files, same)[s] == joined);
        if x != first {
            assert(rest.filter(|y: String| same(first, y)).contains(x)) by {
                let i = choose|i: int| 0 <= i < joined.len() && joined[i] == x;
                assert(rest.filter(|y: String| same(first, y))[i - 1] == x);
            }
            lemma_filter_has(rest, |y: String| same(first, y), x);
        }
    } else {
        rest.lemma_filter_len(|y: String| !same(first, y));
        assert(greedy(files, same)[s] == greedy(left, same)[s - emitted.len()]);
        lemma_greedy_from(left, same, s - emitted.len(), x);
        lemma_filter_has(rest, |y: String| !same(first, y), x);
    }
    if rest.contains(x) {
        let i = choose|i: int| 0 <= i < rest.len() && rest[i] == x;
        assert(files[i + 1] == x);
    }
    assert(files[0] == first);
}

/// When `same` is an equivalence and no file is compared twice, every set
/// comparing makes is a whole class: two or more files, and of the files
/// compared, exactly those identical to its first.
pub proof fn lemma_greedy_sets_are_classes(
    files: Seq<String>,
    same: spec_fn(String, String) -> bool,
    s: int,
    x: String,
)
    requires
        is_equivalence(same),
        files.no_duplicates(),
        0 <= s < greedy(files, same).len(),
        files.contains(x),
    ensures
        greedy(files, same)[s].len() >= 2,
        greedy(files, same)[s].contains(x) <==> same(greedy(files, same)[s][0], x),
    decreases files.len(),
{
    let first = files[0];
    let rest = files.drop_first();
    let p = |y: String| same(first, y);
    let np = |y: String| !same(first, y);
    let joined = seq![first] + rest.filter(p);
    let left = rest.filter(np);
    let emitted = if joined.len() >= 2 {
        seq![joined]
    } else {
        Seq::<Seq<String>>::empty()
    };
    assert(greedy(files, same) == emitted + greedy(left, same));
    assert(rest.no_duplicates()) by {
        assert forall|i: int, j: int| 0 <= i < rest.len() && 0 <= j < rest.len() && i != j implies rest[i]
            != rest[j] by {
            assert(rest[i] == files[i + 1] && rest[j] == files[j + 1]);
        }
    }
    assert(!rest.contains(first)) by {
        if rest.contains(first) {
            let i = choose|i: int| 0 <= i < rest.len() && rest[i] == first;
            assert(files[i + 1] == files[0]);
        }
    }
    if x != first {
        let i = choose|i: int| 0 <= i < files.len() && files[i] == x;
        assert(rest[i - 1] == x);
    }
    lemma_filter_has(rest, p, x);
    lemma_filter_has(rest, np, x);
    if s < emitted.len() {
        let set = greedy(files, same)[s];
        assert(set == joined);
        assert(set[0] == first);
        if joined.contains(x) && x != first {
            let i = choose|i: int| 0 <= i < joined.len() && joined[i] == x;
            assert(rest.filter(p)[i - 1] == x);
        }
        if same(first, x) && x != first {
            let i = choose|i: int| 0 <= i < rest.filter(p).len() && rest.filter(p)[i] == x;
            assert(joined[i + 1] == x);
        }
        if x == first {
            assert(joined[0] == x);
        }
    } else {
        rest.lemma_filter_len(np);
        lemma_filter_distinct(rest, np);
        let t = s - emitted.len();
        let set = greedy(left, same)[t];
        assert(greedy(files, same)[s] == set);
        if left.contains(x) {
            lemma_greedy_sets_are_classes(left, same, t, x);
        } else {
            // `x` is the first file or identical to it: neither in the set,
            // nor identical to the set's first file, which is not identical
            // to the first file.
            assert(set.len() > 0) by {
                if left.len() > 0 {
                    lemma_greedy_sets_are_classes(left, same, t, left[0]);
                } else {
                    assert(greedy(left, same).len() == 0);
                }
            }
            let head = set[0];
            lemma_greedy_from(left, same, t, head);
            lemma_filter_has(rest, np, head);
            lemma_greedy_sets_are_classes(left, same, t, head);
            if set.contains(x) {
                lemma_greedy_from(left, same, t, x);
            }
            if same(head, x) {
                assert(same(x, head));
                if x == first {
                    assert(same(first, head));
                } else {
                    assert(same(first, x));
                    assert(same(first, head));
                }
            }
        }
    }
}

/// When `same` is an equivalence and no file is compared twice, comparing
/// misses no duplicate: two identical files end in one set.
pub proof fn lemma_greedy_complete(
    files: Seq<String>,
    same: spec_fn(String, String) -> bool,
    x: String,
    y: String,
)
    requires
        is_equivalence(same),
        files.no_duplicates(),
        files.contains(x),
        files.contains(y),
        x != y,
        same(x, y),
    ensures
        exists|s: int|
            0 <= s < greedy(files, same).len() && greedy(files, same)[s].contains(x) && greedy(
                files,
                same,
            )[s].contains(y),
    decreases files.len(),
{
    let first = files[0];
    let rest = files.drop_first();
    let p = |z: String| same(first, z);
    let np = |z: String| !same(first, z);
    let joined = seq![first] + rest.filter(p);
    let left = rest.filter(np);
    let emitted = if joined.len() >= 2 {
        seq![joined]
    } else {
        Seq::<Seq<String>>::empty()
    };
    assert(greedy(files, same) == emitted + greedy(left, same));
    assert(rest.no_duplicates()) by {
        assert forall|i: int, j: int| 0 <= i < rest.len() && 0 <= j < rest.len() && i != j implies rest[i]
            != rest[j] by {
            assert(rest[i] == files[i + 1] && rest[j] == files[j + 1]);
        }
    }
    if x != first {
        let i = choose|i: int| 0 <= i < files.len() && files[i] == x;
        assert(rest[i - 1] == x);
    }
    if y != first {
        let i = choose|i: int| 0 <= i < files.len() && files[i] == y;
        assert(rest[i - 1] == y);
    }
    lemma_filter_has(rest, p, x);
    lemma_filter_has(rest, p, y);
    lemma_filter_has(rest, np, x);
    lemma_filter_has(rest, np, y);
    assert(same(y, x));
    if same(first, x) || same(first, y) {
        // Both join the first file's set.
        assert(same(first, x) && same(first, y));
        assert(joined.contains(x)) by {
            if x == first {
                assert(joined[0] == x);
            } else {
                let i = choose|i: int| 0 <= i < rest.filter(p).len() && rest.filter(p)[i] == x;
                assert(joined[i + 1] == x);
            }
        }
        assert(joined.contains(y)) by {
            if y == first {
                assert(joined[0] == y);
            } else {
                let i = choose|i: int| 0 <= i < rest.filter(p).len() && rest.filter(p)[i] == y;
                assert(joined[i + 1] == y);
            }
        }
        assert(joined.len() >= 2) by {
            let i = choose|i: int| 0 <= i < joined.len() && joined[i] == x;
            let j = choose|j: int| 0 <= j < joined.len() && joined[j] == y;
            assert(i != j);
        }
        assert(greedy(files, same)[0] == joined);
    } else {
        assert(x != first && y != first) by {
            assert(same(first, first));
        }
        lemma_filter_distinct(rest, np);
        lemma_greedy_complete(left, same, x, y);
        let s = choose|s: int|
            0 <= s < greedy(left, same).len() && greedy(left, same)[s].contains(x) && greedy(
                left,
                same,
            )[s].contains(y);
        assert(greedy(files, same)[s + emitted.len()] == greedy(left, same)[s]);
    }
}

/// No set comparing distinct files makes holds a file twice.
proof fn lemma_greedy_set_distinct(files: Seq<String>, same: spec_fn(String, String) -> bool, s: int)
    requires
        files.no_duplicates(),
        0 <= s < greedy(files, same).len(),
    ensures
        greedy(files, same)[s].no_duplicates(),
    decreases files.len(),
{
    let first = files[0];
    let rest = files.drop_first();
    let p = |y: String| same(first, y);
    let np = |y: String| !same(first, y);
    let joined = seq![first] + rest.filter(p);
    let left = rest.filter(np);
    let emitted = if joined.len() >= 2 {
        seq![joined]
    } else {
        Seq::<Seq<String>>::empty()
    };
    assert(greedy(files, same) == emitted + greedy(left, same));
    assert(rest.no_duplicates()) by {
        assert forall|a: int, b: int| 0 <= a < rest.len() && 0 <= b < rest.len() && a != b implies rest[a]
            != rest[b] by {
            assert(rest[a] == files[a + 1] && rest[b] == files[b + 1]);
        }
    }
    if s < emitted.len() {
        lemma_filter_distinct(rest, p);
        lemma_filter_has(rest, p, first);
        assert(!rest.contains(first)) by {
            if rest.contains(first) {
                let a = choose|a: int| 0 <= a < rest.len() && rest[a] == first;
                assert(files[a + 1] == files[0]);
            }
        }
        let f = rest.filter(p);
        assert forall|a: int, b: int| 0 <= a < joined.len() && 0 <= b < joined.len() && a != b implies joined[a]
            != joined[b] by {
            if a == 0 {
                assert(joined[b] == f[b - 1]);
                assert(f.contains(f[b - 1]));
            } else if b == 0 {
                assert(joined[a] == f[a - 1]);
                assert(f.contains(f[a - 1]));
            } else {
                assert(joined[a] == f[a - 1] && joined[b] == f[b - 1]);
            }
        }
        assert(greedy(files, same)[s] == joined);
    } else {
        rest.lemma_filter_len(np);
        lemma_filter_distinct(rest, np);
        lemma_greedy_set_distinct(left, same, s - emitted.len());
        assert(greedy(files, same)[s] == greedy(left, same)[s - emitted.len()]);
    }
}

/// The sets comparing makes do not depend on the order of the files: when
/// `same` is an equivalence, every set made of `files` is, as a set of
/// files, one made of any reordering `other` of them (at the place
/// returned).
pub proof fn lemma_greedy_order_free(
    files: Seq<String>,
    other: Seq<String>,
    same: spec_fn(String, String) -> bool,
    s: int,
) -> (t: int)
    requires
        is_equivalence(same),
        files.no_duplicates(),
        other.no_duplicates(),
        forall|x: String| files.contains(x) == other.contains(x),
        0 <= s < greedy(files, same).len(),
    ensures
        0 <= t < greedy(other, same).len(),
        greedy(files, same)[s].to_set() == greedy(other, same)[t].to_set(),
{
    let set = greedy(files, same)[s];
    lemma_greedy_sets_are_classes(files, same, s, files[0]);
    lemma_greedy_set_distinct(files, same, s);
    let x = set[0];
    let y = set[1];
    assert(set.contains(x) && set.contains(y));
    lemma_greedy_from(files, same, s, x);
    lemma_greedy_from(files, same, s, y);
    lemma_greedy_sets_are_classes(files, same, s, y);
    lemma_greedy_complete(other, same, x, y);
    let t = choose|t: int|
        0 <= t < greedy(other, same).len() && greedy(other, same)[t].contains(x) && greedy(
            other,
            same,
        )[t].contains(y);
    let set2 = greedy(other, same)[t];
    lemma_greedy_sets_are_classes(other, same, t, x);
    assert forall|z: String| set.to_set().contains(z) == set2.to_set().contains(z) by {
        if set.contains(z) {
            lemma_greedy_from(files, same, s, z);
            lemma_greedy_sets_are_classes(files, same, s, z);
            lemma_greedy_sets_are_classes(other, same, t, z);
            assert(same(x, z));
            assert(same(set2[0], x));
        }
        if set2.contains(z) {
            lemma_greedy_from(other, same, t, z);
            lemma_greedy_sets_are_classes(other, same, t, z);
            lemma_greedy_sets_are_classes(files, same, s, z);
            assert(same(set2[0], x));
            assert(same(x, set2[0]));
        }
    }
    assert(set.to_set() =~= set2.to_set());
    t
}

} // verus!
