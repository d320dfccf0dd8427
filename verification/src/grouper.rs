//! Finding duplicate files: grouping by size, by quick hash, and by
//! comparison of contents.

use vstd::prelude::*;
use crate::grouping::{
    group_by_key,
    group_views,
    grouping,
    keep_shared,
    keys_in_order,
    lemma_member_from,
    lemma_member_listed,
    lemma_shared_at_least_two,
    lemma_shared_from,
    lemma_shared_keeps,
    lemma_two_members,
    members,
    shared,
    KeyGroup,
};

verus! {

/// A file found by the scan: its path and its size in bytes.
#[derive(Debug, Clone)]
pub struct FileInfo {
    pub path: String,
    pub size: u64,
}

/// Each file as the pair of its size and its path.
pub open spec fn size_entries(fs: Seq<FileInfo>) -> Seq<(u64, String)> {
    fs.map_values(|f: FileInfo| (f.size, f.path))
}

/// The pairs of hash and path for the paths whose hash is known, in order.
pub open spec fn hash_entries(paths: Seq<String>, hashes: Seq<Option<u64>>) -> Seq<
    (u64, String),
>
    decreases paths.len(),
{
    if paths.len() == 0 {
        Seq::empty()
    } else {
        let rest = hash_entries(paths.drop_last(), hashes.take(paths.len() - 1));
        match hashes[paths.len() - 1] {
            Some(h) => rest.push((h, paths.last())),
            None => rest,
        }
    }
}

/// The files of `fs` at least `min_size` bytes long, in order.
pub open spec fn at_least(fs: Seq<FileInfo>, min_size: u64) -> Seq<FileInfo>
    decreases fs.len(),
{
    if fs.len() == 0 {
        Seq::empty()
    } else {
        let rest = at_least(fs.drop_last(), min_size);
        if fs.last().size >= min_size {
            rest.push(fs.last())
        } else {
            rest
        }
    }
}

/// A copy of `f`.
pub fn copy_file_info(f: &FileInfo) -> (r: FileInfo)
    ensures
        r == *f,
{
    FileInfo { path: f.path.clone(), size: f.size }
}

/// The files of `files` at least `min_size` bytes long, in order.
pub fn filter_min_size(files: &Vec<FileInfo>, min_size: u64) -> (r: Vec<FileInfo>)
    ensures
        r@ == at_least(files@, min_size),
{
    let mut kept: Vec<FileInfo> = Vec::new();
    let n = files.len();
    for i in 0..n
        invariant
            n == files@.len(),
            kept@ == at_least(files@.take(i as int), min_size),
    {
        proof {
            assert(files@.take(i + 1).drop_last() =~= files@.take(i as int));
        }
        if files[i].size >= min_size {
            kept.push(copy_file_info(&files[i]));
        }
    }
    proof {
        assert(files@.take(n as int) =~= files@);
    }
    kept
}

/// All files grouped by size: one group per distinct size, in the order of
/// first appearance, each holding the paths of that size in order.
pub fn group_by_size(files: &Vec<FileInfo>) -> (r: Vec<KeyGroup>)
    ensures
        group_views(r@) == grouping(size_entries(files@)),
{
    let mut entries: Vec<(u64, String)> = Vec::new();
    let n = files.len();
    for i in 0..n
        invariant
            n == files@.len(),
            entries@ == size_entries(files@.take(i as int)),
    {
        entries.push((files[i].size, files[i].path.clone()));
        proof {
            assert(entries@ =~= size_entries(files@.take(i + 1)));
        }
    }
    proof {
        assert(files@.take(n as int) =~= files@);
    }
    group_by_key(entries)
}

/// The paths grouped by quick hash: paths whose hash is unknown are left
/// out; the others form one group per distinct hash, in the order of first
/// appearance, each holding the paths with that hash in order.
pub fn group_by_hash(paths: &Vec<String>, hashes: &Vec<Option<u64>>) -> (r: Vec<KeyGroup>)
    requires
        paths@.len() == hashes@.len(),
    ensures
        group_views(r@) == grouping(hash_entries(paths@, hashes@)),
{
    let mut entries: Vec<(u64, String)> = Vec::new();
    let n = paths.len();
    for i in 0..n
        invariant
            n == paths@.len(),
            n == hashes@.len(),
            entries@ == hash_entries(paths@.take(i as int), hashes@.take(i as int)),
    {
        proof {
            assert(paths@.take(i + 1).drop_last() =~= paths@.take(i as int));
            assert(hashes@.take(i + 1).take(i as int) =~= hashes@.take(i as int));
            assert(hashes@.take(i + 1)[i as int] == hashes@[i as int]);
        }
        match hashes[i] {
            Some(h) => {
                entries.push((h, paths[i].clone()));
            },
            None => {},
        }
    }
    proof {
        assert(paths@.take(n as int) =~= paths@);
        assert(hashes@.take(n as int) =~= hashes@);
    }
    group_by_key(entries)
}

/// A set of files with identical contents, all of `size` bytes.
#[derive(Debug)]
pub struct DuplicateSet {
    pub files: Vec<String>,
    pub size: u64,
}

impl View for DuplicateSet {
    type V = (u64, Seq<String>);

    open spec fn view(&self) -> (u64, Seq<String>) {
        (self.size, self.files@)
    }
}

/// The views of a sequence of duplicate sets.
pub open spec fn set_views(ss: Seq<DuplicateSet>) -> Seq<(u64, Seq<String>)> {
    ss.map_values(|s: DuplicateSet| s@)
}

/// The space a set wastes: its size times the number of redundant copies.
pub open spec fn wasted(s: (u64, Seq<String>)) -> int {
    s.0 * (s.1.len() - 1)
}

/// `r` is `s` sorted by wasted space, largest first, where sets that waste
/// the same space keep their order: `p` maps each place of `r` to the place
/// of `s` it comes from.
pub open spec fn stable_sort_by_wasted(
    s: Seq<(u64, Seq<String>)>,
    r: Seq<(u64, Seq<String>)>,
    p: Seq<int>,
) -> bool {
    &&& r.len() == s.len()
    &&& p.len() == s.len()
    &&& p.no_duplicates()
    &&& forall|i: int| 0 <= i < p.len() ==> 0 <= #[trigger] p[i] < s.len()
    &&& forall|i: int| 0 <= i < r.len() ==> #[trigger] r[i] == s[p[i]]
    &&& forall|i: int, j: int| 0 <= i < j < r.len() ==> wasted(r[i]) >= wasted(r[j])
    &&& forall|i: int, j: int|
        0 <= i < j < r.len() && wasted(r[i]) == wasted(r[j]) ==> p[i] < p[j]
}

/// The space `s` wastes, computed exactly.
pub fn wasted_bytes(s: &DuplicateSet) -> (w: u128)
    requires
        s.files@.len() >= 1,
    ensures
        w == wasted(s@),
{
    let n = (s.files.len() - 1) as u128;
    let size = s.size as u128;
    proof {
        assert(size * n <= 0xffff_ffff_ffff_ffff * 0xffff_ffff_ffff_ffff) by (nonlinear_arith)
            requires
                size <= 0xffff_ffff_ffff_ffff,
                n <= 0xffff_ffff_ffff_ffff,
        ;
    }
    size * n
}

/// Sorts `sets` by wasted space, largest first; sets that waste the same
/// space keep their order.
pub fn sort_by_wasted(sets: Vec<DuplicateSet>) -> (r: Vec<DuplicateSet>)
    requires
        forall|i: int| 0 <= i < sets@.len() ==> #[trigger] sets@[i].files@.len() >= 1,
    ensures
        exists|p: Seq<int>| stable_sort_by_wasted(set_views(sets@), set_views(r@), p),
{
    let ghost s = set_views(sets@);
    let n = sets.len();
    let mut rest = sets;
    let mut out: Vec<DuplicateSet> = Vec::new();
    let ghost mut p: Seq<int> = Seq::empty();
    let mut i: usize = 0;
    while i < n
        invariant
            i <= n,
            n == s.len(),
            set_views(rest@) == s.skip(i as int),
            forall|k: int| 0 <= k < rest@.len() ==> #[trigger] rest@[k].files@.len() >= 1,
            forall|k: int| 0 <= k < out@.len() ==> #[trigger] out@[k].files@.len() >= 1,
            out@.len() == i,
            p.len() == i,
            p.no_duplicates(),
            forall|k: int| 0 <= k < p.len() ==> 0 <= #[trigger] p[k] < i,
            forall|k: int| 0 <= k < out@.len() ==> #[trigger] set_views(out@)[k] == s[p[k]],
            forall|a: int, b: int|
                0 <= a < b < out@.len() ==> wasted(set_views(out@)[a]) >= wasted(
                    set_views(out@)[b],
                ),
            forall|a: int, b: int|
                0 <= a < b < out@.len() && wasted(set_views(out@)[a]) == wasted(
                    set_views(out@)[b],
                ) ==> p[a] < p[b],
        decreases n - i,
    {
        let ghost rest_before = rest@;
        assert(set_views(rest@).len() == rest@.len());
        let x = rest.remove(0);
        proof {
            assert(set_views(rest_before)[0] == rest_before[0]@);
            assert(s.skip(i as int)[0] == s[i as int]);
            assert forall|k: int| 0 <= k < rest@.len() implies #[trigger] set_views(rest@)[k]
                == s.skip(i + 1)[k] by {
                assert(rest@[k] == rest_before[k + 1]);
                assert(set_views(rest_before)[k + 1] == rest_before[k + 1]@);
                assert(s.skip(i as int)[k + 1] == s.skip(i + 1)[k]);
            }
            assert(set_views(rest@) =~= s.skip(i + 1));
            assert forall|k: int| 0 <= k < rest@.len() implies #[trigger] rest@[k].files@.len()
                >= 1 by {
                assert(rest@[k] == rest_before[k + 1]);
            }
        }
        let wx = wasted_bytes(&x);
        let mut j: usize = 0;
        while j < out.len() && wasted_bytes(&out[j]) >= wx
            invariant
                j <= out@.len(),
                forall|k: int| 0 <= k < out@.len() ==> #[trigger] out@[k].files@.len() >= 1,
                forall|k: int| 0 <= k < j ==> wasted(#[trigger] set_views(out@)[k]) >= wx,
            decreases out@.len() - j,
        {
            proof {
                assert(set_views(out@)[j as int] == out@[j as int]@);
            }
            j = j + 1;
        }
        let ghost old_out = set_views(out@);
        let ghost old_vec = out@;
        proof {
            if j < out@.len() {
                assert(old_out[j as int] == out@[j as int]@);
            }
        }
        out.insert(j, x);
        proof {
            let new_out = set_views(out@);
            assert(new_out =~= old_out.insert(j as int, x@));
            let q = p.insert(j as int, i as int);
            assert forall|k: int| 0 <= k < q.len() implies 0 <= #[trigger] q[k] < i + 1 by {
                if k > j {
                    assert(q[k] == p[k - 1]);
                } else if k < j {
                    assert(q[k] == p[k]);
                }
            }
            assert(q.no_duplicates()) by {
                assert forall|a: int, b: int| 0 <= a < q.len() && 0 <= b < q.len() && a != b implies q[a]
                    != q[b] by {
                    if a != j && b != j {
                        let pa = if a < j { a } else { a - 1 };
                        let pb = if b < j { b } else { b - 1 };
                        assert(q[a] == p[pa]);
                        assert(q[b] == p[pb]);
                    } else if a == j {
                        let pb = if b < j { b } else { b - 1 };
                        assert(q[b] == p[pb]);
                    } else {
                        let pa = if a < j { a } else { a - 1 };
                        assert(q[a] == p[pa]);
                    }
                }
            }
            assert forall|k: int| 0 <= k < out@.len() implies #[trigger] set_views(out@)[k]
                == s[q[k]] by {
                if k > j {
                    assert(q[k] == p[k - 1]);
                    assert(new_out[k] == old_out[k - 1]);
                } else if k < j {
                    assert(q[k] == p[k]);
                    assert(new_out[k] == old_out[k]);
                }
            }
            assert forall|a: int, b: int| 0 <= a < b < out@.len() implies wasted(new_out[a])
                >= wasted(new_out[b]) && (wasted(new_out[a]) == wasted(new_out[b]) ==> q[a] < q[b])
                by {
                if a < j && b < j {
                    assert(new_out[a] == old_out[a] && new_out[b] == old_out[b]);
                    assert(q[a] == p[a] && q[b] == p[b]);
                } else if a < j && b == j {
                    assert(new_out[a] == old_out[a]);
                    assert(q[a] == p[a]);
                } else if a < j && b > j {
                    assert(new_out[a] == old_out[a] && new_out[b] == old_out[b - 1]);
                    assert(q[a] == p[a] && q[b] == p[b - 1]);
                } else if a == j {
                    assert(new_out[b] == old_out[b - 1]);
                    assert(wasted(old_out[j as int]) < wasted(x@));
                    assert(q[b] == p[b - 1]);
                } else {
                    assert(new_out[a] == old_out[a - 1] && new_out[b] == old_out[b - 1]);
                    assert(q[a] == p[a - 1] && q[b] == p[b - 1]);
                }
            }
            assert forall|k: int| 0 <= k < out@.len() implies #[trigger] out@[k].files@.len()
                >= 1 by {
                if k > j {
                    assert(out@[k] == old_vec[k - 1]);
                } else if k < j {
                    assert(out@[k] == old_vec[k]);
                }
            }
            p = q;
        }
        i = i + 1;
    }
    proof {
        assert(stable_sort_by_wasted(s, set_views(out@), p));
    }
    out
}

/// `gs` with every key replaced by `k`.
pub open spec fn with_key(gs: Seq<(u64, Seq<String>)>, k: u64) -> Seq<(u64, Seq<String>)> {
    gs.map_values(|g: (u64, Seq<String>)| (k, g.1))
}

/// Stage 1 of the search: the files at least `min_size` bytes long, grouped
/// by size, keeping only the sizes that two or more of them share.
pub open spec fn size_candidates(files: Seq<FileInfo>, min_size: u64) -> Seq<(u64, Seq<String>)> {
    shared(grouping(size_entries(at_least(files, min_size))))
}

/// Stage 2 for one size group: its paths grouped by quick hash, keeping only
/// the hashes that two or more of them share, each group keyed by the size.
pub open spec fn hash_candidates(
    group: (u64, Seq<String>),
    hashes: Seq<Option<u64>>,
) -> Seq<(u64, Seq<String>)> {
    with_key(shared(grouping(hash_entries(group.1, hashes))), group.0)
}

/// What a search asks for next.
#[derive(Debug)]
pub enum Request {
    /// The quick hash of this file; `None` if it cannot be read.
    Hash(String),
    /// Whether these two files have identical contents; `None` if they
    /// cannot be compared.
    Compare(String, String),
    /// Nothing: the search is over.
    Done,
}

/// A search for duplicate files in progress. It decides which files to hash
/// and which to compare; the caller reads the files and hands back what it
/// found.
///
/// Stage 1 groups the files by size. Stage 2 asks for the quick hash of every
/// file in a group of equal size and splits each group by hash. Stage 3 takes
/// each group of equal hash in turn: its first file is compared with each
/// other one, the identical ones join it, and the rest start over with the
/// next first file.
pub struct DuplicateSearch {
    /// The groups of two or more files that share a size.
    pub size_groups: Vec<KeyGroup>,
    /// How many size groups have been hashed.
    pub hashed: usize,
    /// The hashes of the files of the size group being hashed, so far.
    pub hashes: Vec<Option<u64>>,
    /// The groups of two or more files that share a size and a hash, keyed
    /// by size.
    pub hash_groups: Vec<KeyGroup>,
    /// How many hash groups have been taken up for comparison.
    pub verified: usize,
    /// The size of the files of the hash group being compared.
    pub size: u64,
    /// The files found identical to the first of them; empty when no
    /// comparison is pending.
    pub group: Vec<String>,
    /// The files of the hash group not placed yet.
    pub remaining: Vec<String>,
    /// The place in `remaining` of the next file to compare with `group[0]`.
    pub cursor: usize,
    /// The sets of duplicates found so far.
    pub sets: Vec<DuplicateSet>,
    /// The pairs of files reported identical.
    pub confirmed: Ghost<Set<(String, String)>>,
}

impl DuplicateSearch {
    /// Hashes are still wanted.
    pub open spec fn hashing(&self) -> bool {
        self.hashed < self.size_groups@.len()
    }

    /// A comparison is wanted.
    pub open spec fn comparing(&self) -> bool {
        !self.hashing() && self.group@.len() > 0
    }

    /// The search is over.
    pub open spec fn finished(&self) -> bool {
        !self.hashing() && self.group@.len() == 0
    }

    /// `group` and the sets found hold only pairs reported identical to
    /// their first file.
    pub open spec fn sound(&self) -> bool {
        &&& forall|j: int|
            1 <= j < self.group@.len() ==> self.confirmed@.contains(
                (self.group@[0], #[trigger] self.group@[j]),
            )
        &&& forall|k: int, j: int|
            0 <= k < self.sets@.len() && 1 <= j < self.sets@[k].files@.len()
                ==> self.confirmed@.contains(
                (self.sets@[k].files@[0], #[trigger] self.sets@[k].files@[j]),
            )
    }

    /// The search's state is consistent.
    pub open spec fn wf(&self) -> bool {
        &&& self.hashed <= self.size_groups@.len()
        &&& self.cursor <= self.remaining@.len()
        &&& forall|k: int|
            0 <= k < self.size_groups@.len() ==> #[trigger] self.size_groups@[k].paths@.len()
                >= 2
        &&& forall|k: int|
            0 <= k < self.hash_groups@.len() ==> #[trigger] self.hash_groups@[k].paths@.len()
                >= 2
        &&& forall|k: int| 0 <= k < self.sets@.len() ==> #[trigger] self.sets@[k].files@.len() >= 2
        &&& if self.hashing() {
            &&& self.hashes@.len() < self.size_groups@[self.hashed as int].paths@.len()
            &&& self.verified == 0
            &&& self.group@.len() == 0
            &&& self.remaining@.len() == 0
            &&& self.sets@.len() == 0
        } else {
            &&& self.hashes@.len() == 0
            &&& self.verified <= self.hash_groups@.len()
            &&& self.group@.len() > 0 ==> self.cursor < self.remaining@.len() && self.verified >= 1
            &&& self.group@.len() == 0 ==> self.verified == self.hash_groups@.len()
                && self.remaining@.len() == 0
        }
        &&& self.sound()
    }

    /// `new` has taken up the hash group after the first `verified` ones of
    /// `hgs`, or has nothing left to compare when there is none.
    pub open spec fn takes_up_next(
        hgs: Seq<(u64, Seq<String>)>,
        verified: int,
        size: u64,
        new: &DuplicateSearch,
    ) -> bool {
        if verified < hgs.len() {
            &&& new.verified == verified + 1
            &&& new.size == hgs[verified].0
            &&& new.group@ == seq![hgs[verified].1[0]]
            &&& new.remaining@ == hgs[verified].1.drop_first()
            &&& new.cursor == 0
        } else {
            &&& new.verified == verified
            &&& new.size == size
            &&& new.group@.len() == 0
            &&& new.remaining@.len() == 0
            &&& new.cursor == 0
        }
    }

    /// What an answer `same` to the pending comparison does to the search:
    /// a file reported identical joins the group and leaves `remaining`,
    /// any other answer moves on to the next file. Once every remaining
    /// file has been compared, a group of two or more becomes a set; then
    /// the first remaining file starts a new group if another is left to
    /// compare it with, else the next hash group is taken up.
    pub open spec fn compared(old: &DuplicateSearch, same: Option<bool>, new: &DuplicateSearch) -> bool {
        let first = old.group@[0];
        let candidate = old.remaining@[old.cursor as int];
        let joined = same == Some(true);
        let group = if joined {
            old.group@.push(candidate)
        } else {
            old.group@
        };
        let remaining = if joined {
            old.remaining@.remove(old.cursor as int)
        } else {
            old.remaining@
        };
        let cursor = if joined {
            old.cursor as int
        } else {
            old.cursor + 1
        };
        let sets = if group.len() >= 2 {
            set_views(old.sets@).push((old.size, group))
        } else {
            set_views(old.sets@)
        };
        &&& new.size_groups == old.size_groups
        &&& new.hashed == old.hashed
        &&& new.hashes == old.hashes
        &&& new.hash_groups == old.hash_groups
        &&& new.confirmed@ == if joined {
            old.confirmed@.insert((first, candidate))
        } else {
            old.confirmed@
        }
        &&& if cursor < remaining.len() {
            &&& new.group@ == group
            &&& new.remaining@ == remaining
            &&& new.cursor == cursor
            &&& new.verified == old.verified
            &&& new.size == old.size
            &&& new.sets == old.sets
        } else {
            &&& set_views(new.sets@) == sets
            &&& if remaining.len() >= 2 {
                &&& new.group@ == seq![remaining[0]]
                &&& new.remaining@ == remaining.drop_first()
                &&& new.cursor == 0
                &&& new.verified == old.verified
                &&& new.size == old.size
            } else {
                DuplicateSearch::takes_up_next(
                    group_views(old.hash_groups@),
                    old.verified as int,
                    old.size,
                    new,
                )
            }
        }
    }

    /// What the hash `h` of the next file does to the search: it is
    /// recorded; once the whole size group is hashed, its groups of equal
    /// hash are added to the hash groups, and once every size group is
    /// hashed, the first hash group is taken up for comparison.
    pub open spec fn hashed_one(old: &DuplicateSearch, h: Option<u64>, new: &DuplicateSearch) -> bool {
        let group = group_views(old.size_groups@)[old.hashed as int];
        let hashes = old.hashes@.push(h);
        &&& new.size_groups == old.size_groups
        &&& new.sets == old.sets
        &&& new.confirmed == old.confirmed
        &&& if hashes.len() < group.1.len() {
            &&& new.hashes@ == hashes
            &&& new.hashed == old.hashed
            &&& new.hash_groups == old.hash_groups
            &&& new.verified == old.verified
            &&& new.size == old.size
            &&& new.group == old.group
            &&& new.remaining == old.remaining
            &&& new.cursor == old.cursor
        } else {
            &&& new.hashed == old.hashed + 1
            &&& new.hashes@.len() == 0
            &&& group_views(new.hash_groups@) == group_views(old.hash_groups@) + hash_candidates(
                group,
                hashes,
            )
            &&& if new.hashed < new.size_groups@.len() {
                &&& new.verified == old.verified
                &&& new.size == old.size
                &&& new.group == old.group
                &&& new.remaining == old.remaining
                &&& new.cursor == old.cursor
            } else {
                DuplicateSearch::takes_up_next(group_views(new.hash_groups@), 0, old.size, new)
            }
        }
    }
}

/// The number of paths in the groups.
pub open spec fn path_count(gs: Seq<(u64, Seq<String>)>) -> nat
    decreases gs.len(),
{
    if gs.len() == 0 {
        0
    } else {
        gs[0].1.len() + path_count(gs.drop_first())
    }
}

/// The sum of the squares of the numbers of paths in the groups.
pub open spec fn square_count(gs: Seq<(u64, Seq<String>)>) -> nat
    decreases gs.len(),
{
    if gs.len() == 0 {
        0
    } else {
        gs[0].1.len() * gs[0].1.len() + square_count(gs.drop_first())
    }
}

impl DuplicateSearch {
    /// The hashes still wanted.
    pub open spec fn hash_work(&self) -> int {
        path_count(group_views(self.size_groups@).skip(self.hashed as int)) - self.hashes@.len()
    }

    /// A bound on the comparisons still wanted once hashing is over: the
    /// square of the size of each hash group not taken up yet, plus what is
    /// left of the group under comparison.
    pub open spec fn compare_work(&self) -> int {
        square_count(group_views(self.hash_groups@).skip(self.verified as int)) + (
        self.remaining@.len() * self.remaining@.len()) + (self.remaining@.len() - self.cursor)
    }
}

/// The search always ends. While hashes are wanted, `hash_work` is
/// positive, and each hash answered lowers it (`answer_hash`); once hashing
/// is over it is zero, `compare_work` is never negative and is positive
/// while a comparison is wanted, and each comparison answered lowers it
/// without changing `hash_work` (`answer_compare`).
pub proof fn lemma_search_ends(s: &DuplicateSearch)
    requires
        s.wf(),
    ensures
        s.hashing() ==> s.hash_work() > 0,
        !s.hashing() ==> s.hash_work() == 0,
        s.compare_work() >= 0,
        s.comparing() ==> s.compare_work() > 0,
{
    let sg = group_views(s.size_groups@);
    if s.hashing() {
        assert(sg.skip(s.hashed as int)[0] == sg[s.hashed as int]);
        assert(sg[s.hashed as int] == s.size_groups@[s.hashed as int]@);
    } else {
        assert(sg.skip(s.hashed as int).len() == 0);
    }
    let r = s.remaining@.len() as int;
    assert(r * r >= 0) by (nonlinear_arith);
}

/// A copy of `paths`.
fn copy_paths(paths: &Vec<String>) -> (r: Vec<String>)
    ensures
        r@ == paths@,
{
    let mut r: Vec<String> = Vec::new();
    for i in 0..paths.len()
        invariant
            r@ == paths@.take(i as int),
    {
        r.push(paths[i].clone());
        proof {
            assert(r@ =~= paths@.take(i + 1));
        }
    }
    proof {
        assert(paths@.take(paths@.len() as int) =~= paths@);
    }
    r
}

/// Starts a search for duplicates among `files`, skipping those smaller than
/// `min_size` bytes: groups the others by size and keeps the sizes that two
/// or more files share (stage 1).
pub fn find_duplicates(files: &Vec<FileInfo>, min_size: u64) -> (r: DuplicateSearch)
    ensures
        r.wf(),
        group_views(r.size_groups@) == size_candidates(files@, min_size),
        r.hashed == 0,
        r.hashes@.len() == 0,
        r.hash_groups@.len() == 0,
        r.sets@.len() == 0,
        r.confirmed@ == Set::<(String, String)>::empty(),
        r.size_groups@.len() == 0 ==> r.finished(),
{
    let candidates = filter_min_size(files, min_size);
    let size_groups = keep_shared(group_by_size(&candidates));
    proof {
        lemma_shared_at_least_two(grouping(size_entries(candidates@)));
        assert forall|k: int| 0 <= k < size_groups@.len() implies #[trigger] size_groups@[k].paths@.len()
            >= 2 by {
            assert(group_views(size_groups@)[k] == size_groups@[k]@);
        }
    }
    DuplicateSearch {
        size_groups,
        hashed: 0,
        hashes: Vec::new(),
        hash_groups: Vec::new(),
        verified: 0,
        size: 0,
        group: Vec::new(),
        remaining: Vec::new(),
        cursor: 0,
        sets: Vec::new(),
        confirmed: Ghost(Set::empty()),
    }
}

/// Appends the groups of `found` to `target`, each keyed by `key`.
fn append_with_key(target: &mut Vec<KeyGroup>, found: Vec<KeyGroup>, key: u64)
    ensures
        group_views(final(target)@) == group_views(old(target)@) + with_key(
            group_views(found@),
            key,
        ),
{
    let ghost start = group_views(target@);
    let ghost all = group_views(found@);
    let n = found.len();
    let mut rest = found;
    let mut i: usize = 0;
    while i < n
        invariant
            n == all.len(),
            i <= all.len(),
            group_views(rest@) == all.skip(i as int),
            group_views(target@) == start + with_key(all.take(i as int), key),
        decreases rest@.len(),
    {
        assert(group_views(rest@).len() == rest@.len());
        let ghost before = rest@;
        let g = rest.remove(0);
        proof {
            assert(group_views(before)[0] == g@);
            assert forall|k: int| 0 <= k < rest@.len() implies #[trigger] group_views(rest@)[k]
                == all.skip(i + 1)[k] by {
                assert(rest@[k] == before[k + 1]);
                assert(group_views(before)[k + 1] == before[k + 1]@);
            }
            assert(group_views(rest@) =~= all.skip(i + 1));
        }
        let ghost t = group_views(target@);
        target.push(KeyGroup { key, paths: g.paths });
        proof {
            assert(all.take(i + 1) =~= all.take(i as int).push(all[i as int]));
            assert(with_key(all.take(i + 1), key) =~= with_key(all.take(i as int), key).push(
                (key, all[i as int].1),
            ));
            assert(group_views(target@) =~= t.push((key, g.paths@)));
        }
        i = i + 1;
    }
    proof {
        assert(all.take(i as int) =~= all);
    }
}

impl DuplicateSearch {
    /// Takes up the next hash group for comparison, if any is left.
    fn take_up_next(&mut self)
        requires
            old(self).verified <= old(self).hash_groups@.len(),
            forall|k: int|
                0 <= k < old(self).hash_groups@.len() ==> #[trigger] old(
                    self,
                ).hash_groups@[k].paths@.len() >= 2,
        ensures
            DuplicateSearch::takes_up_next(
                group_views(old(self).hash_groups@),
                old(self).verified as int,
                old(self).size,
                final(self),
            ),
            final(self).size_groups == old(self).size_groups,
            final(self).hashed == old(self).hashed,
            final(self).hashes == old(self).hashes,
            final(self).hash_groups == old(self).hash_groups,
            final(self).sets == old(self).sets,
            final(self).confirmed == old(self).confirmed,
            final(self).cursor <= final(self).remaining@.len(),
            final(self).compare_work() <= square_count(
                group_views(old(self).hash_groups@).skip(old(self).verified as int),
            ),
    {
        let v = self.verified;
        if v < self.hash_groups.len() {
            let mut paths = copy_paths(&self.hash_groups[v].paths);
            let first = paths.remove(0);
            let mut group: Vec<String> = Vec::new();
            group.push(first);
            self.size = self.hash_groups[v].key;
            self.group = group;
            self.remaining = paths;
            self.cursor = 0;
            self.verified = v + 1;
            proof {
                let hg = group_views(self.hash_groups@);
                assert(hg[v as int] == self.hash_groups@[v as int]@);
                assert(self.group@ =~= seq![hg[v as int].1[0]]);
                assert(hg.skip(v as int).drop_first() =~= hg.skip(v + 1));
                assert(hg.skip(v as int)[0] == hg[v as int]);
                let l = hg[v as int].1.len();
                assert((l - 1) * (l - 1) + (l - 1) <= l * l) by (nonlinear_arith)
                    requires
                        l >= 1,
                ;
            }
        } else {
            self.group = Vec::new();
            self.remaining = Vec::new();
            self.cursor = 0;
        }
    }

    /// What the search asks for next.
    pub fn request(&self) -> (r: Request)
        requires
            self.wf(),
        ensures
            self.hashing() ==> r == Request::Hash(
                self.size_groups@[self.hashed as int].paths@[self.hashes@.len() as int],
            ),
            self.comparing() ==> r == Request::Compare(
                self.group@[0],
                self.remaining@[self.cursor as int],
            ),
            self.finished() ==> r == Request::Done,
    {
        if self.hashed < self.size_groups.len() {
            Request::Hash(self.size_groups[self.hashed].paths[self.hashes.len()].clone())
        } else if self.group.len() > 0 {
            Request::Compare(self.group[0].clone(), self.remaining[self.cursor].clone())
        } else {
            Request::Done
        }
    }

    /// Hands the search the quick hash of the file it asked for (`None` if
    /// the file could not be read).
    pub fn answer_hash(&mut self, h: Option<u64>)
        requires
            old(self).wf(),
            old(self).hashing(),
        ensures
            final(self).wf(),
            DuplicateSearch::hashed_one(old(self), h, final(self)),
            final(self).hash_work() < old(self).hash_work(),
    {
        self.hashes.push(h);
        let k = self.hashed;
        let groups = self.size_groups.len();
        proof {
            assert(group_views(self.size_groups@)[k as int] == self.size_groups@[k as int]@);
        }
        if self.hashes.len() == self.size_groups[k].paths.len() {
            let found = keep_shared(group_by_hash(&self.size_groups[k].paths, &self.hashes));
            let key = self.size_groups[k].key;
            let ghost hg = group_views(self.hash_groups@);
            let ghost fv = group_views(found@);
            proof {
                lemma_shared_at_least_two(
                    grouping(hash_entries(self.size_groups@[k as int].paths@, self.hashes@)),
                );
            }
            append_with_key(&mut self.hash_groups, found, key);
            proof {
                let added = with_key(fv, key);
                assert(group_views(self.hash_groups@) == hg + added);
                assert(group_views(self.hash_groups@).len() == self.hash_groups@.len());
                assert(added.len() == fv.len());
                assert forall|m: int| 0 <= m < self.hash_groups@.len() implies #[trigger] self.hash_groups@[m].paths@.len()
                    >= 2 by {
                    assert(group_views(self.hash_groups@)[m] == self.hash_groups@[m]@);
                    if m >= hg.len() {
                        assert(added[m - hg.len()] == group_views(self.hash_groups@)[m]);
                        assert(added[m - hg.len()].1 == fv[m - hg.len()].1);
                    } else {
                        assert(hg[m] == old(self).hash_groups@[m]@);
                    }
                }
            }
            proof {
                let sg = group_views(self.size_groups@);
                assert(sg.skip(k as int).drop_first() =~= sg.skip(k + 1));
                assert(sg.skip(k as int)[0] == sg[k as int]);
            }
            self.hashes = Vec::new();
            self.hashed = k + 1;
            if self.hashed == groups {
                self.take_up_next();
            }
        }
    }

    /// Hands the search the outcome of the comparison it asked for:
    /// `Some(true)` if the files are identical, `Some(false)` if not, `None`
    /// if they could not be compared.
    pub fn answer_compare(&mut self, same: Option<bool>)
        requires
            old(self).wf(),
            old(self).comparing(),
        ensures
            final(self).wf(),
            DuplicateSearch::compared(old(self), same, final(self)),
            final(self).hash_work() == old(self).hash_work(),
            final(self).compare_work() < old(self).compare_work(),
    {
        let ghost untaken = square_count(group_views(self.hash_groups@).skip(self.verified as int));
        let n = self.remaining.len();
        let identical = match same {
            Some(b) => b,
            None => false,
        };
        if identical {
            let candidate = self.remaining.remove(self.cursor);
            self.confirmed = Ghost(self.confirmed@.insert((self.group@[0], candidate)));
            self.group.push(candidate);
            proof {
                let r = n as int;
                let c = self.cursor as int;
                assert((r - 1) * (r - 1) + (r - 1 - c) < r * r + (r - c)) by (nonlinear_arith)
                    requires
                        r >= 1,
                ;
            }
        } else {
            self.cursor = self.cursor + 1;
        }
        let ghost settled = self.compare_work();
        if self.cursor == self.remaining.len() {
            let ghost sets_before = set_views(self.sets@);
            if self.group.len() >= 2 {
                let mut files: Vec<String> = Vec::new();
                std::mem::swap(&mut files, &mut self.group);
                self.sets.push(DuplicateSet { files, size: self.size });
                proof {
                    assert(set_views(self.sets@) =~= sets_before.push((self.size, files@)));
                }
            }
            if self.remaining.len() >= 2 {
                proof {
                    let r = self.remaining@.len() as int;
                    assert((r - 1) * (r - 1) + (r - 1) <= r * r) by (nonlinear_arith)
                        requires
                            r >= 1,
                    ;
                }
                let first = self.remaining.remove(0);
                let mut group: Vec<String> = Vec::new();
                group.push(first);
                self.group = group;
                self.cursor = 0;
            } else {
                proof {
                    let r = self.remaining@.len() as int;
                    assert(r * r >= 0) by (nonlinear_arith);
                    assert(untaken <= settled);
                }
                self.group = Vec::new();
                self.remaining = Vec::new();
                self.take_up_next();
            }
        }
    }

    /// The sets of duplicates found, sorted by wasted space, largest first;
    /// sets that waste the same space keep the order in which they were
    /// found.
    pub fn finish(self) -> (r: Vec<DuplicateSet>)
        requires
            self.wf(),
            self.finished(),
        ensures
            exists|p: Seq<int>| stable_sort_by_wasted(set_views(self.sets@), set_views(r@), p),
            forall|k: int| 0 <= k < r@.len() ==> #[trigger] r@[k].files@.len() >= 2,
            forall|k: int, j: int|
                0 <= k < r@.len() && 1 <= j < r@[k].files@.len() ==> self.confirmed@.contains(
                    (r@[k].files@[0], #[trigger] r@[k].files@[j]),
                ),
    {
        let ghost sets = self.sets@;
        let ghost confirmed = self.confirmed@;
        proof {
            assert forall|k: int| 0 <= k < sets.len() implies #[trigger] sets[k].files@.len()
                >= 1 by {}
        }
        let r = sort_by_wasted(self.sets);
        proof {
            let p = choose|p: Seq<int>| stable_sort_by_wasted(set_views(sets), set_views(r@), p);
            assert forall|k: int| 0 <= k < r@.len() implies #[trigger] r@[k].files@.len() >= 2
                && forall|j: int|
                1 <= j < r@[k].files@.len() ==> confirmed.contains(
                    (r@[k].files@[0], #[trigger] r@[k].files@[j]),
                ) by {
                assert(set_views(r@)[k] == r@[k]@);
                assert(set_views(r@)[k] == set_views(sets)[p[k]]);
                assert(set_views(sets)[p[k]] == sets[p[k]]@);
            }
        }
        r
    }
}

/// The number of files of `fs[..i]` that are at least `min_size` bytes long:
/// where a file of `fs[i..]` that long lands in `at_least(fs, min_size)`.
pub open spec fn kept_before(fs: Seq<FileInfo>, min_size: u64, i: int) -> nat {
    at_least(fs.take(i), min_size).len()
}

/// `at_least` keeps exactly the files at least `min_size` bytes long, in
/// order: each of them lands at its place `kept_before`, and nothing else
/// is kept.
pub proof fn lemma_at_least(fs: Seq<FileInfo>, min_size: u64)
    ensures
        forall|k: int|
            0 <= k < at_least(fs, min_size).len() ==> (#[trigger] at_least(fs, min_size)[k]).size
                >= min_size,
        forall|i: int|
            0 <= i < fs.len() && fs[i].size >= min_size ==> kept_before(fs, min_size, i)
                < at_least(fs, min_size).len() && #[trigger] at_least(fs, min_size)[kept_before(
                fs,
                min_size,
                i,
            ) as int] == fs[i],
        forall|i: int, j: int|
            0 <= i < j < fs.len() && fs[i].size >= min_size ==> kept_before(fs, min_size, i)
                < kept_before(fs, min_size, j),
    decreases fs.len(),
{
    if fs.len() > 0 {
        let d = fs.drop_last();
        lemma_at_least(d, min_size);
        let a = at_least(fs, min_size);
        let ad = at_least(d, min_size);
        assert(fs.take(d.len() as int) =~= d);
        assert(kept_before(fs, min_size, d.len() as int) == ad.len());
        assert forall|i: int| 0 <= i < d.len() implies kept_before(fs, min_size, i) == kept_before(
            d,
            min_size,
            i,
        ) by {
            assert(fs.take(i) =~= d.take(i));
        }
        assert forall|k: int| 0 <= k < a.len() implies (#[trigger] a[k]).size >= min_size by {
            if k < ad.len() {
                assert(a[k] == ad[k]);
            }
        }
        assert forall|i: int| 0 <= i < fs.len() && fs[i].size >= min_size implies kept_before(
            fs,
            min_size,
            i,
        ) < a.len() && #[trigger] a[kept_before(fs, min_size, i) as int] == fs[i] by {
            if i < d.len() {
                assert(d[i] == fs[i]);
                let kb = kept_before(d, min_size, i) as int;
                assert(kept_before(fs, min_size, i) == kb);
                assert(ad[kb] == fs[i]);
                assert(a[kb] == ad[kb]);
            } else {
                assert(a == ad.push(fs.last()));
            }
        }
        assert forall|i: int, j: int|
            0 <= i < j < fs.len() && fs[i].size >= min_size implies kept_before(fs, min_size, i)
                < kept_before(fs, min_size, j) by {
            assert(d[i] == fs[i]);
            assert(kept_before(fs, min_size, i) == kept_before(d, min_size, i));
            if j < d.len() {
                assert(kept_before(fs, min_size, j) == kept_before(d, min_size, j));
            } else {
                assert(ad[kept_before(d, min_size, i) as int] == d[i]);
            }
        }
    }
}

/// Stage 1 keeps only files that may have duplicates: every group of
/// candidates holds two or more paths, each the path of a file of the
/// group's size, at least `min_size` bytes long.
pub proof fn lemma_size_candidate_sound(
    files: Seq<FileInfo>,
    min_size: u64,
    g: (u64, Seq<String>),
    m: int,
)
    requires
        size_candidates(files, min_size).contains(g),
        0 <= m < g.1.len(),
    ensures
        g.1.len() >= 2,
        exists|i: int|
            0 <= i < files.len() && files[i].path == g.1[m] && files[i].size == g.0
                && files[i].size >= min_size,
{
    let c = at_least(files, min_size);
    let es = size_entries(c);
    lemma_at_least(files, min_size);
    lemma_shared_keeps(grouping(es), g);
    let q = choose|q: int| 0 <= q < grouping(es).len() && grouping(es)[q] == g;
    assert(g.1 == members(es, g.0));
    lemma_member_from(es, g.0, m);
    let e = choose|e: int| 0 <= e < es.len() && es[e] == (g.0, #[trigger] members(es, g.0)[m]);
    assert(es[e] == (c[e].size, c[e].path));
    assert(c[e].size >= min_size);
    lemma_at_least_from(files, min_size, e);
    let i = choose|i: int| 0 <= i < files.len() && files[i] == c[e];
    assert(files[i].path == g.1[m]);
}

/// Stage 1 misses no file that may have duplicates: a file at least
/// `min_size` bytes long whose size another such file shares is in the
/// group of candidates of its size.
pub proof fn lemma_size_candidate_complete(files: Seq<FileInfo>, min_size: u64, i: int, j: int)
    requires
        0 <= i < files.len(),
        0 <= j < files.len(),
        i != j,
        files[i].size == files[j].size,
        files[i].size >= min_size,
    ensures
        exists|g: (u64, Seq<String>)|
            size_candidates(files, min_size).contains(g) && g.0 == files[i].size && g.1.contains(
                files[i].path,
            ),
{
    let c = at_least(files, min_size);
    let es = size_entries(c);
    lemma_at_least(files, min_size);
    let a = kept_before(files, min_size, i) as int;
    let b = kept_before(files, min_size, j) as int;
    lemma_kept_at(files, min_size, i);
    lemma_kept_at(files, min_size, j);
    assert(c[a] == files[i]);
    assert(c[b] == files[j]);
    assert(es[a] == (files[i].size, files[i].path));
    assert(es[b] == (files[j].size, files[j].path));
    let k = files[i].size;
    if a < b {
        lemma_two_members(es, a, b);
    } else {
        assert(kept_before(files, min_size, j) < kept_before(files, min_size, i));
        lemma_two_members(es, b, a);
    }
    lemma_member_listed(es, a);
    let ks = keys_in_order(es);
    let q = choose|q: int| 0 <= q < ks.len() && ks[q] == k;
    let g = (k, members(es, k));
    assert(grouping(es)[q] == g);
    assert(grouping(es).contains(g));
    assert(members(es, es[a].0).len() >= 2);
    assert(g.1.len() >= 2);
    lemma_shared_keeps(grouping(es), g);
    assert(size_candidates(files, min_size).contains(g));
    assert(g.1.contains(files[i].path));
}

proof fn lemma_kept_at(fs: Seq<FileInfo>, min_size: u64, i: int)
    requires
        0 <= i < fs.len(),
        fs[i].size >= min_size,
    ensures
        kept_before(fs, min_size, i) < at_least(fs, min_size).len(),
        at_least(fs, min_size)[kept_before(fs, min_size, i) as int] == fs[i],
{
    lemma_at_least(fs, min_size);
}

/// Every file `at_least` keeps is one of the files.
proof fn lemma_at_least_from(fs: Seq<FileInfo>, min_size: u64, e: int)
    requires
        0 <= e < at_least(fs, min_size).len(),
    ensures
        exists|i: int| 0 <= i < fs.len() && fs[i] == at_least(fs, min_size)[e],
    decreases fs.len(),
{
    let d = fs.drop_last();
    if e < at_least(d, min_size).len() {
        lemma_at_least_from(d, min_size, e);
        let i = choose|i: int| 0 <= i < d.len() && d[i] == at_least(d, min_size)[e];
        assert(fs[i] == d[i]);
    } else {
        assert(fs[fs.len() - 1] == at_least(fs, min_size)[e]);
    }
}

/// Every pair of hash and path comes from a path whose hash is known.
proof fn lemma_hash_entry_from(paths: Seq<String>, hashes: Seq<Option<u64>>, e: int)
    requires
        paths.len() == hashes.len(),
        0 <= e < hash_entries(paths, hashes).len(),
    ensures
        exists|i: int|
            0 <= i < paths.len() && hashes[i] == Some(hash_entries(paths, hashes)[e].0)
                && paths[i] == hash_entries(paths, hashes)[e].1,
    decreases paths.len(),
{
    let n = paths.len();
    let dp = paths.drop_last();
    let dh = hashes.take(n - 1);
    if e < hash_entries(dp, dh).len() {
        lemma_hash_entry_from(dp, dh, e);
        let i = choose|i: int|
            0 <= i < dp.len() && dh[i] == Some(hash_entries(dp, dh)[e].0) && dp[i]
                == hash_entries(dp, dh)[e].1;
        assert(hashes[i] == dh[i] && paths[i] == dp[i]);
        assert(hash_entries(paths, hashes)[e] == hash_entries(dp, dh)[e]);
    } else {
        assert(hash_entries(paths, hashes)[e] == (hashes[n - 1]->0, paths[n - 1]));
    }
}

/// The place in `hash_entries(paths, hashes)` of the path at `i`: the number
/// of known hashes before it.
pub open spec fn hashed_before(paths: Seq<String>, hashes: Seq<Option<u64>>, i: int) -> nat {
    hash_entries(paths.take(i), hashes.take(i)).len()
}

proof fn lemma_hash_entry_at(paths: Seq<String>, hashes: Seq<Option<u64>>, i: int)
    requires
        paths.len() == hashes.len(),
        0 <= i < paths.len(),
        hashes[i] is Some,
    ensures
        hashed_before(paths, hashes, i) < hash_entries(paths, hashes).len(),
        hash_entries(paths, hashes)[hashed_before(paths, hashes, i) as int] == (
            hashes[i]->0,
            paths[i],
        ),
        forall|j: int|
            i < j < paths.len() ==> hashed_before(paths, hashes, i) < hashed_before(
                paths,
                hashes,
                j,
            ),
    decreases paths.len(),
{
    let n = paths.len();
    let dp = paths.drop_last();
    let dh = hashes.take(n - 1);
    assert(paths.take(n - 1) =~= dp);
    assert(hashes.take(n - 1) =~= dh);
    assert(hashed_before(paths, hashes, n - 1) == hash_entries(dp, dh).len());
    if i < n - 1 {
        lemma_hash_entry_at(dp, dh, i);
        assert(dp.take(i) =~= paths.take(i));
        assert(dh.take(i) =~= hashes.take(i));
        assert(hashed_before(paths, hashes, i) == hashed_before(dp, dh, i));
        assert(dh[i] == hashes[i] && dp[i] == paths[i]);
        let hb = hashed_before(dp, dh, i) as int;
        assert(hash_entries(paths, hashes)[hb] == hash_entries(dp, dh)[hb]);
        assert forall|j: int| i < j < paths.len() implies hashed_before(paths, hashes, i)
            < hashed_before(paths, hashes, j) by {
            if j < n - 1 {
                assert(dp.take(j) =~= paths.take(j));
                assert(dh.take(j) =~= hashes.take(j));
                assert(hashed_before(paths, hashes, j) == hashed_before(dp, dh, j));
            } else {
                assert(hashed_before(dp, dh, i) < hash_entries(dp, dh).len());
            }
        }
    }
}

/// The known hash of the path at `e` of `hash_entries(paths, hashes)` is its
/// key, and the path is at the place returned.
proof fn lemma_hash_member(paths: Seq<String>, hashes: Seq<Option<u64>>, k: u64, m: int) -> (i: int)
    requires
        paths.len() == hashes.len(),
        0 <= m < members(hash_entries(paths, hashes), k).len(),
    ensures
        0 <= i < paths.len(),
        hashes[i] == Some(k),
        paths[i] == members(hash_entries(paths, hashes), k)[m],
{
    let es = hash_entries(paths, hashes);
    lemma_member_from(es, k, m);
    let e = choose|e: int| 0 <= e < es.len() && es[e] == (k, #[trigger] members(es, k)[m]);
    lemma_hash_entry_from(paths, hashes, e);
    choose|i: int| 0 <= i < paths.len() && hashes[i] == Some(es[e].0) && paths[i] == es[e].1
}

/// Stage 2 keeps only files that may have duplicates: every group it finds
/// in a size group is keyed by the size and holds two or more paths of the
/// size group; any two of its paths, at `m1` and `m2`, are the paths at the
/// places returned, whose hashes are known and equal.
pub proof fn lemma_hash_candidate_sound(
    group: (u64, Seq<String>),
    hashes: Seq<Option<u64>>,
    g: (u64, Seq<String>),
    m1: int,
    m2: int,
) -> (places: (int, int))
    requires
        group.1.len() == hashes.len(),
        hash_candidates(group, hashes).contains(g),
        0 <= m1 < g.1.len(),
        0 <= m2 < g.1.len(),
    ensures
        g.0 == group.0,
        g.1.len() >= 2,
        0 <= places.0 < hashes.len(),
        0 <= places.1 < hashes.len(),
        group.1[places.0] == g.1[m1],
        group.1[places.1] == g.1[m2],
        hashes[places.0] is Some,
        hashes[places.0] == hashes[places.1],
{
    let es = hash_entries(group.1, hashes);
    let sg = shared(grouping(es));
    let q = choose|q: int| 0 <= q < hash_candidates(group, hashes).len() && hash_candidates(
        group,
        hashes,
    )[q] == g;
    assert(g == (group.0, sg[q].1));
    lemma_shared_from(grouping(es));
    let r = choose|r: int| 0 <= r < grouping(es).len() && sg[q] == grouping(es)[r];
    let key = keys_in_order(es)[r];
    assert(sg[q] == (key, members(es, key)));
    lemma_shared_at_least_two(grouping(es));
    assert(g.1 == members(es, key));
    let i1 = lemma_hash_member(group.1, hashes, key, m1);
    let i2 = lemma_hash_member(group.1, hashes, key, m2);
    (i1, i2)
}

/// Stage 2 misses no file that may have duplicates: two paths of a size
/// group with the same known hash are in one group it finds.
pub proof fn lemma_hash_candidate_complete(
    group: (u64, Seq<String>),
    hashes: Seq<Option<u64>>,
    i: int,
    j: int,
)
    requires
        group.1.len() == hashes.len(),
        0 <= i < j < hashes.len(),
        hashes[i] is Some,
        hashes[i] == hashes[j],
    ensures
        exists|g: (u64, Seq<String>)|
            hash_candidates(group, hashes).contains(g) && g.1.contains(group.1[i]) && g.1.contains(
                group.1[j],
            ),
{
    let es = hash_entries(group.1, hashes);
    lemma_hash_entry_at(group.1, hashes, i);
    lemma_hash_entry_at(group.1, hashes, j);
    let a = hashed_before(group.1, hashes, i) as int;
    let b = hashed_before(group.1, hashes, j) as int;
    let h = hashes[i]->0;
    lemma_two_members(es, a, b);
    lemma_member_listed(es, a);
    lemma_member_listed(es, b);
    let ks = keys_in_order(es);
    let q = choose|q: int| 0 <= q < ks.len() && ks[q] == h;
    let gh = (h, members(es, h));
    assert(grouping(es)[q] == gh);
    assert(grouping(es).contains(gh));
    lemma_shared_keeps(grouping(es), gh);
    let sg = shared(grouping(es));
    let p = choose|p: int| 0 <= p < sg.len() && sg[p] == gh;
    let g = (group.0, members(es, h));
    assert(hash_candidates(group, hashes)[p] == g);
    assert(hash_candidates(group, hashes).contains(g));
}

proof fn lemma_at_least_zero(fs: Seq<FileInfo>)
    ensures
        at_least(fs, 0) == fs,
    decreases fs.len(),
{
    if fs.len() > 0 {
        lemma_at_least_zero(fs.drop_last());
        assert(fs.drop_last().push(fs.last()) =~= fs);
    }
}

/// A minimum size only filters: searching `files` with the minimum
/// `min_size` starts exactly as searching, with no minimum, the files at
/// least that long. (So no smaller file is ever in a set:
/// `lemma_size_candidate_sound`.)
pub proof fn lemma_min_size_filters(files: Seq<FileInfo>, min_size: u64)
    ensures
        size_candidates(files, min_size) == size_candidates(at_least(files, min_size), 0),
{
    lemma_at_least_zero(at_least(files, min_size));
}

/// Stage 2 feeds stage 3 with every size group, whatever its size: when the
/// last file of a size group is hashed, any two of its files whose hashes
/// are known and equal are both in one new hash group, keyed by the group's
/// size and placed after the hash groups already found, so that the search
/// takes it up for comparison.
pub proof fn lemma_hashing_feeds_comparison(
    old: &DuplicateSearch,
    h: Option<u64>,
    new: &DuplicateSearch,
    i: int,
    j: int,
)
    requires
        old.wf(),
        old.hashing(),
        DuplicateSearch::hashed_one(old, h, new),
        old.hashes@.len() + 1 == old.size_groups@[old.hashed as int].paths@.len(),
        0 <= i < j <= old.hashes@.len(),
        old.hashes@.push(h)[i] is Some,
        old.hashes@.push(h)[i] == old.hashes@.push(h)[j],
    ensures
        new.hashed == old.hashed + 1,
        exists|m: int|
            #![trigger new.hash_groups@[m]]
            old.hash_groups@.len() <= m < new.hash_groups@.len()
                && new.hash_groups@[m].key == old.size_groups@[old.hashed as int].key
                && new.hash_groups@[m].paths@.contains(
                old.size_groups@[old.hashed as int].paths@[i],
            ) && new.hash_groups@[m].paths@.contains(old.size_groups@[old.hashed as int].paths@[j]),
{
    let k = old.hashed as int;
    let group = group_views(old.size_groups@)[k];
    assert(group == old.size_groups@[k]@);
    let hashes = old.hashes@.push(h);
    lemma_hash_candidate_complete(group, hashes, i, j);
    let hc = hash_candidates(group, hashes);
    let g = choose|g: (u64, Seq<String>)|
        hc.contains(g) && g.1.contains(group.1[i]) && g.1.contains(group.1[j]);
    let p = choose|p: int| 0 <= p < hc.len() && hc[p] == g;
    let hg = group_views(old.hash_groups@);
    let m = hg.len() + p;
    assert(group_views(new.hash_groups@) == hg + hc);
    assert(group_views(new.hash_groups@)[m] == g);
    assert(group_views(new.hash_groups@)[m] == new.hash_groups@[m]@);
    assert(g.0 == group.0) by {
        lemma_hash_candidate_sound(group, hashes, g, 0, 0);
    }
    assert(hg.len() == old.hash_groups@.len());
    assert(group_views(new.hash_groups@).len() == new.hash_groups@.len());
}

} // verus!
