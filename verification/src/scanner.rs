//! Scanning a directory tree: which entries to visit and which files to
//! keep. The caller reads the file system; the walk decides.

use vstd::prelude::*;
use crate::glob::{glob_match, glob_spec};
use crate::grouper::FileInfo;

verus! {

/// The texts of a sequence of strings.
pub open spec fn string_views(ss: Seq<String>) -> Seq<Seq<char>> {
    ss.map_values(|s: String| s@)
}

/// The junk files skipped unless asked for: `Thumbs.db`, `.DS_Store`,
/// `desktop.ini`, `~$*`, `*.tmp` and `*.lnk`.
pub open spec fn junk_patterns() -> Seq<Seq<char>> {
    seq!["Thumbs.db"@, ".DS_Store"@, "desktop.ini"@, "~$*"@, "*.tmp"@, "*.lnk"@]
}

/// The built-in patterns of junk files.
pub fn default_excludes() -> (r: Vec<String>)
    ensures
        string_views(r@) == junk_patterns(),
{
    let mut r: Vec<String> = Vec::new();
    r.push(String::from_str("Thumbs.db"));
    r.push(String::from_str(".DS_Store"));
    r.push(String::from_str("desktop.ini"));
    r.push(String::from_str("~$*"));
    r.push(String::from_str("*.tmp"));
    r.push(String::from_str("*.lnk"));
    proof {
        assert(string_views(r@) =~= junk_patterns());
    }
    r
}

/// The patterns in force: the user's, then the junk patterns unless
/// `include_junk`.
pub fn active_excludes(user_excludes: &Vec<String>, include_junk: bool) -> (r: Vec<String>)
    ensures
        string_views(r@) == string_views(user_excludes@) + if include_junk {
            Seq::<Seq<char>>::empty()
        } else {
            junk_patterns()
        },
{
    let mut r: Vec<String> = Vec::new();
    for i in 0..user_excludes.len()
        invariant
            r@ == user_excludes@.take(i as int),
    {
        r.push(user_excludes[i].clone());
        proof {
            assert(r@ =~= user_excludes@.take(i + 1));
        }
    }
    proof {
        assert(user_excludes@.take(user_excludes@.len() as int) =~= user_excludes@);
    }
    if !include_junk {
        let ghost before = string_views(r@);
        let mut junk = default_excludes();
        r.append(&mut junk);
        proof {
            assert(string_views(r@) =~= before + junk_patterns());
        }
    } else {
        proof {
            assert(string_views(r@) =~= string_views(user_excludes@) + Seq::<Seq<char>>::empty());
        }
    }
    r
}

/// Whether the file name `name` matches one of `patterns`.
pub open spec fn excluded_by(name: Seq<char>, patterns: Seq<String>) -> bool {
    exists|k: int|
        0 <= k < patterns.len() && glob_spec(#[trigger] patterns[k]@, name)
}

/// Whether the file name `name` matches one of `patterns`.
pub fn is_excluded(name: &str, patterns: &Vec<String>) -> (r: bool)
    ensures
        r == excluded_by(name@, patterns@),
{
    let n = patterns.len();
    for k in 0..n
        invariant
            n == patterns@.len(),
            forall|j: int|
                0 <= j < k ==> !glob_spec(
                    #[trigger] patterns@[j]@,
                    name@,
                ),
    {
        if glob_match(patterns[k].as_str(), name) {
            return true;
        }
    }
    false
}

/// What the file system says about a path the walk visits.
#[derive(Debug)]
pub enum Entry {
    /// The path does not exist or its metadata cannot be read.
    Unreadable,
    /// A regular file: its name (`None` when the name is not valid UTF-8)
    /// and its size in bytes.
    File { name: Option<String>, size: u64 },
    /// A directory and the paths of its entries, in the order the directory
    /// lists them (entries that cannot be read are left out); `None` when
    /// the directory cannot be listed.
    Directory { children: Option<Vec<String>> },
    /// A symbolic link, which the walk does not follow.
    Link,
    /// Anything else: a device, a socket, a pipe.
    Special,
}

/// The paths a directory entry adds to the walk's stack: its children in
/// reverse, so that they are visited in order.
pub open spec fn pushed(entry: Entry) -> Seq<String> {
    match entry {
        Entry::Directory { children: Some(cs) } => cs@.reverse(),
        _ => Seq::empty(),
    }
}

/// A walk through a directory tree, depth first, in the order in which the
/// directories list their entries, listing the regular files whose names
/// match none of its exclude patterns.
pub struct DirWalk {
    /// The patterns of the file names to skip.
    pub excludes: Vec<String>,
    /// The paths still to visit; the last one is next.
    pub pending: Vec<String>,
    /// The files listed so far.
    pub files: Vec<FileInfo>,
}

/// Starts a walk of the tree at `root` that skips the files whose names
/// match one of `user_excludes` or, unless `include_junk`, one of the junk
/// patterns.
pub fn walk_directory(root: String, user_excludes: &Vec<String>, include_junk: bool) -> (r: DirWalk)
    ensures
        string_views(r.excludes@) == string_views(user_excludes@) + if include_junk {
            Seq::<Seq<char>>::empty()
        } else {
            junk_patterns()
        },
        r.pending@ == seq![root],
        r.files@.len() == 0,
{
    let excludes = active_excludes(user_excludes, include_junk);
    let mut pending: Vec<String> = Vec::new();
    pending.push(root);
    proof {
        assert(pending@ =~= seq![root]);
    }
    DirWalk { excludes, pending, files: Vec::new() }
}

/// Pushes `cs` onto `stack` last first.
fn push_reversed(stack: &mut Vec<String>, cs: Vec<String>)
    ensures
        final(stack)@ == old(stack)@ + cs@.reverse(),
{
    let ghost start = stack@;
    let ghost all = cs@;
    let mut rest = cs;
    while rest.len() > 0
        invariant
            rest@ == all.take(rest@.len() as int),
            rest@.len() <= all.len(),
            stack@ == start + all.skip(rest@.len() as int).reverse(),
        decreases rest@.len(),
    {
        let ghost before = rest@;
        let c = rest.pop().unwrap();
        stack.push(c);
        proof {
            assert(rest@ =~= all.take(rest@.len() as int));
            assert(all.skip(rest@.len() as int).reverse() =~= all.skip(before.len() as int).reverse().push(c));
        }
    }
    proof {
        assert(all.skip(0) =~= all);
    }
}

impl DirWalk {
    /// What visiting the next path, with what the file system says of it,
    /// does to the walk: the path leaves the stack, a readable directory's
    /// entries come on top, and a regular file is listed unless its name
    /// matches an exclude pattern.
    pub open spec fn visited(old: &DirWalk, entry: Entry, new: &DirWalk) -> bool {
        &&& new.excludes == old.excludes
        &&& new.pending@ == old.pending@.drop_last() + pushed(entry)
        &&& new.files@ == match entry {
            Entry::File { name, size } => if name matches Some(n) && excluded_by(
                n@,
                old.excludes@,
            ) {
                old.files@
            } else {
                old.files@.push(FileInfo { path: old.pending@.last(), size })
            },
            _ => old.files@,
        }
    }

    /// The path to visit next, if any is left.
    pub fn next_path(&self) -> (r: Option<String>)
        ensures
            r == if self.pending@.len() > 0 {
                Some(self.pending@.last())
            } else {
                None::<String>
            },
    {
        let n = self.pending.len();
        if n > 0 {
            Some(self.pending[n - 1].clone())
        } else {
            None
        }
    }

    /// Takes in what the file system says about the path visited (the one
    /// `next_path` gave): a regular file is listed unless its name matches
    /// an exclude pattern, a readable directory's entries are visited next,
    /// and anything else is passed over.
    pub fn visit(&mut self, entry: Entry)
        requires
            old(self).pending@.len() > 0,
        ensures
            DirWalk::visited(old(self), entry, final(self)),
    {
        let path = self.pending.pop().unwrap();
        proof {
            assert(self.pending@ == old(self).pending@.drop_last());
        }
        match entry {
            Entry::File { name, size } => {
                let skip = match &name {
                    Some(n) => is_excluded(n.as_str(), &self.excludes),
                    None => false,
                };
                if !skip {
                    self.files.push(FileInfo { path, size });
                }
                proof {
                    assert(self.pending@ =~= old(self).pending@.drop_last() + Seq::<String>::empty());
                }
            },
            Entry::Directory { children: Some(cs) } => {
                push_reversed(&mut self.pending, cs);
            },
            _ => {
                proof {
                    assert(self.pending@ =~= old(self).pending@.drop_last() + Seq::<String>::empty());
                }
            },
        }
    }

    /// The files listed, in the order visited.
    pub fn into_files(self) -> (r: Vec<FileInfo>)
        ensures
            r@ == self.files@,
    {
        self.files
    }
}

/// A walk through a directory tree, depth first, in the order in which the
/// directories list their entries, listing the name and path of every
/// regular file.
pub struct NameWalk {
    /// The paths still to visit; the last one is next.
    pub pending: Vec<String>,
    /// The names and paths of the files listed so far.
    pub entries: Vec<(String, String)>,
}

/// Starts a walk of the tree at `root` that lists every regular file by name.
pub fn walk_directory_names(root: String) -> (r: NameWalk)
    ensures
        r.pending@ == seq![root],
        r.entries@.len() == 0,
{
    let mut pending: Vec<String> = Vec::new();
    pending.push(root);
    proof {
        assert(pending@ =~= seq![root]);
    }
    NameWalk { pending, entries: Vec::new() }
}

impl NameWalk {
    /// The path to visit next, if any is left.
    pub fn next_path(&self) -> (r: Option<String>)
        ensures
            r == if self.pending@.len() > 0 {
                Some(self.pending@.last())
            } else {
                None::<String>
            },
    {
        let n = self.pending.len();
        if n > 0 {
            Some(self.pending[n - 1].clone())
        } else {
            None
        }
    }

    /// Takes in what the file system says about the path visited: a regular
    /// file with a name is listed by that name, a readable directory's
    /// entries are visited next, and anything else is passed over.
    pub fn visit(&mut self, entry: Entry)
        requires
            old(self).pending@.len() > 0,
        ensures
            final(self).pending@ == old(self).pending@.drop_last() + pushed(entry),
            final(self).entries@ == match entry {
                Entry::File { name: Some(n), size: _ } => old(self).entries@.push(
                    (n, old(self).pending@.last()),
                ),
                _ => old(self).entries@,
            },
    {
        let path = self.pending.pop().unwrap();
        match entry {
            Entry::File { name: Some(n), size: _ } => {
                self.entries.push((n, path));
                proof {
                    assert(self.pending@ =~= old(self).pending@.drop_last() + Seq::<String>::empty());
                }
            },
            Entry::Directory { children: Some(cs) } => {
                push_reversed(&mut self.pending, cs);
            },
            _ => {
                proof {
                    assert(self.pending@ =~= old(self).pending@.drop_last() + Seq::<String>::empty());
                }
            },
        }
    }

    /// The names and paths listed, in the order visited.
    pub fn into_entries(self) -> (r: Vec<(String, String)>)
        ensures
            r@ == self.entries@,
    {
        self.entries
    }
}

/// Whether the name `name` matches one of the patterns `patterns`.
pub open spec fn matches_any(name: Seq<char>, patterns: Seq<Seq<char>>) -> bool {
    exists|k: int| 0 <= k < patterns.len() && glob_spec(#[trigger] patterns[k], name)
}

proof fn lemma_excluded_by_texts(name: Seq<char>, patterns: Seq<String>)
    ensures
        excluded_by(name, patterns) == matches_any(name, string_views(patterns)),
{
    let ps = string_views(patterns);
    if excluded_by(name, patterns) {
        let k = choose|k: int| 0 <= k < patterns.len() && glob_spec(#[trigger] patterns[k]@, name);
        assert(ps[k] == patterns[k]@);
    }
    if matches_any(name, ps) {
        let k = choose|k: int| 0 <= k < ps.len() && glob_spec(#[trigger] ps[k], name);
        assert(ps[k] == patterns[k]@);
    }
}

proof fn lemma_matches_any_add(name: Seq<char>, a: Seq<Seq<char>>, b: Seq<Seq<char>>)
    ensures
        matches_any(name, a + b) == (matches_any(name, a) || matches_any(name, b)),
{
    let ab = a + b;
    if matches_any(name, ab) {
        let k = choose|k: int| 0 <= k < ab.len() && glob_spec(#[trigger] ab[k], name);
        if k < a.len() {
            assert(ab[k] == a[k]);
        } else {
            assert(ab[k] == b[k - a.len()]);
        }
    }
    if matches_any(name, a) {
        let k = choose|k: int| 0 <= k < a.len() && glob_spec(#[trigger] a[k], name);
        assert(ab[k] == a[k]);
    }
    if matches_any(name, b) {
        let k = choose|k: int| 0 <= k < b.len() && glob_spec(#[trigger] b[k], name);
        assert(ab[k + a.len()] == b[k]);
    }
}

/// Walking without junk files goes in step with walking with them: fed the
/// same entry, both walks go on to the same paths, and the walk without
/// junk lists a file exactly when the walk with junk lists it and its name
/// matches no junk pattern. So, fed the same file system, the files it
/// lists are those of the walk with junk, less the junk.
pub proof fn lemma_junk_in_step(
    with_junk: &DirWalk,
    without_junk: &DirWalk,
    entry: Entry,
    with_next: &DirWalk,
    without_next: &DirWalk,
)
    requires
        string_views(without_junk.excludes@) == string_views(with_junk.excludes@)
            + junk_patterns(),
        with_junk.pending@ == without_junk.pending@,
        DirWalk::visited(with_junk, entry, with_next),
        DirWalk::visited(without_junk, entry, without_next),
    ensures
        with_next.pending@ == without_next.pending@,
        string_views(without_next.excludes@) == string_views(with_next.excludes@)
            + junk_patterns(),
        without_next.files@.len() == without_junk.files@.len() + 1 <==> with_next.files@.len()
            == with_junk.files@.len() + 1 && !(entry matches Entry::File { name: Some(n), .. }
            && matches_any(n@, junk_patterns())),
        without_next.files@.len() == without_junk.files@.len() + 1 ==> without_next.files@.last()
            == with_next.files@.last(),
{
    match entry {
        Entry::File { name: Some(n), size: _ } => {
            lemma_excluded_by_texts(n@, with_junk.excludes@);
            lemma_excluded_by_texts(n@, without_junk.excludes@);
            lemma_matches_any_add(n@, string_views(with_junk.excludes@), junk_patterns());
        },
        _ => {},
    }
}

/// A walk lists a regular file exactly when its name matches none of its
/// exclude patterns: visiting a file adds it, with the path visited and its
/// size, to the files listed when no pattern matches its name (so always
/// when there are no patterns, or when its name is not valid UTF-8), and
/// leaves the files listed as they were otherwise.
pub proof fn lemma_walk_lists_unexcluded(
    old: &DirWalk,
    name: Option<String>,
    size: u64,
    new: &DirWalk,
)
    requires
        DirWalk::visited(old, Entry::File { name, size }, new),
    ensures
        new.files@ == old.files@.push(FileInfo { path: old.pending@.last(), size }) || new.files@
            == old.files@,
        new.files@ == old.files@.push(FileInfo { path: old.pending@.last(), size }) <==> !(
        name matches Some(n) && matches_any(n@, string_views(old.excludes@))),
        old.excludes@.len() == 0 ==> new.files@ == old.files@.push(
            FileInfo { path: old.pending@.last(), size },
        ),
        name is None ==> new.files@ == old.files@.push(
            FileInfo { path: old.pending@.last(), size },
        ),
        new.pending@ == old.pending@.drop_last(),
{
    if let Some(n) = name {
        lemma_excluded_by_texts(n@, old.excludes@);
    }
    assert(old.files@.push(FileInfo { path: old.pending@.last(), size }).len() != old.files@.len());
    assert(pushed(Entry::File { name, size }) =~= Seq::<String>::empty());
    assert(old.pending@.drop_last() + Seq::<String>::empty() =~= old.pending@.drop_last());
}

/// Only regular files are listed, and a directory's entries are visited
/// next, in the order the directory lists them: after a readable directory
/// with entries `cs`, the next path is `cs[0]`, and the paths after it are
/// the rest of `cs` in order, then what was pending before. A link, a
/// special file, an unreadable path or a directory that cannot be listed
/// is passed over and lists nothing.
pub proof fn lemma_walk_visits_children_in_order(old: &DirWalk, entry: Entry, new: &DirWalk)
    requires
        old.pending@.len() > 0,
        DirWalk::visited(old, entry, new),
        !(entry is File),
    ensures
        new.files@ == old.files@,
        new.excludes == old.excludes,
        entry matches Entry::Directory { children: Some(cs) } ==> forall|k: int|
            0 <= k < cs@.len() ==> #[trigger] new.pending@[new.pending@.len() - 1 - k] == cs@[k],
        entry matches Entry::Directory { children: Some(cs) } ==> new.pending@.len()
            == old.pending@.len() - 1 + cs@.len(),
        entry matches Entry::Directory { children: Some(cs) } ==> new.pending@.take(
            old.pending@.len() - 1,
        ) == old.pending@.drop_last(),
        !(entry matches Entry::Directory { children: Some(_) }) ==> new.pending@
            == old.pending@.drop_last(),
{
    match entry {
        Entry::Directory { children: Some(cs) } => {
            let base = old.pending@.drop_last();
            assert(new.pending@ == base + cs@.reverse());
            assert forall|k: int| 0 <= k < cs@.len() implies #[trigger] new.pending@[new.pending@.len()
                - 1 - k] == cs@[k] by {
                assert(new.pending@[new.pending@.len() - 1 - k] == cs@.reverse()[cs@.len() - 1 - k]);
            }
            assert(new.pending@.take(old.pending@.len() - 1) =~= base);
        },
        _ => {
            assert(pushed(entry) =~= Seq::<String>::empty());
            assert(old.pending@.drop_last() + Seq::<String>::empty() =~= old.pending@.drop_last());
        },
    }
}

} // verus!
