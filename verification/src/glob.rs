//! Glob patterns over file names: `*` matches any run of characters (the
//! empty one too), `?` matches exactly one character, every other character
//! matches itself.

use vstd::prelude::*;
use crate::text::chars_of;

verus! {

/// The wildcard for any run of characters.
pub const STAR: char = '*';

/// The wildcard for one character.
pub const QUESTION: char = '?';

/// Whether `pat` matches the whole of `name`.
pub open spec fn glob_spec(pat: Seq<char>, name: Seq<char>) -> bool
    decreases pat.len() + name.len(),
{
    if pat.len() == 0 {
        name.len() == 0
    } else if pat[0] == STAR {
        glob_spec(pat.drop_first(), name) || (name.len() > 0 && glob_spec(pat, name.drop_first()))
    } else if name.len() == 0 {
        false
    } else if pat[0] == QUESTION || pat[0] == name[0] {
        glob_spec(pat.drop_first(), name.drop_first())
    } else {
        false
    }
}

/// A pattern without wildcards.
pub open spec fn is_literal(pat: Seq<char>) -> bool {
    forall|i: int| 0 <= i < pat.len() ==> pat[i] != STAR && pat[i] != QUESTION
}

/// Matches the glob `pattern` against the whole file `name`, character by
/// character and case-sensitively.
pub fn glob_match(pattern: &str, name: &str) -> (r: bool)
    ensures
        r == glob_spec(pattern@, name@),
{
    let p = chars_of(pattern);
    let n = chars_of(name);
    glob_match_chars(p.as_slice(), n.as_slice())
}

/// Matches the pattern `pat` against the whole of `name`.
pub fn glob_match_chars(pat: &[char], name: &[char]) -> (r: bool)
    ensures
        r == glob_spec(pat@, name@),
{
    proof {
        assert(pat@.skip(0) =~= pat@);
        assert(name@.skip(0) =~= name@);
    }
    match_from(pat, 0, name, 0)
}

/// Matches `pat[i..]` against `name[j..]`.
fn match_from(pat: &[char], i: usize, name: &[char], j: usize) -> (r: bool)
    requires
        i <= pat@.len(),
        j <= name@.len(),
    ensures
        r == glob_spec(pat@.skip(i as int), name@.skip(j as int)),
    decreases pat@.len() - i + name@.len() - j,
{
    let ghost p = pat@.skip(i as int);
    let ghost n = name@.skip(j as int);
    if i == pat.len() {
        return j == name.len();
    }
    proof {
        assert(p.drop_first() =~= pat@.skip(i + 1));
        if j < name@.len() {
            assert(n.drop_first() =~= name@.skip(j + 1));
        }
    }
    if pat[i] == STAR {
        if match_from(pat, i + 1, name, j) {
            true
        } else if j < name.len() {
            match_from(pat, i, name, j + 1)
        } else {
            false
        }
    } else if j == name.len() {
        false
    } else if pat[i] == QUESTION || pat[i] == name[j] {
        match_from(pat, i + 1, name, j + 1)
    } else {
        false
    }
}

/// `*` matches every name, the empty one included.
pub proof fn lemma_star_matches_everything(name: Seq<char>)
    ensures
        glob_spec(seq![STAR], name),
    decreases name.len(),
{
    assert(seq![STAR][0] == STAR);
    assert(seq![STAR].drop_first() =~= Seq::<char>::empty());
    assert(seq![STAR].len() == 1);
    assert(glob_spec(Seq::<char>::empty(), Seq::<char>::empty()));
    if name.len() == 0 {
        assert(name =~= Seq::<char>::empty());
        assert(glob_spec(seq![STAR].drop_first(), name));
    }
    if name.len() > 0 {
        lemma_star_matches_everything(name.drop_first());
    }
}

/// A leading `*` matches any run of characters: `*` followed by `rest` matches
/// `name` exactly when `rest` matches some suffix of `name`.
pub proof fn lemma_star_prefix(rest: Seq<char>, name: Seq<char>)
    ensures
        glob_spec(seq![STAR] + rest, name) <==> exists|k: int|
            0 <= k <= name.len() && #[trigger] glob_spec(rest, name.skip(k)),
    decreases name.len(),
{
    let pat = seq![STAR] + rest;
    assert(pat[0] == STAR);
    assert(pat.drop_first() =~= rest);
    assert(name.skip(0) =~= name);
    assert(glob_spec(rest, name.skip(0)) == glob_spec(rest, name));
    if name.len() > 0 {
        let tail = name.drop_first();
        lemma_star_prefix(rest, tail);
        if glob_spec(pat, name) && !glob_spec(rest, name) {
            let k = choose|k: int| 0 <= k <= tail.len() && #[trigger] glob_spec(rest, tail.skip(k));
            assert(tail.skip(k) =~= name.skip(k + 1));
            assert(glob_spec(rest, name.skip(k + 1)));
        }
        if exists|k: int| 0 <= k <= name.len() && #[trigger] glob_spec(rest, name.skip(k)) {
            let k = choose|k: int| 0 <= k <= name.len() && #[trigger] glob_spec(rest, name.skip(k));
            if k > 0 {
                assert(tail.skip(k - 1) =~= name.skip(k));
                assert(glob_spec(rest, tail.skip(k - 1)));
            }
        }
    }
}

/// A leading `?` matches exactly one character, whatever it is.
pub proof fn lemma_question_prefix(rest: Seq<char>, name: Seq<char>)
    ensures
        glob_spec(seq![QUESTION] + rest, name) <==> name.len() > 0 && glob_spec(
            rest,
            name.drop_first(),
        ),
{
    assert((seq![QUESTION] + rest).drop_first() =~= rest);
}

/// A pattern without wildcards matches only the name equal to it: matching
/// is exact and case-sensitive.
pub proof fn lemma_literal_matches_itself_only(pat: Seq<char>, name: Seq<char>)
    requires
        is_literal(pat),
    ensures
        glob_spec(pat, name) <==> pat == name,
    decreases pat.len(),
{
    if pat.len() == 0 && name.len() == 0 {
        assert(pat =~= name);
    }
    if pat.len() > 0 {
        assert(pat[0] != STAR && pat[0] != QUESTION);
    }
    if pat.len() > 0 && name.len() > 0 {
        assert(is_literal(pat.drop_first())) by {
            assert forall|i: int| 0 <= i < pat.drop_first().len() implies pat.drop_first()[i]
                != STAR && pat.drop_first()[i] != QUESTION by {
                assert(pat.drop_first()[i] == pat[i + 1]);
            }
        }
        lemma_literal_matches_itself_only(pat.drop_first(), name.drop_first());
        if pat.drop_first() == name.drop_first() && pat[0] == name[0] {
            assert forall|i: int| 0 <= i < pat.len() implies pat[i] == name[i] by {
                if i > 0 {
                    assert(pat[i] == pat.drop_first()[i - 1]);
                    assert(name[i] == name.drop_first()[i - 1]);
                }
            }
            assert(pat =~= name);
        }
        if pat == name {
            assert(pat.drop_first() =~= name.drop_first());
        }
    }
}

/// `*` followed by a literal matches exactly the names that end with that
/// literal (as in `*.tmp`).
pub proof fn lemma_star_then_literal(lit: Seq<char>, name: Seq<char>)
    requires
        is_literal(lit),
    ensures
        glob_spec(seq![STAR] + lit, name) <==> lit.len() <= name.len() && name.skip(
            name.len() - lit.len(),
        ) == lit,
{
    lemma_star_prefix(lit, name);
    if glob_spec(seq![STAR] + lit, name) {
        let k = choose|k: int| 0 <= k <= name.len() && #[trigger] glob_spec(lit, name.skip(k));
        lemma_literal_matches_itself_only(lit, name.skip(k));
        assert(k == name.len() - lit.len());
    }
    if lit.len() <= name.len() && name.skip(name.len() - lit.len()) == lit {
        let k = name.len() - lit.len();
        lemma_literal_matches_itself_only(lit, name.skip(k));
        assert(glob_spec(lit, name.skip(k)));
    }
}

/// A literal followed by `*` matches exactly the names that start with that
/// literal (as in `~$*`).
pub proof fn lemma_literal_then_star(lit: Seq<char>, name: Seq<char>)
    requires
        is_literal(lit),
    ensures
        glob_spec(lit + seq![STAR], name) <==> lit.len() <= name.len() && name.take(
            lit.len() as int,
        ) == lit,
    decreases lit.len(),
{
    let pat = lit + seq![STAR];
    if lit.len() == 0 {
        assert(pat =~= seq![STAR]);
        lemma_star_matches_everything(name);
        assert(name.take(0) =~= lit);
    } else {
        assert(pat.drop_first() =~= lit.drop_first() + seq![STAR]);
        assert(pat[0] == lit[0]);
        if name.len() > 0 {
            lemma_literal_then_star(lit.drop_first(), name.drop_first());
            if lit.len() <= name.len() && name.take(lit.len() as int) == lit {
                assert(name.drop_first().take(lit.len() - 1) =~= lit.drop_first());
            }
            if lit.len() - 1 <= name.drop_first().len() && name.drop_first().take(lit.len() - 1)
                == lit.drop_first() && pat[0] == name[0] {
                assert forall|i: int| 0 <= i < lit.len() implies name[i] == lit[i] by {
                    if i > 0 {
                        assert(name.drop_first().take(lit.len() - 1)[i - 1] == lit.drop_first()[i
                            - 1]);
                    }
                }
                assert(name.take(lit.len() as int) =~= lit);
            }
            if name.take(lit.len() as int) == lit && lit.len() <= name.len() {
                assert(name.take(lit.len() as int)[0] == name[0]);
            }
        }
    }
}

} // verus!
