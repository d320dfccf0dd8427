//! Human-readable byte sizes and the text of the reports.

use vstd::prelude::*;
use crate::grouper::{set_views, wasted, wasted_bytes, DuplicateSet};
use crate::names::{name_set_views, NameDuplicateSet};
use crate::text::{decimal, digit, digit_char, push_char, push_decimal};

verus! {

/// One kibibyte.
pub const KB: u64 = 1024u64;

/// One mebibyte.
pub const MB: u64 = 1048576u64;

/// One gibibyte.
pub const GB: u64 = 1073741824u64;

/// Integers below this bound are exactly representable as `f64`.
pub open spec fn f64_exact_bound() -> nat {
    0x20_0000_0000_0000
}

/// `n / d` rounded to the nearest integer, ties to the even one.
pub open spec fn round_half_even(n: nat, d: nat) -> nat
    recommends
        d > 0,
{
    let q = n / d;
    let r = n % d;
    if 2 * r > d || (2 * r == d && q % 2 == 1) {
        q + 1
    } else {
        q
    }
}

/// The spacing of the `f64` values around `b`: the power of two by which `b`
/// must be divided to fit in the 53-bit significand.
pub open spec fn f64_spacing(b: nat) -> nat
    decreases b,
{
    if b < f64_exact_bound() {
        1
    } else {
        2 * f64_spacing(b / 2)
    }
}

/// The integer value of `b as f64`: `b` rounded to 53 significant bits,
/// ties to even.
pub open spec fn as_f64(b: nat) -> nat {
    round_half_even(b, f64_spacing(b)) * f64_spacing(b)
}

/// `b as f64 / unit` (a power of two, so the quotient is exact) in hundredths,
/// rounded to the nearest hundredth with ties to even, as `{:.2}` prints it.
pub open spec fn hundredths(b: nat, unit: nat) -> nat {
    round_half_even(as_f64(b) * 100, unit)
}

/// `h` hundredths written with two decimal places.
pub open spec fn two_places(h: nat) -> Seq<char> {
    decimal(h / 100) + seq!['.', digit_char((h % 100) / 10), digit_char(h % 10)]
}

/// The human-readable size of `bytes`: below one KB a plain count of bytes,
/// else the size in the largest of KB, MB and GB that it reaches, with two
/// decimal places.
pub open spec fn format_bytes_spec(bytes: nat) -> Seq<char> {
    if bytes >= GB {
        two_places(hundredths(bytes, GB as nat)) + " GB"@
    } else if bytes >= MB {
        two_places(hundredths(bytes, MB as nat)) + " MB"@
    } else if bytes >= KB {
        two_places(hundredths(bytes, KB as nat)) + " KB"@
    } else {
        decimal(bytes) + " B"@
    }
}

/// `h` hundredths with two decimal places, trailing zeros and then a
/// trailing point dropped.
pub open spec fn short_places(h: nat) -> Seq<char> {
    if h % 100 == 0 {
        decimal(h / 100)
    } else if h % 10 == 0 {
        decimal(h / 100) + seq!['.', digit_char((h % 100) / 10)]
    } else {
        two_places(h)
    }
}

/// The short human-readable size of `bytes`, as the plain report shows it:
/// the size of `format_bytes_spec` without trailing zeros after the point.
pub open spec fn short_size_spec(bytes: nat) -> Seq<char> {
    if bytes >= GB {
        short_places(hundredths(bytes, GB as nat)) + " GB"@
    } else if bytes >= MB {
        short_places(hundredths(bytes, MB as nat)) + " MB"@
    } else if bytes >= KB {
        short_places(hundredths(bytes, KB as nat)) + " KB"@
    } else {
        decimal(bytes) + " B"@
    }
}

proof fn lemma_spacing_bounds(b: nat)
    ensures
        f64_spacing(b) >= 1,
        b >= f64_exact_bound() ==> f64_spacing(b) * 0x10_0000_0000_0000 <= b,
    decreases b,
{
    if b >= f64_exact_bound() {
        lemma_spacing_bounds(b / 2);
    }
}

fn spacing(b: u64) -> (u: u128)
    ensures
        u == f64_spacing(b as nat),
        1 <= u <= 4096,
    decreases b,
{
    proof {
        lemma_spacing_bounds(b as nat);
    }
    if b < 0x20_0000_0000_0000 {
        1
    } else {
        2 * spacing(b / 2)
    }
}

fn round_even(n: u128, d: u128) -> (r: u128)
    requires
        d > 0,
        n < u128::MAX,
    ensures
        r == round_half_even(n as nat, d as nat),
        r <= n / d + 1,
{
    let q = n / d;
    let rem = n % d;
    proof {
        assert(rem < d);
    }
    if rem > d - rem || (rem == d - rem && q % 2 == 1) {
        q + 1
    } else {
        q
    }
}

/// `hundredths(bytes, unit)` computed exactly.
fn compute_hundredths(bytes: u64, unit: u128) -> (h: u128)
    requires
        unit > 0,
    ensures
        h == hundredths(bytes as nat, unit as nat),
{
    let u = spacing(bytes);
    let b = bytes as u128;
    let rounded = round_even(b, u);
    proof {
        assert((b / u) * u <= b) by (nonlinear_arith)
            requires
                u > 0,
        ;
        assert(rounded * u <= b + u) by (nonlinear_arith)
            requires
                rounded <= b / u + 1,
                (b / u) * u <= b,
                u > 0,
        ;
    }
    let x = rounded * u;
    round_even(x * 100, unit)
}

/// Appends `h` hundredths with two decimal places.
fn push_two_places(s: &mut String, h: u128)
    ensures
        final(s)@ == old(s)@ + two_places(h as nat),
{
    push_decimal(s, h / 100);
    push_char(s, '.');
    push_char(s, digit((h % 100) / 10));
    push_char(s, digit(h % 10));
    proof {
        assert(s@ =~= old(s)@ + two_places(h as nat));
    }
}

/// Appends `h` hundredths with two decimal places, trailing zeros and then a
/// trailing point dropped.
fn push_short_places(s: &mut String, h: u128)
    ensures
        final(s)@ == old(s)@ + short_places(h as nat),
{
    push_decimal(s, h / 100);
    if h % 100 != 0 {
        push_char(s, '.');
        push_char(s, digit((h % 100) / 10));
        if h % 10 != 0 {
            push_char(s, digit(h % 10));
        }
    }
    proof {
        assert(s@ =~= old(s)@ + short_places(h as nat));
    }
}

/// The short human-readable size of `bytes`, such as `512 B`, `1.5 KB`,
/// `512 KB` or `2.25 GB`.
pub fn format_bytes_short(bytes: u64) -> (r: String)
    ensures
        r@ == short_size_spec(bytes as nat),
{
    let mut s = String::new();
    if bytes >= GB {
        push_short_places(&mut s, compute_hundredths(bytes, GB as u128));
        s.append(" GB");
    } else if bytes >= MB {
        push_short_places(&mut s, compute_hundredths(bytes, MB as u128));
        s.append(" MB");
    } else if bytes >= KB {
        push_short_places(&mut s, compute_hundredths(bytes, KB as u128));
        s.append(" KB");
    } else {
        push_decimal(&mut s, bytes as u128);
        s.append(" B");
    }
    proof {
        assert(s@ =~= short_size_spec(bytes as nat));
    }
    s
}

/// The human-readable size of `bytes`, such as `512 B`, `1.50 KB` or
/// `2.00 GB`.
pub fn format_bytes(bytes: u64) -> (r: String)
    ensures
        r@ == format_bytes_spec(bytes as nat),
{
    let mut s = String::new();
    if bytes >= GB {
        push_two_places(&mut s, compute_hundredths(bytes, GB as u128));
        s.append(" GB");
    } else if bytes >= MB {
        push_two_places(&mut s, compute_hundredths(bytes, MB as u128));
        s.append(" MB");
    } else if bytes >= KB {
        push_two_places(&mut s, compute_hundredths(bytes, KB as u128));
        s.append(" KB");
    } else {
        push_decimal(&mut s, bytes as u128);
        s.append(" B");
    }
    proof {
        assert(s@ =~= format_bytes_spec(bytes as nat));
    }
    s
}

/// One line per file: two spaces, the path, a line break.
pub open spec fn file_lines(files: Seq<String>) -> Seq<char>
    decreases files.len(),
{
    if files.len() == 0 {
        Seq::empty()
    } else {
        file_lines(files.drop_last()) + "  "@ + files.last()@ + "\n"@
    }
}

/// The number of files of all the sets.
pub open spec fn file_count<K>(ss: Seq<(K, Seq<String>)>) -> nat
    decreases ss.len(),
{
    if ss.len() == 0 {
        0
    } else {
        file_count(ss.drop_last()) + ss.last().1.len()
    }
}

/// The space all the sets waste.
pub open spec fn total_wasted(ss: Seq<(u64, Seq<String>)>) -> int
    decreases ss.len(),
{
    if ss.len() == 0 {
        0
    } else {
        total_wasted(ss.drop_last()) + wasted(ss.last())
    }
}

/// The block of the report for the set numbered `k + 1`.
pub open spec fn set_block(k: nat, s: (u64, Seq<String>)) -> Seq<char> {
    "Group "@ + decimal(k + 1) + " ("@ + decimal(s.1.len()) + " files, "@ + short_size_spec(
        s.0 as nat,
    ) + " each, "@ + short_size_spec(wasted(s) as nat) + " wasted):\n"@ + file_lines(s.1)
        + "\n"@
}

/// The blocks of the report for the sets, numbered from 1.
pub open spec fn set_blocks(ss: Seq<(u64, Seq<String>)>) -> Seq<char>
    decreases ss.len(),
{
    if ss.len() == 0 {
        Seq::empty()
    } else {
        set_blocks(ss.drop_last()) + set_block((ss.len() - 1) as nat, ss.last())
    }
}

/// The plain report of the sets of duplicates.
pub open spec fn table_text(ss: Seq<(u64, Seq<String>)>) -> Seq<char> {
    if ss.len() == 0 {
        "No duplicate files found.\n"@
    } else {
        "Duplicate Files Report\n======================\n\n"@ + set_blocks(ss)
            + "Summary:\n--------\nTotal duplicate groups: "@ + decimal(ss.len())
            + "\nTotal duplicate files: "@ + decimal(file_count(ss)) + " (of which "@ + decimal(
            (file_count(ss) - ss.len()) as nat,
        ) + " are redundant copies)\nTotal wasted space: "@ + short_size_spec(
            total_wasted(ss) as nat,
        ) + "\n"@
    }
}

/// The start of each CSV row of the set `s` numbered `k + 1`: its number,
/// size and wasted space, each in bytes and in readable form.
pub open spec fn csv_prefix(k: nat, s: (u64, Seq<String>)) -> Seq<char> {
    decimal(k + 1) + ","@ + decimal(s.0 as nat) + ","@ + format_bytes_spec(s.0 as nat) + ","@
        + decimal(wasted(s) as nat) + ","@ + format_bytes_spec(wasted(s) as nat) + ","@
}

/// One CSV row per file: `prefix`, the path, a line break.
pub open spec fn csv_rows(prefix: Seq<char>, files: Seq<String>) -> Seq<char>
    decreases files.len(),
{
    if files.len() == 0 {
        Seq::empty()
    } else {
        csv_rows(prefix, files.drop_last()) + prefix + files.last()@ + "\n"@
    }
}

/// The CSV rows of all the sets, numbered from 1.
pub open spec fn csv_body(ss: Seq<(u64, Seq<String>)>) -> Seq<char>
    decreases ss.len(),
{
    if ss.len() == 0 {
        Seq::empty()
    } else {
        csv_body(ss.drop_last()) + csv_rows(csv_prefix((ss.len() - 1) as nat, ss.last()), ss.last().1)
    }
}

/// The CSV report of the sets of duplicates: a header, then a row per file.
pub open spec fn csv_text(ss: Seq<(u64, Seq<String>)>) -> Seq<char> {
    "group_id,size_bytes,size_human,wasted_bytes,wasted_human,file_path\n"@ + csv_body(ss)
}

/// The block of the names report for the group numbered `k + 1`.
pub open spec fn name_block(k: nat, g: (Seq<char>, Seq<String>)) -> Seq<char> {
    "Group "@ + decimal(k + 1) + " - \""@ + g.0 + "\" ("@ + decimal(g.1.len()) + " files):\n"@
        + file_lines(g.1) + "\n"@
}

/// The blocks of the names report, numbered from 1.
pub open spec fn name_blocks(gs: Seq<(Seq<char>, Seq<String>)>) -> Seq<char>
    decreases gs.len(),
{
    if gs.len() == 0 {
        Seq::empty()
    } else {
        name_blocks(gs.drop_last()) + name_block((gs.len() - 1) as nat, gs.last())
    }
}

/// The report of the files that share names.
pub open spec fn name_table_text(gs: Seq<(Seq<char>, Seq<String>)>) -> Seq<char> {
    if gs.len() == 0 {
        "No duplicate names found.\n"@
    } else {
        "Duplicate Names Report\n======================\n\n"@ + name_blocks(gs)
            + "Summary:\n--------\nTotal groups with shared names: "@ + decimal(gs.len())
            + "\nTotal files involved: "@ + decimal(file_count(gs)) + "\n"@
    }
}

/// The sums over a prefix of the sets are at most the sums over all.
proof fn lemma_partial_sums(ss: Seq<(u64, Seq<String>)>, k: int)
    requires
        0 <= k <= ss.len(),
        forall|i: int| 0 <= i < ss.len() ==> (#[trigger] ss[i]).1.len() >= 1,
    ensures
        file_count(ss.take(k)) <= file_count(ss),
        total_wasted(ss.take(k)) <= total_wasted(ss),
        total_wasted(ss.take(k)) >= 0,
    decreases ss.len(),
{
    if k == ss.len() {
        assert(ss.take(k) =~= ss);
        lemma_wasted_nonnegative(ss);
    } else {
        let d = ss.drop_last();
        assert(d.take(k) =~= ss.take(k));
        lemma_partial_sums(d, k);
        assert(ss.last() == ss[ss.len() - 1]);
        assert(wasted(ss.last()) >= 0) by (nonlinear_arith)
            requires
                ss.last().1.len() >= 1,
        ;
    }
}

proof fn lemma_wasted_nonnegative(ss: Seq<(u64, Seq<String>)>)
    requires
        forall|i: int| 0 <= i < ss.len() ==> (#[trigger] ss[i]).1.len() >= 1,
    ensures
        total_wasted(ss) >= 0,
    decreases ss.len(),
{
    if ss.len() > 0 {
        let d = ss.drop_last();
        assert forall|i: int| 0 <= i < d.len() implies (#[trigger] d[i]).1.len() >= 1 by {
            assert(d[i] == ss[i]);
        }
        lemma_wasted_nonnegative(d);
        assert(ss.last() == ss[ss.len() - 1]);
        assert(wasted(ss.last()) >= 0) by (nonlinear_arith)
            requires
                ss.last().1.len() >= 1,
        ;
    }
}

/// Appends the lines of `files`.
fn push_file_lines(s: &mut String, files: &Vec<String>)
    ensures
        final(s)@ == old(s)@ + file_lines(files@),
{
    let ghost start = s@;
    for i in 0..files.len()
        invariant
            s@ == start + file_lines(files@.take(i as int)),
    {
        s.append("  ");
        s.append(files[i].as_str());
        s.append("\n");
        proof {
            assert(files@.take(i + 1).drop_last() =~= files@.take(i as int));
            assert(s@ =~= start + file_lines(files@.take(i + 1)));
        }
    }
    proof {
        assert(files@.take(files@.len() as int) =~= files@);
    }
}

proof fn lemma_count_at_least_len<K>(ss: Seq<(K, Seq<String>)>)
    requires
        forall|i: int| 0 <= i < ss.len() ==> (#[trigger] ss[i]).1.len() >= 1,
    ensures
        file_count(ss) >= ss.len(),
    decreases ss.len(),
{
    if ss.len() > 0 {
        let d = ss.drop_last();
        assert forall|i: int| 0 <= i < d.len() implies (#[trigger] d[i]).1.len() >= 1 by {
            assert(d[i] == ss[i]);
        }
        lemma_count_at_least_len(d);
        assert(ss.last() == ss[ss.len() - 1]);
    }
}

proof fn lemma_count_prefix<K>(ss: Seq<(K, Seq<String>)>, k: int)
    requires
        0 <= k <= ss.len(),
    ensures
        file_count(ss.take(k)) <= file_count(ss),
    decreases ss.len(),
{
    if k == ss.len() {
        assert(ss.take(k) =~= ss);
    } else {
        let d = ss.drop_last();
        assert(d.take(k) =~= ss.take(k));
        lemma_count_prefix(d, k);
    }
}

/// Appends the block of the report for the set `set`, numbered `k + 1`.
fn push_set_block(s: &mut String, k: usize, set: &DuplicateSet)
    requires
        set.files@.len() >= 1,
        wasted(set@) <= u64::MAX,
        k < usize::MAX,
    ensures
        final(s)@ == old(s)@ + set_block(k as nat, set@),
{
    let w = wasted_bytes(set);
    s.append("Group ");
    push_decimal(s, (k + 1) as u128);
    s.append(" (");
    push_decimal(s, set.files.len() as u128);
    s.append(" files, ");
    let size_text = format_bytes_short(set.size);
    s.append(size_text.as_str());
    s.append(" each, ");
    let wasted_text = format_bytes_short(w as u64);
    s.append(wasted_text.as_str());
    s.append(" wasted):\n");
    push_file_lines(s, &set.files);
    s.append("\n");
    proof {
        assert(s@ =~= old(s)@ + set_block(k as nat, set@));
    }
}

/// The plain report of the sets of duplicates found: a block per set, with
/// its size, its wasted space and its files, then a summary of the counts.
pub fn format_table(sets: &Vec<DuplicateSet>) -> (r: String)
    requires
        forall|k: int| 0 <= k < sets@.len() ==> #[trigger] sets@[k].files@.len() >= 1,
        forall|k: int| 0 <= k < sets@.len() ==> wasted(#[trigger] sets@[k]@) <= u64::MAX,
        total_wasted(set_views(sets@)) <= u64::MAX,
        file_count(set_views(sets@)) <= usize::MAX,
    ensures
        r@ == table_text(set_views(sets@)),
{
    let ghost views = set_views(sets@);
    let n = sets.len();
    if n == 0 {
        return String::from_str("No duplicate files found.\n");
    }
    proof {
        assert forall|i: int| 0 <= i < views.len() implies (#[trigger] views[i]).1.len() >= 1 by {
            assert(views[i] == sets@[i]@);
        }
    }
    let mut s = String::from_str("Duplicate Files Report\n======================\n\n");
    let ghost header = s@;
    let mut files: u128 = 0;
    let mut total: u128 = 0;
    for k in 0..n
        invariant
            n == sets@.len(),
            views == set_views(sets@),
            forall|i: int| 0 <= i < views.len() ==> (#[trigger] views[i]).1.len() >= 1,
            forall|i: int| 0 <= i < sets@.len() ==> #[trigger] sets@[i].files@.len() >= 1,
            forall|i: int| 0 <= i < sets@.len() ==> wasted(#[trigger] sets@[i]@) <= u64::MAX,
            total_wasted(views) <= u64::MAX,
            file_count(views) <= usize::MAX,
            s@ == header + set_blocks(views.take(k as int)),
            files == file_count(views.take(k as int)),
            total == total_wasted(views.take(k as int)),
    {
        let set = &sets[k];
        let ghost v = views[k as int];
        proof {
            assert(v == set@);
            assert(views.take(k + 1).drop_last() =~= views.take(k as int));
            assert(views.take(k + 1).last() == v);
            lemma_partial_sums(views, k + 1);
            lemma_count_prefix(views, k + 1);
        }
        let w = wasted_bytes(set);
        let len = set.files.len();
        push_set_block(&mut s, k, set);
        proof {
            assert(set_blocks(views.take(k + 1)) =~= set_blocks(views.take(k as int)) + set_block(
                k as nat,
                v,
            ));
            assert(s@ =~= header + set_blocks(views.take(k + 1)));
        }
        files = files + len as u128;
        total = total + w;
    }
    proof {
        assert(views.take(n as int) =~= views);
        lemma_count_at_least_len(views);
        lemma_wasted_nonnegative(views);
    }
    s.append("Summary:\n--------\nTotal duplicate groups: ");
    push_decimal(&mut s, n as u128);
    s.append("\nTotal duplicate files: ");
    push_decimal(&mut s, files);
    s.append(" (of which ");
    push_decimal(&mut s, files - n as u128);
    s.append(" are redundant copies)\nTotal wasted space: ");
    let total_text = format_bytes_short(total as u64);
    s.append(total_text.as_str());
    s.append("\n");
    proof {
        assert(s@ =~= table_text(views));
    }
    s
}

/// Appends the CSV rows of the files of `set`, numbered `k + 1`.
fn push_csv_rows(s: &mut String, k: usize, set: &DuplicateSet)
    requires
        set.files@.len() >= 1,
        wasted(set@) <= u64::MAX,
        k < usize::MAX,
    ensures
        final(s)@ == old(s)@ + csv_rows(csv_prefix(k as nat, set@), set.files@),
{
    let w = wasted_bytes(set);
    let mut prefix = String::new();
    push_decimal(&mut prefix, (k + 1) as u128);
    prefix.append(",");
    push_decimal(&mut prefix, set.size as u128);
    prefix.append(",");
    let size_text = format_bytes(set.size);
    prefix.append(size_text.as_str());
    prefix.append(",");
    push_decimal(&mut prefix, w);
    prefix.append(",");
    let wasted_text = format_bytes(w as u64);
    prefix.append(wasted_text.as_str());
    prefix.append(",");
    proof {
        assert(prefix@ =~= csv_prefix(k as nat, set@));
    }
    let ghost start = s@;
    for i in 0..set.files.len()
        invariant
            s@ == start + csv_rows(prefix@, set.files@.take(i as int)),
    {
        s.append(prefix.as_str());
        s.append(set.files[i].as_str());
        s.append("\n");
        proof {
            assert(set.files@.take(i + 1).drop_last() =~= set.files@.take(i as int));
            assert(s@ =~= start + csv_rows(prefix@, set.files@.take(i + 1)));
        }
    }
    proof {
        assert(set.files@.take(set.files@.len() as int) =~= set.files@);
    }
}

/// The CSV report of the sets of duplicates found: a header line, then one
/// row per file with the set's number, size and wasted space.
pub fn format_csv(sets: &Vec<DuplicateSet>) -> (r: String)
    requires
        forall|k: int| 0 <= k < sets@.len() ==> #[trigger] sets@[k].files@.len() >= 1,
        forall|k: int| 0 <= k < sets@.len() ==> wasted(#[trigger] sets@[k]@) <= u64::MAX,
    ensures
        r@ == csv_text(set_views(sets@)),
{
    let ghost views = set_views(sets@);
    let mut s = String::from_str(
        "group_id,size_bytes,size_human,wasted_bytes,wasted_human,file_path\n",
    );
    let ghost header = s@;
    let n = sets.len();
    for k in 0..n
        invariant
            n == sets@.len(),
            views == set_views(sets@),
            forall|i: int| 0 <= i < sets@.len() ==> #[trigger] sets@[i].files@.len() >= 1,
            forall|i: int| 0 <= i < sets@.len() ==> wasted(#[trigger] sets@[i]@) <= u64::MAX,
            s@ == header + csv_body(views.take(k as int)),
    {
        let ghost v = views[k as int];
        proof {
            assert(v == sets@[k as int]@);
            assert(views.take(k + 1).drop_last() =~= views.take(k as int));
            assert(views.take(k + 1).last() == v);
        }
        push_csv_rows(&mut s, k, &sets[k]);
        proof {
            assert(s@ =~= header + csv_body(views.take(k + 1)));
        }
    }
    proof {
        assert(views.take(n as int) =~= views);
    }
    s
}

/// Appends the block of the names report for `g`, numbered `k + 1`.
fn push_name_block(s: &mut String, k: usize, g: &NameDuplicateSet)
    requires
        k < usize::MAX,
    ensures
        final(s)@ == old(s)@ + name_block(k as nat, g@),
{
    s.append("Group ");
    push_decimal(s, (k + 1) as u128);
    s.append(" - \"");
    s.append(g.name.as_str());
    s.append("\" (");
    push_decimal(s, g.files.len() as u128);
    s.append(" files):\n");
    push_file_lines(s, &g.files);
    s.append("\n");
    proof {
        assert(s@ =~= old(s)@ + name_block(k as nat, g@));
    }
}

/// The report of the files that share names: a block per name with its
/// files, then a summary of the counts.
pub fn format_name_table(groups: &Vec<NameDuplicateSet>) -> (r: String)
    requires
        file_count(name_set_views(groups@)) <= usize::MAX,
    ensures
        r@ == name_table_text(name_set_views(groups@)),
{
    let ghost views = name_set_views(groups@);
    let n = groups.len();
    if n == 0 {
        return String::from_str("No duplicate names found.\n");
    }
    let mut s = String::from_str("Duplicate Names Report\n======================\n\n");
    let ghost header = s@;
    let mut files: u128 = 0;
    for k in 0..n
        invariant
            n == groups@.len(),
            views == name_set_views(groups@),
            file_count(views) <= usize::MAX,
            s@ == header + name_blocks(views.take(k as int)),
            files == file_count(views.take(k as int)),
    {
        let ghost v = views[k as int];
        proof {
            assert(v == groups@[k as int]@);
            assert(views.take(k + 1).drop_last() =~= views.take(k as int));
            assert(views.take(k + 1).last() == v);
            lemma_count_prefix(views, k + 1);
        }
        push_name_block(&mut s, k, &groups[k]);
        proof {
            assert(s@ =~= header + name_blocks(views.take(k + 1)));
        }
        files = files + groups[k].files.len() as u128;
    }
    proof {
        assert(views.take(n as int) =~= views);
    }
    s.append("Summary:\n--------\nTotal groups with shared names: ");
    push_decimal(&mut s, n as u128);
    s.append("\nTotal files involved: ");
    push_decimal(&mut s, files);
    s.append("\n");
    proof {
        assert(s@ =~= name_table_text(views));
    }
    s
}

/// The unit that `n` whole units of `unit` bytes print in, with its text.
proof fn lemma_whole_hundredths(n: nat, unit: nat)
    requires
        1 <= n < 1024,
        unit == KB || unit == MB || unit == GB,
    ensures
        hundredths(n * unit, unit) == n * 100,
        two_places(n * 100) == decimal(n) + seq!['.', '0', '0'],
        short_places(n * 100) == decimal(n),
{
    assert(n * unit < 0x100_0000_0000) by (nonlinear_arith)
        requires
            n < 1024,
            unit <= 0x4000_0000,
    ;
    assert(f64_spacing(n * unit) == 1);
    assert(as_f64(n * unit) == n * unit);
    let b = n * unit * 100;
    assert(b == (n * 100) * unit) by (nonlinear_arith)
        requires
            b == n * unit * 100,
    ;
    assert(b / unit == n * 100 && b % unit == 0) by (nonlinear_arith)
        requires
            b == (n * 100) * unit,
            unit > 0,
    ;
    assert((n * 100) / 100 == n && (n * 100) % 100 == 0 && (n * 100) % 10 == 0) by (nonlinear_arith);
}

/// Sizes go up a unit at each power of 1024, and a whole number of units
/// prints as that number: below 1 KB a count of bytes; `n` KB, MB or GB (for
/// `n` from 1 to 1023) as `n` with two zero decimals in the full form and
/// with none in the short form, in that unit.
pub proof fn lemma_whole_units(n: nat)
    requires
        1 <= n < 1024,
    ensures
        format_bytes_spec((n - 1) as nat) == decimal((n - 1) as nat) + " B"@,
        short_size_spec((n - 1) as nat) == decimal((n - 1) as nat) + " B"@,
        format_bytes_spec(n * (KB as nat)) == decimal(n) + seq!['.', '0', '0'] + " KB"@,
        format_bytes_spec(n * (MB as nat)) == decimal(n) + seq!['.', '0', '0'] + " MB"@,
        format_bytes_spec(n * (GB as nat)) == decimal(n) + seq!['.', '0', '0'] + " GB"@,
        short_size_spec(n * (KB as nat)) == decimal(n) + " KB"@,
        short_size_spec(n * (MB as nat)) == decimal(n) + " MB"@,
        short_size_spec(n * (GB as nat)) == decimal(n) + " GB"@,
{
    lemma_whole_hundredths(n, KB as nat);
    lemma_whole_hundredths(n, MB as nat);
    lemma_whole_hundredths(n, GB as nat);
    assert(n * (KB as nat) < MB && n * (KB as nat) >= KB) by (nonlinear_arith)
        requires
            1 <= n < 1024,
    ;
    assert(n * (MB as nat) < GB && n * (MB as nat) >= MB) by (nonlinear_arith)
        requires
            1 <= n < 1024,
    ;
    assert(n * (GB as nat) >= GB) by (nonlinear_arith)
        requires
            1 <= n,
    ;
}

} // verus!
