//! The command line: sizes such as `1MB`, and the arguments of the program.

use vstd::prelude::*;
use crate::error::DupyError;
use crate::text::{chars_of, string_of};

verus! {

/// Whether `c` is one of the ASCII digits `0` to `9`.
pub open spec fn is_digit(c: char) -> bool {
    '0' <= c <= '9'
}

/// The number of leading ASCII digits of `cs`.
pub open spec fn digit_prefix_len(cs: Seq<char>) -> nat
    decreases cs.len(),
{
    if cs.len() == 0 || !is_digit(cs[0]) {
        0
    } else {
        1 + digit_prefix_len(cs.drop_first())
    }
}

/// The number written by the ASCII digits `ds` in decimal.
pub open spec fn digits_value(ds: Seq<char>) -> nat
    decreases ds.len(),
{
    if ds.len() == 0 {
        0
    } else {
        digits_value(ds.drop_last()) * 10 + (ds.last() as nat - '0' as nat) as nat
    }
}

/// The factor a size suffix stands for, once upper-cased: none or `B` for
/// bytes, `KB` or `K`, `MB` or `M`, `GB` or `G` for binary multiples.
pub open spec fn suffix_factor(upper: Seq<char>) -> Option<u64> {
    if upper == ""@ || upper == "B"@ {
        Some(1)
    } else if upper == "KB"@ || upper == "K"@ {
        Some(1024)
    } else if upper == "MB"@ || upper == "M"@ {
        Some(1048576)
    } else if upper == "GB"@ || upper == "G"@ {
        Some(1073741824)
    } else {
        None
    }
}

/// The upper-case form of `s`, as `str::to_uppercase` computes it.
pub uninterp spec fn uppercase(s: Seq<char>) -> Seq<char>;

/// Whether every character of `s` is ASCII.
pub open spec fn is_ascii_text(s: Seq<char>) -> bool {
    forall|i: int| 0 <= i < s.len() ==> (#[trigger] s[i]) as int <= 127
}

/// The ASCII upper case of `c`: `a` to `z` become `A` to `Z`, any other
/// character stays.
pub open spec fn ascii_upper_char(c: char) -> char {
    if 'a' <= c <= 'z' {
        (c as int - 32) as char
    } else {
        c
    }
}

/// The ASCII upper case of each character of `s`.
pub open spec fn ascii_upper(s: Seq<char>) -> Seq<char> {
    s.map_values(|c: char| ascii_upper_char(c))
}

/// The upper-case form of `s`: the ASCII upper case of ASCII text, the
/// Unicode upper case otherwise.
pub open spec fn upper_of(s: Seq<char>) -> Seq<char> {
    if is_ascii_text(s) {
        ascii_upper(s)
    } else {
        uppercase(s)
    }
}

/// The upper-case form of `s`.
///
/// Wraps `str::to_uppercase`, whose result is a function of the string
/// alone (by the Unicode case tables); it is named, not spelt out, here.
/// Of ASCII text, the Unicode upper case is the ASCII one: `a` to `z` become
/// `A` to `Z`, and every other character, the empty text included, stays.
#[verifier::external_body]
fn to_uppercase(s: &str) -> (r: String)
    ensures
        r@ == uppercase(s@),
        is_ascii_text(s@) ==> r@ == ascii_upper(s@),
{
    s.to_uppercase()
}

/// What reading the size `s` gives: the number of bytes, or the message of
/// the error. The size is a decimal number followed by an optional suffix
/// (matched after upper-casing, so in any case); the product saturates at
/// `u64::MAX`.
pub open spec fn size_outcome(s: Seq<char>) -> Result<u64, Seq<char>> {
    let k = digit_prefix_len(s);
    let value = digits_value(s.take(k as int));
    let upper = upper_of(s.skip(k as int));
    if k == 0 {
        Err("Invalid size '"@ + s + "': no numeric prefix"@)
    } else if value > u64::MAX {
        Err("Invalid size '"@ + s + "': numeric part too large"@)
    } else {
        match suffix_factor(upper) {
            Some(f) => Ok(
                if value * f > u64::MAX {
                    u64::MAX
                } else {
                    (value * f) as u64
                },
            ),
            None => Err("Unknown size suffix '"@ + upper + "' (use B, KB, MB, GB)"@),
        }
    }
}

/// The factor of the upper-cased size suffix `upper`, if it is one.
pub fn size_factor(upper: &str) -> (r: Option<u64>)
    ensures
        r == suffix_factor(upper@),
{
    let u = String::from_str(upper);
    if u == String::from_str("") || u == String::from_str("B") {
        Some(1)
    } else if u == String::from_str("KB") || u == String::from_str("K") {
        Some(1024)
    } else if u == String::from_str("MB") || u == String::from_str("M") {
        Some(1048576)
    } else if u == String::from_str("GB") || u == String::from_str("G") {
        Some(1073741824)
    } else {
        None
    }
}

/// `v`, or 2^64 if it is larger.
pub open spec fn capped(v: nat) -> nat {
    if v > 0x1_0000_0000_0000_0000 {
        0x1_0000_0000_0000_0000
    } else {
        v
    }
}

proof fn lemma_capped_step(v: nat, d: nat)
    requires
        d < 10,
    ensures
        capped(v * 10 + d) == capped(capped(v) * 10 + d),
{
}

proof fn lemma_prefix_len_is(cs: Seq<char>, k: int)
    requires
        0 <= k <= cs.len(),
        forall|j: int| 0 <= j < k ==> is_digit(#[trigger] cs[j]),
        k == cs.len() || !is_digit(cs[k]),
    ensures
        digit_prefix_len(cs) == k,
    decreases cs.len(),
{
    if k > 0 {
        assert(is_digit(cs[0]));
        assert forall|j: int| 0 <= j < k - 1 implies is_digit(#[trigger] cs.drop_first()[j]) by {
            assert(cs.drop_first()[j] == cs[j + 1]);
        }
        lemma_prefix_len_is(cs.drop_first(), k - 1);
    }
}

proof fn lemma_number_then_suffix(n: Seq<char>, suffix: Seq<char>)
    requires
        forall|i: int| 0 <= i < n.len() ==> is_digit(#[trigger] n[i]),
        suffix.len() == 0 || !is_digit(suffix[0]),
    ensures
        digit_prefix_len(n + suffix) == n.len(),
        (n + suffix).take(n.len() as int) == n,
        (n + suffix).skip(n.len() as int) == suffix,
{
    let cs = n + suffix;
    assert forall|j: int| 0 <= j < n.len() implies is_digit(#[trigger] cs[j]) by {
        assert(cs[j] == n[j]);
    }
    if suffix.len() > 0 {
        assert(cs[n.len() as int] == suffix[0]);
    }
    lemma_prefix_len_is(cs, n.len() as int);
    assert(cs.take(n.len() as int) =~= n);
    assert(cs.skip(n.len() as int) =~= suffix);
}

/// Size suffixes are read in any case: a number followed by two ASCII
/// suffixes that stand for the same factor once upper-cased (such as `kb`,
/// `KB` and `K`, or `b`, `B` and none) is read as the same size, or refused
/// by both.
pub proof fn lemma_size_suffix_case(n: Seq<char>, s1: Seq<char>, s2: Seq<char>)
    requires
        n.len() > 0,
        forall|i: int| 0 <= i < n.len() ==> is_digit(#[trigger] n[i]),
        is_ascii_text(s1),
        is_ascii_text(s2),
        s1.len() == 0 || !is_digit(s1[0]),
        s2.len() == 0 || !is_digit(s2[0]),
        suffix_factor(ascii_upper(s1)) == suffix_factor(ascii_upper(s2)),
    ensures
        (size_outcome(n + s1) is Ok) == (size_outcome(n + s2) is Ok),
        size_outcome(n + s1) is Ok ==> size_outcome(n + s1) == size_outcome(n + s2),
{
    lemma_number_then_suffix(n, s1);
    lemma_number_then_suffix(n, s2);
}

/// Reads a size such as `1048576`, `500KB`, `1mb` or `2G`: a decimal number
/// of bytes followed by an optional suffix `B`, `KB`/`K`, `MB`/`M` or
/// `GB`/`G` in any case. The product saturates at `u64::MAX`.
pub fn parse_size(s: &str) -> (r: Result<u64, DupyError>)
    ensures
        match r {
            Ok(v) => size_outcome(s@) == Ok::<u64, Seq<char>>(v),
            Err(DupyError::InvalidArguments(m)) => size_outcome(s@) == Err::<u64, Seq<char>>(
                m@,
            ),
            Err(_) => false,
        },
{
    let cs = chars_of(s);
    let n = cs.len();
    let mut k: usize = 0;
    while k < n && '0' <= cs[k] && cs[k] <= '9'
        invariant
            k <= n,
            n == cs@.len(),
            cs@ == s@,
            forall|j: int| 0 <= j < k ==> is_digit(#[trigger] cs@[j]),
        decreases n - k,
    {
        k = k + 1;
    }
    proof {
        lemma_prefix_len_is(cs@, k as int);
    }
    if k == 0 {
        let m = String::from_str("Invalid size '").concat(s).concat("': no numeric prefix");
        return Err(DupyError::InvalidArguments(m));
    }
    // The value, capped at 2^64 once it passes `u64::MAX`.
    let mut value: u128 = 0;
    let mut i: usize = 0;
    while i < k
        invariant
            i <= k,
            k <= n,
            n == cs@.len(),
            forall|j: int| 0 <= j < k ==> is_digit(#[trigger] cs@[j]),
            value == capped(digits_value(cs@.take(i as int))),
            cs@ == s@,
        decreases k - i,
    {
        let d = (cs[i] as u32 - 48) as u128;
        proof {
            assert(is_digit(cs@[i as int]));
            assert(cs@.take(i + 1).drop_last() =~= cs@.take(i as int));
            lemma_capped_step(digits_value(cs@.take(i as int)), d as nat);
        }
        let next = value * 10 + d;
        value = if next > 0x1_0000_0000_0000_0000 {
            0x1_0000_0000_0000_0000
        } else {
            next
        };
        i = i + 1;
    }
    if value > 0xffff_ffff_ffff_ffff {
        let m = String::from_str("Invalid size '").concat(s).concat(
            "': numeric part too large",
        );
        return Err(DupyError::InvalidArguments(m));
    }
    let suffix = string_of(&cs, k);
    let upper = to_uppercase(suffix.as_str());
    match size_factor(upper.as_str()) {
        Some(f) => {
            proof {
                assert(cs@.skip(k as int) =~= suffix@);
                assert(value * f <= 0x1_0000_0000_0000_0000 * 0x4000_0000) by (nonlinear_arith)
                    requires
                        value <= 0x1_0000_0000_0000_0000,
                        f <= 0x4000_0000,
                ;
            }
            let product = value * (f as u128);
            if product > 0xffff_ffff_ffff_ffff {
                Ok(0xffff_ffff_ffff_ffff)
            } else {
                Ok(product as u64)
            }
        },
        None => {
            let m = String::from_str("Unknown size suffix '").concat(upper.as_str()).concat(
                "' (use B, KB, MB, GB)",
            );
            proof {
                assert(cs@.skip(k as int) =~= suffix@);
            }
            Err(DupyError::InvalidArguments(m))
        },
    }
}

/// Which duplicates to look for.
#[derive(Clone, Copy, Debug, PartialEq, Eq, Structural)]
pub enum Mode {
    /// Files with identical contents.
    Content,
    /// Files with the same name.
    Names,
}

/// How to print the duplicates found.
#[derive(Clone, Copy, Debug, PartialEq, Eq, Structural)]
pub enum OutputFormat {
    /// A report for people.
    Plain,
    /// Comma-separated values.
    Csv,
}

/// The settings read from the command line.
#[derive(Debug)]
pub struct Args {
    pub directory: String,
    pub mode: Mode,
    pub min_size: u64,
    pub quiet: bool,
    pub format: OutputFormat,
    pub excludes: Vec<String>,
    pub include_junk: bool,
}

/// How the program is called.
pub const USAGE: &'static str = "Usage: dupy [--names|-n] [--min-size <size>] [--quiet|-q]\n        [--format plain|csv] [--exclude <pattern>]...\n        [--include-junk] <directory>";

/// The settings read so far: mode, directory (once given), minimum size,
/// quiet, output format, exclude patterns, include junk.
pub type Settings = (Mode, Option<Seq<char>>, u64, bool, OutputFormat, Seq<Seq<char>>, bool);

/// The settings before any argument is read.
pub open spec fn default_settings() -> Settings {
    (Mode::Content, None, 0, false, OutputFormat::Plain, Seq::empty(), false)
}

/// The settings `a` holds.
pub open spec fn settings_of(a: &Args) -> Settings {
    (
        a.mode,
        Some(a.directory@),
        a.min_size,
        a.quiet,
        a.format,
        a.excludes@.map_values(|e: String| e@),
        a.include_junk,
    )
}

/// The texts of `args`.
pub open spec fn texts(args: Seq<String>) -> Seq<Seq<char>> {
    args.map_values(|a: String| a@)
}

/// Reads `args[i..]` on top of the settings `st`: the settings, or the
/// message of the first error.
pub open spec fn parse_from(args: Seq<Seq<char>>, i: int, st: Settings) -> Result<
    Settings,
    Seq<char>,
>
    decreases args.len() - i,
{
    if i < 0 || i >= args.len() {
        Ok(st)
    } else {
        let a = args[i];
        if a == "--names"@ || a == "-n"@ {
            parse_from(args, i + 1, (Mode::Names, st.1, st.2, st.3, st.4, st.5, st.6))
        } else if a == "--quiet"@ || a == "-q"@ {
            parse_from(args, i + 1, (st.0, st.1, st.2, true, st.4, st.5, st.6))
        } else if a == "--include-junk"@ {
            parse_from(args, i + 1, (st.0, st.1, st.2, st.3, st.4, st.5, true))
        } else if a == "--min-size"@ {
            if i + 1 >= args.len() {
                Err("--min-size requires a value"@)
            } else {
                match size_outcome(args[i + 1]) {
                    Ok(v) => parse_from(args, i + 2, (st.0, st.1, v, st.3, st.4, st.5, st.6)),
                    Err(m) => Err(m),
                }
            }
        } else if a == "--format"@ {
            if i + 1 >= args.len() {
                Err("--format requires a value (plain or csv)"@)
            } else if args[i + 1] == "plain"@ {
                parse_from(args, i + 2, (st.0, st.1, st.2, st.3, OutputFormat::Plain, st.5, st.6))
            } else if args[i + 1] == "csv"@ {
                parse_from(args, i + 2, (st.0, st.1, st.2, st.3, OutputFormat::Csv, st.5, st.6))
            } else {
                Err("Unknown format '"@ + args[i + 1] + "' (use plain or csv)"@)
            }
        } else if a == "--exclude"@ {
            if i + 1 >= args.len() {
                Err("--exclude requires a pattern"@)
            } else {
                parse_from(
                    args,
                    i + 2,
                    (st.0, st.1, st.2, st.3, st.4, st.5.push(args[i + 1]), st.6),
                )
            }
        } else if st.1 is Some {
            Err(USAGE@)
        } else {
            parse_from(args, i + 1, (st.0, Some(a), st.2, st.3, st.4, st.5, st.6))
        }
    }
}

/// What the command line `args` (the program's name first) gives: the
/// settings, or the message of the error.
pub open spec fn args_outcome(args: Seq<Seq<char>>) -> Result<Settings, Seq<char>> {
    match parse_from(args, 1, default_settings()) {
        Ok(st) => if st.1 is Some {
            Ok(st)
        } else {
            Err(USAGE@)
        },
        Err(m) => Err(m),
    }
}

/// Whether the text of `a` is `lit`.
fn text_is(a: &String, lit: &str) -> (r: bool)
    ensures
        r == (a@ == lit@),
{
    let other = String::from_str(lit);
    a.eq(&other)
}

/// The view of an optional text.
pub open spec fn opt_view(o: Option<String>) -> Option<Seq<char>> {
    match o {
        Some(s) => Some(s@),
        None => None,
    }
}

/// Reads the command line `args` (the program's name first): flags
/// `--names`/`-n`, `--quiet`/`-q`, `--include-junk`, `--min-size <size>`,
/// `--format plain|csv`, `--exclude <pattern>` (repeatable), and one
/// directory.
pub fn parse_args(args: &Vec<String>) -> (r: Result<Args, DupyError>)
    ensures
        match r {
            Ok(a) => args_outcome(texts(args@)) == Ok::<Settings, Seq<char>>(settings_of(&a)),
            Err(DupyError::InvalidArguments(m)) => args_outcome(texts(args@)) == Err::<
                Settings,
                Seq<char>,
            >(m@),
            Err(_) => false,
        },
{
    let ghost av = texts(args@);
    let mut mode = Mode::Content;
    let mut dir_arg: Option<String> = None;
    let mut min_size: u64 = 0;
    let mut quiet = false;
    let mut format = OutputFormat::Plain;
    let mut excludes: Vec<String> = Vec::new();
    let mut include_junk = false;
    let n = args.len();
    let mut i: usize = 1;
    proof {
        assert(excludes@.map_values(|e: String| e@) =~= Seq::<Seq<char>>::empty());
    }
    while i < n
        invariant
            1 <= i,
            n == args@.len(),
            av == texts(args@),
            parse_from(av, 1, default_settings()) == parse_from(
                av,
                i as int,
                (
                    mode,
                    opt_view(dir_arg),
                    min_size,
                    quiet,
                    format,
                    excludes@.map_values(|e: String| e@),
                    include_junk,
                ),
            ),
        decreases n - i,
    {
        let ghost st = (
            mode,
            opt_view(dir_arg),
            min_size,
            quiet,
            format,
            excludes@.map_values(|e: String| e@),
            include_junk,
        );
        proof {
            assert(av[i as int] == args@[i as int]@);
            if i + 1 < n {
                assert(av[i + 1] == args@[i + 1]@);
            }
        }
        let a = &args[i];
        if text_is(a, "--names") || text_is(a, "-n") {
            mode = Mode::Names;
        } else if text_is(a, "--quiet") || text_is(a, "-q") {
            quiet = true;
        } else if text_is(a, "--include-junk") {
            include_junk = true;
        } else if text_is(a, "--min-size") {
            i = i + 1;
            if i >= n {
                return Err(DupyError::InvalidArguments(String::from_str("--min-size requires a value")));
            }
            match parse_size(args[i].as_str()) {
                Ok(v) => {
                    min_size = v;
                },
                Err(e) => {
                    return Err(e);
                },
            }
        } else if text_is(a, "--format") {
            i = i + 1;
            if i >= n {
                return Err(
                    DupyError::InvalidArguments(
                        String::from_str("--format requires a value (plain or csv)"),
                    ),
                );
            }
            if text_is(&args[i], "plain") {
                format = OutputFormat::Plain;
            } else if text_is(&args[i], "csv") {
                format = OutputFormat::Csv;
            } else {
                let m = String::from_str("Unknown format '").concat(args[i].as_str()).concat(
                    "' (use plain or csv)",
                );
                return Err(DupyError::InvalidArguments(m));
            }
        } else if text_is(a, "--exclude") {
            i = i + 1;
            if i >= n {
                return Err(
                    DupyError::InvalidArguments(String::from_str("--exclude requires a pattern")),
                );
            }
            let ghost before = excludes@;
            excludes.push(args[i].clone());
            proof {
                assert(excludes@.map_values(|e: String| e@) =~= before.map_values(
                    |e: String| e@,
                ).push(av[i as int]));
            }
        } else {
            if dir_arg.is_some() {
                return Err(DupyError::InvalidArguments(String::from_str(USAGE)));
            }
            dir_arg = Some(a.clone());
        }
        i = i + 1;
    }
    match dir_arg {
        Some(directory) => Ok(
            Args { directory, mode, min_size, quiet, format, excludes, include_junk },
        ),
        None => Err(DupyError::InvalidArguments(String::from_str(USAGE))),
    }
}

/// Reading from place `i` on looks only at the arguments from `i` on.
proof fn lemma_parse_from_reads_tail(a1: Seq<Seq<char>>, a2: Seq<Seq<char>>, i: int, st: Settings)
    requires
        0 <= i,
        a1.len() == a2.len(),
        forall|k: int| i <= k < a1.len() ==> a1[k] == a2[k],
    ensures
        parse_from(a1, i, st) == parse_from(a2, i, st),
    decreases a1.len() - i,
{
    if i < a1.len() {
        lemma_parse_from_reads_tail(a1, a2, i + 1, (st.0, st.1, st.2, true, st.4, st.5, st.6));
        lemma_parse_from_reads_tail(a1, a2, i + 1, (Mode::Names, st.1, st.2, st.3, st.4, st.5, st.6));
        lemma_parse_from_reads_tail(a1, a2, i + 1, (st.0, st.1, st.2, st.3, st.4, st.5, true));
        lemma_parse_from_reads_tail(a1, a2, i + 1, (st.0, Some(a1[i]), st.2, st.3, st.4, st.5, st.6));
        if i + 2 <= a1.len() {
            let v = a1[i + 1];
            match size_outcome(v) {
                Ok(m) => {
                    lemma_parse_from_reads_tail(
                        a1,
                        a2,
                        i + 2,
                        (st.0, st.1, m, st.3, st.4, st.5, st.6),
                    );
                },
                Err(_) => {},
            }
            lemma_parse_from_reads_tail(
                a1,
                a2,
                i + 2,
                (st.0, st.1, st.2, st.3, OutputFormat::Plain, st.5, st.6),
            );
            lemma_parse_from_reads_tail(
                a1,
                a2,
                i + 2,
                (st.0, st.1, st.2, st.3, OutputFormat::Csv, st.5, st.6),
            );
            lemma_parse_from_reads_tail(
                a1,
                a2,
                i + 2,
                (st.0, st.1, st.2, st.3, st.4, st.5.push(v), st.6),
            );
        }
    }
}

/// The texts that the command line reads as flags or options.
proof fn lemma_flag_texts()
    ensures
        "--names"@.len() == 7 && "--names"@[0] == '-' && "--names"@[1] == '-' && "--names"@[2] == 'n',
        "-n"@.len() == 2 && "-n"@[0] == '-' && "-n"@[1] == 'n',
        "--quiet"@.len() == 7 && "--quiet"@[0] == '-' && "--quiet"@[1] == '-' && "--quiet"@[2] == 'q',
        "-q"@.len() == 2 && "-q"@[0] == '-' && "-q"@[1] == 'q',
        "--include-junk"@.len() == 14 && "--include-junk"@[2] == 'i',
        "--min-size"@.len() == 10 && "--min-size"@[2] == 'm',
        "--format"@.len() == 8 && "--format"@[2] == 'f',
        "--exclude"@.len() == 9 && "--exclude"@[2] == 'e',
{
    reveal_strlit("--names");
    reveal_strlit("-n");
    reveal_strlit("--quiet");
    reveal_strlit("-q");
    reveal_strlit("--include-junk");
    reveal_strlit("--min-size");
    reveal_strlit("--format");
    reveal_strlit("--exclude");
}

/// The short and long forms of a flag are read alike: wherever `-q` is read
/// as a flag, `--quiet` in its place gives the same outcome, and so do `-n`
/// and `--names`. Either form sets its setting and reading goes on with the
/// next argument.
pub proof fn lemma_short_and_long_flags(args: Seq<Seq<char>>, i: int, st: Settings)
    requires
        1 <= i < args.len(),
    ensures
        args[i] == "-q"@ ==> parse_from(args, i, st) == parse_from(
            args.update(i, "--quiet"@),
            i,
            st,
        ),
        args[i] == "-n"@ ==> parse_from(args, i, st) == parse_from(
            args.update(i, "--names"@),
            i,
            st,
        ),
        (args[i] == "-q"@ || args[i] == "--quiet"@) ==> parse_from(args, i, st) == parse_from(
            args,
            i + 1,
            (st.0, st.1, st.2, true, st.4, st.5, st.6),
        ),
        (args[i] == "-n"@ || args[i] == "--names"@) ==> parse_from(args, i, st) == parse_from(
            args,
            i + 1,
            (Mode::Names, st.1, st.2, st.3, st.4, st.5, st.6),
        ),
{
    lemma_flag_texts();
    let q = args.update(i, "--quiet"@);
    let n = args.update(i, "--names"@);
    assert(q[i] == "--quiet"@);
    assert(n[i] == "--names"@);
    lemma_parse_from_reads_tail(args, q, i + 1, (st.0, st.1, st.2, true, st.4, st.5, st.6));
    lemma_parse_from_reads_tail(
        args,
        n,
        i + 1,
        (Mode::Names, st.1, st.2, st.3, st.4, st.5, st.6),
    );
}

/// An argument that is no flag or option is the directory, when none is
/// given yet.
proof fn lemma_directory_step(args: Seq<Seq<char>>, i: int, st: Settings)
    requires
        0 <= i < args.len(),
        st.1 is None,
        args[i] != "--names"@,
        args[i] != "-n"@,
        args[i] != "--quiet"@,
        args[i] != "-q"@,
        args[i] != "--include-junk"@,
        args[i] != "--min-size"@,
        args[i] != "--format"@,
        args[i] != "--exclude"@,
    ensures
        parse_from(args, i, st) == parse_from(
            args,
            i + 1,
            (st.0, Some(args[i]), st.2, st.3, st.4, st.5, st.6),
        ),
        i + 1 == args.len() ==> parse_from(args, i + 1, (st.0, Some(args[i]), st.2, st.3, st.4, st.5, st.6)) == Ok::<Settings, Seq<char>>((st.0, Some(args[i]), st.2, st.3, st.4, st.5, st.6)),
{
}

/// `--include-junk` keeps junk files and reading goes on.
proof fn lemma_include_junk_step(args: Seq<Seq<char>>, i: int, st: Settings)
    requires
        0 <= i < args.len(),
        args[i] == "--include-junk"@,
    ensures
        parse_from(args, i, st) == parse_from(
            args,
            i + 1,
            (st.0, st.1, st.2, st.3, st.4, st.5, true),
        ),
        i + 1 == args.len() ==> parse_from(args, i + 1, (st.0, st.1, st.2, st.3, st.4, st.5, true)) == Ok::<Settings, Seq<char>>((st.0, st.1, st.2, st.3, st.4, st.5, true)),
{
    lemma_flag_texts();
}

/// The settings of a command line that gives the directory `d` and, at
/// most, a flag that sets the mode, `quiet` or `include_junk`.
pub open spec fn plain_settings(d: Seq<char>, mode: Mode, quiet: bool, include_junk: bool) -> Settings {
    (mode, Some(d), 0, quiet, OutputFormat::Plain, Seq::empty(), include_junk)
}

/// A directory and one flag, in either order and either form of the flag:
/// `--quiet`/`-q` makes the run quiet, `--names`/`-n` looks for names,
/// `--include-junk` keeps junk files, and every other setting keeps its
/// default. The directory alone gives the defaults.
pub proof fn lemma_flag_and_directory(p: Seq<char>, d: Seq<char>)
    requires
        d != "--names"@,
        d != "-n"@,
        d != "--quiet"@,
        d != "-q"@,
        d != "--include-junk"@,
        d != "--min-size"@,
        d != "--format"@,
        d != "--exclude"@,
    ensures
        args_outcome(seq![p, d]) == Ok::<Settings, Seq<char>>(
            plain_settings(d, Mode::Content, false, false),
        ),
        args_outcome(seq![p, "--quiet"@, d]) == Ok::<Settings, Seq<char>>(
            plain_settings(d, Mode::Content, true, false),
        ),
        args_outcome(seq![p, "-q"@, d]) == Ok::<Settings, Seq<char>>(
            plain_settings(d, Mode::Content, true, false),
        ),
        args_outcome(seq![p, d, "--quiet"@]) == Ok::<Settings, Seq<char>>(
            plain_settings(d, Mode::Content, true, false),
        ),
        args_outcome(seq![p, d, "-q"@]) == Ok::<Settings, Seq<char>>(
            plain_settings(d, Mode::Content, true, false),
        ),
        args_outcome(seq![p, "--names"@, d]) == Ok::<Settings, Seq<char>>(
            plain_settings(d, Mode::Names, false, false),
        ),
        args_outcome(seq![p, "-n"@, d]) == Ok::<Settings, Seq<char>>(
            plain_settings(d, Mode::Names, false, false),
        ),
        args_outcome(seq![p, d, "--names"@]) == Ok::<Settings, Seq<char>>(
            plain_settings(d, Mode::Names, false, false),
        ),
        args_outcome(seq![p, d, "-n"@]) == Ok::<Settings, Seq<char>>(
            plain_settings(d, Mode::Names, false, false),
        ),
        args_outcome(seq![p, "--include-junk"@, d]) == Ok::<Settings, Seq<char>>(
            plain_settings(d, Mode::Content, false, true),
        ),
        args_outcome(seq![p, d, "--include-junk"@]) == Ok::<Settings, Seq<char>>(
            plain_settings(d, Mode::Content, false, true),
        ),
{
    let st0 = default_settings();
    let dq = (Mode::Content, Some(d), 0u64, true, OutputFormat::Plain, Seq::<Seq<char>>::empty(), false);
    let dn = (Mode::Names, Some(d), 0u64, false, OutputFormat::Plain, Seq::<Seq<char>>::empty(), false);
    let dj = (Mode::Content, Some(d), 0u64, false, OutputFormat::Plain, Seq::<Seq<char>>::empty(), true);
    let q0 = (Mode::Content, None, 0u64, true, OutputFormat::Plain, Seq::<Seq<char>>::empty(), false);
    let n0 = (Mode::Names, None, 0u64, false, OutputFormat::Plain, Seq::<Seq<char>>::empty(), false);
    let j0 = (Mode::Content, None, 0u64, false, OutputFormat::Plain, Seq::<Seq<char>>::empty(), true);
    let d0 = (Mode::Content, Some(d), 0u64, false, OutputFormat::Plain, Seq::<Seq<char>>::empty(), false);
    assert(args_outcome(seq![p, d]) == Ok::<Settings, Seq<char>>(d0)) by {
        lemma_directory_step(seq![p, d], 1, st0);
    }
    assert(args_outcome(seq![p, "--quiet"@, d]) == Ok::<Settings, Seq<char>>(dq)) by {
        lemma_short_and_long_flags(seq![p, "--quiet"@, d], 1, st0);
        lemma_directory_step(seq![p, "--quiet"@, d], 2, q0);
    }
    assert(args_outcome(seq![p, "-q"@, d]) == Ok::<Settings, Seq<char>>(dq)) by {
        lemma_short_and_long_flags(seq![p, "-q"@, d], 1, st0);
        lemma_directory_step(seq![p, "-q"@, d], 2, q0);
    }
    assert(args_outcome(seq![p, d, "--quiet"@]) == Ok::<Settings, Seq<char>>(dq)) by {
        lemma_directory_step(seq![p, d, "--quiet"@], 1, st0);
        lemma_short_and_long_flags(seq![p, d, "--quiet"@], 2, d0);
    }
    assert(args_outcome(seq![p, d, "-q"@]) == Ok::<Settings, Seq<char>>(dq)) by {
        lemma_directory_step(seq![p, d, "-q"@], 1, st0);
        lemma_short_and_long_flags(seq![p, d, "-q"@], 2, d0);
    }
    assert(args_outcome(seq![p, "--names"@, d]) == Ok::<Settings, Seq<char>>(dn)) by {
        lemma_short_and_long_flags(seq![p, "--names"@, d], 1, st0);
        lemma_directory_step(seq![p, "--names"@, d], 2, n0);
    }
    assert(args_outcome(seq![p, "-n"@, d]) == Ok::<Settings, Seq<char>>(dn)) by {
        lemma_short_and_long_flags(seq![p, "-n"@, d], 1, st0);
        lemma_directory_step(seq![p, "-n"@, d], 2, n0);
    }
    assert(args_outcome(seq![p, d, "--names"@]) == Ok::<Settings, Seq<char>>(dn)) by {
        lemma_directory_step(seq![p, d, "--names"@], 1, st0);
        lemma_short_and_long_flags(seq![p, d, "--names"@], 2, d0);
    }
    assert(args_outcome(seq![p, d, "-n"@]) == Ok::<Settings, Seq<char>>(dn)) by {
        lemma_directory_step(seq![p, d, "-n"@], 1, st0);
        lemma_short_and_long_flags(seq![p, d, "-n"@], 2, d0);
    }
    assert(args_outcome(seq![p, "--include-junk"@, d]) == Ok::<Settings, Seq<char>>(dj)) by {
        lemma_include_junk_step(seq![p, "--include-junk"@, d], 1, st0);
        lemma_directory_step(seq![p, "--include-junk"@, d], 2, j0);
    }
    assert(args_outcome(seq![p, d, "--include-junk"@]) == Ok::<Settings, Seq<char>>(dj)) by {
        lemma_directory_step(seq![p, d, "--include-junk"@], 1, st0);
        lemma_include_junk_step(seq![p, d, "--include-junk"@], 2, d0);
    }
}

/// The texts that are no flag or option name.
pub open spec fn is_plain_word(d: Seq<char>) -> bool {
    &&& d != "--names"@
    &&& d != "-n"@
    &&& d != "--quiet"@
    &&& d != "-q"@
    &&& d != "--include-junk"@
    &&& d != "--min-size"@
    &&& d != "--format"@
    &&& d != "--exclude"@
}

/// An option and its value before a directory: `--format csv` and
/// `--format plain` choose the report, `--exclude x` adds the pattern `x`,
/// and `--min-size v` sets the size `v` reads as, or gives its error; any
/// other format, or an option with no value after it, is refused. Exactly
/// one directory is wanted: none, or two, is refused with the usage text.
pub proof fn lemma_options_and_directory(p: Seq<char>, d: Seq<char>, e: Seq<char>, x: Seq<char>, v: Seq<char>)
    requires
        is_plain_word(d),
        is_plain_word(e),
    ensures
        args_outcome(seq![p, "--format"@, "csv"@, d]) == Ok::<Settings, Seq<char>>(
            (Mode::Content, Some(d), 0, false, OutputFormat::Csv, Seq::empty(), false),
        ),
        args_outcome(seq![p, "--format"@, "plain"@, d]) == Ok::<Settings, Seq<char>>(
            plain_settings(d, Mode::Content, false, false),
        ),
        x != "csv"@ && x != "plain"@ ==> args_outcome(seq![p, "--format"@, x, d]) is Err,
        args_outcome(seq![p, "--exclude"@, x, d]) == Ok::<Settings, Seq<char>>(
            (Mode::Content, Some(d), 0, false, OutputFormat::Plain, seq![x], false),
        ),
        size_outcome(v) is Ok ==> args_outcome(seq![p, "--min-size"@, v, d]) == Ok::<
            Settings,
            Seq<char>,
        >((Mode::Content, Some(d), size_outcome(v)->Ok_0, false, OutputFormat::Plain, Seq::empty(), false)),
        size_outcome(v) is Err ==> args_outcome(seq![p, "--min-size"@, v, d]) == Err::<
            Settings,
            Seq<char>,
        >(size_outcome(v)->Err_0),
        args_outcome(seq![p, d, "--format"@]) is Err,
        args_outcome(seq![p, d, "--exclude"@]) is Err,
        args_outcome(seq![p, d, "--min-size"@]) is Err,
        args_outcome(seq![p]) == Err::<Settings, Seq<char>>(USAGE@),
        args_outcome(seq![p, d, e]) == Err::<Settings, Seq<char>>(USAGE@),
{
    lemma_flag_texts();
    reveal_strlit("csv");
    reveal_strlit("plain");
    let st0 = default_settings();
    assert(args_outcome(seq![p, "--format"@, "csv"@, d]) == Ok::<Settings, Seq<char>>(
        (Mode::Content, Some(d), 0, false, OutputFormat::Csv, Seq::empty(), false),
    )) by {
        let a = seq![p, "--format"@, "csv"@, d];
        assert(parse_from(a, 1, st0) == parse_from(
            a,
            3,
            (Mode::Content, None, 0, false, OutputFormat::Csv, Seq::empty(), false),
        ));
        lemma_directory_step(a, 3, (Mode::Content, None, 0, false, OutputFormat::Csv, Seq::empty(), false));
    }
    assert(args_outcome(seq![p, "--format"@, "plain"@, d]) == Ok::<Settings, Seq<char>>(
        plain_settings(d, Mode::Content, false, false),
    )) by {
        let a = seq![p, "--format"@, "plain"@, d];
        assert(parse_from(a, 1, st0) == parse_from(a, 3, st0));
        lemma_directory_step(a, 3, st0);
    }
    assert(args_outcome(seq![p, "--exclude"@, x, d]) == Ok::<Settings, Seq<char>>(
        (Mode::Content, Some(d), 0, false, OutputFormat::Plain, seq![x], false),
    )) by {
        let a = seq![p, "--exclude"@, x, d];
        let st1 = (Mode::Content, None, 0u64, false, OutputFormat::Plain, Seq::<Seq<char>>::empty().push(x), false);
        assert(parse_from(a, 1, st0) == parse_from(a, 3, st1));
        lemma_directory_step(a, 3, st1);
        assert(Seq::<Seq<char>>::empty().push(x) =~= seq![x]);
    }
    if size_outcome(v) is Ok {
        let a = seq![p, "--min-size"@, v, d];
        let st1 = (Mode::Content, None, size_outcome(v)->Ok_0, false, OutputFormat::Plain, Seq::<Seq<char>>::empty(), false);
        assert(parse_from(a, 1, st0) == parse_from(a, 3, st1));
        lemma_directory_step(a, 3, st1);
    }
    assert(args_outcome(seq![p, d, e]) == Err::<Settings, Seq<char>>(USAGE@)) by {
        let a = seq![p, d, e];
        lemma_directory_step(a, 1, st0);
    }
    assert(args_outcome(seq![p, d, "--format"@]) is Err) by {
        lemma_directory_step(seq![p, d, "--format"@], 1, st0);
    }
    assert(args_outcome(seq![p, d, "--exclude"@]) is Err) by {
        lemma_directory_step(seq![p, d, "--exclude"@], 1, st0);
    }
    assert(args_outcome(seq![p, d, "--min-size"@]) is Err) by {
        lemma_directory_step(seq![p, d, "--min-size"@], 1, st0);
    }
}

} // verus!
