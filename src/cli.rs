//! Reading the command line:
//! `<program> [<path>] [--find <substring>] [--to_file <file>] [--in_file <key>] [--sort]`.
use vstd::prelude::*;
use crate::text::{empty_string, str_eq};
use crate::postprocess::Settings;

verus! {

/// What the command line asks for.
pub struct CliOptions {
    /// Directory to walk; `./` when none is given.
    pub start_path: String,
    /// Substring names must contain; empty when none is given.
    pub target_substring: String,
    /// File to write the report to; the console when `None`.
    pub output_file: Option<String>,
    pub settings: Settings,
}

/// The flags that take a value.
pub open spec fn takes_value(a: Seq<char>) -> bool {
    a == "--find"@ || a == "--to_file"@ || a == "--in_file"@
}

/// Any flag the command line knows.
pub open spec fn is_flag(a: Seq<char>) -> bool {
    takes_value(a) || a == "--sort"@
}

/// Position of the first flag: the path may be left out, and then the flags
/// start right after the program's name.
pub open spec fn flags_start(args: Seq<Seq<char>>) -> int {
    if args.len() >= 2 && is_flag(args[1]) {
        1
    } else {
        2
    }
}

/// Every flag that takes a value has one after it.
pub open spec fn values_present(args: Seq<Seq<char>>) -> bool {
    forall|i: int|
        flags_start(args) <= i < args.len() && takes_value(#[trigger] args[i]) ==> i + 1
            < args.len()
}

/// The value after the last `flag` at a position in `from..k`.
pub open spec fn last_value(args: Seq<Seq<char>>, flag: Seq<char>, from: int, k: int) -> Option<
    Seq<char>,
>
    decreases k - from,
{
    if k <= from {
        None
    } else if args[k - 1] == flag {
        Some(args[k])
    } else {
        last_value(args, flag, from, k - 1)
    }
}

/// `flag` stands at some position in `from..k`.
pub open spec fn has_flag(args: Seq<Seq<char>>, flag: Seq<char>, from: int, k: int) -> bool {
    exists|i: int| from <= i < k && #[trigger] args[i] == flag
}

pub open spec fn string_views(s: Seq<String>) -> Seq<Seq<char>> {
    s.map_values(|a: String| a@)
}

pub open spec fn option_view(o: Option<String>) -> Option<Seq<char>> {
    match o {
        Some(s) => Some(s@),
        None => None,
    }
}

pub open spec fn or_empty(o: Option<Seq<char>>) -> Seq<char> {
    match o {
        Some(s) => s,
        None => Seq::empty(),
    }
}

/// Whether `arg` is one of the flags.
fn is_flag_arg(arg: &str) -> (r: bool)
    ensures
        r == is_flag(arg@),
{
    str_eq(arg, "--find") || str_eq(arg, "--to_file") || str_eq(arg, "--in_file") || str_eq(
        arg,
        "--sort",
    )
}

/// The options that `args` (with the program's name first) asks for: an
/// optional path, then flags. A flag may appear again; the last one wins.
pub fn get_directory_from_cli_args(args: &Vec<String>) -> (r: CliOptions)
    requires
        values_present(string_views(args@)),
    ensures
        ({
            let a = string_views(args@);
            let n = a.len() as int;
            let first = flags_start(a);
            &&& r.start_path@ == if first == 1 || n < 2 {
                "./"@
            } else {
                a[1]
            }
            &&& r.target_substring@ == or_empty(last_value(a, "--find"@, first, n))
            &&& option_view(r.output_file) == last_value(a, "--to_file"@, first, n)
            &&& r.settings.look_for_key_entry_in_files == last_value(a, "--in_file"@, first, n) is Some
            &&& r.settings.key_in_file@ == or_empty(last_value(a, "--in_file"@, first, n))
            &&& r.settings.sort_files == has_flag(a, "--sort"@, first, n)
        }),
{
    let ghost a = string_views(args@);
    let mut start_path = empty_string();
    let mut first: usize = 2;
    if args.len() < 2 {
        start_path.append("./");
    } else if is_flag_arg(args[1].as_str()) {
        start_path.append("./");
        first = 1;
    } else {
        start_path = args[1].clone();
    }
    let mut target_substring = empty_string();
    let mut output_file: Option<String> = None;
    let mut look_for_key_entry_in_files = false;
    let mut key_in_file = empty_string();
    let mut sort_files = false;
    let mut i: usize = first;
    while i < args.len()
        invariant
            a == string_views(args@),
            values_present(a),
            first as int == flags_start(a),
            first <= i,
            args@.len() < 2 ==> i == 2,
            args@.len() >= 2 ==> i <= args@.len(),
            start_path@ == if first == 1 || args@.len() < 2 {
                "./"@
            } else {
                a[1]
            },
            target_substring@ == or_empty(last_value(a, "--find"@, first as int, i as int)),
            option_view(output_file) == last_value(a, "--to_file"@, first as int, i as int),
            look_for_key_entry_in_files == last_value(a, "--in_file"@, first as int, i as int) is Some,
            key_in_file@ == or_empty(last_value(a, "--in_file"@, first as int, i as int)),
            sort_files == has_flag(a, "--sort"@, first as int, i as int),
        decreases args@.len() - i,
    {
        let arg = args[i].as_str();
        assert(a[i as int] == arg@);
        if str_eq(arg, "--find") {
            target_substring = args[i + 1].clone();
        }
        if str_eq(arg, "--to_file") {
            output_file = Some(args[i + 1].clone());
        }
        if str_eq(arg, "--in_file") {
            look_for_key_entry_in_files = true;
            key_in_file = args[i + 1].clone();
        }
        if str_eq(arg, "--sort") {
            sort_files = true;
        }
        proof {
            if a[i as int] == "--sort"@ {
                assert(has_flag(a, "--sort"@, first as int, i + 1));
            } else if has_flag(a, "--sort"@, first as int, i + 1) {
                let w = choose|w: int| first <= w < i + 1 && #[trigger] a[w] == "--sort"@;
                assert(has_flag(a, "--sort"@, first as int, i as int)) by {
                    assert(w < i);
                }
            }
        }
        i = i + 1;
    }
    proof {
        assert(a.len() == args@.len());
        if args@.len() >= 2 {
            assert(i == args@.len());
        }
    }
    CliOptions {
        start_path,
        target_substring,
        output_file,
        settings: Settings { sort_files, look_for_key_entry_in_files, key_in_file },
    }
}

} // verus!
