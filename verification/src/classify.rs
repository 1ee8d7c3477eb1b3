//! Argument classification: partitioning the raw linker argument vector into
//! wrap-symbol requests, input artifact paths, and passthrough arguments.
//!
//! Each argument is classified by a fixed priority: a `--wrap=` prefix wins,
//! then an object/archive/shared-library filename suffix, and everything else
//! is passed through untouched.

use crate::strutil::has_prefix;
use crate::strutil::has_suffix;
use crate::strutil::str_has_prefix;
use crate::strutil::str_has_suffix;
use crate::strutil::substring_copy;
use vstd::prelude::*;
use vstd::string::StrSliceExecFns;

verus! {

/// The marker that turns an argument into a wrap-symbol request.
pub open spec fn wrap_marker() -> Seq<char> {
    "--wrap="@
}

/// An argument requests a wrap symbol when it begins with `--wrap=`.
pub open spec fn is_wrap_arg(a: Seq<char>) -> bool {
    has_prefix(a, wrap_marker())
}

/// The symbol name requested by a `--wrap=` argument: everything after the marker.
pub open spec fn wrap_symbol_of(a: Seq<char>) -> Seq<char>
    recommends
        is_wrap_arg(a),
{
    a.subrange(wrap_marker().len() as int, a.len() as int)
}

/// A filename counts as a linker input artifact by its suffix.
pub open spec fn is_library_name(a: Seq<char>) -> bool {
    ||| has_suffix(a, ".o"@)
    ||| has_suffix(a, ".a"@)
    ||| has_suffix(a, ".so"@)
    ||| has_suffix(a, ".dylib"@)
}

/// Whether an argument names an object, archive or shared-library file.
pub fn is_library_file(filename: &str) -> (r: bool)
    ensures
        r == is_library_name(filename@),
{
    str_has_suffix(filename, ".o") || str_has_suffix(filename, ".a") || str_has_suffix(
        filename,
        ".so",
    ) || str_has_suffix(filename, ".dylib")
}

/// The requested symbol name, when the argument is a `--wrap=` request.
pub fn parse_wrap_arg(arg: &str) -> (r: Option<String>)
    ensures
        is_wrap_arg(arg@) ==> r is Some && r->0@ == wrap_symbol_of(arg@),
        !is_wrap_arg(arg@) ==> r is None,
{
    if str_has_prefix(arg, "--wrap=") {
        proof {
            reveal_strlit("--wrap=");
        }
        let sym = substring_copy(arg, 7, arg.unicode_len());
        Some(sym)
    } else {
        None
    }
}

/// The wrap-symbol names extracted from the argument vector, in order.
pub open spec fn wrap_symbols_of(args: Seq<Seq<char>>) -> Seq<Seq<char>>
    decreases args.len(),
{
    if args.len() == 0 {
        Seq::empty()
    } else {
        let rest = wrap_symbols_of(args.drop_last());
        if is_wrap_arg(args.last()) {
            rest.push(wrap_symbol_of(args.last()))
        } else {
            rest
        }
    }
}

/// The original `--wrap=` argument strings, in order.
pub open spec fn wrap_args_of(args: Seq<Seq<char>>) -> Seq<Seq<char>>
    decreases args.len(),
{
    if args.len() == 0 {
        Seq::empty()
    } else {
        let rest = wrap_args_of(args.drop_last());
        if is_wrap_arg(args.last()) {
            rest.push(args.last())
        } else {
            rest
        }
    }
}

/// The input artifact paths, in order: arguments that are not wrap requests
/// but carry a recognized filename suffix.
pub open spec fn artifacts_of(args: Seq<Seq<char>>) -> Seq<Seq<char>>
    decreases args.len(),
{
    if args.len() == 0 {
        Seq::empty()
    } else {
        let rest = artifacts_of(args.drop_last());
        if !is_wrap_arg(args.last()) && is_library_name(args.last()) {
            rest.push(args.last())
        } else {
            rest
        }
    }
}

/// The passthrough arguments, in order: neither wrap requests nor artifacts.
pub open spec fn passthrough_of(args: Seq<Seq<char>>) -> Seq<Seq<char>>
    decreases args.len(),
{
    if args.len() == 0 {
        Seq::empty()
    } else {
        let rest = passthrough_of(args.drop_last());
        if !is_wrap_arg(args.last()) && !is_library_name(args.last()) {
            rest.push(args.last())
        } else {
            rest
        }
    }
}

/// The four ordered collections produced by argument classification.
pub struct ClassifiedArgs {
    /// Symbol names extracted from `--wrap=` arguments, in order of appearance.
    pub wrap_symbols: Vec<String>,
    /// Arguments naming object/archive/shared-library inputs.
    pub object_files: Vec<String>,
    /// Every other argument, to be handed to the linker untouched.
    pub other_args: Vec<String>,
    /// The original `--wrap=` argument strings.
    pub wrap_args: Vec<String>,
}

/// Partition the argument vector (without the program name) into the four
/// collections, each keeping the arguments' original relative order.
pub fn classify_args(args: &Vec<String>) -> (r: ClassifiedArgs)
    ensures
        r.wrap_symbols.deep_view() == wrap_symbols_of(args.deep_view()),
        r.object_files.deep_view() == artifacts_of(args.deep_view()),
        r.other_args.deep_view() == passthrough_of(args.deep_view()),
        r.wrap_args.deep_view() == wrap_args_of(args.deep_view()),
{
    let ghost dv = args.deep_view();
    let mut wrap_symbols: Vec<String> = Vec::new();
    let mut object_files: Vec<String> = Vec::new();
    let mut other_args: Vec<String> = Vec::new();
    let mut wrap_args: Vec<String> = Vec::new();
    let n = args.len();
    let mut i: usize = 0;
    while i < n
        invariant
            n == args.len(),
            dv == args.deep_view(),
            i <= n,
            wrap_symbols.deep_view() == wrap_symbols_of(dv.take(i as int)),
            object_files.deep_view() == artifacts_of(dv.take(i as int)),
            other_args.deep_view() == passthrough_of(dv.take(i as int)),
            wrap_args.deep_view() == wrap_args_of(dv.take(i as int)),
        decreases n - i,
    {
        let arg = &args[i];
        proof {
            assert(dv.take(i + 1 as int).drop_last() =~= dv.take(i as int));
            assert(dv.take(i + 1 as int).last() == arg@);
        }
        match parse_wrap_arg(arg.as_str()) {
            Some(sym) => {
                let ghost pre = wrap_symbols.deep_view();
                wrap_symbols.push(sym);
                wrap_args.push(arg.clone());
                proof {
                    assert(wrap_symbols.deep_view() =~= pre.push(wrap_symbol_of(arg@)));
                    assert(wrap_args.deep_view() =~= wrap_args_of(dv.take(i as int)).push(arg@));
                    assert(object_files.deep_view() == artifacts_of(dv.take(i + 1 as int)));
                    assert(other_args.deep_view() == passthrough_of(dv.take(i + 1 as int)));
                }
            },
            None => {
                if is_library_file(arg.as_str()) {
                    object_files.push(arg.clone());
                    proof {
                        assert(object_files.deep_view() =~= artifacts_of(dv.take(i as int)).push(
                            arg@,
                        ));
                    }
                } else {
                    other_args.push(arg.clone());
                    proof {
                        assert(other_args.deep_view() =~= passthrough_of(dv.take(i as int)).push(
                            arg@,
                        ));
                    }
                }
            },
        }
        i += 1;
    }
    proof {
        assert(dv.take(n as int) =~= dv);
    }
    ClassifiedArgs { wrap_symbols, object_files, other_args, wrap_args }
}

/// Every argument lands in exactly one category: the wrap requests, the
/// artifacts and the passthrough arguments together partition the vector, and
/// each wrap request yields exactly one symbol name.
pub proof fn lemma_classification_partitions(args: Seq<Seq<char>>)
    ensures
        wrap_symbols_of(args).len() + artifacts_of(args).len() + passthrough_of(args).len()
            == args.len(),
        wrap_args_of(args).len() == wrap_symbols_of(args).len(),
    decreases args.len(),
{
    if args.len() > 0 {
        lemma_classification_partitions(args.drop_last());
    }
}

/// With no `--wrap=` argument present, classification yields no wrap requests,
/// so the tool hands the original argument list to the linker verbatim and
/// never scans, resolves, or synthesizes anything.
pub proof fn lemma_no_wrap_means_verbatim(args: Seq<Seq<char>>)
    requires
        forall|i: int| 0 <= i < args.len() ==> !is_wrap_arg(args[i]),
    ensures
        wrap_symbols_of(args).len() == 0,
        wrap_args_of(args).len() == 0,
    decreases args.len(),
{
    if args.len() > 0 {
        assert(forall|i: int|
            0 <= i < args.drop_last().len() ==> !is_wrap_arg(args.drop_last()[i]));
        lemma_no_wrap_means_verbatim(args.drop_last());
    }
}

} // verus!
