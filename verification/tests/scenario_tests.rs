//! End-to-end scenarios through the library's decision pipeline: classify the
//! arguments, reduce the (canned) symbol-dumper output, resolve the requests,
//! and assemble the final linker argument list.

use wrap_symbols::classify::classify_args;
use wrap_symbols::resolve::resolve_requests;
use wrap_symbols::resolve::synthesis_symbols;
use wrap_symbols::resolve::unused_symbols;
use wrap_symbols::scan::symbols_in_output;
use wrap_symbols::synth::final_link_args;
use wrap_symbols::synth::make_stub_object_path;
use wrap_symbols::synth::make_stub_source_path;
use wrap_symbols::synth::plan_stub;
use wrap_symbols::synth::stub_link_contribution;
use wrap_symbols::synth::StubPlan;

fn strings(v: &[&str]) -> Vec<String> {
    v.iter().map(|s| s.to_string()).collect()
}

#[test]
fn wrapped_symbol_referenced_in_object() {
    // args = ["--wrap=malloc", "a.o", "-o", "out"]; a.o's symbol table holds
    // `malloc` but not `__wrap_malloc`.
    let args = strings(&["--wrap=malloc", "a.o", "-o", "out"]);
    let c = classify_args(&args);
    assert_eq!(c.wrap_symbols, strings(&["malloc"]));
    assert_eq!(c.object_files, strings(&["a.o"]));

    let dump = "0000000000000010 T main\n                 U malloc\n";
    let a_o_symbols = symbols_in_output(dump);
    let t = resolve_requests(&c.wrap_symbols, &vec![a_o_symbols]);
    let to_synthesize = synthesis_symbols(&t);
    assert_eq!(to_synthesize, strings(&["malloc"]));

    assert_eq!(make_stub_source_path("malloc"), "/tmp/__wrap_malloc.c".to_string());
    assert_eq!(make_stub_object_path("malloc"), "/tmp/__wrap_malloc.o".to_string());

    let mut generated = Vec::new();
    for sym in &to_synthesize {
        if let Some(path) = stub_link_contribution(sym, true) {
            generated.push(path);
        }
    }
    let final_args = final_link_args(&args, &generated);
    assert_eq!(
        final_args,
        strings(&["--wrap=malloc", "a.o", "-o", "out", "/tmp/__wrap_malloc.o"])
    );
}

#[test]
fn unreferenced_symbol_only_warns() {
    // args = ["--wrap=foo", "b.o"]; b.o holds neither `foo` nor `__wrap_foo`.
    let args = strings(&["--wrap=foo", "b.o"]);
    let c = classify_args(&args);
    let dump = "0000000000000000 T main\n                 U puts\n";
    let b_o_symbols = symbols_in_output(dump);
    let t = resolve_requests(&c.wrap_symbols, &vec![b_o_symbols]);
    assert_eq!(synthesis_symbols(&t), strings(&[]));
    assert_eq!(unused_symbols(&t), strings(&["foo"]));
    let final_args = final_link_args(&args, &Vec::new());
    assert_eq!(final_args, args);
}

#[test]
fn no_wrap_tokens_link_verbatim() {
    // args = ["a.o", "-o", "out"]: no wrap requests, the linker is invoked on
    // the unmodified argument list and nothing is scanned or synthesized.
    let args = strings(&["a.o", "-o", "out"]);
    let c = classify_args(&args);
    assert!(c.wrap_symbols.is_empty());
    let final_args = final_link_args(&args, &Vec::new());
    assert_eq!(final_args, args);
}

#[test]
fn populated_cache_skips_recompilation() {
    // A second run for the same symbol finds the object already on disk and
    // plans no compilation at all.
    let first_run = plan_stub(false);
    assert_eq!(first_run, StubPlan::Compile);
    let second_run = plan_stub(true);
    assert_eq!(second_run, StubPlan::Reuse);
}
