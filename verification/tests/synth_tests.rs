use wrap_symbols::synth::final_link_args;
use wrap_symbols::synth::make_stub_object_path;
use wrap_symbols::synth::make_stub_source_path;
use wrap_symbols::synth::make_stub_source_text;
use wrap_symbols::synth::plan_stub;
use wrap_symbols::synth::stub_link_contribution;
use wrap_symbols::synth::StubPlan;

fn strings(v: &[&str]) -> Vec<String> {
    v.iter().map(|s| s.to_string()).collect()
}

#[test]
fn stub_paths_are_deterministic() {
    assert_eq!(make_stub_source_path("malloc"), "/tmp/__wrap_malloc.c".to_string());
    assert_eq!(make_stub_object_path("malloc"), "/tmp/__wrap_malloc.o".to_string());
    assert_eq!(make_stub_source_path("foo"), "/tmp/__wrap_foo.c".to_string());
    assert_eq!(make_stub_object_path("foo"), "/tmp/__wrap_foo.o".to_string());
}

#[test]
fn stub_source_is_a_weak_forwarder() {
    let expected = "void __wrap_malloc() __attribute__((weak)) {\n    \
                    extern void __real_malloc();\n    __real_malloc();\n}\n";
    assert_eq!(make_stub_source_text("malloc"), expected.to_string());
}

#[test]
fn existing_object_is_reused_without_compiling() {
    assert_eq!(plan_stub(true), StubPlan::Reuse);
    assert_eq!(plan_stub(false), StubPlan::Compile);
}

#[test]
fn failed_compilation_contributes_no_object() {
    assert_eq!(
        stub_link_contribution("malloc", true),
        Some("/tmp/__wrap_malloc.o".to_string())
    );
    assert_eq!(stub_link_contribution("malloc", false), None);
}

#[test]
fn generated_objects_are_appended_after_original_args() {
    let original = strings(&["--wrap=malloc", "a.o", "-o", "out"]);
    let generated = strings(&["/tmp/__wrap_malloc.o"]);
    let final_args = final_link_args(&original, &generated);
    assert_eq!(
        final_args,
        strings(&["--wrap=malloc", "a.o", "-o", "out", "/tmp/__wrap_malloc.o"])
    );
}

#[test]
fn empty_generation_leaves_args_unchanged() {
    let original = strings(&["a.o", "-o", "out"]);
    let final_args = final_link_args(&original, &Vec::new());
    assert_eq!(final_args, original);
}
