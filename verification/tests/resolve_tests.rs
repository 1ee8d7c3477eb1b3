use wrap_symbols::resolve::decide;
use wrap_symbols::resolve::make_wrap_name;
use wrap_symbols::resolve::new_table;
use wrap_symbols::resolve::resolve_requests;
use wrap_symbols::resolve::synthesis_symbols;
use wrap_symbols::resolve::unused_symbols;
use wrap_symbols::resolve::WrapAction;

fn strings(v: &[&str]) -> Vec<String> {
    v.iter().map(|s| s.to_string()).collect()
}

#[test]
fn builds_wrap_names() {
    assert_eq!(make_wrap_name("malloc"), "__wrap_malloc".to_string());
    assert_eq!(make_wrap_name(""), "__wrap_".to_string());
}

#[test]
fn duplicate_requests_collapse_to_one_record() {
    let t = new_table(&strings(&["m", "m", "n", "m"]));
    assert_eq!(t.entries.len(), 2);
    assert_eq!(t.entries[0].name, "m".to_string());
    assert_eq!(t.entries[1].name, "n".to_string());
    assert_eq!(t.entries[0].wrapped_name, "__wrap_m".to_string());
    assert!(!t.entries[0].wrapper_present);
    assert!(!t.entries[0].original_referenced);
    assert!(!t.entries[1].wrapper_present);
    assert!(!t.entries[1].original_referenced);
}

#[test]
fn records_bare_and_wrapped_observations() {
    let mut t = new_table(&strings(&["malloc"]));
    t.record_symbols(&strings(&["free", "malloc"]));
    assert!(t.entries[0].original_referenced);
    assert!(!t.entries[0].wrapper_present);
    t.record_symbols(&strings(&["__wrap_malloc"]));
    assert!(t.entries[0].original_referenced);
    assert!(t.entries[0].wrapper_present);
}

#[test]
fn flags_are_monotonic_across_artifacts() {
    let mut t = new_table(&strings(&["x"]));
    t.record_artifacts(&vec![strings(&["x"]), strings(&["y"]), strings(&[])]);
    assert!(t.entries[0].original_referenced);
    assert!(!t.entries[0].wrapper_present);
}

#[test]
fn scan_order_does_not_change_flags() {
    let a = strings(&["malloc", "free"]);
    let b = strings(&["__wrap_puts", "puts"]);
    let c = strings(&["other"]);
    let t1 = resolve_requests(
        &strings(&["malloc", "puts", "ghost"]),
        &vec![a.clone(), b.clone(), c.clone()],
    );
    let t2 = resolve_requests(&strings(&["malloc", "puts", "ghost"]), &vec![c, b, a]);
    assert_eq!(t1.entries.len(), t2.entries.len());
    for (e1, e2) in t1.entries.iter().zip(t2.entries.iter()) {
        assert_eq!(e1.name, e2.name);
        assert_eq!(e1.wrapper_present, e2.wrapper_present);
        assert_eq!(e1.original_referenced, e2.original_referenced);
    }
}

#[test]
fn decision_table_matches_policy() {
    assert_eq!(decide(true, true), WrapAction::AlreadyWrapped);
    assert_eq!(decide(true, false), WrapAction::AlreadyWrapped);
    assert_eq!(decide(false, true), WrapAction::Synthesize);
    assert_eq!(decide(false, false), WrapAction::WarnUnused);
}

#[test]
fn wrapper_present_suppresses_synthesis() {
    // The wrapper is defined somewhere and the original is also referenced:
    // nothing is synthesized for that symbol.
    let t = resolve_requests(
        &strings(&["malloc"]),
        &vec![strings(&["__wrap_malloc", "malloc"])],
    );
    assert!(t.entries[0].wrapper_present);
    assert!(t.entries[0].original_referenced);
    assert_eq!(synthesis_symbols(&t), strings(&[]));
    assert_eq!(unused_symbols(&t), strings(&[]));
}

#[test]
fn referenced_without_wrapper_needs_synthesis() {
    let t = resolve_requests(&strings(&["malloc"]), &vec![strings(&["malloc"])]);
    assert_eq!(synthesis_symbols(&t), strings(&["malloc"]));
    assert_eq!(unused_symbols(&t), strings(&[]));
}

#[test]
fn unobserved_symbol_draws_warning_only() {
    let t = resolve_requests(&strings(&["foo"]), &vec![strings(&["bar", "baz"])]);
    assert!(!t.entries[0].wrapper_present);
    assert!(!t.entries[0].original_referenced);
    assert_eq!(synthesis_symbols(&t), strings(&[]));
    assert_eq!(unused_symbols(&t), strings(&["foo"]));
}

#[test]
fn synthesis_list_has_one_entry_per_symbol() {
    // The same symbol requested many times and referenced in many artifacts
    // still yields a single synthesis entry.
    let t = resolve_requests(
        &strings(&["m", "m", "n"]),
        &vec![strings(&["m"]), strings(&["m", "n"])],
    );
    assert_eq!(synthesis_symbols(&t), strings(&["m", "n"]));
}
