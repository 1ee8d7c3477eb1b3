use wrap_symbols::classify::classify_args;
use wrap_symbols::classify::is_library_file;
use wrap_symbols::classify::parse_wrap_arg;
use wrap_symbols::synth::final_link_args;

fn strings(v: &[&str]) -> Vec<String> {
    v.iter().map(|s| s.to_string()).collect()
}

#[test]
fn recognizes_library_suffixes() {
    assert!(is_library_file("a.o"));
    assert!(is_library_file("libfoo.a"));
    assert!(is_library_file("libbar.so"));
    assert!(is_library_file("libbaz.dylib"));
    assert!(is_library_file(".o"));
    assert!(is_library_file("dir/with/path/x.o"));
}

#[test]
fn rejects_other_filenames() {
    assert!(!is_library_file("main.c"));
    assert!(!is_library_file("-o"));
    assert!(!is_library_file("out"));
    assert!(!is_library_file(""));
    assert!(!is_library_file("a.obj"));
    assert!(!is_library_file("o"));
}

#[test]
fn parses_wrap_arguments() {
    assert_eq!(parse_wrap_arg("--wrap=malloc"), Some("malloc".to_string()));
    assert_eq!(parse_wrap_arg("--wrap="), Some("".to_string()));
    assert_eq!(parse_wrap_arg("--wrap=__wrap_x"), Some("__wrap_x".to_string()));
    assert_eq!(parse_wrap_arg("a.o"), None);
    assert_eq!(parse_wrap_arg("--wrap"), None);
    assert_eq!(parse_wrap_arg("-wrap=x"), None);
}

#[test]
fn classifies_mixed_arguments() {
    let args = strings(&["--wrap=malloc", "a.o", "-o", "out"]);
    let c = classify_args(&args);
    assert_eq!(c.wrap_symbols, strings(&["malloc"]));
    assert_eq!(c.object_files, strings(&["a.o"]));
    assert_eq!(c.other_args, strings(&["-o", "out"]));
    assert_eq!(c.wrap_args, strings(&["--wrap=malloc"]));
}

#[test]
fn classification_keeps_order() {
    let args = strings(&["x.a", "--wrap=a", "-L.", "y.o", "--wrap=b", "z.dylib", "-v"]);
    let c = classify_args(&args);
    assert_eq!(c.wrap_symbols, strings(&["a", "b"]));
    assert_eq!(c.object_files, strings(&["x.a", "y.o", "z.dylib"]));
    assert_eq!(c.other_args, strings(&["-L.", "-v"]));
    assert_eq!(c.wrap_args, strings(&["--wrap=a", "--wrap=b"]));
}

#[test]
fn wrap_prefix_wins_over_suffix() {
    // An argument that looks like both a wrap request and a library file is a
    // wrap request: the prefix is checked first.
    let args = strings(&["--wrap=x.o"]);
    let c = classify_args(&args);
    assert_eq!(c.wrap_symbols, strings(&["x.o"]));
    assert!(c.object_files.is_empty());
    assert!(c.other_args.is_empty());
}

#[test]
fn no_wrap_tokens_means_verbatim_link() {
    let args = strings(&["a.o", "-o", "out"]);
    let c = classify_args(&args);
    assert!(c.wrap_symbols.is_empty());
    assert!(c.wrap_args.is_empty());
    let final_args = final_link_args(&args, &Vec::new());
    assert_eq!(final_args, args);
}
