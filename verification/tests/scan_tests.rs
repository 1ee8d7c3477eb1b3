use wrap_symbols::scan::split_fields;
use wrap_symbols::scan::split_lines;
use wrap_symbols::scan::symbols_in_output;

fn strings(v: &[&str]) -> Vec<String> {
    v.iter().map(|s| s.to_string()).collect()
}

#[test]
fn splits_fields_on_blanks() {
    assert_eq!(split_fields("0000000000000000 T malloc"), strings(&["0000000000000000", "T", "malloc"]));
    assert_eq!(split_fields("  a  b "), strings(&["a", "b"]));
    assert_eq!(split_fields("\ta\tb"), strings(&["a", "b"]));
    assert_eq!(split_fields(""), strings(&[]));
    assert_eq!(split_fields("   "), strings(&[]));
    assert_eq!(split_fields("one"), strings(&["one"]));
}

#[test]
fn splits_lines_on_newlines() {
    assert_eq!(split_lines("a\nb"), strings(&["a", "b"]));
    assert_eq!(split_lines("a\nb\n"), strings(&["a", "b", ""]));
    assert_eq!(split_lines(""), strings(&[""]));
    assert_eq!(split_lines("\n"), strings(&["", ""]));
}

#[test]
fn reads_symbols_from_dump_output() {
    let out = "0000000000000000 T malloc\n                 U free\n";
    assert_eq!(symbols_in_output(out), strings(&["malloc", "free"]));
}

#[test]
fn skips_lines_with_fewer_than_two_fields() {
    let out = "justone\n\n0000 T foo\n   \n";
    assert_eq!(symbols_in_output(out), strings(&["foo"]));
}

#[test]
fn carriage_returns_do_not_join_fields() {
    let out = "0000\tT\tbar\r\n0001 U baz\r\n";
    assert_eq!(symbols_in_output(out), strings(&["bar", "baz"]));
}

#[test]
fn empty_output_reports_no_symbols() {
    assert_eq!(symbols_in_output(""), strings(&[]));
}
