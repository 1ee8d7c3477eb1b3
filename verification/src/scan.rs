//! Reduction of symbol-dumper output to symbol names.
//!
//! The dump is line-oriented text: fields are separated by blanks, and on any
//! line with at least two fields the last field is the symbol name. Lines with
//! fewer than two fields are skipped, not errors.

use crate::strutil::substring_copy;
use vstd::prelude::*;
use vstd::string::StrSliceExecFns;

verus! {

/// Field separators inside one line of dump output.
pub open spec fn is_field_sep(c: char) -> bool {
    c == ' ' || c == '\t' || c == '\r'
}

/// Executable test for a field separator.
pub fn field_sep(c: char) -> (r: bool)
    ensures
        r == is_field_sep(c),
{
    c == ' ' || c == '\t' || c == '\r'
}

/// Left-to-right field splitting: `cur` is the (possibly empty) field read so
/// far, `acc` the fields already completed.
pub open spec fn fields_rec(s: Seq<char>, cur: Seq<char>, acc: Seq<Seq<char>>) -> Seq<Seq<char>>
    decreases s.len(),
{
    if s.len() == 0 {
        if cur.len() > 0 {
            acc.push(cur)
        } else {
            acc
        }
    } else if is_field_sep(s[0]) {
        fields_rec(
            s.drop_first(),
            Seq::empty(),
            if cur.len() > 0 {
                acc.push(cur)
            } else {
                acc
            },
        )
    } else {
        fields_rec(s.drop_first(), cur.push(s[0]), acc)
    }
}

/// The blank-separated fields of one line, empty fields dropped.
pub open spec fn fields_of(line: Seq<char>) -> Seq<Seq<char>> {
    fields_rec(line, Seq::empty(), Seq::empty())
}

/// Left-to-right line splitting on `'\n'`: `cur` is the line read so far,
/// `acc` the lines already completed. The trailing segment always counts.
pub open spec fn lines_rec(s: Seq<char>, cur: Seq<char>, acc: Seq<Seq<char>>) -> Seq<Seq<char>>
    decreases s.len(),
{
    if s.len() == 0 {
        acc.push(cur)
    } else if s[0] == '\n' {
        lines_rec(s.drop_first(), Seq::empty(), acc.push(cur))
    } else {
        lines_rec(s.drop_first(), cur.push(s[0]), acc)
    }
}

/// The lines of the dump output, split on newline characters.
pub open spec fn lines_of(out: Seq<char>) -> Seq<Seq<char>> {
    lines_rec(out, Seq::empty(), Seq::empty())
}

/// The symbol named by one line: its last field, when it has at least two.
pub open spec fn line_symbol(line: Seq<char>) -> Option<Seq<char>> {
    let fs = fields_of(line);
    if fs.len() >= 2 {
        Some(fs.last())
    } else {
        None
    }
}

/// The symbols named by a sequence of lines, in line order.
pub open spec fn symbols_of_lines(lines: Seq<Seq<char>>) -> Seq<Seq<char>>
    decreases lines.len(),
{
    if lines.len() == 0 {
        Seq::empty()
    } else {
        let rest = symbols_of_lines(lines.drop_last());
        match line_symbol(lines.last()) {
            Some(s) => rest.push(s),
            None => rest,
        }
    }
}

/// Every symbol name the dump output reports, in line order.
pub open spec fn symbols_of_output(out: Seq<char>) -> Seq<Seq<char>> {
    symbols_of_lines(lines_of(out))
}

/// Split one line into its blank-separated fields.
pub fn split_fields(line: &str) -> (fields: Vec<String>)
    ensures
        fields.deep_view() == fields_of(line@),
{
    let n = line.unicode_len();
    let mut fields: Vec<String> = Vec::new();
    let mut start: usize = 0;
    let mut in_run: bool = false;
    let mut i: usize = 0;
    proof {
        assert(line@.skip(0) =~= line@);
        assert(fields.deep_view() =~= Seq::<Seq<char>>::empty());
    }
    while i < n
        invariant
            n == line@.len(),
            i <= n,
            in_run ==> start < i,
            fields_rec(
                line@.skip(i as int),
                if in_run {
                    line@.subrange(start as int, i as int)
                } else {
                    Seq::<char>::empty()
                },
                fields.deep_view(),
            ) == fields_of(line@),
        decreases n - i,
    {
        let ghost cur: Seq<char> = if in_run {
            line@.subrange(start as int, i as int)
        } else {
            Seq::<char>::empty()
        };
        proof {
            assert(line@.skip(i as int)[0] == line@[i as int]);
            assert(line@.skip(i as int).drop_first() =~= line@.skip(i + 1 as int));
        }
        let c = line.get_char(i);
        if field_sep(c) {
            if in_run {
                let f = substring_copy(line, start, i);
                let ghost pre = fields.deep_view();
                fields.push(f);
                proof {
                    assert(fields.deep_view() =~= pre.push(cur));
                }
                in_run = false;
            }
        } else {
            if !in_run {
                start = i;
                in_run = true;
            }
            proof {
                assert(line@.subrange(start as int, i + 1 as int) =~= cur.push(line@[i as int]));
            }
        }
        i += 1;
    }
    proof {
        assert(line@.skip(n as int) =~= Seq::<char>::empty());
    }
    if in_run {
        let f = substring_copy(line, start, n);
        let ghost pre = fields.deep_view();
        fields.push(f);
        proof {
            assert(fields.deep_view() =~= pre.push(line@.subrange(start as int, n as int)));
        }
    }
    fields
}

/// Split the whole dump output into lines.
pub fn split_lines(out: &str) -> (lines: Vec<String>)
    ensures
        lines.deep_view() == lines_of(out@),
{
    let n = out.unicode_len();
    let mut lines: Vec<String> = Vec::new();
    let mut start: usize = 0;
    let mut i: usize = 0;
    proof {
        assert(out@.skip(0) =~= out@);
        assert(out@.subrange(0, 0) =~= Seq::<char>::empty());
        assert(lines.deep_view() =~= Seq::<Seq<char>>::empty());
    }
    while i < n
        invariant
            n == out@.len(),
            i <= n,
            start <= i,
            lines_rec(
                out@.skip(i as int),
                out@.subrange(start as int, i as int),
                lines.deep_view(),
            ) == lines_of(out@),
        decreases n - i,
    {
        let ghost cur: Seq<char> = out@.subrange(start as int, i as int);
        proof {
            assert(out@.skip(i as int)[0] == out@[i as int]);
            assert(out@.skip(i as int).drop_first() =~= out@.skip(i + 1 as int));
        }
        let c = out.get_char(i);
        if c == '\n' {
            let l = substring_copy(out, start, i);
            let ghost pre = lines.deep_view();
            lines.push(l);
            proof {
                assert(lines.deep_view() =~= pre.push(cur));
                assert(out@.subrange(i + 1 as int, i + 1 as int) =~= Seq::<char>::empty());
            }
            start = i + 1;
        } else {
            proof {
                assert(out@.subrange(start as int, i + 1 as int) =~= cur.push(out@[i as int]));
            }
        }
        i += 1;
    }
    proof {
        assert(out@.skip(n as int) =~= Seq::<char>::empty());
    }
    let l = substring_copy(out, start, n);
    let ghost pre = lines.deep_view();
    lines.push(l);
    proof {
        assert(lines.deep_view() =~= pre.push(out@.subrange(start as int, n as int)));
    }
    lines
}

/// Reduce the dump output of one artifact to the symbol names it reports.
pub fn symbols_in_output(out: &str) -> (syms: Vec<String>)
    ensures
        syms.deep_view() == symbols_of_output(out@),
{
    let lines = split_lines(out);
    let ghost lv = lines.deep_view();
    let mut syms: Vec<String> = Vec::new();
    let n = lines.len();
    let mut i: usize = 0;
    while i < n
        invariant
            n == lines.len(),
            lv == lines.deep_view(),
            i <= n,
            syms.deep_view() == symbols_of_lines(lv.take(i as int)),
        decreases n - i,
    {
        proof {
            assert(lv.take(i + 1 as int).drop_last() =~= lv.take(i as int));
            assert(lv.take(i + 1 as int).last() == lv[i as int]);
        }
        let fields = split_fields(lines[i].as_str());
        if fields.len() >= 2 {
            let last = fields[fields.len() - 1].clone();
            let ghost pre = syms.deep_view();
            proof {
                assert(last@ == fields.deep_view().last());
            }
            syms.push(last);
            proof {
                assert(syms.deep_view() =~= pre.push(fields.deep_view().last()));
            }
        }
        i += 1;
    }
    proof {
        assert(lv.take(n as int) =~= lv);
    }
    syms
}

} // verus!
