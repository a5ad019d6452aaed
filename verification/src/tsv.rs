//! Tab-separated override files (identity merges, group mappings): one row
//! per line, fields separated by tabs, blank lines and `#` comments skipped.
use vstd::prelude::*;
use crate::identity::views;
use crate::text::{chars_of, lines_exec, lines_spec, split_exec, split_on, string_of, trim, trim_chars};

verus! {

/// The fields of a line, each trimmed; nothing for a blank or `#` line.
pub open spec fn tsv_row(line: Seq<char>) -> Option<Seq<Seq<char>>> {
    let t = trim(line);
    if t.len() == 0 || t[0] == '#' {
        None
    } else {
        Some(split_on(t, '\t').map_values(|f: Seq<char>| trim(f)))
    }
}

/// The rows of some lines, in order.
pub open spec fn tsv_rows(lines: Seq<Seq<char>>) -> Seq<Seq<Seq<char>>>
    decreases lines.len(),
{
    if lines.len() == 0 {
        Seq::empty()
    } else {
        let p = tsv_rows(lines.drop_last());
        match tsv_row(lines.last()) {
            Some(r) => p.push(r),
            None => p,
        }
    }
}

/// The view of a list of rows.
pub open spec fn rows_view(v: Seq<Vec<String>>) -> Seq<Seq<Seq<char>>> {
    v.map_values(|r: Vec<String>| views(r@))
}

/// The fields of one non-blank line.
fn row_of(t: &Vec<char>) -> (r: Vec<String>)
    ensures
        views(r@) == split_on(t@, '\t').map_values(|f: Seq<char>| trim(f)),
{
    let fields = split_exec(t, '\t');
    let ghost fv = fields@.map_values(|p: Vec<char>| p@);
    let mut out: Vec<String> = Vec::new();
    let mut k: usize = 0;
    while k < fields.len()
        invariant
            k <= fields@.len(),
            fv == fields@.map_values(|p: Vec<char>| p@),
            views(out@) == fv.take(k as int).map_values(|f: Seq<char>| trim(f)),
        decreases fields@.len() - k,
    {
        let ghost o0 = views(out@);
        out.push(string_of(&trim_chars(&fields[k])));
        assert(fv[k as int] == fields@[k as int]@);
        assert(views(out@) =~= o0.push(trim(fv[k as int])));
        assert(fv.take(k + 1).map_values(|f: Seq<char>| trim(f)) =~= fv.take(k as int).map_values(|f: Seq<char>| trim(f)).push(
            trim(fv[k as int]),
        ));
        k += 1;
    }
    assert(fv.take(k as int) =~= fv);
    out
}

/// Parse a tab-separated file: each line that is neither blank nor a `#`
/// comment, trimmed, split at tabs, each field trimmed.
pub fn parse_tsv(text: &str) -> (r: Vec<Vec<String>>)
    ensures
        rows_view(r@) == tsv_rows(lines_spec(text@)),
{
    let lines = lines_exec(&chars_of(text));
    let ghost lv = lines@.map_values(|p: Vec<char>| p@);
    let mut out: Vec<Vec<String>> = Vec::new();
    let mut k: usize = 0;
    while k < lines.len()
        invariant
            k <= lines@.len(),
            lv == lines@.map_values(|p: Vec<char>| p@),
            lv == lines_spec(text@),
            rows_view(out@) == tsv_rows(lv.take(k as int)),
        decreases lines@.len() - k,
    {
        assert(lv.take(k + 1).drop_last() =~= lv.take(k as int));
        assert(lv.take(k + 1).last() == lines@[k as int]@);
        let t = trim_chars(&lines[k]);
        if t.len() > 0 && t[0] != '#' {
            let ghost o0 = rows_view(out@);
            let row = row_of(&t);
            out.push(row);
            assert(rows_view(out@) =~= o0.push(views(row@)));
        }
        k += 1;
    }
    assert(lv.take(k as int) =~= lv);
    out
}

/// The `(matcher, group)` of each row with at least two fields, in order.
pub open spec fn group_pairs_of(rows: Seq<Seq<Seq<char>>>) -> Seq<(Seq<char>, Seq<char>)>
    decreases rows.len(),
{
    if rows.len() == 0 {
        Seq::empty()
    } else {
        let p = group_pairs_of(rows.drop_last());
        if rows.last().len() >= 2 {
            p.push((rows.last()[0], rows.last()[1]))
        } else {
            p
        }
    }
}

/// The group mappings of a tab-separated file's rows: the first two fields
/// of each row that has them.
pub fn group_pairs(rows: &Vec<Vec<String>>) -> (r: Vec<(String, String)>)
    ensures
        r@.map_values(|p: (String, String)| (p.0@, p.1@)) == group_pairs_of(rows_view(rows@)),
{
    let ghost rv = rows_view(rows@);
    let mut out: Vec<(String, String)> = Vec::new();
    let mut k: usize = 0;
    while k < rows.len()
        invariant
            k <= rows@.len(),
            rv == rows_view(rows@),
            out@.map_values(|p: (String, String)| (p.0@, p.1@)) == group_pairs_of(rv.take(k as int)),
        decreases rows@.len() - k,
    {
        assert(rv.take(k + 1).drop_last() =~= rv.take(k as int));
        assert(rv.take(k + 1).last() == views(rows@[k as int]@));
        if rows[k].len() >= 2 {
            let ghost o0 = out@.map_values(|p: (String, String)| (p.0@, p.1@));
            out.push((rows[k][0].clone(), rows[k][1].clone()));
            assert(out@.map_values(|p: (String, String)| (p.0@, p.1@)) =~= o0.push((rows@[k as int]@[0]@, rows@[k as int]@[1]@)));
        }
        k += 1;
    }
    assert(rv.take(k as int) =~= rv);
    out
}

} // verus!
