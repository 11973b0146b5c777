//! Scanning a file's bytes, line by line, for a search string.

use vstd::prelude::*;
use vstd::slice::slice_subrange;
use vstd::utf8::{encode_utf8, valid_utf8};
use crate::decode::{decode_lossy, decoded};
use crate::lines::{is_line_start, line_end, lines_of};
use crate::matching::{contains, find_first, first_occurrence, is_first_occurrence, lemma_first_occurrence_some};
use crate::record::{records_of, MatchRecord, SearchSuccess};

verus! {

/// Where `pat` is reported in `line`, if it is: a line shorter than `pat` is
/// not searched; any other is decoded, and the first place where `pat` stands
/// in the decoded text is the column.
pub open spec fn line_hit(line: Seq<u8>, pat: Seq<u8>) -> Option<int> {
    if line.len() < pat.len() {
        None
    } else {
        first_occurrence(decoded(line), pat)
    }
}

/// The records for `lines`, the lines of one file: one for each line in which
/// `pat` is reported, in order, with the line's number counted from 1.
pub open spec fn hits_in(file_name: Seq<char>, lines: Seq<Seq<u8>>, pat: Seq<u8>) -> Seq<
    MatchRecord,
>
    decreases lines.len(),
{
    if lines.len() == 0 {
        Seq::empty()
    } else {
        let before = hits_in(file_name, lines.drop_last(), pat);
        match line_hit(lines.last(), pat) {
            Some(column) => before.push(
                MatchRecord { file_name, line: lines.len() as int, column },
            ),
            None => before,
        }
    }
}

/// The records that scanning a file with these contents yields.
pub open spec fn file_records(file_name: Seq<char>, contents: Seq<u8>, pat: Seq<u8>) -> Seq<
    MatchRecord,
> {
    hits_in(file_name, lines_of(contents), pat)
}

/// How many of `lines` hold `pat` as a literal run of bytes.
pub open spec fn count_containing(lines: Seq<Seq<u8>>, pat: Seq<u8>) -> nat
    decreases lines.len(),
{
    if lines.len() == 0 {
        0
    } else {
        let before = count_containing(lines.drop_last(), pat);
        if contains(lines.last(), pat) {
            before + 1
        } else {
            before
        }
    }
}

/// Searches one line and reports the column of the first match.
pub fn scan_line(line: &[u8], pat: &[u8]) -> (column: Option<usize>)
    ensures
        line_hit(line@, pat@) == match column {
            Some(at) => Some(at as int),
            None => None::<int>,
        },
{
    if line.len() < pat.len() {
        return None;
    }
    let text = decode_lossy(line);
    find_first(text.as_slice(), pat)
}

/// Scans the contents of one file for `search_str` and returns a record for
/// each line in which it occurs, in the order of the lines.
///
/// Lines are numbered from 1. At most one record is made per line, for the
/// first occurrence. A last line without a line feed counts like any other.
pub fn search(file_name: &str, contents: &[u8], search_str: &str) -> (found: Vec<SearchSuccess>)
    ensures
        records_of(found@) == file_records(file_name@, contents@, encode_utf8(search_str@)),
{
    let pat = search_str.as_bytes();
    let n: usize = contents.len();
    let mut found: Vec<SearchSuccess> = Vec::new();
    let mut start: usize = 0;
    let mut count: usize = 0;
    proof {
        assert(contents@.take(0) =~= Seq::<u8>::empty());
        assert(records_of(found@) =~= Seq::<MatchRecord>::empty());
    }
    while start < n
        invariant
            n == contents@.len(),
            pat@ == encode_utf8(search_str@),
            is_line_start(contents@, start as int),
            count <= start,
            count == lines_of(contents@.take(start as int)).len(),
            records_of(found@) == hits_in(
                file_name@,
                lines_of(contents@.take(start as int)),
                pat@,
            ),
        decreases n - start,
    {
        let end = line_end(contents, start);
        let line = slice_subrange(contents, start, end);
        count += 1;
        let ghost done = lines_of(contents@.take(start as int));
        let ghost now = lines_of(contents@.take(end as int));
        proof {
            assert(now.drop_last() =~= done);
            assert(now.last() == line@);
        }
        match scan_line(line, pat) {
            Some(column) => {
                let ghost before = found@;
                found.push(SearchSuccess { file_name: file_name.to_owned(), line: count, column });
                proof {
                    assert(records_of(found@) =~= records_of(before).push(found@.last()@));
                }
            },
            None => {},
        }
        start = end;
    }
    proof {
        assert(contents@.take(n as int) =~= contents@);
    }
    found
}

/// Every record points at a match: its file name is the file's, its line
/// number names a line of the file that is at least as long as `pat`, and its
/// column is the first place where `pat` stands in that line's decoded text.
/// So a column never lies less than the length of `pat` before the end of
/// the decoded line, and where the line is well-formed UTF-8, of the line
/// itself.
pub proof fn lemma_record_points_at_match(
    file_name: Seq<char>,
    contents: Seq<u8>,
    pat: Seq<u8>,
    k: int,
)
    requires
        0 <= k < file_records(file_name, contents, pat).len(),
    ensures
        ({
            let record = file_records(file_name, contents, pat)[k];
            let lines = lines_of(contents);
            &&& record.file_name == file_name
            &&& 1 <= record.line <= lines.len()
            &&& pat.len() <= lines[record.line - 1].len()
            &&& is_first_occurrence(decoded(lines[record.line - 1]), pat, record.column)
            &&& 0 <= record.column <= decoded(lines[record.line - 1]).len() - pat.len()
            &&& valid_utf8(lines[record.line - 1]) ==> record.column <= lines[record.line
                - 1].len() - pat.len()
        }),
{
    lemma_hits_point_at_matches(file_name, lines_of(contents), pat, k);
}

proof fn lemma_hits_point_at_matches(
    file_name: Seq<char>,
    lines: Seq<Seq<u8>>,
    pat: Seq<u8>,
    k: int,
)
    requires
        0 <= k < hits_in(file_name, lines, pat).len(),
    ensures
        ({
            let record = hits_in(file_name, lines, pat)[k];
            &&& record.file_name == file_name
            &&& 1 <= record.line <= lines.len()
            &&& line_hit(lines[record.line - 1], pat) == Some(record.column)
            &&& pat.len() <= lines[record.line - 1].len()
            &&& is_first_occurrence(decoded(lines[record.line - 1]), pat, record.column)
        }),
    decreases lines.len(),
{
    let before = hits_in(file_name, lines.drop_last(), pat);
    if k < before.len() {
        lemma_hits_point_at_matches(file_name, lines.drop_last(), pat, k);
    } else {
        lemma_first_occurrence_some(decoded(lines.last()), pat);
    }
}

/// Line numbers grow strictly along the records of a file: records come in
/// the order of the lines, and no line has two.
pub proof fn lemma_records_in_line_order(
    file_name: Seq<char>,
    contents: Seq<u8>,
    pat: Seq<u8>,
    i: int,
    j: int,
)
    requires
        0 <= i < j < file_records(file_name, contents, pat).len(),
    ensures
        file_records(file_name, contents, pat)[i].line < file_records(
            file_name,
            contents,
            pat,
        )[j].line,
{
    lemma_hits_in_line_order(file_name, lines_of(contents), pat, i, j);
}

proof fn lemma_hits_in_line_order(
    file_name: Seq<char>,
    lines: Seq<Seq<u8>>,
    pat: Seq<u8>,
    i: int,
    j: int,
)
    requires
        0 <= i < j < hits_in(file_name, lines, pat).len(),
    ensures
        hits_in(file_name, lines, pat)[i].line < hits_in(file_name, lines, pat)[j].line,
    decreases lines.len(),
{
    let before = hits_in(file_name, lines.drop_last(), pat);
    if j < before.len() {
        lemma_hits_in_line_order(file_name, lines.drop_last(), pat, i, j);
    } else {
        lemma_hits_point_at_matches(file_name, lines.drop_last(), pat, i);
    }
}

/// A file whose lines are all well-formed UTF-8 yields exactly as many
/// records as it has lines that hold `pat` as a literal run of bytes, whether
/// or not its last line ends in a line feed.
pub proof fn lemma_one_record_per_matching_line(
    file_name: Seq<char>,
    contents: Seq<u8>,
    pat: Seq<u8>,
)
    requires
        forall|i: int|
            0 <= i < lines_of(contents).len() ==> valid_utf8(#[trigger] lines_of(contents)[i]),
    ensures
        file_records(file_name, contents, pat).len() == count_containing(lines_of(contents), pat),
{
    lemma_hits_counted(file_name, lines_of(contents), pat);
}

proof fn lemma_hits_counted(file_name: Seq<char>, lines: Seq<Seq<u8>>, pat: Seq<u8>)
    requires
        forall|i: int| 0 <= i < lines.len() ==> valid_utf8(#[trigger] lines[i]),
    ensures
        hits_in(file_name, lines, pat).len() == count_containing(lines, pat),
    decreases lines.len(),
{
    if lines.len() > 0 {
        let rest = lines.drop_last();
        assert forall|i: int| 0 <= i < rest.len() implies valid_utf8(#[trigger] rest[i]) by {
            assert(rest[i] == lines[i]);
        }
        lemma_hits_counted(file_name, rest, pat);
        let last = lines.last();
        assert(valid_utf8(lines[lines.len() - 1]));
        lemma_first_occurrence_some(last, pat);
        if last.len() < pat.len() {
            assert(!contains(last, pat)) by {
                if contains(last, pat) {
                    let at = choose|at: int| crate::matching::occurs_at(last, pat, at);
                    assert(at + pat.len() <= last.len());
                }
            }
        }
    }
}

} // verus!
