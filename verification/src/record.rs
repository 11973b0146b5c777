//! Match records.

use vstd::prelude::*;

verus! {

/// One reported occurrence of the search string.
#[derive(Debug)]
pub struct SearchSuccess {
    /// Name of the file the match was found in.
    pub file_name: String,
    /// Number of the line, counted from 1.
    pub line: usize,
    /// Byte offset of the match within the decoded line, counted from 0.
    pub column: usize,
}

/// What a `SearchSuccess` stands for.
pub struct MatchRecord {
    pub file_name: Seq<char>,
    pub line: int,
    pub column: int,
}

impl View for SearchSuccess {
    type V = MatchRecord;

    open spec fn view(&self) -> MatchRecord {
        MatchRecord { file_name: self.file_name@, line: self.line as int, column: self.column as int }
    }
}

/// The records that a list of `SearchSuccess` values stands for, in order.
pub open spec fn records_of(found: Seq<SearchSuccess>) -> Seq<MatchRecord> {
    found.map_values(|one: SearchSuccess| one@)
}

/// The character for the digit `d`.
pub open spec fn digit(d: nat) -> char {
    (d + 48) as u8 as char
}

/// The decimal digits of `n`, the most significant first.
pub open spec fn decimal(n: nat) -> Seq<char>
    decreases n,
{
    if n < 10 {
        seq![digit(n)]
    } else {
        decimal(n / 10).push(digit(n % 10))
    }
}

/// The line of text that tells a reader of a match.
pub open spec fn message_text(record: MatchRecord) -> Seq<char> {
    "Found a match in file "@ + record.file_name + ", line "@ + decimal(record.line as nat)
        + ", column "@ + decimal(record.column as nat) + "!"@
}

/// Renders `n` with `usize`'s `to_string`.
///
/// Trusted: std writes an unsigned integer in decimal, without sign,
/// separators or leading zeros.
#[verifier::external_body]
fn decimal_string(n: usize) -> (text: String)
    ensures
        text@ == decimal(n as nat),
{
    n.to_string()
}

impl SearchSuccess {
    /// The line of text that tells a reader of this match.
    pub fn message(&self) -> (text: String)
        ensures
            text@ == message_text(self@),
    {
        let line = decimal_string(self.line);
        let column = decimal_string(self.column);
        let mut text = String::from_str("Found a match in file ");
        text.append(self.file_name.as_str());
        text.append(", line ");
        text.append(line.as_str());
        text.append(", column ");
        text.append(column.as_str());
        text.append("!");
        text
    }
}

} // verus!
