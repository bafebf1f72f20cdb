//! Rendering a CSV response body as a monospace table for the chat
//! surface. The table drawing itself is the csv_to_table crate's work;
//! this module only frames its output.

use vstd::prelude::*;

verus! {

/// Whether the CSV reader accepts `csv` as a well-formed document (it
/// rejects, for one, records of unequal length).
pub uninterp spec fn csv_readable(csv: Seq<char>) -> bool;

/// The monospace table that the CSV-to-table transform, under the sharp
/// border style, draws for a given readable CSV text.
pub uninterp spec fn table_of(csv: Seq<char>) -> Seq<char>;

/// Relies on csv_to_table::from_reader with tabled's sharp style: a pure
/// text transform whose result depends on the CSV text alone. `None` is
/// returned exactly where the reader fails on the text, which is the
/// call's one error path; it does not panic.
#[verifier::external_body]
fn csv_table(text: &str) -> (r: Option<String>)
    ensures
        (r is Some) == csv_readable(text@),
        r matches Some(t) ==> t@ == table_of(text@),
{
    match csv_to_table::from_reader(text.as_bytes()) {
        Ok(mut table) => Some(table.with(tabled::settings::Style::sharp()).to_string()),
        Err(_) => None,
    }
}

/// Renders a CSV response body as a monospace table inside a code block,
/// ready for the chat surface. Succeeds exactly on text the CSV reader
/// accepts; `None` marks a body that is not readable as CSV.
pub fn pretty_print(text: &str) -> (r: Option<String>)
    ensures
        (r is Some) == csv_readable(text@),
        r matches Some(s) ==> s@ == "```"@ + table_of(text@) + "```"@,
{
    match csv_table(text) {
        Some(t) => {
            let mut s = ("```").to_owned();
            s.append(t.as_str());
            s.append("```");
            Some(s)
        },
        None => None,
    }
}

} // verus!
