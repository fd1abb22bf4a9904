//! Conversion of text holding box-drawing tables into Markdown.

use vstd::prelude::*;
use crate::format::{markdown, markdown_chars};
use crate::parser::{parse_tables, parsed_tables, tables_view, TableView};
use crate::text::{char_rows, join, join_chars, string_of};

verus! {

/// The Markdown text of each table, separated by blank lines.
pub open spec fn markdown_of_tables(ts: Seq<TableView>) -> Seq<char> {
    join(ts.map_values(|t: TableView| markdown(t)), seq!['\n', '\n'])
}

/// What `convert_to_markdown` gives for a text.
pub open spec fn converted(input: Seq<char>) -> Option<Seq<char>> {
    match parsed_tables(input) {
        None => None,
        Some(ts) => Some(markdown_of_tables(ts)),
    }
}

/// Convert input text containing Unicode box-drawing tables to Markdown.
/// Returns None if no tables were found in the input.
pub fn convert_to_markdown(input: &str) -> (res: Option<String>)
    ensures
        match res {
            None => converted(input@) is None,
            Some(s) => converted(input@) == Some(s@),
        },
{
    let tables = match parse_tables(input) {
        None => return None,
        Some(t) => t,
    };
    let ghost tv = tables_view(tables@);
    let mut parts: Vec<Vec<char>> = Vec::new();
    let mut i: usize = 0;
    while i < tables.len()
        invariant
            i <= tables@.len(),
            tv == tables_view(tables@),
            char_rows(parts@) == tv.take(i as int).map_values(|t: TableView| markdown(t)),
        decreases tables.len() - i,
    {
        let md = markdown_chars(&tables[i]);
        let ghost old_parts = parts@;
        parts.push(md);
        i += 1;
        assert(char_rows(parts@) =~= tv.take(i as int).map_values(|t: TableView| markdown(t)))
            by {
            assert(char_rows(parts@) =~= char_rows(old_parts).push(md@));
        }
    }
    assert(tv.take(tables@.len() as int) =~= tv);
    let all = join_chars(&parts, &['\n', '\n']);
    Some(string_of(&all))
}

} // verus!
