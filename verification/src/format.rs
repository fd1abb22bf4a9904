//! Rendering of a parsed table as a Markdown table.

use vstd::prelude::*;
use crate::parser::{Table, TableView};
use crate::text::{append_chars, char_rows, chars_of, join, join_chars, string_of, string_rows};

verus! {

/// `text` with every `'|'` written as `"\|"`, so that it cannot end a cell.
pub open spec fn escape_pipe_spec(text: Seq<char>) -> Seq<char>
    decreases text.len(),
{
    if text.len() == 0 {
        Seq::<char>::empty()
    } else {
        let c = text.last();
        escape_pipe_spec(text.drop_last()) + (if c == '|' {
            seq!['\\', '|']
        } else {
            seq![c]
        })
    }
}

/// Every `'|'` that escaping leaves in a cell has a backslash right before
/// it, so that Markdown reads it as text rather than as a cell border.
pub proof fn law_escaped_pipes(text: Seq<char>)
    ensures
        forall|i: int|
            0 <= i < escape_pipe_spec(text).len() && #[trigger] escape_pipe_spec(text)[i] == '|'
                ==> i > 0 && escape_pipe_spec(text)[i - 1] == '\\',
    decreases text.len(),
{
    if text.len() > 0 {
        let d = text.drop_last();
        law_escaped_pipes(d);
        let e = escape_pipe_spec(text);
        let ed = escape_pipe_spec(d);
        assert forall|i: int| 0 <= i < e.len() && #[trigger] e[i] == '|' implies i > 0 && e[i - 1]
            == '\\' by {
            if i < ed.len() {
                assert(e[i] == ed[i]);
                assert(e[i - 1] == ed[i - 1]);
            } else if text.last() == '|' {
                if i == ed.len() {
                    assert(e[i] == '\\');
                } else {
                    assert(e[i - 1] == '\\');
                }
            } else {
                assert(e[i] == text.last());
            }
        }
    }
}

/// `s` with each backslash that directly precedes a `'|'` taken out: how a
/// Markdown reader gets the cell text back.
pub open spec fn unescape_pipes(s: Seq<char>) -> Seq<char>
    decreases s.len(),
{
    if s.len() >= 2 && s.last() == '|' && s[s.len() - 2] == '\\' {
        unescape_pipes(s.take(s.len() - 2)) + seq!['|']
    } else if s.len() > 0 {
        unescape_pipes(s.drop_last()) + seq![s.last()]
    } else {
        Seq::<char>::empty()
    }
}

/// The number of `'|'` in `s`.
pub open spec fn pipe_count(s: Seq<char>) -> nat
    decreases s.len(),
{
    if s.len() == 0 {
        0
    } else {
        pipe_count(s.drop_last()) + (if s.last() == '|' {
            1nat
        } else {
            0nat
        })
    }
}

/// Escaping loses and adds nothing but the backslashes: it makes the text
/// one character longer for each `'|'`, and taking out each backslash that
/// directly precedes a `'|'` gives the text back.
pub proof fn law_escape_pipe_reads_back(text: Seq<char>)
    ensures
        unescape_pipes(escape_pipe_spec(text)) == text,
        escape_pipe_spec(text).len() == text.len() + pipe_count(text),
    decreases text.len(),
{
    if text.len() > 0 {
        let d = text.drop_last();
        law_escape_pipe_reads_back(d);
        let e = escape_pipe_spec(text);
        let ed = escape_pipe_spec(d);
        if text.last() == '|' {
            assert(e.take(e.len() - 2) =~= ed);
            assert(e[e.len() - 2] == '\\');
        } else {
            assert(e.drop_last() =~= ed);
        }
        assert(d.push(text.last()) =~= text);
    }
}

/// The number of cell borders in a Markdown line: the `'|'` that no
/// backslash directly precedes.
pub open spec fn border_count(s: Seq<char>) -> nat
    decreases s.len(),
{
    if s.len() == 0 {
        0
    } else {
        border_count(s.drop_last()) + (if s.last() == '|' && !(s.len() >= 2 && s[s.len() - 2]
            == '\\') {
            1nat
        } else {
            0nat
        })
    }
}

/// Borders add up over a concatenation unless the first part ends with a
/// backslash that escapes a `'|'` opening the second.
pub proof fn lemma_border_count_concat(a: Seq<char>, b: Seq<char>)
    requires
        a.len() == 0 || b.len() == 0 || a.last() != '\\' || b[0] != '|',
    ensures
        border_count(a + b) == border_count(a) + border_count(b),
    decreases b.len(),
{
    if b.len() == 0 {
        assert(a + b =~= a);
    } else {
        let bd = b.drop_last();
        lemma_border_count_concat(a, bd);
        assert((a + b).drop_last() =~= a + bd);
        assert((a + b).last() == b.last());
        if b.len() >= 2 {
            assert((a + b)[(a + b).len() - 2] == b[b.len() - 2]);
        } else if a.len() > 0 {
            assert((a + b)[(a + b).len() - 2] == a.last());
        }
    }
}

/// A text whose every `'|'` follows a backslash has no border.
pub proof fn lemma_no_borders(s: Seq<char>)
    requires
        forall|i: int| 0 <= i < s.len() && #[trigger] s[i] == '|' ==> i > 0 && s[i - 1] == '\\',
    ensures
        border_count(s) == 0,
    decreases s.len(),
{
    if s.len() > 0 {
        let d = s.drop_last();
        assert forall|i: int| 0 <= i < d.len() && #[trigger] d[i] == '|' implies i > 0 && d[i - 1]
            == '\\' by {
            assert(s[i] == d[i]);
        }
        lemma_no_borders(d);
        if s.last() == '|' {
            assert(s[s.len() - 1] == '|');
        }
    }
}

proof fn lemma_join_borders(parts: Seq<Seq<char>>, sep: Seq<char>)
    requires
        forall|k: int| 0 <= k < parts.len() ==> border_count(#[trigger] parts[k]) == 0,
        sep.len() > 0,
        sep[0] != '|',
        sep.last() != '\\',
        border_count(sep) == 1,
    ensures
        parts.len() > 0 ==> border_count(join(parts, sep)) == parts.len() - 1,
        parts.len() == 0 ==> border_count(join(parts, sep)) == 0,
    decreases parts.len(),
{
    if parts.len() > 1 {
        let d = parts.drop_last();
        assert forall|k: int| 0 <= k < d.len() implies border_count(#[trigger] d[k]) == 0 by {
            assert(d[k] == parts[k]);
        }
        lemma_join_borders(d, sep);
        lemma_border_count_concat(join(d, sep), sep);
        lemma_border_count_concat(join(d, sep) + sep, parts.last());
        assert(border_count(parts[parts.len() - 1]) == 0);
    } else if parts.len() == 1 {
        assert(border_count(parts[0]) == 0);
    }
}

proof fn lemma_bar_line_borders(parts: Seq<Seq<char>>)
    requires
        forall|k: int| 0 <= k < parts.len() ==> border_count(#[trigger] parts[k]) == 0,
    ensures
        border_count(bar_line(parts)) == bars_for(parts.len()),
{
    let sep = seq![' ', '|', ' '];
    let open = seq!['|', ' '];
    let close = seq![' ', '|'];
    reveal_with_fuel(border_count, 4);
    assert(border_count(sep) == 1);
    assert(border_count(open) == 1);
    assert(border_count(close) == 1);
    lemma_join_borders(parts, sep);
    let j = join(parts, sep);
    lemma_border_count_concat(open, j);
    lemma_border_count_concat(open + j, close);
}

/// The cell borders of a Markdown line with `n` cells.
pub open spec fn bars_for(n: nat) -> nat {
    if n == 0 {
        2
    } else {
        n + 1
    }
}

/// Each Markdown line of a row has one cell border more than the row has
/// cells (a row without cells still gets its two outer borders): every
/// `'|'` inside a cell is escaped.
pub proof fn law_md_row_borders(cells: Seq<Seq<char>>)
    ensures
        border_count(md_row(cells)) == bars_for(cells.len()),
{
    let esc = cells.map_values(|c: Seq<char>| escape_pipe_spec(c));
    assert forall|k: int| 0 <= k < esc.len() implies border_count(#[trigger] esc[k]) == 0 by {
        law_escaped_pipes(cells[k]);
        lemma_no_borders(escape_pipe_spec(cells[k]));
    }
    lemma_bar_line_borders(esc);
}

/// The rule line under a header of `n` columns has `n + 1` cell borders
/// (two when `n` is zero).
pub proof fn law_rule_row_borders(n: nat)
    ensures
        border_count(rule_row(n)) == bars_for(n),
{
    let dashes = Seq::new(n, |i: int| seq!['-', '-', '-']);
    assert forall|k: int| 0 <= k < dashes.len() implies border_count(#[trigger] dashes[k]) == 0 by {
        reveal_with_fuel(border_count, 4);
        assert(dashes[k] == seq!['-', '-', '-']);
    }
    lemma_bar_line_borders(dashes);
}

/// `"| "`, the parts joined with `" | "`, and `" |"`.
pub open spec fn bar_line(parts: Seq<Seq<char>>) -> Seq<char> {
    seq!['|', ' '] + join(parts, seq![' ', '|', ' ']) + seq![' ', '|']
}

/// The Markdown line of a row of cells.
pub open spec fn md_row(cells: Seq<Seq<char>>) -> Seq<char> {
    bar_line(cells.map_values(|c: Seq<char>| escape_pipe_spec(c)))
}

/// The line under the header: `"---"` for each of `n` columns.
pub open spec fn rule_row(n: nat) -> Seq<char> {
    bar_line(Seq::new(n, |i: int| seq!['-', '-', '-']))
}

/// The lines of the Markdown text of a table: header line, rule line, then
/// one line per data row.
pub open spec fn md_lines(t: TableView) -> Seq<Seq<char>> {
    seq![md_row(t.0), rule_row(t.0.len())] + t.1.map_values(|r: Seq<Seq<char>>| md_row(r))
}

/// The Markdown text of a table: its lines joined by line feeds.
pub open spec fn markdown(t: TableView) -> Seq<char> {
    join(md_lines(t), seq!['\n'])
}

/// Escape pipe characters in cell content to prevent breaking Markdown table structure.
fn escape_pipe(text: &[char]) -> (res: Vec<char>)
    ensures
        res@ == escape_pipe_spec(text@),
{
    let mut res: Vec<char> = Vec::new();
    let mut i: usize = 0;
    while i < text.len()
        invariant
            i <= text@.len(),
            res@ == escape_pipe_spec(text@.take(i as int)),
        decreases text.len() - i,
    {
        let c = text[i];
        assert(text@.take(i + 1).drop_last() =~= text@.take(i as int));
        assert(text@.take(i + 1).last() == c);
        if c == '|' {
            res.push('\\');
            res.push('|');
        } else {
            res.push(c);
        }
        i += 1;
        assert(res@ =~= escape_pipe_spec(text@.take(i as int)));
    }
    assert(text@.take(text@.len() as int) =~= text@);
    res
}

/// `"| "`, the parts joined with `" | "`, and `" |"`.
fn bar_line_chars(parts: &Vec<Vec<char>>) -> (res: Vec<char>)
    ensures
        res@ == bar_line(char_rows(parts@)),
{
    let mut res: Vec<char> = vec!['|', ' '];
    let inner = join_chars(parts, &[' ', '|', ' ']);
    append_chars(&mut res, &inner);
    append_chars(&mut res, &[' ', '|']);
    assert(res@ =~= bar_line(char_rows(parts@)));
    res
}

/// The Markdown line of a row of cells.
fn md_row_chars(cells: &Vec<String>) -> (res: Vec<char>)
    ensures
        res@ == md_row(string_rows(cells@)),
{
    let mut escaped: Vec<Vec<char>> = Vec::new();
    let mut i: usize = 0;
    while i < cells.len()
        invariant
            i <= cells@.len(),
            char_rows(escaped@) == string_rows(cells@).take(i as int).map_values(
                |c: Seq<char>| escape_pipe_spec(c),
            ),
        decreases cells.len() - i,
    {
        let cs = chars_of(cells[i].as_str());
        let e = escape_pipe(&cs);
        let ghost old_escaped = escaped@;
        escaped.push(e);
        i += 1;
        assert(char_rows(escaped@) =~= string_rows(cells@).take(i as int).map_values(
            |c: Seq<char>| escape_pipe_spec(c),
        )) by {
            assert(char_rows(escaped@) =~= char_rows(old_escaped).push(e@));
        }
    }
    assert(string_rows(cells@).take(cells@.len() as int) =~= string_rows(cells@));
    bar_line_chars(&escaped)
}

/// The line under a header of `n` columns.
fn rule_row_chars(n: usize) -> (res: Vec<char>)
    ensures
        res@ == rule_row(n as nat),
{
    let mut parts: Vec<Vec<char>> = Vec::new();
    let mut i: usize = 0;
    while i < n
        invariant
            i <= n,
            char_rows(parts@) == Seq::new(i as nat, |k: int| seq!['-', '-', '-']),
        decreases n - i,
    {
        let ghost old_parts = parts@;
        let dashes = vec!['-', '-', '-'];
        assert(dashes@ =~= seq!['-', '-', '-']);
        parts.push(dashes);
        i += 1;
        assert(char_rows(parts@) =~= char_rows(old_parts).push(seq!['-', '-', '-']));
        assert(char_rows(parts@) =~= Seq::new(i as nat, |k: int| seq!['-', '-', '-']));
    }
    bar_line_chars(&parts)
}

/// The Markdown text of a table, as characters.
pub fn markdown_chars(table: &Table) -> (res: Vec<char>)
    ensures
        res@ == markdown(table@),
{
    let mut lines: Vec<Vec<char>> = Vec::new();
    lines.push(md_row_chars(&table.headers));
    lines.push(rule_row_chars(table.headers.len()));
    let ghost tv = table@;
    let ghost head = seq![md_row(tv.0), rule_row(tv.0.len())];
    assert(char_rows(lines@) =~= head);
    let mut i: usize = 0;
    while i < table.rows.len()
        invariant
            i <= table.rows@.len(),
            tv == table@,
            head == seq![md_row(tv.0), rule_row(tv.0.len())],
            char_rows(lines@) == head + tv.1.take(i as int).map_values(
                |r: Seq<Seq<char>>| md_row(r),
            ),
        decreases table.rows.len() - i,
    {
        let line = md_row_chars(&table.rows[i]);
        let ghost old_lines = lines@;
        lines.push(line);
        i += 1;
        assert(char_rows(lines@) =~= head + tv.1.take(i as int).map_values(
            |r: Seq<Seq<char>>| md_row(r),
        )) by {
            assert(char_rows(lines@) =~= char_rows(old_lines).push(line@));
        }
    }
    assert(tv.1.take(table.rows@.len() as int) =~= tv.1);
    assert(char_rows(lines@) == seq![md_row(tv.0), rule_row(tv.0.len())] + tv.1.map_values(
        |r: Seq<Seq<char>>| md_row(r),
    ));
    let sep = ['\n'];
    let res = join_chars(&lines, &sep);
    assert(sep@ =~= seq!['\n']);
    res
}

/// Convert a parsed Table to Markdown format.
pub fn format_markdown(table: &Table) -> (res: String)
    ensures
        res@ == markdown(table@),
{
    let cs = markdown_chars(table);
    string_of(&cs)
}

} // verus!
