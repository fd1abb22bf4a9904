//! Detection of Unicode box-drawing tables in text and extraction of their cells.

use vstd::prelude::*;
use crate::text::{
    char_rows, chars_of, lines, segments, split_lines, string_of, string_rows, trim,
    trim_chars,
};

verus! {

/// Parsed table: header row + data rows, each row is a Vec of cell strings.
#[derive(Debug, Clone, PartialEq)]
pub struct Table {
    pub headers: Vec<String>,
    pub rows: Vec<Vec<String>>,
}

/// A table as text: its header cells and its data rows.
pub type TableView = (Seq<Seq<char>>, Seq<Seq<Seq<char>>>);

/// The cell texts of each row in a vector of rows.
pub open spec fn rows_view(v: Seq<Vec<String>>) -> Seq<Seq<Seq<char>>> {
    v.map_values(|r: Vec<String>| string_rows(r@))
}

impl View for Table {
    type V = TableView;

    open spec fn view(&self) -> TableView {
        (string_rows(self.headers@), rows_view(self.rows@))
    }
}

/// The views of the tables in a sequence.
pub open spec fn tables_view(v: Seq<Table>) -> Seq<TableView> {
    v.map_values(|t: Table| t@)
}

/// A vertical cell separator: light, heavy or double.
pub open spec fn is_vertical(c: char) -> bool {
    c == '│' || c == '┃' || c == '║'
}

/// The separator of cells within a data line.
pub open spec fn vertical_sep() -> spec_fn(char) -> bool {
    |c: char| is_vertical(c)
}

/// A character that may make up a border line: horizontal rules, corners,
/// junctions of the three styles, and the space.
pub open spec fn is_border_char(c: char) -> bool {
    ||| c == '─' || c == '━' || c == '═'
    ||| c == '┌' || c == '┐' || c == '└' || c == '┘'
    ||| c == '├' || c == '┤' || c == '┬' || c == '┴' || c == '┼'
    ||| c == '┏' || c == '┓' || c == '┗' || c == '┛'
    ||| c == '┣' || c == '┫' || c == '┳' || c == '┻' || c == '╋'
    ||| c == '╔' || c == '╗' || c == '╚' || c == '╝'
    ||| c == '╠' || c == '╣' || c == '╦' || c == '╩' || c == '╬'
    ||| c == ' '
}

/// A border line: once trimmed, non-empty and made of border characters only.
pub open spec fn is_separator_line(line: Seq<char>) -> bool {
    let t = trim(line);
    t.len() > 0 && forall|i: int| 0 <= i < t.len() ==> #[trigger] is_border_char(t[i])
}

/// A data line: one that holds a vertical separator.
pub open spec fn is_data_line(line: Seq<char>) -> bool {
    exists|i: int| 0 <= i < line.len() && #[trigger] is_vertical(line[i])
}

/// A line that belongs to a table.
pub open spec fn is_table_line(line: Seq<char>) -> bool {
    is_separator_line(line) || is_data_line(line)
}

/// The trimmed pieces of a data line between its vertical separators; the
/// piece after the last separator only where it is not blank.
pub open spec fn cell_candidates(line: Seq<char>) -> Seq<Seq<char>> {
    let segs = segments(line, vertical_sep());
    let last = trim(segs.last());
    segs.drop_last().map_values(|s: Seq<char>| trim(s)) + (if last.len() > 0 {
        seq![last]
    } else {
        Seq::<Seq<char>>::empty()
    })
}

/// The cells of a data line: the candidates without a first empty one, which
/// the leading border leaves.
pub open spec fn cells(line: Seq<char>) -> Seq<Seq<char>> {
    let c = cell_candidates(line);
    if c.len() > 0 && c[0].len() == 0 {
        c.drop_first()
    } else {
        c
    }
}

/// The number of table lines at the start of `ls`.
pub open spec fn run_len(ls: Seq<Seq<char>>) -> nat
    decreases ls.len(),
{
    if ls.len() > 0 && is_table_line(ls[0]) {
        1 + run_len(ls.drop_first())
    } else {
        0
    }
}

/// The rows that the data lines among `ls` give, those with no cell left out.
pub open spec fn data_rows(ls: Seq<Seq<char>>) -> Seq<Seq<Seq<char>>>
    decreases ls.len(),
{
    if ls.len() == 0 {
        Seq::<Seq<Seq<char>>>::empty()
    } else {
        let prev = data_rows(ls.drop_last());
        let l = ls.last();
        if is_data_line(l) && cells(l).len() > 0 {
            prev.push(cells(l))
        } else {
            prev
        }
    }
}

/// The table whose first row is the header.
pub open spec fn table_of(rows: Seq<Seq<Seq<char>>>) -> TableView {
    (rows[0], rows.drop_first())
}

pub proof fn lemma_run_len_bound(ls: Seq<Seq<char>>)
    ensures
        run_len(ls) <= ls.len(),
        ls.len() > 0 && is_table_line(ls[0]) ==> run_len(ls) >= 1,
    decreases ls.len(),
{
    if ls.len() > 0 && is_table_line(ls[0]) {
        lemma_run_len_bound(ls.drop_first());
    }
}

/// The tables of a text given as lines: each maximal block of consecutive
/// table lines whose data lines give at least one row is a table, its first
/// row the header.
pub open spec fn tables_in(ls: Seq<Seq<char>>) -> Seq<TableView>
    decreases ls.len(),
{
    if ls.len() == 0 {
        Seq::<TableView>::empty()
    } else if !is_table_line(ls[0]) {
        tables_in(ls.drop_first())
    } else {
        proof {
            lemma_run_len_bound(ls);
        }
        let n = run_len(ls);
        let rows = data_rows(ls.take(n as int));
        let rest = tables_in(ls.skip(n as int));
        if rows.len() > 0 {
            seq![table_of(rows)] + rest
        } else {
            rest
        }
    }
}

/// What `parse_tables` gives for a text: its tables, or none where it has none.
pub open spec fn parsed_tables(input: Seq<char>) -> Option<Seq<TableView>> {
    let t = tables_in(lines(input));
    if t.len() == 0 {
        None
    } else {
        Some(t)
    }
}

pub proof fn lemma_run_len_exact(ls: Seq<Seq<char>>, m: int)
    requires
        0 <= m <= ls.len(),
        forall|k: int| 0 <= k < m ==> is_table_line(#[trigger] ls[k]),
        m == ls.len() || !is_table_line(ls[m]),
    ensures
        run_len(ls) == m,
    decreases m,
{
    if m > 0 {
        let d = ls.drop_first();
        assert forall|k: int| 0 <= k < m - 1 implies is_table_line(#[trigger] d[k]) by {
            assert(d[k] == ls[k + 1]);
        }
        if m < ls.len() {
            assert(d[m - 1] == ls[m]);
        }
        lemma_run_len_exact(d, m - 1);
    }
}

/// Whether `c` separates cells.
fn is_vertical_char(c: char) -> (res: bool)
    ensures
        res == is_vertical(c),
{
    c == '│' || c == '┃' || c == '║'
}

/// Whether `c` may stand in a border line.
fn is_border(c: char) -> (res: bool)
    ensures
        res == is_border_char(c),
{
    c == '─' || c == '━' || c == '═' || c == '┌' || c == '┐' || c == '└' || c == '┘' || c == '├'
        || c == '┤' || c == '┬' || c == '┴' || c == '┼' || c == '┏' || c == '┓' || c == '┗' || c
        == '┛' || c == '┣' || c == '┫' || c == '┳' || c == '┻' || c == '╋' || c == '╔' || c == '╗'
        || c == '╚' || c == '╝' || c == '╠' || c == '╣' || c == '╦' || c == '╩' || c == '╬' || c
        == ' '
}

/// Whether `line` is a border line of a table.
fn separator_line(line: &[char]) -> (res: bool)
    ensures
        res == is_separator_line(line@),
{
    let t = trim_chars(line);
    if t.len() == 0 {
        return false;
    }
    let mut i: usize = 0;
    while i < t.len()
        invariant
            i <= t@.len(),
            t@ == trim(line@),
            forall|k: int| 0 <= k < i ==> #[trigger] is_border_char(t@[k]),
        decreases t.len() - i,
    {
        if !is_border(t[i]) {
            return false;
        }
        i += 1;
    }
    true
}

/// Whether `line` holds a vertical separator.
fn data_line(line: &[char]) -> (res: bool)
    ensures
        res == is_data_line(line@),
{
    let mut i: usize = 0;
    while i < line.len()
        invariant
            i <= line@.len(),
            forall|k: int| 0 <= k < i ==> !#[trigger] is_vertical(line@[k]),
        decreases line.len() - i,
    {
        if is_vertical_char(line[i]) {
            return true;
        }
        i += 1;
    }
    false
}

/// Whether `line` belongs to a table.
fn table_line(line: &[char]) -> (res: bool)
    ensures
        res == is_table_line(line@),
{
    separator_line(line) || data_line(line)
}

/// The cells of a data line, as character vectors.
fn cells_of(line: &[char]) -> (res: Vec<Vec<char>>)
    ensures
        char_rows(res@) == cells(line@),
{
    let mut done: Vec<Vec<char>> = Vec::new();
    let mut current: Vec<char> = Vec::new();
    let mut i: usize = 0;
    proof {
        assert(line@.take(0) =~= Seq::<char>::empty());
    }
    while i < line.len()
        invariant
            i <= line@.len(),
            segments(line@.take(i as int), vertical_sep()).len() >= 1,
            char_rows(done@) == segments(line@.take(i as int), vertical_sep()).drop_last().map_values(
                |s: Seq<char>| trim(s),
            ),
            current@ == segments(line@.take(i as int), vertical_sep()).last(),
        decreases line.len() - i,
    {
        let ghost prev = segments(line@.take(i as int), vertical_sep());
        let c = line[i];
        assert(line@.take(i + 1).drop_last() =~= line@.take(i as int));
        assert(line@.take(i + 1).last() == c);
        let ghost next = segments(line@.take(i + 1), vertical_sep());
        if is_vertical_char(c) {
            let cell = trim_chars(&current);
            let ghost old_done = done@;
            done.push(cell);
            assert(char_rows(done@) =~= char_rows(old_done).push(cell@));
            current = Vec::new();
            assert(vertical_sep()(c));
            assert(next == prev.push(Seq::<char>::empty()));
            assert(next.drop_last() =~= prev);
            assert(prev.map_values(|s: Seq<char>| trim(s)) =~= prev.drop_last().map_values(
                |s: Seq<char>| trim(s),
            ).push(trim(prev.last())));
            assert(char_rows(done@) =~= next.drop_last().map_values(|s: Seq<char>| trim(s)));
            assert(current@ =~= next.last());
        } else {
            current.push(c);
            assert(!vertical_sep()(c));
            assert(next == prev.drop_last().push(prev.last().push(c)));
            assert(next.drop_last() =~= prev.drop_last());
        }
        i += 1;
    }
    assert(line@.take(line@.len() as int) =~= line@);
    let trailing = trim_chars(&current);
    let ghost before = done@;
    if trailing.len() > 0 {
        done.push(trailing);
    }
    proof {
        let segs = segments(line@, vertical_sep());
        let last = trim(segs.last());
        let rest = if last.len() > 0 {
            seq![last]
        } else {
            Seq::<Seq<char>>::empty()
        };
        assert(char_rows(done@) =~= char_rows(before) + rest);
        assert(char_rows(done@) =~= cell_candidates(line@));
    }
    if done.len() > 0 && done[0].len() == 0 {
        let ghost cand = done@;
        done.remove(0);
        assert(char_rows(done@) =~= char_rows(cand).drop_first());
    }
    done
}

/// Strings holding the character vectors of `v`, in order.
fn strings_of(v: &Vec<Vec<char>>) -> (res: Vec<String>)
    ensures
        string_rows(res@) == char_rows(v@),
{
    let mut res: Vec<String> = Vec::new();
    let mut i: usize = 0;
    while i < v.len()
        invariant
            i <= v@.len(),
            string_rows(res@) == char_rows(v@).take(i as int),
        decreases v.len() - i,
    {
        let s = string_of(&v[i]);
        let ghost old_res = res@;
        res.push(s);
        i += 1;
        assert(string_rows(res@) =~= char_rows(v@).take(i as int)) by {
            assert(string_rows(res@) =~= string_rows(old_res).push(s@));
        }
    }
    assert(char_rows(v@).take(v@.len() as int) =~= char_rows(v@));
    res
}

/// Extract cell contents from a data line by splitting on vertical separators.
fn extract_cells(line: &[char]) -> (res: Vec<String>)
    ensures
        string_rows(res@) == cells(line@),
{
    let cs = cells_of(line);
    strings_of(&cs)
}

/// Parse input text and extract all Unicode box-drawing tables.
/// Returns None if no tables are found.
pub fn parse_tables(input: &str) -> (res: Option<Vec<Table>>)
    ensures
        match res {
            None => parsed_tables(input@) is None,
            Some(ts) => parsed_tables(input@) == Some(tables_view(ts@)),
        },
{
    let chars = chars_of(input);
    let text_lines = split_lines(&chars);
    let ghost ls = char_rows(text_lines@);
    let mut tables: Vec<Table> = Vec::new();
    let mut i: usize = 0;
    assert(ls.skip(0) =~= ls);
    while i < text_lines.len()
        invariant
            i <= text_lines@.len(),
            ls == char_rows(text_lines@),
            ls == lines(input@),
            tables_view(tables@) + tables_in(ls.skip(i as int)) == tables_in(ls),
        decreases text_lines.len() - i,
    {
        if table_line(&text_lines[i]) {
            let ghost start = i as int;
            let mut data: Vec<Vec<String>> = Vec::new();
            assert(ls.subrange(start, start) =~= Seq::<Seq<char>>::empty());
            while i < text_lines.len() && table_line(&text_lines[i])
                invariant
                    start < text_lines@.len(),
                    0 <= start <= i <= text_lines@.len(),
                    ls == char_rows(text_lines@),
                    forall|k: int| start <= k < i ==> is_table_line(#[trigger] ls[k]),
                    rows_view(data@) == data_rows(ls.subrange(start, i as int)),
                decreases text_lines.len() - i,
            {
                assert(ls.subrange(start, i + 1).drop_last() =~= ls.subrange(start, i as int));
                assert(ls.subrange(start, i + 1).last() == ls[i as int]);
                if data_line(&text_lines[i]) {
                    let cells = extract_cells(&text_lines[i]);
                    if cells.len() > 0 {
                        let ghost old_data = data@;
                        data.push(cells);
                        assert(rows_view(data@) =~= rows_view(old_data).push(string_rows(cells@)));
                    }
                }
                i += 1;
            }
            proof {
                let tail = ls.skip(start);
                let n = (i - start) as int;
                assert forall|k: int| 0 <= k < n implies is_table_line(#[trigger] tail[k]) by {
                    assert(tail[k] == ls[start + k]);
                }
                if i < text_lines@.len() {
                    assert(tail[n] == ls[i as int]);
                }
                lemma_run_len_exact(tail, n);
                assert(tail.take(n) =~= ls.subrange(start, i as int));
                assert(tail.skip(n) =~= ls.skip(i as int));
                assert(tail[0] == ls[start]);
            }
            if data.len() > 0 {
                let ghost all = rows_view(data@);
                let headers = data.remove(0);
                assert(rows_view(data@) =~= all.drop_first());
                let t = Table { headers, rows: data };
                let ghost old_tables = tables@;
                tables.push(t);
                assert(tables_view(tables@) =~= tables_view(old_tables).push(table_of(all)));
            }
        } else {
            assert(ls.skip(i as int).drop_first() =~= ls.skip(i + 1));
            assert(ls.skip(i as int)[0] == ls[i as int]);
            i += 1;
        }
    }
    assert(ls.skip(text_lines@.len() as int) =~= Seq::<Seq<char>>::empty());
    if tables.len() == 0 {
        None
    } else {
        Some(tables)
    }
}

/// Whether the text holds at least one table.
pub fn has_unicode_table(text: &str) -> (res: bool)
    ensures
        res == (parsed_tables(text@) is Some),
{
    parse_tables(text).is_some()
}

} // verus!
