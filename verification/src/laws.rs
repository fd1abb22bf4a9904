//! Properties that span the parser, the Markdown writer and the converter.

use vstd::prelude::*;
use crate::converter::{converted, markdown_of_tables};
use crate::format::{
    bar_line, bars_for, border_count, escape_pipe_spec, law_md_row_borders, law_rule_row_borders, markdown, md_lines, md_row,
};
use crate::parser::{
    cell_candidates, cells, data_rows, is_border_char, is_data_line, is_separator_line, is_table_line, is_vertical,
    lemma_run_len_bound, lemma_run_len_exact, parsed_tables, run_len, table_of, tables_in, vertical_sep, TableView,
};
use crate::text::{
    is_space, join, lacks, lemma_concat_lacks, lemma_join_concat, lemma_join_lacks, lemma_lines_lack_newline,
    lemma_lines_of_join, lemma_segments_chars, lemma_segments_lack, lemma_segments_nonempty,
    lemma_segments_append, lemma_segments_newline_concat, lemma_segments_of_join, lemma_trim_drop_space, lemma_trim_shape, lines, newline_sep, segments, strip_cr, trim,
    trim_end, trim_start,
};

verus! {

/// Text without line feed and without vertical separator.
pub open spec fn clean_text(s: Seq<char>) -> bool {
    lacks(s, '\n') && lacks(s, '│') && lacks(s, '┃') && lacks(s, '║')
}

/// Cells that are all clean.
pub open spec fn clean_cells(cs: Seq<Seq<char>>) -> bool {
    forall|k: int| 0 <= k < cs.len() ==> clean_text(#[trigger] cs[k])
}

/// A table whose every cell is clean.
pub open spec fn clean_table(t: TableView) -> bool {
    clean_cells(t.0) && forall|r: int| 0 <= r < t.1.len() ==> clean_cells(#[trigger] t.1[r])
}

/// A line that can be no part of a box-drawing table: empty, or a clean
/// line that begins and ends with `'|'`.
pub open spec fn plain_line(l: Seq<char>) -> bool {
    l.len() == 0 || (l[0] == '|' && l.last() == '|' && clean_text(l))
}

proof fn lemma_escape_lacks(s: Seq<char>, c: char)
    requires
        lacks(s, c),
        c != '\\',
        c != '|',
    ensures
        lacks(escape_pipe_spec(s), c),
    decreases s.len(),
{
    if s.len() > 0 {
        let d = s.drop_last();
        assert forall|i: int| 0 <= i < d.len() implies d[i] != c by {
            assert(d[i] == s[i]);
        }
        lemma_escape_lacks(d, c);
        assert(s.last() != c);
        let tail = if s.last() == '|' {
            seq!['\\', '|']
        } else {
            seq![s.last()]
        };
        lemma_concat_lacks(escape_pipe_spec(d), tail, c);
    }
}

proof fn lemma_bar_line_lacks(parts: Seq<Seq<char>>, c: char)
    requires
        forall|k: int| 0 <= k < parts.len() ==> lacks(#[trigger] parts[k], c),
        c != '|',
        c != ' ',
    ensures
        lacks(bar_line(parts), c),
        bar_line(parts).len() > 0,
        bar_line(parts)[0] == '|',
        bar_line(parts).last() == '|',
{
    lemma_join_lacks(parts, seq![' ', '|', ' '], c);
    lemma_concat_lacks(seq!['|', ' '], join(parts, seq![' ', '|', ' ']), c);
    lemma_concat_lacks(seq!['|', ' '] + join(parts, seq![' ', '|', ' ']), seq![' ', '|'], c);
}

proof fn lemma_bar_line_plain(parts: Seq<Seq<char>>)
    requires
        clean_cells(parts),
    ensures
        plain_line(bar_line(parts)),
{
    assert forall|k: int| 0 <= k < parts.len() implies lacks(#[trigger] parts[k], '\n') by {
        assert(clean_text(parts[k]));
    }
    assert forall|k: int| 0 <= k < parts.len() implies lacks(#[trigger] parts[k], '│') by {
        assert(clean_text(parts[k]));
    }
    assert forall|k: int| 0 <= k < parts.len() implies lacks(#[trigger] parts[k], '┃') by {
        assert(clean_text(parts[k]));
    }
    assert forall|k: int| 0 <= k < parts.len() implies lacks(#[trigger] parts[k], '║') by {
        assert(clean_text(parts[k]));
    }
    lemma_bar_line_lacks(parts, '\n');
    lemma_bar_line_lacks(parts, '│');
    lemma_bar_line_lacks(parts, '┃');
    lemma_bar_line_lacks(parts, '║');
}

proof fn lemma_md_row_plain(cs: Seq<Seq<char>>)
    requires
        clean_cells(cs),
    ensures
        plain_line(md_row(cs)),
        md_row(cs).len() > 0,
{
    let esc = cs.map_values(|c: Seq<char>| escape_pipe_spec(c));
    assert forall|k: int| 0 <= k < esc.len() implies clean_text(#[trigger] esc[k]) by {
        assert(clean_text(cs[k]));
        lemma_escape_lacks(cs[k], '\n');
        lemma_escape_lacks(cs[k], '│');
        lemma_escape_lacks(cs[k], '┃');
        lemma_escape_lacks(cs[k], '║');
    }
    lemma_bar_line_plain(esc);
    lemma_bar_line_lacks(esc, '\n');
}

proof fn lemma_md_lines_plain(t: TableView)
    requires
        clean_table(t),
    ensures
        forall|k: int| 0 <= k < md_lines(t).len() ==> plain_line(#[trigger] md_lines(t)[k]) && md_lines(
            t,
        )[k].len() > 0,
{
    let ls = md_lines(t);
    let dashes = Seq::new(t.0.len(), |i: int| seq!['-', '-', '-']);
    assert(clean_cells(dashes));
    lemma_bar_line_plain(dashes);
    lemma_bar_line_lacks(dashes, '\n');
    lemma_md_row_plain(t.0);
    assert forall|k: int| 0 <= k < ls.len() implies plain_line(#[trigger] ls[k]) && ls[k].len()
        > 0 by {
        if k >= 2 {
            assert(ls[k] == md_row(t.1[k - 2]));
            lemma_md_row_plain(t.1[k - 2]);
        }
    }
}

/// A table none of whose cells holds a line feed.
pub open spec fn newline_free_table(t: TableView) -> bool {
    &&& forall|k: int| 0 <= k < t.0.len() ==> lacks(#[trigger] t.0[k], '\n')
    &&& forall|r: int, k: int|
        0 <= r < t.1.len() && 0 <= k < t.1[r].len() ==> lacks(#[trigger] t.1[r][k], '\n')
}

proof fn lemma_md_row_lacks_newline(cs: Seq<Seq<char>>)
    requires
        forall|k: int| 0 <= k < cs.len() ==> lacks(#[trigger] cs[k], '\n'),
    ensures
        lacks(md_row(cs), '\n'),
{
    let esc = cs.map_values(|c: Seq<char>| escape_pipe_spec(c));
    assert forall|k: int| 0 <= k < esc.len() implies lacks(#[trigger] esc[k], '\n') by {
        lemma_escape_lacks(cs[k], '\n');
    }
    lemma_bar_line_lacks(esc, '\n');
}

/// The lines of the Markdown text of a table whose cells hold no line feed
/// are its header line, its rule line and one line per data row: two more
/// lines than the table has rows. The header line and the rule line have
/// one cell border more than the header has cells, and each data row's line
/// one more than that row has cells (a line without cells has two).
pub proof fn law_markdown_lines(t: TableView)
    requires
        newline_free_table(t),
    ensures
        lines(markdown(t)) == md_lines(t),
        lines(markdown(t)).len() == t.1.len() + 2,
        border_count(lines(markdown(t))[0]) == bars_for(t.0.len()),
        border_count(lines(markdown(t))[1]) == bars_for(t.0.len()),
        forall|r: int|
            0 <= r < t.1.len() ==> border_count(#[trigger] lines(markdown(t))[r + 2]) == bars_for(
                t.1[r].len(),
            ),
{
    let ls = md_lines(t);
    let dashes = Seq::new(t.0.len(), |i: int| seq!['-', '-', '-']);
    assert forall|k: int| 0 <= k < dashes.len() implies lacks(#[trigger] dashes[k], '\n') by {
        assert(dashes[k] == seq!['-', '-', '-']);
    }
    lemma_bar_line_lacks(dashes, '\n');
    lemma_md_row_lacks_newline(t.0);
    assert forall|k: int| 0 <= k < ls.len() implies lacks(#[trigger] ls[k], '\n') by {
        if k >= 2 {
            assert(ls[k] == md_row(t.1[k - 2]));
            let row = t.1[k - 2];
            assert forall|j: int| 0 <= j < row.len() implies lacks(#[trigger] row[j], '\n') by {
                assert(lacks(t.1[k - 2][j], '\n'));
            }
            lemma_md_row_lacks_newline(row);
        }
    }
    lemma_lines_of_join(ls);
    law_md_row_borders(t.0);
    law_rule_row_borders(t.0.len());
    assert forall|r: int| 0 <= r < t.1.len() implies border_count(
        #[trigger] lines(markdown(t))[r + 2],
    ) == bars_for(t.1[r].len()) by {
        assert(ls[r + 2] == md_row(t.1[r]));
        law_md_row_borders(t.1[r]);
    }
}

proof fn lemma_trim_clean(s: Seq<char>)
    requires
        clean_text(s),
    ensures
        clean_text(trim(s)),
{
    let r = lemma_trim_shape(s);
    assert forall|c: char| lacks(s, c) implies lacks(trim(s), c) by {
        assert forall|i: int| 0 <= i < trim(s).len() implies trim(s)[i] != c by {
            assert(trim(s)[i] == s[r.0 + i]);
        }
    }
}

proof fn lemma_cells_clean(line: Seq<char>)
    requires
        lacks(line, '\n'),
    ensures
        clean_cells(cells(line)),
{
    let segs = segments(line, vertical_sep());
    lemma_segments_nonempty(line, vertical_sep());
    lemma_segments_lack(line, vertical_sep());
    let p = |c: char| c != '\n';
    lemma_segments_chars(line, vertical_sep(), p);
    assert forall|k: int| 0 <= k < segs.len() implies clean_text(#[trigger] segs[k]) by {
        assert forall|i: int| 0 <= i < segs[k].len() implies segs[k][i] != '\n' && !is_vertical(
            segs[k][i],
        ) by {
            assert(p(segs[k][i]));
            assert(!vertical_sep()(segs[k][i]));
        }
    }
    let cand = cell_candidates(line);
    assert forall|k: int| 0 <= k < cand.len() implies clean_text(#[trigger] cand[k]) by {
        if k < segs.len() - 1 {
            assert(cand[k] == trim(segs[k]));
            lemma_trim_clean(segs[k]);
        } else {
            assert(cand[k] == trim(segs[segs.len() - 1]));
            lemma_trim_clean(segs[segs.len() - 1]);
        }
    }
    let c = cells(line);
    assert forall|k: int| 0 <= k < c.len() implies clean_text(#[trigger] c[k]) by {
        if cand.len() > 0 && cand[0].len() == 0 {
            assert(c[k] == cand[k + 1]);
        }
    }
}

/// All lines of `ls` hold no line feed.
pub open spec fn lines_lack_newline(ls: Seq<Seq<char>>) -> bool {
    forall|k: int| 0 <= k < ls.len() ==> lacks(#[trigger] ls[k], '\n')
}

proof fn lemma_data_rows_clean(ls: Seq<Seq<char>>)
    requires
        lines_lack_newline(ls),
    ensures
        forall|r: int| 0 <= r < data_rows(ls).len() ==> clean_cells(#[trigger] data_rows(ls)[r]),
    decreases ls.len(),
{
    if ls.len() > 0 {
        let d = ls.drop_last();
        assert forall|k: int| 0 <= k < d.len() implies lacks(#[trigger] d[k], '\n') by {
            assert(d[k] == ls[k]);
        }
        lemma_data_rows_clean(d);
        assert(lacks(ls[ls.len() - 1], '\n'));
        lemma_cells_clean(ls.last());
        let prev = data_rows(d);
        let cur = data_rows(ls);
        assert forall|r: int| 0 <= r < cur.len() implies clean_cells(#[trigger] cur[r]) by {
            if r < prev.len() {
                assert(cur[r] == prev[r]);
            } else {
                assert(cur[r] == cells(ls.last()));
            }
        }
    }
}

proof fn lemma_tables_clean(ls: Seq<Seq<char>>)
    requires
        lines_lack_newline(ls),
    ensures
        forall|k: int| 0 <= k < tables_in(ls).len() ==> clean_table(#[trigger] tables_in(ls)[k]),
    decreases ls.len(),
{
    if ls.len() > 0 {
        if !is_table_line(ls[0]) {
            let d = ls.drop_first();
            assert forall|k: int| 0 <= k < d.len() implies lacks(#[trigger] d[k], '\n') by {
                assert(d[k] == ls[k + 1]);
            }
            lemma_tables_clean(d);
            assert(tables_in(ls) == tables_in(d));
        } else {
            lemma_run_len_bound(ls);
            let n = run_len(ls) as int;
            let head = ls.take(n);
            let rest = ls.skip(n);
            assert forall|k: int| 0 <= k < head.len() implies lacks(#[trigger] head[k], '\n') by {
                assert(head[k] == ls[k]);
            }
            assert forall|k: int| 0 <= k < rest.len() implies lacks(#[trigger] rest[k], '\n') by {
                assert(rest[k] == ls[k + n]);
            }
            lemma_data_rows_clean(head);
            lemma_tables_clean(rest);
            let rows = data_rows(head);
            if rows.len() > 0 {
                let t = table_of(rows);
                assert(clean_cells(rows[0]));
                assert forall|r: int| 0 <= r < t.1.len() implies clean_cells(#[trigger] t.1[r]) by {
                    assert(t.1[r] == rows[r + 1]);
                }
                let all = tables_in(ls);
                assert(all == seq![t] + tables_in(rest));
                assert forall|k: int| 0 <= k < all.len() implies clean_table(#[trigger] all[k]) by {
                    if k > 0 {
                        assert(all[k] == tables_in(rest)[k - 1]);
                    }
                }
            } else {
                assert(tables_in(ls) == tables_in(rest));
            }
        }
    }
}

/// Every table that `parse_tables` finds has cells without line feed and
/// without vertical separator.
pub proof fn law_parsed_cells_clean(input: Seq<char>)
    ensures
        parsed_tables(input) matches Some(ts) ==> forall|k: int|
            0 <= k < ts.len() ==> clean_table(#[trigger] ts[k]),
{
    lemma_lines_lack_newline(input);
    lemma_tables_clean(lines(input));
}

proof fn lemma_plain_not_table(l: Seq<char>)
    requires
        plain_line(l),
    ensures
        !is_table_line(l),
{
    if l.len() == 0 {
        assert(trim_start(l) == l);
        assert(trim_end(l) == l);
        assert(!is_separator_line(l));
    } else {
        assert(!is_space(l[0]));
        assert(trim_start(l) == l);
        assert(!is_space(l.last()));
        assert(trim_end(l) == l);
        assert(trim(l) == l);
        assert(!is_separator_line(l)) by {
            assert(trim(l)[0] == '|');
            assert(!is_border_char(trim(l)[0]));
        }
        assert(!is_data_line(l)) by {
            assert forall|i: int| 0 <= i < l.len() implies !is_vertical(#[trigger] l[i]) by {
                assert(lacks(l, '│'));
                assert(lacks(l, '┃'));
                assert(lacks(l, '║'));
            }
        }
    }
}

proof fn lemma_no_tables(ls: Seq<Seq<char>>)
    requires
        forall|k: int| 0 <= k < ls.len() ==> plain_line(#[trigger] ls[k]),
    ensures
        tables_in(ls).len() == 0,
    decreases ls.len(),
{
    if ls.len() > 0 {
        assert(plain_line(ls[0]));
        lemma_plain_not_table(ls[0]);
        let d = ls.drop_first();
        assert forall|k: int| 0 <= k < d.len() implies plain_line(#[trigger] d[k]) by {
            assert(d[k] == ls[k + 1]);
        }
        lemma_no_tables(d);
    }
}

/// The lines of several blocks with an empty line between each two.
pub open spec fn blank_separated(blocks: Seq<Seq<Seq<char>>>) -> Seq<Seq<char>>
    decreases blocks.len(),
{
    if blocks.len() == 0 {
        Seq::<Seq<char>>::empty()
    } else if blocks.len() == 1 {
        blocks[0]
    } else {
        blank_separated(blocks.drop_last()) + seq![Seq::<char>::empty()] + blocks.last()
    }
}

proof fn lemma_blank_join(blocks: Seq<Seq<Seq<char>>>)
    requires
        blocks.len() > 0,
        forall|k: int| 0 <= k < blocks.len() ==> (#[trigger] blocks[k]).len() > 0,
    ensures
        join(blocks.map_values(|b: Seq<Seq<char>>| join(b, seq!['\n'])), seq!['\n', '\n']) == join(
            blank_separated(blocks),
            seq!['\n'],
        ),
        blank_separated(blocks).len() > 0,
    decreases blocks.len(),
{
    let m = blocks.map_values(|b: Seq<Seq<char>>| join(b, seq!['\n']));
    if blocks.len() == 1 {
        assert(m[0] == join(blocks[0], seq!['\n']));
    } else {
        let d = blocks.drop_last();
        assert forall|k: int| 0 <= k < d.len() implies (#[trigger] d[k]).len() > 0 by {
            assert(d[k] == blocks[k]);
        }
        lemma_blank_join(d);
        assert(m.drop_last() =~= d.map_values(|b: Seq<Seq<char>>| join(b, seq!['\n'])));
        let bd = blank_separated(d);
        let with_blank = bd + seq![Seq::<char>::empty()];
        assert(with_blank.drop_last() =~= bd);
        assert(blocks.last().len() > 0) by {
            assert(blocks[blocks.len() - 1].len() > 0);
        }
        lemma_join_concat(with_blank, blocks.last(), seq!['\n']);
        assert(join(bd, seq!['\n']) + seq!['\n', '\n'] + join(blocks.last(), seq!['\n']) =~= join(
            bd,
            seq!['\n'],
        ) + seq!['\n'] + Seq::<char>::empty() + seq!['\n'] + join(blocks.last(), seq!['\n']));
    }
}

proof fn lemma_blank_plain(blocks: Seq<Seq<Seq<char>>>)
    requires
        forall|k: int, i: int|
            0 <= k < blocks.len() && 0 <= i < blocks[k].len() ==> plain_line(#[trigger] blocks[k][i]),
    ensures
        forall|i: int|
            0 <= i < blank_separated(blocks).len() ==> plain_line(#[trigger] blank_separated(blocks)[i]),
    decreases blocks.len(),
{
    if blocks.len() == 1 {
        assert forall|i: int| 0 <= i < blank_separated(blocks).len() implies plain_line(
            #[trigger] blank_separated(blocks)[i],
        ) by {
            assert(blank_separated(blocks)[i] == blocks[0][i]);
        }
    } else if blocks.len() > 1 {
        let d = blocks.drop_last();
        assert forall|k: int, i: int| 0 <= k < d.len() && 0 <= i < d[k].len() implies plain_line(
            #[trigger] d[k][i],
        ) by {
            assert(d[k] == blocks[k]);
        }
        lemma_blank_plain(d);
        let bd = blank_separated(d);
        let all = blank_separated(blocks);
        let last = blocks.last();
        assert forall|i: int| 0 <= i < all.len() implies plain_line(#[trigger] all[i]) by {
            if i < bd.len() {
                assert(all[i] == bd[i]);
            } else if i == bd.len() {
                assert(all[i] == Seq::<char>::empty());
            } else {
                assert(all[i] == last[i - bd.len() - 1]);
                assert(last[i - bd.len() - 1] == blocks[blocks.len() - 1][i - bd.len() - 1]);
            }
        }
    }
}

/// The Markdown that `convert_to_markdown` writes holds no box-drawing
/// table: converting it again finds none. So a press that follows a
/// conversion, with that Markdown on the clipboard, carries the cycle on to
/// the next format instead of starting it over.
pub proof fn law_markdown_is_not_a_table(input: Seq<char>)
    ensures
        converted(input) matches Some(md) ==> parsed_tables(md) is None,
{
    if let Some(ts) = parsed_tables(input) {
        law_parsed_cells_clean(input);
        let blocks = ts.map_values(|t: TableView| md_lines(t));
        assert forall|k: int| 0 <= k < blocks.len() implies (#[trigger] blocks[k]).len() > 0 by {
            assert(blocks[k] == md_lines(ts[k]));
        }
        assert forall|k: int, i: int| 0 <= k < blocks.len() && 0 <= i < blocks[k].len() implies plain_line(
            #[trigger] blocks[k][i],
        ) by {
            assert(blocks[k] == md_lines(ts[k]));
            assert(clean_table(ts[k]));
            lemma_md_lines_plain(ts[k]);
        }
        lemma_blank_join(blocks);
        assert(blocks.map_values(|b: Seq<Seq<char>>| join(b, seq!['\n'])) =~= ts.map_values(
            |t: TableView| markdown(t),
        ));
        let flat = blank_separated(blocks);
        let md = join(flat, seq!['\n']);
        assert(markdown_of_tables(ts) == md);
        lemma_blank_plain(blocks);
        assert forall|k: int| 0 <= k < flat.len() implies lacks(#[trigger] flat[k], '\n') by {
            assert(plain_line(flat[k]));
        }
        lemma_segments_of_join(flat);
        let segs = segments(md, newline_sep());
        let ls = lines(md);
        assert forall|k: int| 0 <= k < ls.len() implies plain_line(#[trigger] ls[k]) by {
            if k < segs.len() - 1 {
                assert(ls[k] == strip_cr(segs[k]));
                assert(plain_line(flat[k]));
                assert(strip_cr(flat[k]) == flat[k]);
            } else {
                assert(ls[k] == segs[segs.len() - 1]);
                assert(plain_line(flat[flat.len() - 1]));
            }
        }
        lemma_no_tables(ls);
    }
}


proof fn lemma_run_len_prefix(a: Seq<Seq<char>>, c: Seq<Seq<char>>)
    requires
        c.len() > 0,
        !is_table_line(c[0]),
    ensures
        run_len(a + c) == run_len(a),
    decreases a.len(),
{
    if a.len() == 0 {
        assert(a + c =~= c);
    } else {
        assert((a + c)[0] == a[0]);
        if is_table_line(a[0]) {
            assert((a + c).drop_first() =~= a.drop_first() + c);
            lemma_run_len_prefix(a.drop_first(), c);
        }
    }
}

/// A line that is no part of a table separates the tables before it from
/// those after it.
pub proof fn lemma_tables_split(a: Seq<Seq<char>>, p: Seq<char>, b: Seq<Seq<char>>)
    requires
        !is_table_line(p),
    ensures
        tables_in(a + seq![p] + b) == tables_in(a) + tables_in(b),
    decreases a.len(),
{
    let all = a + seq![p] + b;
    if a.len() == 0 {
        assert(all[0] == p);
        assert(all.drop_first() =~= b);
        assert(tables_in(a) =~= Seq::<TableView>::empty());
        assert(tables_in(all) == tables_in(b));
        assert(Seq::<TableView>::empty() + tables_in(b) =~= tables_in(b));
    } else if !is_table_line(a[0]) {
        assert(all[0] == a[0]);
        assert(all.drop_first() =~= a.drop_first() + seq![p] + b);
        lemma_tables_split(a.drop_first(), p, b);
    } else {
        assert(all[0] == a[0]);
        let c = seq![p] + b;
        assert(all =~= a + c);
        assert(c[0] == p);
        lemma_run_len_prefix(a, c);
        lemma_run_len_bound(a);
        let n = run_len(a) as int;
        assert(all.take(n) =~= a.take(n));
        assert(all.skip(n) =~= a.skip(n) + seq![p] + b);
        lemma_tables_split(a.skip(n), p, b);
        let rows = data_rows(a.take(n));
        if rows.len() > 0 {
            assert(seq![table_of(rows)] + (tables_in(a.skip(n)) + tables_in(b)) =~= (seq![
                table_of(rows),
            ] + tables_in(a.skip(n))) + tables_in(b));
        }
    }
}

/// The tables of a parse result, none where there are none.
pub open spec fn table_list(r: Option<Seq<TableView>>) -> Seq<TableView> {
    match r {
        Some(ts) => ts,
        None => Seq::<TableView>::empty(),
    }
}

proof fn lemma_empty_not_table()
    ensures
        !is_table_line(Seq::<char>::empty()),
{
    let e = Seq::<char>::empty();
    assert(trim_start(e) == e);
    assert(trim_end(e) == e);
}

/// Two lines of the same kind: both table lines or neither, both data lines
/// or neither, and with the same cells.
pub open spec fn same_line_kind(x: Seq<char>, y: Seq<char>) -> bool {
    is_table_line(x) == is_table_line(y) && is_data_line(x) == is_data_line(y) && cells(x) == cells(
        y,
    )
}

/// Two lists of lines, line by line of the same kind.
pub open spec fn same_lines(xs: Seq<Seq<char>>, ys: Seq<Seq<char>>) -> bool {
    xs.len() == ys.len() && forall|k: int| 0 <= k < xs.len() ==> same_line_kind(#[trigger] xs[k], ys[k])
}

/// A line without its final carriage return is a line of the same kind.
proof fn lemma_strip_cr_same(x: Seq<char>)
    ensures
        same_line_kind(strip_cr(x), x),
{
    if x.len() > 0 && x.last() == '\r' {
        let y = x.drop_last();
        assert(strip_cr(x) == y);
        assert(is_space(x.last()));
        lemma_trim_drop_space(x);
        assert(is_separator_line(x) == is_separator_line(y));
        if is_data_line(x) {
            let i = choose|i: int| 0 <= i < x.len() && #[trigger] is_vertical(x[i]);
            assert(i < y.len());
            assert(is_vertical(y[i]));
        }
        if is_data_line(y) {
            let i = choose|i: int| 0 <= i < y.len() && #[trigger] is_vertical(y[i]);
            assert(x[i] == y[i]);
        }
        lemma_segments_nonempty(y, vertical_sep());
        let sy = segments(y, vertical_sep());
        assert(!vertical_sep()(x.last()));
        assert(segments(x, vertical_sep()) == sy.drop_last().push(sy.last().push('\r')));
        let ly = sy.last();
        assert(ly.push('\r').drop_last() =~= ly);
        lemma_trim_drop_space(ly.push('\r'));
        assert(sy.drop_last().push(sy.last().push('\r')).drop_last() =~= sy.drop_last());
        assert(cell_candidates(x) =~= cell_candidates(y));
    }
}

proof fn lemma_run_len_same(xs: Seq<Seq<char>>, ys: Seq<Seq<char>>)
    requires
        same_lines(xs, ys),
    ensures
        run_len(xs) == run_len(ys),
    decreases xs.len(),
{
    if xs.len() > 0 {
        assert(same_line_kind(xs[0], ys[0]));
        let dx = xs.drop_first();
        let dy = ys.drop_first();
        assert forall|k: int| 0 <= k < dx.len() implies same_line_kind(#[trigger] dx[k], dy[k]) by {
            assert(same_line_kind(xs[k + 1], ys[k + 1]));
        }
        lemma_run_len_same(dx, dy);
    }
}

proof fn lemma_data_rows_same(xs: Seq<Seq<char>>, ys: Seq<Seq<char>>)
    requires
        same_lines(xs, ys),
    ensures
        data_rows(xs) == data_rows(ys),
    decreases xs.len(),
{
    if xs.len() > 0 {
        let dx = xs.drop_last();
        let dy = ys.drop_last();
        assert forall|k: int| 0 <= k < dx.len() implies same_line_kind(#[trigger] dx[k], dy[k]) by {
            assert(same_line_kind(xs[k], ys[k]));
        }
        lemma_data_rows_same(dx, dy);
        assert(same_line_kind(xs[xs.len() - 1], ys[ys.len() - 1]));
    }
}

/// Lists of lines that are line by line of the same kind hold the same tables.
proof fn lemma_tables_same(xs: Seq<Seq<char>>, ys: Seq<Seq<char>>)
    requires
        same_lines(xs, ys),
    ensures
        tables_in(xs) == tables_in(ys),
    decreases xs.len(),
{
    if xs.len() > 0 {
        assert(same_line_kind(xs[0], ys[0]));
        if !is_table_line(xs[0]) {
            let dx = xs.drop_first();
            let dy = ys.drop_first();
            assert forall|k: int| 0 <= k < dx.len() implies same_line_kind(#[trigger] dx[k], dy[k]) by {
                assert(same_line_kind(xs[k + 1], ys[k + 1]));
            }
            lemma_tables_same(dx, dy);
        } else {
            lemma_run_len_same(xs, ys);
            lemma_run_len_bound(xs);
            let n = run_len(xs) as int;
            let tx = xs.take(n);
            let ty = ys.take(n);
            assert forall|k: int| 0 <= k < tx.len() implies same_line_kind(#[trigger] tx[k], ty[k]) by {
                assert(same_line_kind(xs[k], ys[k]));
            }
            lemma_data_rows_same(tx, ty);
            let sx = xs.skip(n);
            let sy = ys.skip(n);
            assert forall|k: int| 0 <= k < sx.len() implies same_line_kind(#[trigger] sx[k], sy[k]) by {
                assert(same_line_kind(xs[k + n], ys[k + n]));
            }
            lemma_tables_same(sx, sy);
        }
    }
}

/// Text made of a first part, a line that is no part of a table, and a
/// second part, joined by line feeds, holds the tables of the first part
/// followed by those of the second; it holds none exactly when neither part
/// does.
pub proof fn law_tables_split(a: Seq<char>, p: Seq<char>, b: Seq<char>)
    requires
        lacks(p, '\n'),
        !is_table_line(p),
    ensures
        table_list(parsed_tables(a + seq!['\n'] + p + seq!['\n'] + b)) == table_list(
            parsed_tables(a),
        ) + table_list(parsed_tables(b)),
        parsed_tables(a + seq!['\n'] + p + seq!['\n'] + b) is None <==> (parsed_tables(a) is None
            && parsed_tables(b) is None),
{
    let full = a + seq!['\n'] + p + seq!['\n'] + b;
    let rest = p + seq!['\n'] + b;
    assert(full =~= a + seq!['\n'] + rest);
    lemma_segments_newline_concat(a, rest);
    lemma_segments_newline_concat(p, b);
    let e = Seq::<char>::empty();
    assert forall|i: int| 0 <= i < p.len() implies !newline_sep()(#[trigger] p[i]) by {
        assert(p[i] != '\n');
    }
    lemma_segments_append(e, p, newline_sep());
    assert(e + p =~= p);
    let sa = segments(a, newline_sep());
    let sb = segments(b, newline_sep());
    lemma_segments_nonempty(a, newline_sep());
    lemma_segments_nonempty(b, newline_sep());
    assert(segments(p, newline_sep()) =~= seq![p]) by {
        assert(segments(e, newline_sep()) =~= seq![e]);
        assert(seq![e].drop_last().push(e + p) =~= seq![p]);
    }
    let s = segments(full, newline_sep());
    assert(s =~= sa + seq![p] + sb);
    let f = |l: Seq<char>| strip_cr(l);
    let sam = sa.map_values(f);
    let pc = strip_cr(p);
    lemma_strip_cr_same(p);
    assert(s.drop_last() =~= sa + seq![p] + sb.drop_last());
    assert(s.last() == sb.last());
    assert(s.drop_last().map_values(f) =~= sam + seq![pc] + sb.drop_last().map_values(f));
    let lb = lines(b);
    assert(lines(full) =~= sam + seq![pc] + lb);
    lemma_tables_split(sam, pc, lb);
    let la = lines(a);
    if sa.last().len() > 0 {
        assert(la =~= sa.drop_last().map_values(f) + seq![sa.last()]);
        assert forall|k: int| 0 <= k < la.len() implies same_line_kind(#[trigger] la[k], sam[k]) by {
            lemma_strip_cr_same(sa[k]);
            if k < la.len() - 1 {
                assert(la[k] == strip_cr(sa[k]));
            } else {
                assert(la[k] == sa[k]);
                lemma_strip_cr_same(sa[k]);
            }
        }
        lemma_tables_same(la, sam);
    } else {
        assert(strip_cr(sa.last()) == sa.last());
        assert(la =~= sam.drop_last());
        assert(sam =~= la + seq![Seq::<char>::empty()] + Seq::<Seq<char>>::empty());
        lemma_empty_not_table();
        lemma_tables_split(la, Seq::<char>::empty(), Seq::<Seq<char>>::empty());
        assert(tables_in(Seq::<Seq<char>>::empty()) =~= Seq::<TableView>::empty());
        assert(tables_in(la) + Seq::<TableView>::empty() =~= tables_in(la));
    }
}

/// A line that gives a table row: a data line with at least one cell.
pub open spec fn gives_row(l: Seq<char>) -> bool {
    is_data_line(l) && cells(l).len() > 0
}

proof fn lemma_data_rows_filter(ls: Seq<Seq<char>>)
    ensures
        data_rows(ls) == ls.filter(|l: Seq<char>| gives_row(l)).map_values(|l: Seq<char>| cells(l)),
    decreases ls.len(),
{
    reveal(Seq::filter);
    if ls.len() > 0 {
        lemma_data_rows_filter(ls.drop_last());
        let f = |l: Seq<char>| gives_row(l);
        let g = |l: Seq<char>| cells(l);
        let prev = ls.drop_last().filter(f);
        if gives_row(ls.last()) {
            assert(ls.filter(f) == prev.push(ls.last()));
            assert(prev.push(ls.last()).map_values(g) =~= prev.map_values(g).push(cells(ls.last())));
        } else {
            assert(ls.filter(f) == prev);
        }
    }
}

/// A text whose every line belongs to a table is one table with a row for
/// each of its data lines that has cells, in order, the first of them the
/// header: no such line is left out and none is added, however many there
/// are. Without such a line the text holds no table.
pub proof fn law_block_rows(input: Seq<char>)
    requires
        forall|k: int| 0 <= k < lines(input).len() ==> is_table_line(#[trigger] lines(input)[k]),
    ensures
        ({
            let rows = lines(input).filter(|l: Seq<char>| gives_row(l)).map_values(
                |l: Seq<char>| cells(l),
            );
            &&& rows.len() == 0 ==> parsed_tables(input) is None
            &&& rows.len() > 0 ==> parsed_tables(input) == Some(seq![(rows[0], rows.drop_first())])
            &&& parsed_tables(input) matches Some(ts) ==> ts.len() == 1 && ts[0].1.len() + 1
                == rows.len()
        }),
{
    let ls = lines(input);
    lemma_data_rows_filter(ls);
    if ls.len() == 0 {
        assert(tables_in(ls) =~= Seq::<TableView>::empty());
    } else {
        lemma_run_len_exact(ls, ls.len() as int);
        assert(ls.take(ls.len() as int) =~= ls);
        assert(ls.skip(ls.len() as int) =~= Seq::<Seq<char>>::empty());
        assert(tables_in(Seq::<Seq<char>>::empty()) =~= Seq::<TableView>::empty());
        let rows = data_rows(ls);
        if rows.len() > 0 {
            assert(tables_in(ls) =~= seq![table_of(rows)]);
        } else {
            assert(tables_in(ls) =~= Seq::<TableView>::empty());
        }
    }
}

/// A table row as drawn: the separator `v`, then each part followed by `v`.
pub open spec fn bordered(parts: Seq<Seq<char>>, v: char) -> Seq<char>
    decreases parts.len(),
{
    if parts.len() == 0 {
        seq![v]
    } else {
        bordered(parts.drop_last(), v) + parts.last() + seq![v]
    }
}

proof fn lemma_bordered_segments(parts: Seq<Seq<char>>, v: char)
    requires
        is_vertical(v),
        forall|k: int, i: int|
            0 <= k < parts.len() && 0 <= i < parts[k].len() ==> !is_vertical(#[trigger] parts[k][i]),
    ensures
        segments(bordered(parts, v), vertical_sep()) == seq![Seq::<char>::empty()] + parts + seq![
            Seq::<char>::empty(),
        ],
    decreases parts.len(),
{
    let sep = vertical_sep();
    let e = Seq::<char>::empty();
    if parts.len() == 0 {
        assert(seq![v].drop_last() =~= e);
        assert(segments(e, sep) == seq![e]);
        assert(segments(seq![v], sep) =~= seq![e] + parts + seq![e]);
    } else {
        let d = parts.drop_last();
        assert forall|k: int, i: int| 0 <= k < d.len() && 0 <= i < d[k].len() implies !is_vertical(
            #[trigger] d[k][i],
        ) by {
            assert(d[k] == parts[k]);
        }
        lemma_bordered_segments(d, v);
        let b = bordered(d, v);
        let p = parts.last();
        assert forall|i: int| 0 <= i < p.len() implies !sep(#[trigger] p[i]) by {
            assert(p[i] == parts[parts.len() - 1][i]);
        }
        lemma_segments_append(b, p, sep);
        let bp = b + p;
        let whole = bp + seq![v];
        assert(whole.drop_last() =~= bp);
        assert(whole.last() == v);
        let sb = segments(b, sep);
        assert(sb.last() + p =~= p);
        assert(segments(whole, sep) == segments(bp, sep).push(e));
        assert(segments(whole, sep) =~= seq![e] + parts + seq![e]);
    }
}

/// The cells of a row drawn with vertical separators around and between
/// its parts are the parts themselves, trimmed, one cell per part, in order.
pub proof fn law_cells_of_drawn_row(parts: Seq<Seq<char>>, v: char)
    requires
        parts.len() > 0,
        is_vertical(v),
        forall|k: int, i: int|
            0 <= k < parts.len() && 0 <= i < parts[k].len() ==> !is_vertical(#[trigger] parts[k][i]),
    ensures
        is_data_line(bordered(parts, v)),
        cells(bordered(parts, v)) == parts.map_values(|p: Seq<char>| trim(p)),
{
    let line = bordered(parts, v);
    lemma_bordered_segments(parts, v);
    let e = Seq::<char>::empty();
    let segs = segments(line, vertical_sep());
    assert(segs.last() == e);
    assert(trim(e) =~= e);
    let cand = cell_candidates(line);
    assert(segs.drop_last() =~= seq![e] + parts);
    assert(cand =~= (seq![e] + parts).map_values(|s: Seq<char>| trim(s)));
    assert(cand[0] == e);
    assert(cells(line) =~= parts.map_values(|p: Seq<char>| trim(p)));
    if parts.len() == 1 {
        assert(line == bordered(parts.drop_last(), v) + parts.last() + seq![v]);
    }
    assert(line[line.len() - 1] == v);
}

} // verus!
