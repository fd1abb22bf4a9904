//! The text and layout logic behind the table image: emoji detection, SVG
//! escaping, column widths and the splitting of cell text into font runs.

use vstd::prelude::*;
use crate::parser::{Table, TableView};
use crate::text::{append_chars, chars_of, lacks, lemma_concat_lacks, string_of, string_rows};
use unicode_width::UnicodeWidthStr;

verus! {

/// A rendered table image: its size in pixels and its RGBA bytes.
pub struct TableImage {
    pub width: usize,
    pub height: usize,
    pub rgba_data: Vec<u8>,
}

/// A code point drawn with the emoji font.
pub open spec fn is_emoji_code(cp: u32) -> bool {
    ||| (0x231A <= cp <= 0x231B)
    ||| (0x23E9 <= cp <= 0x23F3)
    ||| (0x23F8 <= cp <= 0x23FA)
    ||| (0x25AA <= cp <= 0x25AB)
    ||| cp == 0x25B6 || cp == 0x25C0
    ||| (0x25FB <= cp <= 0x25FE)
    ||| (0x2600 <= cp <= 0x27BF)
    ||| (0x2934 <= cp <= 0x2935)
    ||| (0x2B05 <= cp <= 0x2B07)
    ||| (0x2B1B <= cp <= 0x2B1C)
    ||| cp == 0x2B50 || cp == 0x2B55
    ||| cp == 0x3030 || cp == 0x303D
    ||| cp == 0x3297 || cp == 0x3299
    ||| (0xFE00 <= cp <= 0xFE0F)
    ||| (0x1F000 <= cp <= 0x1FAFF)
    ||| cp == 0x200D
    ||| cp == 0x20E3
    ||| (0xE0020 <= cp <= 0xE007F)
}

/// A character drawn with the emoji font.
pub open spec fn is_emoji_spec(c: char) -> bool {
    is_emoji_code(c as u32)
}

/// Check if a character is an emoji (needs the emoji font).
pub fn is_emoji(c: char) -> (res: bool)
    ensures
        res == is_emoji_spec(c),
{
    let cp = c as u32;
    (0x231A <= cp && cp <= 0x231B) || (0x23E9 <= cp && cp <= 0x23F3) || (0x23F8 <= cp && cp
        <= 0x23FA) || (0x25AA <= cp && cp <= 0x25AB) || cp == 0x25B6 || cp == 0x25C0 || (0x25FB
        <= cp && cp <= 0x25FE) || (0x2600 <= cp && cp <= 0x27BF) || (0x2934 <= cp && cp <= 0x2935)
        || (0x2B05 <= cp && cp <= 0x2B07) || (0x2B1B <= cp && cp <= 0x2B1C) || cp == 0x2B50 || cp
        == 0x2B55 || cp == 0x3030 || cp == 0x303D || cp == 0x3297 || cp == 0x3299 || (0xFE00 <= cp
        && cp <= 0xFE0F) || (0x1F000 <= cp && cp <= 0x1FAFF) || cp == 0x200D || cp == 0x20E3 || (
    0xE0020 <= cp && cp <= 0xE007F)
}


/// Whether a text holds a character drawn with the emoji font.
pub open spec fn has_emoji_spec(text: Seq<char>) -> bool {
    exists|i: int| 0 <= i < text.len() && #[trigger] is_emoji_spec(text[i])
}

/// Check if text contains any emoji characters.
pub fn has_emoji(text: &str) -> (res: bool)
    ensures
        res == has_emoji_spec(text@),
{
    let cs = chars_of(text);
    let mut i: usize = 0;
    while i < cs.len()
        invariant
            i <= cs@.len(),
            cs@ == text@,
            forall|k: int| 0 <= k < i ==> !#[trigger] is_emoji_spec(cs@[k]),
        decreases cs.len() - i,
    {
        if is_emoji(cs[i]) {
            return true;
        }
        i += 1;
    }
    false
}

/// The SVG text of one character: `&`, `<`, `>` and `"` as entity references.
pub open spec fn svg_char(c: char) -> Seq<char> {
    if c == '&' {
        seq!['&', 'a', 'm', 'p', ';']
    } else if c == '<' {
        seq!['&', 'l', 't', ';']
    } else if c == '>' {
        seq!['&', 'g', 't', ';']
    } else if c == '"' {
        seq!['&', 'q', 'u', 'o', 't', ';']
    } else {
        seq![c]
    }
}

/// `text` with each character written as `svg_char` writes it.
pub open spec fn escape_svg_spec(text: Seq<char>) -> Seq<char>
    decreases text.len(),
{
    if text.len() == 0 {
        Seq::<char>::empty()
    } else {
        escape_svg_spec(text.drop_last()) + svg_char(text.last())
    }
}

/// Escape the characters that SVG text cannot hold as they are.
pub fn escape_svg(text: &str) -> (res: String)
    ensures
        res@ == escape_svg_spec(text@),
{
    let cs = chars_of(text);
    let mut out: Vec<char> = Vec::new();
    let mut i: usize = 0;
    while i < cs.len()
        invariant
            i <= cs@.len(),
            out@ == escape_svg_spec(cs@.take(i as int)),
        decreases cs.len() - i,
    {
        let c = cs[i];
        assert(cs@.take(i + 1).drop_last() =~= cs@.take(i as int));
        assert(cs@.take(i + 1).last() == c);
        if c == '&' {
            append_chars(&mut out, &['&', 'a', 'm', 'p', ';']);
        } else if c == '<' {
            append_chars(&mut out, &['&', 'l', 't', ';']);
        } else if c == '>' {
            append_chars(&mut out, &['&', 'g', 't', ';']);
        } else if c == '"' {
            append_chars(&mut out, &['&', 'q', 'u', 'o', 't', ';']);
        } else {
            out.push(c);
        }
        i += 1;
        assert(out@ =~= escape_svg_spec(cs@.take(i as int)));
    }
    assert(cs@.take(cs@.len() as int) =~= cs@);
    string_of(&out)
}

/// Entity references read back into the characters they stand for: the
/// decoding that undoes `escape_svg_spec`.
pub open spec fn unescape_svg_spec(s: Seq<char>) -> Seq<char>
    decreases s.len(),
{
    if s.len() == 0 {
        Seq::<char>::empty()
    } else if s.len() >= 6 && s.take(6) == seq!['&', 'q', 'u', 'o', 't', ';'] {
        seq!['"'] + unescape_svg_spec(s.skip(6))
    } else if s.len() >= 4 && s.take(4) == seq!['&', 'g', 't', ';'] {
        seq!['>'] + unescape_svg_spec(s.skip(4))
    } else if s.len() >= 4 && s.take(4) == seq!['&', 'l', 't', ';'] {
        seq!['<'] + unescape_svg_spec(s.skip(4))
    } else if s.len() >= 5 && s.take(5) == seq!['&', 'a', 'm', 'p', ';'] {
        seq!['&'] + unescape_svg_spec(s.skip(5))
    } else {
        seq![s[0]] + unescape_svg_spec(s.drop_first())
    }
}

proof fn lemma_escape_svg_concat(a: Seq<char>, b: Seq<char>)
    ensures
        escape_svg_spec(a + b) == escape_svg_spec(a) + escape_svg_spec(b),
    decreases b.len(),
{
    if b.len() == 0 {
        assert(a + b =~= a);
        assert(escape_svg_spec(a) + escape_svg_spec(b) =~= escape_svg_spec(a));
    } else {
        lemma_escape_svg_concat(a, b.drop_last());
        assert((a + b).drop_last() =~= a + b.drop_last());
        assert((a + b).last() == b.last());
        assert(escape_svg_spec(a) + escape_svg_spec(b.drop_last()) + svg_char(b.last())
            =~= escape_svg_spec(a) + (escape_svg_spec(b.drop_last()) + svg_char(b.last())));
    }
}

proof fn lemma_unescape_svg_char(c: char, rest: Seq<char>)
    ensures
        unescape_svg_spec(svg_char(c) + rest) == seq![c] + unescape_svg_spec(rest),
{
    let s = svg_char(c) + rest;
    if c == '&' {
        assert(s.take(5) =~= seq!['&', 'a', 'm', 'p', ';']);
        assert(s.skip(5) =~= rest);
        if s.len() >= 6 {
            assert(s.take(6)[1] != seq!['&', 'q', 'u', 'o', 't', ';'][1]);
        }
        assert(s.take(4)[1] != seq!['&', 'g', 't', ';'][1]);
        assert(s.take(4)[1] != seq!['&', 'l', 't', ';'][1]);
    } else if c == '<' {
        assert(s.take(4) =~= seq!['&', 'l', 't', ';']);
        assert(s.skip(4) =~= rest);
        if s.len() >= 6 {
            assert(s.take(6)[1] != seq!['&', 'q', 'u', 'o', 't', ';'][1]);
        }
        assert(s.take(4)[1] != seq!['&', 'g', 't', ';'][1]);
    } else if c == '>' {
        assert(s.take(4) =~= seq!['&', 'g', 't', ';']);
        assert(s.skip(4) =~= rest);
        if s.len() >= 6 {
            assert(s.take(6)[1] != seq!['&', 'q', 'u', 'o', 't', ';'][1]);
        }
    } else if c == '"' {
        assert(s.take(6) =~= seq!['&', 'q', 'u', 'o', 't', ';']);
        assert(s.skip(6) =~= rest);
    } else {
        assert(s[0] == c);
        if s.len() >= 6 {
            assert(s.take(6)[0] != seq!['&', 'q', 'u', 'o', 't', ';'][0]);
        }
        if s.len() >= 5 {
            assert(s.take(5)[0] != seq!['&', 'a', 'm', 'p', ';'][0]);
        }
        if s.len() >= 4 {
            assert(s.take(4)[0] != seq!['&', 'g', 't', ';'][0]);
            assert(s.take(4)[0] != seq!['&', 'l', 't', ';'][0]);
        }
        assert(s.drop_first() =~= rest);
    }
}

/// The text that `escape_svg` writes holds no `<`, `>` or `"`, and reading
/// its entity references back gives the text that was escaped.
pub proof fn law_escape_svg(text: Seq<char>)
    ensures
        lacks(escape_svg_spec(text), '<'),
        lacks(escape_svg_spec(text), '>'),
        lacks(escape_svg_spec(text), '"'),
        unescape_svg_spec(escape_svg_spec(text)) == text,
    decreases text.len(),
{
    if text.len() > 0 {
        let d = text.drop_last();
        law_escape_svg(d);
        let c = text.last();
        assert(lacks(svg_char(c), '<'));
        assert(lacks(svg_char(c), '>'));
        assert(lacks(svg_char(c), '"'));
        lemma_concat_lacks(escape_svg_spec(d), svg_char(c), '<');
        lemma_concat_lacks(escape_svg_spec(d), svg_char(c), '>');
        lemma_concat_lacks(escape_svg_spec(d), svg_char(c), '"');
    }
    lemma_unescape_escape(text);
}

proof fn lemma_unescape_escape(text: Seq<char>)
    ensures
        unescape_svg_spec(escape_svg_spec(text)) == text,
    decreases text.len(),
{
    if text.len() > 0 {
        let t = text.drop_first();
        lemma_escape_svg_concat(seq![text[0]], t);
        assert(seq![text[0]] + t =~= text);
        let one = seq![text[0]];
        assert(one.drop_last() =~= Seq::<char>::empty());
        assert(one.last() == text[0]);
        assert(escape_svg_spec(Seq::<char>::empty()) == Seq::<char>::empty());
        assert(escape_svg_spec(one) == escape_svg_spec(one.drop_last()) + svg_char(one.last()));
        assert(Seq::<char>::empty() + svg_char(text[0]) =~= svg_char(text[0]));
        assert(escape_svg_spec(one) == svg_char(text[0]));
        lemma_unescape_svg_char(text[0], escape_svg_spec(t));
        lemma_unescape_escape(t);
    }
}

/// `s` with every match of `from` replaced by `to`, the matches taken from
/// left to right without overlap, as `str::replace` does.
pub open spec fn replace_spec(s: Seq<char>, from: Seq<char>, to: Seq<char>) -> Seq<char>
    recommends
        from.len() > 0,
    decreases s.len(),
{
    if s.len() == 0 {
        Seq::<char>::empty()
    } else if from.len() > 0 && s.len() >= from.len() && s.take(from.len() as int) == from {
        to + replace_spec(s.skip(from.len() as int), from, to)
    } else {
        seq![s[0]] + replace_spec(s.drop_first(), from, to)
    }
}

/// The entity reference that decoding replaces at step `k`: `&quot;`,
/// `&gt;`, `&lt;`, then `&amp;`.
pub open spec fn entity_at(k: nat) -> Seq<char> {
    if k == 0 {
        svg_char('"')
    } else if k == 1 {
        svg_char('>')
    } else if k == 2 {
        svg_char('<')
    } else {
        svg_char('&')
    }
}

/// The character that the entity reference of step `k` stands for.
pub open spec fn entity_char(k: nat) -> char {
    if k == 0 {
        '"'
    } else if k == 1 {
        '>'
    } else if k == 2 {
        '<'
    } else {
        '&'
    }
}

/// `&amp;`, `&lt;`, `&gt;` and `&quot;` read back into `&`, `<`, `>` and `"`
/// by four replacements: `&quot;` first and `&amp;` last.
pub open spec fn decode_by_replace(s: Seq<char>) -> Seq<char> {
    replace_spec(
        replace_spec(
            replace_spec(replace_spec(s, entity_at(0), seq![entity_char(0)]), entity_at(1), seq![entity_char(1)]),
            entity_at(2),
            seq![entity_char(2)],
        ),
        entity_at(3),
        seq![entity_char(3)],
    )
}

/// A character as it stands after `k` decoding steps: still escaped when
/// its own step is `k` or later.
spec fn staged_char(c: char, k: nat) -> Seq<char> {
    if (c == '"' && k < 1) || (c == '>' && k < 2) || (c == '<' && k < 3) || (c == '&' && k < 4) {
        svg_char(c)
    } else {
        seq![c]
    }
}

/// The escaped text as it stands after `k` decoding steps.
spec fn staged(text: Seq<char>, k: nat) -> Seq<char>
    decreases text.len(),
{
    if text.len() == 0 {
        Seq::<char>::empty()
    } else {
        staged_char(text[0], k) + staged(text.drop_first(), k)
    }
}

proof fn lemma_replace_plain_prefix(x: Seq<char>, r: Seq<char>, from: Seq<char>, to: Seq<char>)
    requires
        from.len() > 0,
        from[0] == '&',
        lacks(x, '&'),
    ensures
        replace_spec(x + r, from, to) == x + replace_spec(r, from, to),
    decreases x.len(),
{
    if x.len() > 0 {
        let s = x + r;
        assert(s[0] == x[0]);
        if s.len() >= from.len() {
            assert(s.take(from.len() as int)[0] != from[0]);
        }
        let y = x.drop_first();
        assert(s.drop_first() =~= y + r);
        assert forall|i: int| 0 <= i < y.len() implies y[i] != '&' by {
            assert(y[i] == x[i + 1]);
        }
        lemma_replace_plain_prefix(y, r, from, to);
        assert(seq![x[0]] + (y + r) =~= x + r);
        assert(seq![x[0]] + (y + replace_spec(r, from, to)) =~= x + replace_spec(r, from, to));
    } else {
        assert(x + r =~= r);
        assert(x + replace_spec(r, from, to) =~= replace_spec(r, from, to));
    }
}

proof fn lemma_replace_step_char(c: char, k: nat, r: Seq<char>)
    requires
        k < 4,
    ensures
        replace_spec(staged_char(c, k) + r, entity_at(k), seq![entity_char(k)]) == staged_char(
            c,
            k + 1,
        ) + replace_spec(r, entity_at(k), seq![entity_char(k)]),
{
    let from = entity_at(k);
    let to = seq![entity_char(k)];
    let x = staged_char(c, k);
    let s = x + r;
    assert(from[0] == '&');
    if x.len() == 1 {
        assert(x =~= seq![c]);
        assert(c != '&');
        assert(staged_char(c, k + 1) == x);
        lemma_replace_plain_prefix(x, r, from, to);
    } else if c == entity_char(k) {
        assert(x == from);
        assert(s.take(from.len() as int) =~= from);
        assert(s.skip(from.len() as int) =~= r);
        assert(staged_char(c, k + 1) =~= to);
    } else {
        assert(x[0] == '&');
        assert(x[1] != from[1]);
        if s.len() >= from.len() {
            assert(s.take(from.len() as int)[1] != from[1]);
        }
        let y = x.drop_first();
        assert(lacks(y, '&'));
        assert(s.drop_first() =~= y + r);
        lemma_replace_plain_prefix(y, r, from, to);
        assert(staged_char(c, k + 1) == x);
        assert(seq![x[0]] + (y + replace_spec(r, from, to)) =~= x + replace_spec(r, from, to));
    }
}

proof fn lemma_replace_step(text: Seq<char>, k: nat)
    requires
        k < 4,
    ensures
        replace_spec(staged(text, k), entity_at(k), seq![entity_char(k)]) == staged(text, k + 1),
    decreases text.len(),
{
    if text.len() > 0 {
        lemma_replace_step_char(text[0], k, staged(text.drop_first(), k));
        lemma_replace_step(text.drop_first(), k);
    }
}

proof fn lemma_staged_ends(text: Seq<char>)
    ensures
        staged(text, 0) == escape_svg_spec(text),
        staged(text, 4) == text,
    decreases text.len(),
{
    if text.len() > 0 {
        let t = text.drop_first();
        lemma_staged_ends(t);
        let one = seq![text[0]];
        lemma_escape_svg_concat(one, t);
        assert(one + t =~= text);
        assert(one.drop_last() =~= Seq::<char>::empty());
        assert(escape_svg_spec(one) == escape_svg_spec(one.drop_last()) + svg_char(one.last()));
        assert(Seq::<char>::empty() + svg_char(text[0]) =~= svg_char(text[0]));
        assert(staged_char(text[0], 0) == svg_char(text[0]));
        assert(staged_char(text[0], 4) == one);
    }
}

/// Decoding the text that `escape_svg` writes by replacing `&quot;`, `&gt;`,
/// `&lt;` and then `&amp;` with the characters they stand for gives the text
/// that was escaped.
pub proof fn law_escape_svg_decode(text: Seq<char>)
    ensures
        decode_by_replace(escape_svg_spec(text)) == text,
{
    lemma_staged_ends(text);
    lemma_replace_step(text, 0);
    lemma_replace_step(text, 1);
    lemma_replace_step(text, 2);
    lemma_replace_step(text, 3);
}

/// The display width of a text in columns, as `UnicodeWidthStr::width`
/// reckons it.
pub uninterp spec fn str_width(text: Seq<char>) -> usize;

/// `UnicodeWidthStr::width`: the number of terminal columns that `text`
/// takes. The contract names the result `str_width(text@)` and says nothing
/// more of it: the rules that decide it fill pages of the crate's
/// documentation.
#[verifier::external_body]
fn display_width(text: &str) -> (w: usize)
    ensures
        w == str_width(text@),
{
    UnicodeWidthStr::width(text)
}


/// The cell of `row` in column `col`, or the empty text where the row is short.
pub open spec fn cell_text(row: Seq<Seq<char>>, col: int) -> Seq<char> {
    if 0 <= col < row.len() {
        row[col]
    } else {
        Seq::<char>::empty()
    }
}

/// The header row followed by the data rows.
pub open spec fn all_rows(t: TableView) -> Seq<Seq<Seq<char>>> {
    seq![t.0] + t.1
}

/// The pixel width of a column whose cells are `widths` columns wide: eight
/// pixels per column plus sixteen on each side for the widest cell, and at
/// least sixty.
pub open spec fn column_px(widths: Seq<usize>) -> int
    decreases widths.len(),
{
    if widths.len() == 0 {
        60
    } else {
        let prev = column_px(widths.drop_last());
        let w = widths.last() * 8 + 32;
        if w > prev {
            w
        } else {
            prev
        }
    }
}

/// The display widths of the cells of column `col`, header first.
pub open spec fn column_cell_widths(t: TableView, col: int) -> Seq<usize> {
    let rows = all_rows(t);
    Seq::new(rows.len(), |r: int| str_width(cell_text(rows[r], col)))
}

/// The pixel width of each column of a table, one per header cell.
pub open spec fn column_widths_spec(t: TableView) -> Seq<int> {
    Seq::new(t.0.len(), |c: int| column_px(column_cell_widths(t, c)))
}

/// The pixel width of a column whose cells are `widths` columns wide.
pub fn column_px_of(widths: &[usize]) -> (res: u128)
    ensures
        res == column_px(widths@),
{
    let mut best: u128 = 60;
    let mut i: usize = 0;
    while i < widths.len()
        invariant
            i <= widths@.len(),
            best == column_px(widths@.take(i as int)),
        decreases widths.len() - i,
    {
        assert(widths@.take(i + 1).drop_last() =~= widths@.take(i as int));
        assert(widths@.take(i + 1).last() == widths[i as int]);
        let w = widths[i] as u128 * 8 + 32;
        if w > best {
            best = w;
        }
        i += 1;
    }
    assert(widths@.take(widths@.len() as int) =~= widths@);
    best
}

/// The display width of the cell of `row` in column `col`.
fn cell_width(row: &Vec<String>, col: usize) -> (res: usize)
    ensures
        res == str_width(cell_text(string_rows(row@), col as int)),
{
    if col < row.len() {
        display_width(row[col].as_str())
    } else {
        let empty = "";
        proof {
            reveal_strlit("");
        }
        assert(empty@ =~= Seq::<char>::empty());
        display_width(empty)
    }
}

/// The pixel width of each column of the table image, one per header cell.
pub fn column_widths(table: &Table) -> (res: Vec<u128>)
    ensures
        res@.len() == column_widths_spec(table@).len(),
        forall|c: int| 0 <= c < res@.len() ==> res@[c] == #[trigger] column_widths_spec(table@)[c],
{
    let ghost tv = table@;
    let ghost rows = all_rows(tv);
    let mut res: Vec<u128> = Vec::new();
    let mut col: usize = 0;
    while col < table.headers.len()
        invariant
            col <= table.headers@.len(),
            tv == table@,
            rows == all_rows(tv),
            res@.len() == col,
            forall|c: int| 0 <= c < col ==> res@[c] == #[trigger] column_widths_spec(tv)[c],
        decreases table.headers.len() - col,
    {
        let mut widths: Vec<usize> = Vec::new();
        widths.push(cell_width(&table.headers, col));
        let mut r: usize = 0;
        while r < table.rows.len()
            invariant
                r <= table.rows@.len(),
                tv == table@,
                rows == all_rows(tv),
                widths@.len() == r + 1,
                forall|k: int|
                    0 <= k <= r ==> widths@[k] == #[trigger] str_width(cell_text(rows[k], col as int)),
            decreases table.rows.len() - r,
        {
            let w = cell_width(&table.rows[r], col);
            assert(rows[r + 1] == tv.1[r as int]);
            widths.push(w);
            r += 1;
        }
        assert(widths@ =~= column_cell_widths(tv, col as int));
        let px = column_px_of(&widths);
        res.push(px);
        col += 1;
    }
    res
}


/// A piece of cell text drawn with one font. Its horizontal place is
/// `end_units - width_units` half-width units from the start of the cell:
/// `end_units` sums the widths of the characters up to the end of the run,
/// each measured alone, and `width_units` is the width of the run's text.
pub struct TextRun {
    pub text: String,
    pub is_emoji: bool,
    pub end_units: u128,
    pub width_units: usize,
}

/// The sum of the widths of the characters of `s`, each measured alone.
pub open spec fn char_width_sum(s: Seq<char>) -> int
    decreases s.len(),
{
    if s.len() == 0 {
        0
    } else {
        char_width_sum(s.drop_last()) + str_width(seq![s.last()])
    }
}

/// The texts of `parts` one after the other.
pub open spec fn concat_all(parts: Seq<Seq<char>>) -> Seq<char>
    decreases parts.len(),
{
    if parts.len() == 0 {
        Seq::<char>::empty()
    } else {
        concat_all(parts.drop_last()) + parts.last()
    }
}

/// The texts of the runs.
pub open spec fn run_texts(runs: Seq<TextRun>) -> Seq<Seq<char>> {
    runs.map_values(|r: TextRun| r.text@)
}

/// `runs` cut `text` into maximal pieces of characters of one kind, emoji or
/// not, and place each after the pieces before it.
pub open spec fn runs_of(text: Seq<char>, runs: Seq<TextRun>) -> bool {
    let texts = run_texts(runs);
    &&& concat_all(texts) == text
    &&& forall|i: int| 0 <= i < runs.len() ==> (#[trigger] texts[i]).len() > 0
    &&& forall|i: int, j: int|
        0 <= i < runs.len() && 0 <= j < texts[i].len() ==> is_emoji_spec(#[trigger] texts[i][j])
            == runs[i].is_emoji
    &&& forall|i: int| 0 <= i < runs.len() - 1 ==> (#[trigger] runs[i]).is_emoji != runs[i + 1].is_emoji
    &&& forall|i: int|
        0 <= i < runs.len() ==> (#[trigger] runs[i]).end_units == char_width_sum(
            concat_all(texts.take(i + 1)),
        )
    &&& forall|i: int| 0 <= i < runs.len() ==> (#[trigger] runs[i]).width_units == str_width(texts[i])
}

/// The width of one character, measured alone.
fn char_width(c: char) -> (res: usize)
    ensures
        res == str_width(seq![c]),
{
    let one = string_of(&[c]);
    assert(one@ =~= seq![c]);
    display_width(one.as_str())
}

proof fn lemma_concat_push(parts: Seq<Seq<char>>, p: Seq<char>)
    ensures
        concat_all(parts.push(p)) == concat_all(parts) + p,
{
    assert(parts.push(p).drop_last() =~= parts);
}

/// Split text into runs of emoji and non-emoji characters, so that each run
/// can be drawn with the font it needs.
pub fn split_text_runs(text: &str) -> (res: Vec<TextRun>)
    ensures
        runs_of(text@, res@),
{
    let cs = chars_of(text);
    let mut runs: Vec<TextRun> = Vec::new();
    let mut current: Vec<char> = Vec::new();
    let mut in_emoji = false;
    let mut x: u128 = 0;
    let mut i: usize = 0;
    assert(cs@.take(0) =~= Seq::<char>::empty());
    while i < cs.len()
        invariant
            i <= cs@.len(),
            cs@ == text@,
            concat_all(run_texts(runs@)) + current@ == cs@.take(i as int),
            current@.len() == 0 ==> i == 0 && runs@.len() == 0,
            forall|j: int| 0 <= j < current@.len() ==> is_emoji_spec(#[trigger] current@[j]) == in_emoji,
            runs@.len() > 0 ==> runs@.last().is_emoji != in_emoji,
            x == char_width_sum(cs@.take(i as int)),
            x <= i * 0xffff_ffff_ffff_ffffu128,
            forall|k: int| 0 <= k < runs@.len() ==> (#[trigger] run_texts(runs@)[k]).len() > 0,
            forall|k: int, j: int|
                0 <= k < runs@.len() && 0 <= j < run_texts(runs@)[k].len() ==> is_emoji_spec(
                    #[trigger] run_texts(runs@)[k][j],
                ) == runs@[k].is_emoji,
            forall|k: int|
                0 <= k < runs@.len() - 1 ==> (#[trigger] runs@[k]).is_emoji != runs@[k + 1].is_emoji,
            forall|k: int|
                0 <= k < runs@.len() ==> (#[trigger] runs@[k]).end_units == char_width_sum(
                    concat_all(run_texts(runs@).take(k + 1)),
                ),
            forall|k: int|
                0 <= k < runs@.len() ==> (#[trigger] runs@[k]).width_units == str_width(
                    run_texts(runs@)[k],
                ),
        decreases cs.len() - i,
    {
        let c = cs[i];
        let emoji = is_emoji(c);
        assert(cs@.take(i + 1).drop_last() =~= cs@.take(i as int));
        assert(cs@.take(i + 1).last() == c);
        if emoji != in_emoji && current.len() > 0 {
            let piece = string_of(&current);
            let w = display_width(piece.as_str());
            let ghost old_runs = runs@;
            let run = TextRun { text: piece, is_emoji: in_emoji, end_units: x, width_units: w };
            runs.push(run);
            proof {
                let ot = run_texts(old_runs);
                let nt = run_texts(runs@);
                assert(nt =~= ot.push(current@));
                lemma_concat_push(ot, current@);
                assert forall|k: int| 0 <= k < runs@.len() implies (#[trigger] runs@[k]).end_units
                    == char_width_sum(concat_all(run_texts(runs@).take(k + 1))) by {
                    if k < old_runs.len() {
                        assert(nt.take(k + 1) =~= ot.take(k + 1));
                    } else {
                        assert(nt.take(k + 1) =~= nt);
                    }
                }
                assert forall|k: int, j: int|
                    0 <= k < runs@.len() && 0 <= j < run_texts(runs@)[k].len() implies is_emoji_spec(
                        #[trigger] run_texts(runs@)[k][j],
                    ) == runs@[k].is_emoji by {
                    if k < old_runs.len() {
                        assert(nt[k] == ot[k]);
                    }
                }
            }
            current = Vec::new();
            current.push(c);
            proof {
                assert(concat_all(run_texts(runs@)) + current@ =~= cs@.take(i + 1));
            }
        } else {
            let ghost old_current = current@;
            current.push(c);
            proof {
                assert(concat_all(run_texts(runs@)) + current@ =~= cs@.take(i + 1));
            }
        }
        in_emoji = emoji;
        let cw = char_width(c);
        proof {
            assert(x + cw <= (i + 1) * 0xffff_ffff_ffff_ffffu128) by (nonlinear_arith)
                requires
                    x <= i * 0xffff_ffff_ffff_ffffu128,
                    cw <= 0xffff_ffff_ffff_ffffu128,
            ;
            assert((i + 1) * 0xffff_ffff_ffff_ffffu128 <= 0xffff_ffff_ffff_ffffu128
                * 0xffff_ffff_ffff_ffffu128) by (nonlinear_arith)
                requires
                    i + 1 <= 0xffff_ffff_ffff_ffffu128,
            ;
        }
        x = x + cw as u128;
        i += 1;
    }
    assert(cs@.take(cs@.len() as int) =~= cs@);
    if current.len() > 0 {
        let piece = string_of(&current);
        let w = display_width(piece.as_str());
        let ghost old_runs = runs@;
        let run = TextRun { text: piece, is_emoji: in_emoji, end_units: x, width_units: w };
        runs.push(run);
        proof {
            let ot = run_texts(old_runs);
            let nt = run_texts(runs@);
            assert(nt =~= ot.push(current@));
            lemma_concat_push(ot, current@);
            assert forall|k: int| 0 <= k < runs@.len() implies (#[trigger] runs@[k]).end_units
                == char_width_sum(concat_all(run_texts(runs@).take(k + 1))) by {
                if k < old_runs.len() {
                    assert(nt.take(k + 1) =~= ot.take(k + 1));
                } else {
                    assert(nt.take(k + 1) =~= nt);
                }
            }
            assert forall|k: int, j: int|
                0 <= k < runs@.len() && 0 <= j < run_texts(runs@)[k].len() implies is_emoji_spec(
                    #[trigger] run_texts(runs@)[k][j],
                ) == runs@[k].is_emoji by {
                if k < old_runs.len() {
                    assert(nt[k] == ot[k]);
                }
            }
        }
    } else {
        assert(concat_all(run_texts(runs@)) =~= cs@);
    }
    runs
}

/// The left edge, in pixels, of column `n` when the columns are `ws` wide:
/// the sum of the widths of the columns before it.
pub open spec fn left_edge(ws: Seq<int>, n: int) -> int
    decreases n,
{
    if n <= 0 {
        0
    } else {
        left_edge(ws, n - 1) + ws[n - 1]
    }
}

/// The x of each vertical grid line: the left edge of each column, then
/// the right edge of the last one.
pub open spec fn edges_spec(ws: Seq<int>) -> Seq<int> {
    Seq::new(ws.len() + 1, |i: int| left_edge(ws, i))
}

/// Where the text of a non-empty cell is drawn: its row (the header is row
/// 0), its column, the left edge of that column in pixels, whether it is
/// set in the bold header weight, and whether it holds an emoji, which has
/// its text split into font runs.
#[derive(Clone, Copy, Debug, PartialEq, Eq, Structural)]
pub struct PlacedCell {
    pub row: usize,
    pub col: usize,
    pub left_px: u128,
    pub bold: bool,
    pub emoji: bool,
}

/// The cells among the first `n` of `row` (row number `r`) that have text,
/// placed at the left edges `lefts`.
pub open spec fn row_placements(row: Seq<Seq<char>>, r: int, lefts: Seq<int>, n: int) -> Seq<
    PlacedCell,
>
    decreases n,
{
    if n <= 0 {
        Seq::<PlacedCell>::empty()
    } else {
        let prev = row_placements(row, r, lefts, n - 1);
        let text = cell_text(row, n - 1);
        if text.len() == 0 {
            prev
        } else {
            prev.push(
                PlacedCell {
                    row: r as usize,
                    col: (n - 1) as usize,
                    left_px: lefts[n - 1] as u128,
                    bold: r == 0,
                    emoji: has_emoji_spec(text),
                },
            )
        }
    }
}

/// The placed cells of the first `m` rows of the image, header first, each
/// row from left to right, over as many columns as the header has cells.
pub open spec fn placements_upto(t: TableView, m: int) -> Seq<PlacedCell>
    decreases m,
{
    if m <= 0 {
        Seq::<PlacedCell>::empty()
    } else {
        placements_upto(t, m - 1) + row_placements(
            all_rows(t)[m - 1],
            m - 1,
            edges_spec(column_widths_spec(t)),
            t.0.len() as int,
        )
    }
}

/// The layout of a table image: the x of each vertical grid line, from 0
/// to the full width, and the cells whose text is drawn.
pub struct Layout {
    pub edges: Vec<u128>,
    pub cells: Vec<PlacedCell>,
}

proof fn lemma_left_edge_grows(ws: Seq<int>, i: int, j: int)
    requires
        0 <= i <= j <= ws.len(),
        forall|k: int| 0 <= k < ws.len() ==> #[trigger] ws[k] >= 0,
    ensures
        left_edge(ws, i) <= left_edge(ws, j),
    decreases j - i,
{
    if i < j {
        lemma_left_edge_grows(ws, i, j - 1);
        assert(ws[j - 1] >= 0);
    }
}

proof fn lemma_column_widths_positive(t: TableView)
    ensures
        forall|k: int| 0 <= k < column_widths_spec(t).len() ==> #[trigger] column_widths_spec(t)[k] >= 0,
{
    assert forall|k: int| 0 <= k < column_widths_spec(t).len() implies #[trigger] column_widths_spec(
        t,
    )[k] >= 0 by {
        lemma_column_px_floor(column_cell_widths(t, k));
    }
}

proof fn lemma_column_px_floor(widths: Seq<usize>)
    ensures
        column_px(widths) >= 60,
    decreases widths.len(),
{
    if widths.len() > 0 {
        lemma_column_px_floor(widths.drop_last());
    }
}

/// Place the non-empty cells of one row.
fn place_row(
    row: &Vec<String>,
    r: usize,
    ncols: usize,
    edges: &Vec<u128>,
    cells: &mut Vec<PlacedCell>,
)
    requires
        edges@.len() > ncols,
    ensures
        final(cells)@ == old(cells)@ + row_placements(
            string_rows(row@),
            r as int,
            edges@.map_values(|e: u128| e as int),
            ncols as int,
        ),
{
    let ghost rv = string_rows(row@);
    let ghost lefts = edges@.map_values(|e: u128| e as int);
    let ghost start = cells@;
    let mut c: usize = 0;
    while c < ncols
        invariant
            c <= ncols,
            edges@.len() > ncols,
            rv == string_rows(row@),
            lefts == edges@.map_values(|e: u128| e as int),
            cells@ == start + row_placements(rv, r as int, lefts, c as int),
        decreases ncols - c,
    {
        if c < row.len() {
            let text = row[c].as_str();
            let cs = chars_of(text);
            assert(cell_text(rv, c as int) == text@);
            if cs.len() > 0 {
                let emoji = has_emoji(text);
                cells.push(PlacedCell { row: r, col: c, left_px: edges[c], bold: r == 0, emoji });
                assert(lefts[c as int] as u128 == edges@[c as int]);
            }
        }
        assert(start + row_placements(rv, r as int, lefts, c + 1) =~= cells@);
        c += 1;
    }
}

/// The layout of the table image: the column edges that the column widths
/// give, and the cells with text, header first. `None` where the full width
/// does not fit in a `u128`.
pub fn table_layout(table: &Table) -> (res: Option<Layout>)
    ensures
        res is None <==> left_edge(column_widths_spec(table@), column_widths_spec(table@).len() as int)
            > u128::MAX,
        res matches Some(l) ==> {
            &&& l.edges@.map_values(|e: u128| e as int) == edges_spec(column_widths_spec(table@))
            &&& l.cells@ == placements_upto(table@, all_rows(table@).len() as int)
        },
{
    let ghost tv = table@;
    let ghost ws = column_widths_spec(tv);
    let widths = column_widths(table);
    proof {
        lemma_column_widths_positive(tv);
    }
    let mut edges: Vec<u128> = Vec::new();
    edges.push(0);
    let mut i: usize = 0;
    while i < widths.len()
        invariant
            i <= widths@.len(),
            tv == table@,
            ws == column_widths_spec(tv),
            widths@.len() == ws.len(),
            forall|c: int| 0 <= c < widths@.len() ==> widths@[c] == #[trigger] ws[c],
            forall|k: int| 0 <= k < ws.len() ==> #[trigger] ws[k] >= 0,
            edges@.len() == i + 1,
            forall|k: int| 0 <= k <= i ==> edges@[k] == #[trigger] left_edge(ws, k),
        decreases widths.len() - i,
    {
        let ghost old_edges = edges@;
        assert(old_edges[i as int] == left_edge(ws, i as int));
        assert(left_edge(ws, i + 1) == left_edge(ws, i as int) + ws[i as int]);
        match edges[i].checked_add(widths[i]) {
            Some(e) => {
                edges.push(e);
                assert forall|k: int| 0 <= k <= i + 1 implies edges@[k] == #[trigger] left_edge(
                    ws,
                    k,
                ) by {
                    if k <= i {
                        assert(edges@[k] == old_edges[k]);
                    }
                }
            },
            None => {
                proof {
                    lemma_left_edge_grows(ws, i + 1, ws.len() as int);
                }
                return None;
            },
        }
        i += 1;
    }
    let ghost lefts = edges@.map_values(|e: u128| e as int);
    assert(lefts =~= edges_spec(ws));
    assert(edges@[ws.len() as int] == left_edge(ws, ws.len() as int));
    let ncols = table.headers.len();
    let mut cells: Vec<PlacedCell> = Vec::new();
    assert(all_rows(tv)[0] == tv.0);
    assert(ncols as int == tv.0.len());
    assert(placements_upto(tv, 0) == Seq::<PlacedCell>::empty());
    assert(cells@ + row_placements(tv.0, 0, lefts, ncols as int) =~= placements_upto(tv, 1));
    place_row(&table.headers, 0, ncols, &edges, &mut cells);
    let mut k: usize = 0;
    while k < table.rows.len()
        invariant
            k <= table.rows@.len(),
            tv == table@,
            ws == column_widths_spec(tv),
            ncols == tv.0.len(),
            edges@.len() == ws.len() + 1,
            lefts == edges@.map_values(|e: u128| e as int),
            lefts == edges_spec(ws),
            cells@ == placements_upto(tv, k + 1),
        decreases table.rows.len() - k,
    {
        assert(all_rows(tv)[k + 1] == string_rows(table.rows@[k as int]@));
        place_row(&table.rows[k], k + 1, ncols, &edges, &mut cells);
        k += 1;
    }
    Some(Layout { edges, cells })
}

proof fn lemma_column_px_bounds(widths: Seq<usize>)
    ensures
        column_px(widths) >= 60,
        forall|i: int| 0 <= i < widths.len() ==> column_px(widths) >= #[trigger] widths[i] * 8 + 32,
        column_px(widths) == 60 || exists|i: int|
            0 <= i < widths.len() && column_px(widths) == #[trigger] widths[i] * 8 + 32,
    decreases widths.len(),
{
    if widths.len() > 0 {
        let d = widths.drop_last();
        lemma_column_px_bounds(d);
        assert forall|i: int| 0 <= i < widths.len() implies column_px(widths) >= #[trigger] widths[i]
            * 8 + 32 by {
            if i < d.len() {
                assert(widths[i] == d[i]);
            }
        }
        if column_px(widths) != 60 {
            if column_px(widths) == widths.last() * 8 + 32 {
                assert(widths[widths.len() - 1] == widths.last());
            } else {
                let j = choose|j: int| 0 <= j < d.len() && column_px(d) == #[trigger] d[j] * 8 + 32;
                assert(widths[j] == d[j]);
            }
        }
    }
}

/// There is one column width per header cell. Each column is wide enough
/// for every cell in it, the header cell included: eight pixels per display
/// column plus sixteen on each side, and at least sixty pixels. It is no
/// wider than that: its width is sixty, or exactly what the header cell or
/// one data-row cell (an empty one where the row is short) needs.
pub proof fn law_column_widths(t: TableView)
    ensures
        column_widths_spec(t).len() == t.0.len(),
        forall|c: int| 0 <= c < t.0.len() ==> #[trigger] column_widths_spec(t)[c] >= 60,
        forall|c: int|
            0 <= c < t.0.len() ==> #[trigger] column_widths_spec(t)[c] >= str_width(t.0[c]) * 8 + 32,
        forall|r: int, c: int|
            0 <= r < t.1.len() && 0 <= c < t.0.len() && c < t.1[r].len() ==> column_widths_spec(t)[c]
                >= #[trigger] str_width(t.1[r][c]) * 8 + 32,
        forall|c: int|
            0 <= c < t.0.len() ==> {
                ||| #[trigger] column_widths_spec(t)[c] == 60
                ||| column_widths_spec(t)[c] == str_width(t.0[c]) * 8 + 32
                ||| exists|r: int|
                    0 <= r < t.1.len() && column_widths_spec(t)[c] == #[trigger] str_width(
                        cell_text(t.1[r], c),
                    ) * 8 + 32
            },
{
    let ws = column_widths_spec(t);
    assert forall|c: int| 0 <= c < t.0.len() implies {
        &&& #[trigger] ws[c] >= 60
        &&& ws[c] >= str_width(t.0[c]) * 8 + 32
        &&& forall|r: int|
            0 <= r < t.1.len() && c < t.1[r].len() ==> ws[c] >= #[trigger] str_width(t.1[r][c]) * 8
                + 32
        &&& {
            ||| ws[c] == 60
            ||| ws[c] == str_width(t.0[c]) * 8 + 32
            ||| exists|r: int|
                0 <= r < t.1.len() && ws[c] == #[trigger] str_width(cell_text(t.1[r], c)) * 8
                    + 32
        }
    } by {
        let cw = column_cell_widths(t, c);
        lemma_column_px_bounds(cw);
        assert(all_rows(t)[0] == t.0);
        assert(cw[0] == str_width(t.0[c]));
        assert forall|r: int| 0 <= r < t.1.len() && c < t.1[r].len() implies ws[c] >= #[trigger] str_width(
            t.1[r][c],
        ) * 8 + 32 by {
            assert(all_rows(t)[r + 1] == t.1[r]);
            assert(cw[r + 1] == str_width(t.1[r][c]));
        }
        if ws[c] != 60 && ws[c] != str_width(t.0[c]) * 8 + 32 {
            let i = choose|i: int| 0 <= i < cw.len() && ws[c] == #[trigger] cw[i] * 8 + 32;
            assert(i != 0);
            assert(all_rows(t)[i] == t.1[i - 1]);
            assert(cw[i] == str_width(cell_text(t.1[i - 1], c)));
        }
    }
    assert forall|r: int, c: int|
        0 <= r < t.1.len() && 0 <= c < t.0.len() && c < t.1[r].len() implies ws[c]
            >= #[trigger] str_width(t.1[r][c]) * 8 + 32 by {
        assert(ws[c] >= 60);
    }
}

/// The characters drawn with the emoji font are exactly those of these
/// blocks: watch and hourglass, media controls, squares, play buttons,
/// miscellaneous symbols and dingbats, arrows, star and circle, wavy dash
/// and part alternation mark, circled ideographs, variation selectors, the
/// whole extended emoji block U+1F000 to U+1FAFF, the zero-width joiner, the
/// enclosing keycap, and the tags.
pub proof fn law_emoji_chars(c: char)
    ensures
        is_emoji_spec(c) <==> {
            let cp = c as u32;
            ||| 0x231A <= cp <= 0x231B || 0x23E9 <= cp <= 0x23F3 || 0x23F8 <= cp <= 0x23FA
            ||| 0x25AA <= cp <= 0x25AB || cp == 0x25B6 || cp == 0x25C0 || 0x25FB <= cp <= 0x25FE
            ||| 0x2600 <= cp <= 0x27BF
            ||| 0x2934 <= cp <= 0x2935 || 0x2B05 <= cp <= 0x2B07 || 0x2B1B <= cp <= 0x2B1C
            ||| cp == 0x2B50 || cp == 0x2B55 || cp == 0x3030 || cp == 0x303D
            ||| cp == 0x3297 || cp == 0x3299
            ||| 0xFE00 <= cp <= 0xFE0F
            ||| 0x1F000 <= cp <= 0x1FAFF
            ||| cp == 0x200D || cp == 0x20E3
            ||| 0xE0020 <= cp <= 0xE007F
        },
        (c as u32) < 0x80 ==> !is_emoji_spec(c),
{
}

/// A text holding a character of the extended emoji block (such as 👍,
/// 🎉 or 😀) has an emoji, and a run that `split_text_runs` makes of it is
/// an emoji run.
pub proof fn law_extended_block_is_emoji(text: Seq<char>, i: int)
    requires
        0 <= i < text.len(),
        0x1F000 <= text[i] as u32 <= 0x1FAFF,
    ensures
        has_emoji_spec(text),
        forall|runs: Seq<TextRun>, k: int, j: int|
            runs_of(text, runs) && 0 <= k < runs.len() && 0 <= j < runs[k].text@.len()
                && #[trigger] runs[k].text@[j] == text[i] ==> runs[k].is_emoji,
{
    law_emoji_chars(text[i]);
    assert forall|runs: Seq<TextRun>, k: int, j: int|
        runs_of(text, runs) && 0 <= k < runs.len() && 0 <= j < runs[k].text@.len()
            && #[trigger] runs[k].text@[j] == text[i] implies runs[k].is_emoji by {
        assert(run_texts(runs)[k] == runs[k].text@);
        assert(is_emoji_spec(run_texts(runs)[k][j]) == runs[k].is_emoji);
    }
}

/// Row `r` of the image: the header first, then the data rows.
pub open spec fn image_row(t: TableView, r: int) -> Seq<Seq<char>> {
    if r == 0 {
        t.0
    } else {
        t.1[r - 1]
    }
}

/// Placement `a` comes before placement `b`: an earlier row, or the same
/// row and an earlier column.
pub open spec fn placed_before(a: PlacedCell, b: PlacedCell) -> bool {
    a.row < b.row || (a.row == b.row && a.col < b.col)
}

proof fn lemma_row_placements(row: Seq<Seq<char>>, r: int, lefts: Seq<int>, n: int)
    requires
        0 <= r <= usize::MAX,
        0 <= n <= usize::MAX,
        n < lefts.len(),
        forall|c: int| 0 <= c < lefts.len() ==> 0 <= #[trigger] lefts[c] <= u128::MAX,
    ensures
        ({
            let ps = row_placements(row, r, lefts, n);
            &&& forall|k: int|
                0 <= k < ps.len() ==> {
                    &&& (#[trigger] ps[k]).row as int == r
                    &&& 0 <= ps[k].col < n
                    &&& cell_text(row, ps[k].col as int).len() > 0
                    &&& ps[k].bold == (r == 0)
                    &&& ps[k].emoji == has_emoji_spec(cell_text(row, ps[k].col as int))
                    &&& ps[k].left_px as int == lefts[ps[k].col as int]
                }
            &&& forall|i: int, j: int| 0 <= i < j < ps.len() ==> #[trigger] ps[i].col < #[trigger] ps[j].col
            &&& forall|c: int|
                0 <= c < n && #[trigger] cell_text(row, c).len() > 0 ==> exists|k: int|
                    0 <= k < ps.len() && #[trigger] ps[k].col as int == c
        }),
    decreases n,
{
    if n > 0 {
        lemma_row_placements(row, r, lefts, n - 1);
        let prev = row_placements(row, r, lefts, n - 1);
        let ps = row_placements(row, r, lefts, n);
        assert forall|c: int| 0 <= c < n && #[trigger] cell_text(row, c).len() > 0 implies exists|k: int|
            0 <= k < ps.len() && #[trigger] ps[k].col as int == c by {
            if c < n - 1 {
                let k = choose|k: int| 0 <= k < prev.len() && #[trigger] prev[k].col as int == c;
                assert(ps[k] == prev[k]);
            } else {
                assert(ps[prev.len() as int].col as int == c);
            }
        }
        assert forall|k: int| 0 <= k < ps.len() && k < prev.len() implies ps[k] == prev[k] by {}
    }
}

/// The cells that the image draws are exactly the non-empty cells of its
/// rows (the header first) within the header's columns, each once, row by
/// row and left to right. Each is placed at the left edge of its column,
/// set bold exactly in the header row, and marked for font runs exactly
/// where its text holds an emoji.
pub proof fn law_layout_cells(t: TableView)
    requires
        t.1.len() < usize::MAX,
        t.0.len() <= usize::MAX,
        left_edge(column_widths_spec(t), t.0.len() as int) <= u128::MAX,
    ensures
        ({
            let ps = placements_upto(t, t.1.len() + 1int);
            let ws = column_widths_spec(t);
            &&& forall|k: int|
                0 <= k < ps.len() ==> {
                    &&& (#[trigger] ps[k]).row <= t.1.len()
                    &&& ps[k].col < t.0.len()
                    &&& cell_text(image_row(t, ps[k].row as int), ps[k].col as int).len() > 0
                    &&& ps[k].bold == (ps[k].row == 0)
                    &&& ps[k].emoji == has_emoji_spec(
                        cell_text(image_row(t, ps[k].row as int), ps[k].col as int),
                    )
                    &&& ps[k].left_px as int == left_edge(ws, ps[k].col as int)
                }
            &&& forall|i: int, j: int|
                0 <= i < j < ps.len() ==> placed_before(#[trigger] ps[i], #[trigger] ps[j])
            &&& forall|r: int, c: int|
                0 <= r <= t.1.len() && 0 <= c < t.0.len() && #[trigger] cell_text(image_row(t, r), c).len()
                    > 0 ==> exists|k: int| 0 <= k < ps.len() && #[trigger] ps[k].row as int == r && ps[k].col as int == c
        }),
{
    let ws = column_widths_spec(t);
    let lefts = edges_spec(ws);
    let n = t.0.len() as int;
    lemma_column_widths_positive(t);
    assert forall|c: int| 0 <= c < lefts.len() implies 0 <= #[trigger] lefts[c] <= u128::MAX by {
        lemma_left_edge_grows(ws, 0, c);
        lemma_left_edge_grows(ws, c, n);
    }
    lemma_placements_upto(t, t.1.len() + 1int, lefts);
}

proof fn lemma_placements_upto(t: TableView, m: int, lefts: Seq<int>)
    requires
        0 <= m <= t.1.len() + 1,
        t.1.len() < usize::MAX,
        t.0.len() <= usize::MAX,
        lefts == edges_spec(column_widths_spec(t)),
        forall|c: int| 0 <= c < lefts.len() ==> 0 <= #[trigger] lefts[c] <= u128::MAX,
    ensures
        ({
            let ps = placements_upto(t, m);
            &&& forall|k: int|
                0 <= k < ps.len() ==> {
                    &&& (#[trigger] ps[k]).row < m
                    &&& ps[k].col < t.0.len()
                    &&& cell_text(image_row(t, ps[k].row as int), ps[k].col as int).len() > 0
                    &&& ps[k].bold == (ps[k].row == 0)
                    &&& ps[k].emoji == has_emoji_spec(
                        cell_text(image_row(t, ps[k].row as int), ps[k].col as int),
                    )
                    &&& ps[k].left_px as int == lefts[ps[k].col as int]
                }
            &&& forall|i: int, j: int|
                0 <= i < j < ps.len() ==> placed_before(#[trigger] ps[i], #[trigger] ps[j])
            &&& forall|r: int, c: int|
                0 <= r < m && 0 <= c < t.0.len() && #[trigger] cell_text(image_row(t, r), c).len()
                    > 0 ==> exists|k: int| 0 <= k < ps.len() && #[trigger] ps[k].row as int == r && ps[k].col as int == c
        }),
    decreases m,
{
    if m > 0 {
        lemma_placements_upto(t, m - 1, lefts);
        let n = t.0.len() as int;
        let row = all_rows(t)[m - 1];
        assert(row == image_row(t, m - 1));
        lemma_row_placements(row, m - 1, lefts, n);
        let prev = placements_upto(t, m - 1);
        let cur = row_placements(row, m - 1, lefts, n);
        let ps = placements_upto(t, m);
        assert(ps == prev + cur);
        assert forall|k: int| 0 <= k < ps.len() implies {
            &&& (#[trigger] ps[k]).row < m
            &&& ps[k].col < t.0.len()
            &&& cell_text(image_row(t, ps[k].row as int), ps[k].col as int).len() > 0
            &&& ps[k].bold == (ps[k].row == 0)
            &&& ps[k].emoji == has_emoji_spec(cell_text(image_row(t, ps[k].row as int), ps[k].col as int))
            &&& ps[k].left_px as int == lefts[ps[k].col as int]
        } by {
            if k < prev.len() {
                assert(ps[k] == prev[k]);
            } else {
                assert(ps[k] == cur[k - prev.len()]);
            }
        }
        assert forall|i: int, j: int| 0 <= i < j < ps.len() implies placed_before(
            #[trigger] ps[i],
            #[trigger] ps[j],
        ) by {
            if j < prev.len() {
                assert(ps[i] == prev[i] && ps[j] == prev[j]);
            } else if i < prev.len() {
                assert(ps[i] == prev[i] && ps[j] == cur[j - prev.len()]);
            } else {
                assert(ps[i] == cur[i - prev.len()] && ps[j] == cur[j - prev.len()]);
            }
        }
        assert forall|r: int, c: int|
            0 <= r < m && 0 <= c < t.0.len() && #[trigger] cell_text(image_row(t, r), c).len()
                > 0 implies exists|k: int| 0 <= k < ps.len() && #[trigger] ps[k].row as int == r && ps[k].col as int == c by {
            if r < m - 1 {
                let k = choose|k: int| 0 <= k < prev.len() && #[trigger] prev[k].row as int == r && prev[k].col as int == c;
                assert(ps[k] == prev[k]);
            } else {
                let k = choose|k: int| 0 <= k < cur.len() && #[trigger] cur[k].col as int == c;
                assert(ps[prev.len() + k] == cur[k]);
            }
        }
    }
}

} // verus!
