//! Character-level text model: whitespace, trimming, splitting into lines
//! and joining, each stated over `Seq<char>` and implemented on `Vec<char>`.

use vstd::prelude::*;

verus! {

/// The characters that `char::is_whitespace` accepts: those with the Unicode
/// `White_Space` property.
pub open spec fn is_space(c: char) -> bool {
    ||| ('\u{9}' <= c && c <= '\u{d}')
    ||| c == ' '
    ||| c == '\u{85}'
    ||| c == '\u{a0}'
    ||| c == '\u{1680}'
    ||| ('\u{2000}' <= c && c <= '\u{200a}')
    ||| c == '\u{2028}'
    ||| c == '\u{2029}'
    ||| c == '\u{202f}'
    ||| c == '\u{205f}'
    ||| c == '\u{3000}'
}

/// `s` without its leading whitespace.
pub open spec fn trim_start(s: Seq<char>) -> Seq<char>
    decreases s.len(),
{
    if s.len() > 0 && is_space(s[0]) {
        trim_start(s.drop_first())
    } else {
        s
    }
}

/// `s` without its trailing whitespace.
pub open spec fn trim_end(s: Seq<char>) -> Seq<char>
    decreases s.len(),
{
    if s.len() > 0 && is_space(s.last()) {
        trim_end(s.drop_last())
    } else {
        s
    }
}

/// `s` without leading and trailing whitespace (`str::trim`).
pub open spec fn trim(s: Seq<char>) -> Seq<char> {
    trim_end(trim_start(s))
}

/// The pieces of `s` between the characters that satisfy `is_sep`: one more
/// piece than there are separators, empty pieces included (`str::split`).
pub open spec fn segments(s: Seq<char>, is_sep: spec_fn(char) -> bool) -> Seq<Seq<char>>
    decreases s.len(),
{
    if s.len() == 0 {
        seq![Seq::<char>::empty()]
    } else {
        let prev = segments(s.drop_last(), is_sep);
        if is_sep(s.last()) {
            prev.push(Seq::<char>::empty())
        } else {
            prev.drop_last().push(prev.last().push(s.last()))
        }
    }
}

/// The separator of lines.
pub open spec fn newline_sep() -> spec_fn(char) -> bool {
    |c: char| c == '\n'
}

/// A line without the carriage return that preceded its line feed.
pub open spec fn strip_cr(line: Seq<char>) -> Seq<char> {
    if line.len() > 0 && line.last() == '\r' {
        line.drop_last()
    } else {
        line
    }
}

/// The lines of `s` as `str::lines` yields them: split at each `'\n'`, a
/// `'\r'` right before the `'\n'` dropped, and no final empty line after a
/// terminating line feed.
pub open spec fn lines(s: Seq<char>) -> Seq<Seq<char>> {
    let segs = segments(s, newline_sep());
    segs.drop_last().map_values(|l: Seq<char>| strip_cr(l)) + (if segs.last().len() > 0 {
        seq![segs.last()]
    } else {
        Seq::<Seq<char>>::empty()
    })
}

/// The parts of `parts` with `sep` between each two of them (`slice::join`).
pub open spec fn join(parts: Seq<Seq<char>>, sep: Seq<char>) -> Seq<char>
    decreases parts.len(),
{
    if parts.len() == 0 {
        Seq::<char>::empty()
    } else if parts.len() == 1 {
        parts[0]
    } else {
        join(parts.drop_last(), sep) + sep + parts.last()
    }
}

/// The character sequences held by a vector of character vectors.
pub open spec fn char_rows(v: Seq<Vec<char>>) -> Seq<Seq<char>> {
    v.map_values(|l: Vec<char>| l@)
}

/// The character sequences held by a vector of strings.
pub open spec fn string_rows(v: Seq<String>) -> Seq<Seq<char>> {
    v.map_values(|s: String| s@)
}

pub proof fn lemma_segments_nonempty(s: Seq<char>, is_sep: spec_fn(char) -> bool)
    ensures
        segments(s, is_sep).len() >= 1,
    decreases s.len(),
{
    if s.len() > 0 {
        lemma_segments_nonempty(s.drop_last(), is_sep);
    }
}

/// `s` holds no `c`.
pub open spec fn lacks(s: Seq<char>, c: char) -> bool {
    forall|i: int| 0 <= i < s.len() ==> s[i] != c
}

pub proof fn lemma_trim_start_suffix(s: Seq<char>)
    ensures
        trim_start(s).len() <= s.len(),
        trim_start(s) == s.skip(s.len() - trim_start(s).len()),
        trim_start(s).len() > 0 ==> !is_space(trim_start(s)[0]),
    decreases s.len(),
{
    if s.len() > 0 && is_space(s[0]) {
        lemma_trim_start_suffix(s.drop_first());
        assert(s.drop_first().skip(s.drop_first().len() - trim_start(s).len()) =~= s.skip(
            s.len() - trim_start(s).len(),
        ));
    } else {
        assert(s.skip(0) =~= s);
    }
}

pub proof fn lemma_trim_end_prefix(s: Seq<char>)
    ensures
        trim_end(s).len() <= s.len(),
        trim_end(s) == s.take(trim_end(s).len() as int),
        trim_end(s).len() > 0 ==> !is_space(trim_end(s).last()),
    decreases s.len(),
{
    if s.len() > 0 && is_space(s.last()) {
        lemma_trim_end_prefix(s.drop_last());
        assert(s.drop_last().take(trim_end(s).len() as int) =~= s.take(trim_end(s).len() as int));
    } else {
        assert(s.take(s.len() as int) =~= s);
    }
}

/// `trim(s)` is a piece of `s` that neither begins nor ends with whitespace,
/// and trimming it again leaves it as it is.
pub proof fn lemma_trim_shape(s: Seq<char>) -> (r: (int, int))
    ensures
        0 <= r.0 <= r.1 <= s.len(),
        trim(s) == s.subrange(r.0, r.1),
        trim(s).len() > 0 ==> !is_space(trim(s)[0]) && !is_space(trim(s).last()),
        trim(trim(s)) == trim(s),
{
    lemma_trim_start_suffix(s);
    let u = trim_start(s);
    lemma_trim_end_prefix(u);
    let t = trim_end(u);
    let a = s.len() - u.len();
    let b = a + t.len();
    assert(t =~= s.subrange(a, b));
    if t.len() > 0 {
        assert(t[0] == u[0]);
        assert(trim_start(t) == t);
        assert(trim_end(t) == t);
    } else {
        assert(trim_start(t) == t);
        assert(trim_end(t) == t);
    }
    (a, b)
}

/// No piece that `segments` cuts holds a separator.
pub proof fn lemma_segments_lack(s: Seq<char>, is_sep: spec_fn(char) -> bool)
    ensures
        forall|k: int, i: int|
            0 <= k < segments(s, is_sep).len() && 0 <= i < segments(s, is_sep)[k].len() ==> !is_sep(
                #[trigger] segments(s, is_sep)[k][i],
            ),
    decreases s.len(),
{
    if s.len() > 0 {
        lemma_segments_lack(s.drop_last(), is_sep);
        lemma_segments_nonempty(s.drop_last(), is_sep);
        let prev = segments(s.drop_last(), is_sep);
        let cur = segments(s, is_sep);
        assert forall|k: int, i: int| 0 <= k < cur.len() && 0 <= i < cur[k].len() implies !is_sep(
            #[trigger] cur[k][i],
        ) by {
            if is_sep(s.last()) {
                assert(cur[k] == prev[k]);
            } else if k < prev.len() - 1 {
                assert(cur[k] == prev[k]);
            } else {
                assert(cur[k] == prev.last().push(s.last()));
                if i < prev.last().len() {
                    assert(cur[k][i] == prev[prev.len() - 1][i]);
                }
            }
        }
    }
}

/// No line holds a line feed.
pub proof fn lemma_lines_lack_newline(s: Seq<char>)
    ensures
        forall|k: int| 0 <= k < lines(s).len() ==> lacks(#[trigger] lines(s)[k], '\n'),
{
    let segs = segments(s, newline_sep());
    lemma_segments_lack(s, newline_sep());
    lemma_segments_nonempty(s, newline_sep());
    let ls = lines(s);
    assert forall|k: int| 0 <= k < ls.len() implies lacks(#[trigger] ls[k], '\n') by {
        if k < segs.len() - 1 {
            assert(ls[k] == strip_cr(segs[k]));
            assert forall|i: int| 0 <= i < ls[k].len() implies ls[k][i] != '\n' by {
                assert(ls[k][i] == segs[k][i]);
                assert(!newline_sep()(segs[k][i]));
            }
        } else {
            assert(ls[k] == segs[segs.len() - 1]);
            assert forall|i: int| 0 <= i < ls[k].len() implies ls[k][i] != '\n' by {
                assert(!newline_sep()(segs[segs.len() - 1][i]));
            }
        }
    }
}

/// Appending text without a separator extends the last piece.
pub proof fn lemma_segments_append(s: Seq<char>, t: Seq<char>, is_sep: spec_fn(char) -> bool)
    requires
        forall|i: int| 0 <= i < t.len() ==> !is_sep(#[trigger] t[i]),
    ensures
        segments(s + t, is_sep) == segments(s, is_sep).drop_last().push(
            segments(s, is_sep).last() + t,
        ),
    decreases t.len(),
{
    lemma_segments_nonempty(s, is_sep);
    if t.len() == 0 {
        assert(s + t =~= s);
        assert(segments(s, is_sep).last() + t =~= segments(s, is_sep).last());
        assert(segments(s, is_sep).drop_last().push(segments(s, is_sep).last())
            =~= segments(s, is_sep));
    } else {
        let t2 = t.drop_last();
        lemma_segments_append(s, t2, is_sep);
        assert((s + t).drop_last() =~= s + t2);
        assert((s + t).last() == t.last());
        assert(!is_sep(t.last()));
        let prev = segments(s + t2, is_sep);
        assert(segments(s + t, is_sep) == prev.drop_last().push(prev.last().push(t.last())));
        let ss = segments(s, is_sep);
        assert(prev.last() == ss.last() + t2);
        assert((ss.last() + t2).push(t.last()) =~= ss.last() + t);
        assert(prev.drop_last() =~= ss.drop_last());
        assert(segments(s + t, is_sep) =~= ss.drop_last().push(ss.last() + t));
    }
}

/// Joining lines that hold no line feed, are not empty and do not end in a
/// carriage return, with line feeds, gives text whose lines are those lines.
pub proof fn lemma_lines_of_join(ls: Seq<Seq<char>>)
    requires
        forall|k: int| 0 <= k < ls.len() ==> lacks(#[trigger] ls[k], '\n'),
        forall|k: int| 0 <= k < ls.len() ==> (#[trigger] ls[k]).len() > 0 && ls[k].last() != '\r',
    ensures
        lines(join(ls, seq!['\n'])) == ls,
{
    if ls.len() == 0 {
        assert(lines(join(ls, seq!['\n'])) =~= ls);
    } else {
        lemma_segments_of_join(ls);
        let segs = segments(join(ls, seq!['\n']), newline_sep());
        assert(segs.drop_last().map_values(|l: Seq<char>| strip_cr(l)) =~= ls.drop_last());
        assert(lines(join(ls, seq!['\n'])) =~= ls);
    }
}

pub proof fn lemma_segments_of_join(ls: Seq<Seq<char>>)
    requires
        ls.len() > 0,
        forall|k: int| 0 <= k < ls.len() ==> lacks(#[trigger] ls[k], '\n'),
    ensures
        segments(join(ls, seq!['\n']), newline_sep()) == ls,
    decreases ls.len(),
{
    let last = ls.last();
    assert(lacks(ls[ls.len() - 1], '\n'));
    assert forall|i: int| 0 <= i < last.len() implies !newline_sep()(#[trigger] last[i]) by {
        assert(last[i] == ls[ls.len() - 1][i]);
    }
    if ls.len() == 1 {
        let e = Seq::<char>::empty();
        lemma_segments_append(e, last, newline_sep());
        assert(e + last =~= last);
        assert(join(ls, seq!['\n']) == ls[0]);
        assert(segments(e, newline_sep()).drop_last().push(segments(e, newline_sep()).last() + last)
            =~= ls);
    } else {
        let front = ls.drop_last();
        assert forall|k: int| 0 <= k < front.len() implies lacks(#[trigger] front[k], '\n') by {
            assert(front[k] == ls[k]);
        }
        lemma_segments_of_join(front);
        let j = join(front, seq!['\n']);
        let jn = j + seq!['\n'];
        assert(jn.drop_last() =~= j);
        assert(jn.last() == '\n');
        assert(segments(jn, newline_sep()) == front.push(Seq::<char>::empty()));
        lemma_segments_append(jn, last, newline_sep());
        assert(join(ls, seq!['\n']) == jn + last);
        assert(front.push(Seq::<char>::empty()).drop_last().push(Seq::<char>::empty() + last) =~= ls);
    }
}

/// Every character of every piece that `segments` cuts is a character of
/// `s`, so holds of each piece whatever holds of each character of `s`.
pub proof fn lemma_segments_chars(s: Seq<char>, is_sep: spec_fn(char) -> bool, p: spec_fn(char) -> bool)
    requires
        forall|i: int| 0 <= i < s.len() ==> p(#[trigger] s[i]),
    ensures
        forall|k: int, i: int|
            0 <= k < segments(s, is_sep).len() && 0 <= i < segments(s, is_sep)[k].len() ==> p(
                #[trigger] segments(s, is_sep)[k][i],
            ),
    decreases s.len(),
{
    if s.len() > 0 {
        let d = s.drop_last();
        assert forall|i: int| 0 <= i < d.len() implies p(#[trigger] d[i]) by {
            assert(d[i] == s[i]);
        }
        lemma_segments_chars(d, is_sep, p);
        lemma_segments_nonempty(d, is_sep);
        let prev = segments(d, is_sep);
        let cur = segments(s, is_sep);
        assert(p(s[s.len() - 1]));
        assert forall|k: int, i: int| 0 <= k < cur.len() && 0 <= i < cur[k].len() implies p(
            #[trigger] cur[k][i],
        ) by {
            if is_sep(s.last()) {
                if k < prev.len() {
                    assert(cur[k] == prev[k]);
                }
            } else if k < prev.len() - 1 {
                assert(cur[k] == prev[k]);
            } else {
                assert(cur[k] == prev.last().push(s.last()));
                if i < prev.last().len() {
                    assert(cur[k][i] == prev[prev.len() - 1][i]);
                }
            }
        }
    }
}

proof fn lemma_trim_start_push(x: Seq<char>, c: char)
    ensures
        trim_start(x.push(c)) == if trim_start(x).len() > 0 {
            trim_start(x).push(c)
        } else {
            trim_start(seq![c])
        },
    decreases x.len(),
{
    if x.len() == 0 {
        assert(x.push(c) =~= seq![c]);
    } else if is_space(x[0]) {
        lemma_trim_start_push(x.drop_first(), c);
        assert(x.push(c).drop_first() =~= x.drop_first().push(c));
        assert(x.push(c)[0] == x[0]);
    } else {
        assert(x.push(c)[0] == x[0]);
    }
}

/// Dropping whitespace from the end of a text does not change it trimmed.
pub proof fn lemma_trim_drop_space(v: Seq<char>)
    requires
        v.len() > 0,
        is_space(v.last()),
    ensures
        trim(v.drop_last()) == trim(v),
{
    let x = v.drop_last();
    let c = v.last();
    assert(x.push(c) =~= v);
    lemma_trim_start_push(x, c);
    if trim_start(x).len() > 0 {
        assert(trim_start(x).push(c).drop_last() =~= trim_start(x));
    } else {
        assert(seq![c].drop_first() =~= Seq::<char>::empty());
        assert(trim_start(seq![c]) == trim_start(Seq::<char>::empty()));
    }
}

/// The lines of a join by line feeds of pieces without line feed, the last
/// of them not empty: the pieces, each but the last without a final
/// carriage return.
pub proof fn lemma_lines_of_join_any(ls: Seq<Seq<char>>)
    requires
        ls.len() > 0,
        forall|k: int| 0 <= k < ls.len() ==> lacks(#[trigger] ls[k], '\n'),
        ls.last().len() > 0,
    ensures
        lines(join(ls, seq!['\n'])) == ls.drop_last().map_values(|l: Seq<char>| strip_cr(l)) + seq![
            ls.last(),
        ],
{
    lemma_segments_of_join(ls);
}

/// The pieces of two texts joined by a line feed are the pieces of the
/// first followed by those of the second.
pub proof fn lemma_segments_newline_concat(x: Seq<char>, y: Seq<char>)
    ensures
        segments(x + seq!['\n'] + y, newline_sep()) == segments(x, newline_sep()) + segments(
            y,
            newline_sep(),
        ),
    decreases y.len(),
{
    let xn = x + seq!['\n'];
    if y.len() == 0 {
        assert(xn + y =~= xn);
        assert(xn.drop_last() =~= x);
        assert(xn.last() == '\n');
        assert(newline_sep()('\n'));
        assert(segments(x, newline_sep()).push(Seq::<char>::empty()) =~= segments(x, newline_sep())
            + segments(y, newline_sep()));
    } else {
        let y2 = y.drop_last();
        let c = y.last();
        lemma_segments_newline_concat(x, y2);
        lemma_segments_nonempty(y2, newline_sep());
        lemma_segments_nonempty(x, newline_sep());
        assert((xn + y).drop_last() =~= xn + y2);
        assert((xn + y).last() == c);
        let sx = segments(x, newline_sep());
        let sy2 = segments(y2, newline_sep());
        let pr = sx + sy2;
        if c == '\n' {
            assert(newline_sep()(c));
            assert(pr.push(Seq::<char>::empty()) =~= sx + sy2.push(Seq::<char>::empty()));
        } else {
            assert(!newline_sep()(c));
            assert(pr.drop_last() =~= sx + sy2.drop_last());
            assert(pr.last() == sy2.last());
            assert(pr.drop_last().push(pr.last().push(c)) =~= sx + sy2.drop_last().push(
                sy2.last().push(c),
            ));
        }
    }
}

/// A concatenation holds no `c` where neither part does.
pub proof fn lemma_concat_lacks(a: Seq<char>, b: Seq<char>, c: char)
    requires
        lacks(a, c),
        lacks(b, c),
    ensures
        lacks(a + b, c),
{
    assert forall|i: int| 0 <= i < (a + b).len() implies (a + b)[i] != c by {
        if i < a.len() {
            assert((a + b)[i] == a[i]);
        } else {
            assert((a + b)[i] == b[i - a.len()]);
        }
    }
}

/// Joining two non-empty lists joins their joins.
pub proof fn lemma_join_concat(a: Seq<Seq<char>>, b: Seq<Seq<char>>, sep: Seq<char>)
    requires
        a.len() > 0,
        b.len() > 0,
    ensures
        join(a + b, sep) == join(a, sep) + sep + join(b, sep),
    decreases b.len(),
{
    if b.len() == 1 {
        assert((a + b).drop_last() =~= a);
        assert((a + b).last() == b[0]);
    } else {
        lemma_join_concat(a, b.drop_last(), sep);
        assert((a + b).drop_last() =~= a + b.drop_last());
        assert((a + b).last() == b.last());
        assert(join(a, sep) + sep + join(b.drop_last(), sep) + sep + b.last() =~= join(a, sep) + sep
            + (join(b.drop_last(), sep) + sep + b.last()));
    }
}

/// A join holds no `c` where neither the parts nor the separator do.
pub proof fn lemma_join_lacks(parts: Seq<Seq<char>>, sep: Seq<char>, c: char)
    requires
        forall|k: int| 0 <= k < parts.len() ==> lacks(#[trigger] parts[k], c),
        lacks(sep, c),
    ensures
        lacks(join(parts, sep), c),
    decreases parts.len(),
{
    if parts.len() == 1 {
        assert(lacks(parts[0], c));
    } else if parts.len() > 1 {
        let d = parts.drop_last();
        assert forall|k: int| 0 <= k < d.len() implies lacks(#[trigger] d[k], c) by {
            assert(d[k] == parts[k]);
        }
        lemma_join_lacks(d, sep, c);
        assert(lacks(parts[parts.len() - 1], c));
        let j = join(d, sep) + sep + parts.last();
        assert forall|i: int| 0 <= i < j.len() implies j[i] != c by {
            if i < join(d, sep).len() {
                assert(j[i] == join(d, sep)[i]);
            } else if i < join(d, sep).len() + sep.len() {
                assert(j[i] == sep[i - join(d, sep).len()]);
            } else {
                assert(j[i] == parts.last()[i - join(d, sep).len() - sep.len()]);
            }
        }
    }
}

/// Copies the characters of `s` into a vector, in order.
pub fn chars_of(s: &str) -> (res: Vec<char>)
    ensures
        res@ == s@,
{
    let mut res: Vec<char> = Vec::new();
    for c in it: s.chars()
        invariant
            res@ == it.seq().take(it.index() as int),
            it.seq() == s@,
    {
        res.push(c);
    }
    res
}

/// Whether two character sequences are equal.
pub fn chars_eq(a: &[char], b: &[char]) -> (res: bool)
    ensures
        res == (a@ == b@),
{
    if a.len() != b.len() {
        return false;
    }
    let mut i: usize = 0;
    while i < a.len()
        invariant
            i <= a@.len() == b@.len(),
            forall|j: int| 0 <= j < i ==> a@[j] == b@[j],
        decreases a.len() - i,
    {
        if a[i] != b[i] {
            return false;
        }
        i += 1;
    }
    assert(a@ =~= b@);
    true
}

/// `String::push`: appends `c` to the end of `s`. The contract claims what
/// std documents of it: the string afterwards is the one before with `c`
/// added at its end.
#[verifier::external_body]
fn push_char(s: &mut String, c: char)
    ensures
        final(s)@ == old(s)@.push(c),
{
    s.push(c);
}

/// Builds a string holding exactly the characters of `cs`.
pub fn string_of(cs: &[char]) -> (res: String)
    ensures
        res@ == cs@,
{
    let mut res = String::new();
    let mut i: usize = 0;
    while i < cs.len()
        invariant
            i <= cs.len(),
            res@ == cs@.take(i as int),
        decreases cs.len() - i,
    {
        push_char(&mut res, cs[i]);
        i += 1;
        assert(res@ =~= cs@.take(i as int));
    }
    assert(cs@.take(cs.len() as int) =~= cs@);
    res
}

/// Whether `c` is whitespace.
pub fn is_space_char(c: char) -> (res: bool)
    ensures
        res == is_space(c),
{
    ('\u{9}' <= c && c <= '\u{d}') || c == ' ' || c == '\u{85}' || c == '\u{a0}' || c == '\u{1680}'
        || ('\u{2000}' <= c && c <= '\u{200a}') || c == '\u{2028}' || c == '\u{2029}' || c
        == '\u{202f}' || c == '\u{205f}' || c == '\u{3000}'
}

/// Appends `src` to `dst`.
pub fn append_chars(dst: &mut Vec<char>, src: &[char])
    ensures
        final(dst)@ == old(dst)@ + src@,
{
    let mut i: usize = 0;
    while i < src.len()
        invariant
            i <= src.len(),
            dst@ == old(dst)@ + src@.take(i as int),
        decreases src.len() - i,
    {
        dst.push(src[i]);
        i += 1;
        assert(dst@ =~= old(dst)@ + src@.take(i as int));
    }
    assert(src@.take(src.len() as int) =~= src@);
}

/// A copy of `s[lo..hi]`.
pub fn copy_range(s: &[char], lo: usize, hi: usize) -> (res: Vec<char>)
    requires
        lo <= hi <= s@.len(),
    ensures
        res@ == s@.subrange(lo as int, hi as int),
{
    let mut res: Vec<char> = Vec::new();
    let mut i: usize = lo;
    while i < hi
        invariant
            lo <= i <= hi <= s@.len(),
            res@ == s@.subrange(lo as int, i as int),
        decreases hi - i,
    {
        res.push(s[i]);
        i += 1;
        assert(res@ =~= s@.subrange(lo as int, i as int));
    }
    res
}

/// `s` without leading and trailing whitespace.
pub fn trim_chars(s: &[char]) -> (res: Vec<char>)
    ensures
        res@ == trim(s@),
{
    let n = s.len();
    let mut i: usize = 0;
    assert(s@.skip(0) =~= s@);
    while i < n && is_space_char(s[i])
        invariant
            i <= n == s@.len(),
            trim_start(s@) == trim_start(s@.skip(i as int)),
        decreases n - i,
    {
        assert(s@.skip(i as int).drop_first() =~= s@.skip(i + 1));
        i += 1;
    }
    assert(trim_start(s@.skip(i as int)) == s@.skip(i as int));
    let ghost t = s@.skip(i as int);
    assert(t.take(n - i) =~= t);
    let mut j: usize = n;
    while j > i && is_space_char(s[j - 1])
        invariant
            i <= j <= n == s@.len(),
            t == s@.skip(i as int),
            trim_end(t) == trim_end(t.take(j - i)),
        decreases j,
    {
        assert(t.take(j - i).drop_last() =~= t.take(j - 1 - i));
        j -= 1;
    }
    assert(trim_end(t.take(j - i)) == t.take(j - i));
    assert(t.take(j - i) =~= s@.subrange(i as int, j as int));
    copy_range(s, i, j)
}

/// The lines of `s`, as `str::lines` splits them.
pub fn split_lines(s: &[char]) -> (res: Vec<Vec<char>>)
    ensures
        char_rows(res@) == lines(s@),
{
    let mut done: Vec<Vec<char>> = Vec::new();
    let mut current: Vec<char> = Vec::new();
    let mut i: usize = 0;
    proof {
        assert(s@.take(0) =~= Seq::<char>::empty());
    }
    while i < s.len()
        invariant
            i <= s@.len(),
            segments(s@.take(i as int), newline_sep()).len() >= 1,
            char_rows(done@) == segments(s@.take(i as int), newline_sep()).drop_last().map_values(
                |l: Seq<char>| strip_cr(l),
            ),
            current@ == segments(s@.take(i as int), newline_sep()).last(),
        decreases s.len() - i,
    {
        let ghost prev = segments(s@.take(i as int), newline_sep());
        let c = s[i];
        assert(s@.take(i + 1).drop_last() =~= s@.take(i as int));
        assert(s@.take(i + 1).last() == c);
        if c == '\n' {
            let n = current.len();
            let line = if n > 0 && current[n - 1] == '\r' {
                let l = copy_range(&current, 0, n - 1);
                assert(l@ =~= current@.drop_last());
                l
            } else {
                let l = copy_range(&current, 0, n);
                assert(l@ =~= current@);
                l
            };
            assert(line@ == strip_cr(current@));
            let ghost old_done = done@;
            done.push(line);
            assert(char_rows(done@) =~= char_rows(old_done).push(line@));
            current = Vec::new();
            let ghost next = segments(s@.take(i + 1), newline_sep());
            assert(newline_sep()(c));
            assert(s@.take(i + 1).len() > 0);
            assert(next == prev.push(Seq::<char>::empty()));
            assert(next.drop_last() =~= prev);
            assert(prev.map_values(|l: Seq<char>| strip_cr(l)) =~= prev.drop_last().map_values(
                |l: Seq<char>| strip_cr(l),
            ).push(strip_cr(prev.last())));
            assert(char_rows(done@) =~= next.drop_last().map_values(|l: Seq<char>| strip_cr(l)));
            assert(current@ =~= next.last());
        } else {
            current.push(c);
            let ghost next = segments(s@.take(i + 1), newline_sep());
            assert(next == prev.drop_last().push(prev.last().push(c)));
            assert(next.drop_last() =~= prev.drop_last());
        }
        i += 1;
    }
    assert(s@.take(s@.len() as int) =~= s@);
    if current.len() > 0 {
        done.push(current);
    }
    proof {
        let segs = segments(s@, newline_sep());
        let rest = if segs.last().len() > 0 {
            seq![segs.last()]
        } else {
            Seq::<Seq<char>>::empty()
        };
        assert(char_rows(done@) =~= segs.drop_last().map_values(|l: Seq<char>| strip_cr(l)) + rest);
    }
    done
}

/// `parts` joined with `sep` between each two of them.
pub fn join_chars(parts: &Vec<Vec<char>>, sep: &[char]) -> (res: Vec<char>)
    ensures
        res@ == join(char_rows(parts@), sep@),
{
    let mut res: Vec<char> = Vec::new();
    let mut i: usize = 0;
    while i < parts.len()
        invariant
            i <= parts.len(),
            res@ == join(char_rows(parts@).take(i as int), sep@),
        decreases parts.len() - i,
    {
        let ghost pv = char_rows(parts@);
        assert(pv.take(i + 1).drop_last() =~= pv.take(i as int));
        if i > 0 {
            append_chars(&mut res, sep);
        }
        append_chars(&mut res, &parts[i]);
        i += 1;
        assert(join(pv.take(i as int), sep@) == res@) by {
            if i == 1 {
                assert(pv.take(1)[0] == parts[0]@);
            }
        }
    }
    assert(char_rows(parts@).take(parts.len() as int) =~= char_rows(parts@));
    res
}

} // verus!
