//! The settings file: `key=value` lines, read back by key and rewritten with
//! one setting changed.

use vstd::prelude::*;
use crate::text::{
    append_chars, char_rows, chars_eq, chars_of, is_space, join, join_chars, lacks, lemma_lines_lack_newline,
    lemma_lines_of_join_any, lemma_trim_drop_space, lemma_trim_shape,
    strip_cr, lines, split_lines, string_of, trim, trim_chars,
};

verus! {

/// A setting: its key and its value.
pub type Entry = (Seq<char>, Seq<char>);

/// `str::split_once('=')`: the text before the first `'='` and the text
/// after it, or none where the line holds no `'='`.
pub open spec fn split_once_eq(l: Seq<char>) -> Option<(Seq<char>, Seq<char>)>
    decreases l.len(),
{
    if l.len() == 0 {
        None
    } else if l[0] == '=' {
        Some((Seq::<char>::empty(), l.drop_first()))
    } else {
        match split_once_eq(l.drop_first()) {
            Some(kv) => Some((seq![l[0]] + kv.0, kv.1)),
            None => None,
        }
    }
}

/// The value of the first line whose trimmed key is `key`, trimmed.
pub open spec fn config_lookup(ls: Seq<Seq<char>>, key: Seq<char>) -> Option<Seq<char>>
    decreases ls.len(),
{
    if ls.len() == 0 {
        None
    } else {
        match split_once_eq(ls[0]) {
            Some(kv) => if trim(kv.0) == key {
                Some(trim(kv.1))
            } else {
                config_lookup(ls.drop_first(), key)
            },
            None => config_lookup(ls.drop_first(), key),
        }
    }
}

/// The value that a settings text gives `key`.
pub open spec fn config_value_spec(content: Seq<char>, key: Seq<char>) -> Option<Seq<char>> {
    config_lookup(lines(content), key)
}

/// The value of the last line whose trimmed key is `key`, trimmed.
pub open spec fn last_value(ls: Seq<Seq<char>>, key: Seq<char>) -> Option<Seq<char>>
    decreases ls.len(),
{
    if ls.len() == 0 {
        None
    } else {
        match split_once_eq(ls.last()) {
            Some(kv) => if trim(kv.0) == key {
                Some(trim(kv.1))
            } else {
                last_value(ls.drop_last(), key)
            },
            None => last_value(ls.drop_last(), key),
        }
    }
}

/// The value of the first entry with key `key`.
pub open spec fn assoc_get(es: Seq<Entry>, key: Seq<char>) -> Option<Seq<char>>
    decreases es.len(),
{
    if es.len() == 0 {
        None
    } else if es[0].0 == key {
        Some(es[0].1)
    } else {
        assoc_get(es.drop_first(), key)
    }
}

/// `es` with the value of `key` set to `value`: the entry of that key
/// replaced in place, or a new entry at the end.
pub open spec fn put(es: Seq<Entry>, key: Seq<char>, value: Seq<char>) -> Seq<Entry>
    decreases es.len(),
{
    if es.len() == 0 {
        seq![(key, value)]
    } else if es[0].0 == key {
        es.update(0, (key, value))
    } else {
        seq![es[0]] + put(es.drop_first(), key, value)
    }
}

/// The settings of a settings text, in the order their keys first appear,
/// each with the last value given to it.
pub open spec fn entries_of(ls: Seq<Seq<char>>) -> Seq<Entry>
    decreases ls.len(),
{
    if ls.len() == 0 {
        Seq::<Entry>::empty()
    } else {
        let prev = entries_of(ls.drop_last());
        match split_once_eq(ls.last()) {
            Some(kv) => put(prev, trim(kv.0), trim(kv.1)),
            None => prev,
        }
    }
}

/// The line `key=value` of an entry.
pub open spec fn entry_line(e: Entry) -> Seq<char> {
    e.0 + seq!['='] + e.1
}

/// The settings text of `es`: one line per entry.
pub open spec fn render_entries(es: Seq<Entry>) -> Seq<char> {
    join(es.map_values(|e: Entry| entry_line(e)), seq!['\n'])
}

/// The lines of the settings text there was, if any.
pub open spec fn existing_lines(existing: Option<Seq<char>>) -> Seq<Seq<char>> {
    match existing {
        Some(c) => lines(c),
        None => Seq::<Seq<char>>::empty(),
    }
}

/// The settings text after `key` is set to `value`.
pub open spec fn updated_config_spec(existing: Option<Seq<char>>, key: Seq<char>, value: Seq<char>) -> Seq<char> {
    render_entries(put(entries_of(existing_lines(existing)), key, value))
}

/// The key of the HUD setting.
pub open spec fn hud_key() -> Seq<char> {
    seq!['h', 'u', 'd']
}

/// The value that turns the HUD off.
pub open spec fn off_value() -> Seq<char> {
    seq!['o', 'f', 'f']
}

/// Whether the HUD shows, given the settings text (none where it cannot be
/// read): unless the HUD setting is `off`.
pub open spec fn hud_enabled_spec(config: Option<Seq<char>>) -> bool {
    match config {
        None => true,
        Some(c) => match config_value_spec(c, hud_key()) {
            None => true,
            Some(v) => v != off_value(),
        },
    }
}

/// The characters of a sequence of entries, as vectors.
pub open spec fn entries_view(v: Seq<(Vec<char>, Vec<char>)>) -> Seq<Entry> {
    v.map_values(|e: (Vec<char>, Vec<char>)| (e.0@, e.1@))
}

proof fn lemma_split_once_found(l: Seq<char>, p: int)
    requires
        0 <= p < l.len(),
        l[p] == '=',
        forall|j: int| 0 <= j < p ==> l[j] != '=',
    ensures
        split_once_eq(l) == Some((l.take(p), l.skip(p + 1))),
    decreases p,
{
    if p > 0 {
        let d = l.drop_first();
        assert forall|j: int| 0 <= j < p - 1 implies d[j] != '=' by {
            assert(d[j] == l[j + 1]);
        }
        lemma_split_once_found(d, p - 1);
        assert(seq![l[0]] + d.take(p - 1) =~= l.take(p));
        assert(d.skip(p) =~= l.skip(p + 1));
    } else {
        assert(l.take(0) =~= Seq::<char>::empty());
        assert(l.skip(1) =~= l.drop_first());
    }
}

proof fn lemma_split_once_absent(l: Seq<char>)
    requires
        forall|j: int| 0 <= j < l.len() ==> l[j] != '=',
    ensures
        split_once_eq(l) is None,
    decreases l.len(),
{
    if l.len() > 0 {
        let d = l.drop_first();
        assert forall|j: int| 0 <= j < d.len() implies d[j] != '=' by {
            assert(d[j] == l[j + 1]);
        }
        lemma_split_once_absent(d);
    }
}

/// The text before the first `'='` of `l` and the text after it.
fn split_once_eq_chars(l: &[char]) -> (res: Option<(Vec<char>, Vec<char>)>)
    ensures
        match res {
            None => split_once_eq(l@) is None,
            Some(kv) => split_once_eq(l@) == Some((kv.0@, kv.1@)),
        },
{
    let mut p: usize = 0;
    while p < l.len()
        invariant
            p <= l@.len(),
            forall|j: int| 0 <= j < p ==> l@[j] != '=',
        decreases l.len() - p,
    {
        if l[p] == '=' {
            proof {
                lemma_split_once_found(l@, p as int);
            }
            let k = crate::text::copy_range(l, 0, p);
            let v = crate::text::copy_range(l, p + 1, l.len());
            assert(k@ =~= l@.take(p as int));
            assert(v@ =~= l@.skip(p + 1));
            return Some((k, v));
        }
        p += 1;
    }
    proof {
        lemma_split_once_absent(l@);
    }
    None
}

/// The value that the settings text `content` gives `key`, trimmed; none
/// where no line sets it.
pub fn config_value(content: &str, key: &str) -> (res: Option<String>)
    ensures
        match res {
            None => config_value_spec(content@, key@) is None,
            Some(v) => config_value_spec(content@, key@) == Some(v@),
        },
{
    let cs = chars_of(content);
    let kc = chars_of(key);
    let ls = split_lines(&cs);
    let ghost lv = char_rows(ls@);
    let mut i: usize = 0;
    assert(lv.skip(0) =~= lv);
    while i < ls.len()
        invariant
            i <= ls@.len(),
            lv == char_rows(ls@),
            lv == lines(content@),
            kc@ == key@,
            config_lookup(lv, key@) == config_lookup(lv.skip(i as int), key@),
        decreases ls.len() - i,
    {
        assert(lv.skip(i as int)[0] == ls[i as int]@);
        assert(lv.skip(i as int).drop_first() =~= lv.skip(i + 1));
        match split_once_eq_chars(&ls[i]) {
            Some(kv) => {
                let k = trim_chars(&kv.0);
                if chars_eq(&k, &kc) {
                    let v = trim_chars(&kv.1);
                    return Some(string_of(&v));
                }
            },
            None => {},
        }
        i += 1;
    }
    None
}

proof fn lemma_put_skip(es: Seq<Entry>, k: Seq<char>, v: Seq<char>, i: int)
    requires
        0 <= i <= es.len(),
        forall|j: int| 0 <= j < i ==> es[j].0 != k,
    ensures
        put(es, k, v) == es.take(i) + put(es.skip(i), k, v),
    decreases i,
{
    if i == 0 {
        assert(es.take(0) + put(es.skip(0), k, v) =~= put(es, k, v)) by {
            assert(es.skip(0) =~= es);
        }
    } else {
        let d = es.drop_first();
        assert forall|j: int| 0 <= j < i - 1 implies d[j].0 != k by {
            assert(d[j] == es[j + 1]);
        }
        lemma_put_skip(d, k, v, i - 1);
        assert(d.skip(i - 1) =~= es.skip(i));
        assert(seq![es[0]] + d.take(i - 1) =~= es.take(i));
    }
}

/// Sets `key` to `value` among the entries `es`.
fn put_entry(es: &mut Vec<(Vec<char>, Vec<char>)>, key: Vec<char>, value: Vec<char>)
    ensures
        entries_view(final(es)@) == put(entries_view(old(es)@), key@, value@),
{
    let ghost ev = entries_view(es@);
    let mut i: usize = 0;
    while i < es.len()
        invariant
            i <= es@.len(),
            ev == entries_view(es@),
            es@ == old(es)@,
            forall|j: int| 0 <= j < i ==> ev[j].0 != key@,
        decreases es.len() - i,
    {
        if chars_eq(&es[i].0, &key) {
            proof {
                lemma_put_skip(ev, key@, value@, i as int);
                assert(ev.skip(i as int)[0].0 == key@);
            }
            let ghost kv = key@;
            let ghost vv = value@;
            es.set(i, (key, value));
            proof {
                assert(entries_view(es@) =~= ev.take(i as int) + ev.skip(i as int).update(0, (kv, vv)));
            }
            return;
        }
        i += 1;
    }
    proof {
        lemma_put_skip(ev, key@, value@, i as int);
        assert(ev.skip(i as int) =~= Seq::<Entry>::empty());
        assert(ev.take(i as int) =~= ev);
    }
    let ghost kv = key@;
    let ghost vv = value@;
    es.push((key, value));
    assert(entries_view(es@) =~= ev.push((kv, vv)));
}

/// The entries that the lines `ls` set.
fn entries_of_lines(ls: &Vec<Vec<char>>) -> (res: Vec<(Vec<char>, Vec<char>)>)
    ensures
        entries_view(res@) == entries_of(char_rows(ls@)),
{
    let ghost lv = char_rows(ls@);
    let mut es: Vec<(Vec<char>, Vec<char>)> = Vec::new();
    let mut i: usize = 0;
    assert(lv.take(0) =~= Seq::<Seq<char>>::empty());
    while i < ls.len()
        invariant
            i <= ls@.len(),
            lv == char_rows(ls@),
            entries_view(es@) == entries_of(lv.take(i as int)),
        decreases ls.len() - i,
    {
        assert(lv.take(i + 1).drop_last() =~= lv.take(i as int));
        assert(lv.take(i + 1).last() == ls[i as int]@);
        match split_once_eq_chars(&ls[i]) {
            Some(kv) => {
                let k = trim_chars(&kv.0);
                let v = trim_chars(&kv.1);
                put_entry(&mut es, k, v);
            },
            None => {},
        }
        i += 1;
    }
    assert(lv.take(ls@.len() as int) =~= lv);
    es
}

/// The settings text after `key` is set to `value` in the settings text
/// there was (none where there was none): one `key=value` line per setting,
/// in the order in which keys first appeared, each with its last value.
pub fn updated_config(existing: Option<&str>, key: &str, value: &str) -> (res: String)
    ensures
        res@ == updated_config_spec(
            match existing {
                Some(c) => Some(c@),
                None => None,
            },
            key@,
            value@,
        ),
{
    let ls: Vec<Vec<char>> = match existing {
        Some(c) => {
            let cs = chars_of(c);
            split_lines(&cs)
        },
        None => Vec::new(),
    };
    let ghost ex = match existing {
        Some(c) => Some(c@),
        None => None,
    };
    assert(char_rows(ls@) =~= existing_lines(ex));
    let mut es = entries_of_lines(&ls);
    let kc = chars_of(key);
    let vc = chars_of(value);
    put_entry(&mut es, kc, vc);
    let ghost ev = entries_view(es@);
    let mut out_lines: Vec<Vec<char>> = Vec::new();
    let mut i: usize = 0;
    while i < es.len()
        invariant
            i <= es@.len(),
            ev == entries_view(es@),
            char_rows(out_lines@) == ev.take(i as int).map_values(|e: Entry| entry_line(e)),
        decreases es.len() - i,
    {
        let mut line: Vec<char> = Vec::new();
        append_chars(&mut line, &es[i].0);
        line.push('=');
        append_chars(&mut line, &es[i].1);
        let ghost old_lines = out_lines@;
        assert(line@ =~= entry_line(ev[i as int]));
        out_lines.push(line);
        i += 1;
        assert(char_rows(out_lines@) =~= ev.take(i as int).map_values(|e: Entry| entry_line(e))) by {
            assert(char_rows(out_lines@) =~= char_rows(old_lines).push(entry_line(ev[i - 1])));
        }
    }
    assert(ev.take(es@.len() as int) =~= ev);
    let sep = ['\n'];
    assert(sep@ =~= seq!['\n']);
    let text = join_chars(&out_lines, &sep);
    string_of(&text)
}

/// Whether the HUD shows, given the settings text, or none where it cannot
/// be read: unless the HUD setting is `off`.
pub fn is_hud_enabled(config: Option<&str>) -> (res: bool)
    ensures
        res == hud_enabled_spec(
            match config {
                Some(c) => Some(c@),
                None => None,
            },
        ),
{
    match config {
        None => true,
        Some(c) => {
            let key = string_of(&['h', 'u', 'd']);
            assert(key@ =~= hud_key());
            match config_value(c, key.as_str()) {
                None => true,
                Some(v) => {
                    let vc = chars_of(v.as_str());
                    let off = ['o', 'f', 'f'];
                    assert(off@ =~= off_value());
                    !chars_eq(&vc, &off)
                },
            }
        },
    }
}


/// A key that a settings line gives back as it is: trimmed, without `'='`
/// and without line feed.
pub open spec fn clean_key(k: Seq<char>) -> bool {
    trim(k) == k && lacks(k, '=') && lacks(k, '\n')
}

/// A value that a settings line gives back as it is: trimmed and without
/// line feed.
pub open spec fn clean_value(v: Seq<char>) -> bool {
    trim(v) == v && lacks(v, '\n')
}

/// Entries whose keys and values all read back as they are.
pub open spec fn clean_entries(es: Seq<Entry>) -> bool {
    forall|i: int| 0 <= i < es.len() ==> clean_key(#[trigger] es[i].0) && clean_value(es[i].1)
}

/// The value that turns the HUD on.
pub open spec fn on_value() -> Seq<char> {
    seq!['o', 'n']
}

proof fn lemma_split_once_parts(l: Seq<char>)
    ensures
        split_once_eq(l) matches Some(kv) ==> lacks(kv.0, '=') && (lacks(l, '\n') ==> lacks(
            kv.0,
            '\n',
        ) && lacks(kv.1, '\n')),
    decreases l.len(),
{
    if l.len() > 0 && l[0] != '=' {
        let d = l.drop_first();
        lemma_split_once_parts(d);
        if let Some(kv) = split_once_eq(d) {
            let k = seq![l[0]] + kv.0;
            assert forall|i: int| 0 <= i < k.len() implies k[i] != '=' by {
                if i > 0 {
                    assert(k[i] == kv.0[i - 1]);
                }
            }
            if lacks(l, '\n') {
                assert forall|i: int| 0 <= i < d.len() implies d[i] != '\n' by {
                    assert(d[i] == l[i + 1]);
                }
                assert forall|i: int| 0 <= i < k.len() implies k[i] != '\n' by {
                    if i > 0 {
                        assert(k[i] == kv.0[i - 1]);
                    }
                }
            }
        }
    } else if l.len() > 0 {
        if lacks(l, '\n') {
            let d = l.drop_first();
            assert forall|i: int| 0 <= i < d.len() implies d[i] != '\n' by {
                assert(d[i] == l[i + 1]);
            }
        }
    }
}

proof fn lemma_trim_lacks(s: Seq<char>, c: char)
    requires
        lacks(s, c),
    ensures
        lacks(trim(s), c),
        trim(trim(s)) == trim(s),
{
    let r = lemma_trim_shape(s);
    assert forall|i: int| 0 <= i < trim(s).len() implies trim(s)[i] != c by {
        assert(trim(s)[i] == s[r.0 + i]);
    }
}

proof fn lemma_put_clean(es: Seq<Entry>, k: Seq<char>, v: Seq<char>)
    requires
        clean_entries(es),
        clean_key(k),
        clean_value(v),
    ensures
        clean_entries(put(es, k, v)),
    decreases es.len(),
{
    if es.len() > 0 && es[0].0 != k {
        let d = es.drop_first();
        assert forall|i: int| 0 <= i < d.len() implies clean_key(#[trigger] d[i].0) && clean_value(
            d[i].1,
        ) by {
            assert(d[i] == es[i + 1]);
        }
        lemma_put_clean(d, k, v);
        let r = put(es, k, v);
        assert forall|i: int| 0 <= i < r.len() implies clean_key(#[trigger] r[i].0) && clean_value(
            r[i].1,
        ) by {
            if i > 0 {
                assert(r[i] == put(d, k, v)[i - 1]);
            }
        }
    }
}

proof fn lemma_entries_clean(ls: Seq<Seq<char>>)
    requires
        forall|k: int| 0 <= k < ls.len() ==> lacks(#[trigger] ls[k], '\n'),
    ensures
        clean_entries(entries_of(ls)),
    decreases ls.len(),
{
    if ls.len() > 0 {
        let d = ls.drop_last();
        assert forall|k: int| 0 <= k < d.len() implies lacks(#[trigger] d[k], '\n') by {
            assert(d[k] == ls[k]);
        }
        lemma_entries_clean(d);
        let l = ls.last();
        assert(lacks(ls[ls.len() - 1], '\n'));
        lemma_split_once_parts(l);
        if let Some(kv) = split_once_eq(l) {
            lemma_trim_lacks(kv.0, '=');
            lemma_trim_lacks(kv.0, '\n');
            lemma_trim_lacks(kv.1, '\n');
            lemma_put_clean(entries_of(d), trim(kv.0), trim(kv.1));
        }
    }
}

/// Setting a key changes what that key reads and nothing else.
pub proof fn lemma_put_get(es: Seq<Entry>, k: Seq<char>, v: Seq<char>, probe: Seq<char>)
    ensures
        assoc_get(put(es, k, v), probe) == if probe == k {
            Some(v)
        } else {
            assoc_get(es, probe)
        },
    decreases es.len(),
{
    let r = put(es, k, v);
    if es.len() == 0 {
        assert(r[0] == (k, v));
        assert(r.drop_first() =~= Seq::<Entry>::empty());
    } else if es[0].0 == k {
        assert(r[0] == (k, v));
        assert(r.drop_first() =~= es.drop_first());
        if probe != k {
            assert(assoc_get(r, probe) == assoc_get(r.drop_first(), probe));
            assert(assoc_get(es, probe) == assoc_get(es.drop_first(), probe));
        }
    } else {
        lemma_put_get(es.drop_first(), k, v, probe);
        assert(r[0] == es[0]);
        assert(r.drop_first() =~= put(es.drop_first(), k, v));
        if es[0].0 == probe {
            assert(assoc_get(r, probe) == Some(es[0].1));
        } else {
            assert(assoc_get(r, probe) == assoc_get(r.drop_first(), probe));
            assert(assoc_get(es, probe) == assoc_get(es.drop_first(), probe));
        }
    }
}

proof fn lemma_entries_last(ls: Seq<Seq<char>>, probe: Seq<char>)
    ensures
        assoc_get(entries_of(ls), probe) == last_value(ls, probe),
    decreases ls.len(),
{
    if ls.len() > 0 {
        lemma_entries_last(ls.drop_last(), probe);
        if let Some(kv) = split_once_eq(ls.last()) {
            lemma_put_get(entries_of(ls.drop_last()), trim(kv.0), trim(kv.1), probe);
        }
    }
}

/// Entries whose keys read back as they are and whose values hold no line
/// feed.
pub open spec fn readable_entries(es: Seq<Entry>) -> bool {
    forall|i: int| 0 <= i < es.len() ==> clean_key(#[trigger] es[i].0) && lacks(es[i].1, '\n')
}

/// A value, trimmed, where there is one.
pub open spec fn trimmed(o: Option<Seq<char>>) -> Option<Seq<char>> {
    match o {
        Some(v) => Some(trim(v)),
        None => None,
    }
}

proof fn lemma_put_readable(es: Seq<Entry>, k: Seq<char>, v: Seq<char>)
    requires
        readable_entries(es),
        clean_key(k),
        lacks(v, '\n'),
    ensures
        readable_entries(put(es, k, v)),
    decreases es.len(),
{
    if es.len() > 0 && es[0].0 != k {
        let d = es.drop_first();
        assert forall|i: int| 0 <= i < d.len() implies clean_key(#[trigger] d[i].0) && lacks(
            d[i].1,
            '\n',
        ) by {
            assert(d[i] == es[i + 1]);
        }
        lemma_put_readable(d, k, v);
        let r = put(es, k, v);
        assert forall|i: int| 0 <= i < r.len() implies clean_key(#[trigger] r[i].0) && lacks(
            r[i].1,
            '\n',
        ) by {
            if i > 0 {
                assert(r[i] == put(d, k, v)[i - 1]);
            }
        }
    }
}

/// A line of an entry, read back with or without a final carriage return,
/// gives the entry's key and its value up to whitespace at the end.
#[verifier::rlimit(40)]
proof fn lemma_entry_read(e: Entry, m: Seq<char>)
    requires
        clean_key(e.0),
        lacks(e.1, '\n'),
        m == entry_line(e) || m == strip_cr(entry_line(e)),
    ensures
        entry_line(e).len() > 0,
        lacks(entry_line(e), '\n'),
        split_once_eq(m) matches Some(kv) && kv.0 == e.0 && trim(kv.1) == trim(e.1),
{
    let l = entry_line(e);
    let p = e.0.len() as int;
    assert(l[p] == '=');
    assert forall|i: int| 0 <= i < l.len() implies l[i] != '\n' by {
        if i < p {
            assert(l[i] == e.0[i]);
        } else if i > p {
            assert(l[i] == e.1[i - p - 1]);
        }
    }
    if m == l || e.1.len() == 0 {
        if e.1.len() == 0 {
            assert(l.last() == '=');
        }
        assert(m == l);
        assert forall|j: int| 0 <= j < p implies m[j] != '=' by {
            assert(m[j] == e.0[j]);
        }
        lemma_split_once_found(m, p);
        assert(m.take(p) =~= e.0);
        assert(m.skip(p + 1) =~= e.1);
    } else {
        assert(l.last() == e.1.last());
        if e.1.last() == '\r' {
            assert(m == l.drop_last());
            assert(m[p] == '=');
            assert forall|j: int| 0 <= j < p implies m[j] != '=' by {
                assert(m[j] == e.0[j]);
            }
            lemma_split_once_found(m, p);
            assert(m.take(p) =~= e.0);
            assert(m.skip(p + 1) =~= e.1.drop_last());
            assert(is_space(e.1.last()));
            lemma_trim_drop_space(e.1);
        } else {
            assert(m == l);
            assert forall|j: int| 0 <= j < p implies m[j] != '=' by {
                assert(m[j] == e.0[j]);
            }
            lemma_split_once_found(m, p);
            assert(m.take(p) =~= e.0);
            assert(m.skip(p + 1) =~= e.1);
        }
    }
}

proof fn lemma_lookup_read(es: Seq<Entry>, ms: Seq<Seq<char>>, probe: Seq<char>)
    requires
        readable_entries(es),
        ms.len() == es.len(),
        forall|i: int|
            0 <= i < es.len() ==> #[trigger] ms[i] == entry_line(es[i]) || ms[i] == strip_cr(
                entry_line(es[i]),
            ),
    ensures
        config_lookup(ms, probe) == trimmed(assoc_get(es, probe)),
    decreases es.len(),
{
    if es.len() > 0 {
        assert(clean_key(es[0].0));
        assert(ms[0] == entry_line(es[0]) || ms[0] == strip_cr(entry_line(es[0])));
        lemma_entry_read(es[0], ms[0]);
        let d = es.drop_first();
        let dm = ms.drop_first();
        assert forall|i: int| 0 <= i < d.len() implies clean_key(#[trigger] d[i].0) && lacks(
            d[i].1,
            '\n',
        ) by {
            assert(d[i] == es[i + 1]);
        }
        assert forall|i: int| 0 <= i < d.len() implies #[trigger] dm[i] == entry_line(d[i]) || dm[i]
            == strip_cr(entry_line(d[i])) by {
            assert(dm[i] == ms[i + 1]);
            assert(d[i] == es[i + 1]);
        }
        lemma_lookup_read(d, dm, probe);
    }
}

proof fn lemma_last_value_trimmed(ls: Seq<Seq<char>>, probe: Seq<char>)
    ensures
        trimmed(last_value(ls, probe)) == last_value(ls, probe),
    decreases ls.len(),
{
    if ls.len() > 0 {
        lemma_last_value_trimmed(ls.drop_last(), probe);
        if let Some(kv) = split_once_eq(ls.last()) {
            lemma_trim_shape(kv.1);
        }
    }
}

/// What a setting reads after a write: the key written reads the value
/// written, trimmed, and every other key reads the last value the previous
/// settings text gave it.
pub proof fn law_config_read_after_write(
    existing: Option<Seq<char>>,
    key: Seq<char>,
    value: Seq<char>,
    probe: Seq<char>,
)
    requires
        clean_key(key),
        lacks(value, '\n'),
    ensures
        config_value_spec(updated_config_spec(existing, key, value), probe) == if probe == key {
            Some(trim(value))
        } else {
            last_value(existing_lines(existing), probe)
        },
{
    let ls = existing_lines(existing);
    if let Some(c) = existing {
        lemma_lines_lack_newline(c);
    }
    lemma_entries_clean(ls);
    let old_es = entries_of(ls);
    assert forall|i: int| 0 <= i < old_es.len() implies clean_key(#[trigger] old_es[i].0) && lacks(
        old_es[i].1,
        '\n',
    ) by {
        assert(clean_key(old_es[i].0) && clean_value(old_es[i].1));
    }
    let es = put(old_es, key, value);
    lemma_put_readable(old_es, key, value);
    let rendered = es.map_values(|e: Entry| entry_line(e));
    assert forall|k: int| 0 <= k < rendered.len() implies lacks(#[trigger] rendered[k], '\n') && (
    rendered[k]).len() > 0 by {
        assert(clean_key(es[k].0));
        lemma_entry_read(es[k], entry_line(es[k]));
    }
    assert(es.len() > 0) by {
        lemma_put_get(old_es, key, value, key);
    }
    assert(rendered.last().len() > 0) by {
        assert(rendered[rendered.len() - 1].len() > 0);
    }
    lemma_lines_of_join_any(rendered);
    let ms = lines(render_entries(es));
    assert forall|i: int| 0 <= i < es.len() implies #[trigger] ms[i] == entry_line(es[i]) || ms[i]
        == strip_cr(entry_line(es[i])) by {
        if i < es.len() - 1 {
            assert(ms[i] == strip_cr(rendered[i]));
        } else {
            assert(ms[i] == rendered.last());
        }
    }
    lemma_lookup_read(es, ms, probe);
    lemma_put_get(old_es, key, value, probe);
    lemma_entries_last(ls, probe);
    lemma_last_value_trimmed(ls, probe);
}

/// Whether line `l` sets `key`.
pub open spec fn line_sets(l: Seq<char>, key: Seq<char>) -> bool {
    split_once_eq(l) matches Some(kv) && trim(kv.0) == key
}

/// No two lines set the same key.
pub open spec fn unique_keys(ls: Seq<Seq<char>>) -> bool {
    forall|i: int, j: int, k: Seq<char>|
        0 <= i < j < ls.len() && #[trigger] line_sets(ls[i], k) ==> !#[trigger] line_sets(ls[j], k)
}

proof fn lemma_lookup_none(ls: Seq<Seq<char>>, key: Seq<char>)
    requires
        forall|i: int| 0 <= i < ls.len() ==> !#[trigger] line_sets(ls[i], key),
    ensures
        config_lookup(ls, key) is None,
    decreases ls.len(),
{
    if ls.len() > 0 {
        assert(!line_sets(ls[0], key));
        let d = ls.drop_first();
        assert forall|i: int| 0 <= i < d.len() implies !#[trigger] line_sets(d[i], key) by {
            assert(d[i] == ls[i + 1]);
        }
        lemma_lookup_none(d, key);
    }
}

proof fn lemma_lookup_push(ls: Seq<Seq<char>>, l: Seq<char>, key: Seq<char>)
    ensures
        config_lookup(ls.push(l), key) == match config_lookup(ls, key) {
            Some(v) => Some(v),
            None => config_lookup(seq![l], key),
        },
    decreases ls.len(),
{
    if ls.len() > 0 {
        lemma_lookup_push(ls.drop_first(), l, key);
        assert(ls.push(l).drop_first() =~= ls.drop_first().push(l));
        assert(ls.push(l)[0] == ls[0]);
    } else {
        assert(ls.push(l) =~= seq![l]);
    }
}

proof fn lemma_unique_first_is_last(ls: Seq<Seq<char>>, key: Seq<char>)
    requires
        unique_keys(ls),
    ensures
        config_lookup(ls, key) == last_value(ls, key),
    decreases ls.len(),
{
    if ls.len() > 0 {
        let d = ls.drop_last();
        assert forall|i: int, j: int, k: Seq<char>|
            0 <= i < j < d.len() && #[trigger] line_sets(d[i], k) implies !#[trigger] line_sets(
            d[j],
            k,
        ) by {
            assert(d[i] == ls[i] && d[j] == ls[j]);
        }
        lemma_unique_first_is_last(d, key);
        assert(d.push(ls.last()) =~= ls);
        lemma_lookup_push(d, ls.last(), key);
        let l = ls.last();
        let single = seq![l];
        assert(single.drop_first() =~= Seq::<Seq<char>>::empty());
        assert(single[0] == l);
        assert(config_lookup(single.drop_first(), key) is None);
        if let Some(kv) = split_once_eq(l) {
            if trim(kv.0) == key {
                assert(config_lookup(single, key) == Some(trim(kv.1)));
                assert(last_value(ls, key) == Some(trim(kv.1)));
            } else {
                assert(config_lookup(single, key) is None);
                assert(last_value(ls, key) == last_value(d, key));
            }
        } else {
            assert(config_lookup(single, key) is None);
            assert(last_value(ls, key) == last_value(d, key));
        }
        if line_sets(l, key) {
            assert forall|i: int| 0 <= i < d.len() implies !#[trigger] line_sets(d[i], key) by {
                assert(d[i] == ls[i]);
                assert(ls[ls.len() - 1] == l);
                if line_sets(ls[i], key) {
                    assert(!line_sets(ls[ls.len() - 1], key));
                }
            }
            lemma_lookup_none(d, key);
        }
    }
}

/// Setting one key leaves what every other key reads as the previous
/// settings text gave it, where no two of its lines set the same key.
pub proof fn law_config_keeps_other_keys(
    existing: Option<Seq<char>>,
    key: Seq<char>,
    value: Seq<char>,
    probe: Seq<char>,
)
    requires
        clean_key(key),
        lacks(value, '\n'),
        probe != key,
        unique_keys(existing_lines(existing)),
    ensures
        config_value_spec(updated_config_spec(existing, key, value), probe) == config_lookup(
            existing_lines(existing),
            probe,
        ),
{
    law_config_read_after_write(existing, key, value, probe);
    lemma_unique_first_is_last(existing_lines(existing), probe);
}

/// After the HUD setting is written, the HUD shows exactly when the value
/// written, trimmed, is not `off`.
pub proof fn law_hud_setting(existing: Option<Seq<char>>, value: Seq<char>)
    requires
        lacks(value, '\n'),
    ensures
        hud_enabled_spec(Some(updated_config_spec(existing, hud_key(), value))) == (trim(value)
            != off_value()),
{
    assert(clean_key(hud_key()));
    law_config_read_after_write(existing, hud_key(), value, hud_key());
}

/// `--hud off` turns the HUD off and `--hud on` turns it on, whatever the
/// settings text held before; with no settings text the HUD is on.
pub proof fn law_hud_switch(existing: Option<Seq<char>>)
    ensures
        !hud_enabled_spec(Some(updated_config_spec(existing, hud_key(), off_value()))),
        hud_enabled_spec(Some(updated_config_spec(existing, hud_key(), on_value()))),
        hud_enabled_spec(None),
{
    assert(clean_value(off_value()));
    assert(clean_value(on_value()));
    law_hud_setting(existing, off_value());
    law_hud_setting(existing, on_value());
    assert(on_value() != off_value()) by {
        assert(on_value().len() != off_value().len());
    }
}

} // verus!
