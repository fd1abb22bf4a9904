//! The decisions of the shortcut: which text to convert and into which
//! format, from the clipboard and the state that the previous press left.

use vstd::prelude::*;
use crate::parser::{has_unicode_table, parsed_tables};
use crate::text::{chars_of, lines, split_lines, trim, trim_chars};

verus! {

/// The formats that successive presses cycle through.
#[derive(Clone, Copy, PartialEq, Eq, Debug)]
pub enum CycleFormat {
    Markdown,
    Image,
}

/// The number of formats in the cycle.
pub const FORMAT_COUNT: usize = 2;

/// The seconds within which a press continues the cycle of the previous one.
pub const CYCLE_TIMEOUT_SECS: u64 = 30;

/// The format at a place of the cycle: Markdown first, then Image.
pub open spec fn format_at_spec(index: int) -> CycleFormat {
    if index == 0 {
        CycleFormat::Markdown
    } else {
        CycleFormat::Image
    }
}

/// The format at a place of the cycle.
pub fn format_at(index: usize) -> (res: CycleFormat)
    requires
        index < FORMAT_COUNT,
    ensures
        res == format_at_spec(index as int),
{
    if index == 0 {
        CycleFormat::Markdown
    } else {
        CycleFormat::Image
    }
}

/// What a press does.
pub enum CycleStep {
    /// There is no table to convert.
    NoTable,
    /// Convert `original` into the format at `format_index`.
    Convert { original: String, format_index: usize },
}

/// Whether a text holds a table.
pub open spec fn has_table(text: Seq<char>) -> bool {
    parsed_tables(text) is Some
}

/// The text to convert and the place in the cycle, or none where there is no
/// table: a new table on the clipboard starts the cycle over; otherwise a
/// saved state moves on to the next format of its text; with neither there
/// is nothing to do.
pub open spec fn plan_spec(clipboard: Option<Seq<char>>, saved: Option<(Seq<char>, int)>) -> Option<(Seq<char>, int)> {
    match saved {
        Some(s) => match clipboard {
            Some(t) if has_table(t) => Some((t, 0)),
            _ => Some((s.0, (s.1 + 1) % (FORMAT_COUNT as int))),
        },
        None => {
            let t = match clipboard {
                Some(t) => t,
                None => Seq::<char>::empty(),
            };
            if has_table(t) {
                Some((t, 0))
            } else {
                None
            }
        },
    }
}

/// The plan of a step.
pub open spec fn step_view(s: CycleStep) -> Option<(Seq<char>, int)> {
    match s {
        CycleStep::NoTable => None,
        CycleStep::Convert { original, format_index } => Some((original@, format_index as int)),
    }
}

/// Decide what a press does, given the clipboard text (none where the
/// clipboard holds no text) and the saved state of the previous press.
pub fn plan_cycle(clipboard: Option<String>, saved: Option<(String, usize)>) -> (res: CycleStep)
    ensures
        step_view(res) == plan_spec(
            match clipboard {
                Some(t) => Some(t@),
                None => None,
            },
            match saved {
                Some(s) => Some((s.0@, s.1 as int)),
                None => None,
            },
        ),
{
    match saved {
        Some((original, last)) => {
            match clipboard {
                Some(t) => {
                    if has_unicode_table(t.as_str()) {
                        return CycleStep::Convert { original: t, format_index: 0 };
                    }
                },
                None => {},
            }
            CycleStep::Convert { original, format_index: (last % FORMAT_COUNT + 1) % FORMAT_COUNT }
        },
        None => {
            let text = match clipboard {
                Some(t) => t,
                None => String::new(),
            };
            if has_unicode_table(text.as_str()) {
                CycleStep::Convert { original: text, format_index: 0 }
            } else {
                CycleStep::NoTable
            }
        },
    }
}

/// Whether a state saved at `saved_at` still continues the cycle at `now`.
pub fn within_cycle(now: u64, saved_at: u64) -> (res: bool)
    requires
        saved_at <= now,
    ensures
        res == (now - saved_at <= CYCLE_TIMEOUT_SECS),
{
    now - saved_at <= CYCLE_TIMEOUT_SECS
}

/// Whether `c` is an ASCII digit.
pub open spec fn is_digit(c: char) -> bool {
    '0' <= c && c <= '9'
}

/// The number that a string of ASCII digits writes in decimal.
pub open spec fn digits_value(s: Seq<char>) -> nat
    decreases s.len(),
{
    if s.len() == 0 {
        0
    } else {
        digits_value(s.drop_last()) * 10 + ((s.last() as u32) - ('0' as u32)) as nat
    }
}

/// The digits of a number text: without a leading `'+'`.
pub open spec fn uint_body(s: Seq<char>) -> Seq<char> {
    if s.len() > 0 && s[0] == '+' {
        s.drop_first()
    } else {
        s
    }
}

/// Whether every character of `s` is an ASCII digit.
pub open spec fn all_digits(s: Seq<char>) -> bool {
    forall|i: int| 0 <= i < s.len() ==> #[trigger] is_digit(s[i])
}

/// `str::parse` of an unsigned integer type whose largest value is `max`:
/// an optional `'+'`, then at least one ASCII digit and nothing else, of a
/// value at most `max`.
pub open spec fn parse_uint_spec(s: Seq<char>, max: nat) -> Option<nat> {
    let body = uint_body(s);
    if body.len() > 0 && all_digits(body) && digits_value(body) <= max {
        Some(digits_value(body))
    } else {
        None
    }
}

proof fn lemma_digits_monotone(s: Seq<char>, i: int)
    requires
        0 <= i <= s.len(),
        forall|k: int| 0 <= k < s.len() ==> #[trigger] is_digit(s[k]),
    ensures
        digits_value(s.take(i)) <= digits_value(s),
    decreases s.len() - i,
{
    if i < s.len() {
        lemma_digits_monotone(s, i + 1);
        assert(s.take(i + 1).drop_last() =~= s.take(i));
    } else {
        assert(s.take(i) =~= s);
    }
}

/// Parse an unsigned decimal number of at most `max`, as `str::parse` does.
pub fn parse_uint(text: &[char], max: u64) -> (res: Option<u64>)
    ensures
        match res {
            Some(v) => parse_uint_spec(text@, max as nat) == Some(v as nat),
            None => parse_uint_spec(text@, max as nat) is None,
        },
{
    let start: usize = if text.len() > 0 && text[0] == '+' {
        1
    } else {
        0
    };
    let ghost body = if text@.len() > 0 && text@[0] == '+' {
        text@.drop_first()
    } else {
        text@
    };
    assert(body =~= text@.skip(start as int));
    if start == text.len() {
        return None;
    }
    let mut v: u64 = 0;
    let mut i: usize = start;
    assert(body.take(0) =~= Seq::<char>::empty());
    while i < text.len()
        invariant
            start <= i <= text@.len(),
            body == text@.skip(start as int),
            body == uint_body(text@),
            forall|k: int| 0 <= k < i - start ==> #[trigger] is_digit(body[k]),
            v == digits_value(body.take(i - start)),
            v <= max,
        decreases text.len() - i,
    {
        let c = text[i];
        assert(body[i - start] == c);
        if !('0' <= c && c <= '9') {
            assert(!is_digit(body[i - start]));
            assert(!all_digits(body));
            return None;
        }
        let d = (c as u32 - '0' as u32) as u64;
        assert(body.take(i + 1 - start).drop_last() =~= body.take(i - start));
        if d > max || v > (max - d) / 10 {
            proof {
                if d <= max {
                    assert(v * 10 + d > max) by (nonlinear_arith)
                        requires
                            v > (max - d) / 10,
                            d <= max,
                    ;
                }
                if all_digits(body) {
                    lemma_digits_monotone(body, i + 1 - start);
                }
            }
            return None;
        }
        assert(v * 10 + d <= max) by (nonlinear_arith)
            requires
                v <= (max - d) / 10,
                d <= max,
        ;
        v = v * 10 + d;
        i += 1;
    }
    assert(body.take(i - start) =~= body);
    Some(v)
}

/// The ASCII digit of a number below ten.
pub open spec fn digit_char(d: nat) -> char {
    if d == 0 {
        '0'
    } else if d == 1 {
        '1'
    } else if d == 2 {
        '2'
    } else if d == 3 {
        '3'
    } else if d == 4 {
        '4'
    } else if d == 5 {
        '5'
    } else if d == 6 {
        '6'
    } else if d == 7 {
        '7'
    } else if d == 8 {
        '8'
    } else {
        '9'
    }
}

/// The decimal digits of `n`, without leading zeros (`u64::to_string`).
pub open spec fn decimal(n: nat) -> Seq<char>
    decreases n,
{
    if n < 10 {
        seq![digit_char(n)]
    } else {
        decimal(n / 10).push(digit_char(n % 10))
    }
}

/// The digit of a number below ten.
fn digit_of(d: u64) -> (c: char)
    requires
        d < 10,
    ensures
        c == digit_char(d as nat),
{
    if d == 0 {
        '0'
    } else if d == 1 {
        '1'
    } else if d == 2 {
        '2'
    } else if d == 3 {
        '3'
    } else if d == 4 {
        '4'
    } else if d == 5 {
        '5'
    } else if d == 6 {
        '6'
    } else if d == 7 {
        '7'
    } else if d == 8 {
        '8'
    } else {
        '9'
    }
}

/// The decimal digits of `n`, as characters.
fn decimal_chars(n: u64) -> (res: Vec<char>)
    ensures
        res@ == decimal(n as nat),
    decreases n,
{
    if n < 10 {
        let mut v: Vec<char> = Vec::new();
        v.push(digit_of(n));
        assert(v@ =~= decimal(n as nat));
        v
    } else {
        let mut v = decimal_chars(n / 10);
        v.push(digit_of(n % 10));
        v
    }
}

/// The decimal text of `n`, as the saved state writes numbers.
pub fn to_decimal(n: u64) -> (res: String)
    ensures
        res@ == decimal(n as nat),
{
    let cs = decimal_chars(n);
    crate::text::string_of(&cs)
}

proof fn lemma_digit_char(d: nat)
    requires
        d < 10,
    ensures
        is_digit(digit_char(d)),
        ((digit_char(d) as u32) - ('0' as u32)) as nat == d,
{
}

proof fn lemma_decimal(n: nat)
    ensures
        decimal(n).len() > 0,
        all_digits(decimal(n)),
        digits_value(decimal(n)) == n,
    decreases n,
{
    if n < 10 {
        lemma_digit_char(n);
        let d = seq![digit_char(n)];
        assert(d.drop_last() =~= Seq::<char>::empty());
        assert(d.last() == digit_char(n));
        assert(digits_value(d) == digits_value(d.drop_last()) * 10 + ((d.last() as u32) - ('0' as u32)) as nat);
    } else {
        lemma_decimal(n / 10);
        lemma_digit_char(n % 10);
        let d = decimal(n);
        assert(d.drop_last() =~= decimal(n / 10));
        assert forall|i: int| 0 <= i < d.len() implies #[trigger] is_digit(d[i]) by {
            if i < d.len() - 1 {
                assert(d[i] == decimal(n / 10)[i]);
            }
        }
        assert(d.last() == digit_char(n % 10));
        assert((n / 10) * 10 + n % 10 == n) by (nonlinear_arith);
    }
}

/// The trimmed decimal text of a number parses back to that number.
pub proof fn lemma_parse_decimal(n: nat, max: nat)
    requires
        n <= max,
    ensures
        trim(decimal(n)) == decimal(n),
        parse_uint_spec(trim(decimal(n)), max) == Some(n),
{
    lemma_decimal(n);
    let d = decimal(n);
    assert(is_digit(d[0]));
    assert(is_digit(d[d.len() - 1]));
    assert(!crate::text::is_space(d[0]));
    assert(crate::text::trim_start(d) == d);
    assert(!crate::text::is_space(d.last()));
    assert(crate::text::trim_end(d) == d);
    assert(d[0] != '+');
    assert(uint_body(d) == d);
}

/// A state saved as decimal text reads back as it was saved while the cycle
/// timeout has not passed since, and reads as expired once it has.
pub proof fn law_saved_state_round_trip(saved_at: u64, now: u64, original: Seq<char>, index: usize)
    requires
        saved_at <= now,
    ensures
        now - saved_at <= CYCLE_TIMEOUT_SECS ==> saved_state_spec(
            Some(decimal(saved_at as nat)),
            now as nat,
            Some(original),
            Some(decimal(index as nat)),
        ) == Some(Some((original, index as nat))),
        now - saved_at > CYCLE_TIMEOUT_SECS ==> saved_state_spec(
            Some(decimal(saved_at as nat)),
            now as nat,
            Some(original),
            Some(decimal(index as nat)),
        ) is None,
{
    lemma_parse_decimal(saved_at as nat, u64::MAX as nat);
    lemma_parse_decimal(index as nat, usize::MAX as nat);
}

/// What the saved state of the previous press turned out to be.
pub enum SavedState {
    /// Some part of it could not be read.
    Missing,
    /// It is older than the cycle timeout, and is to be cleared.
    Expired,
    /// The text of the cycle and the place in it that the last press used.
    Found(String, usize),
}

/// The saved state, given the saved texts as read (none where a file could
/// not be read) and the time now: a timestamp that cannot be read, or that
/// is not a number, means no state, since the press cannot be placed within
/// the timeout; one more than the timeout ago means an expired state;
/// otherwise the state is the saved text and the saved place, if both read.
pub open spec fn saved_state_spec(
    timestamp: Option<Seq<char>>,
    now: nat,
    original: Option<Seq<char>>,
    index: Option<Seq<char>>,
) -> Option<Option<(Seq<char>, nat)>> {
    match timestamp {
        None => Some(None),
        Some(ts) => match parse_uint_spec(trim(ts), u64::MAX as nat) {
            None => Some(None),
            Some(t) if now - t > CYCLE_TIMEOUT_SECS => None,
            Some(_) => match (original, index) {
                (Some(o), Some(i)) => match parse_uint_spec(trim(i), usize::MAX as nat) {
                    Some(n) => Some(Some((o, n))),
                    None => Some(None),
                },
                _ => Some(None),
            },
        },
    }
}

/// The view of a saved state: none where expired, else the state if found.
pub open spec fn saved_view(s: SavedState) -> Option<Option<(Seq<char>, nat)>> {
    match s {
        SavedState::Missing => Some(None),
        SavedState::Expired => None,
        SavedState::Found(o, n) => Some(Some((o@, n as nat))),
    }
}

/// The timestamp text, trimmed and parsed.
pub fn parse_timestamp(text: &str) -> (res: Option<u64>)
    ensures
        match res {
            Some(v) => parse_uint_spec(trim(text@), u64::MAX as nat) == Some(v as nat),
            None => parse_uint_spec(trim(text@), u64::MAX as nat) is None,
        },
{
    let cs = chars_of(text);
    let t = trim_chars(&cs);
    parse_uint(&t, u64::MAX)
}

/// The saved state of the previous press, from the saved timestamp, text
/// and place as read (none where a file could not be read) and the time now.
pub fn restore_state(
    timestamp: Option<&str>,
    now: u64,
    original: Option<String>,
    index: Option<&str>,
) -> (res: SavedState)
    requires
        timestamp matches Some(ts) ==> (parse_uint_spec(trim(ts@), u64::MAX as nat) matches Some(
            t,
        ) ==> t <= now),
    ensures
        saved_view(res) == saved_state_spec(
            match timestamp {
                Some(t) => Some(t@),
                None => None,
            },
            now as nat,
            match original {
                Some(o) => Some(o@),
                None => None,
            },
            match index {
                Some(i) => Some(i@),
                None => None,
            },
        ),
{
    match timestamp {
        None => {
            return SavedState::Missing;
        },
        Some(ts) => {
            match parse_timestamp(ts) {
                Some(t) => {
                    if !within_cycle(now, t) {
                        return SavedState::Expired;
                    }
                },
                None => {
                    return SavedState::Missing;
                },
            }
        },
    }
    match (original, index) {
        (Some(o), Some(i)) => {
            let cs = chars_of(i);
            let t = trim_chars(&cs);
            match parse_uint(&t, usize::MAX as u64) {
                Some(n) => SavedState::Found(o, n as usize),
                None => SavedState::Missing,
            }
        },
        _ => SavedState::Missing,
    }
}

/// The number of data rows that a Markdown table text reports: its lines
/// less the header and the rule, and none below zero.
pub fn data_row_count(markdown: &str) -> (res: usize)
    ensures
        res == if lines(markdown@).len() >= 2 {
            lines(markdown@).len() - 2
        } else {
            0
        },
{
    let cs = chars_of(markdown);
    let ls = split_lines(&cs);
    assert(ls@.len() == lines(markdown@).len());
    if ls.len() >= 2 {
        ls.len() - 2
    } else {
        0
    }
}

} // verus!
