//! The text of the on-screen notice and the `--hud` switch.

use vstd::prelude::*;
use crate::text::{append_chars, chars_eq, chars_of, string_of};

verus! {

/// The notice name shown when the clipboard holds no table.
pub open spec fn no_table_name() -> Seq<char> {
    seq!['N', 'o', ' ', 'T', 'a', 'b', 'l', 'e']
}

/// The notice name shown when rendering fails.
pub open spec fn error_name() -> Seq<char> {
    seq!['E', 'r', 'r', 'o', 'r']
}

/// The title of the notice: a warning sign for the failures, a check mark
/// otherwise, a space, then the name.
pub open spec fn hud_title_spec(name: Seq<char>) -> Seq<char> {
    let icon = if name == no_table_name() || name == error_name() {
        '⚠'
    } else {
        '✓'
    };
    seq![icon, ' '] + name
}

/// The title of the notice for a format name.
pub fn hud_title(format_name: &str) -> (res: String)
    ensures
        res@ == hud_title_spec(format_name@),
{
    let name = chars_of(format_name);
    let no_table = ['N', 'o', ' ', 'T', 'a', 'b', 'l', 'e'];
    let error = ['E', 'r', 'r', 'o', 'r'];
    assert(no_table@ =~= no_table_name());
    assert(error@ =~= error_name());
    let icon = if chars_eq(&name, &no_table) || chars_eq(&name, &error) {
        '⚠'
    } else {
        '✓'
    };
    let mut out: Vec<char> = Vec::new();
    out.push(icon);
    out.push(' ');
    append_chars(&mut out, &name);
    assert(out@ =~= hud_title_spec(format_name@));
    string_of(&out)
}

/// The notice title is a sign, a space and the name. The sign is the
/// warning sign exactly for the failures "No Table" and "Error", and the
/// check mark for every other name, such as "Markdown" and "Image".
pub proof fn law_hud_title(name: Seq<char>)
    ensures
        hud_title_spec(name).len() == name.len() + 2,
        hud_title_spec(name)[1] == ' ',
        hud_title_spec(name).skip(2) == name,
        hud_title_spec(name)[0] == '⚠' || hud_title_spec(name)[0] == '✓',
        hud_title_spec(name)[0] == '⚠' <==> (name == seq!['N', 'o', ' ', 'T', 'a', 'b', 'l', 'e']
            || name == seq!['E', 'r', 'r', 'o', 'r']),
{
    assert(hud_title_spec(name).skip(2) =~= name);
}

/// After a press, the notice title warns exactly when no table was found or
/// the image could not be rendered, and shows the check mark after a
/// Markdown or image conversion.
pub proof fn law_notice_title(outcome: PressOutcome)
    ensures
        hud_title_spec(notice_name(outcome))[0] == (if outcome == PressOutcome::NoTable || outcome
            == PressOutcome::RenderError {
            '⚠'
        } else {
            '✓'
        }),
{
    let m = seq!['M', 'a', 'r', 'k', 'd', 'o', 'w', 'n'];
    let i = seq!['I', 'm', 'a', 'g', 'e'];
    let n = seq!['N', 'o', ' ', 'T', 'a', 'b', 'l', 'e'];
    let e = seq!['E', 'r', 'r', 'o', 'r'];
    assert(m[0] != n[0] && m[0] != e[0]);
    assert(i.len() != n.len() && i[0] != e[0]);
    law_hud_title(notice_name(outcome));
}

/// What `--hud` with a value asks for: on, off, or neither.
pub open spec fn hud_switch_spec(value: Seq<char>) -> Option<bool> {
    if value == seq!['o', 'n'] {
        Some(true)
    } else if value == seq!['o', 'f', 'f'] {
        Some(false)
    } else {
        None
    }
}

/// Read the value of `--hud`: `on` turns the notice on, `off` turns it off,
/// any other value is refused.
pub fn hud_switch(value: &str) -> (res: Option<bool>)
    ensures
        res == hud_switch_spec(value@),
{
    let v = chars_of(value);
    let on = ['o', 'n'];
    let off = ['o', 'f', 'f'];
    assert(on@ =~= seq!['o', 'n']);
    assert(off@ =~= seq!['o', 'f', 'f']);
    if chars_eq(&v, &on) {
        Some(true)
    } else if chars_eq(&v, &off) {
        Some(false)
    } else {
        None
    }
}


/// How a press of the shortcut ended.
#[derive(Clone, Copy, PartialEq, Eq, Debug)]
pub enum PressOutcome {
    /// There was no table to convert.
    NoTable,
    /// The table went to the clipboard as Markdown.
    Markdown,
    /// The table went to the clipboard as an image.
    Image,
    /// The table image could not be rendered.
    RenderError,
}

/// The name that the notice shows for an outcome.
pub open spec fn notice_name(outcome: PressOutcome) -> Seq<char> {
    match outcome {
        PressOutcome::NoTable => no_table_name(),
        PressOutcome::Markdown => seq!['M', 'a', 'r', 'k', 'd', 'o', 'w', 'n'],
        PressOutcome::Image => seq!['I', 'm', 'a', 'g', 'e'],
        PressOutcome::RenderError => error_name(),
    }
}

/// The notice to show after a press: the name of its outcome where the HUD
/// is enabled, and none where `--hud off` disabled it.
pub fn notice_to_show(outcome: PressOutcome, hud_enabled: bool) -> (res: Option<String>)
    ensures
        match res {
            None => !hud_enabled,
            Some(name) => hud_enabled && name@ == notice_name(outcome),
        },
{
    if !hud_enabled {
        return None;
    }
    let name: Vec<char> = match outcome {
        PressOutcome::NoTable => vec!['N', 'o', ' ', 'T', 'a', 'b', 'l', 'e'],
        PressOutcome::Markdown => vec!['M', 'a', 'r', 'k', 'd', 'o', 'w', 'n'],
        PressOutcome::Image => vec!['I', 'm', 'a', 'g', 'e'],
        PressOutcome::RenderError => vec!['E', 'r', 'r', 'o', 'r'],
    };
    assert(name@ =~= notice_name(outcome));
    Some(string_of(&name))
}

} // verus!
