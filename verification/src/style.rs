//! Display defaults and the color fallback ladder for lyric lines.

use vstd::prelude::*;
use crate::color::Rgb;
use crate::document::{LrxFile, LyricLine, spec_get_part};
use vstd::string::StringExecFns;

verus! {

/// The default foreground color setting, as its `#RRGGBB` text.
pub fn default_fg_color() -> (r: String)
    ensures
        r@ == "#FFFFFF"@,
{
    String::from_str("#FFFFFF")
}

/// The default background color setting: none.
pub fn default_bg_color() -> (r: Option<String>)
    ensures
        r is None,
{
    None
}

/// The document-wide foreground color: the document's own if set, else the
/// caller's configured fallback.
pub open spec fn spec_doc_color(doc: LrxFile, fallback: Rgb) -> Rgb {
    match doc.color {
        Some(c) => c,
        None => fallback,
    }
}

/// The foreground color a line shows: its part's color when the part
/// reference resolves, else the document color, else the fallback. A
/// dangling part reference degrades to default styling, never to an error.
pub open spec fn spec_line_color(doc: LrxFile, line: LyricLine, fallback: Rgb) -> Rgb {
    match line.part_id {
        Some(pid) => match spec_get_part(doc.parts@, pid@) {
            Some(p) => p.color,
            None => spec_doc_color(doc, fallback),
        },
        None => spec_doc_color(doc, fallback),
    }
}

/// The document-wide foreground color with the given fallback.
pub fn doc_color(doc: &LrxFile, fallback: Rgb) -> (c: Rgb)
    ensures
        c == spec_doc_color(*doc, fallback),
{
    match doc.color {
        Some(c) => c,
        None => fallback,
    }
}

/// The foreground color for one lyric line, by the fallback ladder.
pub fn line_color(doc: &LrxFile, line: &LyricLine, fallback: Rgb) -> (c: Rgb)
    ensures
        c == spec_line_color(*doc, *line, fallback),
{
    match &line.part_id {
        Some(pid) => {
            match doc.get_part(pid.as_str()) {
                Some(p) => p.color,
                None => doc_color(doc, fallback),
            }
        },
        None => doc_color(doc, fallback),
    }
}

} // verus!
