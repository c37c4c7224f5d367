//! The LRX parser: line-oriented text into a document.
//!
//! Each non-blank, non-comment line that opens with a bracket is either a
//! lyric line (a timestamp, an optional part, then text) or a tag. Any
//! malformed line fails the whole parse, with the 1-based line number and
//! the offending text carried in the error.

use vstd::prelude::*;
use crate::color::{Rgb, spec_parse_color};
use crate::document::{
    LrxFile, Track, Part, LyricLine, DocV, TrackV, PartV, LineV, empty_doc_v,
    spec_stable_sort_v, spec_stable_sort, lines_view, lemma_sort_view,
};
use crate::numfmt::{all_dec_digits, dec_value, parse_u64_digits, lemma_dec_value_nonneg};
use crate::scan::{spec_find, find_char, lemma_spec_find};
use crate::strutil::{str_to_chars, range_to_string, range_eq};
use crate::timestamp::{spec_parse_timestamp, parse_timestamp_chars};

verus! {

/// What went wrong on a line.
#[derive(Debug, Clone, Copy, PartialEq, Eq, Structural)]
pub enum ParseErrorKind {
    /// A `[` inside an open bracket.
    NestedBrackets,
    /// A `]` with no bracket open.
    UnmatchedBracket,
    /// A `[` still open at the end of the line.
    UnclosedBracket,
    /// A dotted tag whose value has no `=`.
    InvalidDotNotation,
    /// A dotted tag whose category is neither `track` nor `part`.
    UnknownCategory,
    /// A track or part property name this format does not define.
    UnknownProperty,
    /// A volume value that is not a plain decimal in range.
    InvalidVolume,
    /// A color value that is not `#` and six hexadecimal digits.
    InvalidColor,
}

/// A parse failure: what, on which 1-based line, and the line's text.
#[derive(Debug, Clone, PartialEq)]
pub struct ParseError {
    pub kind: ParseErrorKind,
    pub line: usize,
    pub text: String,
}

/// Spec-level form of a parse failure.
pub struct ErrV {
    pub kind: ParseErrorKind,
    pub line: int,
    pub text: Seq<char>,
}

impl View for ParseError {
    type V = ErrV;

    open spec fn view(&self) -> ErrV {
        ErrV { kind: self.kind, line: self.line as int, text: self.text@ }
    }
}

/// The whitespace the parser strips from line ends.
pub open spec fn is_space(c: char) -> bool {
    c == ' ' || c == '\t' || c == '\r'
}

/// `s` without leading whitespace.
pub open spec fn spec_trim_start(s: Seq<char>) -> Seq<char>
    decreases s.len(),
{
    if s.len() > 0 && is_space(s[0]) {
        spec_trim_start(s.subrange(1, s.len() as int))
    } else {
        s
    }
}

/// `s` without trailing whitespace.
pub open spec fn spec_trim_end(s: Seq<char>) -> Seq<char>
    decreases s.len(),
{
    if s.len() > 0 && is_space(s.last()) {
        spec_trim_end(s.drop_last())
    } else {
        s
    }
}

/// `s` without leading or trailing whitespace.
pub open spec fn spec_trim(s: Seq<char>) -> Seq<char> {
    spec_trim_end(spec_trim_start(s))
}

/// The input split at every newline; a trailing newline yields a final
/// empty line, which the parser skips anyway.
pub open spec fn spec_lines(s: Seq<char>) -> Seq<Seq<char>>
    decreases s.len(),
{
    let i = spec_find(s, '\n');
    if i < 0 || i >= s.len() {
        seq![s]
    } else {
        seq![s.subrange(0, i)] + spec_lines(s.subrange(i + 1, s.len() as int))
    }
}

/// One step of the bracket scan: position `i`, whether a bracket is open,
/// the characters of the open segment, and the segments already closed.
pub open spec fn spec_brackets_from(
    s: Seq<char>,
    i: int,
    open_b: bool,
    cur: Seq<char>,
    acc: Seq<Seq<char>>,
) -> Result<Seq<Seq<char>>, ParseErrorKind>
    decreases s.len() - i,
{
    if i >= s.len() {
        if open_b {
            Err(ParseErrorKind::UnclosedBracket)
        } else {
            Ok(acc)
        }
    } else if s[i] == '[' {
        if open_b {
            Err(ParseErrorKind::NestedBrackets)
        } else {
            spec_brackets_from(s, i + 1, true, Seq::empty(), acc)
        }
    } else if s[i] == ']' {
        if !open_b {
            Err(ParseErrorKind::UnmatchedBracket)
        } else {
            spec_brackets_from(s, i + 1, false, Seq::empty(), acc.push(cur))
        }
    } else {
        spec_brackets_from(s, i + 1, open_b, if open_b { cur.push(s[i]) } else { cur }, acc)
    }
}

/// The bracketed segments of a line, left to right; nested, unmatched or
/// unclosed brackets are errors.
pub open spec fn spec_extract_brackets(s: Seq<char>) -> Result<Seq<Seq<char>>, ParseErrorKind> {
    spec_brackets_from(s, 0, false, Seq::empty(), Seq::empty())
}

/// One step of the text scan: where the text after the brackets starts,
/// given the current bracket depth and the start found so far.
pub open spec fn spec_text_start_from(s: Seq<char>, i: int, depth: int, last: int) -> int
    decreases s.len() - i,
{
    if i >= s.len() {
        last
    } else if s[i] == '[' {
        spec_text_start_from(s, i + 1, depth + 1, last)
    } else if s[i] == ']' {
        if depth == 1 {
            spec_text_start_from(s, i + 1, 0, i + 1)
        } else {
            spec_text_start_from(s, i + 1, depth - 1, last)
        }
    } else {
        spec_text_start_from(s, i + 1, depth, last)
    }
}

/// The free text of a lyric line: everything after the last closing
/// bracket at depth zero, trimmed.
pub open spec fn spec_text_after_brackets(s: Seq<char>) -> Seq<char> {
    spec_trim(s.subrange(spec_text_start_from(s, 0, 0, 0), s.len() as int))
}

/// The fraction digits of a volume as thousandths.
pub open spec fn spec_frac3(s: Seq<char>) -> int {
    if s.len() == 0 {
        0
    } else if s.len() == 1 {
        dec_value(s) * 100
    } else if s.len() == 2 {
        dec_value(s) * 10
    } else {
        dec_value(s)
    }
}

/// What parsing a volume yields, in thousandths: an unsigned decimal with
/// at most three fraction digits and at least one digit in all, fitting a
/// `u32`.
pub open spec fn spec_parse_volume(s: Seq<char>) -> Option<u32> {
    let di = spec_find(s, '.');
    let ip = if di < 0 { s } else { s.subrange(0, di) };
    let fp = if di < 0 { Seq::<char>::empty() } else { s.subrange(di + 1, s.len() as int) };
    if !(all_dec_digits(ip) && all_dec_digits(fp) && ip.len() + fp.len() > 0 && fp.len() <= 3) {
        None
    } else if dec_value(ip) * 1000 + spec_frac3(fp) > u32::MAX {
        None
    } else {
        Some((dec_value(ip) * 1000 + spec_frac3(fp)) as u32)
    }
}

/// Index of the first track view with the given id, or `-1`.
pub open spec fn spec_track_idx(ts: Seq<TrackV>, id: Seq<char>) -> int
    decreases ts.len(),
{
    if ts.len() == 0 {
        -1
    } else if ts[0].id == id {
        0
    } else {
        let r = spec_track_idx(ts.subrange(1, ts.len() as int), id);
        if r < 0 {
            -1
        } else {
            r + 1
        }
    }
}

/// Index of the first part view with the given id, or `-1`.
pub open spec fn spec_part_idx(ps: Seq<PartV>, id: Seq<char>) -> int
    decreases ps.len(),
{
    if ps.len() == 0 {
        -1
    } else if ps[0].id == id {
        0
    } else {
        let r = spec_part_idx(ps.subrange(1, ps.len() as int), id);
        if r < 0 {
            -1
        } else {
            r + 1
        }
    }
}

/// Index of the first metadata pair with the given key, or `-1`.
pub open spec fn spec_meta_idx(m: Seq<(Seq<char>, Seq<char>)>, key: Seq<char>) -> int
    decreases m.len(),
{
    if m.len() == 0 {
        -1
    } else if m[0].0 == key {
        0
    } else {
        let r = spec_meta_idx(m.subrange(1, m.len() as int), key);
        if r < 0 {
            -1
        } else {
            r + 1
        }
    }
}

/// What `spec_track_idx` returns: the first matching index if any.
pub proof fn lemma_track_idx(ts: Seq<TrackV>, id: Seq<char>)
    ensures
        spec_track_idx(ts, id) >= 0 ==> {
            &&& spec_track_idx(ts, id) < ts.len()
            &&& ts[spec_track_idx(ts, id)].id == id
            &&& forall|j: int| 0 <= j < spec_track_idx(ts, id) ==> ts[j].id != id
        },
        spec_track_idx(ts, id) < 0 ==> forall|j: int| 0 <= j < ts.len() ==> ts[j].id != id,
    decreases ts.len(),
{
    if ts.len() > 0 && ts[0].id != id {
        let sub = ts.subrange(1, ts.len() as int);
        lemma_track_idx(sub, id);
        if spec_track_idx(sub, id) >= 0 {
            let r = spec_track_idx(ts, id);
            assert(ts[r] == sub[r - 1]);
            assert forall|j: int| 0 <= j < r implies ts[j].id != id by {
                if j > 0 {
                    assert(sub[j - 1].id != id);
                }
            }
        } else {
            assert forall|j: int| 0 <= j < ts.len() implies ts[j].id != id by {
                if j > 0 {
                    assert(sub[j - 1].id != id);
                }
            }
        }
    }
}

/// What `spec_part_idx` returns: the first matching index if any.
pub proof fn lemma_part_idx(ps: Seq<PartV>, id: Seq<char>)
    ensures
        spec_part_idx(ps, id) >= 0 ==> {
            &&& spec_part_idx(ps, id) < ps.len()
            &&& ps[spec_part_idx(ps, id)].id == id
            &&& forall|j: int| 0 <= j < spec_part_idx(ps, id) ==> ps[j].id != id
        },
        spec_part_idx(ps, id) < 0 ==> forall|j: int| 0 <= j < ps.len() ==> ps[j].id != id,
    decreases ps.len(),
{
    if ps.len() > 0 && ps[0].id != id {
        let sub = ps.subrange(1, ps.len() as int);
        lemma_part_idx(sub, id);
        if spec_part_idx(sub, id) >= 0 {
            let r = spec_part_idx(ps, id);
            assert(ps[r] == sub[r - 1]);
            assert forall|j: int| 0 <= j < r implies ps[j].id != id by {
                if j > 0 {
                    assert(sub[j - 1].id != id);
                }
            }
        } else {
            assert forall|j: int| 0 <= j < ps.len() implies ps[j].id != id by {
                if j > 0 {
                    assert(sub[j - 1].id != id);
                }
            }
        }
    }
}

/// What `spec_meta_idx` returns: the first matching index if any.
pub proof fn lemma_meta_idx(m: Seq<(Seq<char>, Seq<char>)>, key: Seq<char>)
    ensures
        spec_meta_idx(m, key) >= 0 ==> {
            &&& spec_meta_idx(m, key) < m.len()
            &&& m[spec_meta_idx(m, key)].0 == key
            &&& forall|j: int| 0 <= j < spec_meta_idx(m, key) ==> m[j].0 != key
        },
        spec_meta_idx(m, key) < 0 ==> forall|j: int| 0 <= j < m.len() ==> m[j].0 != key,
    decreases m.len(),
{
    if m.len() > 0 && m[0].0 != key {
        let sub = m.subrange(1, m.len() as int);
        lemma_meta_idx(sub, key);
        if spec_meta_idx(sub, key) >= 0 {
            let r = spec_meta_idx(m, key);
            assert(m[r] == sub[r - 1]);
            assert forall|j: int| 0 <= j < r implies m[j].0 != key by {
                if j > 0 {
                    assert(sub[j - 1].0 != key);
                }
            }
        } else {
            assert forall|j: int| 0 <= j < m.len() implies m[j].0 != key by {
                if j > 0 {
                    assert(sub[j - 1].0 != key);
                }
            }
        }
    }
}

/// Metadata insertion: replaces the value under an existing key, else
/// appends the pair; keys stay unique and keep their insertion order.
pub open spec fn spec_meta_upsert(
    m: Seq<(Seq<char>, Seq<char>)>,
    key: Seq<char>,
    value: Seq<char>,
) -> Seq<(Seq<char>, Seq<char>)> {
    let i = spec_meta_idx(m, key);
    if i < 0 {
        m.push((key, value))
    } else {
        m.update(i, (key, value))
    }
}

/// The default-valued track a dotted tag creates on first mention.
pub open spec fn default_track_v(id: Seq<char>) -> TrackV {
    TrackV { id: id, name: Seq::empty(), source: Seq::empty(), volume: 1000 }
}

/// The default-valued part a dotted tag creates on first mention.
pub open spec fn default_part_v(id: Seq<char>) -> PartV {
    PartV { id: id, name: Seq::empty(), color: Rgb { r: 255, g: 255, b: 255 }, background_color: None }
}

/// A `track.<id>:prop=value` tag applied to the document: the track is
/// created with defaults on first mention, then the named property is set.
pub open spec fn spec_track_prop(d: DocV, id: Seq<char>, prop: Seq<char>, val: Seq<char>) -> Result<
    DocV,
    ParseErrorKind,
> {
    let i0 = spec_track_idx(d.tracks, id);
    let ts = if i0 < 0 { d.tracks.push(default_track_v(id)) } else { d.tracks };
    let idx = if i0 < 0 { d.tracks.len() as int } else { i0 };
    if prop == "name"@ {
        Ok(DocV { tracks: ts.update(idx, TrackV { name: val, ..ts[idx] }), ..d })
    } else if prop == "source"@ {
        Ok(DocV { tracks: ts.update(idx, TrackV { source: val, ..ts[idx] }), ..d })
    } else if prop == "volume"@ {
        match spec_parse_volume(val) {
            Some(vol) => Ok(DocV { tracks: ts.update(idx, TrackV { volume: vol, ..ts[idx] }), ..d }),
            None => Err(ParseErrorKind::InvalidVolume),
        }
    } else {
        Err(ParseErrorKind::UnknownProperty)
    }
}

/// A `part.<id>:prop=value` tag applied to the document.
pub open spec fn spec_part_prop(d: DocV, id: Seq<char>, prop: Seq<char>, val: Seq<char>) -> Result<
    DocV,
    ParseErrorKind,
> {
    let i0 = spec_part_idx(d.parts, id);
    let ps = if i0 < 0 { d.parts.push(default_part_v(id)) } else { d.parts };
    let idx = if i0 < 0 { d.parts.len() as int } else { i0 };
    if prop == "name"@ {
        Ok(DocV { parts: ps.update(idx, PartV { name: val, ..ps[idx] }), ..d })
    } else if prop == "color"@ {
        match spec_parse_color(val) {
            Some(c) => Ok(DocV { parts: ps.update(idx, PartV { color: c, ..ps[idx] }), ..d }),
            None => Err(ParseErrorKind::InvalidColor),
        }
    } else if prop == "background_color"@ {
        match spec_parse_color(val) {
            Some(c) => Ok(
                DocV { parts: ps.update(idx, PartV { background_color: Some(c), ..ps[idx] }), ..d },
            ),
            None => Err(ParseErrorKind::InvalidColor),
        }
    } else {
        Err(ParseErrorKind::UnknownProperty)
    }
}

/// A dotted tag `category.id:prop=value` applied to the document; only the
/// `track` and `part` categories exist.
pub open spec fn spec_parse_dot(d: DocV, key: Seq<char>, value: Seq<char>) -> Result<
    DocV,
    ParseErrorKind,
> {
    let di = spec_find(key, '.');
    if di < 0 {
        Err(ParseErrorKind::InvalidDotNotation)
    } else {
        let cat = key.subrange(0, di);
        let id = key.subrange(di + 1, key.len() as int);
        let ei = spec_find(value, '=');
        if ei < 0 {
            Err(ParseErrorKind::InvalidDotNotation)
        } else {
            let prop = value.subrange(0, ei);
            let pv = value.subrange(ei + 1, value.len() as int);
            if cat == "track"@ {
                spec_track_prop(d, id, prop, pv)
            } else if cat == "part"@ {
                spec_part_prop(d, id, prop, pv)
            } else {
                Err(ParseErrorKind::UnknownCategory)
            }
        }
    }
}

/// A tag segment `key:value` applied to the document: a dotted tag, one of
/// the two color tags (stored both as the document color and verbatim in
/// the metadata), or a free-form metadata pair.
pub open spec fn spec_parse_tag(d: DocV, seg: Seq<char>) -> Result<DocV, ParseErrorKind> {
    let ci = spec_find(seg, ':');
    if ci < 0 {
        Ok(d)
    } else {
        let key = seg.subrange(0, ci);
        let value = seg.subrange(ci + 1, seg.len() as int);
        if spec_find(key, '.') >= 0 {
            spec_parse_dot(d, key, value)
        } else if key == "color"@ {
            match spec_parse_color(value) {
                Some(c) => Ok(
                    DocV { color: Some(c), metadata: spec_meta_upsert(d.metadata, key, value), ..d },
                ),
                None => Err(ParseErrorKind::InvalidColor),
            }
        } else if key == "background_color"@ {
            match spec_parse_color(value) {
                Some(c) => Ok(
                    DocV {
                        background_color: Some(c),
                        metadata: spec_meta_upsert(d.metadata, key, value),
                        ..d
                    },
                ),
                None => Err(ParseErrorKind::InvalidColor),
            }
        } else {
            Ok(DocV { metadata: spec_meta_upsert(d.metadata, key, value), ..d })
        }
    }
}

/// A lyric line appended to the document: the second segment is the part
/// when it is neither a tag nor a decimal, and the text is everything
/// after the last closing bracket, trimmed.
pub open spec fn spec_parse_lyric_line(
    d: DocV,
    ts: u64,
    segs: Seq<Seq<char>>,
    line: Seq<char>,
) -> DocV {
    let part = if segs.len() > 1 && spec_find(segs[1], ':') < 0 && spec_find(segs[1], '.') < 0 {
        Some(segs[1])
    } else {
        None
    };
    DocV {
        lines: d.lines.push(
            LineV { timestamp: ts, text: spec_text_after_brackets(line), part_id: part },
        ),
        ..d
    }
}

/// One trimmed line applied to the document: blank lines, comments and
/// lines that do not open a bracket are skipped; a line whose first
/// segment is a timestamp is a lyric line; otherwise a first segment with
/// a colon is a tag.
pub open spec fn spec_parse_line(d: DocV, line: Seq<char>) -> Result<DocV, ParseErrorKind> {
    if line.len() == 0 || line[0] == '#' || line[0] != '[' {
        Ok(d)
    } else {
        match spec_extract_brackets(line) {
            Err(k) => Err(k),
            Ok(segs) => {
                if segs.len() == 0 {
                    Ok(d)
                } else {
                    match spec_parse_timestamp(segs[0]) {
                        Some(ts) => Ok(spec_parse_lyric_line(d, ts, segs, line)),
                        None => if spec_find(segs[0], ':') >= 0 {
                            spec_parse_tag(d, segs[0])
                        } else {
                            Ok(d)
                        },
                    }
                }
            },
        }
    }
}

/// The lines folded over the document in order, with 1-based numbering;
/// the first failing line aborts the whole parse.
pub open spec fn spec_parse_lines(d: DocV, ls: Seq<Seq<char>>, no: int) -> Result<DocV, ErrV>
    decreases ls.len(),
{
    if ls.len() == 0 {
        Ok(d)
    } else {
        let tl = spec_trim(ls[0]);
        match spec_parse_line(d, tl) {
            Ok(d2) => spec_parse_lines(d2, ls.subrange(1, ls.len() as int), no + 1),
            Err(k) => Err(ErrV { kind: k, line: no, text: tl }),
        }
    }
}

/// What parsing a whole input yields: every line applied in order to the
/// empty document, then the lyric lines stably sorted by timestamp.
pub open spec fn spec_parse(content: Seq<char>) -> Result<DocV, ErrV> {
    match spec_parse_lines(empty_doc_v(), spec_lines(content), 1) {
        Ok(d) => Ok(DocV { lines: spec_stable_sort_v(d.lines), ..d }),
        Err(e) => Err(e),
    }
}

/// Key uniqueness of a spec-level document: what `LrxFile::wf` says, over
/// the view.
pub open spec fn doc_v_wf(d: DocV) -> bool {
    &&& forall|i: int, j: int|
        0 <= i < j < d.metadata.len() ==> d.metadata[i].0 != d.metadata[j].0
    &&& forall|i: int, j: int| 0 <= i < j < d.tracks.len() ==> d.tracks[i].id != d.tracks[j].id
    &&& forall|i: int, j: int| 0 <= i < j < d.parts.len() ==> d.parts[i].id != d.parts[j].id
}

/// Metadata insertion keeps keys unique.
proof fn lemma_meta_upsert_wf(m: Seq<(Seq<char>, Seq<char>)>, key: Seq<char>, value: Seq<char>)
    requires
        forall|i: int, j: int| 0 <= i < j < m.len() ==> m[i].0 != m[j].0,
    ensures
        ({
            let r = spec_meta_upsert(m, key, value);
            &&& forall|i: int, j: int| 0 <= i < j < r.len() ==> r[i].0 != r[j].0
        }),
{
    lemma_meta_idx(m, key);
    let r = spec_meta_upsert(m, key, value);
    let ix = spec_meta_idx(m, key);
    if ix < 0 {
        assert forall|i: int, j: int| 0 <= i < j < r.len() implies r[i].0 != r[j].0 by {
            if j < m.len() {
                assert(r[i] == m[i] && r[j] == m[j]);
            } else {
                assert(r[i] == m[i] && r[j].0 == key);
                assert(m[i].0 != key);
            }
        }
    } else {
        assert forall|i: int, j: int| 0 <= i < j < r.len() implies r[i].0 != r[j].0 by {
            assert(r[i].0 == m[i].0 && r[j].0 == m[j].0);
        }
    }
}

/// Creating and updating tracks keeps ids unique.
proof fn lemma_track_prop_wf(d: DocV, id: Seq<char>, prop: Seq<char>, val: Seq<char>)
    requires
        doc_v_wf(d),
    ensures
        ({
            match spec_track_prop(d, id, prop, val) {
                Ok(d2) => doc_v_wf(d2),
                Err(_) => true,
            }
        }),
{
    lemma_track_idx(d.tracks, id);
    match spec_track_prop(d, id, prop, val) {
        Ok(d2) => {
            let i0 = spec_track_idx(d.tracks, id);
            let ts = if i0 < 0 { d.tracks.push(default_track_v(id)) } else { d.tracks };
            assert(forall|i: int, j: int| 0 <= i < j < ts.len() ==> ts[i].id != ts[j].id) by {
                if i0 < 0 {
                    assert(forall|i: int| 0 <= i < d.tracks.len() ==> ts[i] == d.tracks[i]);
                    assert(ts[ts.len() - 1].id == id);
                }
            }
            assert(forall|i: int, j: int|
                0 <= i < j < d2.tracks.len() ==> d2.tracks[i].id != d2.tracks[j].id) by {
                assert(forall|i: int| 0 <= i < ts.len() ==> d2.tracks[i].id == ts[i].id);
            }
        },
        Err(_) => {},
    }
}

/// Creating and updating parts keeps ids unique.
proof fn lemma_part_prop_wf(d: DocV, id: Seq<char>, prop: Seq<char>, val: Seq<char>)
    requires
        doc_v_wf(d),
    ensures
        ({
            match spec_part_prop(d, id, prop, val) {
                Ok(d2) => doc_v_wf(d2),
                Err(_) => true,
            }
        }),
{
    lemma_part_idx(d.parts, id);
    match spec_part_prop(d, id, prop, val) {
        Ok(d2) => {
            let i0 = spec_part_idx(d.parts, id);
            let ps = if i0 < 0 { d.parts.push(default_part_v(id)) } else { d.parts };
            assert(forall|i: int, j: int| 0 <= i < j < ps.len() ==> ps[i].id != ps[j].id) by {
                if i0 < 0 {
                    assert(forall|i: int| 0 <= i < d.parts.len() ==> ps[i] == d.parts[i]);
                    assert(ps[ps.len() - 1].id == id);
                }
            }
            assert(forall|i: int, j: int|
                0 <= i < j < d2.parts.len() ==> d2.parts[i].id != d2.parts[j].id) by {
                assert(forall|i: int| 0 <= i < ps.len() ==> d2.parts[i].id == ps[i].id);
            }
        },
        Err(_) => {},
    }
}

/// Every line of the parse keeps the association lists' keys unique.
proof fn lemma_parse_line_wf(d: DocV, line: Seq<char>)
    requires
        doc_v_wf(d),
    ensures
        ({
            match spec_parse_line(d, line) {
                Ok(d2) => doc_v_wf(d2),
                Err(_) => true,
            }
        }),
{
    if line.len() == 0 || line[0] == '#' || line[0] != '[' {
    } else {
        match spec_extract_brackets(line) {
            Err(_) => {},
            Ok(segs) => {
                if segs.len() == 0 {
                } else {
                    match spec_parse_timestamp(segs[0]) {
                        Some(_) => {},
                        None => {
                            if spec_find(segs[0], ':') >= 0 {
                                lemma_parse_tag_wf(d, segs[0]);
                            }
                        },
                    }
                }
            },
        }
    }
}

/// Every tag keeps the association lists' keys unique.
proof fn lemma_parse_tag_wf(d: DocV, seg: Seq<char>)
    requires
        doc_v_wf(d),
    ensures
        ({
            match spec_parse_tag(d, seg) {
                Ok(d2) => doc_v_wf(d2),
                Err(_) => true,
            }
        }),
{
    let ci = spec_find(seg, ':');
    if ci < 0 {
    } else {
        let key = seg.subrange(0, ci);
        let value = seg.subrange(ci + 1, seg.len() as int);
        if spec_find(key, '.') >= 0 {
            let di = spec_find(key, '.');
            if di < 0 {
            } else {
                let id = key.subrange(di + 1, key.len() as int);
                let ei = spec_find(value, '=');
                if ei < 0 {
                } else {
                    let prop = value.subrange(0, ei);
                    let pv = value.subrange(ei + 1, value.len() as int);
                    lemma_track_prop_wf(d, id, prop, pv);
                    lemma_part_prop_wf(d, id, prop, pv);
                }
            }
        } else {
            lemma_meta_upsert_wf(d.metadata, key, value);
        }
    }
}

/// The whole fold keeps the association lists' keys unique.
proof fn lemma_parse_lines_wf(d: DocV, ls: Seq<Seq<char>>, no: int)
    requires
        doc_v_wf(d),
    ensures
        ({
            match spec_parse_lines(d, ls, no) {
                Ok(d2) => doc_v_wf(d2),
                Err(_) => true,
            }
        }),
    decreases ls.len(),
{
    if ls.len() > 0 {
        let tl = spec_trim(ls[0]);
        lemma_parse_line_wf(d, tl);
        match spec_parse_line(d, tl) {
            Ok(d2) => {
                lemma_parse_lines_wf(d2, ls.subrange(1, ls.len() as int), no + 1);
            },
            Err(_) => {},
        }
    }
}

/// A successful parse yields a document with unique metadata keys and
/// unique track and part ids.
pub proof fn lemma_parse_wf(content: Seq<char>)
    ensures
        ({
            match spec_parse(content) {
                Ok(d) => doc_v_wf(d),
                Err(_) => true,
            }
        }),
{
    lemma_parse_lines_wf(empty_doc_v(), spec_lines(content), 1);
}

/// The start and end, within `v[from..to]`, of that range without
/// surrounding whitespace.
pub fn trim_range(v: &Vec<char>, from: usize, to: usize) -> (r: (usize, usize))
    requires
        from <= to <= v@.len(),
    ensures
        from <= r.0 <= r.1 <= to,
        v@.subrange(r.0 as int, r.1 as int) == spec_trim(
            v@.subrange(from as int, to as int),
        ),
{
    let mut a = from;
    while a < to && is_space_exec(v[a])
        invariant
            from <= a <= to <= v@.len(),
            spec_trim_start(v@.subrange(from as int, to as int)) == spec_trim_start(
                v@.subrange(a as int, to as int),
            ),
        decreases to - a,
    {
        let ghost pre = v@.subrange(a as int, to as int);
        a = a + 1;
        assert(pre.subrange(1, pre.len() as int) =~= v@.subrange(a as int, to as int));
    }
    assert(spec_trim_start(v@.subrange(a as int, to as int)) == v@.subrange(a as int, to as int));
    let mut b = to;
    while b > a && is_space_exec(v[b - 1])
        invariant
            from <= a <= b <= to <= v@.len(),
            spec_trim_start(v@.subrange(from as int, to as int)) == v@.subrange(
                a as int,
                to as int,
            ),
            spec_trim_end(v@.subrange(a as int, to as int)) == spec_trim_end(
                v@.subrange(a as int, b as int),
            ),
        decreases b,
    {
        let ghost pre = v@.subrange(a as int, b as int);
        b = b - 1;
        assert(pre.drop_last() =~= v@.subrange(a as int, b as int));
    }
    assert(spec_trim_end(v@.subrange(a as int, b as int)) == v@.subrange(a as int, b as int));
    (a, b)
}

/// Exec test for parser whitespace.
fn is_space_exec(c: char) -> (r: bool)
    ensures
        r == is_space(c),
{
    c == ' ' || c == '\t' || c == '\r'
}

/// The bracketed segments of `v[from..to]`, each as its own vector.
pub fn extract_brackets_chars(v: &Vec<char>, from: usize, to: usize) -> (r: Result<
    Vec<Vec<char>>,
    ParseErrorKind,
>)
    requires
        from <= to <= v@.len(),
    ensures
        ({
            let spec = spec_extract_brackets(v@.subrange(from as int, to as int));
            match r {
                Ok(segs) => spec is Ok && segs@.len() == spec->Ok_0.len() && forall|i: int|
                    0 <= i < segs@.len() ==> #[trigger] segs@[i]@ == spec->Ok_0[i],
                Err(k) => spec == Err::<Seq<Seq<char>>, ParseErrorKind>(k),
            }
        }),
{
    let ghost s = v@.subrange(from as int, to as int);
    let mut segs: Vec<Vec<char>> = Vec::new();
    let mut cur: Vec<char> = Vec::new();
    let mut open_b = false;
    let mut i = from;
    assert(Seq::new(segs@.len(), |k: int| segs@[k]@) =~= Seq::<Seq<char>>::empty());
    while i < to
        invariant
            from <= i <= to <= v@.len(),
            s == v@.subrange(from as int, to as int),
            !open_b ==> cur@.len() == 0,
            spec_extract_brackets(s) == spec_brackets_from(
                s,
                i - from,
                open_b,
                cur@,
                Seq::new(segs@.len(), |k: int| segs@[k]@),
            ),
        decreases to - i,
    {
        let ghost acc0 = Seq::new(segs@.len(), |k: int| segs@[k]@);
        let c = v[i];
        assert(s[i - from] == c);
        if c == '[' {
            if open_b {
                return Err(ParseErrorKind::NestedBrackets);
            }
            open_b = true;
            cur = Vec::new();
        } else if c == ']' {
            if !open_b {
                return Err(ParseErrorKind::UnmatchedBracket);
            }
            open_b = false;
            segs.push(cur);
            cur = Vec::new();
            proof {
                assert(Seq::new(segs@.len(), |k: int| segs@[k]@) =~= acc0.push(
                    segs@[segs@.len() - 1]@,
                ));
            }
        } else {
            if open_b {
                cur.push(c);
            }
        }
        i = i + 1;
        proof {
            assert(Seq::new(segs@.len(), |k: int| segs@[k]@) =~= Seq::new(
                segs@.len(),
                |k: int| segs@[k]@,
            ));
        }
    }
    if open_b {
        return Err(ParseErrorKind::UnclosedBracket);
    }
    Ok(segs)
}

/// The bracketed segments of a line as strings; errors on nested,
/// unmatched or unclosed brackets.
pub fn extract_brackets(line: &str) -> (r: Result<Vec<String>, ParseErrorKind>)
    ensures
        ({
            let spec = spec_extract_brackets(line@);
            match r {
                Ok(segs) => spec is Ok && segs@.len() == spec->Ok_0.len() && forall|i: int|
                    0 <= i < segs@.len() ==> #[trigger] segs@[i]@ == spec->Ok_0[i],
                Err(k) => spec == Err::<Seq<Seq<char>>, ParseErrorKind>(k),
            }
        }),
{
    let v = str_to_chars(line);
    let n = v.len();
    assert(v@.subrange(0, n as int) =~= line@);
    match extract_brackets_chars(&v, 0, n) {
        Ok(segs) => {
            let mut out: Vec<String> = Vec::new();
            let mut i: usize = 0;
            while i < segs.len()
                invariant
                    i <= segs@.len(),
                    out@.len() == i,
                    forall|j: int| 0 <= j < i ==> #[trigger] out@[j]@ == segs@[j]@,
                decreases segs@.len() - i,
            {
                let g = &segs[i];
                let m = g.len();
                assert(g@.subrange(0, m as int) =~= g@);
                out.push(range_to_string(g, 0, m));
                i = i + 1;
            }
            Ok(out)
        },
        Err(k) => Err(k),
    }
}

/// Everything in the line after its last top-level closing bracket,
/// trimmed: the sung text of a lyric line.
pub fn extract_text_after_brackets(line: &str) -> (r: String)
    ensures
        r@ == spec_text_after_brackets(line@),
{
    let v = str_to_chars(line);
    let n = v.len();
    assert(v@.subrange(0, n as int) =~= line@);
    let start = text_start(&v, 0, n);
    let (a, b) = trim_range(&v, start, n);
    range_to_string(&v, a, b)
}

/// Exec scan for where the free text starts in `v[from..to]`.
fn text_start(v: &Vec<char>, from: usize, to: usize) -> (r: usize)
    requires
        from <= to <= v@.len(),
    ensures
        from <= r <= to,
        r - from == spec_text_start_from(v@.subrange(from as int, to as int), 0, 0, 0),
{
    let ghost s = v@.subrange(from as int, to as int);
    let mut depth: i128 = 0;
    let mut last = from;
    let mut i = from;
    while i < to
        invariant
            from <= i <= to <= v@.len(),
            from <= last <= i,
            s == v@.subrange(from as int, to as int),
            -(i - from) <= depth <= i - from,
            spec_text_start_from(s, 0, 0, 0) == spec_text_start_from(
                s,
                i - from,
                depth as int,
                last - from,
            ),
        decreases to - i,
    {
        let c = v[i];
        assert(s[i - from] == c);
        if c == '[' {
            depth = depth + 1;
        } else if c == ']' {
            if depth == 1 {
                depth = 0;
                last = i + 1;
            } else {
                depth = depth - 1;
            }
        }
        i = i + 1;
    }
    last
}

/// Parses a track volume held in `v[from..to]` into thousandths.
pub fn parse_volume_chars(v: &Vec<char>, from: usize, to: usize) -> (r: Option<u32>)
    requires
        from <= to <= v@.len(),
    ensures
        r == spec_parse_volume(v@.subrange(from as int, to as int)),
{
    let ghost s = v@.subrange(from as int, to as int);
    let di = find_char(v, from, to, '.');
    proof {
        lemma_spec_find(s, '.');
    }
    let (ip_from, ip_to, fp_from, fp_to): (usize, usize, usize, usize) = match di {
        None => (from, to, to, to),
        Some(d) => (from, d, d + 1, to),
    };
    let ghost ip = if spec_find(s, '.') < 0 { s } else { s.subrange(0, spec_find(s, '.')) };
    let ghost fp = if spec_find(s, '.') < 0 { Seq::<char>::empty() } else {
        s.subrange(spec_find(s, '.') + 1, s.len() as int)
    };
    assert(ip =~= v@.subrange(ip_from as int, ip_to as int));
    assert(fp =~= v@.subrange(fp_from as int, fp_to as int));
    if !all_digits_range(v, ip_from, ip_to) {
        return None;
    }
    if !all_digits_range(v, fp_from, fp_to) {
        return None;
    }
    let ip_len = ip_to - ip_from;
    let fp_len = fp_to - fp_from;
    if ip_len + fp_len == 0 {
        return None;
    }
    if fp_len > 3 {
        return None;
    }
    // integer part value, bounded early so the total fits
    let ipv: u64 = if ip_len == 0 {
        proof {
            assert(ip =~= Seq::<char>::empty());
        }
        0
    } else {
        match parse_u64_digits(v, ip_from, ip_to) {
            None => {
                proof {
                    lemma_dec_value_nonneg(fp);
                    assert(dec_value(ip) > u64::MAX);
                    assert(dec_value(ip) * 1000 >= dec_value(ip)) by (nonlinear_arith)
                        requires
                            dec_value(ip) >= 0,
                    ;
                }
                return None;
            },
            Some(m) => m,
        }
    };
    let fpv: u64 = frac3_value(v, fp_from, fp_to);
    proof {
        lemma_dec_value_nonneg(ip);
        lemma_dec_value_nonneg(fp);
    }
    if ipv > (u32::MAX as u64) / 1000 {
        proof {
            assert(dec_value(ip) * 1000 + spec_frac3(fp) > u32::MAX) by (nonlinear_arith)
                requires
                    dec_value(ip) == ipv,
                    ipv > (u32::MAX as u64) / 1000,
                    spec_frac3(fp) >= 0,
            ;
        }
        return None;
    }
    let total: u64 = ipv * 1000 + fpv;
    if total > u32::MAX as u64 {
        return None;
    }
    Some(total as u32)
}

/// Whether `v[from..to]` consists of decimal digits only.
fn all_digits_range(v: &Vec<char>, from: usize, to: usize) -> (r: bool)
    requires
        from <= to <= v@.len(),
    ensures
        r == all_dec_digits(v@.subrange(from as int, to as int)),
{
    let ghost s = v@.subrange(from as int, to as int);
    let mut i = from;
    while i < to
        invariant
            from <= i <= to <= v@.len(),
            s == v@.subrange(from as int, to as int),
            forall|j: int| 0 <= j < i - from ==> crate::numfmt::is_dec_digit(#[trigger] s[j]),
        decreases to - i,
    {
        if !crate::numfmt::is_dec_digit_exec(v[i]) {
            assert(s[i - from] == v@[i as int]);
            assert(!all_dec_digits(s));
            return false;
        }
        i = i + 1;
    }
    true
}

/// Index of the first metadata pair with the given key.
fn meta_find(m: &Vec<(String, String)>, key: &str) -> (r: Option<usize>)
    ensures
        match r {
            Some(i) => i < m@.len() && m@[i as int].0@ == key@ && forall|j: int|
                0 <= j < i ==> m@[j].0@ != key@,
            None => forall|j: int| 0 <= j < m@.len() ==> m@[j].0@ != key@,
        },
{
    let n = m.len();
    let mut i: usize = 0;
    while i < n
        invariant
            i <= n,
            n == m@.len(),
            forall|j: int| 0 <= j < i ==> m@[j].0@ != key@,
        decreases n - i,
    {
        if crate::strutil::str_eq(m[i].0.as_str(), key) {
            return Some(i);
        }
        i = i + 1;
    }
    None
}

/// Stores `value` under `key` in the metadata: replaces the value of an
/// existing key, else appends the pair.
fn meta_upsert(doc: &mut LrxFile, key: String, value: String)
    ensures
        final(doc)@ == (DocV {
            metadata: spec_meta_upsert(old(doc)@.metadata, key@, value@),
            ..old(doc)@
        }),
{
    let ghost dv = doc@;
    match meta_find(&doc.metadata, key.as_str()) {
        Some(i) => {
            proof {
                assert(dv.metadata[i as int].0 == key@);
                assert(forall|j: int| 0 <= j < i ==> dv.metadata[j].0 != key@);
                lemma_meta_idx_is(dv.metadata, key@, i as int);
            }
            self_set_meta(doc, i, key, value);
            assert(doc@ =~~= (DocV {
                metadata: spec_meta_upsert(dv.metadata, key@, value@),
                ..dv
            }));
        },
        None => {
            proof {
                assert(forall|j: int| 0 <= j < dv.metadata.len() ==> dv.metadata[j].0 != key@);
                lemma_meta_idx(dv.metadata, key@);
            }
            doc.metadata.push((key, value));
            assert(doc@ =~~= (DocV {
                metadata: spec_meta_upsert(dv.metadata, key@, value@),
                ..dv
            }));
        },
    }
}

/// Replaces the metadata pair at `i`.
fn self_set_meta(doc: &mut LrxFile, i: usize, key: String, value: String)
    requires
        i < old(doc).metadata@.len(),
    ensures
        final(doc).metadata@ == old(doc).metadata@.update(i as int, (key, value)),
        final(doc).tracks == old(doc).tracks,
        final(doc).parts == old(doc).parts,
        final(doc).lines == old(doc).lines,
        final(doc).color == old(doc).color,
        final(doc).background_color == old(doc).background_color,
{
    doc.metadata.set(i, (key, value));
}

/// A first matching index is what `spec_meta_idx` returns.
proof fn lemma_meta_idx_is(m: Seq<(Seq<char>, Seq<char>)>, key: Seq<char>, i: int)
    requires
        0 <= i < m.len(),
        m[i].0 == key,
        forall|j: int| 0 <= j < i ==> m[j].0 != key,
    ensures
        spec_meta_idx(m, key) == i,
{
    lemma_meta_idx(m, key);
}

/// A first matching index is what `spec_track_idx` returns.
proof fn lemma_track_idx_is(ts: Seq<TrackV>, id: Seq<char>, i: int)
    requires
        0 <= i < ts.len(),
        ts[i].id == id,
        forall|j: int| 0 <= j < i ==> ts[j].id != id,
    ensures
        spec_track_idx(ts, id) == i,
{
    lemma_track_idx(ts, id);
}

/// A first matching index is what `spec_part_idx` returns.
proof fn lemma_part_idx_is(ps: Seq<PartV>, id: Seq<char>, i: int)
    requires
        0 <= i < ps.len(),
        ps[i].id == id,
        forall|j: int| 0 <= j < i ==> ps[j].id != id,
    ensures
        spec_part_idx(ps, id) == i,
{
    lemma_part_idx(ps, id);
}

/// Index of the track whose id is `v[from..to]`, creating a default-valued
/// track on first mention, as a dotted tag does.
fn ensure_track(doc: &mut LrxFile, v: &Vec<char>, from: usize, to: usize) -> (idx: usize)
    requires
        from <= to <= v@.len(),
    ensures
        ({
            let id = v@.subrange(from as int, to as int);
            let i0 = spec_track_idx(old(doc)@.tracks, id);
            &&& final(doc)@ == (DocV {
                tracks: if i0 < 0 {
                    old(doc)@.tracks.push(default_track_v(id))
                } else {
                    old(doc)@.tracks
                },
                ..old(doc)@
            })
            &&& idx as int == if i0 < 0 {
                old(doc)@.tracks.len() as int
            } else {
                i0
            }
            &&& idx < final(doc)@.tracks.len()
        }),
{
    let ghost dv = doc@;
    let ghost id = v@.subrange(from as int, to as int);
    let n = doc.tracks.len();
    let mut i: usize = 0;
    while i < n
        invariant
            i <= n,
            n == doc.tracks@.len(),
            from <= to <= v@.len(),
            forall|j: int| 0 <= j < i ==> doc.tracks@[j].id@ != v@.subrange(
                from as int,
                to as int,
            ),
            *doc == *old(doc),
            dv == doc@,
            id == v@.subrange(from as int, to as int),
        decreases n - i,
    {
        if range_eq(v, from, to, doc.tracks[i].id.as_str()) {
            proof {
                assert(dv.tracks[i as int] == doc.tracks@[i as int]@);
                assert(dv.tracks[i as int].id == id);
                assert(forall|j: int| 0 <= j < i ==> dv.tracks[j].id != id);
                lemma_track_idx_is(dv.tracks, id, i as int);
            }
            return i;
        }
        i = i + 1;
    }
    proof {
        assert(forall|j: int| 0 <= j < dv.tracks.len() ==> dv.tracks[j].id != id);
        lemma_track_idx(dv.tracks, id);
    }
    let t = Track {
        id: range_to_string(v, from, to),
        name: String::new(),
        source: String::new(),
        volume: 1000,
    };
    doc.tracks.push(t);
    assert(doc@ =~~= (DocV { tracks: dv.tracks.push(default_track_v(id)), ..dv }));
    n
}

/// Index of the part whose id is `v[from..to]`, creating a default-valued
/// part on first mention.
fn ensure_part(doc: &mut LrxFile, v: &Vec<char>, from: usize, to: usize) -> (idx: usize)
    requires
        from <= to <= v@.len(),
    ensures
        ({
            let id = v@.subrange(from as int, to as int);
            let i0 = spec_part_idx(old(doc)@.parts, id);
            &&& final(doc)@ == (DocV {
                parts: if i0 < 0 {
                    old(doc)@.parts.push(default_part_v(id))
                } else {
                    old(doc)@.parts
                },
                ..old(doc)@
            })
            &&& idx as int == if i0 < 0 {
                old(doc)@.parts.len() as int
            } else {
                i0
            }
            &&& idx < final(doc)@.parts.len()
        }),
{
    let ghost dv = doc@;
    let ghost id = v@.subrange(from as int, to as int);
    let n = doc.parts.len();
    let mut i: usize = 0;
    while i < n
        invariant
            i <= n,
            n == doc.parts@.len(),
            from <= to <= v@.len(),
            forall|j: int| 0 <= j < i ==> doc.parts@[j].id@ != v@.subrange(
                from as int,
                to as int,
            ),
            *doc == *old(doc),
            dv == doc@,
            id == v@.subrange(from as int, to as int),
        decreases n - i,
    {
        if range_eq(v, from, to, doc.parts[i].id.as_str()) {
            proof {
                assert(dv.parts[i as int] == doc.parts@[i as int]@);
                assert(dv.parts[i as int].id == id);
                assert(forall|j: int| 0 <= j < i ==> dv.parts[j].id != id);
                lemma_part_idx_is(dv.parts, id, i as int);
            }
            return i;
        }
        i = i + 1;
    }
    proof {
        assert(forall|j: int| 0 <= j < dv.parts.len() ==> dv.parts[j].id != id);
        lemma_part_idx(dv.parts, id);
    }
    let p = Part {
        id: range_to_string(v, from, to),
        name: String::new(),
        color: Rgb { r: 255, g: 255, b: 255 },
        background_color: None,
    };
    doc.parts.push(p);
    assert(doc@ =~~= (DocV { parts: dv.parts.push(default_part_v(id)), ..dv }));
    n
}

/// Replaces the track at `idx` with a copy whose name is `s`.
fn set_track_name(doc: &mut LrxFile, idx: usize, s: String)
    requires
        idx < old(doc).tracks@.len(),
    ensures
        final(doc)@ == (DocV {
            tracks: old(doc)@.tracks.update(
                idx as int,
                TrackV { name: s@, ..old(doc)@.tracks[idx as int] },
            ),
            ..old(doc)@
        }),
{
    let ghost dv = doc@;
    let t = Track {
        id: doc.tracks[idx].id.clone(),
        name: s,
        source: doc.tracks[idx].source.clone(),
        volume: doc.tracks[idx].volume,
    };
    doc.tracks.set(idx, t);
    assert(doc@ =~~= (DocV {
        tracks: dv.tracks.update(idx as int, TrackV { name: t@.name, ..dv.tracks[idx as int] }),
        ..dv
    }));
}

/// Replaces the track at `idx` with a copy whose source is `s`.
fn set_track_source(doc: &mut LrxFile, idx: usize, s: String)
    requires
        idx < old(doc).tracks@.len(),
    ensures
        final(doc)@ == (DocV {
            tracks: old(doc)@.tracks.update(
                idx as int,
                TrackV { source: s@, ..old(doc)@.tracks[idx as int] },
            ),
            ..old(doc)@
        }),
{
    let ghost dv = doc@;
    let t = Track {
        id: doc.tracks[idx].id.clone(),
        name: doc.tracks[idx].name.clone(),
        source: s,
        volume: doc.tracks[idx].volume,
    };
    doc.tracks.set(idx, t);
    assert(doc@ =~~= (DocV {
        tracks: dv.tracks.update(idx as int, TrackV { source: t@.source, ..dv.tracks[idx as int] }),
        ..dv
    }));
}

/// Replaces the track at `idx` with a copy at the given volume.
fn set_track_volume(doc: &mut LrxFile, idx: usize, vol: u32)
    requires
        idx < old(doc).tracks@.len(),
    ensures
        final(doc)@ == (DocV {
            tracks: old(doc)@.tracks.update(
                idx as int,
                TrackV { volume: vol, ..old(doc)@.tracks[idx as int] },
            ),
            ..old(doc)@
        }),
{
    let ghost dv = doc@;
    let t = Track {
        id: doc.tracks[idx].id.clone(),
        name: doc.tracks[idx].name.clone(),
        source: doc.tracks[idx].source.clone(),
        volume: vol,
    };
    doc.tracks.set(idx, t);
    assert(doc@ =~~= (DocV {
        tracks: dv.tracks.update(idx as int, TrackV { volume: vol, ..dv.tracks[idx as int] }),
        ..dv
    }));
}

/// Replaces the part at `idx` with a copy whose name is `s`.
fn set_part_name(doc: &mut LrxFile, idx: usize, s: String)
    requires
        idx < old(doc).parts@.len(),
    ensures
        final(doc)@ == (DocV {
            parts: old(doc)@.parts.update(
                idx as int,
                PartV { name: s@, ..old(doc)@.parts[idx as int] },
            ),
            ..old(doc)@
        }),
{
    let ghost dv = doc@;
    let q = Part {
        id: doc.parts[idx].id.clone(),
        name: s,
        color: doc.parts[idx].color,
        background_color: doc.parts[idx].background_color,
    };
    doc.parts.set(idx, q);
    assert(doc@ =~~= (DocV {
        parts: dv.parts.update(idx as int, PartV { name: q@.name, ..dv.parts[idx as int] }),
        ..dv
    }));
}

/// Replaces the part at `idx` with a copy with the given foreground color.
fn set_part_color(doc: &mut LrxFile, idx: usize, c: Rgb)
    requires
        idx < old(doc).parts@.len(),
    ensures
        final(doc)@ == (DocV {
            parts: old(doc)@.parts.update(
                idx as int,
                PartV { color: c, ..old(doc)@.parts[idx as int] },
            ),
            ..old(doc)@
        }),
{
    let ghost dv = doc@;
    let q = Part {
        id: doc.parts[idx].id.clone(),
        name: doc.parts[idx].name.clone(),
        color: c,
        background_color: doc.parts[idx].background_color,
    };
    doc.parts.set(idx, q);
    assert(doc@ =~~= (DocV {
        parts: dv.parts.update(idx as int, PartV { color: c, ..dv.parts[idx as int] }),
        ..dv
    }));
}

/// Replaces the part at `idx` with a copy with the given background color.
fn set_part_background(doc: &mut LrxFile, idx: usize, c: Rgb)
    requires
        idx < old(doc).parts@.len(),
    ensures
        final(doc)@ == (DocV {
            parts: old(doc)@.parts.update(
                idx as int,
                PartV { background_color: Some(c), ..old(doc)@.parts[idx as int] },
            ),
            ..old(doc)@
        }),
{
    let ghost dv = doc@;
    let q = Part {
        id: doc.parts[idx].id.clone(),
        name: doc.parts[idx].name.clone(),
        color: doc.parts[idx].color,
        background_color: Some(c),
    };
    doc.parts.set(idx, q);
    assert(doc@ =~~= (DocV {
        parts: dv.parts.update(
            idx as int,
            PartV { background_color: Some(c), ..dv.parts[idx as int] },
        ),
        ..dv
    }));
}

/// Applies one `track.<id>:prop=value` property, creating the track on
/// first mention; `name`, `source` and `volume` are the track properties.
fn apply_track_prop(
    doc: &mut LrxFile,
    v: &Vec<char>,
    id_from: usize,
    id_to: usize,
    prop_from: usize,
    prop_to: usize,
    val_from: usize,
    val_to: usize,
) -> (r: Result<(), ParseErrorKind>)
    requires
        id_from <= id_to <= v@.len(),
        prop_from <= prop_to <= v@.len(),
        val_from <= val_to <= v@.len(),
    ensures
        ({
            let id = v@.subrange(id_from as int, id_to as int);
            let prop = v@.subrange(prop_from as int, prop_to as int);
            let val = v@.subrange(val_from as int, val_to as int);
            match spec_track_prop(old(doc)@, id, prop, val) {
                Ok(d2) => r is Ok && final(doc)@ == d2,
                Err(k) => r == Err::<(), ParseErrorKind>(k),
            }
        }),
{
    let ghost dv0 = doc@;
    let idx = ensure_track(doc, v, id_from, id_to);
    if range_eq(v, prop_from, prop_to, "name") {
        let s = range_to_string(v, val_from, val_to);
        set_track_name(doc, idx, s);
        Ok(())
    } else if range_eq(v, prop_from, prop_to, "source") {
        let s = range_to_string(v, val_from, val_to);
        set_track_source(doc, idx, s);
        Ok(())
    } else if range_eq(v, prop_from, prop_to, "volume") {
        match parse_volume_chars(v, val_from, val_to) {
            Some(vol) => {
                set_track_volume(doc, idx, vol);
                Ok(())
            },
            None => Err(ParseErrorKind::InvalidVolume),
        }
    } else {
        Err(ParseErrorKind::UnknownProperty)
    }
}

/// Applies one `part.<id>:prop=value` property, creating the part on first
/// mention; `name`, `color` and `background_color` are the part properties.
fn apply_part_prop(
    doc: &mut LrxFile,
    v: &Vec<char>,
    id_from: usize,
    id_to: usize,
    prop_from: usize,
    prop_to: usize,
    val_from: usize,
    val_to: usize,
) -> (r: Result<(), ParseErrorKind>)
    requires
        id_from <= id_to <= v@.len(),
        prop_from <= prop_to <= v@.len(),
        val_from <= val_to <= v@.len(),
    ensures
        ({
            let id = v@.subrange(id_from as int, id_to as int);
            let prop = v@.subrange(prop_from as int, prop_to as int);
            let val = v@.subrange(val_from as int, val_to as int);
            match spec_part_prop(old(doc)@, id, prop, val) {
                Ok(d2) => r is Ok && final(doc)@ == d2,
                Err(k) => r == Err::<(), ParseErrorKind>(k),
            }
        }),
{
    let ghost dv0 = doc@;
    let idx = ensure_part(doc, v, id_from, id_to);
    if range_eq(v, prop_from, prop_to, "name") {
        let s = range_to_string(v, val_from, val_to);
        set_part_name(doc, idx, s);
        Ok(())
    } else if range_eq(v, prop_from, prop_to, "color") {
        match crate::color::parse_color_chars(v, val_from, val_to) {
            Some(c) => {
                set_part_color(doc, idx, c);
                Ok(())
            },
            None => Err(ParseErrorKind::InvalidColor),
        }
    } else if range_eq(v, prop_from, prop_to, "background_color") {
        match crate::color::parse_color_chars(v, val_from, val_to) {
            Some(c) => {
                set_part_background(doc, idx, c);
                Ok(())
            },
            None => Err(ParseErrorKind::InvalidColor),
        }
    } else {
        Err(ParseErrorKind::UnknownProperty)
    }
}

/// The view of a vector of segment vectors.
pub open spec fn segs_view(s: Seq<Vec<char>>) -> Seq<Seq<char>> {
    Seq::new(s.len(), |i: int| s[i]@)
}

/// Applies one dotted tag `category.id:prop=value`; `dd` is the first dot
/// of the key and `ci` its colon.
fn parse_dot_notation(doc: &mut LrxFile, seg: &Vec<char>, dd: usize, ci: usize) -> (r: Result<
    (),
    ParseErrorKind,
>)
    requires
        dd < ci < seg@.len(),
        spec_find(seg@.subrange(0, ci as int), '.') == dd,
    ensures
        ({
            let key = seg@.subrange(0, ci as int);
            let value = seg@.subrange(ci + 1, seg@.len() as int);
            match spec_parse_dot(old(doc)@, key, value) {
                Ok(d2) => r is Ok && final(doc)@ == d2,
                Err(k) => r == Err::<(), ParseErrorKind>(k),
            }
        }),
{
    let n = seg.len();
    let ghost key = seg@.subrange(0, ci as int);
    let ghost value = seg@.subrange(ci + 1, n as int);
    proof {
        assert(key.subrange(0, dd as int) =~= seg@.subrange(0, dd as int));
        assert(key.subrange(dd + 1, key.len() as int) =~= seg@.subrange(dd + 1, ci as int));
    }
    let ei = match find_char(seg, ci + 1, n, '=') {
        None => {
            proof {
                lemma_spec_find(value, '=');
            }
            return Err(ParseErrorKind::InvalidDotNotation);
        },
        Some(e) => e,
    };
    proof {
        lemma_spec_find(value, '=');
        assert(value.subrange(0, ei - (ci + 1)) =~= seg@.subrange(ci + 1, ei as int));
        assert(value.subrange(ei - (ci + 1) + 1, value.len() as int) =~= seg@.subrange(
            ei + 1,
            n as int,
        ));
    }
    if range_eq(seg, 0, dd, "track") {
        apply_track_prop(doc, seg, dd + 1, ci, ci + 1, ei, ei + 1, n)
    } else if range_eq(seg, 0, dd, "part") {
        apply_part_prop(doc, seg, dd + 1, ci, ci + 1, ei, ei + 1, n)
    } else {
        Err(ParseErrorKind::UnknownCategory)
    }
}

/// Applies one tag segment `key:value` to the document.
fn parse_tag(doc: &mut LrxFile, seg: &Vec<char>) -> (r: Result<(), ParseErrorKind>)
    ensures
        match spec_parse_tag(old(doc)@, seg@) {
            Ok(d2) => r is Ok && final(doc)@ == d2,
            Err(k) => r == Err::<(), ParseErrorKind>(k),
        },
{
    let n = seg.len();
    assert(seg@.subrange(0, n as int) =~= seg@);
    let ci = match find_char(seg, 0, n, ':') {
        None => {
            return Ok(());
        },
        Some(c) => c,
    };
    proof {
        lemma_spec_find(seg@, ':');
    }
    let ghost key = seg@.subrange(0, ci as int);
    let ghost value = seg@.subrange(ci + 1, n as int);
    let di = find_char(seg, 0, ci, '.');
    match di {
        Some(dd) => {
            proof {
                lemma_spec_find(key, '.');
            }
            parse_dot_notation(doc, seg, dd, ci)
        },
        None => {
            proof {
                lemma_spec_find(key, '.');
            }
            if range_eq(seg, 0, ci, "color") {
                match crate::color::parse_color_chars(seg, ci + 1, n) {
                    Some(c) => {
                        let key_s = range_to_string(seg, 0, ci);
                        let value_s = range_to_string(seg, ci + 1, n);
                        let ghost dv0 = doc@;
                        doc.color = Some(c);
                        assert(doc@ =~~= (DocV { color: Some(c), ..dv0 }));
                        meta_upsert(doc, key_s, value_s);
                        assert(doc@ =~~= (DocV {
                            color: Some(c),
                            metadata: spec_meta_upsert(dv0.metadata, key, value),
                            ..dv0
                        }));
                        Ok(())
                    },
                    None => Err(ParseErrorKind::InvalidColor),
                }
            } else if range_eq(seg, 0, ci, "background_color") {
                match crate::color::parse_color_chars(seg, ci + 1, n) {
                    Some(c) => {
                        let key_s = range_to_string(seg, 0, ci);
                        let value_s = range_to_string(seg, ci + 1, n);
                        let ghost dv0 = doc@;
                        doc.background_color = Some(c);
                        assert(doc@ =~~= (DocV { background_color: Some(c), ..dv0 }));
                        meta_upsert(doc, key_s, value_s);
                        assert(doc@ =~~= (DocV {
                            background_color: Some(c),
                            metadata: spec_meta_upsert(dv0.metadata, key, value),
                            ..dv0
                        }));
                        Ok(())
                    },
                    None => Err(ParseErrorKind::InvalidColor),
                }
            } else {
                let key_s = range_to_string(seg, 0, ci);
                let value_s = range_to_string(seg, ci + 1, n);
                meta_upsert(doc, key_s, value_s);
                Ok(())
            }
        },
    }
}

/// Appends one lyric line: the timestamp, the optional part reference from
/// the second segment, and the trimmed text after the brackets.
fn parse_lyric_line(
    doc: &mut LrxFile,
    ts: u64,
    segs: &Vec<Vec<char>>,
    v: &Vec<char>,
    from: usize,
    to: usize,
)
    requires
        from <= to <= v@.len(),
    ensures
        final(doc)@ == spec_parse_lyric_line(
            old(doc)@,
            ts,
            segs_view(segs@),
            v@.subrange(from as int, to as int),
        ),
{
    let ghost line = v@.subrange(from as int, to as int);
    let ghost sv = segs_view(segs@);
    let part_id: Option<String> = if segs.len() > 1 {
        let s1 = &segs[1];
        let m = s1.len();
        assert(s1@.subrange(0, m as int) =~= s1@);
        assert(sv[1] == s1@);
        if !crate::scan::contains_char(s1, 0, m, ':') && !crate::scan::contains_char(
            s1,
            0,
            m,
            '.',
        ) {
            Some(range_to_string(s1, 0, m))
        } else {
            None
        }
    } else {
        None
    };
    let start = text_start(v, from, to);
    proof {
        assert(line.subrange(spec_text_start_from(line, 0, 0, 0), line.len() as int)
            =~= v@.subrange(start as int, to as int));
    }
    let (a, b) = trim_range(v, start, to);
    let text = range_to_string(v, a, b);
    doc.lines.push(LyricLine { timestamp: ts, text, part_id });
    assert(doc@ =~~= spec_parse_lyric_line(old(doc)@, ts, sv, line));
}

/// Applies one trimmed line `v[from..to]` to the document.
fn parse_line(doc: &mut LrxFile, v: &Vec<char>, from: usize, to: usize) -> (r: Result<
    (),
    ParseErrorKind,
>)
    requires
        from <= to <= v@.len(),
    ensures
        match spec_parse_line(old(doc)@, v@.subrange(from as int, to as int)) {
            Ok(d2) => r is Ok && final(doc)@ == d2,
            Err(k) => r == Err::<(), ParseErrorKind>(k),
        },
{
    let ghost line = v@.subrange(from as int, to as int);
    if from == to {
        return Ok(());
    }
    let c0 = v[from];
    assert(line[0] == c0);
    if c0 == '#' {
        return Ok(());
    }
    if c0 != '[' {
        return Ok(());
    }
    match extract_brackets_chars(v, from, to) {
        Err(k) => Err(k),
        Ok(segs) => {
            let ghost sv = segs_view(segs@);
            proof {
                assert(sv =~= spec_extract_brackets(line)->Ok_0);
            }
            if segs.len() == 0 {
                return Ok(());
            }
            let s0 = &segs[0];
            let m = s0.len();
            proof {
                assert(sv[0] == s0@);
                assert(s0@.subrange(0, m as int) =~= s0@);
            }
            match parse_timestamp_chars(s0, 0, m) {
                Some(ts) => {
                    parse_lyric_line(doc, ts, &segs, v, from, to);
                    Ok(())
                },
                None => {
                    if crate::scan::contains_char(s0, 0, m, ':') {
                        parse_tag(doc, s0)
                    } else {
                        Ok(())
                    }
                },
            }
        },
    }
}

/// Applies one raw line: trims it, parses it, and wraps any failure with
/// the 1-based line number and the trimmed text.
fn parse_one_line(doc: &mut LrxFile, v: &Vec<char>, from: usize, to: usize, line_no: usize) -> (r:
    Result<(), ParseError>)
    requires
        from <= to <= v@.len(),
    ensures
        ({
            let tl = spec_trim(v@.subrange(from as int, to as int));
            match spec_parse_line(old(doc)@, tl) {
                Ok(d2) => r is Ok && final(doc)@ == d2,
                Err(k) => r matches Err(pe) && pe@ == (ErrV {
                    kind: k,
                    line: line_no as int,
                    text: tl,
                }),
            }
        }),
{
    let (a, b) = trim_range(v, from, to);
    match parse_line(doc, v, a, b) {
        Ok(()) => Ok(()),
        Err(k) => Err(
            ParseError { kind: k, line: line_no, text: range_to_string(v, a, b) },
        ),
    }
}

impl LrxFile {
    /// Parses LRX source text into a document: every line applied in
    /// order, then the lyric lines sorted by timestamp. The whole document
    /// is rejected on the first malformed line; the error carries that
    /// line's number and text.
    pub fn parse(content: &str) -> (r: Result<LrxFile, ParseError>)
        requires
            content@.len() < usize::MAX,
        ensures
            match r {
                Ok(doc) => spec_parse(content@) matches Ok(d) && doc@ == d && doc.wf(),
                Err(e) => spec_parse(content@) matches Err(ev) && e@ == ev,
            },
    {
        proof {
            lemma_parse_wf(content@);
        }
        let v = str_to_chars(content);
        let n = v.len();
        assert(v@.subrange(0, n as int) =~= content@);
        let mut doc = LrxFile::new();
        assert(doc@ =~~= empty_doc_v());
        let mut p: usize = 0;
        let mut line_no: usize = 1;
        loop
            invariant
                p <= n,
                n == v@.len(),
                n < usize::MAX,
                v@ == content@,
                1 <= line_no,
                line_no <= p + 1,
                spec_parse_lines(empty_doc_v(), spec_lines(content@), 1) == spec_parse_lines(
                    doc@,
                    spec_lines(v@.subrange(p as int, n as int)),
                    line_no as int,
                ),
            decreases n - p,
        {
            let ghost rest = v@.subrange(p as int, n as int);
            let ghost dv = doc@;
            match find_char(&v, p, n, '\n') {
                Some(k) => {
                    proof {
                        lemma_spec_find(rest, '\n');
                        assert(spec_lines(rest) == seq![rest.subrange(0, k - p)] + spec_lines(
                            rest.subrange(k - p + 1, rest.len() as int),
                        ));
                        assert(spec_lines(rest)[0] == rest.subrange(0, k - p));
                        assert(rest.subrange(0, k - p) =~= v@.subrange(p as int, k as int));
                        assert(rest.subrange(k - p + 1, rest.len() as int) =~= v@.subrange(
                            k + 1,
                            n as int,
                        ));
                        assert(spec_lines(rest).subrange(1, spec_lines(rest).len() as int)
                            =~= spec_lines(v@.subrange(k + 1, n as int)));
                    }
                    match parse_one_line(&mut doc, &v, p, k, line_no) {
                        Ok(()) => {
                            p = k + 1;
                            line_no = line_no + 1;
                        },
                        Err(e) => {
                            return Err(e);
                        },
                    }
                },
                None => {
                    proof {
                        lemma_spec_find(rest, '\n');
                        assert(spec_lines(rest) == seq![rest]);
                        assert(spec_lines(rest)[0] == rest);
                        assert(spec_lines(rest).subrange(1, 1) =~= Seq::<Seq<char>>::empty());
                    }
                    match parse_one_line(&mut doc, &v, p, n, line_no) {
                        Ok(()) => {
                            let ghost before = doc@;
                            let ghost lines_before = doc.lines@;
                            proof {
                                let ls = spec_lines(rest);
                                assert(ls.len() == 1);
                                assert(spec_trim(ls[0]) == spec_trim(v@.subrange(
                                    p as int,
                                    n as int,
                                )));
                                assert(spec_parse_line(dv, spec_trim(ls[0])) == Ok::<
                                    DocV,
                                    ParseErrorKind,
                                >(before));
                                assert(spec_parse_lines(dv, ls, line_no as int)
                                    == spec_parse_lines(
                                    before,
                                    ls.subrange(1, 1),
                                    line_no + 1,
                                ));
                                assert(spec_parse_lines(
                                    before,
                                    Seq::<Seq<char>>::empty(),
                                    line_no + 1,
                                ) == Ok::<DocV, ErrV>(before));
                                assert(spec_parse_lines(
                                    empty_doc_v(),
                                    spec_lines(content@),
                                    1,
                                ) == Ok::<DocV, ErrV>(before));
                            }
                            doc.finalize();
                            proof {
                                lemma_sort_view(lines_before);
                                assert(before.lines =~= lines_view(lines_before));
                                assert(doc@.lines =~= lines_view(spec_stable_sort(lines_before)));
                                assert(doc@ =~~= (DocV {
                                    lines: spec_stable_sort_v(before.lines),
                                    ..before
                                }));
                                lemma_parse_wf(content@);
                                assert(doc_v_wf(doc@));
                                assert forall|a: int, b: int|
                                    0 <= a < b < doc.metadata@.len() implies doc.metadata@[a].0@
                                    != doc.metadata@[b].0@ by {
                                    assert(doc@.metadata[a].0 == doc.metadata@[a].0@);
                                    assert(doc@.metadata[b].0 == doc.metadata@[b].0@);
                                }
                                assert forall|a: int, b: int|
                                    0 <= a < b < doc.tracks@.len() implies doc.tracks@[a].id@
                                    != doc.tracks@[b].id@ by {
                                    assert(doc@.tracks[a].id == doc.tracks@[a].id@);
                                    assert(doc@.tracks[b].id == doc.tracks@[b].id@);
                                }
                                assert forall|a: int, b: int|
                                    0 <= a < b < doc.parts@.len() implies doc.parts@[a].id@
                                    != doc.parts@[b].id@ by {
                                    assert(doc@.parts[a].id == doc.parts@[a].id@);
                                    assert(doc@.parts[b].id == doc.parts@[b].id@);
                                }
                                assert(doc.wf());
                            }
                            return Ok(doc);
                        },
                        Err(e) => {
                            return Err(e);
                        },
                    }
                },
            }
        }
    }
}

/// The value of at most three fraction digits, in thousandths.
fn frac3_value(v: &Vec<char>, from: usize, to: usize) -> (r: u64)
    requires
        from <= to <= v@.len(),
        to - from <= 3,
        all_dec_digits(v@.subrange(from as int, to as int)),
    ensures
        r == spec_frac3(v@.subrange(from as int, to as int)),
        r <= 999,
{
    let ghost s = v@.subrange(from as int, to as int);
    proof {
        lemma_dec_value_nonneg(s);
    }
    if to == from {
        0
    } else {
        assert(s[0] == v@[from as int]);
        assert(crate::numfmt::is_dec_digit(v@[from as int]));
        let d0: u64 = digit_at(v, from);
        if to - from == 1 {
            proof {
                assert(s =~= seq![v@[from as int]]);
                crate::numfmt::lemma_dec_value1(v@[from as int]);
            }
            d0 * 100
        } else {
            assert(s[1] == v@[from + 1]);
            assert(crate::numfmt::is_dec_digit(v@[from + 1]));
            let d1: u64 = digit_at(v, from + 1);
            if to - from == 2 {
                proof {
                    assert(s =~= seq![v@[from as int], v@[from + 1]]);
                    crate::numfmt::lemma_dec_value2(v@[from as int], v@[from + 1]);
                }
                (d0 * 10 + d1) * 10
            } else {
                assert(s[2] == v@[from + 2]);
                assert(crate::numfmt::is_dec_digit(v@[from + 2]));
                let d2: u64 = digit_at(v, from + 2);
                proof {
                    let c0 = v@[from as int];
                    let c1 = v@[from + 1];
                    let c2 = v@[from + 2];
                    assert(s =~= seq![c0, c1, c2]);
                    assert(s.drop_last() =~= seq![c0, c1]);
                    crate::numfmt::lemma_dec_value2(c0, c1);
                    assert(s.last() == c2);
                }
                (d0 * 10 + d1) * 10 + d2
            }
        }
    }
}

/// The value of the digit at `i`.
fn digit_at(v: &Vec<char>, i: usize) -> (d: u64)
    requires
        i < v@.len(),
        crate::numfmt::is_dec_digit(v@[i as int]),
    ensures
        d == crate::numfmt::dec_val(v@[i as int]),
        d <= 9,
{
    let c = v[i];
    c as u32 as u64 - '0' as u32 as u64
}

} // verus!
