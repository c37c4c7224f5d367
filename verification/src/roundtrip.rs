//! Laws relating the serializer and the parser: re-parsing a serialized
//! document yields a semantically equal document.
//!
//! The proof follows the text: each serialized tag or lyric line parses
//! back to exactly the insertion it came from, each block of lines folds
//! those insertions in order, and the final theorem assembles the blocks
//! and discharges the closing sort against the already sorted lines.

use vstd::prelude::*;
use crate::document::{DocV, LineV, lines_sorted_v, lemma_sort_v_of_sorted, empty_doc_v};
use crate::document::spec_stable_sort_v;
use crate::parse::spec_parse;
use crate::serialize::{spec_ser_lines, spec_serialize};
use crate::parse::{
    spec_brackets_from, spec_extract_brackets, spec_text_start_from, spec_text_after_brackets,
    spec_trim, spec_trim_start, spec_trim_end, is_space, spec_parse_line, spec_parse_lyric_line,
    spec_parse_tag, spec_parse_dot, spec_meta_upsert, spec_track_prop, spec_part_prop,
    spec_lines, spec_parse_lines, ErrV, ParseErrorKind,
};
use crate::scan::lemma_find_is;
use crate::scan::{spec_find, lemma_find_none};
use crate::color::{Rgb, spec_parse_color};
use crate::parse::lemma_meta_idx;
use crate::serialize::{
    spec_ser_line, spec_ser_meta, spec_ser_meta_one, spec_ser_track, spec_ser_tracks,
    spec_format_volume,
};
use crate::document::{TrackV, PartV};
use crate::parse::{
    spec_track_idx, lemma_track_idx, default_track_v, spec_part_idx, lemma_part_idx,
    default_part_v,
};
use crate::color::{spec_format_color, lemma_color_round_trip};
use crate::serialize::{spec_ser_part, spec_ser_parts};
use crate::timestamp::{spec_format_timestamp, lemma_timestamp_round_trip, spec_parse_timestamp};

verus! {

/// Whether `s` is free of brackets and line breaks, so that it survives a
/// trip through a bracketed line unaltered.
pub open spec fn bracket_free(s: Seq<char>) -> bool {
    forall|k: int| 0 <= k < s.len() ==> s[k] != '[' && s[k] != ']' && s[k] != '\n'
}

/// Trimming never lengthens, and strictly shortens when an end is blank.
proof fn lemma_trim_start_len(s: Seq<char>)
    ensures
        spec_trim_start(s).len() <= s.len(),
        s.len() > 0 && is_space(s[0]) ==> spec_trim_start(s).len() < s.len(),
    decreases s.len(),
{
    if s.len() > 0 && is_space(s[0]) {
        lemma_trim_start_len(s.subrange(1, s.len() as int));
    }
}

proof fn lemma_trim_end_len(s: Seq<char>)
    ensures
        spec_trim_end(s).len() <= s.len(),
        s.len() > 0 && is_space(s.last()) ==> spec_trim_end(s).len() < s.len(),
    decreases s.len(),
{
    if s.len() > 0 && is_space(s.last()) {
        lemma_trim_end_len(s.drop_last());
    }
}

/// A string equal to its own trim is blank at neither end.
proof fn lemma_trim_fixed(s: Seq<char>)
    requires
        spec_trim(s) == s,
        s.len() > 0,
    ensures
        !is_space(s[0]),
        !is_space(s.last()),
{
    lemma_trim_start_len(s);
    lemma_trim_end_len(spec_trim_start(s));
    if is_space(s[0]) {
        assert(spec_trim(s).len() < s.len());
    }
    assert(spec_trim_start(s).len() == s.len());
    assert(spec_trim_start(s) == s);
    if is_space(s.last()) {
        assert(spec_trim_end(s).len() < s.len());
    }
}

/// Scanning inside a bracket consumes plain characters into the open
/// segment until the closing bracket.
proof fn lemma_scan_inner(s: Seq<char>, i: int, mid: Seq<char>, cur: Seq<char>, acc: Seq<Seq<char>>)
    requires
        0 <= i,
        i + mid.len() < s.len(),
        s.subrange(i, i + mid.len()) == mid,
        s[i + mid.len()] == ']',
        bracket_free(mid),
    ensures
        spec_brackets_from(s, i, true, cur, acc) == spec_brackets_from(
            s,
            i + mid.len() + 1,
            false,
            Seq::empty(),
            acc.push(cur + mid),
        ),
    decreases mid.len(),
{
    if mid.len() == 0 {
        assert(s[i] == ']');
        assert(cur + mid =~= cur);
    } else {
        assert(mid[0] == s[i]);
        assert(s[i] != '[' && s[i] != ']');
        let mid2 = mid.subrange(1, mid.len() as int);
        assert(s.subrange(i + 1, i + 1 + mid2.len()) =~= mid2);
        assert(bracket_free(mid2));
        lemma_scan_inner(s, i + 1, mid2, cur.push(mid[0]), acc);
        assert(cur.push(mid[0]) + mid2 =~= cur + mid);
    }
}

/// Scanning a whole `[inner]` segment closes it into the accumulator.
proof fn lemma_scan_segment(s: Seq<char>, i: int, inner: Seq<char>, acc: Seq<Seq<char>>)
    requires
        0 <= i,
        i + inner.len() + 1 < s.len(),
        s[i] == '[',
        s.subrange(i + 1, i + 1 + inner.len()) == inner,
        s[i + 1 + inner.len()] == ']',
        bracket_free(inner),
    ensures
        spec_brackets_from(s, i, false, Seq::empty(), acc) == spec_brackets_from(
            s,
            i + inner.len() + 2,
            false,
            Seq::empty(),
            acc.push(inner),
        ),
{
    lemma_scan_inner(s, i + 1, inner, Seq::empty(), acc);
    assert(Seq::<char>::empty() + inner =~= inner);
}

/// A bracket-free tail ends the scan with the segments seen so far.
proof fn lemma_scan_tail(s: Seq<char>, i: int, cur: Seq<char>, acc: Seq<Seq<char>>)
    requires
        0 <= i <= s.len(),
        forall|k: int| i <= k < s.len() ==> s[k] != '[' && s[k] != ']',
    ensures
        spec_brackets_from(s, i, false, cur, acc) == Ok::<Seq<Seq<char>>, ParseErrorKind>(acc),
    decreases s.len() - i,
{
    if i < s.len() {
        lemma_scan_tail(s, i + 1, cur, acc);
    }
}

/// Scanning for the text start: plain characters inside a bracket leave
/// the depth and the found start alone until the closing bracket.
proof fn lemma_text_inner(s: Seq<char>, i: int, mid: Seq<char>, last: int)
    requires
        0 <= i,
        i + mid.len() < s.len(),
        s.subrange(i, i + mid.len()) == mid,
        s[i + mid.len()] == ']',
        bracket_free(mid),
    ensures
        spec_text_start_from(s, i, 1, last) == spec_text_start_from(
            s,
            i + mid.len() + 1,
            0,
            i + mid.len() + 1,
        ),
    decreases mid.len(),
{
    if mid.len() == 0 {
        assert(s[i] == ']');
    } else {
        assert(mid[0] == s[i]);
        assert(s[i] != '[' && s[i] != ']');
        let mid2 = mid.subrange(1, mid.len() as int);
        assert(s.subrange(i + 1, i + 1 + mid2.len()) =~= mid2);
        assert(bracket_free(mid2));
        lemma_text_inner(s, i + 1, mid2, last);
    }
}

/// A whole `[inner]` segment moves the text start past itself.
proof fn lemma_text_segment(s: Seq<char>, i: int, inner: Seq<char>, last: int)
    requires
        0 <= i,
        i + inner.len() + 1 < s.len(),
        s[i] == '[',
        s.subrange(i + 1, i + 1 + inner.len()) == inner,
        s[i + 1 + inner.len()] == ']',
        bracket_free(inner),
    ensures
        spec_text_start_from(s, i, 0, last) == spec_text_start_from(
            s,
            i + inner.len() + 2,
            0,
            i + inner.len() + 2,
        ),
{
    lemma_text_inner(s, i + 1, inner, last);
}

/// A bracket-free tail leaves the found text start in place.
proof fn lemma_text_tail(s: Seq<char>, i: int, last: int)
    requires
        0 <= i <= s.len(),
        forall|k: int| i <= k < s.len() ==> s[k] != '[' && s[k] != ']',
    ensures
        spec_text_start_from(s, i, 0, last) == last,
    decreases s.len() - i,
{
    if i < s.len() {
        lemma_text_tail(s, i + 1, last);
    }
}

/// The serialized form of one lyric line, without its final newline.
pub open spec fn ser_line_body(l: LineV) -> Seq<char> {
    seq!['['] + spec_format_timestamp(l.timestamp as nat) + seq![']'] + match l.part_id {
        Some(p) => seq!['['] + p + seq![']'],
        None => Seq::<char>::empty(),
    } + l.text + seq!['\n']
}

/// One serialized lyric line parses back to exactly the line it came
/// from: applied to any document, the line's text form appends that line.
/// The text must be free of brackets and already trimmed, and a part
/// reference free of brackets, colons and dots, as everything the
/// serializer itself accepts is.
#[verifier::rlimit(100)]
pub proof fn lemma_lyric_line_round_trip(d: DocV, l: LineV)
    requires
        bracket_free(l.text),
        spec_trim(l.text) == l.text,
        l.part_id matches Some(p) ==> bracket_free(p) && spec_find(p, ':') < 0 && spec_find(
            p,
            '.',
        ) < 0,
    ensures
        spec_ser_line(l) == spec_ser_line(l).drop_last() + seq!['\n'],
        spec_find(spec_ser_line(l).drop_last(), '\n') < 0,
        spec_trim(spec_ser_line(l).drop_last()) == spec_ser_line(l).drop_last(),
        spec_parse_line(d, spec_ser_line(l).drop_last()) == Ok::<DocV, ParseErrorKind>(
            DocV { lines: d.lines.push(l), ..d },
        ),
{
    let ts = spec_format_timestamp(l.timestamp as nat);
    crate::timestamp::lemma_zero_pad2((l.timestamp as nat) / 6000);
    crate::numfmt::lemma_pad2_value(((l.timestamp as nat) % 6000) / 100);
    crate::numfmt::lemma_pad2_value((l.timestamp as nat) % 100);
    assert(bracket_free(ts)) by {
        assert(forall|k: int|
            0 <= k < ts.len() ==> crate::numfmt::is_dec_digit(#[trigger] ts[k]) || ts[k] == ':'
                || ts[k] == '.') by {
            let a = crate::timestamp::spec_zero_pad2((l.timestamp as nat) / 6000);
            let b = crate::numfmt::spec_pad2(((l.timestamp as nat) % 6000) / 100);
            let c = crate::numfmt::spec_pad2((l.timestamp as nat) % 100);
            assert(ts =~= a + seq![':'] + b + seq!['.'] + c);
            assert(forall|k: int| 0 <= k < a.len() ==> ts[k] == a[k]);
            assert(forall|k: int| 0 <= k < b.len() ==> ts[a.len() + 1 + k] == b[k]);
            assert(forall|k: int| 0 <= k < c.len() ==> ts[a.len() + 4 + k] == c[k]);
        }
    }
    let line = spec_ser_line(l).drop_last();
    let full = spec_ser_line(l);
    match l.part_id {
        Some(p) => {
            assert(full =~= seq!['['] + ts + seq![']'] + (seq!['['] + p + seq![']']) + l.text
                + seq!['\n']);
            assert(line =~= seq!['['] + ts + seq![']', '['] + p + seq![']'] + l.text);
            assert(full =~= line + seq!['\n']);
            assert(spec_find(line, '\n') < 0) by {
                assert forall|k: int| 0 <= k < line.len() implies line[k] != '\n' by {
                    if 1 <= k < 1 + ts.len() {
                        assert(line[k] == ts[k - 1]);
                    } else if ts.len() + 3 <= k < ts.len() + 3 + p.len() {
                        assert(line[k] == p[k - ts.len() - 3]);
                    } else if k >= ts.len() + p.len() + 4 {
                        assert(line[k] == l.text[k - ts.len() - p.len() - 4]);
                    }
                }
                crate::scan::lemma_find_none(line, '\n');
            }
            let n1 = ts.len() as int + 2;
            let n2 = n1 + p.len() as int + 2;
            // the two segments and the free text
            assert(line[0] == '[');
            assert(line.subrange(1, 1 + ts.len() as int) =~= ts);
            assert(line[1 + ts.len() as int] == ']');
            assert(line[n1] == '[');
            assert(line.subrange(n1 + 1, n1 + 1 + p.len() as int) =~= p);
            assert(line[n1 + 1 + p.len() as int] == ']');
            assert(forall|k: int| n2 <= k < line.len() ==> line[k] == l.text[k - n2]);
            lemma_scan_segment(line, 0, ts, Seq::empty());
            lemma_scan_segment(line, n1, p, Seq::empty().push(ts));
            lemma_scan_tail(line, n2, Seq::empty(), Seq::empty().push(ts).push(p));
            let segs = Seq::<Seq<char>>::empty().push(ts).push(p);
            assert(spec_extract_brackets(line) == Ok::<Seq<Seq<char>>, ParseErrorKind>(segs));
            // the first segment is the timestamp
            lemma_timestamp_round_trip(l.timestamp);
            assert(segs[0] == ts);
            assert(spec_parse_timestamp(segs[0]) == Some(l.timestamp));
            // the second is the part: neither a tag nor a decimal
            assert(segs[1] == p);
            // the text starts after the last closing bracket
            lemma_text_segment(line, 0, ts, 0);
            lemma_text_segment(line, n1, p, n1);
            lemma_text_tail(line, n2, n2);
            assert(spec_text_start_from(line, 0, 0, 0) == n2);
            assert(line.subrange(n2, line.len() as int) =~= l.text);
            assert(spec_text_after_brackets(line) == l.text);
            assert(spec_parse_lyric_line(d, l.timestamp, segs, line) == (DocV {
                lines: d.lines.push(LineV { timestamp: l.timestamp, text: l.text, part_id: Some(p) }),
                ..d
            }));
            assert(LineV { timestamp: l.timestamp, text: l.text, part_id: Some(p) } == l);
            // the whole line is already trimmed
            assert(spec_trim_start(line) == line);
            assert(spec_trim_end(line) == line) by {
                if l.text.len() > 0 {
                    lemma_trim_fixed(l.text);
                    assert(line.last() == l.text.last());
                } else {
                    assert(line.last() == ']');
                }
            }
        },
        None => {
            assert(full =~= seq!['['] + ts + seq![']'] + Seq::<char>::empty() + l.text
                + seq!['\n']);
            assert(line =~= seq!['['] + ts + seq![']'] + l.text);
            assert(full =~= line + seq!['\n']);
            assert(spec_find(line, '\n') < 0) by {
                assert forall|k: int| 0 <= k < line.len() implies line[k] != '\n' by {
                    if 1 <= k < 1 + ts.len() {
                        assert(line[k] == ts[k - 1]);
                    } else if k >= ts.len() + 2 {
                        assert(line[k] == l.text[k - ts.len() - 2]);
                    }
                }
                crate::scan::lemma_find_none(line, '\n');
            }
            let n1 = ts.len() as int + 2;
            assert(line[0] == '[');
            assert(line.subrange(1, 1 + ts.len() as int) =~= ts);
            assert(line[1 + ts.len() as int] == ']');
            assert(forall|k: int| n1 <= k < line.len() ==> line[k] == l.text[k - n1]);
            lemma_scan_segment(line, 0, ts, Seq::empty());
            lemma_scan_tail(line, n1, Seq::empty(), Seq::empty().push(ts));
            let segs = Seq::<Seq<char>>::empty().push(ts);
            assert(spec_extract_brackets(line) == Ok::<Seq<Seq<char>>, ParseErrorKind>(segs));
            lemma_timestamp_round_trip(l.timestamp);
            assert(segs[0] == ts);
            assert(spec_parse_timestamp(segs[0]) == Some(l.timestamp));
            lemma_text_segment(line, 0, ts, 0);
            lemma_text_tail(line, n1, n1);
            assert(spec_text_start_from(line, 0, 0, 0) == n1);
            assert(line.subrange(n1, line.len() as int) =~= l.text);
            assert(spec_text_after_brackets(line) == l.text);
            assert(spec_parse_lyric_line(d, l.timestamp, segs, line) == (DocV {
                lines: d.lines.push(LineV { timestamp: l.timestamp, text: l.text, part_id: None }),
                ..d
            }));
            assert(LineV { timestamp: l.timestamp, text: l.text, part_id: None } == l);
            assert(spec_trim_start(line) == line);
            assert(spec_trim_end(line) == line) by {
                if l.text.len() > 0 {
                    lemma_trim_fixed(l.text);
                    assert(line.last() == l.text.last());
                } else {
                    assert(line.last() == ']');
                }
            }
        },
    }
}

/// One serialized metadata tag line parses back to exactly the insertion
/// it came from: for a free-form key, the pair is stored again. The key
/// must be free of brackets, colons and dots and not read as a timestamp,
/// and must not be one of the two color tag names; the value must be free
/// of brackets; the line must carry no surrounding whitespace, which holds
/// whenever the key does not start blank and the value does not end blank.
pub proof fn lemma_meta_line_round_trip(d: DocV, key: Seq<char>, value: Seq<char>)
    requires
        bracket_free(key),
        bracket_free(value),
        spec_find(key, ':') < 0,
        spec_find(key, '.') < 0,
        key != "color"@,
        key != "background_color"@,
        spec_parse_timestamp(key + seq![':'] + value) is None,
        key.len() > 0 ==> !is_space(key[0]),
        value.len() > 0 ==> !is_space(value.last()),
    ensures
        spec_parse_line(d, seq!['['] + key + seq![':'] + value + seq![']'])
            == Ok::<DocV, ParseErrorKind>(
            DocV { metadata: spec_meta_upsert(d.metadata, key, value), ..d },
        ),
        spec_trim(seq!['['] + key + seq![':'] + value + seq![']'])
            == seq!['['] + key + seq![':'] + value + seq![']'],
{
    let seg = key + seq![':'] + value;
    let line = seq!['['] + key + seq![':'] + value + seq![']'];
    assert(line =~= seq!['['] + seg + seq![']']);
    assert(line[0] == '[');
    assert(line.subrange(1, 1 + seg.len() as int) =~= seg);
    assert(line[1 + seg.len() as int] == ']');
    assert(bracket_free(seg)) by {
        assert(forall|k: int| 0 <= k < key.len() ==> seg[k] == key[k]);
        assert(seg[key.len() as int] == ':');
        assert(forall|k: int| 0 <= k < value.len() ==> seg[key.len() + 1 + k] == value[k]);
    }
    lemma_scan_segment(line, 0, seg, Seq::empty());
    lemma_scan_tail(line, seg.len() as int + 2, Seq::empty(), Seq::empty().push(seg));
    let segs = Seq::<Seq<char>>::empty().push(seg);
    assert(spec_extract_brackets(line) == Ok::<Seq<Seq<char>>, ParseErrorKind>(segs));
    assert(segs[0] == seg);
    // the segment splits at its first colon into the key and the value
    crate::scan::lemma_spec_find(key, ':');
    assert(seg[key.len() as int] == ':');
    assert forall|j: int| 0 <= j < key.len() implies seg[j] != ':' by {
        assert(seg[j] == key[j]);
    }
    lemma_find_is(seg, ':', key.len() as int);
    assert(seg.subrange(0, key.len() as int) =~= key);
    assert(seg.subrange(key.len() as int + 1, seg.len() as int) =~= value);
    // the line is already trimmed
    assert(spec_trim_start(line) == line);
    assert(spec_trim_end(line) == line);
    assert(spec_parse_tag(d, seg) == Ok::<DocV, ParseErrorKind>(
        DocV { metadata: spec_meta_upsert(d.metadata, key, value), ..d },
    ));
}

/// Joining two bracket-free strings with a plain separator stays
/// bracket-free.
proof fn lemma_bracket_free_join(a: Seq<char>, sep: char, b: Seq<char>)
    requires
        bracket_free(a),
        bracket_free(b),
        sep != '[' && sep != ']' && sep != '\n',
    ensures
        bracket_free(a + seq![sep] + b),
{
    let s = a + seq![sep] + b;
    assert forall|k: int| 0 <= k < s.len() implies s[k] != '[' && s[k] != ']' && s[k] != '\n' by {
        if k < a.len() {
            assert(s[k] == a[k]);
        } else if k == a.len() {
            assert(s[k] == sep);
        } else {
            assert(s[k] == b[k - a.len() - 1]);
        }
    }
}

/// Joining around a separator that the left side lacks splits back at the
/// first occurrence of that separator.
proof fn lemma_split_first(a: Seq<char>, sep: char, b: Seq<char>)
    requires
        spec_find(a, sep) < 0,
    ensures
        spec_find(a + seq![sep] + b, sep) == a.len(),
        (a + seq![sep] + b).subrange(0, a.len() as int) == a,
        (a + seq![sep] + b).subrange(a.len() as int + 1, (a + seq![sep] + b).len() as int) == b,
{
    let s = a + seq![sep] + b;
    crate::scan::lemma_spec_find(a, sep);
    assert(s[a.len() as int] == sep);
    assert forall|j: int| 0 <= j < a.len() implies s[j] != sep by {
        assert(s[j] == a[j]);
    }
    lemma_find_is(s, sep, a.len() as int);
    assert(s.subrange(0, a.len() as int) =~= a);
    assert(s.subrange(a.len() as int + 1, s.len() as int) =~= b);
}

/// The two category names are plain lower-case words.
proof fn lemma_cat_chars(cat: Seq<char>)
    requires
        cat == "track"@ || cat == "part"@,
    ensures
        bracket_free(cat),
        spec_find(cat, ':') < 0,
        spec_find(cat, '.') < 0,
        cat.len() > 0,
        !crate::numfmt::is_dec_digit(cat[0]),
{
    reveal_strlit("track");
    reveal_strlit("part");
    assert forall|k: int| 0 <= k < cat.len() implies cat[k] != '[' && cat[k] != ']' && cat[k]
        != '\n' && cat[k] != ':' && cat[k] != '.' by {}
    crate::scan::lemma_find_none(cat, ':');
    crate::scan::lemma_find_none(cat, '.');
}

/// One serialized dotted tag line parses back to exactly the property
/// application it came from: `[track.id:prop=val]` applies the track
/// property, `[part.id:prop=val]` the part property. The id must be free
/// of brackets and colons, the property name free of brackets, colons and
/// equals signs, and the value free of brackets.
#[verifier::rlimit(100)]
pub proof fn lemma_dotted_line_round_trip(
    d: DocV,
    cat: Seq<char>,
    id: Seq<char>,
    prop: Seq<char>,
    val: Seq<char>,
)
    requires
        cat == "track"@ || cat == "part"@,
        bracket_free(id),
        spec_find(id, ':') < 0,
        bracket_free(prop),
        spec_find(prop, ':') < 0,
        spec_find(prop, '=') < 0,
        prop.len() > 0,
        bracket_free(val),
        val.len() > 0 ==> !is_space(val.last()),
    ensures
        ({
            let line = seq!['['] + cat + seq!['.'] + id + seq![':'] + prop + seq!['='] + val
                + seq![']'];
            &&& spec_parse_line(d, line) == (if cat == "track"@ {
                spec_track_prop(d, id, prop, val)
            } else {
                spec_part_prop(d, id, prop, val)
            })
            &&& spec_trim(line) == line
        }),
{
    lemma_cat_chars(cat);
    let key = cat + seq!['.'] + id;
    let value = prop + seq!['='] + val;
    let seg = key + seq![':'] + value;
    let line = seq!['['] + cat + seq!['.'] + id + seq![':'] + prop + seq!['='] + val + seq![']'];
    assert(line =~= seq!['['] + seg + seq![']']);
    lemma_bracket_free_join(cat, '.', id);
    lemma_bracket_free_join(prop, '=', val);
    lemma_bracket_free_join(key, ':', value);
    // the first dot splits the category from the id
    lemma_split_first(cat, '.', id);
    // the first colon splits the key from the value: neither the category,
    // the dot, nor the id holds a colon
    assert(spec_find(key, ':') < 0) by {
        crate::scan::lemma_spec_find(cat, ':');
        crate::scan::lemma_spec_find(id, ':');
        assert forall|j: int| 0 <= j < key.len() implies key[j] != ':' by {
            if j < cat.len() {
                assert(key[j] == cat[j]);
            } else if j == cat.len() {
                assert(key[j] == '.');
            } else {
                assert(key[j] == id[j - cat.len() - 1]);
            }
        }
        crate::scan::lemma_find_none(key, ':');
    }
    lemma_split_first(key, ':', value);
    // the first equals sign splits the property from its value
    lemma_split_first(prop, '=', val);
    // the single segment comes back from the bracket scan
    assert(line[0] == '[');
    assert(line.subrange(1, 1 + seg.len() as int) =~= seg);
    assert(line[1 + seg.len() as int] == ']');
    lemma_scan_segment(line, 0, seg, Seq::empty());
    lemma_scan_tail(line, seg.len() as int + 2, Seq::empty(), Seq::empty().push(seg));
    let segs = Seq::<Seq<char>>::empty().push(seg);
    assert(spec_extract_brackets(line) == Ok::<Seq<Seq<char>>, ParseErrorKind>(segs));
    assert(segs[0] == seg);
    // the key is no timestamp: its first character is no digit
    assert(spec_parse_timestamp(seg) is None) by {
        assert(seg.subrange(0, key.len() as int) == key);
        assert(key[0] == cat[0]);
        assert(!crate::numfmt::all_dec_digits(key));
        assert(crate::numfmt::spec_parse_u64(key) is None);
    }
    assert(spec_parse_line(d, line) == spec_parse_dot(d, key, value));
    // the line is already trimmed
    assert(spec_trim_start(line) == line);
    assert(spec_trim_end(line) == line);
}

/// Splitting at newlines takes one line at a time off the front.
pub proof fn lemma_lines_split(x: Seq<char>, rest: Seq<char>)
    requires
        spec_find(x, '\n') < 0,
    ensures
        spec_lines(x + seq!['\n'] + rest) == seq![x] + spec_lines(rest),
{
    let s = x + seq!['\n'] + rest;
    lemma_split_first(x, '\n', rest);
    assert(spec_find(s, '\n') == x.len());
    assert(s.subrange(0, x.len() as int) == x);
    assert(s.subrange(x.len() as int + 1, s.len() as int) == rest);
}

/// A string with no newline is one line.
pub proof fn lemma_lines_single(x: Seq<char>)
    requires
        spec_find(x, '\n') < 0,
    ensures
        spec_lines(x) == seq![x],
{
    crate::scan::lemma_spec_find(x, '\n');
}

/// Folding over concatenated line lists composes: the second list picks up
/// where the first stopped, lines renumbered accordingly.
pub proof fn lemma_parse_lines_concat(d: DocV, ls1: Seq<Seq<char>>, ls2: Seq<Seq<char>>, no: int)
    ensures
        spec_parse_lines(d, ls1 + ls2, no) == (match spec_parse_lines(d, ls1, no) {
            Ok(d2) => spec_parse_lines(d2, ls2, no + ls1.len()),
            Err(e) => Err(e),
        }),
    decreases ls1.len(),
{
    let ls = ls1 + ls2;
    if ls1.len() == 0 {
        assert(ls =~= ls2);
    } else {
        assert(ls[0] == ls1[0]);
        assert(ls.len() > 0);
        let tl = spec_trim(ls[0]);
        match spec_parse_line(d, tl) {
            Ok(d2) => {
                lemma_parse_lines_concat(d2, ls1.subrange(1, ls1.len() as int), ls2, no + 1);
                assert(ls.subrange(1, ls.len() as int) =~= ls1.subrange(1, ls1.len() as int)
                    + ls2);
            },
            Err(_) => {},
        }
    }
}

/// What a lyric line must satisfy to survive the trip through its text
/// form: text and part free of brackets and line breaks, the text already
/// trimmed, and the part neither a tag nor a decimal.
pub open spec fn line_serializable(l: LineV) -> bool {
    &&& bracket_free(l.text)
    &&& spec_trim(l.text) == l.text
    &&& match l.part_id {
        Some(p) => bracket_free(p) && spec_find(p, ':') < 0 && spec_find(p, '.') < 0,
        None => true,
    }
}

/// The serializer emits the lines front to back.
proof fn lemma_ser_lines_front(ls: Seq<LineV>)
    requires
        ls.len() > 0,
    ensures
        crate::serialize::spec_ser_lines(ls) == spec_ser_line(ls[0])
            + crate::serialize::spec_ser_lines(ls.subrange(1, ls.len() as int)),
    decreases ls.len(),
{
    let rest = ls.subrange(1, ls.len() as int);
    if ls.len() == 1 {
        assert(ls.drop_last() =~= Seq::<LineV>::empty());
        assert(rest =~= Seq::<LineV>::empty());
        assert(crate::serialize::spec_ser_lines(ls) =~= spec_ser_line(ls[0])
            + crate::serialize::spec_ser_lines(rest));
    } else {
        let dl = ls.drop_last();
        lemma_ser_lines_front(dl);
        assert(dl[0] == ls[0]);
        assert(rest.drop_last() =~= dl.subrange(1, dl.len() as int));
        assert(rest.last() == ls.last());
        assert(crate::serialize::spec_ser_lines(rest) == crate::serialize::spec_ser_lines(
            rest.drop_last(),
        ) + spec_ser_line(rest.last()));
        assert(crate::serialize::spec_ser_lines(ls) =~= spec_ser_line(ls[0])
            + crate::serialize::spec_ser_lines(rest));
    }
}

/// The whole serialized lyric block parses back to exactly the lines it
/// came from, appended in order.
pub proof fn lemma_lines_block_round_trip(d: DocV, ls: Seq<LineV>, no: int)
    requires
        forall|i: int| 0 <= i < ls.len() ==> line_serializable(#[trigger] ls[i]),
    ensures
        spec_parse_lines(d, spec_lines(crate::serialize::spec_ser_lines(ls)), no)
            == Ok::<DocV, ErrV>(DocV { lines: d.lines + ls, ..d }),
    decreases ls.len(),
{
    let block = crate::serialize::spec_ser_lines(ls);
    if ls.len() == 0 {
        assert(block =~= Seq::<char>::empty());
        crate::scan::lemma_spec_find(block, '\n');
        assert(spec_lines(block) == seq![block]);
        assert(seq![block][0] == block);
        assert(spec_trim(block) == block);
        assert(spec_parse_line(d, block) == Ok::<DocV, ParseErrorKind>(d));
        assert(seq![block].subrange(1, 1) =~= Seq::<Seq<char>>::empty());
        assert(spec_parse_lines(d, Seq::<Seq<char>>::empty(), no + 1) == Ok::<DocV, ErrV>(d));
        assert(d.lines + ls =~= d.lines);
        assert(DocV { lines: d.lines + ls, ..d } =~~= d);
    } else {
        let l0 = ls[0];
        let rest = ls.subrange(1, ls.len() as int);
        lemma_ser_lines_front(ls);
        assert(line_serializable(l0));
        lemma_lyric_line_round_trip(d, l0);
        let body = spec_ser_line(l0).drop_last();
        assert(block =~= body + seq!['\n'] + crate::serialize::spec_ser_lines(rest));
        lemma_lines_split(body, crate::serialize::spec_ser_lines(rest));
        let tail_lines = spec_lines(crate::serialize::spec_ser_lines(rest));
        assert(spec_lines(block) == seq![body] + tail_lines);
        let d2 = DocV { lines: d.lines.push(l0), ..d };
        lemma_parse_lines_concat(d, seq![body], tail_lines, no);
        assert(spec_parse_lines(d, seq![body], no) == Ok::<DocV, ErrV>(d2)) by {
            assert(seq![body][0] == body);
            assert(spec_trim(body) == body);
            assert(spec_parse_line(d, body) == Ok::<DocV, ParseErrorKind>(d2));
            assert(seq![body].subrange(1, 1) =~= Seq::<Seq<char>>::empty());
            assert(spec_parse_lines(d2, Seq::<Seq<char>>::empty(), no + 1) == Ok::<DocV, ErrV>(
                d2,
            ));
        }
        lemma_lines_block_round_trip(d2, rest, no + 1);
        assert(d2.lines + rest =~= d.lines + ls);
        assert(DocV { lines: d2.lines + rest, ..d2 } =~~= (DocV { lines: d.lines + ls, ..d }));
    }
}

/// What a metadata pair must satisfy to survive the trip through its tag
/// line: a plain key that reads neither as a dotted tag nor as a
/// timestamp, a bracket-free value, and, for the two color keys, a value
/// that parses as a color.
pub open spec fn meta_pair_serializable(kv: (Seq<char>, Seq<char>)) -> bool {
    &&& bracket_free(kv.0)
    &&& spec_find(kv.0, ':') < 0
    &&& spec_find(kv.0, '.') < 0
    &&& bracket_free(kv.1)
    &&& spec_parse_timestamp(kv.0 + seq![':'] + kv.1) is None
    &&& (kv.0.len() > 0 ==> !is_space(kv.0[0]))
    &&& (kv.1.len() > 0 ==> !is_space(kv.1.last()))
    &&& ((kv.0 == "color"@ || kv.0 == "background_color"@) ==> spec_parse_color(kv.1) is Some)
}

/// The tag line of one metadata pair, without its newline.
pub open spec fn meta_body(kv: (Seq<char>, Seq<char>)) -> Seq<char> {
    seq!['['] + kv.0 + seq![':'] + kv.1 + seq![']']
}

/// The tag lines of the metadata, front to back.
pub open spec fn meta_bodies(m: Seq<(Seq<char>, Seq<char>)>) -> Seq<Seq<char>>
    decreases m.len(),
{
    if m.len() == 0 {
        Seq::empty()
    } else {
        seq![meta_body(m[0])] + meta_bodies(m.subrange(1, m.len() as int))
    }
}

/// The serializer emits the metadata front to back.
proof fn lemma_ser_meta_front(m: Seq<(Seq<char>, Seq<char>)>)
    requires
        m.len() > 0,
    ensures
        spec_ser_meta(m) == spec_ser_meta_one(m[0]) + spec_ser_meta(m.subrange(1, m.len() as int)),
    decreases m.len(),
{
    let rest = m.subrange(1, m.len() as int);
    if m.len() == 1 {
        assert(m.drop_last() =~= Seq::<(Seq<char>, Seq<char>)>::empty());
        assert(rest =~= Seq::<(Seq<char>, Seq<char>)>::empty());
        assert(spec_ser_meta(m) =~= spec_ser_meta_one(m[0]) + spec_ser_meta(rest));
    } else {
        let dl = m.drop_last();
        lemma_ser_meta_front(dl);
        assert(dl[0] == m[0]);
        assert(rest.drop_last() =~= dl.subrange(1, dl.len() as int));
        assert(rest.last() == m.last());
        assert(spec_ser_meta(rest) == spec_ser_meta(rest.drop_last()) + spec_ser_meta_one(
            rest.last(),
        ));
        assert(spec_ser_meta(m) =~= spec_ser_meta_one(m[0]) + spec_ser_meta(rest));
    }
}

/// The serialized metadata splits into its tag lines, leaving the rest of
/// the input intact.
proof fn lemma_meta_block_split(m: Seq<(Seq<char>, Seq<char>)>, rest: Seq<char>)
    requires
        forall|i: int| 0 <= i < m.len() ==> meta_pair_serializable(#[trigger] m[i]),
    ensures
        spec_lines(spec_ser_meta(m) + rest) == meta_bodies(m) + spec_lines(rest),
    decreases m.len(),
{
    if m.len() == 0 {
        assert(spec_ser_meta(m) + rest =~= rest);
        assert(meta_bodies(m) + spec_lines(rest) =~= spec_lines(rest));
    } else {
        let kv = m[0];
        let tail = m.subrange(1, m.len() as int);
        lemma_ser_meta_front(m);
        let body = meta_body(kv);
        assert(spec_ser_meta_one(kv) =~= body + seq!['\n']);
        assert(spec_ser_meta(m) + rest =~= body + seq!['\n'] + (spec_ser_meta(tail) + rest));
        assert(spec_find(body, '\n') < 0) by {
            assert forall|k: int| 0 <= k < body.len() implies body[k] != '\n' by {
                if 1 <= k < 1 + kv.0.len() {
                    assert(body[k] == kv.0[k - 1]);
                } else if kv.0.len() + 2 <= k < body.len() - 1 {
                    assert(body[k] == kv.1[k - kv.0.len() - 2]);
                }
            }
            lemma_find_none(body, '\n');
        }
        lemma_lines_split(body, spec_ser_meta(tail) + rest);
        lemma_meta_block_split(tail, rest);
        assert(spec_lines(spec_ser_meta(m) + rest) =~= meta_bodies(m) + spec_lines(rest));
    }
}

/// A color tag line parses back to exactly the color override and the
/// stored pair it came from.
proof fn lemma_color_line_round_trip(d: DocV, key: Seq<char>, value: Seq<char>)
    requires
        key == "color"@ || key == "background_color"@,
        bracket_free(value),
        spec_parse_color(value) is Some,
        spec_parse_timestamp(key + seq![':'] + value) is None,
        value.len() > 0 ==> !is_space(value.last()),
    ensures
        spec_parse_line(d, meta_body((key, value))) == Ok::<DocV, ParseErrorKind>(
            if key == "color"@ {
                DocV {
                    color: spec_parse_color(value),
                    metadata: spec_meta_upsert(d.metadata, key, value),
                    ..d
                }
            } else {
                DocV {
                    background_color: spec_parse_color(value),
                    metadata: spec_meta_upsert(d.metadata, key, value),
                    ..d
                }
            },
        ),
        spec_trim(meta_body((key, value))) == meta_body((key, value)),
{
    reveal_strlit("color");
    reveal_strlit("background_color");
    assert(bracket_free(key) && spec_find(key, ':') < 0 && spec_find(key, '.') < 0 && key.len()
        > 0 && !is_space(key[0])) by {
        assert forall|k: int| 0 <= k < key.len() implies key[k] != '[' && key[k] != ']' && key[k]
            != '\n' && key[k] != ':' && key[k] != '.' by {}
        lemma_find_none(key, ':');
        lemma_find_none(key, '.');
    }
    let seg = key + seq![':'] + value;
    let line = meta_body((key, value));
    assert(line =~= seq!['['] + seg + seq![']']);
    lemma_bracket_free_join(key, ':', value);
    assert(line[0] == '[');
    assert(line.subrange(1, 1 + seg.len() as int) =~= seg);
    assert(line[1 + seg.len() as int] == ']');
    lemma_scan_segment(line, 0, seg, Seq::empty());
    lemma_scan_tail(line, seg.len() as int + 2, Seq::empty(), Seq::empty().push(seg));
    let segs = Seq::<Seq<char>>::empty().push(seg);
    assert(spec_extract_brackets(line) == Ok::<Seq<Seq<char>>, ParseErrorKind>(segs));
    assert(segs[0] == seg);
    lemma_split_first(key, ':', value);
    assert(spec_trim_start(line) == line);
    assert(spec_trim_end(line) == line);
}

/// The metadata color override: the value of the pair under the given
/// key, parsed, or the starting color when the key never occurs.
pub open spec fn color_override(
    m: Seq<(Seq<char>, Seq<char>)>,
    name: Seq<char>,
    dflt: Option<Rgb>,
) -> Option<Rgb>
    decreases m.len(),
{
    if m.len() == 0 {
        dflt
    } else {
        color_override(
            m.subrange(1, m.len() as int),
            name,
            if m[0].0 == name {
                spec_parse_color(m[0].1)
            } else {
                dflt
            },
        )
    }
}

/// Keys never seen stay keys never seen: inserting a fresh key appends.
proof fn lemma_upsert_fresh(m: Seq<(Seq<char>, Seq<char>)>, key: Seq<char>, value: Seq<char>)
    requires
        forall|j: int| 0 <= j < m.len() ==> m[j].0 != key,
    ensures
        spec_meta_upsert(m, key, value) == m.push((key, value)),
{
    lemma_meta_idx(m, key);
}

/// The whole serialized metadata block parses back to exactly the pairs
/// it came from, appended in order, with the two color tags applied.
pub proof fn lemma_meta_block_round_trip(d: DocV, m: Seq<(Seq<char>, Seq<char>)>, no: int)
    requires
        forall|i: int| 0 <= i < m.len() ==> meta_pair_serializable(#[trigger] m[i]),
        forall|i: int, j: int|
            #![trigger m[i], d.metadata[j]]
            0 <= i < m.len() && 0 <= j < d.metadata.len() ==> m[i].0 != d.metadata[j].0,
        forall|i: int, j: int| 0 <= i < j < m.len() ==> m[i].0 != m[j].0,
    ensures
        spec_parse_lines(d, meta_bodies(m), no) == Ok::<DocV, ErrV>(
            DocV {
                metadata: d.metadata + m,
                color: color_override(m, "color"@, d.color),
                background_color: color_override(m, "background_color"@, d.background_color),
                ..d
            },
        ),
    decreases m.len(),
{
    reveal_strlit("color");
    reveal_strlit("background_color");
    if m.len() == 0 {
        assert(meta_bodies(m) =~= Seq::<Seq<char>>::empty());
        assert(d.metadata + m =~= d.metadata);
        assert(DocV {
            metadata: d.metadata + m,
            color: d.color,
            background_color: d.background_color,
            ..d
        } =~~= d);
    } else {
        let kv = m[0];
        let tail = m.subrange(1, m.len() as int);
        assert(meta_pair_serializable(kv));
        // this line's action on the document
        let d2 = if kv.0 == "color"@ {
            DocV {
                color: spec_parse_color(kv.1),
                metadata: spec_meta_upsert(d.metadata, kv.0, kv.1),
                ..d
            }
        } else if kv.0 == "background_color"@ {
            DocV {
                background_color: spec_parse_color(kv.1),
                metadata: spec_meta_upsert(d.metadata, kv.0, kv.1),
                ..d
            }
        } else {
            DocV { metadata: spec_meta_upsert(d.metadata, kv.0, kv.1), ..d }
        };
        if kv.0 == "color"@ || kv.0 == "background_color"@ {
            lemma_color_line_round_trip(d, kv.0, kv.1);
        } else {
            lemma_meta_line_round_trip(d, kv.0, kv.1);
        }
        assert(spec_parse_line(d, meta_body(kv)) == Ok::<DocV, ParseErrorKind>(d2));
        assert(spec_trim(meta_body(kv)) == meta_body(kv));
        lemma_upsert_fresh(d.metadata, kv.0, kv.1);
        assert(d2.metadata == d.metadata.push(kv));
        // the rest of the block on the grown document
        assert(forall|i: int, j: int|
            #![trigger tail[i], d2.metadata[j]]
            0 <= i < tail.len() && 0 <= j < d2.metadata.len() ==> tail[i].0
                != d2.metadata[j].0) by {
            assert(forall|i: int| 0 <= i < tail.len() ==> tail[i] == m[i + 1]);
            assert(forall|j: int| 0 <= j < d.metadata.len() ==> d2.metadata[j] == d.metadata[j]);
            assert(d2.metadata[d.metadata.len() as int] == kv);
        }
        lemma_meta_block_round_trip(d2, tail, no + 1);
        assert(meta_bodies(m) == seq![meta_body(kv)] + meta_bodies(tail));
        lemma_parse_lines_concat(d, seq![meta_body(kv)], meta_bodies(tail), no);
        assert(spec_parse_lines(d, seq![meta_body(kv)], no) == Ok::<DocV, ErrV>(d2)) by {
            assert(seq![meta_body(kv)][0] == meta_body(kv));
            assert(seq![meta_body(kv)].subrange(1, 1) =~= Seq::<Seq<char>>::empty());
            assert(spec_parse_lines(d2, Seq::<Seq<char>>::empty(), no + 1) == Ok::<DocV, ErrV>(
                d2,
            ));
        }
        assert(d2.metadata + tail =~= d.metadata + m);
        // the color overrides thread through
        assert(color_override(m, "color"@, d.color) == color_override(
            tail,
            "color"@,
            d2.color,
        ));
        assert(color_override(m, "background_color"@, d.background_color) == color_override(
            tail,
            "background_color"@,
            d2.background_color,
        ));
        assert(DocV {
            metadata: d2.metadata + tail,
            color: color_override(tail, "color"@, d2.color),
            background_color: color_override(tail, "background_color"@, d2.background_color),
            ..d2
        } =~~= (DocV {
            metadata: d.metadata + m,
            color: color_override(m, "color"@, d.color),
            background_color: color_override(m, "background_color"@, d.background_color),
            ..d
        }));
    }
}

/// Every character of a formatted volume is a digit or the dot.
proof fn lemma_volume_chars(v: u32)
    ensures
        bracket_free(spec_format_volume(v)),
        spec_format_volume(v).len() > 0,
        !is_space(spec_format_volume(v).last()),
{
    let s = spec_format_volume(v);
    let ip = crate::numfmt::spec_dec_digits((v / 1000) as nat);
    crate::numfmt::lemma_dec_digits_are_digits((v / 1000) as nat);
    let fr = (v % 1000) as nat;
    assert forall|k: int| 0 <= k < s.len() implies crate::numfmt::is_dec_digit(s[k]) || s[k]
        == '.' by {
        if fr == 0 {
            assert(s[k] == ip[k]);
        } else {
            if k < ip.len() {
                assert(s[k] == ip[k]);
            } else if k == ip.len() {
                assert(s[k] == '.');
            }
        }
    }
    assert(crate::numfmt::is_dec_digit(s.last()) || s.last() == '.');
}

/// What a track must satisfy to survive the trip through its three tag
/// lines: id, name and source free of brackets, the id free of colons,
/// and name and source not ending blank.
pub open spec fn track_serializable(t: TrackV) -> bool {
    &&& bracket_free(t.id)
    &&& spec_find(t.id, ':') < 0
    &&& bracket_free(t.name)
    &&& (t.name.len() > 0 ==> !is_space(t.name.last()))
    &&& bracket_free(t.source)
    &&& (t.source.len() > 0 ==> !is_space(t.source.last()))
}

/// The three tag lines of one track, without their newlines.
pub open spec fn track_bodies(t: TrackV) -> Seq<Seq<char>> {
    seq![
        seq!['['] + "track"@ + seq!['.'] + t.id + seq![':'] + "name"@ + seq!['='] + t.name
            + seq![']'],
        seq!['['] + "track"@ + seq!['.'] + t.id + seq![':'] + "source"@ + seq!['='] + t.source
            + seq![']'],
        seq!['['] + "track"@ + seq!['.'] + t.id + seq![':'] + "volume"@ + seq!['=']
            + spec_format_volume(t.volume) + seq![']'],
    ]
}

/// The tag lines of all tracks, front to back.
pub open spec fn tracks_bodies(ts: Seq<TrackV>) -> Seq<Seq<char>>
    decreases ts.len(),
{
    if ts.len() == 0 {
        Seq::empty()
    } else {
        track_bodies(ts[0]) + tracks_bodies(ts.subrange(1, ts.len() as int))
    }
}

/// The serializer emits the tracks front to back.
proof fn lemma_ser_tracks_front(ts: Seq<TrackV>)
    requires
        ts.len() > 0,
    ensures
        spec_ser_tracks(ts) == spec_ser_track(ts[0]) + spec_ser_tracks(
            ts.subrange(1, ts.len() as int),
        ),
    decreases ts.len(),
{
    let rest = ts.subrange(1, ts.len() as int);
    if ts.len() == 1 {
        assert(ts.drop_last() =~= Seq::<TrackV>::empty());
        assert(rest =~= Seq::<TrackV>::empty());
        assert(spec_ser_tracks(ts) =~= spec_ser_track(ts[0]) + spec_ser_tracks(rest));
    } else {
        let dl = ts.drop_last();
        lemma_ser_tracks_front(dl);
        assert(dl[0] == ts[0]);
        assert(rest.drop_last() =~= dl.subrange(1, dl.len() as int));
        assert(rest.last() == ts.last());
        assert(spec_ser_tracks(rest) == spec_ser_tracks(rest.drop_last()) + spec_ser_track(
            rest.last(),
        ));
        assert(spec_ser_tracks(ts) =~= spec_ser_track(ts[0]) + spec_ser_tracks(rest));
    }
}

/// One serialized track splits into its three tag lines.
#[verifier::rlimit(100)]
proof fn lemma_track_split(t: TrackV, rest: Seq<char>)
    requires
        track_serializable(t),
    ensures
        spec_lines(spec_ser_track(t) + rest) == track_bodies(t) + spec_lines(rest),
{
    reveal_strlit("track");
    reveal_strlit("[track.");
    reveal_strlit("name");
    reveal_strlit("source");
    reveal_strlit("volume");
    reveal_strlit(":name=");
    reveal_strlit(":source=");
    reveal_strlit(":volume=");
    reveal_strlit("]\n");
    lemma_volume_chars(t.volume);
    let b0 = track_bodies(t)[0];
    let b1 = track_bodies(t)[1];
    let b2 = track_bodies(t)[2];
    assert("[track."@ =~= seq!['['] + "track"@ + seq!['.']);
    assert(":name="@ =~= seq![':'] + "name"@ + seq!['=']);
    assert(":source="@ =~= seq![':'] + "source"@ + seq!['=']);
    assert(":volume="@ =~= seq![':'] + "volume"@ + seq!['=']);
    assert("]\n"@ =~= seq![']', '\n']);
    assert(spec_ser_track(t) + rest =~= b0 + seq!['\n'] + (b1 + seq!['\n'] + (b2 + seq!['\n']
        + rest)));
    assert(spec_find(b0, '\n') < 0) by {
        lemma_body_newline_free(t.id, "name"@, t.name);
    }
    assert(spec_find(b1, '\n') < 0) by {
        lemma_body_newline_free(t.id, "source"@, t.source);
    }
    assert(spec_find(b2, '\n') < 0) by {
        lemma_body_newline_free(t.id, "volume"@, spec_format_volume(t.volume));
    }
    lemma_lines_split(b0, b1 + seq!['\n'] + (b2 + seq!['\n'] + rest));
    lemma_lines_split(b1, b2 + seq!['\n'] + rest);
    lemma_lines_split(b2, rest);
    assert(spec_lines(spec_ser_track(t) + rest) =~= track_bodies(t) + spec_lines(rest));
}

/// A dotted track or part tag line holds no newline.
proof fn lemma_body_newline_free(id: Seq<char>, prop: Seq<char>, val: Seq<char>)
    requires
        bracket_free(id),
        bracket_free(val),
        forall|k: int| 0 <= k < prop.len() ==> prop[k] != '\n',
    ensures
        spec_find(
            seq!['['] + "track"@ + seq!['.'] + id + seq![':'] + prop + seq!['='] + val + seq![']'],
            '\n',
        ) < 0,
        spec_find(
            seq!['['] + "part"@ + seq!['.'] + id + seq![':'] + prop + seq!['='] + val + seq![']'],
            '\n',
        ) < 0,
{
    reveal_strlit("track");
    reveal_strlit("part");
    let bt = seq!['['] + "track"@ + seq!['.'] + id + seq![':'] + prop + seq!['='] + val
        + seq![']'];
    let bp = seq!['['] + "part"@ + seq!['.'] + id + seq![':'] + prop + seq!['='] + val + seq![']'];
    assert forall|k: int| 0 <= k < bt.len() implies bt[k] != '\n' by {
        let c = 6int;
        if 1 <= k < c {
            assert(bt[k] == "track"@[k - 1]);
        } else if c + 1 <= k < c + 1 + id.len() {
            assert(bt[k] == id[k - c - 1]);
        } else if c + 2 + id.len() <= k < c + 2 + id.len() + prop.len() {
            assert(bt[k] == prop[k - c - 2 - id.len()]);
        } else if c + 3 + id.len() + prop.len() <= k < bt.len() - 1 {
            assert(bt[k] == val[k - c - 3 - id.len() - prop.len()]);
        }
    }
    lemma_find_none(bt, '\n');
    assert forall|k: int| 0 <= k < bp.len() implies bp[k] != '\n' by {
        let c = 5int;
        if 1 <= k < c {
            assert(bp[k] == "part"@[k - 1]);
        } else if c + 1 <= k < c + 1 + id.len() {
            assert(bp[k] == id[k - c - 1]);
        } else if c + 2 + id.len() <= k < c + 2 + id.len() + prop.len() {
            assert(bp[k] == prop[k - c - 2 - id.len()]);
        } else if c + 3 + id.len() + prop.len() <= k < bp.len() - 1 {
            assert(bp[k] == val[k - c - 3 - id.len() - prop.len()]);
        }
    }
    lemma_find_none(bp, '\n');
}

/// The three property names are plain lower-case words.
proof fn lemma_prop_chars(prop: Seq<char>)
    requires
        prop == "name"@ || prop == "source"@ || prop == "volume"@ || prop == "color"@ || prop
            == "background_color"@,
    ensures
        bracket_free(prop),
        spec_find(prop, ':') < 0,
        spec_find(prop, '=') < 0,
        prop.len() > 0,
    decreases prop.len(),
{
    reveal_strlit("name");
    reveal_strlit("source");
    reveal_strlit("volume");
    reveal_strlit("color");
    reveal_strlit("background_color");
    assert forall|k: int| 0 <= k < prop.len() implies prop[k] != '[' && prop[k] != ']' && prop[k]
        != '\n' && prop[k] != ':' && prop[k] != '=' by {}
    lemma_find_none(prop, ':');
    lemma_find_none(prop, '=');
}

/// The three tag lines of one track parse back to exactly that track,
/// appended with its id, name, source and volume.
proof fn lemma_track_lines_round_trip(d: DocV, t: TrackV, no: int)
    requires
        track_serializable(t),
        forall|j: int| 0 <= j < d.tracks.len() ==> #[trigger] d.tracks[j].id != t.id,
    ensures
        spec_parse_lines(d, track_bodies(t), no) == Ok::<DocV, ErrV>(
            DocV { tracks: d.tracks.push(t), ..d },
        ),
{
    reveal_strlit("track");
    reveal_strlit("part");
    reveal_strlit("name");
    reveal_strlit("source");
    reveal_strlit("volume");
    lemma_prop_chars("name"@);
    lemma_prop_chars("source"@);
    lemma_prop_chars("volume"@);
    lemma_volume_chars(t.volume);
    let n = d.tracks.len() as int;
    // first line: creates the track and names it
    lemma_dotted_line_round_trip(d, "track"@, t.id, "name"@, t.name);
    lemma_track_idx(d.tracks, t.id);
    let ta = d.tracks.push(default_track_v(t.id)).update(
        n,
        TrackV { name: t.name, ..default_track_v(t.id) },
    );
    let da = DocV { tracks: ta, ..d };
    assert(spec_track_prop(d, t.id, "name"@, t.name) == Ok::<DocV, ParseErrorKind>(da));
    // second line: sets the source on the created track
    lemma_dotted_line_round_trip(da, "track"@, t.id, "source"@, t.source);
    lemma_track_idx(ta, t.id);
    assert(spec_track_idx(ta, t.id) == n) by {
        assert(ta[n].id == t.id);
        assert(forall|j: int| 0 <= j < n ==> ta[j] == d.tracks[j]);
    }
    let tb = ta.update(n, TrackV { source: t.source, ..ta[n] });
    let db = DocV { tracks: tb, ..da };
    assert(spec_track_prop(da, t.id, "source"@, t.source) == Ok::<DocV, ParseErrorKind>(db));
    // third line: sets the volume
    lemma_dotted_line_round_trip(db, "track"@, t.id, "volume"@, spec_format_volume(t.volume));
    crate::serialize::lemma_volume_round_trip(t.volume);
    lemma_track_idx(tb, t.id);
    assert(spec_track_idx(tb, t.id) == n) by {
        assert(tb[n].id == t.id);
        assert(forall|j: int| 0 <= j < n ==> tb[j] == d.tracks[j]);
    }
    let tc = tb.update(n, TrackV { volume: t.volume, ..tb[n] });
    let dc = DocV { tracks: tc, ..db };
    assert(spec_track_prop(db, t.id, "volume"@, spec_format_volume(t.volume)) == Ok::<
        DocV,
        ParseErrorKind,
    >(dc));
    assert(tc =~= d.tracks.push(t)) by {
        assert(tc[n] =~~= t);
        assert(forall|j: int| 0 <= j < n ==> tc[j] == d.tracks[j]);
    }
    // fold the three lines
    let b0 = track_bodies(t)[0];
    let b1 = track_bodies(t)[1];
    let b2 = track_bodies(t)[2];
    assert(track_bodies(t) =~= seq![b0] + (seq![b1] + seq![b2]));
    lemma_parse_lines_concat(d, seq![b0], seq![b1] + seq![b2], no);
    assert(spec_parse_lines(d, seq![b0], no) == Ok::<DocV, ErrV>(da)) by {
        assert(seq![b0][0] == b0);
        assert(spec_trim(b0) == b0);
        assert(spec_parse_line(d, b0) == Ok::<DocV, ParseErrorKind>(da));
        assert(seq![b0].subrange(1, 1) =~= Seq::<Seq<char>>::empty());
        assert(spec_parse_lines(da, Seq::<Seq<char>>::empty(), no + 1) == Ok::<DocV, ErrV>(da));
    }
    lemma_parse_lines_concat(da, seq![b1], seq![b2], no + 1);
    assert(spec_parse_lines(da, seq![b1], no + 1) == Ok::<DocV, ErrV>(db)) by {
        assert(seq![b1][0] == b1);
        assert(spec_trim(b1) == b1);
        assert(spec_parse_line(da, b1) == Ok::<DocV, ParseErrorKind>(db));
        assert(seq![b1].subrange(1, 1) =~= Seq::<Seq<char>>::empty());
        assert(spec_parse_lines(db, Seq::<Seq<char>>::empty(), no + 2) == Ok::<DocV, ErrV>(db));
    }
    assert(spec_parse_lines(db, seq![b2], no + 2) == Ok::<DocV, ErrV>(dc)) by {
        assert(seq![b2][0] == b2);
        assert(spec_trim(b2) == b2);
        assert(spec_parse_line(db, b2) == Ok::<DocV, ParseErrorKind>(dc));
        assert(seq![b2].subrange(1, 1) =~= Seq::<Seq<char>>::empty());
        assert(spec_parse_lines(dc, Seq::<Seq<char>>::empty(), no + 3) == Ok::<DocV, ErrV>(dc));
    }
    assert(DocV { tracks: d.tracks.push(t), ..d } =~~= dc);
}

/// The whole serialized track block parses back to exactly the tracks it
/// came from, appended in order.
pub proof fn lemma_tracks_block_round_trip(d: DocV, ts: Seq<TrackV>, no: int)
    requires
        forall|i: int| 0 <= i < ts.len() ==> track_serializable(#[trigger] ts[i]),
        forall|i: int, j: int|
            #![trigger ts[i], d.tracks[j]]
            0 <= i < ts.len() && 0 <= j < d.tracks.len() ==> ts[i].id != d.tracks[j].id,
        forall|i: int, j: int| 0 <= i < j < ts.len() ==> ts[i].id != ts[j].id,
    ensures
        spec_parse_lines(d, tracks_bodies(ts), no) == Ok::<DocV, ErrV>(
            DocV { tracks: d.tracks + ts, ..d },
        ),
    decreases ts.len(),
{
    if ts.len() == 0 {
        assert(tracks_bodies(ts) =~= Seq::<Seq<char>>::empty());
        assert(d.tracks + ts =~= d.tracks);
        assert(DocV { tracks: d.tracks + ts, ..d } =~~= d);
    } else {
        let t0 = ts[0];
        let tail = ts.subrange(1, ts.len() as int);
        assert(track_serializable(t0));
        lemma_track_lines_round_trip(d, t0, no);
        let d2 = DocV { tracks: d.tracks.push(t0), ..d };
        assert(forall|i: int, j: int|
            #![trigger tail[i], d2.tracks[j]]
            0 <= i < tail.len() && 0 <= j < d2.tracks.len() ==> tail[i].id != d2.tracks[j].id)
            by {
            assert(forall|i: int| 0 <= i < tail.len() ==> tail[i] == ts[i + 1]);
            assert(forall|j: int| 0 <= j < d.tracks.len() ==> d2.tracks[j] == d.tracks[j]);
            assert(d2.tracks[d.tracks.len() as int] == t0);
        }
        lemma_tracks_block_round_trip(d2, tail, no + 3);
        assert(tracks_bodies(ts) == track_bodies(t0) + tracks_bodies(tail));
        lemma_parse_lines_concat(d, track_bodies(t0), tracks_bodies(tail), no);
        assert(d2.tracks + tail =~= d.tracks + ts);
        assert(DocV { tracks: d2.tracks + tail, ..d2 } =~~= (DocV { tracks: d.tracks + ts, ..d }));
    }
}

/// Every character of a formatted color is the hash sign or a digit.
proof fn lemma_color_text_chars(c: Rgb)
    ensures
        bracket_free(spec_format_color(c)),
        spec_format_color(c).len() > 0,
        !is_space(spec_format_color(c).last()),
{
    let s = spec_format_color(c);
    assert(s.len() == 7);
    assert forall|k: int| 0 <= k < s.len() implies s[k] == '#' || crate::color::is_hex_digit(
        s[k],
    ) by {}
}

/// What a part must satisfy to survive the trip through its tag lines:
/// id and name free of brackets, the id free of colons, and the name not
/// ending blank.
pub open spec fn part_serializable(p: PartV) -> bool {
    &&& bracket_free(p.id)
    &&& spec_find(p.id, ':') < 0
    &&& bracket_free(p.name)
    &&& (p.name.len() > 0 ==> !is_space(p.name.last()))
}

/// The tag lines of one part, without their newlines: name and color, and
/// the background color when the part has one.
pub open spec fn part_bodies(p: PartV) -> Seq<Seq<char>> {
    seq![
        seq!['['] + "part"@ + seq!['.'] + p.id + seq![':'] + "name"@ + seq!['='] + p.name
            + seq![']'],
        seq!['['] + "part"@ + seq!['.'] + p.id + seq![':'] + "color"@ + seq!['=']
            + spec_format_color(p.color) + seq![']'],
    ] + match p.background_color {
        Some(c) => seq![
            seq!['['] + "part"@ + seq!['.'] + p.id + seq![':'] + "background_color"@ + seq!['=']
                + spec_format_color(c) + seq![']'],
        ],
        None => Seq::<Seq<char>>::empty(),
    }
}

/// The tag lines of all parts, front to back.
pub open spec fn parts_bodies(ps: Seq<PartV>) -> Seq<Seq<char>>
    decreases ps.len(),
{
    if ps.len() == 0 {
        Seq::empty()
    } else {
        part_bodies(ps[0]) + parts_bodies(ps.subrange(1, ps.len() as int))
    }
}

/// The serializer emits the parts front to back.
proof fn lemma_ser_parts_front(ps: Seq<PartV>)
    requires
        ps.len() > 0,
    ensures
        spec_ser_parts(ps) == spec_ser_part(ps[0]) + spec_ser_parts(
            ps.subrange(1, ps.len() as int),
        ),
    decreases ps.len(),
{
    let rest = ps.subrange(1, ps.len() as int);
    if ps.len() == 1 {
        assert(ps.drop_last() =~= Seq::<PartV>::empty());
        assert(rest =~= Seq::<PartV>::empty());
        assert(spec_ser_parts(ps) =~= spec_ser_part(ps[0]) + spec_ser_parts(rest));
    } else {
        let dl = ps.drop_last();
        lemma_ser_parts_front(dl);
        assert(dl[0] == ps[0]);
        assert(rest.drop_last() =~= dl.subrange(1, dl.len() as int));
        assert(rest.last() == ps.last());
        assert(spec_ser_parts(rest) == spec_ser_parts(rest.drop_last()) + spec_ser_part(
            rest.last(),
        ));
        assert(spec_ser_parts(ps) =~= spec_ser_part(ps[0]) + spec_ser_parts(rest));
    }
}

/// One serialized part splits into its tag lines.
#[verifier::rlimit(100)]
proof fn lemma_part_split(p: PartV, rest: Seq<char>)
    requires
        part_serializable(p),
    ensures
        spec_lines(spec_ser_part(p) + rest) == part_bodies(p) + spec_lines(rest),
{
    reveal_strlit("part");
    reveal_strlit("[part.");
    reveal_strlit("name");
    reveal_strlit("color");
    reveal_strlit("background_color");
    reveal_strlit(":name=");
    reveal_strlit(":color=");
    reveal_strlit(":background_color=");
    reveal_strlit("]\n");
    lemma_color_text_chars(p.color);
    let b0 = part_bodies(p)[0];
    let b1 = part_bodies(p)[1];
    assert("[part."@ =~= seq!['['] + "part"@ + seq!['.']);
    assert(":name="@ =~= seq![':'] + "name"@ + seq!['=']);
    assert(":color="@ =~= seq![':'] + "color"@ + seq!['=']);
    assert(":background_color="@ =~= seq![':'] + "background_color"@ + seq!['=']);
    assert("]\n"@ =~= seq![']', '\n']);
    assert(spec_find(b0, '\n') < 0) by {
        lemma_body_newline_free(p.id, "name"@, p.name);
    }
    assert(spec_find(b1, '\n') < 0) by {
        lemma_body_newline_free(p.id, "color"@, spec_format_color(p.color));
    }
    match p.background_color {
        Some(c) => {
            lemma_color_text_chars(c);
            let b2 = part_bodies(p)[2];
            assert(spec_ser_part(p) + rest =~= b0 + seq!['\n'] + (b1 + seq!['\n'] + (b2
                + seq!['\n'] + rest)));
            assert(spec_find(b2, '\n') < 0) by {
                lemma_body_newline_free(p.id, "background_color"@, spec_format_color(c));
            }
            lemma_lines_split(b0, b1 + seq!['\n'] + (b2 + seq!['\n'] + rest));
            lemma_lines_split(b1, b2 + seq!['\n'] + rest);
            lemma_lines_split(b2, rest);
            assert(spec_lines(spec_ser_part(p) + rest) =~= part_bodies(p) + spec_lines(rest));
        },
        None => {
            assert(spec_ser_part(p) + rest =~= b0 + seq!['\n'] + (b1 + seq!['\n'] + rest));
            lemma_lines_split(b0, b1 + seq!['\n'] + rest);
            lemma_lines_split(b1, rest);
            assert(spec_lines(spec_ser_part(p) + rest) =~= part_bodies(p) + spec_lines(rest));
        },
    }
}

/// The tag lines of one part parse back to exactly that part.
#[verifier::rlimit(100)]
proof fn lemma_part_lines_round_trip(d: DocV, p: PartV, no: int)
    requires
        part_serializable(p),
        forall|j: int| 0 <= j < d.parts.len() ==> #[trigger] d.parts[j].id != p.id,
    ensures
        spec_parse_lines(d, part_bodies(p), no) == Ok::<DocV, ErrV>(
            DocV { parts: d.parts.push(p), ..d },
        ),
{
    reveal_strlit("track");
    reveal_strlit("part");
    reveal_strlit("name");
    reveal_strlit("color");
    reveal_strlit("background_color");
    lemma_prop_chars("name"@);
    lemma_prop_chars("color"@);
    lemma_prop_chars("background_color"@);
    lemma_color_text_chars(p.color);
    let n = d.parts.len() as int;
    // first line: creates the part and names it
    lemma_dotted_line_round_trip(d, "part"@, p.id, "name"@, p.name);
    lemma_part_idx(d.parts, p.id);
    let pa = d.parts.push(default_part_v(p.id)).update(
        n,
        PartV { name: p.name, ..default_part_v(p.id) },
    );
    let da = DocV { parts: pa, ..d };
    assert(spec_part_prop(d, p.id, "name"@, p.name) == Ok::<DocV, ParseErrorKind>(da));
    // second line: sets the foreground color
    lemma_dotted_line_round_trip(da, "part"@, p.id, "color"@, spec_format_color(p.color));
    lemma_color_round_trip(p.color);
    lemma_part_idx(pa, p.id);
    assert(spec_part_idx(pa, p.id) == n) by {
        assert(pa[n].id == p.id);
        assert(forall|j: int| 0 <= j < n ==> pa[j] == d.parts[j]);
    }
    let pb = pa.update(n, PartV { color: p.color, ..pa[n] });
    let db = DocV { parts: pb, ..da };
    assert(spec_part_prop(da, p.id, "color"@, spec_format_color(p.color)) == Ok::<
        DocV,
        ParseErrorKind,
    >(db));
    let b0 = part_bodies(p)[0];
    let b1 = part_bodies(p)[1];
    match p.background_color {
        Some(c) => {
            lemma_color_text_chars(c);
            lemma_dotted_line_round_trip(db, "part"@, p.id, "background_color"@,
                spec_format_color(c));
            lemma_color_round_trip(c);
            lemma_part_idx(pb, p.id);
            assert(spec_part_idx(pb, p.id) == n) by {
                assert(pb[n].id == p.id);
                assert(forall|j: int| 0 <= j < n ==> pb[j] == d.parts[j]);
            }
            let pc = pb.update(n, PartV { background_color: Some(c), ..pb[n] });
            let dc = DocV { parts: pc, ..db };
            assert(spec_part_prop(db, p.id, "background_color"@, spec_format_color(c)) == Ok::<
                DocV,
                ParseErrorKind,
            >(dc));
            assert(pc =~= d.parts.push(p)) by {
                assert(pc[n] =~~= p);
                assert(forall|j: int| 0 <= j < n ==> pc[j] == d.parts[j]);
            }
            let b2 = part_bodies(p)[2];
            assert(part_bodies(p) =~= seq![b0] + (seq![b1] + seq![b2]));
            lemma_parse_lines_concat(d, seq![b0], seq![b1] + seq![b2], no);
            assert(spec_parse_lines(d, seq![b0], no) == Ok::<DocV, ErrV>(da)) by {
                assert(seq![b0][0] == b0);
                assert(spec_trim(b0) == b0);
                assert(spec_parse_line(d, b0) == Ok::<DocV, ParseErrorKind>(da));
                assert(seq![b0].subrange(1, 1) =~= Seq::<Seq<char>>::empty());
                assert(spec_parse_lines(da, Seq::<Seq<char>>::empty(), no + 1) == Ok::<
                    DocV,
                    ErrV,
                >(da));
            }
            lemma_parse_lines_concat(da, seq![b1], seq![b2], no + 1);
            assert(spec_parse_lines(da, seq![b1], no + 1) == Ok::<DocV, ErrV>(db)) by {
                assert(seq![b1][0] == b1);
                assert(spec_trim(b1) == b1);
                assert(spec_parse_line(da, b1) == Ok::<DocV, ParseErrorKind>(db));
                assert(seq![b1].subrange(1, 1) =~= Seq::<Seq<char>>::empty());
                assert(spec_parse_lines(db, Seq::<Seq<char>>::empty(), no + 2) == Ok::<
                    DocV,
                    ErrV,
                >(db));
            }
            assert(spec_parse_lines(db, seq![b2], no + 2) == Ok::<DocV, ErrV>(dc)) by {
                assert(seq![b2][0] == b2);
                assert(spec_trim(b2) == b2);
                assert(spec_parse_line(db, b2) == Ok::<DocV, ParseErrorKind>(dc));
                assert(seq![b2].subrange(1, 1) =~= Seq::<Seq<char>>::empty());
                assert(spec_parse_lines(dc, Seq::<Seq<char>>::empty(), no + 3) == Ok::<
                    DocV,
                    ErrV,
                >(dc));
            }
            assert(DocV { parts: d.parts.push(p), ..d } =~~= dc);
        },
        None => {
            assert(pb =~= d.parts.push(p)) by {
                assert(pb[n] =~~= p);
                assert(forall|j: int| 0 <= j < n ==> pb[j] == d.parts[j]);
            }
            assert(part_bodies(p) =~= seq![b0] + seq![b1]);
            lemma_parse_lines_concat(d, seq![b0], seq![b1], no);
            assert(spec_parse_lines(d, seq![b0], no) == Ok::<DocV, ErrV>(da)) by {
                assert(seq![b0][0] == b0);
                assert(spec_trim(b0) == b0);
                assert(spec_parse_line(d, b0) == Ok::<DocV, ParseErrorKind>(da));
                assert(seq![b0].subrange(1, 1) =~= Seq::<Seq<char>>::empty());
                assert(spec_parse_lines(da, Seq::<Seq<char>>::empty(), no + 1) == Ok::<
                    DocV,
                    ErrV,
                >(da));
            }
            assert(spec_parse_lines(da, seq![b1], no + 1) == Ok::<DocV, ErrV>(db)) by {
                assert(seq![b1][0] == b1);
                assert(spec_trim(b1) == b1);
                assert(spec_parse_line(da, b1) == Ok::<DocV, ParseErrorKind>(db));
                assert(seq![b1].subrange(1, 1) =~= Seq::<Seq<char>>::empty());
                assert(spec_parse_lines(db, Seq::<Seq<char>>::empty(), no + 2) == Ok::<
                    DocV,
                    ErrV,
                >(db));
            }
            assert(DocV { parts: d.parts.push(p), ..d } =~~= db);
        },
    }
}

/// The whole serialized part block parses back to exactly the parts it
/// came from, appended in order.
pub proof fn lemma_parts_block_round_trip(d: DocV, ps: Seq<PartV>, no: int)
    requires
        forall|i: int| 0 <= i < ps.len() ==> part_serializable(#[trigger] ps[i]),
        forall|i: int, j: int|
            #![trigger ps[i], d.parts[j]]
            0 <= i < ps.len() && 0 <= j < d.parts.len() ==> ps[i].id != d.parts[j].id,
        forall|i: int, j: int| 0 <= i < j < ps.len() ==> ps[i].id != ps[j].id,
    ensures
        spec_parse_lines(d, parts_bodies(ps), no) == Ok::<DocV, ErrV>(
            DocV { parts: d.parts + ps, ..d },
        ),
    decreases ps.len(),
{
    if ps.len() == 0 {
        assert(parts_bodies(ps) =~= Seq::<Seq<char>>::empty());
        assert(d.parts + ps =~= d.parts);
        assert(DocV { parts: d.parts + ps, ..d } =~~= d);
    } else {
        let p0 = ps[0];
        let tail = ps.subrange(1, ps.len() as int);
        assert(part_serializable(p0));
        lemma_part_lines_round_trip(d, p0, no);
        let d2 = DocV { parts: d.parts.push(p0), ..d };
        assert(forall|i: int, j: int|
            #![trigger tail[i], d2.parts[j]]
            0 <= i < tail.len() && 0 <= j < d2.parts.len() ==> tail[i].id != d2.parts[j].id) by {
            assert(forall|i: int| 0 <= i < tail.len() ==> tail[i] == ps[i + 1]);
            assert(forall|j: int| 0 <= j < d.parts.len() ==> d2.parts[j] == d.parts[j]);
            assert(d2.parts[d.parts.len() as int] == p0);
        }
        lemma_parts_block_round_trip(d2, tail, no + part_bodies(p0).len() as int);
        assert(parts_bodies(ps) == part_bodies(p0) + parts_bodies(tail));
        lemma_parse_lines_concat(d, part_bodies(p0), parts_bodies(tail), no);
        assert(d2.parts + tail =~= d.parts + ps);
        assert(DocV { parts: d2.parts + tail, ..d2 } =~~= (DocV { parts: d.parts + ps, ..d }));
    }
}

/// The serialized track block splits into its tag lines, leaving the
/// rest of the input intact.
proof fn lemma_tracks_block_split(ts: Seq<TrackV>, rest: Seq<char>)
    requires
        forall|i: int| 0 <= i < ts.len() ==> track_serializable(#[trigger] ts[i]),
    ensures
        spec_lines(spec_ser_tracks(ts) + rest) == tracks_bodies(ts) + spec_lines(rest),
    decreases ts.len(),
{
    if ts.len() == 0 {
        assert(spec_ser_tracks(ts) + rest =~= rest);
        assert(tracks_bodies(ts) + spec_lines(rest) =~= spec_lines(rest));
    } else {
        let tail = ts.subrange(1, ts.len() as int);
        lemma_ser_tracks_front(ts);
        assert(spec_ser_tracks(ts) + rest =~= spec_ser_track(ts[0]) + (spec_ser_tracks(tail)
            + rest));
        lemma_track_split(ts[0], spec_ser_tracks(tail) + rest);
        lemma_tracks_block_split(tail, rest);
        assert(spec_lines(spec_ser_tracks(ts) + rest) =~= tracks_bodies(ts) + spec_lines(rest));
    }
}

/// The serialized part block splits into its tag lines, leaving the rest
/// of the input intact.
proof fn lemma_parts_block_split(ps: Seq<PartV>, rest: Seq<char>)
    requires
        forall|i: int| 0 <= i < ps.len() ==> part_serializable(#[trigger] ps[i]),
    ensures
        spec_lines(spec_ser_parts(ps) + rest) == parts_bodies(ps) + spec_lines(rest),
    decreases ps.len(),
{
    if ps.len() == 0 {
        assert(spec_ser_parts(ps) + rest =~= rest);
        assert(parts_bodies(ps) + spec_lines(rest) =~= spec_lines(rest));
    } else {
        let tail = ps.subrange(1, ps.len() as int);
        lemma_ser_parts_front(ps);
        assert(spec_ser_parts(ps) + rest =~= spec_ser_part(ps[0]) + (spec_ser_parts(tail)
            + rest));
        lemma_part_split(ps[0], spec_ser_parts(tail) + rest);
        lemma_parts_block_split(tail, rest);
        assert(spec_lines(spec_ser_parts(ps) + rest) =~= parts_bodies(ps) + spec_lines(rest));
    }
}

/// A lone blank line leaves the document alone.
proof fn lemma_parse_blank(d: DocV, no: int)
    ensures
        spec_parse_lines(d, seq![Seq::<char>::empty()], no) == Ok::<DocV, ErrV>(d),
{
    let e = Seq::<char>::empty();
    assert(seq![e][0] == e);
    assert(spec_trim(e) == e);
    assert(spec_parse_line(d, e) == Ok::<DocV, ParseErrorKind>(d));
    assert(seq![e].subrange(1, 1) =~= Seq::<Seq<char>>::empty());
    assert(spec_parse_lines(d, Seq::<Seq<char>>::empty(), no + 1) == Ok::<DocV, ErrV>(d));
}

/// What a whole document must satisfy to survive the round trip: every
/// piece serializable, keys and ids unique, the two color fields
/// consistent with their metadata tags, and the lines already sorted.
pub open spec fn doc_serializable(d: DocV) -> bool {
    &&& forall|i: int| 0 <= i < d.metadata.len() ==> meta_pair_serializable(#[trigger] d.metadata[i])
    &&& forall|i: int, j: int| 0 <= i < j < d.metadata.len() ==> d.metadata[i].0 != d.metadata[j].0
    &&& color_override(d.metadata, "color"@, None) == d.color
    &&& color_override(d.metadata, "background_color"@, None) == d.background_color
    &&& forall|i: int| 0 <= i < d.tracks.len() ==> track_serializable(#[trigger] d.tracks[i])
    &&& forall|i: int, j: int| 0 <= i < j < d.tracks.len() ==> d.tracks[i].id != d.tracks[j].id
    &&& forall|i: int| 0 <= i < d.parts.len() ==> part_serializable(#[trigger] d.parts[i])
    &&& forall|i: int, j: int| 0 <= i < j < d.parts.len() ==> d.parts[i].id != d.parts[j].id
    &&& forall|i: int| 0 <= i < d.lines.len() ==> line_serializable(#[trigger] d.lines[i])
    &&& lines_sorted_v(d.lines)
}

/// Parsing a serialized document yields that document again: the round
/// trip is the identity on every serializable document, even though the
/// bytes in between are not canonical for re-parsed inputs.
#[verifier::rlimit(100)]
pub proof fn lemma_doc_round_trip(d: DocV)
    requires
        doc_serializable(d),
    ensures
        spec_parse(spec_serialize(d)) == Ok::<DocV, ErrV>(d),
{
    let m = d.metadata;
    let ts = d.tracks;
    let ps = d.parts;
    let ls = d.lines;
    let sep_m: Seq<char> = if m.len() > 0 { seq!['\n'] } else { Seq::empty() };
    let sep_t: Seq<char> = if ts.len() > 0 { seq!['\n'] } else { Seq::empty() };
    let sep_p: Seq<char> = if ps.len() > 0 { seq!['\n'] } else { Seq::empty() };
    let text = spec_serialize(d);
    let rest1 = sep_m + (spec_ser_tracks(ts) + (sep_t + (spec_ser_parts(ps) + (sep_p
        + spec_ser_lines(ls)))));
    assert(text =~= spec_ser_meta(m) + rest1);
    // split the text into the blocks' lines
    lemma_meta_block_split(m, rest1);
    let rest2 = spec_ser_tracks(ts) + (sep_t + (spec_ser_parts(ps) + (sep_p + spec_ser_lines(
        ls,
    ))));
    let sep_m_lines: Seq<Seq<char>> = if m.len() > 0 { seq![Seq::<char>::empty()] } else {
        Seq::empty()
    };
    assert(spec_lines(rest1) == sep_m_lines + spec_lines(rest2)) by {
        if m.len() > 0 {
            assert(rest1 =~= Seq::<char>::empty() + seq!['\n'] + rest2);
            lemma_lines_split(Seq::<char>::empty(), rest2);
        } else {
            assert(rest1 =~= rest2);
            assert(sep_m_lines + spec_lines(rest2) =~= spec_lines(rest2));
        }
    }
    lemma_tracks_block_split(ts, sep_t + (spec_ser_parts(ps) + (sep_p + spec_ser_lines(ls))));
    let rest3 = spec_ser_parts(ps) + (sep_p + spec_ser_lines(ls));
    let sep_t_lines: Seq<Seq<char>> = if ts.len() > 0 { seq![Seq::<char>::empty()] } else {
        Seq::empty()
    };
    assert(spec_lines(sep_t + rest3) == sep_t_lines + spec_lines(rest3)) by {
        if ts.len() > 0 {
            assert(sep_t + rest3 =~= Seq::<char>::empty() + seq!['\n'] + rest3);
            lemma_lines_split(Seq::<char>::empty(), rest3);
        } else {
            assert(sep_t + rest3 =~= rest3);
            assert(sep_t_lines + spec_lines(rest3) =~= spec_lines(rest3));
        }
    }
    lemma_parts_block_split(ps, sep_p + spec_ser_lines(ls));
    let rest4 = spec_ser_lines(ls);
    let sep_p_lines: Seq<Seq<char>> = if ps.len() > 0 { seq![Seq::<char>::empty()] } else {
        Seq::empty()
    };
    assert(spec_lines(sep_p + rest4) == sep_p_lines + spec_lines(rest4)) by {
        if ps.len() > 0 {
            assert(sep_p + rest4 =~= Seq::<char>::empty() + seq!['\n'] + rest4);
            lemma_lines_split(Seq::<char>::empty(), rest4);
        } else {
            assert(sep_p + rest4 =~= rest4);
            assert(sep_p_lines + spec_lines(rest4) =~= spec_lines(rest4));
        }
    }
    let all = meta_bodies(m) + (sep_m_lines + (tracks_bodies(ts) + (sep_t_lines + (parts_bodies(
        ps,
    ) + (sep_p_lines + spec_lines(rest4))))));
    assert(spec_lines(text) =~= all);
    // fold the blocks over the empty document
    let d0 = empty_doc_v();
    let d1 = DocV {
        metadata: d0.metadata + m,
        color: color_override(m, "color"@, d0.color),
        background_color: color_override(m, "background_color"@, d0.background_color),
        ..d0
    };
    lemma_meta_block_round_trip(d0, m, 1);
    let no1 = 1 + m.len() as int;
    lemma_parse_lines_concat(
        d0,
        meta_bodies(m),
        sep_m_lines + (tracks_bodies(ts) + (sep_t_lines + (parts_bodies(ps) + (sep_p_lines
            + spec_lines(rest4))))),
        1,
    );
    assert(meta_bodies(m).len() == m.len()) by {
        lemma_meta_bodies_len(m);
    }
    let no2 = no1 + sep_m_lines.len() as int;
    assert(spec_parse_lines(d1, sep_m_lines, no1) == Ok::<DocV, ErrV>(d1)) by {
        if m.len() > 0 {
            lemma_parse_blank(d1, no1);
        }
    }
    lemma_parse_lines_concat(
        d1,
        sep_m_lines,
        tracks_bodies(ts) + (sep_t_lines + (parts_bodies(ps) + (sep_p_lines + spec_lines(
            rest4,
        )))),
        no1,
    );
    let d2 = DocV { tracks: d1.tracks + ts, ..d1 };
    lemma_tracks_block_round_trip(d1, ts, no2);
    assert(tracks_bodies(ts).len() == 3 * ts.len()) by {
        lemma_tracks_bodies_len(ts);
    }
    let no3 = no2 + tracks_bodies(ts).len() as int;
    lemma_parse_lines_concat(
        d1,
        tracks_bodies(ts),
        sep_t_lines + (parts_bodies(ps) + (sep_p_lines + spec_lines(rest4))),
        no2,
    );
    assert(spec_parse_lines(d2, sep_t_lines, no3) == Ok::<DocV, ErrV>(d2)) by {
        if ts.len() > 0 {
            lemma_parse_blank(d2, no3);
        }
    }
    let no4 = no3 + sep_t_lines.len() as int;
    lemma_parse_lines_concat(
        d2,
        sep_t_lines,
        parts_bodies(ps) + (sep_p_lines + spec_lines(rest4)),
        no3,
    );
    let d3 = DocV { parts: d2.parts + ps, ..d2 };
    lemma_parts_block_round_trip(d2, ps, no4);
    let no5 = no4 + parts_bodies(ps).len() as int;
    lemma_parse_lines_concat(d2, parts_bodies(ps), sep_p_lines + spec_lines(rest4), no4);
    assert(spec_parse_lines(d3, sep_p_lines, no5) == Ok::<DocV, ErrV>(d3)) by {
        if ps.len() > 0 {
            lemma_parse_blank(d3, no5);
        }
    }
    let no6 = no5 + sep_p_lines.len() as int;
    lemma_parse_lines_concat(d3, sep_p_lines, spec_lines(rest4), no5);
    let d4 = DocV { lines: d3.lines + ls, ..d3 };
    lemma_lines_block_round_trip(d3, ls, no6);
    assert(spec_parse_lines(d0, spec_lines(text), 1) == Ok::<DocV, ErrV>(d4));
    // the final sort leaves the already sorted lines in place
    lemma_sort_v_of_sorted(d4.lines);
    assert(d4.lines =~= ls);
    assert(DocV { lines: spec_stable_sort_v(d4.lines), ..d4 } =~~= d) by {
        assert(d4.metadata =~= m);
        assert(d4.tracks =~= ts);
        assert(d4.parts =~= ps);
    }
}

/// One tag line per metadata pair.
proof fn lemma_meta_bodies_len(m: Seq<(Seq<char>, Seq<char>)>)
    ensures
        meta_bodies(m).len() == m.len(),
    decreases m.len(),
{
    if m.len() > 0 {
        lemma_meta_bodies_len(m.subrange(1, m.len() as int));
    }
}

/// Three tag lines per track.
proof fn lemma_tracks_bodies_len(ts: Seq<TrackV>)
    ensures
        tracks_bodies(ts).len() == 3 * ts.len(),
    decreases ts.len(),
{
    if ts.len() > 0 {
        lemma_tracks_bodies_len(ts.subrange(1, ts.len() as int));
    }
}

} // verus!
