//! The LRX serializer: a document back into source text.
//!
//! Emits the metadata tags, the track triples, the part declarations and
//! the lyric lines, blocks separated by blank lines. Map order is the
//! association lists' insertion order; re-parsing the output yields a
//! semantically equal document, not necessarily the original bytes.

use vstd::prelude::*;
use crate::color::{Rgb, spec_format_color, format_color};
use crate::document::{LrxFile, Track, Part, LyricLine, DocV, TrackV, PartV, LineV};
use crate::numfmt::{
    spec_dec_digits, spec_pad2, dec_digit_char, dec_val, dec_value, all_dec_digits,
    is_dec_digit, format_u64, dec_digit_char_exec, lemma_dec_digits_are_digits,
    lemma_dec_digits_value, lemma_pad2_value, lemma_dec_value1, lemma_dec_value2,
};
use crate::parse::{spec_parse_volume, spec_frac3};
use crate::scan::{spec_find, lemma_find_is, lemma_find_none};
use crate::strutil::{chars_to_string, push_chars, push_str_chars};
use crate::timestamp::{spec_format_timestamp, format_timestamp_chars};

verus! {

/// Three digits, zero padded.
pub open spec fn spec_pad3(n: nat) -> Seq<char>
    recommends
        n < 1000,
{
    seq![
        dec_digit_char((n / 100) as int),
        dec_digit_char(((n / 10) % 10) as int),
        dec_digit_char((n % 10) as int),
    ]
}

/// The canonical text of a volume in thousandths: the whole part, then a
/// fraction only if there is one, without trailing zeros.
pub open spec fn spec_format_volume(v: u32) -> Seq<char> {
    let ip = spec_dec_digits((v / 1000) as nat);
    let fr = (v % 1000) as nat;
    if fr == 0 {
        ip
    } else if fr % 10 != 0 {
        ip + seq!['.'] + spec_pad3(fr)
    } else if fr % 100 != 0 {
        ip + seq!['.'] + spec_pad2(fr / 10)
    } else {
        ip + seq!['.', dec_digit_char((fr / 100) as int)]
    }
}

/// The three-digit padded form reads back as the number it came from.
pub proof fn lemma_pad3_value(n: nat)
    requires
        n < 1000,
    ensures
        all_dec_digits(spec_pad3(n)),
        dec_value(spec_pad3(n)) == n,
        spec_pad3(n).len() == 3,
{
    let s = spec_pad3(n);
    let c0 = dec_digit_char((n / 100) as int);
    let c1 = dec_digit_char(((n / 10) % 10) as int);
    let c2 = dec_digit_char((n % 10) as int);
    assert(s.drop_last() =~= seq![c0, c1]);
    lemma_dec_value2(c0, c1);
    assert(s.last() == c2);
    assert(dec_value(s) == (dec_val(c0) * 10 + dec_val(c1)) * 10 + dec_val(c2));
    assert(dec_val(c0) == n / 100 && dec_val(c1) == (n / 10) % 10 && dec_val(c2) == n % 10);
    assert((n / 100) * 100 + ((n / 10) % 10) * 10 + n % 10 == n) by (nonlinear_arith);
}

/// A formatted volume always parses back to the thousandths it came from.
pub proof fn lemma_volume_round_trip(v: u32)
    ensures
        spec_parse_volume(spec_format_volume(v)) == Some(v),
{
    let s = spec_format_volume(v);
    let ip = spec_dec_digits((v / 1000) as nat);
    let fr = (v % 1000) as nat;
    lemma_dec_digits_are_digits((v / 1000) as nat);
    lemma_dec_digits_value((v / 1000) as nat);
    if fr == 0 {
        assert(s == ip);
        assert forall|j: int| 0 <= j < s.len() implies s[j] != '.' by {
            assert(is_dec_digit(s[j]));
        }
        lemma_find_none(s, '.');
        assert(spec_find(s, '.') < 0);
        assert(dec_value(ip) * 1000 + spec_frac3(Seq::<char>::empty()) == v);
    } else {
        let fp = if fr % 10 != 0 {
            spec_pad3(fr)
        } else if fr % 100 != 0 {
            spec_pad2(fr / 10)
        } else {
            seq![dec_digit_char((fr / 100) as int)]
        };
        if fr % 10 != 0 {
            lemma_pad3_value(fr);
            assert(s =~= ip + seq!['.'] + fp);
        } else if fr % 100 != 0 {
            lemma_pad2_value(fr / 10);
            assert(s =~= ip + seq!['.'] + fp);
        } else {
            lemma_dec_value1(dec_digit_char((fr / 100) as int));
            assert(all_dec_digits(fp)) by {
                assert(fp[0] == dec_digit_char((fr / 100) as int));
            }
            assert(s =~= ip + seq!['.'] + fp);
        }
        let a = ip.len() as int;
        assert(s[a] == '.');
        assert forall|j: int| 0 <= j < a implies s[j] != '.' by {
            assert(s[j] == ip[j]);
            assert(is_dec_digit(ip[j]));
        }
        lemma_find_is(s, '.', a);
        assert(s.subrange(0, a) =~= ip);
        assert(s.subrange(a + 1, s.len() as int) =~= fp);
        assert(spec_frac3(fp) == fr) by {
            if fr % 10 != 0 {
                assert(fp.len() == 3);
            } else if fr % 100 != 0 {
                assert(fp.len() == 2);
                assert(dec_value(fp) == fr / 10);
                assert((fr / 10) * 10 == fr);
            } else {
                assert(fp.len() == 1);
                assert(dec_value(fp) == fr / 100);
                assert((fr / 100) * 100 == fr) by (nonlinear_arith)
                    requires
                        fr % 100 == 0 && fr < 1000,
                ;
            }
        }
        assert(dec_value(ip) * 1000 + spec_frac3(fp) == v);
    }
}

/// One metadata tag line.
pub open spec fn spec_ser_meta_one(kv: (Seq<char>, Seq<char>)) -> Seq<char> {
    seq!['['] + kv.0 + seq![':'] + kv.1 + seq![']', '\n']
}

/// All metadata tag lines, in stored order.
pub open spec fn spec_ser_meta(m: Seq<(Seq<char>, Seq<char>)>) -> Seq<char>
    decreases m.len(),
{
    if m.len() == 0 {
        Seq::empty()
    } else {
        spec_ser_meta(m.drop_last()) + spec_ser_meta_one(m.last())
    }
}

/// The three declaration lines of one track.
pub open spec fn spec_ser_track(t: TrackV) -> Seq<char> {
    "[track."@ + t.id + ":name="@ + t.name + "]\n"@ + "[track."@ + t.id + ":source="@ + t.source
        + "]\n"@ + "[track."@ + t.id + ":volume="@ + spec_format_volume(t.volume) + "]\n"@
}

/// All track declarations, in stored order.
pub open spec fn spec_ser_tracks(ts: Seq<TrackV>) -> Seq<char>
    decreases ts.len(),
{
    if ts.len() == 0 {
        Seq::empty()
    } else {
        spec_ser_tracks(ts.drop_last()) + spec_ser_track(ts.last())
    }
}

/// The declaration lines of one part: name, color, and the background
/// color when the part has one.
pub open spec fn spec_ser_part(p: PartV) -> Seq<char> {
    "[part."@ + p.id + ":name="@ + p.name + "]\n"@ + "[part."@ + p.id + ":color="@
        + spec_format_color(p.color) + "]\n"@ + match p.background_color {
        Some(c) => "[part."@ + p.id + ":background_color="@ + spec_format_color(c) + "]\n"@,
        None => Seq::<char>::empty(),
    }
}

/// All part declarations, in stored order.
pub open spec fn spec_ser_parts(ps: Seq<PartV>) -> Seq<char>
    decreases ps.len(),
{
    if ps.len() == 0 {
        Seq::empty()
    } else {
        spec_ser_parts(ps.drop_last()) + spec_ser_part(ps.last())
    }
}

/// One lyric line: the timestamp, the part segment when the line has one,
/// then the text.
pub open spec fn spec_ser_line(l: LineV) -> Seq<char> {
    seq!['['] + spec_format_timestamp(l.timestamp as nat) + seq![']'] + match l.part_id {
        Some(p) => seq!['['] + p + seq![']'],
        None => Seq::<char>::empty(),
    } + l.text + seq!['\n']
}

/// All lyric lines, in stored order.
pub open spec fn spec_ser_lines(ls: Seq<LineV>) -> Seq<char>
    decreases ls.len(),
{
    if ls.len() == 0 {
        Seq::empty()
    } else {
        spec_ser_lines(ls.drop_last()) + spec_ser_line(ls.last())
    }
}

/// The whole serialized document: metadata, tracks, parts, lyric lines,
/// non-empty blocks each followed by a blank line.
pub open spec fn spec_serialize(d: DocV) -> Seq<char> {
    spec_ser_meta(d.metadata) + (if d.metadata.len() > 0 {
        seq!['\n']
    } else {
        Seq::<char>::empty()
    }) + spec_ser_tracks(d.tracks) + (if d.tracks.len() > 0 {
        seq!['\n']
    } else {
        Seq::<char>::empty()
    }) + spec_ser_parts(d.parts) + (if d.parts.len() > 0 {
        seq!['\n']
    } else {
        Seq::<char>::empty()
    }) + spec_ser_lines(d.lines)
}

/// Renders a volume in thousandths in its canonical text.
pub fn format_volume(v: u32) -> (out: Vec<char>)
    ensures
        out@ == spec_format_volume(v),
{
    let mut out: Vec<char> = Vec::new();
    let ip = format_u64((v / 1000) as u64);
    push_chars(&mut out, &ip);
    let fr: u32 = v % 1000;
    if fr == 0 {
    } else if fr % 10 != 0 {
        out.push('.');
        out.push(dec_digit_char_exec((fr / 100) as u64));
        out.push(dec_digit_char_exec(((fr / 10) % 10) as u64));
        out.push(dec_digit_char_exec((fr % 10) as u64));
    } else if fr % 100 != 0 {
        out.push('.');
        out.push(dec_digit_char_exec(((fr / 10) / 10) as u64));
        out.push(dec_digit_char_exec(((fr / 10) % 10) as u64));
    } else {
        out.push('.');
        out.push(dec_digit_char_exec((fr / 100) as u64));
    }
    assert(out@ =~= spec_format_volume(v));
    out
}

/// Appends one metadata tag line.
fn push_meta_one(out: &mut Vec<char>, key: &String, value: &String)
    ensures
        final(out)@ == old(out)@ + spec_ser_meta_one((key@, value@)),
{
    out.push('[');
    push_str_chars(out, key.as_str());
    out.push(':');
    push_str_chars(out, value.as_str());
    out.push(']');
    out.push('\n');
    assert(out@ =~= old(out)@ + spec_ser_meta_one((key@, value@)));
}

/// Appends the three declaration lines of one track.
fn push_track(out: &mut Vec<char>, t: &Track)
    ensures
        final(out)@ == old(out)@ + spec_ser_track(t@),
{
    push_str_chars(out, "[track.");
    push_str_chars(out, t.id.as_str());
    push_str_chars(out, ":name=");
    push_str_chars(out, t.name.as_str());
    push_str_chars(out, "]\n");
    push_str_chars(out, "[track.");
    push_str_chars(out, t.id.as_str());
    push_str_chars(out, ":source=");
    push_str_chars(out, t.source.as_str());
    push_str_chars(out, "]\n");
    push_str_chars(out, "[track.");
    push_str_chars(out, t.id.as_str());
    push_str_chars(out, ":volume=");
    let vol = format_volume(t.volume);
    push_chars(out, &vol);
    push_str_chars(out, "]\n");
    assert(out@ =~= old(out)@ + spec_ser_track(t@));
}

/// Appends the declaration lines of one part.
fn push_part(out: &mut Vec<char>, p: &Part)
    ensures
        final(out)@ == old(out)@ + spec_ser_part(p@),
{
    push_str_chars(out, "[part.");
    push_str_chars(out, p.id.as_str());
    push_str_chars(out, ":name=");
    push_str_chars(out, p.name.as_str());
    push_str_chars(out, "]\n");
    push_str_chars(out, "[part.");
    push_str_chars(out, p.id.as_str());
    push_str_chars(out, ":color=");
    let c = format_color(p.color);
    push_chars(out, &c);
    push_str_chars(out, "]\n");
    match p.background_color {
        Some(bg) => {
            push_str_chars(out, "[part.");
            push_str_chars(out, p.id.as_str());
            push_str_chars(out, ":background_color=");
            let b = format_color(bg);
            push_chars(out, &b);
            push_str_chars(out, "]\n");
        },
        None => {},
    }
    assert(out@ =~= old(out)@ + spec_ser_part(p@));
}

/// Appends one lyric line.
fn push_line(out: &mut Vec<char>, l: &LyricLine)
    ensures
        final(out)@ == old(out)@ + spec_ser_line(l@),
{
    out.push('[');
    let ts = format_timestamp_chars(l.timestamp);
    push_chars(out, &ts);
    out.push(']');
    match &l.part_id {
        Some(p) => {
            out.push('[');
            push_str_chars(out, p.as_str());
            out.push(']');
        },
        None => {},
    }
    push_str_chars(out, l.text.as_str());
    out.push('\n');
    assert(out@ =~= old(out)@ + spec_ser_line(l@));
}

/// Serializes one lyric line on its own, as it appears in the output.
pub fn serialize_lyric_line(l: &LyricLine) -> (r: String)
    ensures
        r@ == spec_ser_line(l@),
{
    let mut out: Vec<char> = Vec::new();
    push_line(&mut out, l);
    chars_to_string(&out)
}

impl LrxFile {
    /// Serializes the document to LRX source text.
    pub fn to_string(&self) -> (r: String)
        ensures
            r@ == spec_serialize(self@),
    {
        let ghost dv = self@;
        let mut out: Vec<char> = Vec::new();
        let n_meta = self.metadata.len();
        let mut i: usize = 0;
        assert(dv.metadata.subrange(0, 0) =~= Seq::<(Seq<char>, Seq<char>)>::empty());
        while i < n_meta
            invariant
                i <= n_meta,
                n_meta == self.metadata@.len(),
                dv == self@,
                out@ == spec_ser_meta(dv.metadata.subrange(0, i as int)),
            decreases n_meta - i,
        {
            let ghost pre = dv.metadata.subrange(0, i as int);
            push_meta_one(&mut out, &self.metadata[i].0, &self.metadata[i].1);
            i = i + 1;
            proof {
                let cur = dv.metadata.subrange(0, i as int);
                assert(cur.drop_last() =~= pre);
                assert(cur.last() == dv.metadata[i - 1]);
                assert(dv.metadata[i - 1] == (self.metadata@[i - 1].0@, self.metadata@[i - 1].1@));
            }
        }
        assert(dv.metadata.subrange(0, n_meta as int) =~= dv.metadata);
        if n_meta > 0 {
            out.push('\n');
        }
        let ghost head1 = out@;
        assert(head1 == spec_ser_meta(dv.metadata) + (if dv.metadata.len() > 0 {
            seq!['\n']
        } else {
            Seq::<char>::empty()
        })) by {
            if n_meta == 0 {
                assert(head1 =~= spec_ser_meta(dv.metadata) + Seq::<char>::empty());
            }
        }
        let n_tracks = self.tracks.len();
        let mut i: usize = 0;
        assert(dv.tracks.subrange(0, 0) =~= Seq::<TrackV>::empty());
        while i < n_tracks
            invariant
                i <= n_tracks,
                n_tracks == self.tracks@.len(),
                dv == self@,
                head1 == spec_ser_meta(dv.metadata) + (if dv.metadata.len() > 0 {
                    seq!['\n']
                } else {
                    Seq::<char>::empty()
                }),
                out@ == head1 + spec_ser_tracks(dv.tracks.subrange(0, i as int)),
            decreases n_tracks - i,
        {
            let ghost pre = dv.tracks.subrange(0, i as int);
            push_track(&mut out, &self.tracks[i]);
            i = i + 1;
            proof {
                let cur = dv.tracks.subrange(0, i as int);
                assert(cur.drop_last() =~= pre);
                assert(cur.last() == dv.tracks[i - 1]);
                assert(dv.tracks[i - 1] == self.tracks@[i - 1]@);
            }
        }
        assert(dv.tracks.subrange(0, n_tracks as int) =~= dv.tracks);
        if n_tracks > 0 {
            out.push('\n');
        }
        let ghost head2 = out@;
        assert(head2 == head1 + spec_ser_tracks(dv.tracks) + (if dv.tracks.len() > 0 {
            seq!['\n']
        } else {
            Seq::<char>::empty()
        })) by {
            if n_tracks == 0 {
                assert(head2 =~= head1 + spec_ser_tracks(dv.tracks) + Seq::<char>::empty());
            }
        }
        let n_parts = self.parts.len();
        let mut i: usize = 0;
        assert(dv.parts.subrange(0, 0) =~= Seq::<PartV>::empty());
        while i < n_parts
            invariant
                i <= n_parts,
                n_parts == self.parts@.len(),
                dv == self@,
                head2 == (spec_ser_meta(dv.metadata) + (if dv.metadata.len() > 0 {
                    seq!['\n']
                } else {
                    Seq::<char>::empty()
                }) + spec_ser_tracks(dv.tracks) + (if dv.tracks.len() > 0 {
                    seq!['\n']
                } else {
                    Seq::<char>::empty()
                })),
                out@ == head2 + spec_ser_parts(dv.parts.subrange(0, i as int)),
            decreases n_parts - i,
        {
            let ghost pre = dv.parts.subrange(0, i as int);
            push_part(&mut out, &self.parts[i]);
            i = i + 1;
            proof {
                let cur = dv.parts.subrange(0, i as int);
                assert(cur.drop_last() =~= pre);
                assert(cur.last() == dv.parts[i - 1]);
                assert(dv.parts[i - 1] == self.parts@[i - 1]@);
            }
        }
        assert(dv.parts.subrange(0, n_parts as int) =~= dv.parts);
        if n_parts > 0 {
            out.push('\n');
        }
        let ghost head3 = out@;
        assert(head3 == head2 + spec_ser_parts(dv.parts) + (if dv.parts.len() > 0 {
            seq!['\n']
        } else {
            Seq::<char>::empty()
        })) by {
            if n_parts == 0 {
                assert(head3 =~= head2 + spec_ser_parts(dv.parts) + Seq::<char>::empty());
            }
        }
        let n_lines = self.lines.len();
        let mut i: usize = 0;
        assert(dv.lines.subrange(0, 0) =~= Seq::<LineV>::empty());
        while i < n_lines
            invariant
                i <= n_lines,
                n_lines == self.lines@.len(),
                dv == self@,
                head3 == (spec_ser_meta(dv.metadata) + (if dv.metadata.len() > 0 {
                    seq!['\n']
                } else {
                    Seq::<char>::empty()
                }) + spec_ser_tracks(dv.tracks) + (if dv.tracks.len() > 0 {
                    seq!['\n']
                } else {
                    Seq::<char>::empty()
                }) + spec_ser_parts(dv.parts) + (if dv.parts.len() > 0 {
                    seq!['\n']
                } else {
                    Seq::<char>::empty()
                })),
                out@ == head3 + spec_ser_lines(dv.lines.subrange(0, i as int)),
            decreases n_lines - i,
        {
            let ghost pre = dv.lines.subrange(0, i as int);
            push_line(&mut out, &self.lines[i]);
            i = i + 1;
            proof {
                let cur = dv.lines.subrange(0, i as int);
                assert(cur.drop_last() =~= pre);
                assert(cur.last() == dv.lines[i - 1]);
                assert(dv.lines[i - 1] == self.lines@[i - 1]@);
            }
        }
        assert(dv.lines.subrange(0, n_lines as int) =~= dv.lines);
        assert(out@ =~= spec_serialize(dv));
        chars_to_string(&out)
    }
}

} // verus!
