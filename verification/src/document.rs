//! The in-memory form of an LRX file: metadata, tracks, parts and the ordered
//! lyric lines shared by the parser, the serializer and the player.
//!
//! Tracks, parts and metadata are association lists whose keys are unique and
//! whose order is insertion order; lyric timestamps are centiseconds and
//! track volumes thousandths of full scale.

use vstd::prelude::*;
use crate::color::Rgb;
use crate::strutil::str_eq;

verus! {

/// Full volume, in thousandths.
pub const VOLUME_FULL: u32 = 1000;

/// One audio stem: where its file lives and how loud it plays.
#[derive(Debug, Clone, PartialEq)]
pub struct Track {
    pub id: String,
    pub name: String,
    pub source: String,
    /// Volume in thousandths of full scale; `1000` is full volume.
    pub volume: u32,
}

impl Track {
    /// A track at full volume.
    pub fn new(id: String, name: String, source: String) -> (t: Track)
        ensures
            t.id == id,
            t.name == name,
            t.source == source,
            t.volume == VOLUME_FULL,
    {
        Track { id, name, source, volume: VOLUME_FULL }
    }
}

/// A named vocal role used to color lyric lines.
#[derive(Debug, Clone, PartialEq)]
pub struct Part {
    pub id: String,
    pub name: String,
    /// Foreground color; opaque white when the file does not set one.
    pub color: Rgb,
    pub background_color: Option<Rgb>,
}

impl Part {
    /// A part with the default white foreground and no background.
    pub fn new(id: String, name: String) -> (p: Part)
        ensures
            p.id == id,
            p.name == name,
            p.color == (Rgb { r: 255, g: 255, b: 255 }),
            p.background_color is None,
    {
        Part { id, name, color: Rgb { r: 255, g: 255, b: 255 }, background_color: None }
    }

    /// A part with the given foreground color and no background.
    pub fn with_color(id: String, name: String, color: Rgb) -> (p: Part)
        ensures
            p.id == id,
            p.name == name,
            p.color == color,
            p.background_color is None,
    {
        Part { id, name, color, background_color: None }
    }
}

/// One time-stamped lyric line.
#[derive(Debug, Clone, PartialEq)]
pub struct LyricLine {
    /// Centiseconds from the start of the song.
    pub timestamp: u64,
    pub text: String,
    /// Reference to a part by id; a dangling reference means default styling.
    pub part_id: Option<String>,
}

impl LyricLine {
    /// A line with no part reference.
    pub fn new(timestamp: u64, text: String) -> (l: LyricLine)
        ensures
            l.timestamp == timestamp,
            l.text == text,
            l.part_id is None,
    {
        LyricLine { timestamp, text, part_id: None }
    }

    /// A line sung by the given part.
    pub fn with_part(timestamp: u64, text: String, part_id: String) -> (l: LyricLine)
        ensures
            l.timestamp == timestamp,
            l.text == text,
            l.part_id == Some(part_id),
    {
        LyricLine { timestamp, text, part_id: Some(part_id) }
    }
}

/// A parsed LRX document.
#[derive(Debug, Clone, PartialEq)]
pub struct LrxFile {
    /// Free-form tags in insertion order, keys unique.
    pub metadata: Vec<(String, String)>,
    /// Tracks in insertion order, ids unique.
    pub tracks: Vec<Track>,
    /// Parts in insertion order, ids unique.
    pub parts: Vec<Part>,
    /// Lyric lines; ascending by timestamp once `finalize` has run.
    pub lines: Vec<LyricLine>,
    /// Global foreground color, the `color` tag.
    pub color: Option<Rgb>,
    /// Global background color, the `background_color` tag.
    pub background_color: Option<Rgb>,
}

/// Spec-level form of a track: the strings as character sequences.
#[verifier::ext_equal]
pub struct TrackV {
    pub id: Seq<char>,
    pub name: Seq<char>,
    pub source: Seq<char>,
    pub volume: u32,
}

/// Spec-level form of a part.
#[verifier::ext_equal]
pub struct PartV {
    pub id: Seq<char>,
    pub name: Seq<char>,
    pub color: Rgb,
    pub background_color: Option<Rgb>,
}

/// Spec-level form of a lyric line.
#[verifier::ext_equal]
pub struct LineV {
    pub timestamp: u64,
    pub text: Seq<char>,
    pub part_id: Option<Seq<char>>,
}

/// Spec-level form of a whole document.
#[verifier::ext_equal]
pub struct DocV {
    pub metadata: Seq<(Seq<char>, Seq<char>)>,
    pub tracks: Seq<TrackV>,
    pub parts: Seq<PartV>,
    pub lines: Seq<LineV>,
    pub color: Option<Rgb>,
    pub background_color: Option<Rgb>,
}

impl View for Track {
    type V = TrackV;

    open spec fn view(&self) -> TrackV {
        TrackV { id: self.id@, name: self.name@, source: self.source@, volume: self.volume }
    }
}

impl View for Part {
    type V = PartV;

    open spec fn view(&self) -> PartV {
        PartV {
            id: self.id@,
            name: self.name@,
            color: self.color,
            background_color: self.background_color,
        }
    }
}

impl View for LyricLine {
    type V = LineV;

    open spec fn view(&self) -> LineV {
        LineV {
            timestamp: self.timestamp,
            text: self.text@,
            part_id: match self.part_id {
                Some(p) => Some(p@),
                None => None,
            },
        }
    }
}

impl View for LrxFile {
    type V = DocV;

    open spec fn view(&self) -> DocV {
        DocV {
            metadata: Seq::new(self.metadata@.len(), |i: int| (self.metadata@[i].0@, self.metadata@[i].1@)),
            tracks: Seq::new(self.tracks@.len(), |i: int| self.tracks@[i]@),
            parts: Seq::new(self.parts@.len(), |i: int| self.parts@[i]@),
            lines: Seq::new(self.lines@.len(), |i: int| self.lines@[i]@),
            color: self.color,
            background_color: self.background_color,
        }
    }
}

/// The empty spec-level document.
pub open spec fn empty_doc_v() -> DocV {
    DocV {
        metadata: Seq::empty(),
        tracks: Seq::empty(),
        parts: Seq::empty(),
        lines: Seq::empty(),
        color: None,
        background_color: None,
    }
}

/// The first track with the given id, if any.
pub open spec fn spec_get_track(ts: Seq<Track>, id: Seq<char>) -> Option<Track>
    decreases ts.len(),
{
    if ts.len() == 0 {
        None
    } else if ts[0].id@ == id {
        Some(ts[0])
    } else {
        spec_get_track(ts.subrange(1, ts.len() as int), id)
    }
}

/// The first part with the given id, if any.
pub open spec fn spec_get_part(ps: Seq<Part>, id: Seq<char>) -> Option<Part>
    decreases ps.len(),
{
    if ps.len() == 0 {
        None
    } else if ps[0].id@ == id {
        Some(ps[0])
    } else {
        spec_get_part(ps.subrange(1, ps.len() as int), id)
    }
}

/// The first metadata value stored under the given key, if any.
pub open spec fn spec_meta_get(m: Seq<(String, String)>, key: Seq<char>) -> Option<Seq<char>>
    decreases m.len(),
{
    if m.len() == 0 {
        None
    } else if m[0].0@ == key {
        Some(m[0].1@)
    } else {
        spec_meta_get(m.subrange(1, m.len() as int), key)
    }
}

impl LrxFile {
    /// Key uniqueness of the three association lists.
    pub open spec fn wf(self) -> bool {
        &&& forall|i: int, j: int|
            0 <= i < j < self.metadata@.len() ==> self.metadata@[i].0@ != self.metadata@[j].0@
        &&& forall|i: int, j: int|
            0 <= i < j < self.tracks@.len() ==> self.tracks@[i].id@ != self.tracks@[j].id@
        &&& forall|i: int, j: int|
            0 <= i < j < self.parts@.len() ==> self.parts@[i].id@ != self.parts@[j].id@
    }

    /// An empty document.
    pub fn new() -> (d: LrxFile)
        ensures
            d.metadata@ == Seq::<(String, String)>::empty(),
            d.tracks@ == Seq::<Track>::empty(),
            d.parts@ == Seq::<Part>::empty(),
            d.lines@ == Seq::<LyricLine>::empty(),
            d.color is None,
            d.background_color is None,
            d.wf(),
    {
        LrxFile {
            metadata: Vec::new(),
            tracks: Vec::new(),
            parts: Vec::new(),
            lines: Vec::new(),
            color: None,
            background_color: None,
        }
    }

    /// The part with the given id, or `None` for an unknown id.
    pub fn get_part(&self, part_id: &str) -> (r: Option<&Part>)
        ensures
            match r {
                Some(p) => spec_get_part(self.parts@, part_id@) == Some(*p),
                None => spec_get_part(self.parts@, part_id@) is None,
            },
    {
        let n = self.parts.len();
        let mut i: usize = 0;
        assert(self.parts@.subrange(0, n as int) =~= self.parts@);
        while i < n
            invariant
                i <= n,
                n == self.parts@.len(),
                forall|j: int| 0 <= j < i ==> self.parts@[j].id@ != part_id@,
                spec_get_part(self.parts@, part_id@) == spec_get_part(
                    self.parts@.subrange(i as int, n as int),
                    part_id@,
                ),
            decreases n - i,
        {
            let ghost pre = self.parts@.subrange(i as int, n as int);
            if str_eq(self.parts[i].id.as_str(), part_id) {
                proof {
                    lemma_index_of_part(self.parts@, part_id@, i as int);
                }
                return Some(&self.parts[i]);
            }
            i = i + 1;
            assert(pre.subrange(1, pre.len() as int) =~= self.parts@.subrange(i as int, n as int));
        }
        assert(self.parts@.subrange(i as int, n as int) =~= Seq::<Part>::empty());
        None
    }

    /// The metadata value stored under the given key, if any.
    pub fn meta_get(&self, key: &str) -> (r: Option<&String>)
        ensures
            match r {
                Some(v) => spec_meta_get(self.metadata@, key@) == Some(v@),
                None => spec_meta_get(self.metadata@, key@) is None,
            },
    {
        let n = self.metadata.len();
        let mut i: usize = 0;
        assert(self.metadata@.subrange(0, n as int) =~= self.metadata@);
        while i < n
            invariant
                i <= n,
                n == self.metadata@.len(),
                spec_meta_get(self.metadata@, key@) == spec_meta_get(
                    self.metadata@.subrange(i as int, n as int),
                    key@,
                ),
            decreases n - i,
        {
            let ghost pre = self.metadata@.subrange(i as int, n as int);
            if str_eq(self.metadata[i].0.as_str(), key) {
                return Some(&self.metadata[i].1);
            }
            i = i + 1;
            assert(pre.subrange(1, pre.len() as int) =~= self.metadata@.subrange(
                i as int,
                n as int,
            ));
        }
        assert(self.metadata@.subrange(i as int, n as int) =~= Seq::<(String, String)>::empty());
        None
    }

    /// The track with the given id, or `None` for an unknown id.
    pub fn get_track(&self, track_id: &str) -> (r: Option<&Track>)
        ensures
            match r {
                Some(t) => spec_get_track(self.tracks@, track_id@) == Some(*t),
                None => spec_get_track(self.tracks@, track_id@) is None,
            },
    {
        let n = self.tracks.len();
        let mut i: usize = 0;
        assert(self.tracks@.subrange(0, n as int) =~= self.tracks@);
        while i < n
            invariant
                i <= n,
                n == self.tracks@.len(),
                spec_get_track(self.tracks@, track_id@) == spec_get_track(
                    self.tracks@.subrange(i as int, n as int),
                    track_id@,
                ),
            decreases n - i,
        {
            let ghost pre = self.tracks@.subrange(i as int, n as int);
            if str_eq(self.tracks[i].id.as_str(), track_id) {
                return Some(&self.tracks[i]);
            }
            i = i + 1;
            assert(pre.subrange(1, pre.len() as int) =~= self.tracks@.subrange(i as int, n as int));
        }
        assert(self.tracks@.subrange(i as int, n as int) =~= Seq::<Track>::empty());
        None
    }

    /// Sorts the lyric lines ascending by timestamp, keeping the original
    /// order of lines with equal timestamps.
    pub fn finalize(&mut self)
        ensures
            final(self).lines@ == spec_stable_sort(old(self).lines@),
            final(self).metadata == old(self).metadata,
            final(self).tracks == old(self).tracks,
            final(self).parts == old(self).parts,
            final(self).color == old(self).color,
            final(self).background_color == old(self).background_color,
    {
        let ghost orig = self.lines@;
        let mut sorted: Vec<LyricLine> = Vec::new();
        let n = self.lines.len();
        let mut i: usize = 0;
        while i < n
            invariant
                i <= n,
                n == orig.len(),
                self.lines@ == orig.subrange(i as int, n as int),
                sorted@ == spec_stable_sort(orig.subrange(0, i as int)),
                self.metadata == old(self).metadata,
                self.tracks == old(self).tracks,
                self.parts == old(self).parts,
                self.color == old(self).color,
                self.background_color == old(self).background_color,
            decreases n - i,
        {
            let x = self.lines.remove(0);
            assert(x == orig[i as int]);
            insert_line(&mut sorted, x);
            i = i + 1;
            proof {
                assert(self.lines@ =~= orig.subrange(i as int, n as int));
                let t = orig.subrange(0, i as int);
                assert(t.drop_last() =~= orig.subrange(0, i - 1));
                assert(t.last() == orig[i - 1]);
            }
        }
        assert(orig.subrange(0, n as int) =~= orig);
        self.lines = sorted;
    }
}

/// Where a stable sort puts a new last element: after every element whose
/// timestamp is not greater, before every element whose timestamp is greater.
pub open spec fn spec_stable_insert(s: Seq<LyricLine>, x: LyricLine) -> Seq<LyricLine>
    decreases s.len(),
{
    if s.len() == 0 {
        seq![x]
    } else if s.last().timestamp <= x.timestamp {
        s.push(x)
    } else {
        spec_stable_insert(s.drop_last(), x).push(s.last())
    }
}

/// The stable sort of the lyric lines by timestamp: each element in turn is
/// placed after all earlier elements with a timestamp not above its own.
pub open spec fn spec_stable_sort(s: Seq<LyricLine>) -> Seq<LyricLine>
    decreases s.len(),
{
    if s.len() == 0 {
        s
    } else {
        spec_stable_insert(spec_stable_sort(s.drop_last()), s.last())
    }
}

/// Ascending by timestamp.
pub open spec fn lines_sorted(s: Seq<LyricLine>) -> bool {
    forall|i: int, j: int| #![trigger s[i], s[j]]
        0 <= i < j < s.len() ==> s[i].timestamp <= s[j].timestamp
}

/// Index of the first part with the given id.
pub open spec fn index_of_part(ps: Seq<Part>, id: Seq<char>) -> int
    decreases ps.len(),
{
    if ps.len() == 0 {
        -1
    } else if ps[0].id@ == id {
        0
    } else {
        let r = index_of_part(ps.subrange(1, ps.len() as int), id);
        if r < 0 {
            -1
        } else {
            r + 1
        }
    }
}

/// At a first occurrence `i` of the id, lookup returns that part and the
/// index function returns `i`.
proof fn lemma_index_of_part(ps: Seq<Part>, id: Seq<char>, i: int)
    requires
        0 <= i < ps.len(),
        ps[i].id@ == id,
        forall|j: int| 0 <= j < i ==> ps[j].id@ != id,
    ensures
        index_of_part(ps, id) == i,
        spec_get_part(ps, id) == Some(ps[i]),
    decreases ps.len(),
{
    if i > 0 {
        let sub = ps.subrange(1, ps.len() as int);
        lemma_index_of_part(sub, id, i - 1);
    }
}

/// Inserts `x` into `v` after every element whose timestamp is not greater.
fn insert_line(v: &mut Vec<LyricLine>, x: LyricLine)
    ensures
        final(v)@ == spec_stable_insert(old(v)@, x),
{
    let ghost s = v@;
    let mut pos: usize = v.len();
    while pos > 0 && v[pos - 1].timestamp > x.timestamp
        invariant
            pos <= v@.len(),
            v@ == s,
            forall|j: int| pos <= j < s.len() ==> s[j].timestamp > x.timestamp,
        decreases pos,
    {
        pos = pos - 1;
    }
    proof {
        lemma_stable_insert_at(s, x, pos as int);
    }
    v.insert(pos, x);
    assert(v@ =~= s.subrange(0, pos as int) + seq![x] + s.subrange(pos as int, s.len() as int));
}

/// The stable insertion point splits the sequence around `x`.
proof fn lemma_stable_insert_at(s: Seq<LyricLine>, x: LyricLine, pos: int)
    requires
        0 <= pos <= s.len(),
        forall|j: int| pos <= j < s.len() ==> s[j].timestamp > x.timestamp,
        pos > 0 ==> s[pos - 1].timestamp <= x.timestamp,
    ensures
        spec_stable_insert(s, x) == s.subrange(0, pos) + seq![x] + s.subrange(pos, s.len() as int),
    decreases s.len(),
{
    if s.len() == 0 {
        assert(spec_stable_insert(s, x) =~= s.subrange(0, pos) + seq![x] + s.subrange(
            pos,
            s.len() as int,
        ));
    } else if s.last().timestamp <= x.timestamp {
        assert(pos == s.len());
        assert(s.push(x) =~= s.subrange(0, pos) + seq![x] + s.subrange(pos, s.len() as int));
    } else {
        assert(pos < s.len());
        lemma_stable_insert_at(s.drop_last(), x, pos);
        assert(spec_stable_insert(s.drop_last(), x).push(s.last()) =~= s.subrange(0, pos) + seq![x]
            + s.subrange(pos, s.len() as int)) by {
            assert(s.drop_last().subrange(0, pos) =~= s.subrange(0, pos));
            assert(s.drop_last().subrange(pos, s.len() - 1) =~= s.subrange(pos, s.len() - 1));
        }
    }
}

/// Inserting adds exactly the new element to the contents.
pub proof fn lemma_stable_insert_multiset(s: Seq<LyricLine>, x: LyricLine)
    ensures
        spec_stable_insert(s, x).to_multiset() == s.to_multiset().insert(x),
    decreases s.len(),
{
    broadcast use vstd::seq_lib::group_to_multiset_ensures;

    if s.len() == 0 {
        assert(seq![x] =~= Seq::<LyricLine>::empty().push(x));
        assert(spec_stable_insert(s, x).to_multiset() =~= s.to_multiset().insert(x));
    } else if s.last().timestamp <= x.timestamp {
        assert(spec_stable_insert(s, x).to_multiset() =~= s.to_multiset().insert(x));
    } else {
        lemma_stable_insert_multiset(s.drop_last(), x);
        assert(s.drop_last().push(s.last()) =~= s);
        assert(spec_stable_insert(s, x).to_multiset() =~= s.to_multiset().insert(x));
    }
}

/// Sorting does not change the contents.
pub proof fn lemma_stable_sort_multiset(s: Seq<LyricLine>)
    ensures
        spec_stable_sort(s).to_multiset() == s.to_multiset(),
    decreases s.len(),
{
    broadcast use vstd::seq_lib::group_to_multiset_ensures;

    if s.len() > 0 {
        lemma_stable_sort_multiset(s.drop_last());
        lemma_stable_insert_multiset(spec_stable_sort(s.drop_last()), s.last());
        assert(s.drop_last().push(s.last()) =~= s);
        assert(spec_stable_sort(s).to_multiset() =~= s.to_multiset());
    }
}

/// Inserting into a sorted sequence keeps it sorted.
pub proof fn lemma_stable_insert_sorted(s: Seq<LyricLine>, x: LyricLine)
    requires
        lines_sorted(s),
    ensures
        lines_sorted(spec_stable_insert(s, x)),
    decreases s.len(),
{
    broadcast use vstd::seq_lib::group_to_multiset_ensures;

    if s.len() == 0 {
    } else if s.last().timestamp <= x.timestamp {
    } else {
        let dl = s.drop_last();
        assert(lines_sorted(dl)) by {
            assert(forall|i: int| 0 <= i < dl.len() ==> dl[i] == s[i]);
        }
        lemma_stable_insert_sorted(dl, x);
        lemma_stable_insert_multiset(dl, x);
        let r0 = spec_stable_insert(dl, x);
        let r = r0.push(s.last());
        // every element of the inserted prefix stays at or below the old last
        assert forall|i: int| 0 <= i < r0.len() implies r0[i].timestamp <= s.last().timestamp by {
            assert(r0.to_multiset().count(r0[i]) > 0) by {
                assert(r0.contains(r0[i]));
            }
            if r0[i] != x {
                assert(dl.to_multiset().count(r0[i]) > 0);
                assert(dl.contains(r0[i]));
                let k = choose|k: int| 0 <= k < dl.len() && dl[k] == r0[i];
                assert(dl[k] == s[k]);
                assert(s[k].timestamp <= s[s.len() - 1].timestamp);
            }
        }
        assert(lines_sorted(r)) by {
            assert(forall|i: int| 0 <= i < r0.len() ==> r[i] == r0[i]);
            assert(r[r.len() - 1] == s.last());
        }
    }
}

/// The stable sort is sorted.
pub proof fn lemma_stable_sort_sorted(s: Seq<LyricLine>)
    ensures
        lines_sorted(spec_stable_sort(s)),
    decreases s.len(),
{
    if s.len() > 0 {
        lemma_stable_sort_sorted(s.drop_last());
        lemma_stable_insert_sorted(spec_stable_sort(s.drop_last()), s.last());
    }
}

/// Where a stable sort of line views puts a new last element.
pub open spec fn spec_stable_insert_v(s: Seq<LineV>, x: LineV) -> Seq<LineV>
    decreases s.len(),
{
    if s.len() == 0 {
        seq![x]
    } else if s.last().timestamp <= x.timestamp {
        s.push(x)
    } else {
        spec_stable_insert_v(s.drop_last(), x).push(s.last())
    }
}

/// The stable sort of line views by timestamp.
pub open spec fn spec_stable_sort_v(s: Seq<LineV>) -> Seq<LineV>
    decreases s.len(),
{
    if s.len() == 0 {
        s
    } else {
        spec_stable_insert_v(spec_stable_sort_v(s.drop_last()), s.last())
    }
}

/// The view of a line sequence.
pub open spec fn lines_view(s: Seq<LyricLine>) -> Seq<LineV> {
    Seq::new(s.len(), |i: int| s[i]@)
}

/// Taking views commutes with stable insertion.
pub proof fn lemma_insert_view(s: Seq<LyricLine>, x: LyricLine)
    ensures
        lines_view(spec_stable_insert(s, x)) == spec_stable_insert_v(lines_view(s), x@),
    decreases s.len(),
{
    if s.len() == 0 {
        assert(lines_view(seq![x]) =~= seq![x@]);
    } else if s.last().timestamp <= x.timestamp {
        assert(lines_view(s.push(x)) =~= lines_view(s).push(x@));
        assert(lines_view(s).last() == s.last()@);
    } else {
        lemma_insert_view(s.drop_last(), x);
        assert(lines_view(s.drop_last()) =~= lines_view(s).drop_last());
        assert(lines_view(s).last() == s.last()@);
        assert(lines_view(spec_stable_insert(s, x)) =~= lines_view(
            spec_stable_insert(s.drop_last(), x),
        ).push(s.last()@));
    }
}

/// Taking views commutes with the stable sort.
pub proof fn lemma_sort_view(s: Seq<LyricLine>)
    ensures
        lines_view(spec_stable_sort(s)) == spec_stable_sort_v(lines_view(s)),
    decreases s.len(),
{
    if s.len() == 0 {
        assert(lines_view(s) =~= Seq::<LineV>::empty());
    } else {
        lemma_sort_view(s.drop_last());
        lemma_insert_view(spec_stable_sort(s.drop_last()), s.last());
        assert(lines_view(s.drop_last()) =~= lines_view(s).drop_last());
        assert(lines_view(s).last() == s.last()@);
    }
}

/// A stable sort leaves an already sorted sequence unchanged: re-sorting
/// the lines of a finalized document is the identity.
pub proof fn lemma_sort_of_sorted(s: Seq<LyricLine>)
    requires
        lines_sorted(s),
    ensures
        spec_stable_sort(s) == s,
    decreases s.len(),
{
    if s.len() > 0 {
        let dl = s.drop_last();
        assert(lines_sorted(dl)) by {
            assert(forall|i: int| 0 <= i < dl.len() ==> dl[i] == s[i]);
        }
        lemma_sort_of_sorted(dl);
        if dl.len() > 0 {
            assert(dl.last() == s[s.len() - 2]);
            assert(dl.last().timestamp <= s.last().timestamp);
        }
        assert(spec_stable_insert(dl, s.last()) == dl.push(s.last()));
        assert(dl.push(s.last()) =~= s);
    }
}

/// Ascending by timestamp, for line views.
pub open spec fn lines_sorted_v(s: Seq<LineV>) -> bool {
    forall|i: int, j: int| #![trigger s[i], s[j]]
        0 <= i < j < s.len() ==> s[i].timestamp <= s[j].timestamp
}

/// The view-level stable sort leaves an already sorted sequence unchanged.
pub proof fn lemma_sort_v_of_sorted(s: Seq<LineV>)
    requires
        lines_sorted_v(s),
    ensures
        spec_stable_sort_v(s) == s,
    decreases s.len(),
{
    if s.len() > 0 {
        let dl = s.drop_last();
        assert(lines_sorted_v(dl)) by {
            assert(forall|i: int| 0 <= i < dl.len() ==> dl[i] == s[i]);
        }
        lemma_sort_v_of_sorted(dl);
        if dl.len() > 0 {
            assert(dl.last() == s[s.len() - 2]);
            assert(dl.last().timestamp <= s.last().timestamp);
        }
        assert(spec_stable_insert_v(dl, s.last()) == dl.push(s.last()));
        assert(dl.push(s.last()) =~= s);
    }
}

/// The subsequence of lines stamped exactly `t`, in order.
pub open spec fn lines_with_timestamp(s: Seq<LyricLine>, t: u64) -> Seq<LyricLine> {
    s.filter(|l: LyricLine| l.timestamp == t)
}

/// Insertion keeps the relative order of lines with any given timestamp:
/// the new element lands after every old element that shares its timestamp.
pub proof fn lemma_stable_insert_filter(s: Seq<LyricLine>, x: LyricLine, t: u64)
    ensures
        lines_with_timestamp(spec_stable_insert(s, x), t) == if x.timestamp == t {
            lines_with_timestamp(s, t).push(x)
        } else {
            lines_with_timestamp(s, t)
        },
    decreases s.len(),
{
    reveal(Seq::filter);
    let pred = |l: LyricLine| l.timestamp == t;
    if s.len() == 0 {
        assert(s =~= Seq::<LyricLine>::empty());
        assert(s.filter(pred) == s);
        assert(seq![x].drop_last() =~= Seq::<LyricLine>::empty());
        assert(seq![x].last() == x);
        assert(seq![x].filter(pred) == if pred(x) { s.filter(pred).push(x) } else { s.filter(pred) });
    } else if s.last().timestamp <= x.timestamp {
        let r = s.push(x);
        assert(r.drop_last() =~= s);
        assert(r.last() == x);
        assert(r.filter(pred) == if pred(x) { s.filter(pred).push(x) } else { s.filter(pred) });
    } else {
        let dl = s.drop_last();
        lemma_stable_insert_filter(dl, x, t);
        let r0 = spec_stable_insert(dl, x);
        let r = r0.push(s.last());
        assert(r.drop_last() =~= r0);
        assert(r.last() == s.last());
        assert(r.filter(pred) == if pred(s.last()) { r0.filter(pred).push(s.last()) } else { r0.filter(pred) });
        assert(s.filter(pred) == if pred(s.last()) { dl.filter(pred).push(s.last()) } else { dl.filter(pred) });
        assert(r0.filter(pred) == if pred(x) { dl.filter(pred).push(x) } else { dl.filter(pred) });
        if pred(x) {
            assert(!pred(s.last()));
            assert(r.filter(pred) == dl.filter(pred).push(x));
            assert(s.filter(pred) == dl.filter(pred));
        }
    }
}

/// Sorting keeps the relative order of lines with any given timestamp: for
/// every timestamp `t`, the subsequence of lines stamped `t` is unchanged.
pub proof fn lemma_stable_sort_stable(s: Seq<LyricLine>, t: u64)
    ensures
        lines_with_timestamp(spec_stable_sort(s), t) == lines_with_timestamp(s, t),
    decreases s.len(),
{
    reveal(Seq::filter);
    if s.len() > 0 {
        let dl = s.drop_last();
        lemma_stable_sort_stable(dl, t);
        lemma_stable_insert_filter(spec_stable_sort(dl), s.last(), t);
        assert(dl.push(s.last()) =~= s);
        assert(s.drop_last() == dl);
    }
}

} // verus!
