//! What the song library derives from a song's folder and its parsed
//! lyrics file: the display title and the tag metadata.

use vstd::prelude::*;
use crate::document::{LrxFile, spec_meta_get};
use crate::strutil::{str_to_chars, chars_to_string};
use vstd::string::StringExecFns;

verus! {

/// The tags a song shows in the library list.
#[derive(Debug, Clone, Default, PartialEq)]
pub struct SongMetadata {
    pub artist: String,
    pub album: String,
    pub title: String,
}

/// Index of the last occurrence of `c` in `s`, or `-1` if there is none.
pub open spec fn spec_rfind(s: Seq<char>, c: char) -> int
    decreases s.len(),
{
    if s.len() == 0 {
        -1
    } else if s.last() == c {
        s.len() - 1
    } else {
        spec_rfind(s.drop_last(), c)
    }
}

/// The name a song folder displays: the path's last component, or
/// `"Unknown"` when the path leaves none.
pub open spec fn spec_song_title(p: Seq<char>) -> Seq<char> {
    let comp = p.subrange(spec_rfind(p, '/') + 1, p.len() as int);
    if comp.len() == 0 {
        "Unknown"@
    } else {
        comp
    }
}

/// What `spec_rfind` returns: the last occurrence when there is one.
pub proof fn lemma_spec_rfind(s: Seq<char>, c: char)
    ensures
        spec_rfind(s, c) >= -1,
        spec_rfind(s, c) >= 0 ==> {
            &&& spec_rfind(s, c) < s.len()
            &&& s[spec_rfind(s, c)] == c
            &&& forall|j: int| spec_rfind(s, c) < j < s.len() ==> s[j] != c
        },
        spec_rfind(s, c) < 0 ==> forall|j: int| 0 <= j < s.len() ==> s[j] != c,
    decreases s.len(),
{
    if s.len() > 0 && s.last() != c {
        let dl = s.drop_last();
        lemma_spec_rfind(dl, c);
        let r = spec_rfind(s, c);
        if r >= 0 {
            assert(s[r] == dl[r]);
            assert forall|j: int| r < j < s.len() implies s[j] != c by {
                if j < s.len() - 1 {
                    assert(dl[j] != c);
                } else {
                    assert(s[j] == s.last());
                }
            }
        } else {
            assert forall|j: int| 0 <= j < s.len() implies s[j] != c by {
                if j < s.len() - 1 {
                    assert(dl[j] != c);
                } else {
                    assert(s[j] == s.last());
                }
            }
        }
    }
}

/// The display title of the song in the given folder: the text after the
/// last path separator, or `"Unknown"` when there is none left.
pub fn song_title(folder: &str) -> (r: String)
    ensures
        r@ == spec_song_title(folder@),
{
    let v = str_to_chars(folder);
    let n = v.len();
    assert(v@.subrange(0, n as int) =~= folder@);
    proof {
        lemma_spec_rfind(folder@, '/');
    }
    let mut i: usize = n;
    while i > 0
        invariant
            i <= n,
            n == folder@.len(),
            v@ == folder@,
            forall|j: int| i <= j < n ==> folder@[j] != '/',
        decreases i,
    {
        if v[i - 1] == '/' {
            proof {
                assert(spec_rfind(folder@, '/') == i - 1) by {
                    lemma_rfind_is(folder@, '/', i - 1);
                }
            }
            return title_from(&v, i, n);
        }
        i = i - 1;
    }
    proof {
        lemma_spec_rfind(folder@, '/');
        assert(spec_rfind(folder@, '/') == -1);
        assert(folder@.subrange(0, n as int) =~= folder@);
    }
    title_from(&v, 0, n)
}

/// A last occurrence is what `spec_rfind` returns.
proof fn lemma_rfind_is(s: Seq<char>, c: char, i: int)
    requires
        0 <= i < s.len(),
        s[i] == c,
        forall|j: int| i < j < s.len() ==> s[j] != c,
    ensures
        spec_rfind(s, c) == i,
{
    lemma_spec_rfind(s, c);
}

/// The suffix `v[from..to]` as the title, `"Unknown"` when empty.
fn title_from(v: &Vec<char>, from: usize, to: usize) -> (r: String)
    requires
        from <= to <= v@.len(),
    ensures
        r@ == if to == from {
            "Unknown"@
        } else {
            v@.subrange(from as int, to as int)
        },
{
    if to == from {
        return String::from_str("Unknown");
    }
    let mut out: Vec<char> = Vec::new();
    let mut i: usize = from;
    while i < to
        invariant
            from <= i <= to <= v@.len(),
            out@ == v@.subrange(from as int, i as int),
        decreases to - i,
    {
        out.push(v[i]);
        i = i + 1;
        assert(out@ =~= v@.subrange(from as int, i as int));
    }
    chars_to_string(&out)
}

/// The metadata a song shows: the `ar`, `al` and `ti` tags of its parsed
/// lyrics file, each empty when the tag is missing.
pub fn song_metadata_of(doc: &LrxFile) -> (m: SongMetadata)
    ensures
        m.artist@ == spec_meta_or_empty(doc.metadata@, "ar"@),
        m.album@ == spec_meta_or_empty(doc.metadata@, "al"@),
        m.title@ == spec_meta_or_empty(doc.metadata@, "ti"@),
{
    SongMetadata {
        artist: meta_or_empty(doc, "ar"),
        album: meta_or_empty(doc, "al"),
        title: meta_or_empty(doc, "ti"),
    }
}

/// The value stored under `key`, or the empty string.
pub open spec fn spec_meta_or_empty(m: Seq<(String, String)>, key: Seq<char>) -> Seq<char> {
    match spec_meta_get(m, key) {
        Some(v) => v,
        None => Seq::<char>::empty(),
    }
}

/// Exec lookup of a metadata value, cloned, empty when missing.
fn meta_or_empty(doc: &LrxFile, key: &str) -> (r: String)
    ensures
        r@ == spec_meta_or_empty(doc.metadata@, key@),
{
    match doc.meta_get(key) {
        Some(v) => v.clone(),
        None => String::new(),
    }
}

} // verus!
