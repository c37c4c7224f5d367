//! Finding characters in character sequences, with exact first-occurrence
//! semantics shared by the parser's splitting rules.

use vstd::prelude::*;

verus! {

/// Index of the first occurrence of `c` in `s`, or `-1` if there is none.
pub open spec fn spec_find(s: Seq<char>, c: char) -> int
    decreases s.len(),
{
    if s.len() == 0 {
        -1
    } else if s[0] == c {
        0
    } else {
        let r = spec_find(s.subrange(1, s.len() as int), c);
        if r < 0 {
            -1
        } else {
            r + 1
        }
    }
}

/// What `spec_find` returns: the first occurrence when there is one.
pub proof fn lemma_spec_find(s: Seq<char>, c: char)
    ensures
        spec_find(s, c) >= 0 ==> {
            &&& spec_find(s, c) < s.len()
            &&& s[spec_find(s, c)] == c
            &&& forall|j: int| 0 <= j < spec_find(s, c) ==> s[j] != c
        },
        spec_find(s, c) < 0 ==> forall|j: int| 0 <= j < s.len() ==> s[j] != c,
    decreases s.len(),
{
    if s.len() > 0 && s[0] != c {
        let sub = s.subrange(1, s.len() as int);
        lemma_spec_find(sub, c);
        if spec_find(sub, c) >= 0 {
            let r = spec_find(s, c);
            assert(s[r] == sub[r - 1]);
            assert forall|j: int| 0 <= j < r implies s[j] != c by {
                if j > 0 {
                    assert(sub[j - 1] != c);
                }
            }
        } else {
            assert forall|j: int| 0 <= j < s.len() implies s[j] != c by {
                if j > 0 {
                    assert(sub[j - 1] != c);
                }
            }
        }
    }
}

/// If `i` is a first occurrence of `c` in `s`, it is what `spec_find` returns.
pub proof fn lemma_find_is(s: Seq<char>, c: char, i: int)
    requires
        0 <= i < s.len(),
        s[i] == c,
        forall|j: int| 0 <= j < i ==> s[j] != c,
    ensures
        spec_find(s, c) == i,
{
    lemma_spec_find(s, c);
}

/// If `c` does not occur in `s`, `spec_find` reports that.
pub proof fn lemma_find_none(s: Seq<char>, c: char)
    requires
        forall|j: int| 0 <= j < s.len() ==> s[j] != c,
    ensures
        spec_find(s, c) < 0,
{
    lemma_spec_find(s, c);
}

/// First occurrence of `c` in `v[from..to]`, as an absolute index.
pub fn find_char(v: &Vec<char>, from: usize, to: usize, c: char) -> (r: Option<usize>)
    requires
        from <= to <= v@.len(),
    ensures
        ({
            let f = spec_find(v@.subrange(from as int, to as int), c);
            match r {
                Some(i) => f >= 0 && i == from + f,
                None => f < 0,
            }
        }),
{
    let ghost s = v@.subrange(from as int, to as int);
    let mut i: usize = from;
    while i < to
        invariant
            from <= i <= to <= v@.len(),
            s == v@.subrange(from as int, to as int),
            forall|j: int| 0 <= j < i - from ==> s[j] != c,
        decreases to - i,
    {
        if v[i] == c {
            proof {
                lemma_find_is(s, c, i - from);
            }
            return Some(i);
        }
        i = i + 1;
    }
    proof {
        lemma_find_none(s, c);
    }
    None
}

/// Whether `c` occurs in `v[from..to]`.
pub fn contains_char(v: &Vec<char>, from: usize, to: usize, c: char) -> (r: bool)
    requires
        from <= to <= v@.len(),
    ensures
        r == (spec_find(v@.subrange(from as int, to as int), c) >= 0),
{
    match find_char(v, from, to, c) {
        Some(_) => true,
        None => false,
    }
}

} // verus!
