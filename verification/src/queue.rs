//! The singer queue: who sings what, in what order.

use vstd::prelude::*;

verus! {

/// One queued performance.
#[derive(Debug, Clone, PartialEq)]
pub struct QueueEntry {
    /// Identifier handed out by the queue, unique for its lifetime.
    pub id: usize,
    pub singer_name: String,
    pub song_title: String,
    /// Path of the song's lyrics file, for entries taken from the library.
    pub lrx_path: Option<String>,
    /// Link for entries that point outside the library.
    pub url: Option<String>,
}

impl QueueEntry {
    /// An entry with the given fields.
    pub fn new(
        id: usize,
        singer_name: String,
        song_title: String,
        lrx_path: Option<String>,
        url: Option<String>,
    ) -> (e: QueueEntry)
        ensures
            e.id == id,
            e.singer_name == singer_name,
            e.song_title == song_title,
            e.lrx_path == lrx_path,
            e.url == url,
    {
        QueueEntry { id, singer_name, song_title, lrx_path, url }
    }
}

/// Index of the first entry with the given id, or `-1` if there is none.
pub open spec fn spec_entry_pos(s: Seq<QueueEntry>, id: usize) -> int
    decreases s.len(),
{
    if s.len() == 0 {
        -1
    } else if s[0].id == id {
        0
    } else {
        let r = spec_entry_pos(s.subrange(1, s.len() as int), id);
        if r < 0 {
            -1
        } else {
            r + 1
        }
    }
}

/// What `spec_entry_pos` returns: the first matching index if any.
pub proof fn lemma_entry_pos(s: Seq<QueueEntry>, id: usize)
    ensures
        spec_entry_pos(s, id) >= 0 ==> {
            &&& spec_entry_pos(s, id) < s.len()
            &&& s[spec_entry_pos(s, id)].id == id
            &&& forall|j: int| 0 <= j < spec_entry_pos(s, id) ==> s[j].id != id
        },
        spec_entry_pos(s, id) < 0 ==> forall|j: int| 0 <= j < s.len() ==> s[j].id != id,
    decreases s.len(),
{
    if s.len() > 0 && s[0].id != id {
        let sub = s.subrange(1, s.len() as int);
        lemma_entry_pos(sub, id);
        if spec_entry_pos(sub, id) >= 0 {
            let r = spec_entry_pos(s, id);
            assert(s[r] == sub[r - 1]);
            assert forall|j: int| 0 <= j < r implies s[j].id != id by {
                if j > 0 {
                    assert(sub[j - 1].id != id);
                }
            }
        } else {
            assert forall|j: int| 0 <= j < s.len() implies s[j].id != id by {
                if j > 0 {
                    assert(sub[j - 1].id != id);
                }
            }
        }
    }
}

/// A first matching index is what `spec_entry_pos` returns.
proof fn lemma_entry_pos_is(s: Seq<QueueEntry>, id: usize, i: int)
    requires
        0 <= i < s.len(),
        s[i].id == id,
        forall|j: int| 0 <= j < i ==> s[j].id != id,
    ensures
        spec_entry_pos(s, id) == i,
{
    lemma_entry_pos(s, id);
}

/// The manually managed queue of performances.
#[derive(Debug, Clone, PartialEq)]
pub struct Queue {
    /// Entries in performance order.
    pub entries: Vec<QueueEntry>,
    /// Index of the entry now performing, if one is.
    pub current_index: Option<usize>,
    /// The id the next added entry receives; never reused after removals.
    pub next_id: usize,
}

impl Queue {
    /// The id the next added entry will receive.
    pub open spec fn spec_next_id(self) -> usize {
        self.next_id
    }

    /// The entry at the current index, if that index is in range.
    pub open spec fn spec_current(self) -> Option<QueueEntry> {
        match self.current_index {
            Some(c) => if c < self.entries@.len() {
                Some(self.entries@[c as int])
            } else {
                None
            },
            None => None,
        }
    }

    /// An empty queue.
    pub fn new() -> (q: Queue)
        ensures
            q.entries@ == Seq::<QueueEntry>::empty(),
            q.current_index is None,
            q.spec_next_id() == 0,
    {
        Queue { entries: Vec::new(), current_index: None, next_id: 0 }
    }

    /// Appends a new entry and returns its id: the ids count up from zero.
    pub fn add(
        &mut self,
        singer_name: String,
        song_title: String,
        lrx_path: Option<String>,
        url: Option<String>,
    ) -> (id: usize)
        requires
            old(self).spec_next_id() < usize::MAX,
        ensures
            id == old(self).spec_next_id(),
            final(self).spec_next_id() == old(self).spec_next_id() + 1,
            final(self).entries@ == old(self).entries@.push(
                QueueEntry { id, singer_name, song_title, lrx_path, url },
            ),
            final(self).current_index == old(self).current_index,
    {
        let id = self.next_id;
        self.next_id = self.next_id + 1;
        let entry = QueueEntry::new(id, singer_name, song_title, lrx_path, url);
        self.entries.push(entry);
        id
    }

    /// Index of the first entry with the given id.
    fn find_pos(&self, id: usize) -> (r: Option<usize>)
        ensures
            match r {
                Some(i) => i == spec_entry_pos(self.entries@, id),
                None => spec_entry_pos(self.entries@, id) < 0,
            },
    {
        let n = self.entries.len();
        let mut i: usize = 0;
        while i < n
            invariant
                i <= n,
                n == self.entries@.len(),
                forall|j: int| 0 <= j < i ==> self.entries@[j].id != id,
            decreases n - i,
        {
            if self.entries[i].id == id {
                proof {
                    lemma_entry_pos_is(self.entries@, id, i as int);
                }
                return Some(i);
            }
            i = i + 1;
        }
        proof {
            lemma_entry_pos(self.entries@, id);
        }
        None
    }

    /// Removes the entry with the given id, shifting later entries up; the
    /// current index follows its entry, and clears if that entry leaves.
    pub fn remove(&mut self, id: usize) -> (r: Option<QueueEntry>)
        ensures
            ({
                let pos = spec_entry_pos(old(self).entries@, id);
                if pos < 0 {
                    &&& r is None
                    &&& *final(self) == *old(self)
                } else {
                    &&& r == Some(old(self).entries@[pos])
                    &&& final(self).entries@ == old(self).entries@.remove(pos)
                    &&& final(self).current_index == match old(self).current_index {
                        Some(c) => if pos < c {
                            Some((c - 1) as usize)
                        } else if pos == c {
                            None::<usize>
                        } else {
                            Some(c)
                        },
                        None => None::<usize>,
                    }
                    &&& final(self).spec_next_id() == old(self).spec_next_id()
                }
            }),
    {
        match self.find_pos(id) {
            Some(pos) => {
                proof {
                    lemma_entry_pos(self.entries@, id);
                }
                match self.current_index {
                    Some(current) => {
                        if pos < current {
                            self.current_index = Some(current - 1);
                        } else if pos == current {
                            self.current_index = None;
                        }
                    },
                    None => {},
                }
                Some(self.entries.remove(pos))
            },
            None => None,
        }
    }

    /// Moves the entry with the given id one place toward the front;
    /// reports whether anything moved. The current index tracks the swap.
    pub fn move_up(&mut self, id: usize) -> (moved: bool)
        ensures
            ({
                let pos = spec_entry_pos(old(self).entries@, id);
                if pos > 0 {
                    &&& moved
                    &&& final(self).entries@ == old(self).entries@.update(
                        pos - 1,
                        old(self).entries@[pos],
                    ).update(pos, old(self).entries@[pos - 1])
                    &&& final(self).current_index == match old(self).current_index {
                        Some(c) => if c == pos {
                            Some((pos - 1) as usize)
                        } else if c == pos - 1 {
                            Some(pos as usize)
                        } else {
                            Some(c)
                        },
                        None => None::<usize>,
                    }
                    &&& final(self).spec_next_id() == old(self).spec_next_id()
                } else {
                    &&& !moved
                    &&& *final(self) == *old(self)
                }
            }),
    {
        match self.find_pos(id) {
            Some(pos) => {
                proof {
                    lemma_entry_pos(self.entries@, id);
                }
                if pos > 0 {
                    let e = self.entries.remove(pos);
                    self.entries.insert(pos - 1, e);
                    proof {
                        assert(self.entries@ =~= old(self).entries@.update(
                            pos - 1,
                            old(self).entries@[pos as int],
                        ).update(pos as int, old(self).entries@[pos - 1]));
                    }
                    match self.current_index {
                        Some(current) => {
                            if current == pos {
                                self.current_index = Some(pos - 1);
                            } else if current == pos - 1 {
                                self.current_index = Some(pos);
                            }
                        },
                        None => {},
                    }
                    return true;
                }
                false
            },
            None => false,
        }
    }

    /// Moves the entry with the given id one place toward the back;
    /// reports whether anything moved. The current index tracks the swap.
    pub fn move_down(&mut self, id: usize) -> (moved: bool)
        ensures
            ({
                let pos = spec_entry_pos(old(self).entries@, id);
                if 0 <= pos && pos + 1 < old(self).entries@.len() {
                    &&& moved
                    &&& final(self).entries@ == old(self).entries@.update(
                        pos,
                        old(self).entries@[pos + 1],
                    ).update(pos + 1, old(self).entries@[pos])
                    &&& final(self).current_index == match old(self).current_index {
                        Some(c) => if c == pos {
                            Some((pos + 1) as usize)
                        } else if c == pos + 1 {
                            Some(pos as usize)
                        } else {
                            Some(c)
                        },
                        None => None::<usize>,
                    }
                    &&& final(self).spec_next_id() == old(self).spec_next_id()
                } else {
                    &&& !moved
                    &&& *final(self) == *old(self)
                }
            }),
    {
        match self.find_pos(id) {
            Some(pos) => {
                let n = self.entries.len();
                proof {
                    lemma_entry_pos(self.entries@, id);
                    assert(pos < n);
                }
                if pos + 1 < n {
                    let e = self.entries.remove(pos);
                    self.entries.insert(pos + 1, e);
                    proof {
                        assert(self.entries@ =~= old(self).entries@.update(
                            pos as int,
                            old(self).entries@[pos + 1],
                        ).update(pos + 1, old(self).entries@[pos as int]));
                    }
                    match self.current_index {
                        Some(current) => {
                            if current == pos {
                                self.current_index = Some(pos + 1);
                            } else if current == pos + 1 {
                                self.current_index = Some(pos);
                            }
                        },
                        None => {},
                    }
                    return true;
                }
                false
            },
            None => false,
        }
    }

    /// The entry with the given id, if any.
    pub fn get(&self, id: usize) -> (r: Option<&QueueEntry>)
        ensures
            ({
                let pos = spec_entry_pos(self.entries@, id);
                match r {
                    Some(e) => pos >= 0 && *e == self.entries@[pos],
                    None => pos < 0,
                }
            }),
    {
        match self.find_pos(id) {
            Some(pos) => {
                proof {
                    lemma_entry_pos(self.entries@, id);
                }
                Some(&self.entries[pos])
            },
            None => None,
        }
    }

    /// The entry with the given id, for editing in place.
    pub fn get_mut(&mut self, id: usize) -> (r: Option<&mut QueueEntry>)
        ensures
            ({
                let pos = spec_entry_pos(old(self).entries@, id);
                match r {
                    Some(_) => pos >= 0,
                    None => pos < 0 && *final(self) == *old(self),
                }
            }),
    {
        match self.find_pos(id) {
            Some(pos) => {
                proof {
                    lemma_entry_pos(self.entries@, id);
                }
                Some(&mut self.entries[pos])
            },
            None => None,
        }
    }

    /// Empties the queue and clears the current entry. The next id keeps
    /// counting: removed ids are never reused.
    pub fn clear(&mut self)
        ensures
            final(self).entries@ == Seq::<QueueEntry>::empty(),
            final(self).current_index is None,
            final(self).spec_next_id() == old(self).spec_next_id(),
    {
        self.entries = Vec::new();
        self.current_index = None;
    }

    /// The entry now performing, if one is.
    pub fn current(&self) -> (r: Option<&QueueEntry>)
        ensures
            match r {
                Some(e) => self.spec_current() == Some(*e),
                None => self.spec_current() is None,
            },
    {
        match self.current_index {
            Some(c) => {
                if c < self.entries.len() {
                    Some(&self.entries[c])
                } else {
                    None
                }
            },
            None => None,
        }
    }

    /// Advances to the next entry and returns it: from nothing to the first
    /// entry, from the last entry to `None` with the index left in place.
    pub fn next(&mut self) -> (r: Option<&QueueEntry>)
        ensures
            final(self).entries@ == old(self).entries@,
            final(self).spec_next_id() == old(self).spec_next_id(),
            final(self).current_index == match old(self).current_index {
                Some(c) => if c + 1 < old(self).entries@.len() {
                    Some((c + 1) as usize)
                } else {
                    Some(c)
                },
                None => if old(self).entries@.len() > 0 {
                    Some(0usize)
                } else {
                    None::<usize>
                },
            },
            match old(self).current_index {
                Some(c) => if c + 1 < old(self).entries@.len() {
                    r == Some(&old(self).entries@[c + 1])
                } else {
                    r is None
                },
                None => if old(self).entries@.len() > 0 {
                    r == Some(&old(self).entries@[0])
                } else {
                    r is None
                },
            },
    {
        match self.current_index {
            Some(idx) => {
                let n = self.entries.len();
                if idx < n && idx + 1 < n {
                    self.current_index = Some(idx + 1);
                } else {
                    return None;
                }
            },
            None => {
                if self.entries.len() > 0 {
                    self.current_index = Some(0);
                }
            },
        }
        self.current()
    }

    /// Whether the queue holds no entries.
    pub fn is_empty(&self) -> (r: bool)
        ensures
            r == (self.entries@.len() == 0),
    {
        self.entries.len() == 0
    }

    /// How many entries the queue holds.
    pub fn len(&self) -> (n: usize)
        ensures
            n == self.entries@.len(),
    {
        self.entries.len()
    }
}

impl Default for Queue {
    /// Same as `new`.
    fn default() -> (q: Queue)
        ensures
            q.entries@ == Seq::<QueueEntry>::empty(),
            q.current_index is None,
            q.spec_next_id() == 0,
    {
        Queue::new()
    }
}

} // verus!
