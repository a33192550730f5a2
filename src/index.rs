//! The sparse line index: the byte offset of every `granularity`-th line,
//! with the line and byte totals seen by the last computation.
use vstd::prelude::*;
use std::collections::BTreeMap;
use crate::lines::{
    advance, find_line_end, next_line, lemma_advance_add, lemma_advance_bounds, lemma_line_end_bounds,
    lemma_lines_from_bound, lemma_lines_from_split, lines_from,
};

verus! {

/// What a `LinesIndex` holds, as mathematical values.
pub struct IndexView {
    pub entries: Map<u64, u64>,
    pub granularity: u64,
    pub line_count: u64,
    pub byte_count: u64,
}

/// `k` is the greatest line number recorded in `m`.
pub open spec fn is_last_key(m: Map<u64, u64>, k: u64) -> bool {
    m.contains_key(k) && forall|j: u64| m.contains_key(j) ==> j <= k
}

/// The greatest recorded line number, or 0 when nothing is recorded.
pub open spec fn last_key(m: Map<u64, u64>) -> u64 {
    if exists|k: u64| is_last_key(m, k) {
        choose|k: u64| is_last_key(m, k)
    } else {
        0
    }
}

pub proof fn lemma_last_key_unique(m: Map<u64, u64>, k: u64)
    requires
        is_last_key(m, k),
    ensures
        last_key(m) == k,
{
    let j = last_key(m);
    assert(is_last_key(m, j));
}

/// The offset recorded for the greatest recorded line, or 0 when none is.
pub open spec fn last_offset(m: Map<u64, u64>) -> u64 {
    if m.contains_key(last_key(m)) {
        m[last_key(m)]
    } else {
        0
    }
}

/// Number of lines that a computation reads from the last recorded offset,
/// that offset's own line included.
pub open spec fn lines_read(m: Map<u64, u64>, c: Seq<u8>) -> nat {
    lines_from(c, last_offset(m) as int)
}

/// Byte total after reading `j` lines from the last recorded offset.
pub open spec fn bytes_after(m: Map<u64, u64>, c: Seq<u8>, j: nat) -> int {
    advance(c, last_offset(m) as int, j)
}

/// Line `k` is recorded by a computation over `c` once `upto` lines are read.
pub open spec fn is_new_entry(v: IndexView, c: Seq<u8>, k: u64, upto: nat) -> bool {
    &&& last_key(v.entries) < k <= last_key(v.entries) + upto
    &&& (k - last_key(v.entries)) % (v.granularity as int) == 0
}

/// The entries once `upto` lines are read: new entries at every
/// `granularity`-th line counted from the last recorded line.
pub open spec fn grown_entries(v: IndexView, c: Seq<u8>, upto: nat) -> Map<u64, u64> {
    Map::new(
        |k: u64| v.entries.contains_key(k) || is_new_entry(v, c, k, upto),
        |k: u64|
            if is_new_entry(v, c, k, upto) {
                bytes_after(v.entries, c, (k - last_key(v.entries)) as nat) as u64
            } else {
                v.entries[k]
            },
    )
}

/// The index after one computation over the stream content `c`.
pub open spec fn computed(v: IndexView, c: Seq<u8>) -> IndexView {
    let n = lines_read(v.entries, c);
    IndexView {
        entries: grown_entries(v, c, n),
        granularity: v.granularity,
        line_count: (last_key(v.entries) + n) as u64,
        byte_count: bytes_after(v.entries, c, n) as u64,
    }
}

/// The limits of `u64` leave room for a computation over `c`.
pub open spec fn fits(v: IndexView, c: Seq<u8>) -> bool {
    &&& v.granularity > 0
    &&& c.len() + 1 <= u64::MAX
    &&& last_key(v.entries) + c.len() <= u64::MAX
}

#[derive(Clone, Debug, PartialEq, Eq)]
pub struct LinesIndex {
    index: BTreeMap<u64, u64>,
    granularity: u64,
    line_count: u64,
    byte_count: u64,
}

impl View for LinesIndex {
    type V = IndexView;

    closed spec fn view(&self) -> IndexView {
        IndexView {
            entries: self.index@,
            granularity: self.granularity,
            line_count: self.line_count,
            byte_count: self.byte_count,
        }
    }
}

impl LinesIndex {
    /// An empty index that will record every `granularity`-th line.
    pub fn new(granularity: u64) -> (r: LinesIndex)
        requires
            granularity > 0,
        ensures
            r@.entries == Map::<u64, u64>::empty(),
            r@.granularity == granularity,
            r@.line_count == 0,
            r@.byte_count == 0,
    {
        LinesIndex { index: BTreeMap::new(), granularity: granularity, line_count: 0, byte_count: 0 }
    }

    /// Records that line `pos` starts at byte `byte_count`; returns the offset
    /// recorded for `pos` before, if any.
    pub fn insert(&mut self, pos: u64, byte_count: u64) -> (r: Option<u64>)
        ensures
            final(self)@ == (IndexView { entries: old(self)@.entries.insert(pos, byte_count), ..old(self)@ }),
            r == (if old(self)@.entries.contains_key(pos) {
                Some(old(self)@.entries[pos])
            } else {
                None
            }),
    {
        self.index.insert(pos, byte_count)
    }

    /// Drops every entry and resets the line and byte totals to 0.
    pub fn clear(&mut self)
        ensures
            final(self)@ == (IndexView {
                entries: Map::<u64, u64>::empty(),
                granularity: old(self)@.granularity,
                line_count: 0,
                byte_count: 0,
            }),
    {
        self.index.clear();
        self.line_count = 0;
        self.byte_count = 0;
    }

    /// Lines seen by the last computation.
    pub fn line_count(&self) -> (r: u64)
        ensures
            r == self@.line_count,
    {
        self.line_count
    }

    /// Bytes seen by the last computation.
    pub fn byte_count(&self) -> (r: u64)
        ensures
            r == self@.byte_count,
    {
        self.byte_count
    }

    /// Number of lines between consecutive entries.
    pub fn granularity(&self) -> (r: u64)
        ensures
            r == self@.granularity,
    {
        self.granularity
    }

    /// The entries, by line number.
    pub fn get_ref(&self) -> (r: &BTreeMap<u64, u64>)
        ensures
            r@ == self@.entries,
    {
        &self.index
    }

    /// The entries, for the caller to change.
    pub fn get_mut(&mut self) -> (r: &mut BTreeMap<u64, u64>)
        ensures
            r@ == old(self)@.entries,
            final(self)@ == (IndexView { entries: final(r)@, ..old(self)@ }),
    {
        &mut self.index
    }

    /// The entries, taken out of the index.
    pub fn into_inner(self) -> (r: BTreeMap<u64, u64>)
        ensures
            r@ == self@.entries,
    {
        self.index
    }

    /// The byte offset recorded for line `pos`, if any.
    pub fn byte_count_at_pos(&self, pos: &u64) -> (r: Option<u64>)
        ensures
            r == (if self@.entries.contains_key(*pos) {
                Some(self@.entries[*pos])
            } else {
                None
            }),
    {
        match self.index.get(pos) {
            Some(b) => Some(*b),
            None => None,
        }
    }

    /// The greatest recorded line number, if any.
    pub fn last_indexed_pos(&self) -> (r: Option<u64>)
        ensures
            r is None <==> self@.entries.is_empty(),
            r matches Some(k) ==> is_last_key(self@.entries, k),
    {
        let mut best: Option<u64> = None;
        for k in it: self.index.keys()
            invariant
                it.seq().unref().to_set() == self@.entries.dom(),
                best is None <==> it.index() == 0,
                best matches Some(b) ==> (exists|i: int| 0 <= i < it.index() && it.seq().unref()[i] == b),
                best matches Some(b) ==> (forall|i: int| 0 <= i < it.index() ==> it.seq().unref()[i] <= b),
        {
            proof {
                assert(it.seq().unref()[it.index() as int] == *k);
            }
            match best {
                None => best = Some(*k),
                Some(b) => if *k > b {
                    best = Some(*k);
                },
            }
        }
        best
    }

    /// Brings the index up to date with the stream content `content`: resumes
    /// at the offset of the greatest recorded line (byte 0 when none is), then
    /// reads every line from there, counting each one and recording the byte
    /// total after every `granularity`-th one. Returns the new line total.
    pub fn compute(&mut self, content: &[u8]) -> (r: u64)
        requires
            fits(old(self)@, content@),
        ensures
            final(self)@ == computed(old(self)@, content@),
            r == final(self)@.line_count,
    {
        let ghost v = self@;
        let ghost c = content@;
        let len: u64 = content.len() as u64;
        assert(len == c.len());
        let initial_pos: u64 = match self.last_indexed_pos() {
            Some(k) => k,
            None => 0,
        };
        proof {
            if !v.entries.is_empty() {
                lemma_last_key_unique(v.entries, initial_pos);
            } else {
                assert(!exists|k: u64| is_last_key(v.entries, k));
            }
        }
        let start_byte: u64 = match self.byte_count_at_pos(&initial_pos) {
            Some(b) => b,
            None => 0,
        };
        let mut q: u64 = start_byte;
        proof {
            lemma_advance_bounds(c, q as int, 0);
            if q <= len {
                lemma_lines_from_bound(c, q as int);
            }
        }
        let ghost q0 = q as int;
        assert(grown_entries(v, c, 0) =~= v.entries);
        let mut byte_count: u64 = start_byte;
        let mut line_count: u64 = initial_pos;
        let mut i: u64 = 0;
        while q < len
            invariant
                fits(v, c),
                c == content@,
                len == c.len(),
                c.len() <= usize::MAX,
                initial_pos == last_key(v.entries),
                start_byte == last_offset(v.entries),
                q0 == last_offset(v.entries),
                q0 <= c.len() ==> lines_from(c, q0) <= c.len() - q0,
                q0 > c.len() ==> lines_from(c, q0) == 0,
                i <= lines_from(c, q0),
                q == advance(c, q0, i as nat),
                byte_count == bytes_after(v.entries, c, i as nat),
                line_count == initial_pos + i,
                self@ == (IndexView { entries: grown_entries(v, c, i as nat), ..v }),
            decreases c.len() + 1 - q,
        {
            assert(q < content@.len());
            let e = find_line_end(content, q as usize);
            proof {
                lemma_line_end_bounds(c, q as int);
            }
            let next: u64 = e as u64 + 1;
            proof {
                lemma_advance_bounds(c, q0, i as nat);
                lemma_lines_from_split(c, q0, i as nat);
                lemma_advance_add(c, q0, i as nat, 1);
                assert(advance(c, next_line(c, q as int), 0) == next);
                assert(advance(c, q as int, 1) == next);
            }
            byte_count = byte_count + (next - q);
            if (i + 1) % self.granularity == 0 {
                self.insert(initial_pos + i + 1, byte_count);
            }
            line_count = line_count + 1;
            i = i + 1;
            q = next;
            proof {
                let ghost g = grown_entries(v, c, i as nat);
                assert(self@.entries =~= g);
            }
        }
        proof {
            lemma_lines_from_split(c, q0, i as nat);
        }
        self.line_count = line_count;
        self.byte_count = byte_count;
        line_count
    }
}

} // verus!
