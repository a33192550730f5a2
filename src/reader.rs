//! A cursor over an in-memory byte stream that seeks by line number, through
//! a sparse line index that it brings up to date before every seek.
use vstd::prelude::*;
use vstd::slice::slice_subrange;
use vstd::arithmetic::div_mod::lemma_mod_decreases;
use crate::index::{computed, fits, is_last_key, lemma_last_key_unique, IndexView, LinesIndex};
use crate::lines::{
    advance, find_line_end, lemma_advance_add, lemma_advance_bounds, lemma_line_end_bounds,
    lemma_lines_from_split, lines_from, next_line,
};

verus! {

/// A seek request in lines.
#[derive(Clone, Copy, Debug, PartialEq, Eq, Structural)]
pub enum LineSeek {
    /// Line `n` counted from the first line (line 0).
    Start(u64),
    /// That many lines from the current line, forwards or backwards.
    Current(i64),
    /// That many lines before the line total; the sign is ignored.
    End(i64),
}

/// Why a seek failed.
#[derive(Clone, Copy, Debug, PartialEq, Eq, Structural)]
pub enum SeekError {
    /// The requested line is before line 0 or past the largest `u64`.
    OutOfRange,
    /// Line numbers of the index would pass the largest `u64`.
    IndexOverflow,
}

/// What an `IndexedLineReader` holds, as mathematical values.
pub struct ReaderView {
    pub index: IndexView,
    /// The current line.
    pub pos: u64,
    /// The line total found by the last computation of the index.
    pub line_count: u64,
    /// The stream's bytes.
    pub content: Seq<u8>,
    /// The stream's byte position.
    pub offset: u64,
}

/// Bytes of the stream from its byte position to its end.
pub open spec fn remaining(s: ReaderView) -> Seq<u8> {
    if s.offset < s.content.len() {
        s.content.subrange(s.offset as int, s.content.len() as int)
    } else {
        Seq::empty()
    }
}

/// The state that every reader keeps.
pub open spec fn reader_wf(s: ReaderView) -> bool {
    &&& s.index.granularity > 0
    &&& s.content.len() + 1 <= u64::MAX
}

/// Magnitude of a signed line count.
pub open spec fn magnitude(d: i64) -> u64 {
    if d < 0 {
        (-(d as int)) as u64
    } else {
        d as u64
    }
}

/// After bringing the index up to date with the stream.
pub open spec fn refreshed(s: ReaderView) -> (ReaderView, Result<u64, SeekError>) {
    if fits(s.index, s.content) {
        let i = computed(s.index, s.content);
        (ReaderView { index: i, line_count: i.line_count, ..s }, Ok(i.line_count))
    } else {
        (s, Err(SeekError::IndexOverflow))
    }
}

/// After moving to recorded line `b`, at its recorded offset (0 when the
/// index holds no entry for `b`).
pub open spec fn at_boundary(s: ReaderView, b: u64) -> ReaderView {
    ReaderView {
        pos: b,
        offset: if s.index.entries.contains_key(b) {
            s.index.entries[b]
        } else {
            0
        },
        ..s
    }
}

/// After reading `n` lines forward, or up to the end of the stream.
pub open spec fn scanned(s: ReaderView, n: nat) -> ReaderView {
    let avail = lines_from(s.content, s.offset as int);
    ReaderView {
        pos: (s.pos + if n <= avail {
            n
        } else {
            avail
        }) as u64,
        offset: advance(s.content, s.offset as int, n) as u64,
        ..s
    }
}

/// A forward seek by `d` lines from the current line: to the recorded line at
/// or below the target, found from the current line's own boundary, then a
/// scan over what lies past both boundaries.
pub open spec fn sought_forward(s: ReaderView, d: u64) -> (ReaderView, Result<u64, SeekError>) {
    let (s1, r) = refreshed(s);
    if r is Err {
        (s1, r)
    } else if s1.pos + d > u64::MAX {
        (s1, Err(SeekError::OutOfRange))
    } else {
        let g = s1.index.granularity;
        let extra = d % g;
        let extra_cur = s1.pos % g;
        let s2 = at_boundary(s1, (s1.pos - extra_cur + d - extra) as u64);
        let s3 = if extra + extra_cur > 0 {
            scanned(s2, (extra + extra_cur) as nat)
        } else {
            s2
        };
        (s3, Ok(s3.offset))
    }
}

/// A seek to line `n`: to the recorded line at or below it, then forward by
/// the remainder.
pub open spec fn sought_start(s: ReaderView, n: u64) -> (ReaderView, Result<u64, SeekError>) {
    let (s1, r) = refreshed(s);
    if r is Err {
        (s1, r)
    } else {
        let extra = n % s1.index.granularity;
        let s2 = at_boundary(s1, (n - extra) as u64);
        if extra > 0 {
            sought_forward(s2, extra)
        } else {
            (s2, Ok(s2.offset))
        }
    }
}

/// The outcome of a seek: the reader's new state, and its byte position or
/// the error.
pub open spec fn sought(s: ReaderView, req: LineSeek) -> (ReaderView, Result<u64, SeekError>) {
    match req {
        LineSeek::Start(n) => sought_start(s, n),
        LineSeek::Current(d) => {
            if d >= 0 {
                sought_forward(s, d as u64)
            } else {
                let (s1, r) = refreshed(s);
                if r is Err {
                    (s1, r)
                } else if magnitude(d) > s1.pos {
                    (s1, Err(SeekError::OutOfRange))
                } else {
                    sought_start(s1, (s1.pos - magnitude(d)) as u64)
                }
            }
        },
        LineSeek::End(n) => {
            let (s1, r) = refreshed(s);
            if r is Err {
                (s1, r)
            } else if magnitude(n) > s1.line_count {
                (s1, Err(SeekError::OutOfRange))
            } else {
                sought_start(s1, (s1.line_count - magnitude(n)) as u64)
            }
        },
    }
}

fn magnitude_of(d: i64) -> (r: u64)
    ensures
        r == magnitude(d),
{
    if d < 0 {
        (-(d + 1)) as u64 + 1
    } else {
        d as u64
    }
}

/// A byte stream with a line cursor and a sparse line index over it.
#[derive(Debug)]
pub struct IndexedLineReader {
    index: LinesIndex,
    pos: u64,
    line_count: u64,
    content: Vec<u8>,
    offset: u64,
}

impl View for IndexedLineReader {
    type V = ReaderView;

    closed spec fn view(&self) -> ReaderView {
        ReaderView {
            index: self.index@,
            pos: self.pos,
            line_count: self.line_count,
            content: self.content@,
            offset: self.offset,
        }
    }
}

impl IndexedLineReader {
    /// A reader at line 0 and byte 0 of `content`, with an empty index that
    /// will record every `index_granularity`-th line.
    pub fn new(content: Vec<u8>, index_granularity: u64) -> (r: IndexedLineReader)
        requires
            index_granularity > 0,
            content@.len() + 1 <= u64::MAX,
        ensures
            r@.index.entries == Map::<u64, u64>::empty(),
            r@.index.granularity == index_granularity,
            r@.index.line_count == 0,
            r@.index.byte_count == 0,
            r@.pos == 0,
            r@.line_count == 0,
            r@.content == content@,
            r@.offset == 0,
            reader_wf(r@),
    {
        IndexedLineReader {
            index: LinesIndex::new(index_granularity),
            pos: 0,
            line_count: 0,
            content: content,
            offset: 0,
        }
    }

    /// Adds `bytes` at the end of the stream, as when more is written to it;
    /// the next seek or computation of the index takes them in.
    pub fn append(&mut self, bytes: &[u8])
        requires
            old(self)@.content.len() + bytes@.len() + 1 <= u64::MAX,
        ensures
            final(self)@ == (ReaderView { content: old(self)@.content + bytes@, ..old(self)@ }),
    {
        let ghost s0 = self@;
        let mut i: usize = 0;
        while i < bytes.len()
            invariant
                i <= bytes@.len(),
                self@ == (ReaderView {
                    content: s0.content + bytes@.subrange(0, i as int),
                    ..s0
                }),
            decreases bytes@.len() - i,
        {
            self.content.push(bytes[i]);
            i = i + 1;
            assert(self.content@ =~= s0.content + bytes@.subrange(0, i as int));
        }
        assert(bytes@.subrange(0, i as int) =~= bytes@);
    }

    /// The index.
    pub fn get_index(&self) -> (r: &LinesIndex)
        ensures
            r@ == self@.index,
    {
        &self.index
    }

    /// Replaces the index, e.g. with one saved earlier.
    pub fn restore_index(&mut self, index: LinesIndex)
        requires
            index@.granularity > 0,
        ensures
            final(self)@ == (ReaderView { index: index@, ..old(self)@ }),
    {
        self.index = index;
    }

    /// Brings the index up to date with the stream; returns the line total.
    pub fn compute_index(&mut self) -> (r: Result<u64, SeekError>)
        requires
            reader_wf(old(self)@),
        ensures
            (final(self)@, r) == refreshed(old(self)@),
            reader_wf(final(self)@),
    {
        let len: u64 = self.content.len() as u64;
        let last: u64 = match self.index.last_indexed_pos() {
            Some(k) => k,
            None => 0,
        };
        proof {
            if !self@.index.entries.is_empty() {
                lemma_last_key_unique(self@.index.entries, last);
            } else {
                assert(!exists|k: u64| is_last_key(self@.index.entries, k));
            }
        }
        if last > u64::MAX - len {
            return Err(SeekError::IndexOverflow);
        }
        let n = self.index.compute(self.content.as_slice());
        self.line_count = n;
        Ok(n)
    }

    /// Drops every entry of the index and resets its totals.
    pub fn clear_index(&mut self)
        ensures
            final(self)@ == (ReaderView {
                index: IndexView {
                    entries: Map::<u64, u64>::empty(),
                    granularity: old(self)@.index.granularity,
                    line_count: 0,
                    byte_count: 0,
                },
                ..old(self)@
            }),
    {
        self.index.clear()
    }

    /// The current line.
    pub fn get_current_pos(&self) -> (r: u64)
        ensures
            r == self@.pos,
    {
        self.pos
    }

    /// Moves the stream to its end and returns its length in bytes.
    pub fn byte_count(&mut self) -> (r: u64)
        requires
            reader_wf(old(self)@),
        ensures
            r == old(self)@.content.len(),
            final(self)@ == (ReaderView { offset: r, ..old(self)@ }),
    {
        self.offset = self.content.len() as u64;
        self.offset
    }

    fn seek_to_index(&mut self, indexed_pos: u64) -> (r: u64)
        ensures
            final(self)@ == at_boundary(old(self)@, indexed_pos),
            r == final(self)@.offset,
    {
        self.pos = indexed_pos;
        let byte_count = match self.index.byte_count_at_pos(&indexed_pos) {
            Some(b) => b,
            None => 0,
        };
        self.offset = byte_count;
        byte_count
    }

    /// Reads `lines` lines forward, or up to the end of the stream, advancing
    /// the current line by each one read; returns the bytes advanced.
    pub fn seek_forward(&mut self, lines: u64) -> (r: u64)
        requires
            reader_wf(old(self)@),
            old(self)@.pos + lines <= u64::MAX,
        ensures
            final(self)@ == scanned(old(self)@, lines as nat),
            r == final(self)@.offset - old(self)@.offset,
    {
        let ghost s0 = self@;
        let ghost c = self@.content;
        let ghost o0 = self.offset as int;
        let len: u64 = self.content.len() as u64;
        let mut lines_left: u64 = lines;
        let mut extra_byte_count: u64 = 0;
        proof {
            lemma_advance_bounds(c, o0, 0);
        }
        while lines_left > 0 && self.offset < len
            invariant
                reader_wf(s0),
                c == s0.content,
                len == c.len(),
                c.len() <= usize::MAX,
                self@ == (ReaderView { pos: self@.pos, offset: self@.offset, ..s0 }),
                lines_left <= lines,
                lines - lines_left <= lines_from(c, o0),
                self.offset == advance(c, o0, (lines - lines_left) as nat),
                self.pos == s0.pos + (lines - lines_left),
                s0.pos + lines <= u64::MAX,
                o0 == s0.offset,
                extra_byte_count == self.offset - o0,
            decreases lines_left,
        {
            let ghost i = (lines - lines_left) as nat;
            proof {
                lemma_advance_bounds(c, o0, i);
                lemma_lines_from_split(c, o0, i);
                lemma_line_end_bounds(c, self.offset as int);
                lemma_advance_add(c, o0, i, 1);
                assert(advance(c, next_line(c, self.offset as int), 0) == next_line(
                    c,
                    self.offset as int,
                ));
            }
            let e = find_line_end(self.content.as_slice(), self.offset as usize);
            let next: u64 = e as u64 + 1;
            extra_byte_count = extra_byte_count + (next - self.offset);
            self.offset = next;
            self.pos = self.pos + 1;
            lines_left = lines_left - 1;
        }
        proof {
            let i = (lines - lines_left) as nat;
            lemma_lines_from_split(c, o0, i);
            lemma_advance_add(c, o0, i, lines_left as nat);
            if lines_left > 0 {
                assert(advance(c, self.offset as int, lines_left as nat) == self.offset);
            }
        }
        extra_byte_count
    }

    fn seek_current_forward(&mut self, lines: u64) -> (r: Result<u64, SeekError>)
        requires
            reader_wf(old(self)@),
        ensures
            (final(self)@, r) == sought_forward(old(self)@, lines),
            reader_wf(final(self)@),
    {
        match self.compute_index() {
            Err(e) => return Err(e),
            Ok(_) => {},
        }
        if lines > u64::MAX - self.pos {
            return Err(SeekError::OutOfRange);
        }
        let g = self.index.granularity();
        let extra_lines = lines % g;
        let extra_lines_from_current_pos = self.pos % g;
        proof {
            lemma_mod_decreases(lines as nat, g as nat);
            lemma_mod_decreases(self.pos as nat, g as nat);
        }
        let closest_index = self.pos - extra_lines_from_current_pos + (lines - extra_lines);
        let new_pos = self.seek_to_index(closest_index);
        if extra_lines + extra_lines_from_current_pos > 0 {
            self.seek_forward(extra_lines + extra_lines_from_current_pos);
            Ok(self.offset)
        } else {
            Ok(new_pos)
        }
    }

    fn seek_start(&mut self, line: u64) -> (r: Result<u64, SeekError>)
        requires
            reader_wf(old(self)@),
        ensures
            (final(self)@, r) == sought_start(old(self)@, line),
            reader_wf(final(self)@),
    {
        match self.compute_index() {
            Err(e) => return Err(e),
            Ok(_) => {},
        }
        let extra_lines = line % self.index.granularity();
        proof {
            lemma_mod_decreases(line as nat, self@.index.granularity as nat);
        }
        let new_pos = self.seek_to_index(line - extra_lines);
        if extra_lines > 0 {
            self.seek_current_forward(extra_lines)
        } else {
            Ok(new_pos)
        }
    }

    /// Brings the index up to date, then moves to the requested line; returns
    /// the stream's new byte position. A request before line 0, or past the
    /// largest `u64` line, is refused with `OutOfRange`.
    pub fn seek(&mut self, pos: LineSeek) -> (r: Result<u64, SeekError>)
        requires
            reader_wf(old(self)@),
        ensures
            (final(self)@, r) == sought(old(self)@, pos),
            reader_wf(final(self)@),
    {
        match pos {
            LineSeek::Start(line) => self.seek_start(line),
            LineSeek::Current(lines) => {
                if lines >= 0 {
                    self.seek_current_forward(lines as u64)
                } else {
                    match self.compute_index() {
                        Err(e) => return Err(e),
                        Ok(_) => {},
                    }
                    let back = magnitude_of(lines);
                    if back > self.pos {
                        return Err(SeekError::OutOfRange);
                    }
                    self.seek_start(self.pos - back)
                }
            },
            LineSeek::End(lines) => {
                match self.compute_index() {
                    Err(e) => return Err(e),
                    Ok(_) => {},
                }
                let back = magnitude_of(lines);
                if back > self.line_count {
                    return Err(SeekError::OutOfRange);
                }
                self.seek_start(self.line_count - back)
            },
        }
    }

    /// Copies bytes from the stream's position into `buf`, as many as fit or
    /// remain, and moves past them; returns how many.
    pub fn read(&mut self, buf: &mut [u8]) -> (r: usize)
        requires
            reader_wf(old(self)@),
        ensures
            r == (if remaining(old(self)@).len() < old(buf)@.len() {
                remaining(old(self)@).len()
            } else {
                old(buf)@.len()
            }),
            final(buf)@ == remaining(old(self)@).subrange(0, r as int) + old(buf)@.subrange(
                r as int,
                old(buf)@.len() as int,
            ),
            final(self)@ == (ReaderView { offset: (old(self)@.offset + r) as u64, ..old(self)@ }),
    {
        let len = self.content.len();
        let start: usize = if self.offset < len as u64 {
            self.offset as usize
        } else {
            len
        };
        let avail = len - start;
        let n: usize = if avail < buf.len() {
            avail
        } else {
            buf.len()
        };
        let ghost b0 = buf@;
        let mut i: usize = 0;
        while i < n
            invariant
                i <= n,
                n <= buf@.len(),
                buf@.len() == b0.len(),
                start + n <= len,
                len == self.content@.len(),
                forall|j: int| 0 <= j < i ==> buf@[j] == self.content@[start + j],
                forall|j: int| i <= j < b0.len() ==> buf@[j] == b0[j],
            decreases n - i,
        {
            buf[i] = self.content[start + i];
            i = i + 1;
        }
        proof {
            assert(buf@ =~= remaining(old(self)@).subrange(0, n as int) + b0.subrange(
                n as int,
                b0.len() as int,
            ));
        }
        if n > 0 {
            self.offset = self.offset + n as u64;
        }
        n
    }

    /// The bytes from the stream's position to its end.
    pub fn fill_buf(&mut self) -> (r: &[u8])
        ensures
            r@ == remaining(old(self)@),
            final(self)@ == old(self)@,
    {
        let len = self.content.len();
        if self.offset < len as u64 {
            slice_subrange(self.content.as_slice(), self.offset as usize, len)
        } else {
            slice_subrange(self.content.as_slice(), len, len)
        }
    }

    /// Moves the stream's position past `amt` of the bytes that `fill_buf`
    /// returns.
    pub fn consume(&mut self, amt: usize)
        requires
            reader_wf(old(self)@),
            amt <= remaining(old(self)@).len(),
        ensures
            final(self)@ == (ReaderView { offset: (old(self)@.offset + amt) as u64, ..old(self)@ }),
    {
        if amt > 0 {
            self.offset = self.offset + amt as u64;
        }
    }
}

} // verus!
