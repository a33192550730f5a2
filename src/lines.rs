//! The line model of a byte stream: a line runs up to and including the next
//! newline byte, or up to the end of the stream when no newline follows.
use vstd::prelude::*;

verus! {

/// The line terminator.
pub const NEWLINE: u8 = 10;

/// Offset of the terminator of the line that starts at `p`, or the length of
/// the stream when that line is not terminated.
pub open spec fn line_end(c: Seq<u8>, p: int) -> int
    decreases c.len() - p,
{
    if p >= c.len() {
        c.len() as int
    } else if c[p] == NEWLINE {
        p
    } else {
        line_end(c, p + 1)
    }
}

/// Offset just past the line that starts at `p`, counting one terminator byte
/// for it (also for a last line that has none).
pub open spec fn next_line(c: Seq<u8>, p: int) -> int {
    line_end(c, p) + 1
}

/// Offset reached from `p` after reading `j` lines; reading stops at the end
/// of the stream.
pub open spec fn advance(c: Seq<u8>, p: int, j: nat) -> int
    decreases j,
{
    if j == 0 || p >= c.len() {
        p
    } else {
        advance(c, next_line(c, p), (j - 1) as nat)
    }
}

/// Number of lines from offset `p` to the end of the stream.
pub open spec fn lines_from(c: Seq<u8>, p: int) -> nat
    decreases c.len() + 1 - p via lines_from_decreases
{
    if p >= c.len() {
        0
    } else {
        1 + lines_from(c, next_line(c, p))
    }
}

#[via_fn]
proof fn lines_from_decreases(c: Seq<u8>, p: int) {
    lemma_line_end_bounds(c, p);
}

/// Offset of the first byte of line `k` (0-based), for `k` below the number of
/// lines of the stream.
pub open spec fn line_start(c: Seq<u8>, k: nat) -> int {
    advance(c, 0, k)
}

pub proof fn lemma_line_end_bounds(c: Seq<u8>, p: int)
    ensures
        p <= c.len() ==> p <= line_end(c, p) <= c.len(),
        p > c.len() ==> line_end(c, p) == c.len(),
    decreases c.len() - p,
{
    if p < c.len() && c[p] != NEWLINE {
        lemma_line_end_bounds(c, p + 1);
    }
}

/// Reading `i` lines and then `j` more is reading `i + j` lines.
pub proof fn lemma_advance_add(c: Seq<u8>, p: int, i: nat, j: nat)
    requires
        0 <= p,
    ensures
        advance(c, advance(c, p, i), j) == advance(c, p, i + j),
    decreases i,
{
    if i > 0 && p < c.len() {
        lemma_line_end_bounds(c, p);
        lemma_advance_add(c, next_line(c, p), (i - 1) as nat, j);
    } else if i == 0 {
    } else {
        lemma_advance_past_end(c, p, j);
        lemma_advance_past_end(c, p, i + j);
    }
}

pub proof fn lemma_advance_past_end(c: Seq<u8>, p: int, j: nat)
    requires
        p >= c.len(),
    ensures
        advance(c, p, j) == p,
{
}

/// Reading never moves backwards, and stops at most one byte past the end.
pub proof fn lemma_advance_bounds(c: Seq<u8>, p: int, j: nat)
    requires
        0 <= p,
    ensures
        p <= advance(c, p, j),
        p <= c.len() + 1 ==> advance(c, p, j) <= c.len() + 1,
    decreases j,
{
    if j > 0 && p < c.len() {
        lemma_line_end_bounds(c, p);
        lemma_advance_bounds(c, next_line(c, p), (j - 1) as nat);
    }
}

/// Splitting the line count at the offset reached after `i` of them.
pub proof fn lemma_lines_from_split(c: Seq<u8>, p: int, i: nat)
    requires
        0 <= p,
        i <= lines_from(c, p),
    ensures
        lines_from(c, p) == i + lines_from(c, advance(c, p, i)),
    decreases i,
{
    if i > 0 {
        lemma_line_end_bounds(c, p);
        lemma_lines_from_split(c, next_line(c, p), (i - 1) as nat);
    }
}

/// While fewer than all lines have been read, the offset is inside the stream.
pub proof fn lemma_advance_inside(c: Seq<u8>, p: int, i: nat)
    requires
        0 <= p,
        i < lines_from(c, p),
    ensures
        advance(c, p, i) < c.len(),
{
    lemma_lines_from_split(c, p, i);
}

/// There are no more lines than bytes.
pub proof fn lemma_lines_from_bound(c: Seq<u8>, p: int)
    requires
        0 <= p <= c.len(),
    ensures
        lines_from(c, p) <= c.len() - p,
    decreases c.len() - p,
{
    if p < c.len() {
        lemma_line_end_bounds(c, p);
        if next_line(c, p) <= c.len() {
            lemma_lines_from_bound(c, next_line(c, p));
        } else {
            assert(lines_from(c, next_line(c, p)) == 0);
        }
    }
}

/// Content that is empty or ends with a terminator: whole lines only.
pub open spec fn whole_lines(c: Seq<u8>) -> bool {
    c.len() == 0 || c.last() == NEWLINE
}

/// Appending bytes after whole lines leaves the ends of those lines alone.
pub proof fn lemma_append_line_end(c1: Seq<u8>, c2: Seq<u8>, p: int)
    requires
        whole_lines(c1),
        0 <= p < c1.len(),
    ensures
        line_end(c1 + c2, p) == line_end(c1, p),
        line_end(c1, p) < c1.len(),
    decreases c1.len() - p,
{
    let c = c1 + c2;
    assert(c[p] == c1[p]);
    if c1[p] != NEWLINE {
        lemma_append_line_end(c1, c2, p + 1);
    }
}

/// Appending bytes after whole lines leaves the offsets of those lines alone,
/// and adds the appended lines to the count.
pub proof fn lemma_append_lines(c1: Seq<u8>, c2: Seq<u8>, p: int, j: nat)
    requires
        whole_lines(c1),
        0 <= p <= c1.len(),
        j <= lines_from(c1, p),
    ensures
        advance(c1 + c2, p, j) == advance(c1, p, j),
        lines_from(c1 + c2, p) == lines_from(c1, p) + lines_from(c1 + c2, c1.len() as int),
    decreases c1.len() - p,
{
    let c = c1 + c2;
    if p < c1.len() {
        lemma_append_line_end(c1, c2, p);
        lemma_line_end_bounds(c1, p);
        let q = next_line(c1, p);
        assert(next_line(c, p) == q);
        if j > 0 {
            lemma_append_lines(c1, c2, q, (j - 1) as nat);
        } else {
            lemma_append_lines(c1, c2, q, 0);
        }
    }
}

/// Finds the end of the line that starts at `p`, as `line_end` defines it.
pub fn find_line_end(c: &[u8], p: usize) -> (r: usize)
    requires
        p <= c@.len(),
    ensures
        r as int == line_end(c@, p as int),
{
    let mut i: usize = p;
    while i < c.len() && c[i] != NEWLINE
        invariant
            p <= i <= c@.len(),
            line_end(c@, i as int) == line_end(c@, p as int),
        decreases c@.len() - i,
    {
        i = i + 1;
    }
    i
}

} // verus!
