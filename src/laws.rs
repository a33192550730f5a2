//! Laws of the index and of seeking, over the spec functions that the
//! executable functions' contracts use.
use vstd::prelude::*;
use vstd::arithmetic::div_mod::{lemma_fundamental_div_mod, lemma_mod_decreases, lemma_small_mod};
use crate::index::{
    computed, fits, grown_entries, is_last_key, is_new_entry, last_key, last_offset,
    lemma_last_key_unique, lines_read, IndexView,
};
use crate::reader::{
    at_boundary, magnitude, reader_wf, refreshed, scanned, sought, sought_forward, sought_start,
    LineSeek, ReaderView, SeekError,
};
use crate::lines::{
    advance, lemma_advance_add, lemma_advance_bounds, lemma_append_lines, lemma_line_end_bounds,
    next_line, lemma_lines_from_bound, lemma_lines_from_split, line_start, lines_from,
    whole_lines,
};

verus! {

/// A new index with the given granularity.
pub open spec fn fresh_index(g: u64) -> IndexView {
    IndexView { entries: Map::empty(), granularity: g, line_count: 0, byte_count: 0 }
}

/// Line `k` is a boundary of `c`: a positive multiple of `g` that is at most
/// the number of lines of `c`.
pub open spec fn is_boundary(c: Seq<u8>, g: u64, k: u64) -> bool {
    &&& 0 < k <= lines_from(c, 0)
    &&& k % g == 0
}

/// The index records exactly the boundaries of `c`, each at the offset of the
/// first byte of its line.
pub open spec fn complete(v: IndexView, c: Seq<u8>) -> bool {
    &&& v.granularity > 0
    &&& forall|k: u64| #[trigger] v.entries.contains_key(k) <==> is_boundary(c, v.granularity, k)
    &&& forall|k: u64| #[trigger]
        v.entries.contains_key(k) ==> v.entries[k] == line_start(c, k as nat)
}

/// A finite map with an entry has a greatest key.
pub proof fn lemma_last_key_is_max(m: Map<u64, u64>)
    requires
        m.dom().finite(),
        !m.is_empty(),
    ensures
        is_last_key(m, last_key(m)),
{
    let r = |a: u64, b: u64| a <= b;
    let k0 = m.dom().choose();
    assert(m.dom().contains(k0));
    vstd::set_lib::lemma_set_empty_equivalency_len(m.dom());
    m.dom().find_unique_maximal_ensures(r);
    let mx = m.dom().find_unique_maximal(r);
    assert forall|j: u64| m.contains_key(j) implies j <= mx by {
        assert(r(mx, j) ==> r(j, mx));
    }
    lemma_last_key_unique(m, mx);
}

/// Every recorded line is a multiple of the granularity and at most the line
/// total.
pub open spec fn index_wf(v: IndexView) -> bool {
    &&& v.granularity > 0
    &&& forall|k: u64| #[trigger]
        v.entries.contains_key(k) ==> k % v.granularity == 0 && k <= v.line_count
}

/// A computation keeps every recorded entry as it was, and keeps recorded
/// lines multiples of the granularity and at most the line total.
pub proof fn law_compute_keeps_entries_and_wf(v: IndexView, c: Seq<u8>)
    requires
        v.entries.dom().finite(),
        index_wf(v),
        fits(v, c),
    ensures
        forall|k: u64| #[trigger]
            v.entries.contains_key(k) ==> computed(v, c).entries.contains_key(k)
                && computed(v, c).entries[k] == v.entries[k],
        index_wf(computed(v, c)),
{
    let r = computed(v, c);
    let g = v.granularity as int;
    let last = last_key(v.entries);
    let n = lines_read(v.entries, c);
    if !v.entries.is_empty() {
        lemma_last_key_is_max(v.entries);
        assert(v.entries.contains_key(last));
    } else {
        assert(!exists|k: u64| is_last_key(v.entries, k));
        assert(last == 0);
    }
    let q0 = last_offset(v.entries) as int;
    if q0 <= c.len() {
        lemma_lines_from_bound(c, q0);
    }
    assert(last + n <= u64::MAX);
    assert(last % v.granularity == 0);
    assert forall|k: u64| v.entries.contains_key(k) implies !is_new_entry(v, c, k, n) by {
        assert(k <= last);
    }
    assert forall|k: u64| #[trigger] r.entries.contains_key(k) implies k % v.granularity == 0
        && k <= r.line_count by {
        if is_new_entry(v, c, k, n) {
            lemma_multiples_sum(last as int, k - last, g);
        }
    }
}

/// Of two multiples of `g`, the greater is at least `g` above the other.
pub proof fn lemma_multiples_gap(a: int, b: int, g: int)
    requires
        g > 0,
        0 <= a < b,
        a % g == 0,
        b % g == 0,
    ensures
        a + g <= b,
{
    lemma_fundamental_div_mod(a, g);
    lemma_fundamental_div_mod(b, g);
    let qa = a / g;
    let qb = b / g;
    assert(qa < qb) by (nonlinear_arith)
        requires
            a == g * qa,
            b == g * qb,
            a < b,
            g > 0,
    ;
    assert(g * qa + g <= g * qb) by (nonlinear_arith)
        requires
            qa < qb,
            g > 0,
    ;
}

/// `n` rounded down to a multiple of `g` is a multiple of `g`.
pub proof fn lemma_round_down(n: int, g: int)
    requires
        g > 0,
        n >= 0,
    ensures
        (n - n % g) % g == 0,
        0 <= n % g < g,
        0 <= n - n % g <= n,
{
    lemma_fundamental_div_mod(n, g);
    lemma_mod_decreases(n as nat, g as nat);
    let q = n / g;
    assert((g * q) % g == 0) by {
        vstd::arithmetic::div_mod::lemma_mod_multiples_basic(q, g);
        vstd::arithmetic::mul::lemma_mul_is_commutative(q, g);
    }
    vstd::arithmetic::div_mod::lemma_mod_pos_bound(n, g);
}

/// Computing a new index records exactly the boundaries of the stream.
pub proof fn lemma_fresh_compute_complete(g: u64, c: Seq<u8>)
    requires
        fits(fresh_index(g), c),
    ensures
        complete(computed(fresh_index(g), c), c),
        computed(fresh_index(g), c).line_count == lines_from(c, 0),
        computed(fresh_index(g), c).byte_count == line_start(c, lines_from(c, 0)),
{
    let v = fresh_index(g);
    assert(!exists|k: u64| is_last_key(v.entries, k));
    assert(last_key(v.entries) == 0);
    assert(last_offset(v.entries) == 0);
    let r = computed(v, c);
    assert forall|k: u64| #[trigger] r.entries.contains_key(k) implies r.entries[k] == line_start(
        c,
        k as nat,
    ) by {
        assert(is_new_entry(v, c, k, lines_read(v.entries, c)));
        lemma_advance_bounds(c, 0, k as nat);
        lemma_lines_from_bound(c, 0);
    }
    lemma_advance_bounds(c, 0, lines_from(c, 0));
    lemma_lines_from_bound(c, 0);
}

/// With no lines left to read, the offset is at or past the end.
pub proof fn lemma_no_lines_left(c: Seq<u8>, p: int)
    requires
        lines_from(c, p) == 0,
    ensures
        p >= c.len(),
{
}

/// In a complete index with at least one entry, the greatest recorded line is
/// the number of lines rounded down to a multiple of the granularity, and it
/// starts past byte 0.
pub proof fn lemma_complete_last_key(v: IndexView, c: Seq<u8>)
    requires
        complete(v, c),
        c.len() <= u64::MAX,
    ensures
        ({
            let n = lines_from(c, 0) as int;
            let g = v.granularity as int;
            let k = n - n % g;
            &&& k == 0 ==> v.entries =~= Map::<u64, u64>::empty()
            &&& k == 0 ==> last_key(v.entries) == 0 && last_offset(v.entries) == 0
            &&& k > 0 ==> last_key(v.entries) == k && is_last_key(v.entries, k as u64)
            &&& k > 0 ==> last_offset(v.entries) == line_start(c, k as nat) > 0
        }),
{
    let n = lines_from(c, 0) as int;
    let g = v.granularity as int;
    let k = n - n % g;
    lemma_round_down(n, g);
    lemma_lines_from_bound(c, 0);
    if k == 0 {
        assert forall|j: u64| !(#[trigger] v.entries.contains_key(j)) by {
            if v.entries.contains_key(j) {
                lemma_multiples_gap(0, j as int, g);
            }
        }
        assert(v.entries =~= Map::<u64, u64>::empty());
        assert(!exists|j: u64| is_last_key(v.entries, j));
    } else {
        lemma_lines_from_bound(c, 0);
        assert(is_boundary(c, v.granularity, k as u64));
        assert forall|j: u64| v.entries.contains_key(j) implies j <= k by {
            if j > k {
                lemma_multiples_gap(k, j as int, g);
            }
        }
        lemma_last_key_unique(v.entries, k as u64);
        lemma_advance_add(c, 0, 1, (k - 1) as nat);
        lemma_advance_bounds(c, 0, 1);
        lemma_advance_bounds(c, advance(c, 0, 1), (k - 1) as nat);
        lemma_line_end_bounds(c, 0);
        assert(advance(c, next_line(c, 0), 0) == next_line(c, 0));
    }
}

/// Computing a complete index records nothing new and sets the totals to the
/// stream's line count and to the offset reached after all its lines.
pub proof fn lemma_complete_computed(v: IndexView, c: Seq<u8>)
    requires
        complete(v, c),
        c.len() + 1 <= u64::MAX,
    ensures
        computed(v, c) == (IndexView {
            entries: v.entries,
            granularity: v.granularity,
            line_count: lines_from(c, 0) as u64,
            byte_count: line_start(c, lines_from(c, 0)) as u64,
        }),
{
    let n = lines_from(c, 0) as int;
    let g = v.granularity as int;
    let k = n - n % g;
    lemma_round_down(n, g);
    lemma_complete_last_key(v, c);
    lemma_lines_from_bound(c, 0);
    lemma_lines_from_split(c, 0, k as nat);
    lemma_advance_add(c, 0, k as nat, (n - k) as nat);
    lemma_advance_bounds(c, 0, n as nat);
    let m = lines_read(v.entries, c);
    assert(m == n - k);
    assert forall|j: u64| !is_new_entry(v, c, j, m) by {
        if is_new_entry(v, c, j, m) {
            lemma_multiples_gap(0, j - last_key(v.entries), g);
        }
    }
    assert(grown_entries(v, c, m) =~= v.entries);
}

/// Computing a complete index a second time over the same content changes
/// nothing: line total, byte total and entries stay as the first computation
/// left them.
pub proof fn law_compute_idempotent(v: IndexView, c: Seq<u8>)
    requires
        complete(v, c),
        c.len() + 1 <= u64::MAX,
    ensures
        computed(computed(v, c), c) == computed(v, c),
{
    lemma_complete_computed(v, c);
    lemma_complete_computed(computed(v, c), c);
}

/// The sum of two multiples of `g` is a multiple of `g`.
pub proof fn lemma_multiples_sum(a: int, b: int, g: int)
    requires
        g > 0,
        a % g == 0,
        b % g == 0,
    ensures
        (a + b) % g == 0,
{
    lemma_fundamental_div_mod(a, g);
    lemma_fundamental_div_mod(b, g);
    let q = a / g + b / g;
    assert(a + b == g * q) by (nonlinear_arith)
        requires
            a == g * (a / g),
            b == g * (b / g),
            q == a / g + b / g,
    ;
    vstd::arithmetic::div_mod::lemma_mod_multiples_basic(q, g);
    vstd::arithmetic::mul::lemma_mul_is_commutative(q, g);
}

/// Bringing a complete index up to date keeps it as it is, apart from the
/// totals, and keeps the cursor where it is.
pub proof fn lemma_refresh_complete(s: ReaderView)
    requires
        reader_wf(s),
        complete(s.index, s.content),
        2 * s.content.len() <= u64::MAX,
    ensures
        refreshed(s).1 is Ok,
        refreshed(s).0.index.entries == s.index.entries,
        refreshed(s).0.index.granularity == s.index.granularity,
        refreshed(s).0.index.line_count == lines_from(s.content, 0),
        refreshed(s).0.line_count == lines_from(s.content, 0),
        complete(refreshed(s).0.index, s.content),
        refreshed(s).0.pos == s.pos,
        refreshed(s).0.offset == s.offset,
        refreshed(s).0.content == s.content,
        reader_wf(refreshed(s).0),
{
    let c = s.content;
    let n = lines_from(c, 0) as int;
    lemma_lines_from_bound(c, 0);
    lemma_round_down(n, s.index.granularity as int);
    lemma_complete_last_key(s.index, c);
    assert(fits(s.index, c));
    lemma_complete_computed(s.index, c);
}

/// From a recorded line `b` of a complete index, reading `r` lines lands on
/// line `b + r`.
pub proof fn lemma_land(s: ReaderView, b: u64, r: nat)
    requires
        complete(s.index, s.content),
        s.content.len() + 1 <= u64::MAX,
        b % s.index.granularity == 0,
        b + r <= lines_from(s.content, 0),
    ensures
        at_boundary(s, b).pos == b,
        at_boundary(s, b).offset == line_start(s.content, b as nat),
        scanned(at_boundary(s, b), r).pos == b + r,
        scanned(at_boundary(s, b), r).offset == line_start(s.content, (b + r) as nat),
        scanned(at_boundary(s, b), r).content == s.content,
        scanned(at_boundary(s, b), r).index == s.index,
{
    let c = s.content;
    lemma_lines_from_bound(c, 0);
    if b > 0 {
        assert(is_boundary(c, s.index.granularity, b));
    }
    lemma_advance_bounds(c, 0, b as nat);
    lemma_advance_bounds(c, 0, (b + r) as nat);
    lemma_lines_from_split(c, 0, b as nat);
    lemma_advance_add(c, 0, b as nat, r);
}

/// On a complete index, a forward seek by `d` lines lands on the line `d`
/// below the current one.
pub proof fn lemma_forward_on_complete(s: ReaderView, d: u64)
    requires
        reader_wf(s),
        complete(s.index, s.content),
        2 * s.content.len() <= u64::MAX,
        s.pos + d <= lines_from(s.content, 0),
    ensures
        sought_forward(s, d).1 == Ok::<u64, SeekError>(
            line_start(s.content, (s.pos + d) as nat) as u64,
        ),
        sought_forward(s, d).0.pos == s.pos + d,
        sought_forward(s, d).0.offset == line_start(s.content, (s.pos + d) as nat),
        sought_forward(s, d).0.content == s.content,
        complete(sought_forward(s, d).0.index, s.content),
        reader_wf(sought_forward(s, d).0),
{
    lemma_refresh_complete(s);
    lemma_lines_from_bound(s.content, 0);
    let s1 = refreshed(s).0;
    let g = s1.index.granularity as int;
    let e = d % s1.index.granularity;
    let ec = s1.pos % s1.index.granularity;
    lemma_round_down(d as int, g);
    lemma_round_down(s1.pos as int, g);
    lemma_multiples_sum(s1.pos - ec, d - e, g);
    let closest = (s1.pos - ec + d - e) as u64;
    lemma_land(s1, closest, (e + ec) as nat);
}

/// On a complete index, a seek to line `k` lands on line `k`.
pub proof fn lemma_start_on_complete(s: ReaderView, k: u64)
    requires
        reader_wf(s),
        complete(s.index, s.content),
        2 * s.content.len() <= u64::MAX,
        k <= lines_from(s.content, 0),
    ensures
        sought_start(s, k).1 == Ok::<u64, SeekError>(line_start(s.content, k as nat) as u64),
        sought_start(s, k).0.pos == k,
        sought_start(s, k).0.offset == line_start(s.content, k as nat),
        sought_start(s, k).0.content == s.content,
        complete(sought_start(s, k).0.index, s.content),
        reader_wf(sought_start(s, k).0),
{
    lemma_refresh_complete(s);
    let s1 = refreshed(s).0;
    let g = s1.index.granularity;
    let extra = k % g;
    lemma_round_down(k as int, g as int);
    let b = (k - extra) as u64;
    lemma_land(s1, b, 0);
    lemma_advance_bounds(s.content, 0, k as nat);
    if extra > 0 {
        lemma_forward_on_complete(at_boundary(s1, b), extra);
    }
}

/// A reader whose index records exactly the boundaries of its stream, as it
/// does once the index is computed from empty (`lemma_fresh_compute_complete`)
/// and after every seek from then on (`lemma_start_on_complete`).
pub open spec fn indexed(s: ReaderView) -> bool {
    &&& reader_wf(s)
    &&& complete(s.index, s.content)
    &&& 2 * s.content.len() <= u64::MAX
}

/// Once the index is complete, a seek to line `k`, for every line `k` of the
/// stream, lands on the first byte of line `k`, with `k` as current line.
pub proof fn law_seek_start_round_trip(s: ReaderView, k: u64)
    requires
        indexed(s),
        k < lines_from(s.content, 0),
    ensures
        sought(s, LineSeek::Start(k)).1 == Ok::<u64, SeekError>(
            line_start(s.content, k as nat) as u64,
        ),
        sought(s, LineSeek::Start(k)).0.pos == k,
{
    lemma_start_on_complete(s, k);
}

/// A seek to `n` lines before the end and one to `-n` lines before the end
/// have the same outcome.
pub proof fn law_end_sign_ignored(s: ReaderView, n: i64)
    requires
        n >= 0,
    ensures
        sought(s, LineSeek::End(n)) == sought(s, LineSeek::End((-n) as i64)),
{
    assert(magnitude(n) == magnitude((-n) as i64));
}

/// Once the index is complete, a seek to line `a` followed by a seek of
/// `b - a` lines from the current line lands where a seek to line `b` does.
pub proof fn law_start_then_current(s: ReaderView, a: u64, b: u64)
    requires
        indexed(s),
        a <= lines_from(s.content, 0),
        b <= lines_from(s.content, 0),
        i64::MIN <= b - a <= i64::MAX,
    ensures
        sought(sought(s, LineSeek::Start(a)).0, LineSeek::Current((b - a) as i64)).1 == sought(
            s,
            LineSeek::Start(b),
        ).1,
        sought(sought(s, LineSeek::Start(a)).0, LineSeek::Current((b - a) as i64)).0.pos == sought(
            s,
            LineSeek::Start(b),
        ).0.pos,
{
    let c = s.content;
    lemma_start_on_complete(s, a);
    lemma_start_on_complete(s, b);
    let sa = sought_start(s, a).0;
    let d = (b - a) as i64;
    if d >= 0 {
        lemma_forward_on_complete(sa, d as u64);
    } else {
        lemma_refresh_complete(sa);
        lemma_start_on_complete(refreshed(sa).0, b);
    }
}

/// The difference of two multiples of `g` is a multiple of `g`.
pub proof fn lemma_multiples_diff(a: int, b: int, g: int)
    requires
        g > 0,
        a % g == 0,
        b % g == 0,
    ensures
        (b - a) % g == 0,
{
    lemma_fundamental_div_mod(a, g);
    lemma_fundamental_div_mod(b, g);
    let q = b / g - a / g;
    assert(b - a == g * q) by (nonlinear_arith)
        requires
            a == g * (a / g),
            b == g * (b / g),
            q == b / g - a / g,
    ;
    vstd::arithmetic::div_mod::lemma_mod_multiples_basic(q, g);
    vstd::arithmetic::mul::lemma_mul_is_commutative(q, g);
}

/// An index complete for whole lines `c1`, computed again once lines `c2` are
/// appended, is what one computation from empty over `c1 + c2` gives: the
/// same entries, line total and byte total. Neither total goes down.
pub proof fn law_incremental_compute(v: IndexView, c1: Seq<u8>, c2: Seq<u8>)
    requires
        complete(v, c1),
        whole_lines(c1),
        (c1 + c2).len() + 1 <= u64::MAX,
    ensures
        computed(v, c1 + c2) == computed(fresh_index(v.granularity), c1 + c2),
        complete(computed(v, c1 + c2), c1 + c2),
        computed(v, c1 + c2).line_count >= lines_from(c1, 0),
        computed(v, c1 + c2).byte_count >= line_start(c1, lines_from(c1, 0)),
{
    let c = c1 + c2;
    let g = v.granularity;
    let gi = g as int;
    let n1 = lines_from(c1, 0) as int;
    let n = lines_from(c, 0) as int;
    let once = computed(fresh_index(g), c);
    let twice = computed(v, c);
    lemma_append_lines(c1, c2, 0, 0);
    lemma_fresh_compute_complete(g, c);
    lemma_complete_last_key(v, c1);
    lemma_round_down(n1, gi);
    lemma_lines_from_bound(c, 0);
    let k1 = n1 - n1 % gi;
    lemma_append_lines(c1, c2, 0, k1 as nat);
    assert(last_offset(v.entries) == line_start(c, k1 as nat));
    lemma_lines_from_split(c, 0, k1 as nat);
    let m = lines_read(v.entries, c);
    assert(m == n - k1);
    lemma_advance_add(c, 0, k1 as nat, m);
    lemma_advance_bounds(c, 0, n as nat);
    assert forall|k: u64| #[trigger] twice.entries.contains_key(k) <==> once.entries.contains_key(
        k,
    ) by {
        if is_new_entry(v, c, k, m) {
            lemma_multiples_sum(k1, k - k1, gi);
        }
        if once.entries.contains_key(k) && k > k1 {
            lemma_multiples_diff(k1, k as int, gi);
            if k <= n1 {
                lemma_multiples_gap(k1, k as int, gi);
            }
        }
        if v.entries.contains_key(k) {
            assert(is_boundary(c1, g, k));
        }
    }
    assert forall|k: u64| #[trigger] once.entries.contains_key(k) implies twice.entries[k]
        == once.entries[k] by {
        if is_new_entry(v, c, k, m) {
            lemma_advance_add(c, 0, k1 as nat, (k - k1) as nat);
        } else {
            assert(twice.entries.contains_key(k));
            assert(v.entries.contains_key(k));
            assert(is_boundary(c1, g, k));
            lemma_append_lines(c1, c2, 0, k as nat);
        }
    }
    assert(twice.entries =~= once.entries);
    lemma_append_lines(c1, c2, 0, n1 as nat);
    lemma_advance_add(c, 0, n1 as nat, (n - n1) as nat);
    lemma_advance_bounds(c, 0, n1 as nat);
    lemma_advance_bounds(c, line_start(c, n1 as nat), (n - n1) as nat);
}

/// Once the index is complete, a seek to `n` lines before the end, for `n` up
/// to the line count, lands on the first byte of that line, with it as the
/// current line.
pub proof fn law_seek_end(s: ReaderView, n: i64)
    requires
        indexed(s),
        magnitude(n) <= lines_from(s.content, 0),
    ensures
        sought(s, LineSeek::End(n)).1 == Ok::<u64, SeekError>(
            line_start(s.content, (lines_from(s.content, 0) - magnitude(n)) as nat) as u64,
        ),
        sought(s, LineSeek::End(n)).0.pos == lines_from(s.content, 0) - magnitude(n),
{
    lemma_refresh_complete(s);
    lemma_lines_from_bound(s.content, 0);
    let s1 = refreshed(s).0;
    lemma_start_on_complete(s1, (lines_from(s.content, 0) - magnitude(n)) as u64);
}

/// After whole lines with a complete index, appending more bytes to the
/// stream and seeking to line `k`, for any line `k` of the grown stream, lands
/// on the first byte of line `k`, with `k` as current line.
pub proof fn law_seek_after_append(s: ReaderView, more: Seq<u8>, k: u64)
    requires
        indexed(s),
        whole_lines(s.content),
        2 * (s.content + more).len() <= u64::MAX,
        k <= lines_from(s.content + more, 0),
    ensures
        sought(ReaderView { content: s.content + more, ..s }, LineSeek::Start(k)).1 == Ok::<
            u64,
            SeekError,
        >(line_start(s.content + more, k as nat) as u64),
        sought(ReaderView { content: s.content + more, ..s }, LineSeek::Start(k)).0.pos == k,
{
    let c = s.content + more;
    let s2 = ReaderView { content: c, ..s };
    law_incremental_compute(s.index, s.content, more);
    lemma_complete_last_key(s.index, s.content);
    lemma_lines_from_bound(s.content, 0);
    lemma_lines_from_bound(c, 0);
    assert(fits(s2.index, c));
    let s1 = refreshed(s2).0;
    lemma_fresh_compute_complete(s.index.granularity, c);
    lemma_complete_computed(s1.index, c);
    assert(refreshed(s1).0 == s1);
    lemma_start_on_complete(s1, k);
}

} // verus!
