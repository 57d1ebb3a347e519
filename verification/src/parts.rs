//! Segments and segment collections: the partition of the profile into
//! maximal equal-height runs, the per-segment fill rates, and the next
//! topology-change event.

use std::ops::Range;
use vstd::prelude::*;

use crate::direction::Direction;
use crate::error::Error;
use crate::rat::{
    frac_add, frac_div, frac_eq, frac_int, frac_le, frac_lt, frac_mul, frac_sub, frac_wf,
    lemma_frac_add_congr, lemma_frac_cmp_congr, lemma_frac_div_congr, lemma_frac_div_mul,
    lemma_frac_div_pos, lemma_frac_eq_trans, lemma_frac_mul_congr, lemma_frac_sub_add, Frac, Rat,
};

verus! {

/// A maximal run of original bar positions currently at the same height.
#[derive(Debug, Clone, Copy, PartialEq)]
pub struct Part {
    /// Current height of every position in the span.
    pub height: Rat,
    /// First position of the half-open span.
    pub lo: usize,
    /// One past the last position of the half-open span.
    pub hi: usize,
}

impl Part {
    /// Current height of the segment.
    pub fn height(&self) -> (r: Rat)
        ensures
            r == self.height,
    {
        self.height
    }

    /// Half-open range of original positions the segment spans.
    pub fn range(&self) -> (r: Range<usize>)
        ensures
            r.start == self.lo,
            r.end == self.hi,
    {
        self.lo..self.hi
    }
}

/// Every stored height has a positive denominator.
pub open spec fn heights_wf(s: Seq<Part>) -> bool {
    forall|i: int| 0 <= i < s.len() ==> frac_wf(#[trigger] s[i].height@)
}

/// No two adjacent segments share a height.
pub open spec fn no_adjacent_eq(s: Seq<Part>) -> bool {
    forall|i: int| 0 <= i && i + 1 < s.len() ==> !frac_eq(#[trigger] s[i].height@, s[i + 1].height@)
}

/// Spans are nonempty, contiguous, and start at position zero.
pub open spec fn spans_ok(s: Seq<Part>) -> bool {
    &&& s.len() > 0
    &&& s[0].lo == 0
    &&& forall|i: int| 0 <= i < s.len() ==> (#[trigger] s[i].lo) < s[i].hi
    &&& forall|i: int| 0 <= i && i + 1 < s.len() ==> (#[trigger] s[i].hi) == s[i + 1].lo
}

/// Total number of original positions covered by the partition.
pub open spec fn positions(s: Seq<Part>) -> int {
    s[s.len() - 1].hi as int
}

/// Full well-formedness of a segment list.
pub open spec fn parts_seq_wf(s: Seq<Part>) -> bool {
    spans_ok(s) && heights_wf(s) && no_adjacent_eq(s)
}

/// Width (own length) of segment `i`.
pub open spec fn width(s: Seq<Part>, i: int) -> int {
    s[i].hi - s[i].lo
}

/// Index of the segment whose span contains `pos`.
pub open spec fn seg_of(s: Seq<Part>, pos: int) -> int
    decreases s.len(),
{
    if s.len() <= 1 {
        0
    } else if pos < s[0].hi {
        0
    } else {
        1 + seg_of(s.subrange(1, s.len() as int), pos)
    }
}

/// Height of position `pos` in the partition.
pub open spec fn level_of(s: Seq<Part>, pos: int) -> Frac {
    s[seg_of(s, pos)].height@
}

/// `seg_of` finds the unique containing segment.
pub proof fn lemma_seg_of(s: Seq<Part>, pos: int)
    requires
        spans_ok(s),
        s[0].lo <= pos < positions(s),
    ensures
        0 <= seg_of(s, pos) < s.len(),
        s[seg_of(s, pos)].lo <= pos < s[seg_of(s, pos)].hi,
    decreases s.len(),
{
    if s.len() <= 1 {
    } else if pos < s[0].hi {
    } else {
        lemma_seg_of_shifted(s, pos);
    }
}

/// Helper: `spans_ok` of a tail with a nonzero first position still
/// locates segments correctly, because only contiguity is used.
proof fn lemma_seg_of_shifted(s: Seq<Part>, pos: int)
    requires
        s.len() > 1,
        forall|i: int| 0 <= i < s.len() ==> (#[trigger] s[i].lo) < s[i].hi,
        forall|i: int| 0 <= i && i + 1 < s.len() ==> (#[trigger] s[i].hi) == s[i + 1].lo,
        s[0].hi <= pos < positions(s),
    ensures
        0 <= seg_of(s, pos) < s.len(),
        s[seg_of(s, pos)].lo <= pos < s[seg_of(s, pos)].hi,
    decreases s.len(),
{
    let t = s.subrange(1, s.len() as int);
    assert(forall|i: int| 0 <= i < t.len() ==> t[i] == s[i + 1]);
    assert(seg_of(s, pos) == 1 + seg_of(t, pos));
    assert(positions(t) == positions(s));
    if t.len() == 1 {
        assert(seg_of(t, pos) == 0);
    } else if pos < t[0].hi {
        assert(seg_of(t, pos) == 0);
    } else {
        assert forall|i: int| 0 <= i < t.len() implies (#[trigger] t[i].lo) < t[i].hi by {
            assert(t[i] == s[i + 1]);
        }
        assert forall|i: int| 0 <= i && i + 1 < t.len() implies (#[trigger] t[i].hi) == t[i
            + 1].lo by {
            assert(t[i] == s[i + 1]);
            assert(t[i + 1] == s[i + 2]);
        }
        lemma_seg_of_shifted(t, pos);
        let k = seg_of(t, pos);
        assert(t[k] == s[k + 1]);
    }
}

/// A segment accepts water directly when every existing neighbour is
/// strictly taller.
pub open spec fn accepts_water(s: Seq<Part>, i: int) -> bool {
    (i == 0 || frac_lt(s[i].height@, s[i - 1].height@)) && (i == s.len() - 1 || frac_lt(
        s[i].height@,
        s[i + 1].height@,
    ))
}

/// Farthest index reachable from `i` walking left while heights strictly
/// decrease.
pub open spec fn run_end_left(s: Seq<Part>, i: int) -> int
    decreases i,
{
    if 0 < i < s.len() && frac_lt(s[i - 1].height@, s[i].height@) {
        run_end_left(s, i - 1)
    } else {
        i
    }
}

/// Farthest index reachable from `i` walking right while heights strictly
/// decrease.
pub open spec fn run_end_right(s: Seq<Part>, i: int) -> int
    decreases s.len() - i,
{
    if 0 <= i && i + 1 < s.len() && frac_lt(s[i + 1].height@, s[i].height@) {
        run_end_right(s, i + 1)
    } else {
        i
    }
}

/// Destination of the water shed by segment `i` in direction `d`: the
/// floor of the first basin reached, or `None` when the immediate
/// neighbour is not strictly lower.
pub open spec fn dest_in(s: Seq<Part>, i: int, d: Direction) -> Option<int> {
    let e = if d == Direction::Left {
        run_end_left(s, i)
    } else {
        run_end_right(s, i)
    };
    if e == i {
        None
    } else {
        Some(e)
    }
}

/// Properties of the left walk: it stays in range, ends strictly lower
/// than its predecessor on the walk, and stops only at a non-lower step.
pub proof fn lemma_run_left(s: Seq<Part>, i: int)
    requires
        0 <= i < s.len(),
    ensures
        0 <= run_end_left(s, i) <= i,
        run_end_left(s, i) != i ==> frac_lt(s[run_end_left(s, i)].height@, s[run_end_left(s, i)
            + 1].height@),
        run_end_left(s, i) > 0 ==> !frac_lt(s[run_end_left(s, i) - 1].height@, s[run_end_left(s, i)].height@),
    decreases i,
{
    if 0 < i && frac_lt(s[i - 1].height@, s[i].height@) {
        lemma_run_left(s, i - 1);
    }
}

/// Properties of the right walk, mirroring `lemma_run_left`.
pub proof fn lemma_run_right(s: Seq<Part>, i: int)
    requires
        0 <= i < s.len(),
    ensures
        i <= run_end_right(s, i) < s.len(),
        run_end_right(s, i) != i ==> frac_lt(s[run_end_right(s, i)].height@, s[run_end_right(s, i)
            - 1].height@),
        run_end_right(s, i) + 1 < s.len() ==> !frac_lt(s[run_end_right(s, i) + 1].height@, s[run_end_right(s, i)].height@),
    decreases s.len() - i,
{
    if i + 1 < s.len() && frac_lt(s[i + 1].height@, s[i].height@) {
        lemma_run_right(s, i + 1);
    }
}

/// A found destination is a segment that accepts water directly.
pub proof fn lemma_dest_accepts(s: Seq<Part>, i: int, d: Direction)
    requires
        parts_seq_wf(s),
        0 <= i < s.len(),
        dest_in(s, i, d) is Some,
    ensures
        0 <= dest_in(s, i, d)->Some_0 < s.len(),
        dest_in(s, i, d)->Some_0 != i,
        accepts_water(s, dest_in(s, i, d)->Some_0),
{
    if d == Direction::Left {
        let e = run_end_left(s, i);
        lemma_run_left(s, i);
        assert(frac_lt(s[e].height@, s[e + 1].height@));
        if e > 0 {
            assert(!frac_lt(s[e - 1].height@, s[e].height@));
            assert(!frac_eq(s[e - 1].height@, s[e].height@));
            assert(frac_lt(s[e].height@, s[e - 1].height@));
        }
    } else {
        let e = run_end_right(s, i);
        lemma_run_right(s, i);
        assert(frac_lt(s[e].height@, s[e - 1].height@));
        if e + 1 < s.len() {
            assert(!frac_lt(s[e + 1].height@, s[e].height@));
            assert(!frac_eq(s[e].height@, s[e + 1].height@));
            assert(frac_lt(s[e].height@, s[e + 1].height@));
        }
    }
}

/// Find the index to which water flows from `current_idx` in the given
/// direction: the last index of the strictly decreasing run beyond
/// `current_idx`, or `None` when the walk cannot take even one downhill
/// step.  (A walk can never reach the boundary without having found a
/// lower segment first, so the open edge needs no separate answer.)
#[verifier::loop_isolation(false)]
pub fn find_destination(parts: &Vec<Part>, current_idx: usize, direction: Direction) -> (r: Option<
    usize,
>)
    requires
        heights_wf(parts@),
        no_adjacent_eq(parts@),
    ensures
        current_idx < parts@.len() ==> {
            let d = dest_in(parts@, current_idx as int, direction);
            (r is None <==> d is None) && (r matches Some(k) ==> d == Some(k as int))
        },
        current_idx >= parts@.len() ==> r is None,
{
    if parts.len() <= current_idx {
        return None;
    }
    let ghost s = parts@;
    let mut found: Option<usize> = None;
    let mut idx: usize = current_idx;
    let mut last: Rat = parts[current_idx].height;
    match direction {
        Direction::Left => {
            loop
                invariant
                    heights_wf(s),
                    no_adjacent_eq(s),
                    parts@ == s,
                    current_idx < s.len(),
                    0 <= idx <= current_idx,
                    last == s[idx as int].height,
                    run_end_left(s, current_idx as int) == run_end_left(s, idx as int),
                    idx == current_idx ==> found is None,
                    idx != current_idx ==> found == Some(idx) && frac_lt(
                        s[idx as int].height@,
                        s[idx as int + 1].height@,
                    ),
                decreases idx,
            {
                let stepped = direction.set_index_to_next(&mut idx, 0..parts.len());
                if !stepped {
                    proof {
                        assert(run_end_left(s, idx as int) == idx as int);
                    }
                    return found;
                }
                let h = parts[idx].height;
                if h.lt(last) {
                    found = Some(idx);
                    last = h;
                } else if last.lt(h) {
                    proof {
                        assert(run_end_left(s, idx as int + 1) == idx as int + 1);
                    }
                    return found;
                } else {
                    proof {
                        assert(frac_eq(s[idx as int].height@, s[idx as int + 1].height@));
                        assert(false);
                    }
                    return None;
                }
            }
        },
        Direction::Right => {
            loop
                invariant
                    heights_wf(s),
                    no_adjacent_eq(s),
                    parts@ == s,
                    current_idx < s.len(),
                    current_idx <= idx < s.len(),
                    last == s[idx as int].height,
                    run_end_right(s, current_idx as int) == run_end_right(s, idx as int),
                    idx == current_idx ==> found is None,
                    idx != current_idx ==> found == Some(idx) && frac_lt(
                        s[idx as int].height@,
                        s[idx as int - 1].height@,
                    ),
                decreases s.len() - idx,
            {
                let stepped = direction.set_index_to_next(&mut idx, 0..parts.len());
                if !stepped {
                    proof {
                        assert(run_end_right(s, idx as int) == idx as int);
                    }
                    return found;
                }
                let h = parts[idx].height;
                if h.lt(last) {
                    found = Some(idx);
                    last = h;
                } else if last.lt(h) {
                    proof {
                        assert(run_end_right(s, idx as int - 1) == idx as int - 1);
                    }
                    return found;
                } else {
                    proof {
                        assert(frac_eq(s[idx as int - 1].height@, s[idx as int].height@));
                        assert(false);
                    }
                    return None;
                }
            }
        },
    }
}

/// Whether every existing neighbour of `idx` is strictly taller.
pub fn is_accept_water(parts: &Vec<Part>, idx: usize) -> (r: bool)
    requires
        idx < parts@.len(),
    ensures
        r == accepts_water(parts@, idx as int),
{
    (idx == 0 || parts[idx].height.lt(parts[idx - 1].height)) && (idx == parts.len() - 1
        || parts[idx].height.lt(parts[idx + 1].height))
}

/// What segment `j` adds to the (doubled) credit of segment `i`.
pub open spec fn contrib2(s: Seq<Part>, j: int, i: int) -> int {
    let w = width(s, j);
    if accepts_water(s, j) {
        if i == j {
            2 * w
        } else {
            0
        }
    } else {
        match (dest_in(s, j, Direction::Left), dest_in(s, j, Direction::Right)) {
            (Some(l), Some(r)) => (if i == l {
                w
            } else {
                0
            }) + (if i == r {
                w
            } else {
                0
            }),
            (Some(l), None) => if i == l {
                2 * w
            } else {
                0
            },
            (None, Some(r)) => if i == r {
                2 * w
            } else {
                0
            },
            (None, None) => 0,
        }
    }
}

/// Doubled credit accumulated by segment `i` from segments `0..j`.
pub open spec fn credit2_upto(s: Seq<Part>, i: int, j: int) -> int
    decreases j,
{
    if j <= 0 {
        0
    } else {
        credit2_upto(s, i, j - 1) + contrib2(s, j - 1, i)
    }
}

/// Doubled credit of segment `i` under the full distribution.
pub open spec fn credit2(s: Seq<Part>, i: int) -> int {
    credit2_upto(s, i, s.len() as int)
}

/// Effective fill rate of segment `i`: credit divided by own length.
pub open spec fn rate_of(s: Seq<Part>, i: int) -> Frac {
    Frac { n: credit2(s, i), d: 2 * width(s, i) }
}

/// One entry of the rate table matches the credit distribution.
pub open spec fn vel_entry_ok(s: Seq<Part>, v: Seq<(Rat, usize)>, i: int) -> bool {
    &&& v[i].1 as int == width(s, i)
    &&& frac_wf(v[i].0@)
    &&& frac_eq(v[i].0@, Frac { n: credit2(s, i), d: 2 })
}

/// Position where segment `j`'s span begins (total width of segments
/// before it); the total position count once `j` passes the end.
pub open spec fn prefix_width(s: Seq<Part>, j: int) -> int {
    if j < s.len() {
        s[j].lo as int
    } else {
        positions(s)
    }
}

/// Span ends never exceed the total position count.
pub proof fn lemma_spans_mono(s: Seq<Part>, i: int)
    requires
        spans_ok(s),
        0 <= i < s.len(),
    ensures
        s[i].hi <= positions(s),
        i > 0 ==> s[i].lo > 0,
    decreases s.len() - i,
{
    if i > 0 {
        assert(s[i - 1].hi == s[i].lo);
        assert(s[i - 1].lo < s[i - 1].hi);
    }
    if i + 1 < s.len() {
        lemma_spans_mono(s, i + 1);
    }
}

/// Accumulated credit is nonnegative and bounded by twice the width of
/// the segments distributed so far.
pub proof fn lemma_credit2_upto_bound(s: Seq<Part>, i: int, j: int)
    requires
        parts_seq_wf(s),
        0 <= j <= s.len(),
    ensures
        0 <= credit2_upto(s, i, j) <= 2 * prefix_width(s, j),
    decreases j,
{
    if j > 0 {
        lemma_credit2_upto_bound(s, i, j - 1);
        let w = width(s, j - 1);
        assert(0 <= contrib2(s, j - 1, i) <= 2 * w) by {
            if !accepts_water(s, j - 1) {
                if dest_in(s, j - 1, Direction::Left) is Some {
                    lemma_run_left(s, j - 1);
                }
                if dest_in(s, j - 1, Direction::Right) is Some {
                    lemma_run_right(s, j - 1);
                }
            }
        }
        assert(prefix_width(s, j) == prefix_width(s, j - 1) + w);
    }
}

/// Derive, for the current configuration, each segment's accumulated
/// credit and divisor (its own length): the fill rate of segment `i` is
/// `credit / divisor`.
#[verifier::loop_isolation(false)]
pub fn calculate_filling_velocity(parts: &Vec<Part>) -> (r: Vec<(Rat, usize)>)
    requires
        parts_seq_wf(parts@),
        positions(parts@) < 0x4000_0000_0000_0000,
    ensures
        r@.len() == parts@.len(),
        forall|i: int| 0 <= i < parts@.len() ==> #[trigger] vel_entry_ok(parts@, r@, i),
{
    let ghost s = parts@;
    let n = parts.len();
    let mut c2: Vec<u64> = Vec::new();
    let mut k: usize = 0;
    while k < n
        invariant
            c2@.len() == k,
            k <= n,
            forall|i: int| 0 <= i < k ==> c2@[i] == 0,
        decreases n - k,
    {
        c2.push(0u64);
        k += 1;
    }
    let mut j: usize = 0;
    while j < n
        invariant
            c2@.len() == n,
            j <= n,
            forall|i: int| 0 <= i < n ==> c2@[i] as int == credit2_upto(s, i, j as int),
            forall|i: int| 0 <= i < n ==> c2@[i] as int <= 2 * prefix_width(s, j as int),
        decreases n - j,
    {
        let ghost c2_old = c2@;
        let w: u64 = (parts[j].hi - parts[j].lo) as u64;
        proof {
            lemma_spans_mono(s, j as int);
        }
        if is_accept_water(parts, j) {
            let cur = c2[j];
            c2.set(j, cur + 2 * w);
        } else {
            let maybe_right = find_destination(parts, j, Direction::Right);
            let maybe_left = find_destination(parts, j, Direction::Left);
            proof {
                if dest_in(s, j as int, Direction::Left) is Some {
                    lemma_run_left(s, j as int);
                }
                if dest_in(s, j as int, Direction::Right) is Some {
                    lemma_run_right(s, j as int);
                }
            }
            match (maybe_left, maybe_right) {
                (Some(l), Some(r)) => {
                    let cur = c2[l];
                    c2.set(l, cur + w);
                    let cur = c2[r];
                    c2.set(r, cur + w);
                },
                (Some(l), None) => {
                    let cur = c2[l];
                    c2.set(l, cur + 2 * w);
                },
                (None, Some(r)) => {
                    let cur = c2[r];
                    c2.set(r, cur + 2 * w);
                },
                (None, None) => {},
            }
        }
        proof {
            assert(prefix_width(s, j as int + 1) == prefix_width(s, j as int) + width(
                s,
                j as int,
            ));
            assert forall|i: int| 0 <= i < n implies c2@[i] as int == credit2_upto(
                s,
                i,
                j as int + 1,
            ) && c2@[i] as int <= 2 * prefix_width(s, j as int + 1) by {
                assert(credit2_upto(s, i, j as int + 1) == credit2_upto(s, i, j as int) + contrib2(
                    s,
                    j as int,
                    i,
                ));
                assert(c2@[i] as int == c2_old[i] as int + contrib2(s, j as int, i));
            }
        }
        j += 1;
    }
    let mut out: Vec<(Rat, usize)> = Vec::new();
    let mut i: usize = 0;
    while i < n
        invariant
            out@.len() == i,
            i <= n,
            forall|q: int| 0 <= q < i ==> #[trigger] vel_entry_ok(s, out@, q),
        decreases n - i,
    {
        let ghost out_old = out@;
        proof {
            lemma_credit2_upto_bound(s, i as int, n as int);
            lemma_spans_mono(s, i as int);
        }
        let credit = match Rat::new(c2[i] as i64, 2) {
            Some(c) => c,
            None => {
                proof {
                    assert(false);
                }
                vstd::pervasive::unreached()
            },
        };
        let w: usize = parts[i].hi - parts[i].lo;
        out.push((credit, w));
        proof {
            assert forall|q: int| 0 <= q < i as int + 1 implies #[trigger] vel_entry_ok(
                s,
                out@,
                q,
            ) by {
                if q < i as int {
                    assert(vel_entry_ok(s, out_old, q));
                    assert(out@[q] == out_old[q]);
                }
            }
        }
        i += 1;
    }
    out
}

/// Sum of the contributions of segment `j` to the first `iend` credits.
pub open spec fn row_sum(s: Seq<Part>, j: int, iend: int) -> int
    decreases iend,
{
    if iend <= 0 {
        0
    } else {
        row_sum(s, j, iend - 1) + contrib2(s, j, iend - 1)
    }
}

/// Sum of the first `iend` accumulated credits after distributing the
/// first `j` segments.
pub open spec fn sum_credit2_upto(s: Seq<Part>, iend: int, j: int) -> int
    decreases iend,
{
    if iend <= 0 {
        0
    } else {
        sum_credit2_upto(s, iend - 1, j) + credit2_upto(s, iend - 1, j)
    }
}

/// A segment that does not accept water directly sheds it somewhere:
/// one of its walks finds a destination.
proof fn lemma_not_accepts_dest(s: Seq<Part>, j: int)
    requires
        parts_seq_wf(s),
        0 <= j < s.len(),
        !accepts_water(s, j),
    ensures
        dest_in(s, j, Direction::Left) is Some || dest_in(s, j, Direction::Right) is Some,
{
    if j > 0 && !frac_lt(s[j].height@, s[j - 1].height@) {
        assert(!frac_eq(s[j - 1].height@, s[j].height@));
        assert(frac_lt(s[j - 1].height@, s[j].height@));
        assert(run_end_left(s, j) == run_end_left(s, j - 1));
        lemma_run_left(s, j - 1);
    } else {
        assert(j < s.len() - 1 && !frac_lt(s[j].height@, s[j + 1].height@));
        assert(!frac_eq(s[j].height@, s[j + 1].height@));
        assert(frac_lt(s[j + 1].height@, s[j].height@));
        assert(run_end_right(s, j) == run_end_right(s, j + 1));
        lemma_run_right(s, j + 1);
    }
}

/// A full row of contributions sums to twice the segment's own width:
/// every segment's water is credited somewhere in full.
proof fn lemma_row_sum(s: Seq<Part>, j: int, iend: int)
    requires
        parts_seq_wf(s),
        0 <= j < s.len(),
        0 <= iend <= s.len(),
    ensures
        row_sum(s, j, iend) == if accepts_water(s, j) {
            if j < iend {
                2 * width(s, j)
            } else {
                0
            }
        } else {
            match (dest_in(s, j, Direction::Left), dest_in(s, j, Direction::Right)) {
                (Some(l), Some(r)) => (if l < iend {
                    width(s, j)
                } else {
                    0
                }) + (if r < iend {
                    width(s, j)
                } else {
                    0
                }),
                (Some(l), None) => if l < iend {
                    2 * width(s, j)
                } else {
                    0
                },
                (None, Some(r)) => if r < iend {
                    2 * width(s, j)
                } else {
                    0
                },
                (None, None) => 0,
            }
        },
    decreases iend,
{
    if !accepts_water(s, j) {
        if dest_in(s, j, Direction::Left) is Some {
            lemma_run_left(s, j);
        }
        if dest_in(s, j, Direction::Right) is Some {
            lemma_run_right(s, j);
        }
    }
    if iend > 0 {
        lemma_row_sum(s, j, iend - 1);
        assert(row_sum(s, j, iend) == row_sum(s, j, iend - 1) + contrib2(s, j, iend - 1));
        let i = iend - 1;
        let w = width(s, j);
        if accepts_water(s, j) {
            assert(contrib2(s, j, i) == if i == j {
                2 * w
            } else {
                0
            });
        } else {
            if dest_in(s, j, Direction::Left) is Some {
                lemma_run_left(s, j);
            }
            if dest_in(s, j, Direction::Right) is Some {
                lemma_run_right(s, j);
            }
            match (dest_in(s, j, Direction::Left), dest_in(s, j, Direction::Right)) {
                (Some(l), Some(r)) => {
                    assert(contrib2(s, j, i) == (if i == l {
                        w
                    } else {
                        0
                    }) + (if i == r {
                        w
                    } else {
                        0
                    }));
                },
                (Some(l), None) => {
                    assert(contrib2(s, j, i) == if i == l {
                        2 * w
                    } else {
                        0
                    });
                },
                (None, Some(r)) => {
                    assert(contrib2(s, j, i) == if i == r {
                        2 * w
                    } else {
                        0
                    });
                },
                (None, None) => {
                    assert(contrib2(s, j, i) == 0);
                },
            }
        }
    }
}

/// Distributing one more segment adds its row to the column totals.
proof fn lemma_sum_split(s: Seq<Part>, iend: int, j: int)
    requires
        0 <= iend,
    ensures
        sum_credit2_upto(s, iend, j + 1) == sum_credit2_upto(s, iend, j) + row_sum(s, j, iend),
    decreases iend,
{
    if iend > 0 {
        lemma_sum_split(s, iend - 1, j);
    }
}

/// Before any segment is distributed, every credit is zero.
proof fn lemma_sum_zero(s: Seq<Part>, iend: int)
    requires
        0 <= iend,
    ensures
        sum_credit2_upto(s, iend, 0) == 0,
    decreases iend,
{
    if iend > 0 {
        lemma_sum_zero(s, iend - 1);
    }
}

/// Credit conservation up to `j`: the credits distributed by the first
/// `j` segments total exactly twice the width they cover.
proof fn lemma_credit2_total_upto(s: Seq<Part>, j: int)
    requires
        parts_seq_wf(s),
        0 <= j <= s.len(),
    ensures
        sum_credit2_upto(s, s.len() as int, j) == 2 * prefix_width(s, j),
    decreases j,
{
    if j == 0 {
        lemma_sum_zero(s, s.len() as int);
    } else {
        lemma_credit2_total_upto(s, j - 1);
        lemma_sum_split(s, s.len() as int, j - 1);
        lemma_row_sum(s, j - 1, s.len() as int);
        if !accepts_water(s, j - 1) {
            lemma_not_accepts_dest(s, j - 1);
            if dest_in(s, j - 1, Direction::Left) is Some {
                lemma_run_left(s, j - 1);
            }
            if dest_in(s, j - 1, Direction::Right) is Some {
                lemma_run_right(s, j - 1);
            }
        }
        assert(prefix_width(s, j) == prefix_width(s, j - 1) + width(s, j - 1));
    }
}

/// Credit conservation: the accumulated credits of all segments total
/// exactly twice the number of covered positions — in aggregate every
/// position is credited one unit of water per time unit.
pub proof fn lemma_credit2_total(s: Seq<Part>)
    requires
        parts_seq_wf(s),
    ensures
        sum_credit2_upto(s, s.len() as int, s.len() as int) == 2 * positions(s),
{
    lemma_credit2_total_upto(s, s.len() as int);
}

/// The immediate left neighbour exists and is strictly taller.
pub open spec fn left_gap(s: Seq<Part>, i: int) -> bool {
    i > 0 && frac_lt(s[i].height@, s[i - 1].height@)
}

/// The immediate right neighbour exists and is strictly taller.
pub open spec fn right_gap(s: Seq<Part>, i: int) -> bool {
    i + 1 < s.len() && frac_lt(s[i].height@, s[i + 1].height@)
}

/// The neighbour height that segment `i` will reach at its candidate
/// event: the nearer of the two taller neighbours, the left one on ties.
pub open spec fn cand_target(s: Seq<Part>, i: int) -> Rat {
    if left_gap(s, i) && right_gap(s, i) {
        if frac_le(
            frac_sub(s[i - 1].height@, s[i].height@),
            frac_sub(s[i + 1].height@, s[i].height@),
        ) {
            s[i - 1].height
        } else {
            s[i + 1].height
        }
    } else if left_gap(s, i) {
        s[i - 1].height
    } else {
        s[i + 1].height
    }
}

/// Whether segment `i` contributes a candidate event: it must be rising
/// and have a strictly taller neighbour to grow toward.
pub open spec fn has_cand(s: Seq<Part>, i: int) -> bool {
    credit2(s, i) > 0 && (left_gap(s, i) || right_gap(s, i))
}

/// Time until segment `i` reaches its candidate target, at its fill rate.
pub open spec fn cand_time(s: Seq<Part>, i: int) -> Frac {
    frac_div(frac_sub(cand_target(s, i)@, s[i].height@), rate_of(s, i))
}

/// A candidate time is a well-formed, strictly positive fraction.
pub proof fn lemma_cand_time_wf(s: Seq<Part>, q: int)
    requires
        parts_seq_wf(s),
        0 <= q < s.len(),
        has_cand(s, q),
    ensures
        frac_wf(cand_time(s, q)),
        frac_lt(frac_int(0), cand_time(s, q)),
{
    let tgt = cand_target(s, q)@;
    let cur = s[q].height@;
    crate::rat::lemma_frac_ops_wf(tgt, cur);
    let gi = frac_sub(tgt, cur);
    assert(frac_lt(cur, tgt));
    assert(gi.n > 0);
    assert(frac_wf(rate_of(s, q)));
    lemma_frac_div_pos(gi, rate_of(s, q));
}

/// The exact values the event detector computes for segment `i` (the
/// gaps to taller neighbours and the candidate time) all have `i64`
/// representations; detection succeeds exactly when every segment's do.
pub open spec fn cand_fits(s: Seq<Part>, i: int) -> bool {
    &&& credit2(s, i) > 0 && left_gap(s, i) ==> crate::rat::representable(
        frac_sub(s[i - 1].height@, s[i].height@),
    )
    &&& credit2(s, i) > 0 && right_gap(s, i) ==> crate::rat::representable(
        frac_sub(s[i + 1].height@, s[i].height@),
    )
    &&& credit2(s, i) > 0 && (left_gap(s, i) || right_gap(s, i))
        ==> crate::rat::representable(cand_time(s, i))
}

/// A correct simultaneous event report: `list` holds exactly the indices
/// whose candidate time equals `dt` (ascending, with their resulting
/// heights), and `dt` is the minimum of all candidate times.
pub open spec fn event_ok(s: Seq<Part>, list: Seq<(usize, Rat)>, dt: Rat) -> bool {
    &&& frac_wf(dt@)
    &&& frac_lt(frac_int(0), dt@)
    &&& list.len() > 0
    &&& forall|k: int|
        0 <= k < list.len() ==> {
            let i = (#[trigger] list[k]).0 as int;
            0 <= i < s.len() && has_cand(s, i) && frac_eq(cand_time(s, i), dt@) && list[k].1
                == cand_target(s, i)
        }
    &&& forall|k: int| 0 <= k && k + 1 < list.len() ==> (#[trigger] list[k]).0 < list[k + 1].0
    &&& forall|i: int|
        0 <= i < s.len() && #[trigger] has_cand(s, i) ==> frac_le(dt@, cand_time(s, i))
    &&& forall|i: int|
        0 <= i < s.len() && #[trigger] has_cand(s, i) && frac_eq(cand_time(s, i), dt@)
            ==> exists|k: int| 0 <= k < list.len() && (#[trigger] list[k]).0 as int == i
}

/// A correct "next change" answer for the configuration `s`.
pub open spec fn next_ok(s: Seq<Part>, nc: Option<(Seq<(usize, Rat)>, Rat)>) -> bool {
    match nc {
        Option::None => forall|i: int| 0 <= i < s.len() ==> !(#[trigger] has_cand(s, i)),
        Option::Some((list, dt)) => event_ok(s, list, dt),
    }
}

/// View of an executable "next change" value.
pub open spec fn lift_nc(nc: Option<(Vec<(usize, Rat)>, Rat)>) -> Option<(Seq<(usize, Rat)>, Rat)> {
    match nc {
        Option::None => Option::None,
        Option::Some((list, dt)) => Option::Some((list@, dt)),
    }
}

/// Compute the next topology change: the set of segments (ascending,
/// with resulting heights) that simultaneously reach a taller neighbour
/// first, together with the time until that happens; `None` when the
/// configuration is permanently stable.  `Err(Overflow)` reports an
/// exact value that left the `i64` fraction range.
#[verifier::loop_isolation(false)]
pub fn calculate_next_configuration_change(parts: &Vec<Part>, velocities: &Vec<(Rat, usize)>) -> (r:
    Result<Option<(Vec<(usize, Rat)>, Rat)>, Error>)
    requires
        parts_seq_wf(parts@),
        positions(parts@) < 0x4000_0000_0000_0000,
        velocities@.len() == parts@.len(),
        forall|i: int| 0 <= i < parts@.len() ==> #[trigger] vel_entry_ok(parts@, velocities@, i),
    ensures
        r matches Ok(nc) ==> next_ok(parts@, lift_nc(nc)),
        r matches Err(e) ==> e == Error::Overflow,
        r is Ok <==> forall|i: int| 0 <= i < parts@.len() ==> #[trigger] cand_fits(parts@, i),
{
    let ghost s = parts@;
    let n = parts.len();
    let mut best_list: Vec<(usize, Rat)> = Vec::new();
    let mut best_dt: Option<Rat> = None;
    let mut i: usize = 0;
    while i < n
        invariant
            i <= n,
            forall|q: int| 0 <= q < i ==> #[trigger] cand_fits(s, q),
            best_dt is None ==> best_list@.len() == 0 && forall|q: int|
                0 <= q < i ==> !(#[trigger] has_cand(s, q)),
            best_dt matches Some(bt) ==> frac_wf(bt@) && frac_lt(frac_int(0), bt@)
                && best_list@.len() > 0,
            best_dt matches Some(bt) ==> forall|k: int|
                0 <= k < best_list@.len() ==> {
                    let q = (#[trigger] best_list@[k]).0 as int;
                    0 <= q < i as int && has_cand(s, q) && frac_eq(cand_time(s, q), bt@)
                        && best_list@[k].1 == cand_target(s, q)
                },
            best_dt matches Some(bt) ==> forall|k: int|
                0 <= k && k + 1 < best_list@.len() ==> (#[trigger] best_list@[k]).0 < best_list@[k
                + 1].0,
            best_dt matches Some(bt) ==> forall|q: int|
                0 <= q < i && #[trigger] has_cand(s, q) ==> frac_le(bt@, cand_time(s, q)),
            best_dt matches Some(bt) ==> forall|q: int|
                0 <= q < i && #[trigger] has_cand(s, q) && frac_eq(cand_time(s, q), bt@)
                    ==> exists|k: int|
                    0 <= k < best_list@.len() && (#[trigger] best_list@[k]).0 as int == q,
        decreases n - i,
    {
        let credit = velocities[i].0;
        let w = velocities[i].1;
        proof {
            assert(vel_entry_ok(s, velocities@, i as int));
            lemma_credit2_upto_bound(s, i as int, n as int);
            lemma_spans_mono(s, i as int);
        }
        if Rat::from_int(0).lt(credit) {
            proof {
                lemma_frac_cmp_congr(
                    frac_int(0),
                    frac_int(0),
                    credit@,
                    Frac { n: credit2(s, i as int), d: 2 },
                );
                assert(credit2(s, i as int) > 0);
            }
            let cur = parts[i].height;
            let left_taller = i > 0 && cur.lt(parts[i - 1].height);
            let right_taller = i + 1 < n && cur.lt(parts[i + 1].height);
            if left_taller || right_taller {
                let mut use_left: bool = left_taller;
                if left_taller && right_taller {
                    let lg = match parts[i - 1].height.sub(cur) {
                        Some(g) => g,
                        None => {
                            proof {
                                assert(!cand_fits(s, i as int));
                            }
                            return Err(Error::Overflow);
                        },
                    };
                    let rg = match parts[i + 1].height.sub(cur) {
                        Some(g) => g,
                        None => {
                            proof {
                                assert(!cand_fits(s, i as int));
                            }
                            return Err(Error::Overflow);
                        },
                    };
                    use_left = lg.le(rg);
                    proof {
                        let sl = frac_sub(s[i as int - 1].height@, s[i as int].height@);
                        let sr = frac_sub(s[i as int + 1].height@, s[i as int].height@);
                        crate::rat::lemma_frac_ops_wf(s[i as int - 1].height@, s[i as int].height@);
                        crate::rat::lemma_frac_ops_wf(s[i as int + 1].height@, s[i as int].height@);
                        lemma_frac_cmp_congr(lg@, sl, rg@, sr);
                        assert(use_left == frac_le(sl, sr));
                    }
                }
                let target: Rat = if use_left {
                    parts[i - 1].height
                } else {
                    parts[i + 1].height
                };
                proof {
                    assert(target == cand_target(s, i as int));
                }
                let gap = match target.sub(cur) {
                    Some(g) => g,
                    None => {
                        proof {
                            assert(!cand_fits(s, i as int));
                        }
                        return Err(Error::Overflow);
                    },
                };
                let w_rat = Rat::from_int(w as i64);
                let ghost fd = frac_div(credit@, w_rat@);
                proof {
                    // the rate itself is always representable, so this
                    // division cannot fail
                    assert(credit2(s, i as int) * fd.d == fd.n * (2 * (w as int)))
                        by (nonlinear_arith)
                        requires
                            credit@.n * 2 == credit2(s, i as int) * credit@.d,
                            fd == (Frac { n: credit@.n * 1, d: credit@.d * (w as int) }),
                    ;
                    assert(crate::rat::representable(fd));
                }
                let vel = match credit.div(w_rat) {
                    Some(v) => v,
                    None => {
                        proof {
                            assert(false);
                        }
                        vstd::pervasive::unreached()
                    },
                };
                proof {
                    let gi = frac_sub(cand_target(s, i as int)@, s[i as int].height@);
                    let ri = rate_of(s, i as int);
                    crate::rat::lemma_frac_ops_wf(cand_target(s, i as int)@, s[i as int].height@);
                    assert(frac_wf(ri));
                    assert(frac_eq(gap@, gi));
                    assert(gi.n > 0);
                    assert(frac_lt(frac_int(0), gap@)) by {
                        lemma_frac_cmp_congr(frac_int(0), frac_int(0), gap@, gi);
                    }
                    assert(gap@.n > 0);
                    // vel corresponds to the spec rate
                    assert(frac_eq(vel@, fd));
                    assert(credit@.n > 0) by {
                        crate::rat::lemma_frac_pos_num(credit@);
                    }
                    lemma_frac_div_pos(credit@, w_rat@);
                    lemma_frac_div_pos(Frac { n: credit2(s, i as int), d: 2 }, w_rat@);
                    assert(frac_eq(fd, ri)) by {
                        lemma_frac_div_congr(
                            credit@,
                            Frac { n: credit2(s, i as int), d: 2 },
                            w_rat@,
                            w_rat@,
                        );
                        assert(frac_div(Frac { n: credit2(s, i as int), d: 2 }, w_rat@) == (Frac {
                            n: credit2(s, i as int) * 1,
                            d: 2 * (w as int),
                        }));
                        assert(frac_eq(
                            Frac { n: credit2(s, i as int) * 1, d: 2 * (w as int) },
                            ri,
                        ));
                        lemma_frac_eq_trans(
                            fd,
                            frac_div(Frac { n: credit2(s, i as int), d: 2 }, w_rat@),
                            ri,
                        );
                    }
                    assert(frac_eq(vel@, ri)) by {
                        lemma_frac_eq_trans(vel@, fd, ri);
                    }
                    assert(vel@.n > 0) by {
                        lemma_frac_cmp_congr(frac_int(0), frac_int(0), vel@, ri);
                        assert(frac_lt(frac_int(0), ri));
                    }
                    // the quotient below has the candidate time's value
                    assert(frac_eq(frac_div(gap@, vel@), cand_time(s, i as int))) by {
                        lemma_frac_div_congr(gap@, gi, vel@, ri);
                    }
                    lemma_frac_div_pos(gi, ri);
                    lemma_frac_div_pos(gap@, vel@);
                    crate::rat::lemma_representable_congr(
                        frac_div(gap@, vel@),
                        cand_time(s, i as int),
                    );
                    assert(has_cand(s, i as int));
                }
                let t = match gap.div(vel) {
                    Some(v) => v,
                    None => {
                        proof {
                            assert(!cand_fits(s, i as int));
                        }
                        return Err(Error::Overflow);
                    },
                };
                proof {
                    assert(frac_eq(t@, cand_time(s, i as int))) by {
                        lemma_frac_eq_trans(
                            t@,
                            frac_div(gap@, vel@),
                            cand_time(s, i as int),
                        );
                    }
                    assert(frac_wf(cand_time(s, i as int)) && frac_lt(
                        frac_int(0),
                        cand_time(s, i as int),
                    ));
                    assert(frac_lt(frac_int(0), t@)) by {
                        lemma_frac_cmp_congr(
                            frac_int(0),
                            frac_int(0),
                            t@,
                            frac_div(gap@, vel@),
                        );
                    }
                    assert(cand_fits(s, i as int));
                }
                match best_dt {
                    None => {
                        best_list = vec![(i, target)];
                        best_dt = Some(t);
                        proof {
                            assert(best_list@[0].0 as int == i as int);
                        }
                    },
                    Some(bt) => {
                        if t.eq_rat(bt) {
                            proof {
                                lemma_frac_eq_trans(cand_time(s, i as int), t@, bt@);
                            }
                            let ghost old_list = best_list@;
                            best_list.push((i, target));
                            proof {
                                assert(best_list@[old_list.len() as int].0 as int == i as int);
                                assert forall|q: int|
                                    0 <= q < i as int + 1 && #[trigger] has_cand(s, q) && frac_eq(
                                    cand_time(s, q),
                                    bt@,
                                ) implies exists|k: int|
                                    0 <= k < best_list@.len() && (#[trigger] best_list@[k]).0
                                        as int == q by {
                                    if q < i as int {
                                        let k = choose|k: int|
                                            0 <= k < old_list.len() && (#[trigger] old_list[k]).0
                                                as int == q;
                                        assert(best_list@[k].0 as int == q);
                                    } else {
                                        assert(best_list@[old_list.len() as int].0 as int == q);
                                    }
                                }
                            }
                        } else if t.lt(bt) {
                            proof {
                                assert forall|q: int|
                                    0 <= q < i && #[trigger] has_cand(s, q) implies frac_le(
                                    t@,
                                    cand_time(s, q),
                                ) by {
                                    lemma_cand_time_wf(s, q);
                                    crate::rat::lemma_frac_le_trans(t@, bt@, cand_time(s, q));
                                }
                                assert forall|q: int|
                                    0 <= q < i && #[trigger] has_cand(s, q) implies !frac_eq(
                                    cand_time(s, q),
                                    t@,
                                ) by {
                                    lemma_cand_time_wf(s, q);
                                    if frac_eq(cand_time(s, q), t@) {
                                        lemma_frac_cmp_congr(bt@, bt@, cand_time(s, q), t@);
                                    }
                                }
                            }
                            best_list = vec![(i, target)];
                            best_dt = Some(t);
                            proof {
                                assert(best_list@[0].0 as int == i as int);
                            }
                        } else {
                            proof {
                                assert(frac_le(bt@, t@));
                                assert(frac_le(bt@, cand_time(s, i as int))) by {
                                    lemma_frac_cmp_congr(bt@, bt@, t@, cand_time(s, i as int));
                                }
                                assert(!frac_eq(cand_time(s, i as int), bt@)) by {
                                    if frac_eq(cand_time(s, i as int), bt@) {
                                        lemma_frac_cmp_congr(bt@, cand_time(s, i as int), t@, t@);
                                        lemma_frac_cmp_congr(t@, cand_time(s, i as int), t@, t@);
                                    }
                                }
                            }
                        }
                    },
                }
            } else {
                proof {
                    assert(!left_gap(s, i as int) && !right_gap(s, i as int));
                    assert(cand_fits(s, i as int));
                }
            }
        } else {
            proof {
                lemma_frac_cmp_congr(
                    frac_int(0),
                    frac_int(0),
                    credit@,
                    Frac { n: credit2(s, i as int), d: 2 },
                );
                assert(!has_cand(s, i as int));
                assert(cand_fits(s, i as int));
            }
        }
        i += 1;
    }
    match best_dt {
        None => Ok(None),
        Some(bt) => Ok(Some((best_list, bt))),
    }
}

/// Spans of a well-formed partition are ordered.
pub proof fn lemma_spans_ordered(s: Seq<Part>, k: int, j: int)
    requires
        spans_ok(s),
        0 <= k < j < s.len(),
    ensures
        s[k].hi <= s[j].lo,
    decreases j - k,
{
    if k + 1 < j {
        lemma_spans_ordered(s, k + 1, j);
    }
}

/// The segment containing a position is unique.
pub proof fn lemma_seg_of_unique(s: Seq<Part>, pos: int, k: int)
    requires
        spans_ok(s),
        0 <= k < s.len(),
        s[k].lo <= pos < s[k].hi,
    ensures
        seg_of(s, pos) == k,
{
    lemma_spans_mono(s, k);
    assert(0 <= pos < positions(s)) by {
        if k + 1 < s.len() {
            lemma_spans_ordered(s, k, s.len() - 1);
        }
    }
    lemma_seg_of(s, pos);
    let m = seg_of(s, pos);
    if m < k {
        lemma_spans_ordered(s, m, k);
    } else if m > k {
        lemma_spans_ordered(s, k, m);
    }
}

/// Number of adjacent equal-height pairs among the first `m` segments.
pub open spec fn adj_eq_count(s: Seq<Part>, m: int) -> int
    decreases m,
{
    if m <= 1 {
        0
    } else {
        adj_eq_count(s, m - 1) + if frac_eq(s[m - 2].height@, s[m - 1].height@) {
            1int
        } else {
            0int
        }
    }
}

/// The pair count is nonnegative and monotone in the prefix length.
pub proof fn lemma_aec_mono(s: Seq<Part>, m1: int, m2: int)
    requires
        m1 <= m2,
    ensures
        0 <= adj_eq_count(s, m1) <= adj_eq_count(s, m2),
    decreases m2 - m1, m2,
{
    if m1 < m2 {
        lemma_aec_mono(s, m1, m2 - 1);
    } else if m1 > 1 {
        lemma_aec_mono(s, m1 - 1, m1 - 1);
    }
}

/// One step of grouping: fuse `p` into the last accumulated segment when
/// their heights are equal as rationals, else append it as a new segment.
pub open spec fn group_step(acc: Seq<Part>, p: Part) -> Seq<Part> {
    if acc.len() > 0 && frac_eq(acc.last().height@, p.height@) {
        acc.update(
            acc.len() - 1,
            Part { height: acc.last().height, lo: acc.last().lo, hi: p.hi },
        )
    } else {
        acc.push(p)
    }
}

/// The grouped form of the first `m` segments of `raw`: every maximal
/// run of equal heights fused into one segment.
pub open spec fn grouped_spec(raw: Seq<Part>, m: int) -> Seq<Part>
    decreases m,
{
    if m <= 0 {
        Seq::empty()
    } else {
        group_step(grouped_spec(raw, m - 1), raw[m - 1])
    }
}

/// Fuse every run of adjacent equal-height segments into one segment,
/// keeping per-position heights; a single left-to-right pass reaches the
/// fixed point because rational equality is transitive along a run.
#[verifier::loop_isolation(false)]
#[verifier::rlimit(60)]
fn group_parts(raw: &Vec<Part>) -> (out: Vec<Part>)
    requires
        raw@.len() > 0,
        spans_ok(raw@),
        heights_wf(raw@),
    ensures
        parts_seq_wf(out@),
        positions(out@) == positions(raw@),
        forall|pos: int|
            0 <= pos < positions(raw@) ==> frac_eq(
                #[trigger] level_of(out@, pos),
                level_of(raw@, pos),
            ),
        out@ == grouped_spec(raw@, raw@.len() as int),
        out@.len() == raw@.len() - adj_eq_count(raw@, raw@.len() as int),
        out@.len() <= raw@.len(),
        (exists|k: int|
            0 <= k && k + 1 < raw@.len() && frac_eq(
                #[trigger] raw@[k].height@,
                raw@[k + 1].height@,
            )) ==> out@.len() < raw@.len(),
{
    let ghost s = raw@;
    let n = raw.len();
    let mut out: Vec<Part> = Vec::new();
    let mut cur: Part = raw[0];
    let mut j: usize = 1;
    proof {
        assert(grouped_spec(s, 0) == Seq::<Part>::empty());
        assert(out@.push(cur) =~= grouped_spec(s, 1));
    }
    while j < n
        invariant
            1 <= j <= n,
            cur.lo < cur.hi,
            cur.hi == s[j - 1].hi,
            frac_wf(cur.height@),
            frac_eq(cur.height@, s[j - 1].height@),
            out@.len() == 0 ==> cur.lo == 0,
            out@.len() > 0 ==> out@[0].lo == 0 && out@.last().hi == cur.lo && !frac_eq(
                out@.last().height@,
                cur.height@,
            ),
            forall|q: int| 0 <= q < out@.len() ==> (#[trigger] out@[q].lo) < out@[q].hi,
            forall|q: int| 0 <= q && q + 1 < out@.len() ==> (#[trigger] out@[q].hi) == out@[q
                + 1].lo,
            forall|q: int|
                0 <= q < out@.len() ==> frac_wf(#[trigger] out@[q].height@),
            forall|q: int|
                0 <= q && q + 1 < out@.len() ==> !frac_eq(
                    #[trigger] out@[q].height@,
                    out@[q + 1].height@,
                ),
            forall|q: int, pos: int|
                0 <= q < out@.len() && (#[trigger] out@[q]).lo <= pos < out@[q].hi ==> frac_eq(
                    out@[q].height@,
                    #[trigger] level_of(s, pos),
                ),
            forall|pos: int|
                cur.lo <= pos < cur.hi ==> frac_eq(cur.height@, #[trigger] level_of(s, pos)),
            out@.len() + 1 == j - adj_eq_count(s, j as int),
            out@.push(cur) == grouped_spec(s, j as int),
        decreases n - j,
    {
        let ghost out_old = out@;
        let ghost cur_old = cur;
        let p = raw[j];
        proof {
            lemma_seg_of_unique(s, p.lo as int, j as int);
            assert forall|pos: int| p.lo <= pos < p.hi implies frac_eq(
                p.height@,
                #[trigger] level_of(s, pos),
            ) by {
                lemma_seg_of_unique(s, pos, j as int);
            }
        }
        if p.height.eq_rat(cur.height) {
            cur.hi = p.hi;
            proof {
                lemma_frac_eq_trans(s[j - 1].height@, cur_old.height@, s[j as int].height@);
                assert(adj_eq_count(s, j as int + 1) == adj_eq_count(s, j as int) + 1);
                assert(out@.push(cur) =~= grouped_spec(s, j as int).update(
                    grouped_spec(s, j as int).len() - 1,
                    Part { height: cur_old.height, lo: cur_old.lo, hi: p.hi },
                ));
                assert(out@.push(cur) == grouped_spec(s, j as int + 1));
                assert forall|pos: int| cur.lo <= pos < cur.hi implies frac_eq(
                    cur.height@,
                    #[trigger] level_of(s, pos),
                ) by {
                    if pos >= cur_old.hi {
                        lemma_seg_of_unique(s, pos, j as int);
                        lemma_frac_eq_trans(cur.height@, p.height@, level_of(s, pos));
                    }
                }
            }
        } else {
            proof {
                if frac_eq(s[j - 1].height@, s[j as int].height@) {
                    lemma_frac_eq_trans(cur.height@, s[j - 1].height@, s[j as int].height@);
                }
                assert(adj_eq_count(s, j as int + 1) == adj_eq_count(s, j as int));
                assert(!frac_eq(cur.height@, p.height@));
            }
            out.push(cur);
            proof {
                assert(out@.push(p) =~= grouped_spec(s, j as int).push(p));
                assert(out@.push(p) == grouped_spec(s, j as int + 1));
            }
            cur = p;
        }
        j += 1;
    }
    let ghost out_old = out@;
    out.push(cur);
    proof {
        let res = out@;
        assert(res.last() == cur);
        lemma_aec_mono(s, n as int, n as int);
        assert(res.len() == n - adj_eq_count(s, n as int));
        if exists|k: int|
            0 <= k && k + 1 < s.len() && frac_eq(#[trigger] s[k].height@, s[k + 1].height@) {
            let k = choose|k: int|
                0 <= k && k + 1 < s.len() && frac_eq(#[trigger] s[k].height@, s[k + 1].height@);
            assert(adj_eq_count(s, k + 2) == adj_eq_count(s, k + 1) + 1);
            lemma_aec_mono(s, k + 1, k + 1);
            lemma_aec_mono(s, k + 2, n as int);
        }
        assert(spans_ok(res)) by {
            assert forall|q: int| 0 <= q < res.len() implies (#[trigger] res[q].lo) < res[q].hi by {
                if q < out_old.len() {
                    assert(res[q] == out_old[q]);
                }
            }
            assert forall|q: int| 0 <= q && q + 1 < res.len() implies (#[trigger] res[q].hi)
                == res[q + 1].lo by {
                if q + 1 < out_old.len() {
                    assert(res[q] == out_old[q]);
                    assert(res[q + 1] == out_old[q + 1]);
                } else {
                    assert(res[q + 1] == cur);
                }
            }
        }
        assert(positions(res) == positions(s));
        assert forall|pos: int| 0 <= pos < positions(s) implies frac_eq(
            #[trigger] level_of(res, pos),
            level_of(s, pos),
        ) by {
            lemma_seg_of(res, pos);
            let q = seg_of(res, pos);
            lemma_seg_of_unique(res, pos, q);
            if q < out_old.len() {
                assert(res[q] == out_old[q]);
            } else {
                assert(res[q] == cur);
            }
        }
    }
    out
}

/// The recorded resulting height of segment `i` in a change set, when
/// present.
pub open spec fn change_for(changes: Seq<(usize, Rat)>, i: int) -> Option<Rat>
    decreases changes.len(),
{
    if changes.len() == 0 {
        None
    } else if changes[0].0 as int == i {
        Some(changes[0].1)
    } else {
        change_for(changes.subrange(1, changes.len() as int), i)
    }
}

/// Height of segment `i` with the change set applied.
pub open spec fn applied_height(v: Seq<Part>, changes: Seq<(usize, Rat)>, i: int) -> Rat {
    match change_for(changes, i) {
        Some(h) => h,
        None => v[i].height,
    }
}

/// Height of position `pos` with the change set applied.
pub open spec fn applied_level(v: Seq<Part>, changes: Seq<(usize, Rat)>, pos: int) -> Frac {
    applied_height(v, changes, seg_of(v, pos))@
}

/// No change is recorded below the first change's index.
proof fn lemma_change_none(cs: Seq<(usize, Rat)>, j: int)
    requires
        forall|k: int| 0 <= k && k + 1 < cs.len() ==> (#[trigger] cs[k]).0 < cs[k + 1].0,
        cs.len() > 0 ==> cs[0].0 > j,
    ensures
        change_for(cs, j) is None,
    decreases cs.len(),
{
    if cs.len() > 0 {
        let sub = cs.subrange(1, cs.len() as int);
        assert(forall|k: int| 0 <= k < sub.len() ==> sub[k] == cs[k + 1]);
        lemma_change_none(sub, j);
    }
}

/// Locate a change by index during an ordered merge walk: when the
/// changes with indices below `j` are exactly the first `c`, the change
/// recorded for `j` is the `c`-th one or none.
proof fn lemma_change_at(cs: Seq<(usize, Rat)>, c: int, j: int)
    requires
        forall|k: int| 0 <= k && k + 1 < cs.len() ==> (#[trigger] cs[k]).0 < cs[k + 1].0,
        0 <= c <= cs.len(),
        forall|k: int| 0 <= k < c ==> (#[trigger] cs[k]).0 < j,
        forall|k: int| c <= k < cs.len() ==> (#[trigger] cs[k]).0 >= j,
    ensures
        c < cs.len() && cs[c].0 == j ==> change_for(cs, j) == Some(cs[c].1),
        (c >= cs.len() || cs[c].0 != j) ==> change_for(cs, j) is None,
    decreases cs.len(),
{
    if cs.len() == 0 {
    } else if c == 0 {
        if cs[0].0 as int == j {
        } else {
            lemma_change_none(cs, j);
        }
    } else {
        let sub = cs.subrange(1, cs.len() as int);
        assert(forall|k: int| 0 <= k < sub.len() ==> sub[k] == cs[k + 1]);
        lemma_change_at(sub, c - 1, j);
        assert(cs[0].0 < j);
    }
}

/// A recorded change comes from some entry of the change list.
pub proof fn lemma_change_for_member(cs: Seq<(usize, Rat)>, i: int)
    ensures
        change_for(cs, i) matches Some(h) ==> exists|k: int|
            0 <= k < cs.len() && (#[trigger] cs[k]).0 as int == i && cs[k].1 == h,
    decreases cs.len(),
{
    if cs.len() > 0 && cs[0].0 as int != i {
        let sub = cs.subrange(1, cs.len() as int);
        assert(forall|k: int| 0 <= k < sub.len() ==> sub[k] == cs[k + 1]);
        lemma_change_for_member(sub, i);
        if change_for(cs, i) is Some {
            let k = choose|k: int|
                0 <= k < sub.len() && (#[trigger] sub[k]).0 as int == i && sub[k].1 == change_for(
                    cs,
                    i,
                )->Some_0;
            assert(cs[k + 1].0 as int == i && cs[k + 1].1 == change_for(cs, i)->Some_0);
        }
    }
}

/// A change index that differs from every entry is not recorded.
proof fn lemma_change_for_absent(cs: Seq<(usize, Rat)>, x: int)
    requires
        forall|k: int| 0 <= k < cs.len() ==> (#[trigger] cs[k]).0 as int != x,
    ensures
        change_for(cs, x) is None,
    decreases cs.len(),
{
    if cs.len() > 0 {
        let sub = cs.subrange(1, cs.len() as int);
        assert(forall|k: int| 0 <= k < sub.len() ==> sub[k] == cs[k + 1]);
        lemma_change_for_absent(sub, x);
    }
}

/// Every entry of a strictly ascending change list is recorded at its index.
proof fn lemma_change_for_at_k(cs: Seq<(usize, Rat)>, k: int)
    requires
        forall|q: int| 0 <= q && q + 1 < cs.len() ==> (#[trigger] cs[q]).0 < cs[q + 1].0,
        0 <= k < cs.len(),
    ensures
        change_for(cs, cs[k].0 as int) == Some(cs[k].1),
    decreases k,
{
    if k > 0 {
        let sub = cs.subrange(1, cs.len() as int);
        assert(forall|q: int| 0 <= q < sub.len() ==> sub[q] == cs[q + 1]);
        lemma_changes_ascending(cs, 0, k);
        lemma_change_for_at_k(sub, k - 1);
        assert(sub[k - 1] == cs[k]);
    }
}

/// A changed segment forms an adjacent equal-height pair with the
/// neighbour its recorded height matches.
pub open spec fn pair_ok(s: Seq<Part>, i: int) -> bool {
    (i > 0 && frac_eq(s[i - 1].height@, s[i].height@)) || (i + 1 < s.len() && frac_eq(
        s[i].height@,
        s[i + 1].height@,
    ))
}

/// Index of that pair (the left one when both neighbours match).
pub open spec fn pair_pos(s: Seq<Part>, i: int) -> int {
    if i > 0 && frac_eq(s[i - 1].height@, s[i].height@) {
        i - 1
    } else {
        i
    }
}

/// Applying a valid change set creates at least one adjacent equal pair
/// per change, so regrouping must shrink the list by that many entries.
proof fn lemma_changes_make_pairs(s: Seq<Part>, cs: Seq<(usize, Rat)>, raw: Seq<Part>)
    requires
        s.len() > 0,
        spans_ok(s),
        heights_wf(s),
        forall|k: int|
            0 <= k < cs.len() ==> {
                let c = #[trigger] cs[k];
                let i = c.0 as int;
                &&& i < s.len()
                &&& frac_wf(c.1@)
                &&& ((i > 0 && frac_eq(c.1@, s[i - 1].height@)) || (i + 1 < s.len() && frac_eq(
                    c.1@,
                    s[i + 1].height@,
                )))
            },
        forall|k: int| 0 <= k && k + 1 < cs.len() ==> (#[trigger] cs[k]).0 + 2 <= cs[k + 1].0,
        cs.len() > 0,
        raw.len() == s.len(),
        forall|q: int|
            0 <= q < raw.len() ==> (#[trigger] raw[q]).lo == s[q].lo && raw[q].hi == s[q].hi
                && raw[q].height == applied_height(s, cs, q),
    ensures
        adj_eq_count(raw, raw.len() as int) >= cs.len(),
{
    assert forall|k: int| 0 <= k < cs.len() implies (#[trigger] cs[k]).0 < raw.len() && pair_ok(
        raw,
        cs[k].0 as int,
    ) by {
        let i = cs[k].0 as int;
        assert forall|q: int|
            0 <= q < cs.len() && q != k implies (#[trigger] cs[q]).0 as int != i - 1 && cs[q].0
                as int != i + 1 by {
            if q < k {
                assert(cs[k - 1].0 + 2 <= cs[k].0);
                if q < k - 1 {
                    lemma_changes_ascending(cs, q, k - 1);
                }
            } else {
                assert(cs[k].0 + 2 <= cs[k + 1].0);
                if q > k + 1 {
                    lemma_changes_ascending(cs, k + 1, q);
                }
            }
        }
        lemma_change_for_at_k(cs, k);
        assert(raw[i].height == cs[k].1);
        if i > 0 && frac_eq(cs[k].1@, s[i - 1].height@) {
            lemma_change_for_absent(cs, i - 1);
            assert(raw[i - 1].height == s[i - 1].height);
            assert(frac_eq(raw[i - 1].height@, raw[i].height@));
        } else {
            lemma_change_for_absent(cs, i + 1);
            assert(raw[i + 1].height == s[i + 1].height);
            assert(frac_eq(raw[i].height@, raw[i + 1].height@));
        }
    }
    lemma_pairs_count(raw, cs, cs.len() - 1);
    lemma_aec_mono(raw, pair_pos(raw, cs[cs.len() - 1].0 as int) + 2, raw.len() as int);
}

/// Changes at least two apart contribute distinct adjacent equal pairs,
/// so the pair count reaches the number of changes.
proof fn lemma_pairs_count(s: Seq<Part>, cs: Seq<(usize, Rat)>, kk: int)
    requires
        forall|k: int|
            0 <= k < cs.len() ==> (#[trigger] cs[k]).0 < s.len() && pair_ok(s, cs[k].0 as int),
        forall|k: int|
            0 <= k && k + 1 < cs.len() ==> (#[trigger] cs[k]).0 + 2 <= cs[k + 1].0,
        0 <= kk < cs.len(),
    ensures
        ({
            let p = pair_pos(s, cs[kk].0 as int);
            0 <= p && p + 1 < s.len() && p + 2 <= s.len() && adj_eq_count(s, p + 2) >= kk + 1
        }),
    decreases kk,
{
    let i = cs[kk].0 as int;
    let p = pair_pos(s, i);
    assert(pair_ok(s, i));
    assert(frac_eq(s[p].height@, s[p + 1].height@));
    assert(adj_eq_count(s, p + 2) == adj_eq_count(s, p + 1) + 1);
    if kk == 0 {
        lemma_aec_mono(s, p + 1, p + 1);
    } else {
        lemma_pairs_count(s, cs, kk - 1);
        let p0 = pair_pos(s, cs[kk - 1].0 as int);
        assert(cs[kk - 1].0 + 2 <= cs[kk].0);
        assert(p0 <= cs[kk - 1].0 as int);
        assert(p >= i - 1);
        lemma_aec_mono(s, p0 + 2, p + 1);
    }
}

/// Strictly ascending adjacent indices are strictly ascending overall.
proof fn lemma_changes_ascending(changes: Seq<(usize, Rat)>, k1: int, k2: int)
    requires
        forall|k: int|
            0 <= k && k + 1 < changes.len() ==> (#[trigger] changes[k]).0 < changes[k + 1].0,
        0 <= k1 < k2 < changes.len(),
    ensures
        changes[k1].0 < changes[k2].0,
    decreases k2 - k1,
{
    if k1 + 1 < k2 {
        lemma_changes_ascending(changes, k1 + 1, k2);
    }
}

/// The exact values produced when segment `i` is advanced by `time`
/// (its rate scaled by the offset, then added to its height) all have
/// `i64` representations; advancement succeeds exactly when every
/// segment's values do.
pub open spec fn advance_fits(s: Seq<Part>, off: Frac, i: int) -> bool {
    crate::rat::representable(frac_mul(rate_of(s, i), off)) && crate::rat::representable(
        frac_add(s[i].height@, frac_mul(rate_of(s, i), off)),
    )
}

/// Whether advancement fits depends only on the offset's value.
pub proof fn lemma_advance_fits_congr(s: Seq<Part>, o1: Frac, o2: Frac, i: int)
    requires
        parts_seq_wf(s),
        0 <= i < s.len(),
        frac_wf(o1),
        frac_wf(o2),
        frac_eq(o1, o2),
    ensures
        advance_fits(s, o1, i) == advance_fits(s, o2, i),
{
    let ri = rate_of(s, i);
    assert(frac_wf(ri));
    lemma_frac_mul_congr(ri, ri, o1, o2);
    crate::rat::lemma_frac_ops_wf(ri, o1);
    crate::rat::lemma_frac_ops_wf(ri, o2);
    crate::rat::lemma_representable_congr(frac_mul(ri, o1), frac_mul(ri, o2));
    lemma_frac_add_congr(s[i].height@, s[i].height@, frac_mul(ri, o1), frac_mul(ri, o2));
    crate::rat::lemma_frac_ops_wf(s[i].height@, frac_mul(ri, o1));
    crate::rat::lemma_frac_ops_wf(s[i].height@, frac_mul(ri, o2));
    crate::rat::lemma_representable_congr(
        frac_add(s[i].height@, frac_mul(ri, o1)),
        frac_add(s[i].height@, frac_mul(ri, o2)),
    );
}

/// The raw one-position-per-segment form of a height profile.
pub open spec fn unit_parts(v: Seq<Rat>) -> Seq<Part> {
    Seq::new(v.len(), |i: int| Part { height: v[i], lo: i as usize, hi: (i + 1) as usize })
}

/// Whether building a collection from the profile stays within `i64`
/// fractions: every candidate gap and time of the grouped segment list
/// is representable.
pub open spec fn new_parts_fits(v: Seq<Rat>) -> bool {
    let g = grouped_spec(unit_parts(v), v.len() as int);
    forall|i: int| 0 <= i < g.len() ==> #[trigger] cand_fits(g, i)
}

/// The segment list with every change's recorded height applied in place.
pub open spec fn applied_parts(v: Seq<Part>, cs: Seq<(usize, Rat)>) -> Seq<Part> {
    Seq::new(v.len(), |i: int| Part { height: applied_height(v, cs, i), lo: v[i].lo, hi: v[i].hi })
}

/// Whether rebuilding after the change set stays within `i64` fractions:
/// every candidate of the regrouped merged list is representable.
pub open spec fn merged_fits(v: Seq<Part>, cs: Seq<(usize, Rat)>) -> bool {
    let g = grouped_spec(applied_parts(v, cs), v.len() as int);
    forall|i: int| 0 <= i < g.len() ==> #[trigger] cand_fits(g, i)
}

/// An immutable segment collection: the ordered partition of all
/// original positions into segments, with its cached rate table and next
/// topology change, both pure functions of the segment list.
#[derive(Debug, Clone)]
pub struct Parts {
    inner: Vec<Part>,
    velocities: Vec<(Rat, usize)>,
    next_change: Option<(Vec<(usize, Rat)>, Rat)>,
}

impl View for Parts {
    type V = Seq<Part>;

    closed spec fn view(&self) -> Seq<Part> {
        self.inner@
    }
}

impl Parts {
    /// The cached rate table.
    pub closed spec fn vel_table(self) -> Seq<(Rat, usize)> {
        self.velocities@
    }

    /// The cached next topology change.
    pub closed spec fn next_event(self) -> Option<(Seq<(usize, Rat)>, Rat)> {
        lift_nc(self.next_change)
    }

    /// Well-formedness: a valid partition whose cached rate table and
    /// next-change answer are the ones derived from the segment list.
    pub open spec fn wf(self) -> bool {
        &&& parts_seq_wf(self@)
        &&& positions(self@) < 0x4000_0000_0000_0000
        &&& self.vel_table().len() == self@.len()
        &&& forall|i: int| 0 <= i < self@.len() ==> #[trigger] vel_entry_ok(self@, self.vel_table(), i)
        &&& next_ok(self@, self.next_event())
    }

    /// The ordered segment list.
    pub fn as_ref(&self) -> (r: &Vec<Part>)
        ensures
            r@ == self@,
    {
        &self.inner
    }

    /// Time and participants of the next topology change, or `None` for a
    /// permanently stable configuration.
    pub fn next_change(&self) -> (r: &Option<(Vec<(usize, Rat)>, Rat)>)
        ensures
            lift_nc(*r) == self.next_event(),
    {
        &self.next_change
    }

    /// Build a segment collection from a raw height profile, fusing
    /// adjacent equal heights, and derive the rate table and next change.
    /// Fails with `EmptyInput` exactly on an empty profile.
    #[verifier::loop_isolation(false)]
    pub fn new(v: &Vec<Rat>) -> (r: Result<Parts, Error>)
        requires
            v@.len() < 0x4000_0000_0000_0000,
        ensures
            r matches Err(e) && e == Error::EmptyInput <==> v@.len() == 0,
            r matches Err(e) ==> e == Error::EmptyInput || e == Error::Overflow,
            r is Ok <==> v@.len() > 0 && new_parts_fits(v@),
            r matches Ok(p) ==> {
                &&& p.wf()
                &&& positions(p@) == v@.len()
                &&& 1 <= p@.len() <= v@.len()
                &&& p@ == grouped_spec(unit_parts(v@), v@.len() as int)
                &&& forall|pos: int|
                    0 <= pos < v@.len() ==> frac_eq(#[trigger] level_of(p@, pos), v@[pos]@)
            },
    {
        if v.len() == 0 {
            return Err(Error::EmptyInput);
        }
        let ghost hs = v@;
        let n = v.len();
        let mut raw: Vec<Part> = Vec::new();
        let mut i: usize = 0;
        while i < n
            invariant
                i <= n,
                raw@.len() == i,
                forall|q: int|
                    0 <= q < i ==> (#[trigger] raw@[q]).lo == q && raw@[q].hi == q + 1
                        && raw@[q].height == hs[q] && frac_wf(raw@[q].height@),
            decreases n - i,
        {
            let h = v[i];
            proof {
                use_type_invariant(h);
            }
            let ghost raw_old = raw@;
            raw.push(Part { height: h, lo: i, hi: i + 1 });
            proof {
                assert forall|q: int|
                    0 <= q < i + 1 implies (#[trigger] raw@[q]).lo == q && raw@[q].hi == q + 1
                        && raw@[q].height == hs[q] && frac_wf(raw@[q].height@) by {
                    if q < i {
                        assert(raw@[q] == raw_old[q]);
                    } else {
                        assert(raw@[q] == (Part { height: h, lo: i, hi: (i + 1) as usize }));
                    }
                }
            }
            i += 1;
        }
        proof {
            assert(spans_ok(raw@));
            assert(heights_wf(raw@));
            assert(positions(raw@) == n as int);
            assert(raw@ =~= unit_parts(hs));
        }
        let grouped = group_parts(&raw);
        proof {
            assert forall|pos: int| 0 <= pos < v@.len() implies frac_eq(
                #[trigger] level_of(grouped@, pos),
                v@[pos]@,
            ) by {
                lemma_seg_of_unique(raw@, pos, pos);
                lemma_seg_of(grouped@, pos);
                crate::rat::lemma_frac_eq_trans(
                    level_of(grouped@, pos),
                    level_of(raw@, pos),
                    v@[pos]@,
                );
            }
        }
        Parts::finish(grouped)
    }

    /// Attach the derived rate table and next change to a well-formed
    /// segment list.
    fn finish(grouped: Vec<Part>) -> (r: Result<Parts, Error>)
        requires
            parts_seq_wf(grouped@),
            positions(grouped@) < 0x4000_0000_0000_0000,
        ensures
            r matches Err(e) ==> e == Error::Overflow,
            r matches Ok(p) ==> p.wf() && p@ == grouped@,
            r is Ok <==> forall|i: int|
                0 <= i < grouped@.len() ==> #[trigger] cand_fits(grouped@, i),
    {
        let velocities = calculate_filling_velocity(&grouped);
        let next_change = match calculate_next_configuration_change(&grouped, &velocities) {
            Ok(nc) => nc,
            Err(e) => {
                return Err(Error::Overflow);
            },
        };
        Ok(Parts { inner: grouped, velocities, next_change })
    }

    /// Rebuild a segment collection after a simultaneous set of topology
    /// changes: each changed segment's span takes the resulting height
    /// recorded for it, which must equal an adjacent neighbour's height,
    /// so fusing equal-height runs absorbs every changed span into that
    /// neighbour (cascades included).  Fails with `EmptyInput` exactly on
    /// an empty segment list.
    #[verifier::loop_isolation(false)]
    #[verifier::rlimit(100)]
    #[verifier::spinoff_prover]
    pub fn new_from_parts_and_changes(v: &Vec<Part>, changes: &Vec<(usize, Rat)>) -> (r: Result<
        Parts,
        Error,
    >)
        requires
            v@.len() > 0 ==> spans_ok(v@) && heights_wf(v@) && positions(v@)
                < 0x4000_0000_0000_0000,
            forall|k: int|
                0 <= k < changes@.len() ==> {
                    let c = #[trigger] changes@[k];
                    let i = c.0 as int;
                    &&& i < v@.len()
                    &&& frac_wf(c.1@)
                    &&& ((i > 0 && frac_eq(c.1@, v@[i - 1].height@)) || (i + 1 < v@.len()
                        && frac_eq(c.1@, v@[i + 1].height@)))
                },
            forall|k: int|
                0 <= k && k + 1 < changes@.len() ==> (#[trigger] changes@[k]).0 + 2 <= changes@[k
                    + 1].0,
        ensures
            r matches Err(e) && e == Error::EmptyInput <==> v@.len() == 0,
            r matches Err(e) ==> e == Error::EmptyInput || e == Error::Overflow,
            r is Ok <==> v@.len() > 0 && merged_fits(v@, changes@),
            r matches Ok(p) ==> {
                &&& p.wf()
                &&& positions(p@) == positions(v@)
                &&& forall|pos: int|
                    0 <= pos < positions(v@) ==> frac_eq(
                        #[trigger] level_of(p@, pos),
                        applied_level(v@, changes@, pos),
                    )
                &&& p@.len() + changes@.len() <= v@.len()
                &&& changes@.len() > 0 ==> p@.len() < v@.len()
            },
    {
        if v.len() == 0 {
            return Err(Error::EmptyInput);
        }
        let ghost s = v@;
        let ghost cs = changes@;
        let n = v.len();
        let nc = changes.len();
        let mut raw: Vec<Part> = Vec::new();
        let mut c: usize = 0;
        let mut j: usize = 0;
        while j < n
            invariant
                j <= n,
                c <= nc,
                raw@.len() == j,
                forall|k: int| 0 <= k < c ==> (#[trigger] cs[k]).0 < j,
                forall|k: int| c <= k < nc ==> (#[trigger] cs[k]).0 >= j,
                forall|q: int|
                    0 <= q < j ==> (#[trigger] raw@[q]).lo == s[q].lo && raw@[q].hi == s[q].hi
                        && raw@[q].height == applied_height(s, cs, q) && frac_wf(
                        raw@[q].height@,
                    ),
            decreases n - j,
        {
            let ghost raw_old = raw@;
            proof {
                lemma_change_at(cs, c as int, j as int);
            }
            let h: Rat;
            if c < nc && changes[c].0 == j {
                h = changes[c].1;
                c += 1;
                proof {
                    assert forall|k: int| c <= k < nc implies (#[trigger] cs[k]).0 >= j + 1 by {
                        assert(cs[c as int - 1].0 + 2 <= cs[c as int].0);
                        if k > c as int {
                            lemma_changes_ascending(cs, c as int, k);
                        }
                    }
                }
            } else {
                h = v[j].height;
                proof {
                    assert forall|k: int| c <= k < nc implies (#[trigger] cs[k]).0 >= j + 1 by {
                        if k > c as int {
                            lemma_changes_ascending(cs, c as int, k);
                        }
                    }
                }
            }
            raw.push(Part { height: h, lo: v[j].lo, hi: v[j].hi });
            proof {
                assert forall|q: int|
                    0 <= q < j + 1 implies (#[trigger] raw@[q]).lo == s[q].lo && raw@[q].hi
                        == s[q].hi && raw@[q].height == applied_height(s, cs, q) && frac_wf(
                        raw@[q].height@,
                    ) by {
                    if q < j {
                        assert(raw@[q] == raw_old[q]);
                    } else {
                        assert(raw@[q] == (Part { height: h, lo: s[q].lo, hi: s[q].hi }));
                    }
                }
            }
            j += 1;
        }
        proof {
            assert(spans_ok(raw@));
            assert(heights_wf(raw@));
            assert(positions(raw@) == positions(s));
            if cs.len() > 0 {
                lemma_changes_make_pairs(s, cs, raw@);
            }
        }
        proof {
            assert(raw@ =~= applied_parts(s, cs));
        }
        let grouped = group_parts(&raw);
        proof {
            assert forall|pos: int| 0 <= pos < positions(s) implies frac_eq(
                #[trigger] level_of(grouped@, pos),
                applied_level(s, cs, pos),
            ) by {
                lemma_seg_of(s, pos);
                let sg = seg_of(s, pos);
                lemma_seg_of_unique(raw@, pos, sg);
                assert(level_of(raw@, pos) == applied_height(s, cs, sg)@);
                lemma_seg_of(raw@, pos);
            }
        }
        Parts::finish(grouped)
    }

    /// Heights of every segment after `time` further time units of
    /// filling at the current rates; spans are unchanged and no merge is
    /// applied.
    #[verifier::loop_isolation(false)]
    pub fn calculate_parts_at_rel_time(&self, time: Rat) -> (r: Result<Vec<Part>, Error>)
        requires
            self.wf(),
        ensures
            r matches Err(e) ==> e == Error::Overflow,
            r is Ok <==> forall|i: int|
                0 <= i < self@.len() ==> #[trigger] advance_fits(self@, time@, i),
            r matches Ok(out) ==> {
                &&& out@.len() == self@.len()
                &&& forall|i: int|
                    0 <= i < self@.len() ==> {
                        let p = #[trigger] out@[i];
                        &&& p.lo == self@[i].lo
                        &&& p.hi == self@[i].hi
                        &&& frac_wf(p.height@)
                        &&& frac_eq(
                            p.height@,
                            frac_add(self@[i].height@, frac_mul(rate_of(self@, i), time@)),
                        )
                    }
            },
    {
        let ghost s = self@;
        proof {
            use_type_invariant(time);
        }
        let n = self.inner.len();
        let mut out: Vec<Part> = Vec::new();
        let mut i: usize = 0;
        while i < n
            invariant
                i <= n,
                out@.len() == i,
                forall|q: int| 0 <= q < i ==> #[trigger] advance_fits(s, time@, q),
                forall|q: int|
                    0 <= q < i ==> {
                        let p = #[trigger] out@[q];
                        &&& p.lo == s[q].lo
                        &&& p.hi == s[q].hi
                        &&& frac_wf(p.height@)
                        &&& frac_eq(
                            p.height@,
                            frac_add(s[q].height@, frac_mul(rate_of(s, q), time@)),
                        )
                    },
            decreases n - i,
        {
            let credit = self.velocities[i].0;
            let w = self.velocities[i].1;
            let w_rat = Rat::from_int(w as i64);
            let ghost ri = rate_of(s, i as int);
            let ghost fd = frac_div(credit@, w_rat@);
            proof {
                assert(vel_entry_ok(s, self.vel_table(), i as int));
                lemma_spans_mono(s, i as int);
                lemma_credit2_upto_bound(s, i as int, s.len() as int);
                let c2 = Frac { n: credit2(s, i as int), d: 2 };
                assert(frac_wf(ri));
                crate::rat::lemma_frac_div_wf(credit@, w_rat@);
                crate::rat::lemma_frac_div_wf(c2, w_rat@);
                assert(frac_eq(fd, ri)) by {
                    lemma_frac_div_congr(credit@, c2, w_rat@, w_rat@);
                    assert(frac_div(c2, w_rat@) == (Frac {
                        n: credit2(s, i as int) * 1,
                        d: 2 * (w as int),
                    }));
                    assert(frac_eq(Frac { n: credit2(s, i as int) * 1, d: 2 * (w as int) }, ri));
                    lemma_frac_eq_trans(fd, frac_div(c2, w_rat@), ri);
                }
                // the rate itself is always representable, so the division
                // below cannot fail
                assert(credit2(s, i as int) * fd.d == fd.n * (2 * (w as int))) by (nonlinear_arith)
                    requires
                        credit@.n * 2 == credit2(s, i as int) * credit@.d,
                        fd == (Frac { n: credit@.n * 1, d: credit@.d * (w as int) }),
                ;
                assert(crate::rat::representable(fd));
            }
            let vel = match credit.div(w_rat) {
                Some(x) => x,
                None => {
                    proof {
                        assert(false);
                    }
                    vstd::pervasive::unreached()
                },
            };
            proof {
                assert(frac_eq(vel@, ri)) by {
                    lemma_frac_eq_trans(vel@, fd, ri);
                }
                crate::rat::lemma_frac_ops_wf(vel@, time@);
                crate::rat::lemma_frac_ops_wf(ri, time@);
                lemma_frac_mul_congr(vel@, ri, time@, time@);
                crate::rat::lemma_representable_congr(
                    frac_mul(vel@, time@),
                    frac_mul(ri, time@),
                );
            }
            let step = match vel.mul(time) {
                Some(x) => x,
                None => {
                    proof {
                        assert(!advance_fits(s, time@, i as int));
                    }
                    return Err(Error::Overflow);
                },
            };
            proof {
                assert(frac_eq(step@, frac_mul(ri, time@))) by {
                    lemma_frac_eq_trans(step@, frac_mul(vel@, time@), frac_mul(ri, time@));
                }
                lemma_frac_add_congr(
                    s[i as int].height@,
                    s[i as int].height@,
                    step@,
                    frac_mul(ri, time@),
                );
                crate::rat::lemma_frac_ops_wf(s[i as int].height@, step@);
                crate::rat::lemma_frac_ops_wf(s[i as int].height@, frac_mul(ri, time@));
                crate::rat::lemma_representable_congr(
                    frac_add(s[i as int].height@, step@),
                    frac_add(s[i as int].height@, frac_mul(ri, time@)),
                );
            }
            let h2 = match self.inner[i].height.add(step) {
                Some(x) => x,
                None => {
                    proof {
                        assert(!advance_fits(s, time@, i as int));
                    }
                    return Err(Error::Overflow);
                },
            };
            proof {
                assert(advance_fits(s, time@, i as int));
                assert(frac_eq(
                    h2@,
                    frac_add(s[i as int].height@, frac_mul(rate_of(s, i as int), time@)),
                )) by {
                    lemma_frac_eq_trans(
                        h2@,
                        frac_add(s[i as int].height@, step@),
                        frac_add(s[i as int].height@, frac_mul(ri, time@)),
                    );
                }
            }
            out.push(Part { height: h2, lo: self.inner[i].lo, hi: self.inner[i].hi });
            i += 1;
        }
        Ok(out)
    }
}

/// Height of position `pos` after `off` further time units of filling.
pub open spec fn level_at(s: Seq<Part>, pos: int, off: Frac) -> Frac {
    frac_add(level_of(s, pos), frac_mul(rate_of(s, seg_of(s, pos)), off))
}

/// Only segments that accept water directly accumulate credit.
proof fn lemma_credit_upto_pos(s: Seq<Part>, i: int, j: int)
    requires
        parts_seq_wf(s),
        0 <= i < s.len(),
        0 <= j <= s.len(),
        credit2_upto(s, i, j) > 0,
    ensures
        accepts_water(s, i),
    decreases j,
{
    if j > 0 {
        if contrib2(s, j - 1, i) > 0 {
            if accepts_water(s, j - 1) {
            } else {
                if dest_in(s, j - 1, Direction::Left) is Some && i == dest_in(
                    s,
                    j - 1,
                    Direction::Left,
                )->Some_0 {
                    lemma_dest_accepts(s, j - 1, Direction::Left);
                } else {
                    lemma_dest_accepts(s, j - 1, Direction::Right);
                }
            }
        } else {
            lemma_credit2_upto_bound(s, i, j - 1);
            lemma_credit_upto_pos(s, i, j - 1);
        }
    }
}

/// A rising segment is a local basin floor: every existing neighbour is
/// strictly taller, and that neighbour itself accumulates no credit.
pub proof fn lemma_credit_pos_accepts(s: Seq<Part>, i: int)
    requires
        parts_seq_wf(s),
        0 <= i < s.len(),
        credit2(s, i) > 0,
    ensures
        accepts_water(s, i),
        i > 0 ==> credit2(s, i - 1) == 0,
        i + 1 < s.len() ==> credit2(s, i + 1) == 0,
{
    lemma_credit_upto_pos(s, i, s.len() as int);
    if i > 0 {
        lemma_credit2_upto_bound(s, i - 1, s.len() as int);
        if credit2(s, i - 1) > 0 {
            lemma_credit_upto_pos(s, i - 1, s.len() as int);
            assert(frac_lt(s[i - 1].height@, s[i].height@));
            assert(frac_lt(s[i].height@, s[i - 1].height@));
            assert(false);
        }
    }
    if i + 1 < s.len() {
        lemma_credit2_upto_bound(s, i + 1, s.len() as int);
        if credit2(s, i + 1) > 0 {
            lemma_credit_upto_pos(s, i + 1, s.len() as int);
            assert(frac_lt(s[i + 1].height@, s[i].height@));
            assert(frac_lt(s[i].height@, s[i + 1].height@));
            assert(false);
        }
    }
}

/// At the event instant every changed segment has risen exactly to its
/// recorded resulting height, which equals the height of the (then
/// unchanged) neighbour it merges with.
pub proof fn lemma_event_merge(s: Seq<Part>, adv: Seq<Part>, list: Seq<(usize, Rat)>, dt: Rat, k: int)
    requires
        parts_seq_wf(s),
        event_ok(s, list, dt),
        0 <= k < list.len(),
        adv.len() == s.len(),
        forall|q: int|
            0 <= q < s.len() ==> {
                let p = #[trigger] adv[q];
                &&& p.lo == s[q].lo
                &&& p.hi == s[q].hi
                &&& frac_wf(p.height@)
                &&& frac_eq(p.height@, frac_add(s[q].height@, frac_mul(rate_of(s, q), dt@)))
            },
    ensures
        ({
            let i = list[k].0 as int;
            &&& frac_wf(list[k].1@)
            &&& frac_eq(adv[i].height@, list[k].1@)
            &&& ((i > 0 && frac_eq(list[k].1@, adv[i - 1].height@)) || (i + 1 < s.len()
                && frac_eq(list[k].1@, adv[i + 1].height@)))
        }),
{
    let i = list[k].0 as int;
    let tgt = cand_target(s, i);
    let hi = s[i].height@;
    let ri = rate_of(s, i);
    let gi = frac_sub(tgt@, hi);
    let nb: int = if left_gap(s, i) && right_gap(s, i) {
        if frac_le(frac_sub(s[i - 1].height@, hi), frac_sub(s[i + 1].height@, hi)) {
            i - 1
        } else {
            i + 1
        }
    } else if left_gap(s, i) {
        i - 1
    } else {
        i + 1
    };
    assert(tgt == s[nb].height);
    assert(0 <= nb < s.len());
    assert(list[k].1 == tgt);
    lemma_credit_pos_accepts(s, i);
    crate::rat::lemma_frac_ops_wf(tgt@, hi);
    assert(frac_wf(ri));
    assert(gi.n > 0);
    lemma_cand_time_wf(s, i);
    let ct = cand_time(s, i);
    // dt scales the rate back to exactly the gap
    assert(frac_eq(frac_mul(ri, dt@), gi)) by {
        lemma_frac_mul_congr(ri, ri, dt@, ct);
        crate::rat::lemma_frac_mul_comm(ri, ct);
        lemma_frac_div_mul(gi, ri);
        crate::rat::lemma_frac_ops_wf(ri, dt@);
        crate::rat::lemma_frac_ops_wf(ri, ct);
        crate::rat::lemma_frac_ops_wf(ct, ri);
        lemma_frac_eq_trans(frac_mul(ri, dt@), frac_mul(ri, ct), frac_mul(ct, ri));
        lemma_frac_eq_trans(frac_mul(ri, dt@), frac_mul(ct, ri), gi);
    }
    // the changed segment reaches the target height exactly
    assert(frac_eq(adv[i].height@, tgt@)) by {
        crate::rat::lemma_frac_ops_wf(ri, dt@);
        crate::rat::lemma_frac_ops_wf(hi, frac_mul(ri, dt@));
        crate::rat::lemma_frac_ops_wf(hi, gi);
        lemma_frac_add_congr(hi, hi, frac_mul(ri, dt@), gi);
        lemma_frac_sub_add(tgt@, hi);
        lemma_frac_eq_trans(adv[i].height@, frac_add(hi, frac_mul(ri, dt@)), frac_add(hi, gi));
        crate::rat::lemma_frac_add_comm_assoc(gi, hi, hi);
        lemma_frac_eq_trans(frac_add(hi, gi), frac_add(gi, hi), tgt@);
        lemma_frac_eq_trans(adv[i].height@, frac_add(hi, gi), tgt@);
    }
    // the neighbour does not move during the interval
    assert(credit2(s, nb) == 0);
    let rn = rate_of(s, nb);
    assert(rn.n == 0);
    assert(frac_wf(rn));
    assert(frac_eq(adv[nb].height@, s[nb].height@)) by {
        assert(rn.n * dt@.n == 0) by (nonlinear_arith)
            requires
                rn.n == 0,
        ;
        assert(frac_mul(rn, dt@).n == 0);
        crate::rat::lemma_frac_ops_wf(rn, dt@);
        crate::rat::lemma_frac_add_zero_num(s[nb].height@, frac_mul(rn, dt@));
        crate::rat::lemma_frac_ops_wf(s[nb].height@, frac_mul(rn, dt@));
        lemma_frac_eq_trans(
            adv[nb].height@,
            frac_add(s[nb].height@, frac_mul(rn, dt@)),
            s[nb].height@,
        );
    }
    assert(frac_eq(list[k].1@, adv[nb].height@)) by {
        lemma_frac_eq_trans(list[k].1@, s[nb].height@, adv[nb].height@);
    }
}

} // verus!
