//! General properties of the model, stated and proved over the same
//! specifications that the public contracts use.

use vstd::prelude::*;

use crate::model::{
    gen_index, gen_link, gen_wf, lemma_gen_index_inv, model_level, timeline_wf, Generation, Model,
};
use crate::parts::{
    event_ok, lemma_credit2_upto_bound, lemma_seg_of, level_at, level_of, parts_seq_wf, positions,
    rate_of, seg_of,
};
use crate::rat::{
    frac_add, frac_eq, frac_int, frac_le, frac_lt, frac_mul, frac_sub, frac_wf,
    lemma_frac_add_le_mono, lemma_frac_add_sub_cancel, lemma_frac_add_zero_num,
    lemma_frac_cmp_congr, lemma_frac_le_trans, lemma_frac_mul_le_mono, lemma_frac_ops_wf,
    lemma_frac_sub_le_mono, Frac,
};

verus! {

/// Segment partition invariant: at every generation the segment spans
/// are contiguous, non-overlapping, cover positions `0..n` exactly once,
/// and no two adjacent segments share a height.
pub proof fn lemma_partition_invariant(m: Model, k: int)
    requires
        m.wf(),
        0 <= k < m.gens().len(),
    ensures
        ({
            let s = m.gens()[k].parts@;
            &&& parts_seq_wf(s)
            &&& s[0].lo == 0
            &&& positions(s) == m.npos()
            &&& forall|i: int| 0 <= i < s.len() ==> (#[trigger] s[i].lo) < s[i].hi
            &&& forall|i: int| 0 <= i && i + 1 < s.len() ==> (#[trigger] s[i].hi) == s[i + 1].lo
            &&& forall|i: int|
                0 <= i && i + 1 < s.len() ==> !frac_eq(
                    #[trigger] s[i].height@,
                    s[i + 1].height@,
                )
        }),
{
    assert(gen_wf(m.gens()[k], m.npos()));
}

/// The right endpoint of an earlier generation never lies beyond the
/// start of a later one.
proof fn lemma_ends_before(gens: Seq<Generation>, n: int, k: int, j: int)
    requires
        timeline_wf(gens, n),
        0 <= k < j < gens.len(),
    ensures
        gens[k].end is Some,
        frac_wf(gens[k].end->Some_0@),
        frac_le(gens[k].end->Some_0@, gens[j].start@),
    decreases j - k,
{
    assert(gen_link(gens[k], gens[k + 1]));
    let e = gens[k].end->Some_0@;
    if k + 1 == j {
    } else {
        lemma_ends_before(gens, n, k + 1, j);
        let e2 = gens[k + 1].end->Some_0@;
        assert(gen_link(gens[k + 1], gens[k + 2]));
        assert(frac_lt(gens[k + 1].start@, e2));
        assert(gen_wf(gens[k + 1], n));
        lemma_frac_le_trans(e, gens[k + 1].start@, e2);
        lemma_frac_le_trans(e, e2, gens[j].start@);
    }
}

/// Idempotent stable state: the final generation reports no further
/// change, and every time at or beyond its start is answered by that
/// same generation's linear rate law — no further merges occur.
pub proof fn lemma_stable_state(m: Model, t: Frac, pos: int)
    requires
        m.wf(),
        frac_wf(t),
        0 <= pos < m.npos(),
        frac_le(m.gens()[m.gens().len() - 1].start@, t),
    ensures
        ({
            let last = m.gens().len() - 1;
            &&& m.gens()[last].parts.next_event() is None
            &&& gen_index(m.gens(), t) == last
            &&& model_level(m, pos, t) == level_at(
                m.gens()[last].parts@,
                pos,
                frac_sub(t, m.gens()[last].start@),
            )
        }),
{
    let gens = m.gens();
    let last = gens.len() - 1;
    assert forall|k: int| 0 <= k < last implies (#[trigger] gens[k]).end is Some && !frac_lt(
        t,
        gens[k].end->Some_0@,
    ) by {
        lemma_ends_before(gens, m.npos(), k, last);
        assert(gen_wf(gens[last], m.npos()));
        lemma_frac_le_trans(gens[k].end->Some_0@, gens[last].start@, t);
    }
    crate::model::lemma_gen_index_at(gens, t, last);
}

/// Monotonic non-decrease within a generation: at a fixed configuration
/// the height of every position is non-decreasing in the time offset,
/// because every fill rate is nonnegative.
pub proof fn lemma_monotone_in_generation(m: Model, k: int, pos: int, o1: Frac, o2: Frac)
    requires
        m.wf(),
        0 <= k < m.gens().len(),
        0 <= pos < m.npos(),
        frac_wf(o1),
        frac_wf(o2),
        frac_le(o1, o2),
    ensures
        frac_le(
            level_at(m.gens()[k].parts@, pos, o1),
            level_at(m.gens()[k].parts@, pos, o2),
        ),
{
    let s = m.gens()[k].parts@;
    assert(gen_wf(m.gens()[k], m.npos()));
    lemma_seg_of(s, pos);
    let sg = seg_of(s, pos);
    let rk = rate_of(s, sg);
    lemma_credit2_upto_bound(s, sg, s.len() as int);
    assert(rk.n >= 0);
    assert(frac_wf(rk));
    assert(frac_le(frac_int(0), rk));
    lemma_frac_mul_le_mono(rk, o1, o2);
    lemma_frac_ops_wf(rk, o1);
    lemma_frac_ops_wf(rk, o2);
    lemma_frac_add_le_mono(level_of(s, pos), frac_mul(rk, o1), frac_mul(rk, o2));
}

/// The height of a position at a nonnegative offset is at least its
/// height at the start of the generation.
proof fn lemma_level_of_le_at(m: Model, k: int, pos: int, off: Frac)
    requires
        m.wf(),
        0 <= k < m.gens().len(),
        0 <= pos < m.npos(),
        frac_wf(off),
        frac_le(frac_int(0), off),
    ensures
        frac_wf(level_of(m.gens()[k].parts@, pos)),
        frac_wf(level_at(m.gens()[k].parts@, pos, off)),
        frac_le(level_of(m.gens()[k].parts@, pos), level_at(m.gens()[k].parts@, pos, off)),
{
    let s = m.gens()[k].parts@;
    assert(gen_wf(m.gens()[k], m.npos()));
    lemma_seg_of(s, pos);
    let sg = seg_of(s, pos);
    let rk = rate_of(s, sg);
    assert(frac_wf(rk));
    lemma_monotone_in_generation(m, k, pos, frac_int(0), off);
    lemma_frac_ops_wf(rk, frac_int(0));
    lemma_frac_ops_wf(rk, off);
    lemma_frac_ops_wf(level_of(s, pos), frac_mul(rk, frac_int(0)));
    lemma_frac_ops_wf(level_of(s, pos), frac_mul(rk, off));
    assert(frac_mul(rk, frac_int(0)).n == 0);
    lemma_frac_add_zero_num(level_of(s, pos), frac_mul(rk, frac_int(0)));
    lemma_frac_cmp_congr(
        level_of(s, pos),
        level_at(s, pos, frac_int(0)),
        level_at(s, pos, off),
        level_at(s, pos, off),
    );
}

/// The height at the start of generation `k` never exceeds the height
/// at any covered time from generation `k` onwards.
proof fn lemma_level_grows(m: Model, pos: int, k: int, t2: Frac)
    requires
        m.wf(),
        0 <= pos < m.npos(),
        frac_wf(t2),
        frac_le(frac_int(0), t2),
        0 <= k <= gen_index(m.gens(), t2),
    ensures
        frac_wf(model_level(m, pos, t2)),
        frac_le(level_of(m.gens()[k].parts@, pos), model_level(m, pos, t2)),
    decreases gen_index(m.gens(), t2) - k,
{
    let gens = m.gens();
    let n = m.npos();
    let g2 = gen_index(gens, t2);
    assert forall|q: int| 0 <= q < gens.len() - 1 implies (#[trigger] gens[q]).end is Some by {
        assert(gen_link(gens[q], gens[q + 1]));
    }
    lemma_gen_index_inv(gens, t2);
    let sk = gens[k].parts@;
    assert(gen_wf(gens[k], n));
    lemma_seg_of(sk, pos);
    if k == g2 {
        let st = gens[g2].start@;
        let off = frac_sub(t2, st);
        assert(frac_le(st, t2)) by {
            if g2 == 0 {
                lemma_frac_cmp_congr(st, frac_int(0), t2, t2);
            } else {
                assert(gen_link(gens[g2 - 1], gens[g2]));
                let e = gens[g2 - 1].end->Some_0@;
                assert(frac_le(e, t2));
                lemma_frac_cmp_congr(st, e, t2, t2);
            }
        }
        lemma_frac_ops_wf(t2, st);
        assert(frac_le(frac_int(0), off));
        lemma_level_of_le_at(m, g2, pos, off);
    } else {
        assert(gen_link(gens[k], gens[k + 1]));
        let ev = gens[k].parts.next_event();
        let list = ev->Some_0.0;
        let dt = ev->Some_0.1;
        assert(gens[k].parts.wf());
        assert(event_ok(sk, list, dt));
        assert(frac_wf(dt@) && frac_lt(frac_int(0), dt@));
        lemma_level_of_le_at(m, k, pos, dt@);
        assert(frac_eq(level_at(sk, pos, dt@), level_of(gens[k + 1].parts@, pos)));
        lemma_level_grows(m, pos, k + 1, t2);
        let skn = gens[k + 1].parts@;
        assert(gen_wf(gens[k + 1], n));
        lemma_seg_of(skn, pos);
        assert(frac_wf(level_of(skn, pos)));
        assert(frac_le(level_of(sk, pos), level_of(skn, pos))) by {
            lemma_frac_cmp_congr(
                level_of(sk, pos),
                level_of(sk, pos),
                level_at(sk, pos, dt@),
                level_of(skn, pos),
            );
        }
        lemma_frac_le_trans(level_of(sk, pos), level_of(skn, pos), model_level(m, pos, t2));
    }
}

/// Monotonic non-decrease across the whole timeline: for any two
/// covered instants in order, every position's height at the earlier
/// instant is at most its height at the later one.
pub proof fn lemma_monotone_non_decrease(m: Model, pos: int, t1: Frac, t2: Frac)
    requires
        m.wf(),
        0 <= pos < m.npos(),
        frac_wf(t1),
        frac_wf(t2),
        frac_le(frac_int(0), t1),
        frac_le(t1, t2),
    ensures
        frac_le(model_level(m, pos, t1), model_level(m, pos, t2)),
{
    let gens = m.gens();
    let n = m.npos();
    let g1 = gen_index(gens, t1);
    let g2 = gen_index(gens, t2);
    assert forall|q: int| 0 <= q < gens.len() - 1 implies (#[trigger] gens[q]).end is Some by {
        assert(gen_link(gens[q], gens[q + 1]));
    }
    lemma_gen_index_inv(gens, t1);
    lemma_gen_index_inv(gens, t2);
    lemma_frac_le_trans(frac_int(0), t1, t2);
    if g2 < g1 {
        assert(gen_link(gens[g2], gens[g2 + 1]));
        let e = gens[g2].end->Some_0@;
        assert(frac_le(e, t1));
        assert(frac_lt(t2, e));
        lemma_frac_le_trans(e, t1, t2);
        assert(false);
    }
    let st1 = gens[g1].start@;
    assert(gen_wf(gens[g1], n));
    assert(frac_le(st1, t1)) by {
        if g1 == 0 {
            lemma_frac_cmp_congr(st1, frac_int(0), t1, t1);
        } else {
            assert(gen_link(gens[g1 - 1], gens[g1]));
            let e0 = gens[g1 - 1].end->Some_0@;
            assert(frac_le(e0, t1));
            lemma_frac_cmp_congr(st1, e0, t1, t1);
        }
    }
    let off1 = frac_sub(t1, st1);
    lemma_frac_ops_wf(t1, st1);
    assert(frac_le(frac_int(0), off1));
    if g1 == g2 {
        lemma_frac_ops_wf(t2, st1);
        lemma_frac_sub_le_mono(t1, t2, st1);
        lemma_monotone_in_generation(m, g1, pos, off1, frac_sub(t2, st1));
    } else {
        let s1 = gens[g1].parts@;
        assert(gen_link(gens[g1], gens[g1 + 1]));
        let ev = gens[g1].parts.next_event();
        let list = ev->Some_0.0;
        let dt = ev->Some_0.1;
        assert(gens[g1].parts.wf());
        assert(event_ok(s1, list, dt));
        assert(frac_wf(dt@) && frac_lt(frac_int(0), dt@));
        let e = gens[g1].end->Some_0@;
        assert(frac_lt(t1, e));
        // the offset into this generation stays below its duration
        lemma_frac_ops_wf(st1, dt@);
        lemma_frac_cmp_congr(t1, t1, e, frac_add(st1, dt@));
        lemma_frac_sub_le_mono(t1, frac_add(st1, dt@), st1);
        lemma_frac_add_sub_cancel(st1, dt@);
        lemma_frac_ops_wf(frac_add(st1, dt@), st1);
        lemma_frac_cmp_congr(off1, off1, frac_sub(frac_add(st1, dt@), st1), dt@);
        assert(frac_le(off1, dt@));
        lemma_monotone_in_generation(m, g1, pos, off1, dt@);
        // across the boundary and on to t2
        lemma_level_of_le_at(m, g1, pos, off1);
        lemma_level_of_le_at(m, g1, pos, dt@);
        let skn = gens[g1 + 1].parts@;
        assert(gen_wf(gens[g1 + 1], n));
        lemma_seg_of(skn, pos);
        assert(frac_eq(level_at(s1, pos, dt@), level_of(skn, pos)));
        lemma_level_grows(m, pos, g1 + 1, t2);
        lemma_frac_cmp_congr(
            level_at(s1, pos, off1),
            level_at(s1, pos, off1),
            level_at(s1, pos, dt@),
            level_of(skn, pos),
        );
        lemma_frac_le_trans(level_at(s1, pos, off1), level_of(skn, pos), model_level(m, pos, t2));
    }
}

} // verus!
