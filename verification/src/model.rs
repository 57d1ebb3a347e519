//! The model: the initial segment collection, the precomputed timeline
//! of stable configurations ("generations"), and the point-in-time
//! height query.

use vstd::prelude::*;

use crate::error::Error;
use crate::parts::{
    advance_fits, applied_height, applied_level, change_for, credit2, event_ok, has_cand,
    heights_wf, lemma_advance_fits_congr, lemma_change_for_member, lemma_credit_pos_accepts,
    grouped_spec, lemma_event_merge, lemma_seg_of, lemma_seg_of_unique, level_at, level_of,
    new_parts_fits, parts_seq_wf, positions, rate_of, seg_of, spans_ok, unit_parts, Part, Parts,
};
use crate::rat::{
    frac_add, frac_eq, frac_int, frac_lt, frac_mul, frac_sub, frac_wf, lemma_frac_add_congr,
    lemma_frac_add_pos_gt, lemma_frac_cmp_congr, lemma_frac_eq_trans, lemma_frac_mul_congr,
    lemma_frac_ops_wf, Frac, Rat,
};

verus! {

/// One timeline entry: the configuration that holds on `[start, end)`,
/// with `end == None` for the unbounded final interval.
#[derive(Debug)]
pub struct Generation {
    /// Absolute time at which this configuration starts to hold.
    pub start: Rat,
    /// Absolute end of the interval; `None` for the final generation.
    pub end: Option<Rat>,
    /// The segment collection valid on the whole interval.
    pub parts: Parts,
}

/// A generation's own well-formedness.
pub open spec fn gen_wf(g: Generation, n: int) -> bool {
    g.parts.wf() && positions(g.parts@) == n && frac_wf(g.start@)
}

/// Link between a non-final generation and its successor: the interval
/// ends exactly when the next change is due, the successor starts there,
/// and per-position heights are continuous across the boundary.
pub open spec fn gen_link(g: Generation, h: Generation) -> bool {
    match (g.end, g.parts.next_event()) {
        (Option::Some(e), Option::Some((list, dt))) => {
            &&& frac_wf(e@)
            &&& frac_lt(g.start@, e@)
            &&& frac_eq(h.start@, e@)
            &&& frac_eq(e@, frac_add(g.start@, dt@))
            &&& forall|pos: int|
                0 <= pos < positions(g.parts@) ==> frac_eq(
                    #[trigger] level_at(g.parts@, pos, dt@),
                    level_of(h.parts@, pos),
                )
        },
        _ => false,
    }
}

/// The timeline invariant: generations are well formed, start at time
/// zero, chain contiguously, and end in a permanently stable
/// configuration covering the rest of time.
pub open spec fn timeline_wf(gens: Seq<Generation>, n: int) -> bool {
    &&& gens.len() >= 1
    &&& forall|k: int| 0 <= k < gens.len() ==> gen_wf(#[trigger] gens[k], n)
    &&& frac_eq(gens[0].start@, frac_int(0))
    &&& forall|k: int| 0 <= k && k + 1 < gens.len() ==> gen_link(#[trigger] gens[k], gens[k + 1])
    &&& gens[gens.len() - 1].end is None
    &&& gens[gens.len() - 1].parts.next_event() is None
}

/// Index of the generation whose interval contains `t` (the first one
/// whose right endpoint lies beyond `t`).
pub open spec fn gen_index(gens: Seq<Generation>, t: Frac) -> int
    decreases gens.len(),
{
    if gens.len() <= 1 {
        0
    } else if (match gens[0].end {
        Option::Some(e) => frac_lt(t, e@),
        Option::None => true,
    }) {
        0
    } else {
        1 + gen_index(gens.subrange(1, gens.len() as int), t)
    }
}

/// A profile whose initial configuration is already permanently stable:
/// no segment contributes a candidate event, so the timeline is a single
/// unbounded generation.
pub open spec fn initially_stable(v: Seq<Rat>) -> bool {
    let g = grouped_spec(unit_parts(v), v.len() as int);
    forall|i: int| 0 <= i < g.len() ==> !(#[trigger] has_cand(g, i))
}

/// The model: initial segment collection, time horizon, and the eagerly
/// computed generation timeline.
#[derive(Debug)]
pub struct Model {
    initial_parts: Parts,
    max_time: Rat,
    generations: Vec<Generation>,
}

/// Chain invariant of the timeline under construction: the recorded
/// generations link up to the current configuration starting at `start`.
pub open spec fn chain_ok(gens: Seq<Generation>, cur: Parts, start: Rat, n: int) -> bool {
    &&& forall|k: int| 0 <= k < gens.len() ==> gen_wf(#[trigger] gens[k], n)
    &&& if gens.len() == 0 {
        frac_eq(start@, frac_int(0))
    } else {
        frac_eq(gens[0].start@, frac_int(0))
    }
    &&& forall|k: int| 0 <= k && k + 1 < gens.len() ==> gen_link(#[trigger] gens[k], gens[k + 1])
    &&& gens.len() > 0 ==> gen_link(
        gens[gens.len() - 1],
        Generation { start, end: Option::None, parts: cur },
    )
}

/// Copy an event's participant list.
fn copy_changes(v: &Vec<(usize, Rat)>) -> (r: Vec<(usize, Rat)>)
    ensures
        r@ == v@,
{
    let mut out: Vec<(usize, Rat)> = Vec::new();
    let n = v.len();
    let mut i: usize = 0;
    while i < n
        invariant
            i <= n,
            n == v@.len(),
            out@ == v@.subrange(0, i as int),
        decreases n - i,
    {
        out.push(v[i]);
        i += 1;
    }
    proof {
        assert(out@ =~= v@);
    }
    out
}

/// Shape of the advanced segment list produced for the event instant.
pub open spec fn advanced_ok(s: Seq<Part>, adv: Seq<Part>, dt: Rat) -> bool {
    &&& adv.len() == s.len()
    &&& forall|q: int|
        0 <= q < s.len() ==> {
            let p = #[trigger] adv[q];
            &&& p.lo == s[q].lo
            &&& p.hi == s[q].hi
            &&& frac_wf(p.height@)
            &&& frac_eq(p.height@, frac_add(s[q].height@, frac_mul(rate_of(s, q), dt@)))
        }
}

/// The advanced list satisfies everything the merge constructor asks of
/// its inputs: a valid span layout, well-formed change heights matching a
/// neighbour, and changed indices that are never adjacent.
proof fn lemma_merge_call_ok(s: Seq<Part>, adv: Seq<Part>, list: Seq<(usize, Rat)>, dt: Rat)
    requires
        parts_seq_wf(s),
        event_ok(s, list, dt),
        advanced_ok(s, adv, dt),
    ensures
        spans_ok(adv),
        heights_wf(adv),
        positions(adv) == positions(s),
        forall|k: int|
            0 <= k < list.len() ==> {
                let c = #[trigger] list[k];
                let ci = c.0 as int;
                &&& ci < adv.len()
                &&& frac_wf(c.1@)
                &&& frac_eq(adv[ci].height@, c.1@)
                &&& ((ci > 0 && frac_eq(c.1@, adv[ci - 1].height@)) || (ci + 1 < adv.len()
                    && frac_eq(c.1@, adv[ci + 1].height@)))
            },
        forall|k: int| 0 <= k && k + 1 < list.len() ==> (#[trigger] list[k]).0 + 2 <= list[k + 1].0,
{
    assert(spans_ok(adv)) by {
        assert forall|q: int| 0 <= q < adv.len() implies (#[trigger] adv[q].lo) < adv[q].hi by {
            assert(adv[q].lo == s[q].lo && adv[q].hi == s[q].hi);
        }
        assert forall|q: int| 0 <= q && q + 1 < adv.len() implies (#[trigger] adv[q].hi) == adv[q
            + 1].lo by {
            assert(adv[q].hi == s[q].hi);
            assert(adv[q + 1].lo == s[q + 1].lo);
        }
        assert(adv[0].lo == s[0].lo);
    }
    assert forall|k: int| 0 <= k < list.len() implies {
        let c = #[trigger] list[k];
        let ci = c.0 as int;
        &&& ci < adv.len()
        &&& frac_wf(c.1@)
        &&& frac_eq(adv[ci].height@, c.1@)
        &&& ((ci > 0 && frac_eq(c.1@, adv[ci - 1].height@)) || (ci + 1 < adv.len() && frac_eq(
            c.1@,
            adv[ci + 1].height@,
        )))
    } by {
        lemma_event_merge(s, adv, list, dt, k);
    }
    assert forall|k: int| 0 <= k && k + 1 < list.len() implies (#[trigger] list[k]).0 + 2 <= list[k
        + 1].0 by {
        let i1 = list[k].0 as int;
        let i2 = list[k + 1].0 as int;
        assert(has_cand(s, i1) && has_cand(s, i2));
        if i2 == i1 + 1 {
            lemma_credit_pos_accepts(s, i1);
            assert(credit2(s, i2) == 0);
        }
    }
}

/// Per-position heights are continuous across the merge at the event
/// instant: advancing the old configuration to the boundary gives the
/// same heights as the merged configuration at offset zero.
proof fn lemma_merge_continuity(
    s: Seq<Part>,
    adv: Seq<Part>,
    list: Seq<(usize, Rat)>,
    dt: Rat,
    merged: Seq<Part>,
)
    requires
        parts_seq_wf(s),
        parts_seq_wf(merged),
        event_ok(s, list, dt),
        advanced_ok(s, adv, dt),
        positions(merged) == positions(s),
        forall|pos: int|
            0 <= pos < positions(adv) ==> frac_eq(
                #[trigger] level_of(merged, pos),
                applied_level(adv, list, pos),
            ),
    ensures
        forall|pos: int|
            0 <= pos < positions(s) ==> frac_eq(
                #[trigger] level_at(s, pos, dt@),
                level_of(merged, pos),
            ),
{
    assert forall|pos: int| 0 <= pos < positions(s) implies frac_eq(
        #[trigger] level_at(s, pos, dt@),
        level_of(merged, pos),
    ) by {
        lemma_merge_continuity_at(s, adv, list, dt, merged, pos);
    }
}

/// One position of `lemma_merge_continuity`.
#[verifier::rlimit(100)]
proof fn lemma_merge_continuity_at(
    s: Seq<Part>,
    adv: Seq<Part>,
    list: Seq<(usize, Rat)>,
    dt: Rat,
    merged: Seq<Part>,
    pos: int,
)
    requires
        parts_seq_wf(s),
        parts_seq_wf(merged),
        event_ok(s, list, dt),
        advanced_ok(s, adv, dt),
        positions(merged) == positions(s),
        0 <= pos < positions(s),
        frac_eq(level_of(merged, pos), applied_level(adv, list, pos)),
    ensures
        frac_eq(level_at(s, pos, dt@), level_of(merged, pos)),
{
    assert(spans_ok(adv)) by {
        assert forall|q: int| 0 <= q < adv.len() implies (#[trigger] adv[q].lo) < adv[q].hi by {
            assert(adv[q].lo == s[q].lo && adv[q].hi == s[q].hi);
        }
        assert forall|q: int| 0 <= q && q + 1 < adv.len() implies (#[trigger] adv[q].hi) == adv[q
            + 1].lo by {
            assert(adv[q].hi == s[q].hi);
            assert(adv[q + 1].lo == s[q + 1].lo);
        }
        assert(adv[0].lo == s[0].lo);
    }
    lemma_seg_of(s, pos);
    lemma_seg_of(merged, pos);
    let sg = seg_of(s, pos);
    lemma_seg_of_unique(adv, pos, sg);
    assert(frac_eq(adv[sg].height@, level_at(s, pos, dt@)));
    lemma_frac_ops_wf(rate_of(s, sg), dt@);
    lemma_frac_ops_wf(s[sg].height@, frac_mul(rate_of(s, sg), dt@));
    let ah = applied_height(adv, list, sg);
    assert(frac_eq(ah@, adv[sg].height@) && frac_wf(ah@)) by {
        match change_for(list, sg) {
            Option::Some(hh) => {
                lemma_change_for_member(list, sg);
                let kk = choose|k: int|
                    0 <= k < list.len() && (#[trigger] list[k]).0 as int == sg && list[k].1 == hh;
                lemma_event_merge(s, adv, list, dt, kk);
            },
            Option::None => {},
        }
    }
    assert(frac_wf(level_of(merged, pos)));
    assert(frac_wf(ah@));
    assert(frac_wf(adv[sg].height@));
    assert(seg_of(adv, pos) == sg);
    assert(frac_eq(level_of(merged, pos), ah@));
    lemma_frac_eq_trans(level_of(merged, pos), ah@, adv[sg].height@);
    lemma_frac_eq_trans(level_of(merged, pos), adv[sg].height@, level_at(s, pos, dt@));
}

/// Where `gen_index` lands: inside the list, beyond every earlier
/// interval, and strictly before its own right endpoint (except in the
/// final unbounded generation).
pub proof fn lemma_gen_index_inv(gens: Seq<Generation>, t: Frac)
    requires
        gens.len() >= 1,
        forall|k: int| 0 <= k < gens.len() - 1 ==> (#[trigger] gens[k]).end is Some,
        gens[gens.len() - 1].end is None,
    ensures
        ({
            let g = gen_index(gens, t);
            &&& 0 <= g < gens.len()
            &&& forall|k: int|
                0 <= k < g ==> (#[trigger] gens[k]).end is Some && !frac_lt(
                    t,
                    gens[k].end->Some_0@,
                )
            &&& g < gens.len() - 1 ==> frac_lt(t, gens[g].end->Some_0@)
        }),
    decreases gens.len(),
{
    let g = gen_index(gens, t);
    if gens.len() <= 1 {
    } else if (match gens[0].end {
        Option::Some(e) => frac_lt(t, e@),
        Option::None => true,
    }) {
        assert(g == 0);
        assert(gens[0].end is Some);
    } else {
        let sub = gens.subrange(1, gens.len() as int);
        assert(forall|k: int| 0 <= k < sub.len() ==> sub[k] == gens[k + 1]);
        assert forall|k: int| 0 <= k < sub.len() - 1 implies (#[trigger] sub[k]).end is Some by {
            assert(sub[k] == gens[k + 1]);
        }
        lemma_gen_index_inv(sub, t);
        let gs = gen_index(sub, t);
        assert(g == 1 + gs);
        assert forall|k: int| 0 <= k < g implies (#[trigger] gens[k]).end is Some && !frac_lt(
            t,
            gens[k].end->Some_0@,
        ) by {
            if k > 0 {
                assert(sub[k - 1] == gens[k]);
            }
        }
        if g < gens.len() - 1 {
            assert(sub[gs] == gens[g]);
        }
    }
}

impl Model {
    /// The generation timeline.
    pub closed spec fn gens(self) -> Seq<Generation> {
        self.generations@
    }

    /// The configured time horizon.
    pub closed spec fn horizon(self) -> Rat {
        self.max_time
    }

    /// The initial segment collection.
    pub closed spec fn init(self) -> Parts {
        self.initial_parts
    }

    /// Number of original positions.
    pub open spec fn npos(self) -> int {
        positions(self.gens()[0].parts@)
    }

    /// Model invariant.
    pub open spec fn wf(self) -> bool {
        &&& timeline_wf(self.gens(), self.npos())
        &&& frac_wf(self.horizon()@)
        &&& self.init().wf()
        &&& positions(self.init()@) == self.npos()
    }

    /// Number of generations in the timeline.
    pub fn generation_count(&self) -> (r: usize)
        ensures
            r == self.gens().len(),
    {
        self.generations.len()
    }

    /// Build a model from a raw height profile and a time horizon.
    /// Rejects an empty profile and any negative height; the heights are
    /// otherwise grouped into segments and the full timeline of
    /// configurations is computed eagerly, one generation per interval
    /// between topology changes.
    #[verifier::loop_isolation(false)]
    #[verifier::rlimit(100)]
    pub fn new(v: &Vec<Rat>, max_time: Rat) -> (r: Result<Model, Error>)
        requires
            v@.len() < 0x4000_0000_0000_0000,
        ensures
            r matches Err(e) && e == Error::NegativeHeight <==> exists|i: int|
                0 <= i < v@.len() && frac_lt(#[trigger] v@[i]@, frac_int(0)),
            r matches Err(e) && e == Error::EmptyInput <==> v@.len() == 0,
            r matches Err(e) ==> e == Error::EmptyInput || e == Error::NegativeHeight || e
                == Error::Overflow,
            r is Ok ==> v@.len() > 0 && new_parts_fits(v@),
            v@.len() > 0 && (forall|i: int|
                0 <= i < v@.len() ==> !frac_lt(#[trigger] v@[i]@, frac_int(0)))
                && !new_parts_fits(v@) ==> (r matches Err(e) && e == Error::Overflow),
            v@.len() > 0 && (forall|i: int|
                0 <= i < v@.len() ==> !frac_lt(#[trigger] v@[i]@, frac_int(0))) && new_parts_fits(
                v@,
            ) && initially_stable(v@) ==> r is Ok,
            r matches Ok(m) ==> {
                &&& m.wf()
                &&& m.npos() == v@.len()
                &&& m.horizon() == max_time
                &&& 1 <= m.gens().len() <= v@.len()
                &&& forall|pos: int|
                    0 <= pos < v@.len() ==> frac_eq(
                        #[trigger] level_of(m.gens()[0].parts@, pos),
                        v@[pos]@,
                    )
            },
    {
        let n = v.len();
        let mut i: usize = 0;
        while i < n
            invariant
                i <= n,
                forall|q: int| 0 <= q < i ==> !frac_lt(#[trigger] v@[q]@, frac_int(0)),
            decreases n - i,
        {
            if v[i].is_neg() {
                return Err(Error::NegativeHeight);
            }
            i += 1;
        }
        proof {
            use_type_invariant(max_time);
        }
        let initial_parts = match Parts::new(v) {
            Ok(p) => p,
            Err(e) => {
                return Err(e);
            },
        };
        let first = match Parts::new(v) {
            Ok(p) => p,
            Err(e) => {
                return Err(e);
            },
        };
        let ghost hs = v@;
        let mut gens: Vec<Generation> = Vec::new();
        let mut current: Parts = first;
        let mut start: Rat = Rat::from_int(0);
        loop
            invariant
                current.wf(),
                positions(current@) == n as int,
                n as int == v@.len(),
                frac_wf(start@),
                gens@.len() + current@.len() <= n as int,
                initially_stable(v@) ==> gens@.len() == 0 && current@ == grouped_spec(
                    unit_parts(v@),
                    v@.len() as int,
                ),
                chain_ok(gens@, current, start, n as int),
                gens@.len() == 0 ==> forall|pos: int|
                    0 <= pos < n ==> frac_eq(#[trigger] level_of(current@, pos), hs[pos]@),
                gens@.len() > 0 ==> forall|pos: int|
                    0 <= pos < n ==> frac_eq(#[trigger] level_of(gens@[0].parts@, pos), hs[pos]@),
            decreases current@.len(),
        {
            let step: Option<(Vec<(usize, Rat)>, Rat)> = match current.next_change() {
                Some((list, dt)) => Some((copy_changes(list), *dt)),
                None => None,
            };
            match step {
                None => {
                    let ghost gens_old = gens@;
                    gens.push(Generation { start, end: None, parts: current });
                    proof {
                        let res = gens@;
                        assert(res[res.len() - 1].parts.next_event() is None);
                        assert forall|k: int| 0 <= k < res.len() implies gen_wf(
                            #[trigger] res[k],
                            n as int,
                        ) by {
                            if k < gens_old.len() {
                                assert(res[k] == gens_old[k]);
                            }
                        }
                        assert forall|k: int| 0 <= k && k + 1 < res.len() implies gen_link(
                            #[trigger] res[k],
                            res[k + 1],
                        ) by {
                            if k + 1 < gens_old.len() {
                                assert(res[k] == gens_old[k]);
                                assert(res[k + 1] == gens_old[k + 1]);
                            } else {
                                assert(res[k] == gens_old[gens_old.len() - 1]);
                            }
                        }
                        assert(timeline_wf(res, n as int));
                    }
                    return Ok(Model { initial_parts, max_time, generations: gens });
                },
                Some((changes, dt)) => {
                    let ghost s = current@;
                    let ghost ev = current.next_event();
                    proof {
                        use_type_invariant(dt);
                        // a pending event contradicts initial stability
                        assert(ev matches Some(p) && p.0 == changes@ && p.1 == dt);
                        if initially_stable(v@) {
                            let list = ev->Some_0.0;
                            assert(has_cand(current@, list[0].0 as int));
                            assert(false);
                        }
                        assert(!initially_stable(v@));
                    }
                    let end_time = match start.add(dt) {
                        Some(x) => x,
                        None => {
                            return Err(Error::Overflow);
                        },
                    };
                    let adv = match current.calculate_parts_at_rel_time(dt) {
                        Ok(x) => x,
                        Err(e) => {
                            return Err(Error::Overflow);
                        },
                    };
                    proof {
                        assert(advanced_ok(s, adv@, dt));
                        lemma_merge_call_ok(s, adv@, changes@, dt);
                    }
                    let next = match Parts::new_from_parts_and_changes(&adv, &changes) {
                        Ok(x) => x,
                        Err(e) => {
                            return Err(Error::Overflow);
                        },
                    };
                    let ghost gens_old = gens@;
                    let ghost cur_old = current;
                    let ghost start_old = start;
                    gens.push(Generation { start, end: Some(end_time), parts: current });
                    current = next;
                    start = end_time;
                    proof {
                        let res = gens@;
                        let last = res[res.len() - 1];
                        assert(last == (Generation {
                            start: start_old,
                            end: Some(end_time),
                            parts: cur_old,
                        }));
                        assert forall|k: int| 0 <= k < res.len() implies gen_wf(
                            #[trigger] res[k],
                            n as int,
                        ) by {
                            if k < gens_old.len() {
                                assert(res[k] == gens_old[k]);
                            }
                        }
                        assert forall|k: int| 0 <= k && k + 1 < res.len() implies gen_link(
                            #[trigger] res[k],
                            res[k + 1],
                        ) by {
                            if k + 1 < gens_old.len() {
                                assert(res[k] == gens_old[k]);
                                assert(res[k + 1] == gens_old[k + 1]);
                            } else if k + 1 == gens_old.len() && gens_old.len() > 0 {
                                assert(res[k] == gens_old[gens_old.len() - 1]);
                                assert(gen_link(
                                    gens_old[gens_old.len() - 1],
                                    Generation {
                                        start: start_old,
                                        end: Option::None,
                                        parts: cur_old,
                                    },
                                ));
                            }
                        }
                        // the freshly closed generation links to the new current
                        assert(gen_link(
                            last,
                            Generation { start, end: Option::None, parts: current },
                        )) by {
                            assert(ev matches Some(p) && p.0 == changes@ && p.1 == dt);
                            assert(frac_lt(frac_int(0), dt@));
                            assert(frac_lt(start_old@, end_time@)) by {
                                lemma_frac_ops_wf(start_old@, dt@);
                                lemma_frac_add_pos_gt(start_old@, dt@);
                                lemma_frac_cmp_congr(
                                    start_old@,
                                    start_old@,
                                    frac_add(start_old@, dt@),
                                    end_time@,
                                );
                            }
                            lemma_merge_continuity(s, adv@, changes@, dt, current@);
                        }
                        assert(chain_ok(res, current, start, n as int));
                        if gens_old.len() == 0 {
                            assert(res[0] == last);
                        } else {
                            assert(res[0] == gens_old[0]);
                        }
                    }
                },
            }
        }
    }
}

/// Height of position `pos` at absolute time `t` under the timeline:
/// the linear rate law of the generation containing `t`, applied at the
/// offset from that generation's start.
pub open spec fn model_level(m: Model, pos: int, t: Frac) -> Frac {
    let g = gen_index(m.gens(), t);
    level_at(m.gens()[g].parts@, pos, frac_sub(t, m.gens()[g].start@))
}

/// `gen_index` returns the first generation whose right endpoint lies
/// beyond `t`.
pub proof fn lemma_gen_index_at(gens: Seq<Generation>, t: Frac, i: int)
    requires
        0 <= i < gens.len(),
        forall|k: int|
            0 <= k < i ==> (#[trigger] gens[k]).end is Some && !frac_lt(t, gens[k].end->Some_0@),
        gens[i].end is None || frac_lt(t, gens[i].end->Some_0@),
    ensures
        gen_index(gens, t) == i,
    decreases gens.len(),
{
    if gens.len() <= 1 {
    } else if i == 0 {
    } else {
        let sub = gens.subrange(1, gens.len() as int);
        assert(forall|k: int| 0 <= k < sub.len() ==> sub[k] == gens[k + 1]);
        assert(gens[0].end is Some && !frac_lt(t, gens[0].end->Some_0@));
        assert forall|k: int| 0 <= k < i - 1 implies (#[trigger] sub[k]).end is Some && !frac_lt(
            t,
            sub[k].end->Some_0@,
        ) by {
            assert(sub[k] == gens[k + 1]);
        }
        lemma_gen_index_at(sub, t, i - 1);
    }
}

impl Model {
    /// Heights of every original position at absolute time `time`.
    /// Rejects a negative time and a time beyond the horizon; otherwise
    /// locates the unique generation containing `time` by ordered search
    /// and expands its per-segment heights, advanced by the offset into
    /// the interval, back into one height per position.
    #[verifier::loop_isolation(false)]
    #[verifier::rlimit(80)]
    pub fn calculate_levels(&self, time: Rat) -> (r: Result<Vec<Rat>, Error>)
        requires
            self.wf(),
        ensures
            r matches Err(e) && e == Error::NegativeTime <==> frac_lt(time@, frac_int(0)),
            r matches Err(e) && e == Error::TimeBeyondHorizon <==> (!frac_lt(time@, frac_int(0))
                && frac_lt(self.horizon()@, time@)),
            r matches Err(e) ==> e == Error::NegativeTime || e == Error::TimeBeyondHorizon || e
                == Error::Overflow,
            r is Ok <==> ({
                let g = gen_index(self.gens(), time@);
                let off = frac_sub(time@, self.gens()[g].start@);
                &&& !frac_lt(time@, frac_int(0))
                &&& !frac_lt(self.horizon()@, time@)
                &&& crate::rat::representable(off)
                &&& forall|i: int|
                    0 <= i < self.gens()[g].parts@.len() ==> #[trigger] advance_fits(
                        self.gens()[g].parts@,
                        off,
                        i,
                    )
            }),
            r matches Ok(out) ==> {
                &&& out@.len() == self.npos()
                &&& forall|pos: int|
                    0 <= pos < self.npos() ==> frac_eq(
                        (#[trigger] out@[pos])@,
                        model_level(*self, pos, time@),
                    )
            },
    {
        proof {
            use_type_invariant(time);
        }
        if time.is_neg() {
            return Err(Error::NegativeTime);
        }
        if self.max_time.lt(time) {
            return Err(Error::TimeBeyondHorizon);
        }
        let ghost gens = self.gens();
        let m = self.generations.len();
        let mut gi: usize = 0;
        loop
            invariant
                gi < m,
                forall|k: int|
                    0 <= k < gi ==> (#[trigger] gens[k]).end is Some && !frac_lt(
                        time@,
                        gens[k].end->Some_0@,
                    ),
            decreases m - gi,
        {
            let found: bool = match &self.generations[gi].end {
                None => true,
                Some(e) => time.lt(*e),
            };
            if found {
                break;
            }
            proof {
                if gi + 1 >= m {
                    assert(gens[gens.len() - 1].end is None);
                    assert(false);
                }
            }
            gi += 1;
        }
        proof {
            lemma_gen_index_at(gens, time@, gi as int);
        }
        let g_start = self.generations[gi].start;
        let ghost off_spec = frac_sub(time@, gens[gi as int].start@);
        let ghost s = gens[gi as int].parts@;
        let offset = match time.sub(g_start) {
            Some(x) => x,
            None => {
                return Err(Error::Overflow);
            },
        };
        proof {
            lemma_frac_ops_wf(time@, gens[gi as int].start@);
            assert forall|i: int| 0 <= i < s.len() implies #[trigger] advance_fits(s, offset@, i)
                == advance_fits(s, off_spec, i) by {
                lemma_advance_fits_congr(s, offset@, off_spec, i);
            }
        }
        let adv = match self.generations[gi].parts.calculate_parts_at_rel_time(offset) {
            Ok(x) => x,
            Err(e) => {
                proof {
                    let bad = choose|i: int| 0 <= i < s.len() && !advance_fits(s, offset@, i);
                    assert(!advance_fits(s, off_spec, bad));
                }
                return Err(Error::Overflow);
            },
        };
        let na = adv.len();
        let mut out: Vec<Rat> = Vec::new();
        let mut k: usize = 0;
        while k < na
            invariant
                na == adv@.len(),
                adv@.len() == s.len(),
                k <= na,
                out@.len() == (if k == 0 {
                    0int
                } else {
                    s[k - 1].hi as int
                }),
                forall|pos: int|
                    0 <= pos < out@.len() ==> frac_eq(
                        (#[trigger] out@[pos])@,
                        level_at(s, pos, off_spec),
                    ),
            decreases na - k,
        {
            let p = adv[k];
            let ghost out_len0 = out@.len();
            proof {
                assert(p.lo == s[k as int].lo && p.hi == s[k as int].hi);
                if k > 0 {
                    assert(s[k as int - 1].hi == s[k as int].lo);
                } else {
                    assert(s[0].lo == 0);
                }
            }
            let mut pos = p.lo;
            while pos < p.hi
                invariant
                    p == adv@[k as int],
                    k < na,
                    na == adv@.len(),
                    adv@.len() == s.len(),
                    p.lo <= pos <= p.hi,
                    out@.len() == pos,
                    forall|q: int|
                        0 <= q < out@.len() ==> frac_eq(
                            (#[trigger] out@[q])@,
                            level_at(s, q, off_spec),
                        ),
                decreases p.hi - pos,
            {
                let ghost out_old = out@;
                out.push(p.height);
                proof {
                    lemma_seg_of_unique(s, pos as int, k as int);
                    let rk = rate_of(s, k as int);
                    assert(frac_wf(rk));
                    assert(frac_eq(p.height@, level_at(s, pos as int, off_spec))) by {
                        lemma_frac_ops_wf(time@, gens[gi as int].start@);
                        lemma_frac_ops_wf(rk, offset@);
                        lemma_frac_ops_wf(rk, off_spec);
                        lemma_frac_mul_congr(rk, rk, offset@, off_spec);
                        lemma_frac_add_congr(
                            s[k as int].height@,
                            s[k as int].height@,
                            frac_mul(rk, offset@),
                            frac_mul(rk, off_spec),
                        );
                        lemma_frac_ops_wf(s[k as int].height@, frac_mul(rk, offset@));
                        lemma_frac_ops_wf(s[k as int].height@, frac_mul(rk, off_spec));
                        lemma_frac_eq_trans(
                            p.height@,
                            frac_add(s[k as int].height@, frac_mul(rk, offset@)),
                            frac_add(s[k as int].height@, frac_mul(rk, off_spec)),
                        );
                    }
                    assert forall|q: int| 0 <= q < out@.len() implies frac_eq(
                        (#[trigger] out@[q])@,
                        level_at(s, q, off_spec),
                    ) by {
                        if q < out_old.len() {
                            assert(out@[q] == out_old[q]);
                        } else {
                            assert(out@[q] == p.height);
                        }
                    }
                }
                pos += 1;
            }
            k += 1;
        }
        proof {
            assert(out@.len() == positions(s));
            assert(gen_index(gens, time@) == gi as int);
            assert(crate::rat::representable(off_spec));
            assert forall|i: int| 0 <= i < s.len() implies #[trigger] advance_fits(
                s,
                off_spec,
                i,
            ) by {
                assert(advance_fits(s, offset@, i));
            }
        }
        Ok(out)
    }
}

} // verus!
