//! Laws about how regions cover a player's recorded ticks: splitting on
//! gaps and removing AFK ticks keep every tick in exactly one region, and
//! resolving regions to indices turns that into a partition of the data.
use vstd::prelude::*;
use crate::extractor::{afk_removed, cleaned_regions};
use crate::float_bits::f32_equal;
use crate::sequence::{
    gap_starts_in, gaps_in_region, is_gap_at, region, split_all, split_on_gaps, split_pieces,
    split_region, tick_gaps, tick_in_region, without_afk, first_index_in, last_index_in,
    resolved, resolved_all, regions_with_data, same_run, is_afk_at, tick_runs_from, ActiveRegion, RegionEndReason,
    TickData,
};

verus! {

/// Ticks are strictly increasing along the data.
pub open spec fn ticks_increasing(data: Seq<TickData>) -> bool {
    forall|i: int, j: int| 0 <= i < j < data.len() ==> #[trigger] data[i].tick < #[trigger] data[j].tick
}

/// Regions come in tick order and do not overlap.
pub open spec fn regions_ordered(rs: Seq<ActiveRegion>) -> bool {
    forall|i: int, j: int|
        0 <= i < j < rs.len() ==> #[trigger] rs[i].end_tick < #[trigger] rs[j].start_tick
}

/// Some region contains the tick.
pub open spec fn tick_covered(rs: Seq<ActiveRegion>, t: i64) -> bool {
    exists|k: int| 0 <= k < rs.len() && tick_in_region(t, #[trigger] rs[k])
}

/// Every recorded tick lies in some region.
pub open spec fn covers_data(rs: Seq<ActiveRegion>, data: Seq<TickData>) -> bool {
    forall|i: int| 0 <= i < data.len() ==> tick_covered(rs, #[trigger] data[i].tick)
}

/// No recorded tick lies strictly inside the gap.
pub open spec fn no_tick_inside(data: Seq<TickData>, g: (i64, i64)) -> bool {
    forall|m: int| 0 <= m < data.len() ==> !(g.0 < #[trigger] data[m].tick < g.1)
}

/// Each gap runs forwards and holds no recorded tick.
pub open spec fn gaps_sound(data: Seq<TickData>, gs: Seq<(i64, i64)>) -> bool {
    forall|j: int| 0 <= j < gs.len() ==> {
        &&& (#[trigger] gs[j]).0 < gs[j].1
        &&& no_tick_inside(data, gs[j])
    }
}

/// Each gap ends no later than any later gap starts.
pub open spec fn gaps_ordered(gs: Seq<(i64, i64)>) -> bool {
    forall|j: int, k: int| 0 <= j < k < gs.len() ==> (#[trigger] gs[j]).1 <= (#[trigger] gs[k]).0
}

/// Every gap ends at a recorded tick of index below `bound`.
pub open spec fn gaps_end_below(data: Seq<TickData>, gs: Seq<(i64, i64)>, bound: int) -> bool {
    forall|j: int|
        0 <= j < gs.len() ==> exists|a: int| 0 <= a < bound && (#[trigger] gs[j]).1 == #[trigger] data[a].tick
}

proof fn lemma_tick_gaps_facts(data: Seq<TickData>)
    requires
        ticks_increasing(data),
    ensures
        gaps_sound(data, tick_gaps(data)),
        gaps_ordered(tick_gaps(data)),
        gaps_end_below(data, tick_gaps(data), data.len() as int),
    decreases data.len(),
{
    let gs = tick_gaps(data);
    if data.len() >= 2 {
        let n = data.len() as int;
        let p = data.drop_last();
        lemma_tick_gaps_facts(p);
        let before = tick_gaps(p);
        assert forall|j: int| 0 <= j < before.len() implies (#[trigger] before[j]).1 <= data[n - 2].tick
            && no_tick_inside(data, before[j]) && before[j].0 < before[j].1
            && exists|a: int| 0 <= a < n && before[j].1 == #[trigger] data[a].tick by {
            let a = choose|a: int| 0 <= a < n - 1 && before[j].1 == #[trigger] p[a].tick;
            assert(p[a] == data[a]);
            if a < n - 2 {
                assert(data[a].tick < data[n - 2].tick);
            }
            assert forall|m: int| 0 <= m < data.len() implies !(before[j].0 < #[trigger] data[m].tick
                < before[j].1) by {
                if m < n - 1 {
                    assert(p[m] == data[m]);
                } else {
                    assert(data[n - 2].tick < data[m].tick);
                }
            }
        }
        if is_gap_at(data, n - 2) {
            let g = (data[n - 2].tick, data[n - 1].tick);
            assert(gs == before.push(g));
            assert(data[n - 2].tick < data[n - 1].tick);
            assert forall|m: int| 0 <= m < data.len() implies !(g.0 < #[trigger] data[m].tick < g.1) by {
                if m < n - 2 {
                    assert(data[m].tick < data[n - 2].tick);
                } else if m == n - 2 {
                } else {
                }
            }
            assert(gs[gs.len() - 1] == g);
            assert forall|j: int| 0 <= j < gs.len() implies exists|a: int| 0 <= a < n && (#[trigger] gs[j]).1
                == #[trigger] data[a].tick by {
                if j < before.len() {
                    assert(gs[j] == before[j]);
                } else {
                    assert(gs[j].1 == data[n - 1].tick);
                }
            }
            assert forall|j: int, k: int| 0 <= j < k < gs.len() implies (#[trigger] gs[j]).1 <= (
            #[trigger] gs[k]).0 by {
                assert(gs[j] == before[j]);
                if k < before.len() {
                    assert(gs[k] == before[k]);
                }
            }
        } else {
            assert(gs == before);
        }
    }
}

proof fn lemma_gaps_in_region(data: Seq<TickData>, gs: Seq<(i64, i64)>, r: ActiveRegion)
    requires
        gaps_sound(data, gs),
        gaps_ordered(gs),
    ensures
        gaps_sound(data, gaps_in_region(gs, r)),
        gaps_ordered(gaps_in_region(gs, r)),
        forall|j: int|
            0 <= j < gaps_in_region(gs, r).len() ==> gap_starts_in(#[trigger] gaps_in_region(gs, r)[j], r),
        forall|j: int|
            0 <= j < gaps_in_region(gs, r).len() ==> exists|i: int|
                0 <= i < gs.len() && gs[i] == #[trigger] gaps_in_region(gs, r)[j],
    decreases gs.len(),
{
    if gs.len() > 0 {
        let p = gs.drop_last();
        let n = gs.len() as int;
        assert(gaps_sound(data, p)) by {
            assert forall|j: int| 0 <= j < p.len() implies (#[trigger] p[j]).0 < p[j].1 && no_tick_inside(
                data,
                p[j],
            ) by {
                assert(p[j] == gs[j]);
            }
        }
        assert(gaps_ordered(p)) by {
            assert forall|j: int, k: int| 0 <= j < k < p.len() implies (#[trigger] p[j]).1 <= (
            #[trigger] p[k]).0 by {
                assert(p[j] == gs[j]);
                assert(p[k] == gs[k]);
            }
        }
        lemma_gaps_in_region(data, p, r);
        let before = gaps_in_region(p, r);
        let res = gaps_in_region(gs, r);
        assert forall|j: int| 0 <= j < before.len() implies exists|i: int|
            0 <= i < n - 1 && gs[i] == #[trigger] before[j] by {
            let i = choose|i: int| 0 <= i < p.len() && p[i] == before[j];
            assert(p[i] == gs[i]);
        }
        if gap_starts_in(gs.last(), r) {
            assert(res == before.push(gs.last()));
            assert forall|j: int| 0 <= j < res.len() implies exists|i: int|
                0 <= i < gs.len() && gs[i] == #[trigger] res[j] by {
                if j < before.len() {
                    assert(res[j] == before[j]);
                    let i = choose|i: int| 0 <= i < n - 1 && gs[i] == before[j];
                } else {
                    assert(res[j] == gs[n - 1]);
                }
            }
            assert forall|j: int| 0 <= j < res.len() implies gap_starts_in(#[trigger] res[j], r) by {
                if j < before.len() {
                    assert(res[j] == before[j]);
                }
            }
            assert forall|j: int| 0 <= j < res.len() implies (#[trigger] res[j]).0 < res[j].1
                && no_tick_inside(data, res[j]) by {
                if j < before.len() {
                    assert(res[j] == before[j]);
                } else {
                    assert(res[j] == gs[n - 1]);
                }
            }
            assert forall|j: int, k: int| 0 <= j < k < res.len() implies (#[trigger] res[j]).1 <= (
            #[trigger] res[k]).0 by {
                assert(res[j] == before[j]);
                if k < before.len() {
                    assert(res[k] == before[k]);
                } else {
                    let i = choose|i: int| 0 <= i < n - 1 && gs[i] == before[j];
                    assert(res[k] == gs[n - 1]);
                }
            }
        } else {
            assert(res == before);
            assert forall|j: int| 0 <= j < res.len() implies exists|i: int|
                0 <= i < gs.len() && gs[i] == #[trigger] res[j] by {
                let i = choose|i: int| 0 <= i < n - 1 && gs[i] == before[j];
            }
        }
    }
}

/// The conditions under which a region is cut at the gaps `rg`, starting at `cur`.
pub open spec fn cut_ready(r: ActiveRegion, rg: Seq<(i64, i64)>, cur: i64) -> bool {
    &&& r.start_tick <= cur
    &&& forall|j: int| 0 <= j < rg.len() ==> gap_starts_in(#[trigger] rg[j], r)
    &&& gaps_ordered(rg)
    &&& forall|j: int| 0 <= j < rg.len() ==> (#[trigger] rg[j]).0 < rg[j].1
    &&& rg.len() > 0 ==> cur <= rg[0].0
}

proof fn lemma_cut_rest(r: ActiveRegion, rg: Seq<(i64, i64)>, cur: i64)
    requires
        cut_ready(r, rg, cur),
        rg.len() > 0,
    ensures
        cut_ready(r, rg.drop_first(), rg[0].1),
{
    let rest = rg.drop_first();
    assert forall|j: int| 0 <= j < rest.len() implies gap_starts_in(#[trigger] rest[j], r) by {
        assert(rest[j] == rg[j + 1]);
    }
    assert forall|j: int, k: int| 0 <= j < k < rest.len() implies (#[trigger] rest[j]).1 <= (
    #[trigger] rest[k]).0 by {
        assert(rest[j] == rg[j + 1]);
        assert(rest[k] == rg[k + 1]);
    }
    assert forall|j: int| 0 <= j < rest.len() implies (#[trigger] rest[j]).0 < rest[j].1 by {
        assert(rest[j] == rg[j + 1]);
    }
    if rest.len() > 0 {
        assert(rest[0] == rg[1]);
        assert(rg[0].1 <= rg[1].0);
    }
    assert(gap_starts_in(rg[0], r));
}

proof fn lemma_pieces_shape(r: ActiveRegion, rg: Seq<(i64, i64)>, reason: RegionEndReason, cur: i64)
    requires
        cut_ready(r, rg, cur),
    ensures
        forall|k: int|
            0 <= k < split_pieces(r, rg, reason, cur).len() ==> {
                &&& cur <= (#[trigger] split_pieces(r, rg, reason, cur)[k]).start_tick
                &&& split_pieces(r, rg, reason, cur)[k].start_tick <= split_pieces(
                    r,
                    rg,
                    reason,
                    cur,
                )[k].end_tick
                &&& split_pieces(r, rg, reason, cur)[k].end_tick <= r.end_tick
            },
        regions_ordered(split_pieces(r, rg, reason, cur)),
    decreases rg.len(),
{
    let ps = split_pieces(r, rg, reason, cur);
    if rg.len() > 0 {
        lemma_cut_rest(r, rg, cur);
        let rest = split_pieces(r, rg.drop_first(), reason, rg[0].1);
        lemma_pieces_shape(r, rg.drop_first(), reason, rg[0].1);
        let first = region(cur, rg[0].0, r.team, r.practice, reason);
        assert(ps == seq![first] + rest);
        assert(gap_starts_in(rg[0], r));
        assert forall|k: int| 0 <= k < ps.len() implies {
            &&& cur <= (#[trigger] ps[k]).start_tick
            &&& ps[k].start_tick <= ps[k].end_tick
            &&& ps[k].end_tick <= r.end_tick
        } by {
            if k > 0 {
                assert(ps[k] == rest[k - 1]);
            }
        }
        assert forall|i: int, j: int| 0 <= i < j < ps.len() implies #[trigger] ps[i].end_tick
            < #[trigger] ps[j].start_tick by {
            assert(ps[j] == rest[j - 1]);
            if i > 0 {
                assert(ps[i] == rest[i - 1]);
            }
        }
    }
}

proof fn lemma_pieces_cover(
    data: Seq<TickData>,
    r: ActiveRegion,
    rg: Seq<(i64, i64)>,
    reason: RegionEndReason,
    cur: i64,
    m: int,
)
    requires
        cut_ready(r, rg, cur),
        gaps_sound(data, rg),
        0 <= m < data.len(),
        cur <= data[m].tick <= r.end_tick,
    ensures
        tick_covered(split_pieces(r, rg, reason, cur), data[m].tick),
    decreases rg.len(),
{
    let ps = split_pieces(r, rg, reason, cur);
    let t = data[m].tick;
    if rg.len() == 0 {
        assert(tick_in_region(t, ps[0]));
    } else {
        let rest = split_pieces(r, rg.drop_first(), reason, rg[0].1);
        assert(ps == seq![region(cur, rg[0].0, r.team, r.practice, reason)] + rest);
        if t <= rg[0].0 {
            assert(tick_in_region(t, ps[0]));
        } else {
            assert(no_tick_inside(data, rg[0]));
            assert(t >= rg[0].1);
            lemma_cut_rest(r, rg, cur);
            assert(gaps_sound(data, rg.drop_first())) by {
                assert forall|j: int| 0 <= j < rg.drop_first().len() implies (
                #[trigger] rg.drop_first()[j]).0 < rg.drop_first()[j].1 && no_tick_inside(
                    data,
                    rg.drop_first()[j],
                ) by {
                    assert(rg.drop_first()[j] == rg[j + 1]);
                }
            }
            lemma_pieces_cover(data, r, rg.drop_first(), reason, rg[0].1, m);
            let k = choose|k: int| 0 <= k < rest.len() && tick_in_region(t, #[trigger] rest[k]);
            assert(ps[k + 1] == rest[k]);
        }
    }
}

/// `p` lies within the tick range of `r`.
pub open spec fn within(p: ActiveRegion, r: ActiveRegion) -> bool {
    r.start_tick <= p.start_tick && p.end_tick <= r.end_tick
}

proof fn lemma_split_region(
    data: Seq<TickData>,
    gaps: Seq<(i64, i64)>,
    r: ActiveRegion,
    reason: RegionEndReason,
)
    requires
        gaps_sound(data, gaps),
        gaps_ordered(gaps),
    ensures
        forall|k: int|
            0 <= k < split_region(r, gaps, reason).len() ==> within(
                #[trigger] split_region(r, gaps, reason)[k],
                r,
            ),
        regions_ordered(split_region(r, gaps, reason)),
        forall|m: int|
            0 <= m < data.len() && tick_in_region(#[trigger] data[m].tick, r) ==> tick_covered(
                split_region(r, gaps, reason),
                data[m].tick,
            ),
{
    let rg = gaps_in_region(gaps, r);
    lemma_gaps_in_region(data, gaps, r);
    let sr = split_region(r, gaps, reason);
    if rg.len() == 0 {
        assert(sr == seq![r]);
        assert forall|m: int| 0 <= m < data.len() && tick_in_region(#[trigger] data[m].tick, r) implies tick_covered(
            sr,
            data[m].tick,
        ) by {
            assert(tick_in_region(data[m].tick, sr[0]));
        }
    } else {
        assert(gap_starts_in(rg[0], r));
        assert(cut_ready(r, rg, r.start_tick));
        lemma_pieces_shape(r, rg, reason, r.start_tick);
        assert forall|m: int| 0 <= m < data.len() && tick_in_region(#[trigger] data[m].tick, r) implies tick_covered(
            sr,
            data[m].tick,
        ) by {
            lemma_pieces_cover(data, r, rg, reason, r.start_tick, m);
        }
    }
}

proof fn lemma_split_all(
    data: Seq<TickData>,
    gaps: Seq<(i64, i64)>,
    rs: Seq<ActiveRegion>,
    reason: RegionEndReason,
)
    requires
        gaps_sound(data, gaps),
        gaps_ordered(gaps),
        regions_ordered(rs),
    ensures
        regions_ordered(split_all(rs, gaps, reason)),
        forall|k: int|
            0 <= k < split_all(rs, gaps, reason).len() ==> exists|i: int|
                0 <= i < rs.len() && within(#[trigger] split_all(rs, gaps, reason)[k], rs[i]),
        forall|m: int|
            0 <= m < data.len() && tick_covered(rs, #[trigger] data[m].tick) ==> tick_covered(
                split_all(rs, gaps, reason),
                data[m].tick,
            ),
    decreases rs.len(),
{
    if rs.len() > 0 {
        let n = rs.len() as int;
        let p = rs.drop_last();
        let last = rs.last();
        assert(regions_ordered(p)) by {
            assert forall|i: int, j: int| 0 <= i < j < p.len() implies #[trigger] p[i].end_tick
                < #[trigger] p[j].start_tick by {
                assert(p[i] == rs[i]);
                assert(p[j] == rs[j]);
            }
        }
        lemma_split_all(data, gaps, p, reason);
        lemma_split_region(data, gaps, last, reason);
        let a = split_all(p, gaps, reason);
        let b = split_region(last, gaps, reason);
        let out = split_all(rs, gaps, reason);
        assert(out == a + b);
        assert forall|k: int| 0 <= k < out.len() implies exists|i: int|
            0 <= i < rs.len() && within(#[trigger] out[k], rs[i]) by {
            if k < a.len() {
                assert(out[k] == a[k]);
                let i = choose|i: int| 0 <= i < p.len() && within(a[k], p[i]);
                assert(p[i] == rs[i]);
            } else {
                assert(out[k] == b[k - a.len()]);
                assert(within(b[k - a.len()], last));
            }
        }
        assert forall|i: int, j: int| 0 <= i < j < out.len() implies #[trigger] out[i].end_tick
            < #[trigger] out[j].start_tick by {
            if j < a.len() {
                assert(out[i] == a[i]);
                assert(out[j] == a[j]);
            } else if i >= a.len() {
                assert(out[i] == b[i - a.len()]);
                assert(out[j] == b[j - a.len()]);
            } else {
                assert(out[i] == a[i]);
                assert(out[j] == b[j - a.len()]);
                assert(within(b[j - a.len()], last));
                let x = choose|x: int| 0 <= x < p.len() && within(a[i], p[x]);
                assert(p[x] == rs[x]);
                assert(rs[x].end_tick < rs[n - 1].start_tick);
            }
        }
        assert forall|m: int| 0 <= m < data.len() && tick_covered(rs, #[trigger] data[m].tick) implies tick_covered(
            out,
            data[m].tick,
        ) by {
            let t = data[m].tick;
            let k = choose|k: int| 0 <= k < rs.len() && tick_in_region(t, #[trigger] rs[k]);
            if k == n - 1 {
                let q = choose|q: int| 0 <= q < b.len() && tick_in_region(t, #[trigger] b[q]);
                assert(out[a.len() + q] == b[q]);
            } else {
                assert(p[k] == rs[k]);
                assert(tick_covered(p, t));
                let q = choose|q: int| 0 <= q < a.len() && tick_in_region(t, #[trigger] a[q]);
                assert(out[q] == a[q]);
            }
        }
    }
}

/// Splitting regions on the gaps of strictly increasing data keeps them in
/// tick order without overlap, and keeps every recorded tick inside some
/// region: no tick loses its region when a region is cut at a gap.
pub proof fn split_keeps_ticks_covered(
    regions: Seq<ActiveRegion>,
    data: Seq<TickData>,
    reason: RegionEndReason,
)
    requires
        ticks_increasing(data),
        regions_ordered(regions),
        covers_data(regions, data),
    ensures
        regions_ordered(split_on_gaps(regions, data, reason)),
        covers_data(split_on_gaps(regions, data, reason), data),
{
    let gaps = tick_gaps(data);
    if gaps.len() > 0 {
        lemma_tick_gaps_facts(data);
        lemma_split_all(data, gaps, regions, reason);
        assert forall|i: int| 0 <= i < data.len() implies tick_covered(
            split_on_gaps(regions, data, reason),
            #[trigger] data[i].tick,
        ) by {
            assert(tick_covered(regions, data[i].tick));
        }
    }
}

proof fn lemma_without_afk(data: Seq<TickData>, afk_ticks: nat, k: int)
    requires
        ticks_increasing(data),
        0 <= k <= data.len(),
    ensures
        ticks_increasing(without_afk(data, afk_ticks, k)),
        forall|x: int|
            0 <= x < without_afk(data, afk_ticks, k).len() ==> exists|j: int|
                0 <= j < k && #[trigger] without_afk(data, afk_ticks, k)[x] == data[j],
    decreases k,
{
    if k > 0 {
        lemma_without_afk(data, afk_ticks, k - 1);
        let before = without_afk(data, afk_ticks, k - 1);
        let res = without_afk(data, afk_ticks, k);
        if res != before {
            assert(res == before.push(data[k - 1]));
            assert forall|x: int| 0 <= x < res.len() implies exists|j: int|
                0 <= j < k && #[trigger] res[x] == data[j] by {
                if x < before.len() {
                    assert(res[x] == before[x]);
                    let j = choose|j: int| 0 <= j < k - 1 && before[x] == data[j];
                } else {
                    assert(res[x] == data[k - 1]);
                }
            }
            assert forall|x: int, y: int| 0 <= x < y < res.len() implies #[trigger] res[x].tick
                < #[trigger] res[y].tick by {
                assert(res[x] == before[x]);
                if y < before.len() {
                    assert(res[y] == before[y]);
                } else {
                    let j = choose|j: int| 0 <= j < k - 1 && before[x] == data[j];
                    assert(res[y] == data[k - 1]);
                    assert(data[j].tick < data[k - 1].tick);
                }
            }
        } else {
            assert forall|x: int| 0 <= x < res.len() implies exists|j: int|
                0 <= j < k && #[trigger] res[x] == data[j] by {
                let j = choose|j: int| 0 <= j < k - 1 && before[x] == data[j];
            }
        }
    }
}

/// Removing AFK ticks keeps the remaining ticks in order, strictly
/// increasing, and each of them still inside a region that covered it.
pub proof fn afk_removal_keeps_ticks_covered(
    regions: Seq<ActiveRegion>,
    data: Seq<TickData>,
    afk_ticks: nat,
)
    requires
        ticks_increasing(data),
        covers_data(regions, data),
    ensures
        ticks_increasing(without_afk(data, afk_ticks, data.len() as int)),
        covers_data(regions, without_afk(data, afk_ticks, data.len() as int)),
{
    let kept = without_afk(data, afk_ticks, data.len() as int);
    lemma_without_afk(data, afk_ticks, data.len() as int);
    assert forall|i: int| 0 <= i < kept.len() implies tick_covered(regions, #[trigger] kept[i].tick) by {
        let j = choose|j: int| 0 <= j < data.len() && kept[i] == data[j];
        assert(tick_covered(regions, data[j].tick));
    }
}

/// The data index `i` lies in the region's resolved index range.
pub open spec fn index_in(r: ActiveRegion, i: int) -> bool {
    &&& r.start_idx matches Some(s)
    &&& r.end_idx matches Some(e)
    &&& s <= i < e
}

/// Some region's index range holds the data index `i`.
pub open spec fn index_covered(rs: Seq<ActiveRegion>, i: int) -> bool {
    exists|k: int| 0 <= k < rs.len() && index_in(#[trigger] rs[k], i)
}

/// Every region has a resolved, non-empty index range within `0..n`, and
/// every data index `0 <= i < n` lies in exactly one region's range.
pub open spec fn partitions_indices(rs: Seq<ActiveRegion>, n: int) -> bool {
    &&& forall|k: int|
        0 <= k < rs.len() ==> {
            &&& (#[trigger] rs[k]).start_idx matches Some(s)
            &&& rs[k].end_idx matches Some(e)
            &&& s < e <= n
        }
    &&& forall|i: int| 0 <= i < n ==> #[trigger] index_covered(rs, i)
    &&& forall|i: int, k1: int, k2: int|
        0 <= i < n && 0 <= k1 < rs.len() && 0 <= k2 < rs.len() && #[trigger] index_in(rs[k1], i)
            && #[trigger] index_in(rs[k2], i) ==> k1 == k2
}

proof fn lemma_first_index_in(data: Seq<TickData>, r: ActiveRegion, k: int)
    requires
        0 <= k,
        data.len() <= usize::MAX,
    ensures
        match first_index_in(data, r, k) {
            Some(s) => k <= s < data.len() && tick_in_region(data[s as int].tick, r) && forall|j: int|
                k <= j < s ==> !tick_in_region(#[trigger] data[j].tick, r),
            None => forall|j: int| k <= j < data.len() ==> !tick_in_region(#[trigger] data[j].tick, r),
        },
    decreases data.len() - k,
{
    if k < data.len() && !tick_in_region(data[k].tick, r) {
        lemma_first_index_in(data, r, k + 1);
    }
}

proof fn lemma_last_index_in(data: Seq<TickData>, r: ActiveRegion, k: int)
    requires
        0 <= k <= data.len(),
        data.len() <= usize::MAX,
    ensures
        match last_index_in(data, r, k) {
            Some(l) => l < k && tick_in_region(data[l as int].tick, r) && forall|j: int|
                l < j < k ==> !tick_in_region(#[trigger] data[j].tick, r),
            None => forall|j: int| 0 <= j < k ==> !tick_in_region(#[trigger] data[j].tick, r),
        },
    decreases k,
{
    if k > 0 && !tick_in_region(data[k - 1].tick, r) {
        lemma_last_index_in(data, r, k - 1);
    }
}

proof fn lemma_resolved(data: Seq<TickData>, r: ActiveRegion)
    requires
        ticks_increasing(data),
        data.len() <= usize::MAX,
    ensures
        forall|i: int|
            0 <= i < data.len() ==> (index_in(resolved(r, data), i) <==> tick_in_region(
                #[trigger] data[i].tick,
                r,
            )),
        resolved(r, data).start_idx is Some <==> resolved(r, data).end_idx is Some,
        resolved(r, data).start_idx matches Some(s) ==> (resolved(r, data).end_idx matches Some(e)
            && s < e <= data.len()),
        resolved(r, data).start_tick == r.start_tick,
        resolved(r, data).end_tick == r.end_tick,
{
    lemma_first_index_in(data, r, 0);
    lemma_last_index_in(data, r, data.len() as int);
    let rr = resolved(r, data);
    match (first_index_in(data, r, 0), last_index_in(data, r, data.len() as int)) {
        (Some(s), Some(l)) => {
            assert(s <= l);
            assert forall|i: int| 0 <= i < data.len() implies (index_in(rr, i) <==> tick_in_region(
                #[trigger] data[i].tick,
                r,
            )) by {
                if s <= i <= l {
                    if s < i {
                        assert(data[s as int].tick < data[i].tick);
                    }
                    if i < l {
                        assert(data[i].tick < data[l as int].tick);
                    }
                }
            }
        },
        (Some(s), None) => {
            assert(tick_in_region(data[s as int].tick, r));
        },
        (None, Some(l)) => {
            assert(tick_in_region(data[l as int].tick, r));
        },
        (None, None) => {},
    }
}

proof fn lemma_with_data_members(rs: Seq<ActiveRegion>)
    ensures
        forall|k: int|
            0 <= k < regions_with_data(rs).len() ==> exists|a: int|
                0 <= a < rs.len() && rs[a] == #[trigger] regions_with_data(rs)[k],
        forall|k: int|
            0 <= k < regions_with_data(rs).len() ==> (#[trigger] regions_with_data(rs)[k]).start_idx is Some,
    decreases rs.len(),
{
    if rs.len() > 0 {
        let n = rs.len() as int;
        let p = rs.drop_last();
        lemma_with_data_members(p);
        let before = regions_with_data(p);
        let out = regions_with_data(rs);
        assert forall|k: int| 0 <= k < out.len() implies exists|a: int|
            0 <= a < rs.len() && rs[a] == #[trigger] out[k] by {
            if k < before.len() {
                assert(out[k] == before[k]);
                let a = choose|a: int| 0 <= a < p.len() && p[a] == before[k];
                assert(p[a] == rs[a]);
            } else {
                assert(out[k] == rs[n - 1]);
            }
        }
        assert forall|k: int| 0 <= k < out.len() implies (#[trigger] out[k]).start_idx is Some by {
            if k < before.len() {
                assert(out[k] == before[k]);
            }
        }
    }
}

proof fn lemma_with_data_complete(rs: Seq<ActiveRegion>)
    ensures
        forall|a: int|
            0 <= a < rs.len() && (#[trigger] rs[a]).start_idx is Some ==> exists|k: int|
                0 <= k < regions_with_data(rs).len() && regions_with_data(rs)[k] == rs[a],
    decreases rs.len(),
{
    if rs.len() > 0 {
        let n = rs.len() as int;
        let p = rs.drop_last();
        lemma_with_data_complete(p);
        let before = regions_with_data(p);
        let out = regions_with_data(rs);
        assert forall|a: int| 0 <= a < rs.len() && (#[trigger] rs[a]).start_idx is Some implies exists|k: int|
            0 <= k < out.len() && out[k] == rs[a] by {
            if a < n - 1 {
                assert(p[a] == rs[a]);
                let k = choose|k: int| 0 <= k < before.len() && before[k] == p[a];
                assert(out[k] == before[k]);
            } else {
                assert(out[out.len() - 1] == rs[a]);
            }
        }
    }
}

proof fn lemma_with_data_ordered(rs: Seq<ActiveRegion>)
    requires
        regions_ordered(rs),
    ensures
        regions_ordered(regions_with_data(rs)),
    decreases rs.len(),
{
    if rs.len() > 0 {
        let n = rs.len() as int;
        let p = rs.drop_last();
        assert(regions_ordered(p)) by {
            assert forall|i: int, j: int| 0 <= i < j < p.len() implies #[trigger] p[i].end_tick
                < #[trigger] p[j].start_tick by {
                assert(p[i] == rs[i]);
                assert(p[j] == rs[j]);
            }
        }
        lemma_with_data_ordered(p);
        lemma_with_data_members(p);
        let before = regions_with_data(p);
        let out = regions_with_data(rs);
        if rs.last().start_idx is Some {
            assert(out == before.push(rs.last()));
            assert forall|i: int, j: int| 0 <= i < j < out.len() implies #[trigger] out[i].end_tick
                < #[trigger] out[j].start_tick by {
                assert(out[i] == before[i]);
                if j < before.len() {
                    assert(out[j] == before[j]);
                } else {
                    let a = choose|a: int| 0 <= a < p.len() && p[a] == before[i];
                    assert(p[a] == rs[a]);
                    assert(out[j] == rs[n - 1]);
                }
            }
        } else {
            assert(out == before);
        }
    }
}

proof fn lemma_resolved_all(regions: Seq<ActiveRegion>, data: Seq<TickData>)
    requires
        ticks_increasing(data),
        data.len() <= usize::MAX,
        regions_ordered(regions),
    ensures
        regions_ordered(resolved_all(regions, data)),
        forall|a: int|
            0 <= a < regions.len() ==> #[trigger] resolved_all(regions, data)[a] == resolved(regions[a], data),
{
    let rr = resolved_all(regions, data);
    assert forall|i: int, j: int| 0 <= i < j < rr.len() implies #[trigger] rr[i].end_tick
        < #[trigger] rr[j].start_tick by {
        assert(regions[i].end_tick < regions[j].start_tick);
    }
}

proof fn lemma_out_range(regions: Seq<ActiveRegion>, data: Seq<TickData>, k: int)
    requires
        ticks_increasing(data),
        data.len() <= usize::MAX,
        0 <= k < regions_with_data(resolved_all(regions, data)).len(),
    ensures
        ({
            let r = regions_with_data(resolved_all(regions, data))[k];
            &&& r.start_idx matches Some(s)
            &&& r.end_idx matches Some(e)
            &&& s < e <= data.len()
        }),
{
    let rr = resolved_all(regions, data);
    let out = regions_with_data(rr);
    lemma_with_data_members(rr);
    let a = choose|a: int| 0 <= a < rr.len() && rr[a] == out[k];
    assert(rr[a] == resolved(regions[a], data));
    lemma_resolved(data, regions[a]);
}

proof fn lemma_out_index_means_tick(regions: Seq<ActiveRegion>, data: Seq<TickData>, k: int, i: int)
    requires
        ticks_increasing(data),
        data.len() <= usize::MAX,
        0 <= k < regions_with_data(resolved_all(regions, data)).len(),
        0 <= i < data.len(),
        index_in(regions_with_data(resolved_all(regions, data))[k], i),
    ensures
        tick_in_region(data[i].tick, regions_with_data(resolved_all(regions, data))[k]),
{
    let rr = resolved_all(regions, data);
    let out = regions_with_data(rr);
    lemma_with_data_members(rr);
    let a = choose|a: int| 0 <= a < rr.len() && rr[a] == out[k];
    assert(rr[a] == resolved(regions[a], data));
    lemma_resolved(data, regions[a]);
}

proof fn lemma_out_covers(regions: Seq<ActiveRegion>, data: Seq<TickData>, i: int)
    requires
        ticks_increasing(data),
        data.len() <= usize::MAX,
        covers_data(regions, data),
        0 <= i < data.len(),
    ensures
        index_covered(regions_with_data(resolved_all(regions, data)), i),
{
    let rr = resolved_all(regions, data);
    let out = regions_with_data(rr);
    assert(tick_covered(regions, data[i].tick));
    let a = choose|a: int| 0 <= a < regions.len() && tick_in_region(data[i].tick, #[trigger] regions[a]);
    lemma_resolved(data, regions[a]);
    assert(rr[a] == resolved(regions[a], data));
    assert(index_in(rr[a], i));
    lemma_with_data_complete(rr);
    let k = choose|k: int| 0 <= k < out.len() && out[k] == rr[a];
    assert(index_in(out[k], i));
}

/// Resolving regions that keep strictly increasing data covered, in order,
/// and then dropping the regions without data, yields regions whose index
/// ranges partition the data: each tick belongs to exactly one region.
pub proof fn resolved_regions_partition_data(regions: Seq<ActiveRegion>, data: Seq<TickData>)
    requires
        ticks_increasing(data),
        data.len() <= usize::MAX,
        regions_ordered(regions),
        covers_data(regions, data),
    ensures
        partitions_indices(regions_with_data(resolved_all(regions, data)), data.len() as int),
{
    let rr = resolved_all(regions, data);
    lemma_resolved_all(regions, data);
    lemma_with_data_ordered(rr);
    let out = regions_with_data(rr);
    assert forall|k: int| 0 <= k < out.len() implies {
        &&& (#[trigger] out[k]).start_idx matches Some(s)
        &&& out[k].end_idx matches Some(e)
        &&& s < e <= data.len()
    } by {
        lemma_out_range(regions, data, k);
    }
    assert forall|i: int| 0 <= i < data.len() implies #[trigger] index_covered(out, i) by {
        lemma_out_covers(regions, data, i);
    }
    assert forall|i: int, k1: int, k2: int|
        0 <= i < data.len() && 0 <= k1 < out.len() && 0 <= k2 < out.len() && #[trigger] index_in(out[k1], i)
            && #[trigger] index_in(out[k2], i) implies k1 == k2 by {
        lemma_out_index_means_tick(regions, data, k1, i);
        lemma_out_index_means_tick(regions, data, k2, i);
        if k1 < k2 {
            assert(out[k1].end_tick < out[k2].start_tick);
        } else if k2 < k1 {
            assert(out[k2].end_tick < out[k1].start_tick);
        }
    }
}

proof fn lemma_without_afk_keeps_first(data: Seq<TickData>, afk_ticks: nat, k: int)
    requires
        1 <= k <= data.len(),
    ensures
        1 <= without_afk(data, afk_ticks, k).len() <= k,
    decreases k,
{
    if k > 1 {
        lemma_without_afk_keeps_first(data, afk_ticks, k - 1);
    } else {
        assert(same_run(data, 0) == 0);
        assert(without_afk(data, afk_ticks, 0).len() == 0);
    }
}

/// A recorded player whose data ticks strictly increase and whose
/// completed regions are ordered and cover every recorded tick ends up
/// with regions whose index ranges partition its final data: after gap
/// splitting, AFK removal and index resolution, each remaining tick
/// belongs to exactly one region.
pub proof fn cleaned_regions_partition_data(
    regions: Seq<ActiveRegion>,
    data: Seq<TickData>,
    afk_ticks: Option<usize>,
)
    requires
        ticks_increasing(data),
        0 < data.len() <= usize::MAX,
        regions_ordered(regions),
        covers_data(regions, data),
    ensures
        afk_removed(data, afk_ticks).len() > 0,
        partitions_indices(
            cleaned_regions(regions, data, afk_ticks),
            afk_removed(data, afk_ticks).len() as int,
        ),
{
    let r1 = split_on_gaps(regions, data, RegionEndReason::Spectate);
    split_keeps_ticks_covered(regions, data, RegionEndReason::Spectate);
    let kept = afk_removed(data, afk_ticks);
    match afk_ticks {
        Some(t) => {
            afk_removal_keeps_ticks_covered(r1, data, t as nat);
            lemma_without_afk_keeps_first(data, t as nat, data.len() as int);
            lemma_without_afk(data, t as nat, data.len() as int);
            let r2 = split_on_gaps(r1, kept, RegionEndReason::Afk);
            split_keeps_ticks_covered(r1, kept, RegionEndReason::Afk);
            resolved_regions_partition_data(r2, kept);
        },
        None => {
            resolved_regions_partition_data(r1, data);
        },
    }
}

/// Every region has a resolved, non-empty index range within `a..n`, and
/// every index `a <= i < n` lies in exactly one region's range.
pub open spec fn partitions_range(rs: Seq<ActiveRegion>, a: int, n: int) -> bool {
    &&& forall|k: int|
        0 <= k < rs.len() ==> {
            &&& (#[trigger] rs[k]).start_idx matches Some(s)
            &&& rs[k].end_idx matches Some(e)
            &&& a <= s < e <= n
        }
    &&& forall|i: int| a <= i < n ==> #[trigger] index_covered(rs, i)
    &&& forall|i: int, k1: int, k2: int|
        a <= i < n && 0 <= k1 < rs.len() && 0 <= k2 < rs.len() && #[trigger] index_in(rs[k1], i)
            && #[trigger] index_in(rs[k2], i) ==> k1 == k2
}

proof fn lemma_tick_runs_partition(data: Seq<TickData>, start: int, i: int)
    requires
        0 <= start <= i < data.len(),
        data.len() <= usize::MAX,
    ensures
        partitions_range(tick_runs_from(data, start, i), start, data.len() as int),
    decreases data.len() - i,
{
    let n = data.len() as int;
    let rs = tick_runs_from(data, start, i);
    if i + 1 >= n {
        assert(rs =~= seq![crate::sequence::index_run(data, start, n - 1)]);
        assert forall|x: int| start <= x < n implies #[trigger] index_covered(rs, x) by {
            assert(index_in(rs[0], x));
        }
    } else if is_gap_at(data, i) {
        let first = crate::sequence::index_run(data, start, i);
        let rest = tick_runs_from(data, i + 1, i + 1);
        lemma_tick_runs_partition(data, i + 1, i + 1);
        assert(rs == seq![first] + rest);
        assert forall|k: int| 0 <= k < rs.len() implies {
            &&& (#[trigger] rs[k]).start_idx matches Some(s)
            &&& rs[k].end_idx matches Some(e)
            &&& start <= s < e <= n
        } by {
            if k > 0 {
                assert(rs[k] == rest[k - 1]);
            }
        }
        assert forall|x: int| start <= x < n implies #[trigger] index_covered(rs, x) by {
            if x <= i {
                assert(index_in(rs[0], x));
            } else {
                assert(index_covered(rest, x));
                let q = choose|q: int| 0 <= q < rest.len() && index_in(#[trigger] rest[q], x);
                assert(rs[q + 1] == rest[q]);
            }
        }
        assert forall|x: int, k1: int, k2: int|
            start <= x < n && 0 <= k1 < rs.len() && 0 <= k2 < rs.len() && #[trigger] index_in(rs[k1], x)
                && #[trigger] index_in(rs[k2], x) implies k1 == k2 by {
            if k1 > 0 {
                assert(rs[k1] == rest[k1 - 1]);
            }
            if k2 > 0 {
                assert(rs[k2] == rest[k2 - 1]);
            }
            if k1 > 0 && k2 > 0 {
                assert(index_in(rest[k1 - 1], x) && index_in(rest[k2 - 1], x));
            }
        }
    } else {
        lemma_tick_runs_partition(data, start, i + 1);
    }
}

/// The regions computed from the runs of consecutive ticks partition the
/// data: each tick belongs to exactly one region.
pub proof fn active_regions_partition_data(data: Seq<TickData>)
    requires
        data.len() <= usize::MAX,
    ensures
        partitions_indices(tick_runs_from(data, 0, 0), data.len() as int),
{
    if data.len() > 0 {
        lemma_tick_runs_partition(data, 0, 0);
    } else {
        assert(tick_runs_from(data, 0, 0).len() == 0);
    }
}

/// No gap of `gs` starts inside the region.
pub open spec fn gap_free(gs: Seq<(i64, i64)>, r: ActiveRegion) -> bool {
    forall|i: int| 0 <= i < gs.len() ==> !gap_starts_in(#[trigger] gs[i], r)
}

proof fn lemma_gap_free_none_in_region(gs: Seq<(i64, i64)>, r: ActiveRegion)
    requires
        gap_free(gs, r),
    ensures
        gaps_in_region(gs, r).len() == 0,
    decreases gs.len(),
{
    if gs.len() > 0 {
        let p = gs.drop_last();
        assert forall|i: int| 0 <= i < p.len() implies !gap_starts_in(#[trigger] p[i], r) by {
            assert(p[i] == gs[i]);
        }
        lemma_gap_free_none_in_region(p, r);
        assert(!gap_starts_in(gs[gs.len() - 1], r));
    }
}

proof fn lemma_gaps_in_region_complete(gs: Seq<(i64, i64)>, r: ActiveRegion)
    ensures
        forall|i: int|
            0 <= i < gs.len() && gap_starts_in(#[trigger] gs[i], r) ==> exists|j: int|
                0 <= j < gaps_in_region(gs, r).len() && gaps_in_region(gs, r)[j] == gs[i],
    decreases gs.len(),
{
    if gs.len() > 0 {
        let p = gs.drop_last();
        lemma_gaps_in_region_complete(p, r);
        let before = gaps_in_region(p, r);
        let res = gaps_in_region(gs, r);
        assert forall|i: int| 0 <= i < gs.len() && gap_starts_in(#[trigger] gs[i], r) implies exists|j: int|
            0 <= j < res.len() && res[j] == gs[i] by {
            if i < gs.len() - 1 {
                assert(p[i] == gs[i]);
                let j = choose|j: int| 0 <= j < before.len() && before[j] == p[i];
                if gap_starts_in(gs.last(), r) {
                    assert(res[j] == before[j]);
                }
            } else {
                assert(res[res.len() - 1] == gs[i]);
            }
        }
    }
}

/// Every gap of `gs` that starts in `cur..r.end_tick` is one of `rg`.
pub open spec fn gaps_listed_from(gs: Seq<(i64, i64)>, rg: Seq<(i64, i64)>, r: ActiveRegion, cur: i64) -> bool {
    forall|i: int|
        0 <= i < gs.len() && cur <= (#[trigger] gs[i]).0 < r.end_tick ==> exists|j: int|
            0 <= j < rg.len() && rg[j] == gs[i]
}

proof fn lemma_pieces_gap_free(
    gs: Seq<(i64, i64)>,
    r: ActiveRegion,
    rg: Seq<(i64, i64)>,
    reason: RegionEndReason,
    cur: i64,
)
    requires
        cut_ready(r, rg, cur),
        gaps_listed_from(gs, rg, r, cur),
    ensures
        forall|k: int|
            0 <= k < split_pieces(r, rg, reason, cur).len() ==> gap_free(
                gs,
                #[trigger] split_pieces(r, rg, reason, cur)[k],
            ),
    decreases rg.len(),
{
    let ps = split_pieces(r, rg, reason, cur);
    if rg.len() == 0 {
        assert forall|k: int| 0 <= k < ps.len() implies gap_free(gs, #[trigger] ps[k]) by {
            assert forall|i: int| 0 <= i < gs.len() implies !gap_starts_in(#[trigger] gs[i], ps[k]) by {
                if gap_starts_in(gs[i], ps[k]) {
                    let j = choose|j: int| 0 <= j < rg.len() && rg[j] == gs[i];
                }
            }
        }
    } else {
        lemma_cut_rest(r, rg, cur);
        let rest_g = rg.drop_first();
        let rest = split_pieces(r, rest_g, reason, rg[0].1);
        assert(gaps_listed_from(gs, rest_g, r, rg[0].1)) by {
            assert forall|i: int| 0 <= i < gs.len() && rg[0].1 <= (#[trigger] gs[i]).0 < r.end_tick implies exists|j: int|
                0 <= j < rest_g.len() && rest_g[j] == gs[i] by {
                let j = choose|j: int| 0 <= j < rg.len() && rg[j] == gs[i];
                assert(j != 0);
                assert(rest_g[j - 1] == rg[j]);
            }
        }
        lemma_pieces_gap_free(gs, r, rest_g, reason, rg[0].1);
        let first = region(cur, rg[0].0, r.team, r.practice, reason);
        assert(ps == seq![first] + rest);
        assert(gap_starts_in(rg[0], r));
        assert forall|k: int| 0 <= k < ps.len() implies gap_free(gs, #[trigger] ps[k]) by {
            if k > 0 {
                assert(ps[k] == rest[k - 1]);
            } else {
                assert forall|i: int| 0 <= i < gs.len() implies !gap_starts_in(#[trigger] gs[i], ps[0]) by {
                    if gap_starts_in(gs[i], ps[0]) {
                        let j = choose|j: int| 0 <= j < rg.len() && rg[j] == gs[i];
                        if j > 0 {
                            assert(rg[0].1 <= rg[j].0);
                        }
                    }
                }
            }
        }
    }
}

proof fn lemma_split_region_gap_free(
    data: Seq<TickData>,
    gs: Seq<(i64, i64)>,
    r: ActiveRegion,
    reason: RegionEndReason,
)
    requires
        gaps_sound(data, gs),
        gaps_ordered(gs),
    ensures
        forall|k: int| 0 <= k < split_region(r, gs, reason).len() ==> gap_free(gs, #[trigger] split_region(r, gs, reason)[k]),
{
    let rg = gaps_in_region(gs, r);
    lemma_gaps_in_region(data, gs, r);
    lemma_gaps_in_region_complete(gs, r);
    let sr = split_region(r, gs, reason);
    if rg.len() == 0 {
        assert(sr == seq![r]);
        assert forall|i: int| 0 <= i < gs.len() implies !gap_starts_in(#[trigger] gs[i], r) by {
            if gap_starts_in(gs[i], r) {
                let j = choose|j: int| 0 <= j < rg.len() && rg[j] == gs[i];
            }
        }
    } else {
        assert(gap_starts_in(rg[0], r));
        assert(cut_ready(r, rg, r.start_tick));
        assert(gaps_listed_from(gs, rg, r, r.start_tick));
        lemma_pieces_gap_free(gs, r, rg, reason, r.start_tick);
    }
}

proof fn lemma_split_all_gap_free(
    data: Seq<TickData>,
    gs: Seq<(i64, i64)>,
    rs: Seq<ActiveRegion>,
    reason: RegionEndReason,
)
    requires
        gaps_sound(data, gs),
        gaps_ordered(gs),
    ensures
        forall|k: int| 0 <= k < split_all(rs, gs, reason).len() ==> gap_free(gs, #[trigger] split_all(rs, gs, reason)[k]),
    decreases rs.len(),
{
    if rs.len() > 0 {
        lemma_split_all_gap_free(data, gs, rs.drop_last(), reason);
        lemma_split_region_gap_free(data, gs, rs.last(), reason);
        let a = split_all(rs.drop_last(), gs, reason);
        let b = split_region(rs.last(), gs, reason);
        let out = split_all(rs, gs, reason);
        assert(out == a + b);
        assert forall|k: int| 0 <= k < out.len() implies gap_free(gs, #[trigger] out[k]) by {
            if k < a.len() {
                assert(out[k] == a[k]);
            } else {
                assert(out[k] == b[k - a.len()]);
            }
        }
    }
}

proof fn lemma_split_all_fixed(gs: Seq<(i64, i64)>, rs: Seq<ActiveRegion>, reason: RegionEndReason)
    requires
        forall|k: int| 0 <= k < rs.len() ==> gap_free(gs, #[trigger] rs[k]),
    ensures
        split_all(rs, gs, reason) == rs,
    decreases rs.len(),
{
    if rs.len() > 0 {
        let p = rs.drop_last();
        assert forall|k: int| 0 <= k < p.len() implies gap_free(gs, #[trigger] p[k]) by {
            assert(p[k] == rs[k]);
        }
        lemma_split_all_fixed(gs, p, reason);
        lemma_gap_free_none_in_region(gs, rs.last());
        assert(split_region(rs.last(), gs, reason) == seq![rs.last()]);
        assert(p + seq![rs.last()] =~= rs);
    }
}

/// Splitting regions again on the gaps of the same strictly increasing data
/// changes nothing: after one split no gap starts inside any region.
pub proof fn splitting_again_changes_nothing(
    regions: Seq<ActiveRegion>,
    data: Seq<TickData>,
    first: RegionEndReason,
    second: RegionEndReason,
)
    requires
        ticks_increasing(data),
    ensures
        split_on_gaps(split_on_gaps(regions, data, first), data, second) == split_on_gaps(regions, data, first),
{
    let gs = tick_gaps(data);
    if gs.len() > 0 {
        lemma_tick_gaps_facts(data);
        lemma_split_all_gap_free(data, gs, regions, first);
        lemma_split_all_fixed(gs, split_all(regions, gs, first), second);
    }
}

/// The longest run of equal moves that AFK removal with `afk_ticks` keeps.
pub open spec fn kept_run(afk_ticks: nat) -> int {
    if afk_ticks >= 1 {
        afk_ticks as int
    } else {
        1
    }
}

proof fn lemma_same_run_push(s: Seq<TickData>, e: TickData, x: int)
    requires
        0 <= x < s.len(),
    ensures
        same_run(s.push(e), x) == same_run(s, x),
    decreases x,
{
    if x > 0 {
        assert(s.push(e)[x] == s[x]);
        assert(s.push(e)[x - 1] == s[x - 1]);
        lemma_same_run_push(s, e, x - 1);
    }
}

proof fn lemma_afk_prefix(data: Seq<TickData>, t: nat, k: int)
    requires
        1 <= k <= data.len(),
    ensures
        ({
            let r = without_afk(data, t, k);
            let sr = same_run(data, k - 1);
            &&& r.len() >= 1
            &&& same_run(r, r.len() - 1) == if sr < kept_run(t) - 1 {
                sr as int
            } else {
                kept_run(t) - 1
            }
            &&& (r.last() == data[k - 1] || f32_equal(r.last().move_dir, data[k - 1].move_dir))
            &&& forall|x: int| 0 <= x < r.len() ==> !#[trigger] is_afk_at(r, t, x)
        }),
    decreases k,
{
    let r = without_afk(data, t, k);
    if k == 1 {
        assert(same_run(data, 0) == 0);
        assert(without_afk(data, t, 0).len() == 0);
        assert(r =~= seq![data[0]]);
        assert(same_run(r, 0) == 0);
    } else {
        lemma_afk_prefix(data, t, k - 1);
        let p = without_afk(data, t, k - 1);
        let l = p.last();
        let d = data[k - 2];
        let e = data[k - 1];
        let sp = same_run(data, k - 2);
        assert(same_run(data, k - 1) == if f32_equal(e.move_dir, d.move_dir) {
            sp + 1
        } else {
            0
        });
        if is_afk_at(data, t, k - 1) {
            assert(r == p);
            assert(f32_equal(e.move_dir, d.move_dir));
            assert(f32_equal(l.move_dir, e.move_dir));
        } else {
            assert(r == p.push(e));
            assert(r[r.len() - 2] == l);
            assert(r.last() == e);
            assert(f32_equal(e.move_dir, l.move_dir) == f32_equal(e.move_dir, d.move_dir));
            lemma_same_run_push(p, e, p.len() - 1);
            assert(same_run(r, r.len() - 1) == if f32_equal(e.move_dir, l.move_dir) {
                same_run(p, p.len() - 1) + 1
            } else {
                0
            });
            assert forall|x: int| 0 <= x < r.len() implies !#[trigger] is_afk_at(r, t, x) by {
                if x < p.len() {
                    lemma_same_run_push(p, e, x);
                    assert(!is_afk_at(p, t, x));
                }
            }
        }
    }
}

proof fn lemma_without_afk_unchanged(s: Seq<TickData>, t: nat, j: int)
    requires
        0 <= j <= s.len(),
        forall|x: int| 0 <= x < s.len() ==> !#[trigger] is_afk_at(s, t, x),
    ensures
        without_afk(s, t, j) == s.take(j),
    decreases j,
{
    if j > 0 {
        lemma_without_afk_unchanged(s, t, j - 1);
        assert(!is_afk_at(s, t, j - 1));
        assert(s.take(j - 1).push(s[j - 1]) =~= s.take(j));
    } else {
        assert(s.take(0) =~= Seq::<TickData>::empty());
    }
}

/// Removing AFK ticks a second time with the same threshold changes
/// nothing: after one removal no run of equal moves is long enough to be AFK.
pub proof fn afk_removal_is_idempotent(data: Seq<TickData>, afk_ticks: nat)
    ensures
        ({
            let once = without_afk(data, afk_ticks, data.len() as int);
            without_afk(once, afk_ticks, once.len() as int) == once
        }),
{
    let once = without_afk(data, afk_ticks, data.len() as int);
    if data.len() > 0 {
        lemma_afk_prefix(data, afk_ticks, data.len() as int);
        lemma_without_afk_unchanged(once, afk_ticks, once.len() as int);
        assert(once.take(once.len() as int) =~= once);
    } else {
        assert(once.len() == 0);
    }
}

/// The piece keeps the region's team and practice flag; a piece that ends
/// where the region ends keeps the region's reason, and one cut off before
/// the region's end ends for the splitting reason.
pub open spec fn piece_of(p: ActiveRegion, r: ActiveRegion, reason: RegionEndReason) -> bool {
    &&& p.team == r.team
    &&& p.practice == r.practice
    &&& p.end_reason == if p.end_tick == r.end_tick {
        r.end_reason
    } else {
        reason
    }
}

proof fn lemma_gaps_in_region_start_in(gaps: Seq<(i64, i64)>, r: ActiveRegion)
    ensures
        forall|j: int| 0 <= j < gaps_in_region(gaps, r).len() ==> gap_starts_in(#[trigger] gaps_in_region(gaps, r)[j], r),
    decreases gaps.len(),
{
    if gaps.len() > 0 {
        lemma_gaps_in_region_start_in(gaps.drop_last(), r);
        let before = gaps_in_region(gaps.drop_last(), r);
        let res = gaps_in_region(gaps, r);
        assert forall|j: int| 0 <= j < res.len() implies gap_starts_in(#[trigger] res[j], r) by {
            if j < before.len() {
                assert(res[j] == before[j]);
            }
        }
    }
}

proof fn lemma_pieces_keep(r: ActiveRegion, rg: Seq<(i64, i64)>, reason: RegionEndReason, cur: i64)
    requires
        forall|j: int| 0 <= j < rg.len() ==> gap_starts_in(#[trigger] rg[j], r),
    ensures
        forall|k: int|
            0 <= k < split_pieces(r, rg, reason, cur).len() ==> piece_of(
                #[trigger] split_pieces(r, rg, reason, cur)[k],
                r,
                reason,
            ),
    decreases rg.len(),
{
    let ps = split_pieces(r, rg, reason, cur);
    if rg.len() > 0 {
        let rest = split_pieces(r, rg.drop_first(), reason, rg[0].1);
        assert forall|j: int| 0 <= j < rg.drop_first().len() implies gap_starts_in(#[trigger] rg.drop_first()[j], r) by {
            assert(rg.drop_first()[j] == rg[j + 1]);
        }
        lemma_pieces_keep(r, rg.drop_first(), reason, rg[0].1);
        assert(gap_starts_in(rg[0], r));
        assert forall|k: int| 0 <= k < ps.len() implies piece_of(#[trigger] ps[k], r, reason) by {
            if k > 0 {
                assert(ps[k] == rest[k - 1]);
            }
        }
    }
}

/// Splitting a region on gaps keeps its team and practice flag in every
/// piece; the piece that ends where the region ends keeps the region's
/// reason, and the pieces cut off at a gap end for the splitting reason.
pub proof fn split_region_keeps_team_and_practice(r: ActiveRegion, gaps: Seq<(i64, i64)>, reason: RegionEndReason)
    ensures
        forall|k: int|
            0 <= k < split_region(r, gaps, reason).len() ==> piece_of(
                #[trigger] split_region(r, gaps, reason)[k],
                r,
                reason,
            ),
{
    if gaps_in_region(gaps, r).len() > 0 {
        lemma_gaps_in_region_start_in(gaps, r);
        lemma_pieces_keep(r, gaps_in_region(gaps, r), reason, r.start_tick);
    }
}

/// The region lies inside one of the regions and is a piece of it.
pub open spec fn piece_of_some(p: ActiveRegion, rs: Seq<ActiveRegion>, reason: RegionEndReason) -> bool {
    exists|i: int| 0 <= i < rs.len() && within(p, #[trigger] rs[i]) && piece_of(p, rs[i], reason)
}

proof fn lemma_split_all_keeps(
    data: Seq<TickData>,
    gaps: Seq<(i64, i64)>,
    rs: Seq<ActiveRegion>,
    reason: RegionEndReason,
)
    requires
        gaps_sound(data, gaps),
        gaps_ordered(gaps),
    ensures
        forall|k: int|
            0 <= k < split_all(rs, gaps, reason).len() ==> piece_of_some(
                #[trigger] split_all(rs, gaps, reason)[k],
                rs,
                reason,
            ),
    decreases rs.len(),
{
    if rs.len() > 0 {
        let p = rs.drop_last();
        let last = rs.last();
        lemma_split_all_keeps(data, gaps, p, reason);
        lemma_split_region(data, gaps, last, reason);
        split_region_keeps_team_and_practice(last, gaps, reason);
        let a = split_all(p, gaps, reason);
        let b = split_region(last, gaps, reason);
        let out = split_all(rs, gaps, reason);
        assert(out == a + b);
        assert forall|k: int| 0 <= k < out.len() implies piece_of_some(#[trigger] out[k], rs, reason) by {
            if k < a.len() {
                assert(out[k] == a[k]);
                assert(piece_of_some(a[k], p, reason));
                let i = choose|i: int| 0 <= i < p.len() && within(a[k], #[trigger] p[i]) && piece_of(a[k], p[i], reason);
                assert(p[i] == rs[i]);
            } else {
                assert(out[k] == b[k - a.len()]);
                assert(rs[rs.len() - 1] == last);
                assert(within(out[k], rs[rs.len() - 1]));
            }
        }
    }
}

/// Splitting regions on the gaps of strictly increasing data gives regions
/// that each lie inside one of the original regions and keep its team and
/// practice flag, ending for its reason where it ends and for the
/// splitting reason where cut off at a gap.
pub proof fn split_keeps_team_and_practice(regions: Seq<ActiveRegion>, data: Seq<TickData>, reason: RegionEndReason)
    requires
        ticks_increasing(data),
    ensures
        forall|k: int|
            0 <= k < split_on_gaps(regions, data, reason).len() ==> piece_of_some(
                #[trigger] split_on_gaps(regions, data, reason)[k],
                regions,
                reason,
            ),
{
    let gs = tick_gaps(data);
    let out = split_on_gaps(regions, data, reason);
    if gs.len() > 0 {
        lemma_tick_gaps_facts(data);
        lemma_split_all_keeps(data, gs, regions, reason);
    } else {
        assert forall|k: int| 0 <= k < out.len() implies piece_of_some(#[trigger] out[k], regions, reason) by {
            assert(out[k] == regions[k]);
            assert(within(out[k], regions[k]));
        }
    }
}

} // verus!
