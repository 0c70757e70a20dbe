//! Laws about the players' region bookkeeping: what becoming ready,
//! recording a tick and closing a region keep, the invariant of the replay
//! state that every replay event keeps (`world_keeps_up`), and how that
//! makes every exported tick belong to exactly one region.
use vstd::prelude::*;
use crate::coverage::{
    cleaned_regions_partition_data, covers_data, index_in, partitions_indices, regions_ordered,
    tick_covered, ticks_increasing,
};
use crate::export::{region_holds_index, region_of_tick};
use crate::extractor::{afk_removed, cleaned_regions};
use crate::sequence::{tick_in_region, ActiveRegion, RegionEndReason, TickData};
use crate::world::{closing_region, region_closed, updated_at, TrackedPlayer, World};

verus! {

/// The player's regions keep up with its data: recorded ticks strictly
/// increase, completed regions are in tick order and end before the open
/// region starts, and every recorded tick lies in a completed region or in
/// the open one.
pub open spec fn regions_keep_up(p: TrackedPlayer) -> bool {
    &&& ticks_increasing(p.data@)
    &&& regions_ordered(p.completed_regions@)
    &&& forall|k: int|
        0 <= k < p.completed_regions@.len() ==> #[trigger] p.completed_regions@[k].end_tick
            < p.current_region_start
    &&& forall|i: int|
        0 <= i < p.data@.len() ==> tick_covered(p.completed_regions@, #[trigger] p.data@[i].tick)
            || p.data@[i].tick >= p.current_region_start
}

/// Every recorded tick of the player lies before `tick`.
pub open spec fn data_before(p: TrackedPlayer, tick: int) -> bool {
    forall|i: int| 0 <= i < p.data@.len() ==> #[trigger] p.data@[i].tick < tick
}

/// A player that just became ready keeps up: it has no data and no
/// completed region.
pub proof fn fresh_player_keeps_up(p: TrackedPlayer, player_id: u32, start_tick: i64)
    requires
        p.is_fresh(player_id, start_tick),
    ensures
        regions_keep_up(p),
{
}

/// Recording a tick that comes after every recorded tick and not before the
/// open region's start keeps the player's regions up with its data.
pub proof fn recording_tick_keeps_up(before: TrackedPlayer, after: TrackedPlayer, tick_data: TickData)
    requires
        regions_keep_up(before),
        after.data@ == before.data@.push(tick_data),
        after.completed_regions@ == before.completed_regions@,
        after.current_region_start == before.current_region_start,
        tick_data.tick >= before.current_region_start,
        data_before(before, tick_data.tick as int),
    ensures
        regions_keep_up(after),
{
    let d = after.data@;
    assert forall|i: int, j: int| 0 <= i < j < d.len() implies #[trigger] d[i].tick < #[trigger] d[j].tick by {
        assert(d[i] == before.data@[i]);
        if j < before.data@.len() {
            assert(d[j] == before.data@[j]);
        }
    }
    assert forall|i: int| 0 <= i < d.len() implies tick_covered(after.completed_regions@, #[trigger] d[i].tick)
        || d[i].tick >= after.current_region_start by {
        if i < before.data@.len() {
            assert(d[i] == before.data@[i]);
        }
    }
}

/// Closing the open region at a tick not before the open region started
/// keeps the player's regions up with its data; when the tick comes after
/// every recorded tick, every recorded tick is left inside a completed region.
pub proof fn closing_region_keeps_up(
    before: TrackedPlayer,
    after: TrackedPlayer,
    end_tick: i64,
    reason: RegionEndReason,
)
    requires
        regions_keep_up(before),
        region_closed(before, after, end_tick, reason),
        before.current_region_start <= end_tick,
    ensures
        regions_keep_up(after),
        data_before(before, end_tick as int) ==> covers_data(after.completed_regions@, after.data@),
{
    let old_rs = before.completed_regions@;
    let rs = after.completed_regions@;
    let added = closing_region(before, end_tick, reason);
    assert(rs == old_rs + added);
    assert forall|k: int| 0 <= k < rs.len() implies #[trigger] rs[k].end_tick < after.current_region_start by {
        if k < old_rs.len() {
            assert(rs[k] == old_rs[k]);
        } else {
            assert(rs[k] == added[k - old_rs.len()]);
        }
    }
    assert forall|i: int, j: int| 0 <= i < j < rs.len() implies #[trigger] rs[i].end_tick
        < #[trigger] rs[j].start_tick by {
        assert(rs[i] == old_rs[i]);
        if j < old_rs.len() {
            assert(rs[j] == old_rs[j]);
        } else {
            assert(rs[j] == added[j - old_rs.len()]);
        }
    }
    assert forall|i: int| 0 <= i < after.data@.len() implies tick_covered(rs, #[trigger] after.data@[i].tick)
        || after.data@[i].tick >= after.current_region_start by {
        let t = before.data@[i].tick;
        if tick_covered(old_rs, t) {
            let k = choose|k: int| 0 <= k < old_rs.len() && tick_in_region(t, #[trigger] old_rs[k]);
            assert(rs[k] == old_rs[k]);
        } else if t < end_tick {
            assert(added.len() == 1);
            assert(rs[old_rs.len() as int] == added[0]);
        }
    }
}

/// A player whose regions keep up with its non-empty data, and whose open
/// region is then closed after every recorded tick and not before the open
/// region started (when it leaves or the replay ends), ends up with cleaned
/// regions that partition its final data: each exported tick belongs to
/// exactly one region.
pub proof fn closed_player_ticks_partitioned(
    before: TrackedPlayer,
    after: TrackedPlayer,
    end_tick: i64,
    reason: RegionEndReason,
    afk_ticks: Option<usize>,
)
    requires
        regions_keep_up(before),
        region_closed(before, after, end_tick, reason),
        before.current_region_start <= end_tick,
        data_before(before, end_tick as int),
        0 < before.data@.len() <= usize::MAX,
    ensures
        afk_removed(after.data@, afk_ticks).len() > 0,
        partitions_indices(
            cleaned_regions(after.completed_regions@, after.data@, afk_ticks),
            afk_removed(after.data@, afk_ticks).len() as int,
        ),
{
    closing_region_keeps_up(before, after, end_tick, reason);
    cleaned_regions_partition_data(after.completed_regions@, after.data@, afk_ticks);
}

/// When region index ranges partition the ticks of a sequence, the region
/// columns name, at every tick, the one region whose index range holds it.
pub proof fn partitioned_columns_name_owning_region(rs: Seq<ActiveRegion>, n: int, i: int, k: int)
    requires
        partitions_indices(rs, n),
        0 <= i < n,
        0 <= k < rs.len(),
        index_in(rs[k], i),
    ensures
        region_of_tick(rs, n, i, rs.len() as int) == Some(k),
{
    lemma_region_of_tick_unique(rs, n, i, k, rs.len() as int);
}

proof fn lemma_region_of_tick_unique(rs: Seq<ActiveRegion>, n: int, i: int, k: int, upto: int)
    requires
        partitions_indices(rs, n),
        0 <= i < n,
        0 <= k < upto <= rs.len(),
        index_in(rs[k], i),
    ensures
        region_of_tick(rs, n, i, upto) == Some(k),
    decreases upto,
{
    if upto - 1 == k {
        assert(region_holds_index(rs[k], n, i));
    } else {
        if region_holds_index(rs[upto - 1], n, i) {
            assert(index_in(rs[upto - 1], i));
            assert(false);
        }
        lemma_region_of_tick_unique(rs, n, i, k, upto - 1);
    }
}

/// A player that left: its recorded ticks strictly increase and lie inside
/// its completed regions, which are in tick order.
pub open spec fn regions_cover_data(p: TrackedPlayer) -> bool {
    &&& ticks_increasing(p.data@)
    &&& regions_ordered(p.completed_regions@)
    &&& covers_data(p.completed_regions@, p.data@)
}

/// An active player at tick `now`: its regions keep up with its data, its
/// open region started no later than `now`, and it has no data after `now`.
pub open spec fn active_keeps_up(p: TrackedPlayer, now: int) -> bool {
    &&& regions_keep_up(p)
    &&& p.current_region_start <= now
    &&& data_before(p, now + 1)
}

/// Every active player keeps up at the current tick, and every player that
/// left has its recorded ticks inside its regions.
pub open spec fn world_keeps_up(w: World) -> bool {
    &&& forall|k: int|
        0 <= k < w.tracked_players@.len() ==> active_keeps_up(
            #[trigger] w.tracked_players@[k],
            w.current_tick as int,
        )
    &&& forall|k: int| 0 <= k < w.completed_players@.len() ==> regions_cover_data(#[trigger] w.completed_players@[k])
}

/// The active players changed at position `k` only, and the player there
/// (if any) still keeps up.
pub(crate) proof fn lemma_world_changed_at(before: World, after: World, k: int)
    requires
        world_keeps_up(before),
        after.current_tick == before.current_tick,
        after.completed_players@ == before.completed_players@,
        updated_at(before.tracked_players@, after.tracked_players@, k),
        0 <= k < before.tracked_players@.len() ==> active_keeps_up(
            after.tracked_players@[k],
            after.current_tick as int,
        ),
    ensures
        world_keeps_up(after),
{
    assert forall|j: int| 0 <= j < after.tracked_players@.len() implies active_keeps_up(
        #[trigger] after.tracked_players@[j],
        after.current_tick as int,
    ) by {
        if j != k {
            assert(after.tracked_players@[j] == before.tracked_players@[j]);
        }
    }
}

/// Closing an active player's open region at a tick between the region's
/// start and `now` keeps it up at `now`.
pub(crate) proof fn lemma_close_keeps_active(
    before: TrackedPlayer,
    after: TrackedPlayer,
    end_tick: i64,
    reason: RegionEndReason,
    now: int,
)
    requires
        active_keeps_up(before, now),
        region_closed(before, after, end_tick, reason),
        before.current_region_start <= end_tick <= now,
    ensures
        active_keeps_up(after, now),
{
    closing_region_keeps_up(before, after, end_tick, reason);
}

/// An active player that leaves at `now`, its open region closed after `now`,
/// has its recorded ticks inside its regions.
pub(crate) proof fn lemma_leave_covers(before: TrackedPlayer, after: TrackedPlayer, reason: RegionEndReason, now: int)
    requires
        active_keeps_up(before, now),
        region_closed(before, after, (now + 1) as i64, reason),
        now + 1 <= i64::MAX,
    ensures
        regions_cover_data(after),
{
    closing_region_keeps_up(before, after, (now + 1) as i64, reason);
}

/// No active player on team 0 (no team) has practice enabled.
pub open spec fn team_zero_idle(w: World) -> bool {
    forall|k: int|
        0 <= k < w.tracked_players@.len() ==> (#[trigger] w.tracked_players@[k]).current_team == 0
            ==> !w.tracked_players@[k].current_practice
}

/// The active players changed at position `k` only, and the player there
/// (if any) is not practicing on team 0.
pub(crate) proof fn lemma_idle_changed_at(before: World, after: World, k: int)
    requires
        team_zero_idle(before),
        updated_at(before.tracked_players@, after.tracked_players@, k),
        0 <= k < before.tracked_players@.len() ==> (after.tracked_players@[k].current_team == 0
            ==> !after.tracked_players@[k].current_practice),
    ensures
        team_zero_idle(after),
{
    assert forall|j: int| 0 <= j < after.tracked_players@.len() implies (#[trigger] after.tracked_players@[j]).current_team == 0
        ==> !after.tracked_players@[j].current_practice by {
        if j != k {
            assert(after.tracked_players@[j] == before.tracked_players@[j]);
        }
    }
}

/// Practice belongs to the team: closing a region records the team and
/// practice state the player had; afterwards the player keeps its team, and
/// keeps its practice state unless the region ended because it changed
/// team, left, or the recording ended, after which it does not practice.
pub proof fn closing_keeps_practice_within_team(
    before: TrackedPlayer,
    after: TrackedPlayer,
    end_tick: i64,
    reason: RegionEndReason,
)
    requires
        region_closed(before, after, end_tick, reason),
    ensures
        after.current_team == before.current_team,
        reason != RegionEndReason::TeamChange && reason != RegionEndReason::Leave && reason
            != RegionEndReason::ChangeMap ==> after.current_practice == before.current_practice,
        reason == RegionEndReason::TeamChange || reason == RegionEndReason::Leave || reason
            == RegionEndReason::ChangeMap ==> !after.current_practice,
        before.current_region_start < end_tick ==> {
            let r = after.completed_regions@.last();
            &&& after.completed_regions@.len() == before.completed_regions@.len() + 1
            &&& r.start_tick == before.current_region_start
            &&& r.end_tick == end_tick - 1
            &&& r.team == before.current_team
            &&& r.practice == before.current_practice
            &&& r.end_reason == reason
        },
        before.current_region_start >= end_tick ==> after.completed_regions@ == before.completed_regions@,
        after.current_region_start == end_tick,
{
}

} // verus!
