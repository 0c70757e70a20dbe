//! Player sequences, active regions, and the post-processing that turns a
//! recorded player into clean regions: gap detection, region splitting,
//! AFK removal and tick-to-index resolution.
use vstd::prelude::*;
use crate::float_bits::{f32_bits_equal, f32_equal};

verus! {

/// Reason why an active region ended.
#[derive(Debug, Clone, Copy, PartialEq, Eq, Structural)]
pub enum RegionEndReason {
    /// Player used /kill command
    Kill,
    /// Player changed team
    TeamChange,
    /// Tees were swapped between players
    SwapTees,
    /// Tick gap from spectating (detected post-hoc)
    Spectate,
    /// Tick gap from AFK removal (detected post-hoc)
    Afk,
    /// Player left the server
    Leave,
    /// Recording ended (map change or server shutdown)
    ChangeMap,
    /// Tick gap with unknown cause
    Unknown,
    /// Teleporter tile, practice `/r`, or sv_rescue
    Teleport,
    /// Large position jump with no known cause
    UnknownTeleport,
    /// Tee removed from world (death/kill tile)
    TeeDisappear,
}

impl RegionEndReason {
    /// The stored numeric value of each reason.
    pub open spec fn code(self) -> u8 {
        match self {
            RegionEndReason::Kill => 0,
            RegionEndReason::TeamChange => 1,
            RegionEndReason::SwapTees => 2,
            RegionEndReason::Spectate => 3,
            RegionEndReason::Afk => 4,
            RegionEndReason::Leave => 5,
            RegionEndReason::ChangeMap => 6,
            RegionEndReason::Unknown => 7,
            RegionEndReason::Teleport => 8,
            RegionEndReason::UnknownTeleport => 9,
            RegionEndReason::TeeDisappear => 10,
        }
    }

    /// Numeric value used in the exported files.
    pub fn as_u8(&self) -> (r: u8)
        ensures
            r == self.code(),
    {
        match self {
            RegionEndReason::Kill => 0,
            RegionEndReason::TeamChange => 1,
            RegionEndReason::SwapTees => 2,
            RegionEndReason::Spectate => 3,
            RegionEndReason::Afk => 4,
            RegionEndReason::Leave => 5,
            RegionEndReason::ChangeMap => 6,
            RegionEndReason::Unknown => 7,
            RegionEndReason::Teleport => 8,
            RegionEndReason::UnknownTeleport => 9,
            RegionEndReason::TeeDisappear => 10,
        }
    }

    /// Names of all reasons, comma separated, in the order of their values.
    pub fn names() -> (s: &'static str)
        ensures
            s@ == "Kill,TeamChange,SwapTees,Spectate,Afk,Leave,ChangeMap,Unknown,Teleport,UnknownTeleport,TeeDisappear"@,
    {
        "Kill,TeamChange,SwapTees,Spectate,Afk,Leave,ChangeMap,Unknown,Teleport,UnknownTeleport,TeeDisappear"
    }
}

/// An active region of gameplay with metadata.
#[derive(Debug, Clone, Copy)]
pub struct ActiveRegion {
    /// Start tick of this region
    pub start_tick: i64,
    /// End tick of this region (inclusive)
    pub end_tick: i64,
    /// Team number during this region
    pub team: i32,
    /// Whether practice mode was enabled during this region
    pub practice: bool,
    /// Reason why this region ended
    pub end_reason: RegionEndReason,
    /// Start index in the data array (computed after AFK removal)
    pub start_idx: Option<usize>,
    /// End index in the data array, exclusive (computed after AFK removal)
    pub end_idx: Option<usize>,
}

/// The region a constructor call describes: no data indices resolved yet.
pub open spec fn region(
    start_tick: i64,
    end_tick: i64,
    team: i32,
    practice: bool,
    end_reason: RegionEndReason,
) -> ActiveRegion {
    ActiveRegion { start_tick, end_tick, team, practice, end_reason, start_idx: None, end_idx: None }
}

impl ActiveRegion {
    /// Create a new active region
    pub fn new(
        start_tick: i64,
        end_tick: i64,
        team: i32,
        practice: bool,
        end_reason: RegionEndReason,
    ) -> (r: Self)
        ensures
            r == region(start_tick, end_tick, team, practice, end_reason),
    {
        ActiveRegion { start_tick, end_tick, team, practice, end_reason, start_idx: None, end_idx: None }
    }
}

/// Data recorded for each game tick for one player.
///
/// Every feature value is an `f32`, carried here as its bit pattern
/// (`f32::to_bits`); `tick` is the game tick.
#[derive(Debug, Clone, Copy)]
pub struct TickData {
    pub tick: i64,
    pub pos_x: u32,
    pub pos_y: u32,
    pub vel_x: u32,
    pub vel_y: u32,
    pub cursor_x: u32,
    pub cursor_y: u32,
    pub aim_angle: u32,
    pub aim_distance: u32,
    pub move_dir: u32,
    pub key_jump: u32,
    pub key_fire: u32,
    pub key_hook: u32,
    pub is_grounded: u32,
    pub freeze_status: u32,
    pub hook_grabbed: u32,
    pub hook_pos_x: u32,
    pub hook_pos_y: u32,
    pub is_hammer: u32,
    pub is_gun: u32,
    pub is_other_weapon: u32,
    pub jumps_remaining: u32,
    pub can_jump: u32,
}

/// Information about when and how a player finished the map.
#[derive(Debug, Clone, Copy)]
pub struct FinishInfo {
    /// Game tick when the finish occurred.
    pub tick: i64,
    /// Run duration in seconds, as the bit pattern of an `f32`.
    pub duration_secs: u32,
}

/// All data of one player session on one map, from joining to leaving.
#[derive(Debug, Clone)]
pub struct PlayerSequence {
    pub player_name: String,
    pub team: i32,
    pub finishes: Vec<FinishInfo>,
    pub start_tick: i64,
    pub end_tick: i64,
    pub time_of_day: String,
    pub map_name: String,
    pub data: Vec<TickData>,
    pub active_regions: Vec<ActiveRegion>,
    pub timeout_code: Option<String>,
}


/// Consecutive entries `i` and `i + 1` of the data are not consecutive ticks.
pub open spec fn is_gap_at(data: Seq<TickData>, i: int) -> bool {
    data[i + 1].tick != data[i].tick + 1
}

/// All tick gaps in the data, in order: the pairs (tick before the gap,
/// tick after the gap) for every `i` with `is_gap_at(data, i)`.
pub open spec fn tick_gaps(data: Seq<TickData>) -> Seq<(i64, i64)>
    decreases data.len(),
{
    if data.len() < 2 {
        Seq::empty()
    } else {
        let n = data.len() as int;
        let before = tick_gaps(data.drop_last());
        if is_gap_at(data, n - 2) {
            before.push((data[n - 2].tick, data[n - 1].tick))
        } else {
            before
        }
    }
}

/// Find all tick gaps in data (pairs of (gap_start_tick, gap_end_tick)).
pub fn find_tick_gaps(data: &[TickData]) -> (gaps: Vec<(i64, i64)>)
    ensures
        gaps@ == tick_gaps(data@),
{
    let mut gaps: Vec<(i64, i64)> = Vec::new();
    let n = data.len();
    if n < 2 {
        return gaps;
    }
    let mut i: usize = 0;
    while i + 1 < n
        invariant
            n == data@.len(),
            n >= 2,
            i + 1 <= n,
            gaps@ == tick_gaps(data@.take(i + 1)),
        decreases n - i,
    {
        let a = data[i].tick;
        let b = data[i + 1].tick;
        proof {
            let s = data@.take(i + 2);
            assert(s.drop_last() =~= data@.take(i + 1));
            assert(s[i as int] == data@[i as int]);
            assert(s[i + 1] == data@[i + 1]);
        }
        if a == i64::MAX || b != a + 1 {
            gaps.push((a, b));
        }
        i = i + 1;
    }
    assert(data@.take(n as int) =~= data@);
    gaps
}


/// Number of consecutive pairs of equal `move_dir` values that end at
/// index `j` (0 where `move_dir` changed at `j`).
pub open spec fn same_run(data: Seq<TickData>, j: int) -> nat
    decreases j,
{
    if j <= 0 {
        0
    } else if f32_equal(data[j].move_dir, data[j - 1].move_dir) {
        same_run(data, j - 1) + 1
    } else {
        0
    }
}

/// The tick at index `j` is AFK: `move_dir` has stayed unchanged for at
/// least `afk_ticks` consecutive ticks (and at least one) up to `j`.
pub open spec fn is_afk_at(data: Seq<TickData>, afk_ticks: nat, j: int) -> bool {
    &&& same_run(data, j) >= 1
    &&& same_run(data, j) >= afk_ticks
}

/// The first `k` entries of `data` without the AFK ones, in order.
pub open spec fn without_afk(data: Seq<TickData>, afk_ticks: nat, k: int) -> Seq<TickData>
    decreases k,
{
    if k <= 0 {
        Seq::empty()
    } else if is_afk_at(data, afk_ticks, k - 1) {
        without_afk(data, afk_ticks, k - 1)
    } else {
        without_afk(data, afk_ticks, k - 1).push(data[k - 1])
    }
}

/// Remove AFK ticks (move_dir unchanged for `afk_ticks`+ consecutive ticks).
pub fn drop_afk_ticks(data: &mut Vec<TickData>, afk_ticks: usize)
    ensures
        final(data)@ == without_afk(old(data)@, afk_ticks as nat, old(data)@.len() as int),
{
    let n = data.len();
    let mut keep: Vec<bool> = Vec::new();
    if n > 0 {
        keep.push(true);
    }
    let mut same_count: usize = 0;
    let mut i: usize = 0;
    while i + 1 < n
        invariant
            n == data@.len(),
            i + 1 <= n || n == 0,
            n == 0 ==> i == 0 && keep@.len() == 0,
            n > 0 ==> keep@.len() == i + 1,
            same_count == same_run(data@, i as int),
            same_count <= i,
            forall|j: int| 0 <= j < keep@.len() ==> keep@[j] == !is_afk_at(data@, afk_ticks as nat, j),
        decreases n - i,
    {
        if f32_bits_equal(data[i + 1].move_dir, data[i].move_dir) {
            same_count = same_count + 1;
            keep.push(same_count < afk_ticks);
        } else {
            same_count = 0;
            keep.push(true);
        }
        i = i + 1;
    }
    let mut kept: Vec<TickData> = Vec::new();
    let mut k: usize = 0;
    while k < n
        invariant
            n == data@.len(),
            keep@.len() == n,
            forall|j: int| 0 <= j < n ==> keep@[j] == !is_afk_at(data@, afk_ticks as nat, j),
            k <= n,
            kept@ == without_afk(data@, afk_ticks as nat, k as int),
        decreases n - k,
    {
        if keep[k] {
            kept.push(data[k]);
        }
        k = k + 1;
    }
    *data = kept;
}


/// The tick lies within the region's tick range (both ends inclusive).
pub open spec fn tick_in_region(tick: i64, r: ActiveRegion) -> bool {
    r.start_tick <= tick <= r.end_tick
}

/// First index `>= k` whose tick lies in the region, if any.
pub open spec fn first_index_in(data: Seq<TickData>, r: ActiveRegion, k: int) -> Option<usize>
    decreases data.len() - k,
{
    if k < 0 || k >= data.len() {
        None
    } else if tick_in_region(data[k].tick, r) {
        Some(k as usize)
    } else {
        first_index_in(data, r, k + 1)
    }
}

/// Last index `< k` whose tick lies in the region, if any.
pub open spec fn last_index_in(data: Seq<TickData>, r: ActiveRegion, k: int) -> Option<usize>
    decreases k,
{
    if k <= 0 || k > data.len() {
        None
    } else if tick_in_region(data[k - 1].tick, r) {
        Some((k - 1) as usize)
    } else {
        last_index_in(data, r, k - 1)
    }
}

/// The region with its data index range resolved: from the first index
/// whose tick lies in it to one past the last such index.
pub open spec fn resolved(r: ActiveRegion, data: Seq<TickData>) -> ActiveRegion {
    ActiveRegion {
        start_idx: first_index_in(data, r, 0),
        end_idx: match last_index_in(data, r, data.len() as int) {
            Some(i) => Some((i + 1) as usize),
            None => None,
        },
        ..r
    }
}

/// Every region resolved against the data, in order.
pub open spec fn resolved_all(rs: Seq<ActiveRegion>, data: Seq<TickData>) -> Seq<ActiveRegion> {
    Seq::new(rs.len(), |k: int| resolved(rs[k], data))
}

fn first_index_of(data: &[TickData], r: &ActiveRegion) -> (res: Option<usize>)
    ensures
        res == first_index_in(data@, *r, 0),
{
    let n = data.len();
    let mut i: usize = 0;
    while i < n
        invariant
            n == data@.len(),
            i <= n,
            first_index_in(data@, *r, 0) == first_index_in(data@, *r, i as int),
        decreases n - i,
    {
        let t = data[i].tick;
        if t >= r.start_tick && t <= r.end_tick {
            return Some(i);
        }
        i = i + 1;
    }
    None
}

fn last_index_of(data: &[TickData], r: &ActiveRegion) -> (res: Option<usize>)
    ensures
        res == last_index_in(data@, *r, data@.len() as int),
        res matches Some(i) ==> i < data.len(),
{
    let n = data.len();
    let mut i: usize = n;
    while i > 0
        invariant
            n == data@.len(),
            i <= n,
            last_index_in(data@, *r, n as int) == last_index_in(data@, *r, i as int),
        decreases i,
    {
        let t = data[i - 1].tick;
        if t >= r.start_tick && t <= r.end_tick {
            return Some(i - 1);
        }
        i = i - 1;
    }
    None
}

/// Resolve tick-based region boundaries to data array indices.
/// Call this after AFK removal to compute start_idx and end_idx for each region.
pub fn resolve_region_indices(regions: &mut [ActiveRegion], data: &[TickData])
    ensures
        final(regions)@.len() == old(regions)@.len(),
        data@.len() == 0 ==> final(regions)@ == old(regions)@,
        data@.len() > 0 ==> final(regions)@ == resolved_all(old(regions)@, data@),
{
    if data.len() == 0 {
        return;
    }
    let n = regions.len();
    let mut k: usize = 0;
    while k < n
        invariant
            n == regions@.len(),
            n == old(regions)@.len(),
            data@.len() > 0,
            k <= n,
            forall|j: int| 0 <= j < k ==> #[trigger] regions@[j] == resolved(old(regions)@[j], data@),
            forall|j: int| k <= j < n ==> #[trigger] regions@[j] == old(regions)@[j],
        decreases n - k,
    {
        let r = regions[k];
        let start = first_index_of(data, &r);
        let end = match last_index_of(data, &r) {
            Some(i) => Some(i + 1),
            None => None,
        };
        regions[k] = ActiveRegion { start_idx: start, end_idx: end, ..r };
        k = k + 1;
    }
    assert(regions@ =~= resolved_all(old(regions)@, data@));
}


/// The gap starts inside the region, before its last tick.
pub open spec fn gap_starts_in(g: (i64, i64), r: ActiveRegion) -> bool {
    r.start_tick <= g.0 < r.end_tick
}

/// The gaps that start inside the region, in order.
pub open spec fn gaps_in_region(gaps: Seq<(i64, i64)>, r: ActiveRegion) -> Seq<(i64, i64)>
    decreases gaps.len(),
{
    if gaps.len() == 0 {
        Seq::empty()
    } else {
        let before = gaps_in_region(gaps.drop_last(), r);
        if gap_starts_in(gaps.last(), r) {
            before.push(gaps.last())
        } else {
            before
        }
    }
}

/// The pieces of `r` that remain when it is cut at each gap of `rgaps`,
/// the current piece starting at `cur`: every piece before a gap ends at
/// the gap's first tick with `reason`; the piece after the last gap keeps
/// the region's own end and reason, and is left out when it would start
/// after the region's end.
pub open spec fn split_pieces(
    r: ActiveRegion,
    rgaps: Seq<(i64, i64)>,
    reason: RegionEndReason,
    cur: i64,
) -> Seq<ActiveRegion>
    decreases rgaps.len(),
{
    if rgaps.len() == 0 {
        if cur <= r.end_tick {
            seq![region(cur, r.end_tick, r.team, r.practice, r.end_reason)]
        } else {
            Seq::empty()
        }
    } else {
        seq![region(cur, rgaps[0].0, r.team, r.practice, reason)] + split_pieces(
            r,
            rgaps.drop_first(),
            reason,
            rgaps[0].1,
        )
    }
}

/// One region after splitting: unchanged when no gap starts inside it.
pub open spec fn split_region(r: ActiveRegion, gaps: Seq<(i64, i64)>, reason: RegionEndReason) -> Seq<
    ActiveRegion,
> {
    let rgaps = gaps_in_region(gaps, r);
    if rgaps.len() == 0 {
        seq![r]
    } else {
        split_pieces(r, rgaps, reason, r.start_tick)
    }
}

/// All regions after splitting, in order.
pub open spec fn split_all(
    regions: Seq<ActiveRegion>,
    gaps: Seq<(i64, i64)>,
    reason: RegionEndReason,
) -> Seq<ActiveRegion>
    decreases regions.len(),
{
    if regions.len() == 0 {
        Seq::empty()
    } else {
        split_all(regions.drop_last(), gaps, reason) + split_region(regions.last(), gaps, reason)
    }
}

/// What `split_regions_on_gaps` returns.
pub open spec fn split_on_gaps(
    regions: Seq<ActiveRegion>,
    data: Seq<TickData>,
    reason: RegionEndReason,
) -> Seq<ActiveRegion> {
    let gaps = tick_gaps(data);
    if gaps.len() == 0 {
        regions
    } else {
        split_all(regions, gaps, reason)
    }
}

fn gaps_starting_in(gaps: &Vec<(i64, i64)>, r: &ActiveRegion) -> (res: Vec<(i64, i64)>)
    ensures
        res@ == gaps_in_region(gaps@, *r),
{
    let mut res: Vec<(i64, i64)> = Vec::new();
    let mut j: usize = 0;
    while j < gaps.len()
        invariant
            j <= gaps@.len(),
            res@ == gaps_in_region(gaps@.take(j as int), *r),
        decreases gaps@.len() - j,
    {
        let g = gaps[j];
        proof {
            assert(gaps@.take(j + 1).drop_last() =~= gaps@.take(j as int));
            assert(gaps@.take(j + 1).last() == g);
        }
        if g.0 >= r.start_tick && g.0 < r.end_tick {
            res.push(g);
        }
        j = j + 1;
    }
    assert(gaps@.take(gaps@.len() as int) =~= gaps@);
    res
}

fn push_split_region(
    result: &mut Vec<ActiveRegion>,
    r: &ActiveRegion,
    gaps: &Vec<(i64, i64)>,
    end_reason: RegionEndReason,
)
    ensures
        final(result)@ == old(result)@ + split_region(*r, gaps@, end_reason),
{
    let region_gaps = gaps_starting_in(gaps, r);
    if region_gaps.len() == 0 {
        result.push(*r);
        return;
    }
    let ghost base = old(result)@;
    let ghost all_pieces = split_pieces(*r, region_gaps@, end_reason, r.start_tick);
    let mut current_start = r.start_tick;
    let mut j: usize = 0;
    assert(region_gaps@.skip(0) =~= region_gaps@);
    while j < region_gaps.len()
        invariant
            j <= region_gaps@.len(),
            region_gaps@.len() > 0,
            base + all_pieces == result@ + split_pieces(
                *r,
                region_gaps@.skip(j as int),
                end_reason,
                current_start,
            ),
        decreases region_gaps@.len() - j,
    {
        let g = region_gaps[j];
        proof {
            let rest = region_gaps@.skip(j as int);
            assert(rest[0] == g);
            assert(rest.drop_first() =~= region_gaps@.skip(j + 1));
        }
        result.push(ActiveRegion::new(current_start, g.0, r.team, r.practice, end_reason));
        current_start = g.1;
        j = j + 1;
    }
    if current_start <= r.end_tick {
        result.push(ActiveRegion::new(current_start, r.end_tick, r.team, r.practice, r.end_reason));
    }
    proof {
        assert(region_gaps@.skip(j as int).len() == 0);
        assert(base + all_pieces =~= result@);
    }
}

/// Split existing regions on tick gaps found in data.
/// Used for post-hoc detection of Spectate and AFK gaps.
pub fn split_regions_on_gaps(
    regions: Vec<ActiveRegion>,
    data: &[TickData],
    end_reason: RegionEndReason,
) -> (result: Vec<ActiveRegion>)
    ensures
        result@ == split_on_gaps(regions@, data@, end_reason),
{
    let gaps = find_tick_gaps(data);
    if gaps.len() == 0 {
        return regions;
    }
    let mut result: Vec<ActiveRegion> = Vec::new();
    let mut k: usize = 0;
    while k < regions.len()
        invariant
            k <= regions@.len(),
            gaps@ == tick_gaps(data@),
            result@ == split_all(regions@.take(k as int), gaps@, end_reason),
        decreases regions@.len() - k,
    {
        let r = regions[k];
        proof {
            assert(regions@.take(k + 1).drop_last() =~= regions@.take(k as int));
            assert(regions@.take(k + 1).last() == r);
        }
        push_split_region(&mut result, &r, &gaps, end_reason);
        k = k + 1;
    }
    assert(regions@.take(regions@.len() as int) =~= regions@);
    result
}


/// A region over the data indices `start..=last` (ticks taken from the data),
/// with default metadata and resolved indices.
pub open spec fn index_run(data: Seq<TickData>, start: int, last: int) -> ActiveRegion {
    ActiveRegion {
        start_tick: data[start].tick,
        end_tick: data[last].tick,
        team: 0,
        practice: false,
        end_reason: RegionEndReason::Unknown,
        start_idx: Some(start as usize),
        end_idx: Some((last + 1) as usize),
    }
}

/// The runs of consecutive ticks from index `i` on, the current run having
/// started at index `start`.
pub open spec fn tick_runs_from(data: Seq<TickData>, start: int, i: int) -> Seq<ActiveRegion>
    decreases data.len() - i,
{
    if i + 1 >= data.len() {
        if data.len() > 0 {
            seq![index_run(data, start, data.len() - 1)]
        } else {
            Seq::empty()
        }
    } else if is_gap_at(data, i) {
        seq![index_run(data, start, i)] + tick_runs_from(data, i + 1, i + 1)
    } else {
        tick_runs_from(data, start, i + 1)
    }
}

/// Compute active regions: one region per run of consecutive ticks.
pub fn compute_active_regions(data: &[TickData]) -> (regions: Vec<ActiveRegion>)
    ensures
        regions@ == tick_runs_from(data@, 0, 0),
{
    let mut regions: Vec<ActiveRegion> = Vec::new();
    let n = data.len();
    let mut start_idx: usize = 0;
    let mut i: usize = 0;
    while i + 1 < n
        invariant
            n == data@.len(),
            start_idx <= i,
            i < n || n == 0,
            n == 0 ==> i == 0,
            regions@ + tick_runs_from(data@, start_idx as int, i as int) == tick_runs_from(data@, 0, 0),
        decreases n - i,
    {
        let a = data[i].tick;
        let b = data[i + 1].tick;
        if a == i64::MAX || b != a + 1 {
            regions.push(ActiveRegion {
                start_tick: data[start_idx].tick,
                end_tick: a,
                team: 0,
                practice: false,
                end_reason: RegionEndReason::Unknown,
                start_idx: Some(start_idx),
                end_idx: Some(i + 1),
            });
            start_idx = i + 1;
            proof {
                assert(regions@ + tick_runs_from(data@, start_idx as int, (i + 1) as int)
                    =~= regions@.drop_last() + (seq![regions@.last()] + tick_runs_from(data@, (i + 1) as int, (i + 1) as int)));
            }
        }
        i = i + 1;
    }
    if n > 0 {
        regions.push(ActiveRegion {
            start_tick: data[start_idx].tick,
            end_tick: data[n - 1].tick,
            team: 0,
            practice: false,
            end_reason: RegionEndReason::Unknown,
            start_idx: Some(start_idx),
            end_idx: Some(n),
        });
    }
    proof {
        assert(regions@ =~= tick_runs_from(data@, 0, 0));
    }
    regions
}

/// The regions whose data index range was resolved (`start_idx` is set), in order.
pub open spec fn regions_with_data(rs: Seq<ActiveRegion>) -> Seq<ActiveRegion>
    decreases rs.len(),
{
    if rs.len() == 0 {
        Seq::empty()
    } else {
        let before = regions_with_data(rs.drop_last());
        if rs.last().start_idx is Some {
            before.push(rs.last())
        } else {
            before
        }
    }
}

/// Drop regions with no data remaining (no resolved start index), keeping
/// the order of the others.
pub fn drop_regions_without_data(regions: &mut Vec<ActiveRegion>)
    ensures
        final(regions)@ == regions_with_data(old(regions)@),
{
    let mut kept: Vec<ActiveRegion> = Vec::new();
    let mut k: usize = 0;
    while k < regions.len()
        invariant
            k <= regions@.len(),
            regions@ == old(regions)@,
            kept@ == regions_with_data(regions@.take(k as int)),
        decreases regions@.len() - k,
    {
        let r = regions[k];
        proof {
            assert(regions@.take(k + 1).drop_last() =~= regions@.take(k as int));
            assert(regions@.take(k + 1).last() == r);
        }
        if r.start_idx.is_some() {
            kept.push(r);
        }
        k = k + 1;
    }
    assert(regions@.take(regions@.len() as int) =~= regions@);
    *regions = kept;
}

} // verus!
