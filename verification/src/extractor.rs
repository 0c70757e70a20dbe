//! Decisions taken while capturing tick data from a replay: loading and
//! checking the map, practice tracking, team changes, classification of
//! large position jumps, tick records, and the conversion of recorded
//! players into player sequences.
use vstd::prelude::*;
use crate::sequence::{
    drop_afk_ticks, drop_regions_without_data, regions_with_data, resolve_region_indices,
    resolved_all, split_on_gaps, split_regions_on_gaps, without_afk, ActiveRegion, PlayerSequence,
    RegionEndReason, TickData,
};
use crate::text::{push_char, starts_with, str_equal};
use crate::float_bits::{exact_in_f32, int_f32_bits};
use crate::world::{
    closing_region, has_player, player_index, updated_at, InputState, TrackedPlayer, World,
};
use crate::coverage::{
    afk_removal_keeps_ticks_covered, cleaned_regions_partition_data, partitions_indices, ticks_increasing,
};
use crate::tracking::{
    active_keeps_up, closing_region_keeps_up, lemma_world_changed_at, regions_cover_data, world_keeps_up,
    team_zero_idle,
};

verus! {

/// A rectangular layer of map tiles, row-major: the cell of tile `(x, y)`
/// is `cells[y * width + x]`; a cell is set where the layer has a tile.
pub struct TileGrid {
    pub width: usize,
    pub height: usize,
    pub cells: Vec<bool>,
}

impl TileGrid {
    /// Non-empty dimensions that fit tile coordinates, and one cell per tile.
    pub open spec fn wf(&self) -> bool {
        &&& 1 <= self.width <= i32::MAX
        &&& 1 <= self.height <= i32::MAX
        &&& self.cells@.len() == self.width * self.height
    }
}

/// The parts of a map that the extractor reads: the teleporter layer,
/// the teleporter exits, the checkpoint teleporter exits and the spawn
/// points, all in tile coordinates.
pub struct MapGeometry {
    pub tele_layer: Option<TileGrid>,
    pub tele_outs: Vec<(i32, i32)>,
    pub tele_checkpoint_outs: Vec<(i32, i32)>,
    pub spawn_points: Vec<(i32, i32)>,
}

impl MapGeometry {
    pub open spec fn wf(&self) -> bool {
        self.tele_layer matches Some(g) ==> g.wf()
    }
}

/// A coordinate clamped into `0..len`, as map lookups do at the map border.
pub open spec fn clamp_coord(v: int, len: int) -> int {
    if v < 0 {
        0
    } else if v > len - 1 {
        len - 1
    } else {
        v
    }
}

/// The teleporter layer has a tile at `(x, y)` (coordinates clamped to the map).
pub open spec fn has_tele_tile(map: MapGeometry, x: int, y: int) -> bool {
    match map.tele_layer {
        Some(g) => g.cells@[clamp_coord(y, g.height as int) * g.width + clamp_coord(x, g.width as int)],
        None => false,
    }
}

/// Some tile of the 5x5 square around `(x, y)` is a teleporter tile.
pub open spec fn tele_tile_near(map: MapGeometry, x: int, y: int) -> bool {
    exists|dx: int, dy: int| -2 <= dx <= 2 && -2 <= dy <= 2 && #[trigger] has_tele_tile(map, x + dx, y + dy)
}

/// The tile `(x, y)` is at most one tile away (in both axes) from one of the exits.
pub open spec fn near_exit(exits: Seq<(i32, i32)>, x: int, y: int) -> bool {
    exists|k: int|
        0 <= k < exits.len() && -1 <= (#[trigger] exits[k]).0 - x <= 1 && -1 <= exits[k].1 - y <= 1
}

/// A large position jump from tile `prev` to tile `cur` is explained by a
/// teleporter: a teleporter tile near `prev`, or a (checkpoint) teleporter
/// exit next to `cur`.
pub open spec fn map_teleport(map: MapGeometry, prev: (i32, i32), cur: (i32, i32)) -> bool {
    ||| tele_tile_near(map, prev.0 as int, prev.1 as int)
    ||| near_exit(map.tele_outs@, cur.0 as int, cur.1 as int)
    ||| near_exit(map.tele_checkpoint_outs@, cur.0 as int, cur.1 as int)
}

/// The tile is a spawn point.
pub open spec fn spawn_position(map: MapGeometry, tile: (i32, i32)) -> bool {
    exists|k: int| 0 <= k < map.spawn_points@.len() && #[trigger] map.spawn_points@[k] == tile
}

proof fn lemma_cell_index(x: int, y: int, w: int, h: int)
    requires
        0 <= x < w,
        0 <= y < h,
    ensures
        0 <= y * w + x < w * h,
{
    assert(y * w + x < w * h) by (nonlinear_arith)
        requires
            0 <= x < w,
            0 <= y < h,
    ;
    assert(0 <= y * w) by (nonlinear_arith)
        requires
            0 <= y,
            0 <= x < w,
    ;
}

fn clamp_index(v: i64, len: usize) -> (r: usize)
    requires
        1 <= len <= i32::MAX,
    ensures
        r as int == clamp_coord(v as int, len as int),
        r < len,
{
    if v < 0 {
        0
    } else if v > len as i64 - 1 {
        len - 1
    } else {
        v as usize
    }
}

fn tele_tile_at(map: &MapGeometry, x: i64, y: i64) -> (r: bool)
    requires
        map.wf(),
    ensures
        r == has_tele_tile(*map, x as int, y as int),
{
    match &map.tele_layer {
        Some(g) => {
            let cx = clamp_index(x, g.width);
            let cy = clamp_index(y, g.height);
            let n = g.cells.len();
            proof {
                lemma_cell_index(cx as int, cy as int, g.width as int, g.height as int);
                assert(cy * g.width + cx < n);
                assert(cy * g.width <= cy * g.width + cx);
            }
            g.cells[cy * g.width + cx]
        },
        None => false,
    }
}

fn exit_near(exits: &Vec<(i32, i32)>, x: i32, y: i32) -> (r: bool)
    ensures
        r == near_exit(exits@, x as int, y as int),
{
    let mut k: usize = 0;
    while k < exits.len()
        invariant
            k <= exits@.len(),
            forall|j: int|
                0 <= j < k ==> !(-1 <= (#[trigger] exits@[j]).0 - x <= 1 && -1 <= exits@[j].1 - y <= 1),
        decreases exits@.len() - k,
    {
        let e = exits[k];
        let ddx = e.0 as i64 - x as i64;
        let ddy = e.1 as i64 - y as i64;
        if -1 <= ddx && ddx <= 1 && -1 <= ddy && ddy <= 1 {
            return true;
        }
        k = k + 1;
    }
    false
}

impl MapGeometry {
    /// Check if a large position jump is caused by a teleporter: a tele
    /// entrance in the 5x5 square around the previous tile, or a tele
    /// (checkpoint) exit next to the current tile.
    pub fn is_map_teleport(&self, prev_tile: (i32, i32), cur_tile: (i32, i32)) -> (r: bool)
        requires
            self.wf(),
        ensures
            r == map_teleport(*self, prev_tile, cur_tile),
    {
        let mut dy: i64 = -2;
        while dy <= 2
            invariant
                self.wf(),
                -2 <= dy <= 3,
                forall|ddx: int, ddy: int|
                    -2 <= ddx <= 2 && -2 <= ddy < dy ==> !#[trigger] has_tele_tile(
                        *self,
                        prev_tile.0 + ddx,
                        prev_tile.1 + ddy,
                    ),
            decreases 3 - dy,
        {
            let mut dx: i64 = -2;
            while dx <= 2
                invariant
                    self.wf(),
                    -2 <= dy <= 2,
                    -2 <= dx <= 3,
                    forall|ddx: int, ddy: int|
                        -2 <= ddx <= 2 && -2 <= ddy < dy ==> !#[trigger] has_tele_tile(
                            *self,
                            prev_tile.0 + ddx,
                            prev_tile.1 + ddy,
                        ),
                    forall|ddx: int|
                        -2 <= ddx < dx ==> !#[trigger] has_tele_tile(
                            *self,
                            prev_tile.0 + ddx,
                            prev_tile.1 + dy,
                        ),
                decreases 3 - dx,
            {
                if tele_tile_at(self, prev_tile.0 as i64 + dx, prev_tile.1 as i64 + dy) {
                    return true;
                }
                dx = dx + 1;
            }
            dy = dy + 1;
        }
        exit_near(&self.tele_outs, cur_tile.0, cur_tile.1) || exit_near(
            &self.tele_checkpoint_outs,
            cur_tile.0,
            cur_tile.1,
        )
    }

    /// Check if a tile is exactly a spawn point (death-tile kill or spawn reassignment).
    pub fn is_spawn_position(&self, tile: (i32, i32)) -> (r: bool)
        ensures
            r == spawn_position(*self, tile),
    {
        let mut k: usize = 0;
        while k < self.spawn_points.len()
            invariant
                k <= self.spawn_points@.len(),
                forall|j: int| 0 <= j < k ==> #[trigger] self.spawn_points@[j] != tile,
            decreases self.spawn_points@.len() - k,
        {
            let sp = self.spawn_points[k];
            if sp.0 == tile.0 && sp.1 == tile.1 {
                return true;
            }
            k = k + 1;
        }
        false
    }
}

/// Bit pattern of the `f32` feature value of a flag: `1.0` when set, `0.0` otherwise.
pub open spec fn flag_value(b: bool) -> u32 {
    if b {
        0x3f80_0000
    } else {
        0
    }
}

fn flag_bits(b: bool) -> (v: u32)
    ensures
        v == flag_value(b),
{
    if b {
        0x3f80_0000
    } else {
        0
    }
}

/// The weapon a tee holds, as the features tell weapons apart.
#[derive(Debug, Clone, Copy, PartialEq, Eq, Structural)]
pub enum HeldWeapon {
    Hammer,
    Gun,
    Other,
}

/// What the capture reads of a tee at a tick. Positions, velocities (tiles
/// per tick), the aim angle and the hook position are `f32` bit patterns;
/// `jumps_value` is the number of jumps as an `f32` bit pattern; `grounded`
/// is whether the tee stands on solid ground.
#[derive(Debug, Clone, Copy)]
pub struct TeeSample {
    pub pos_x: u32,
    pub pos_y: u32,
    pub vel_x: u32,
    pub vel_y: u32,
    pub aim_angle: u32,
    pub hook_pos_x: u32,
    pub hook_pos_y: u32,
    pub hook_grabbed: bool,
    pub weapon: HeldWeapon,
    pub jumps: i32,
    pub jumps_value: u32,
    pub grounded: bool,
    pub frozen: bool,
}

/// The values derived from a player's input: the move direction and the
/// cursor position and distance in world units, as `f32` bit patterns.
#[derive(Debug, Clone, Copy)]
pub struct AimSample {
    pub move_dir: u32,
    pub cursor_x: u32,
    pub cursor_y: u32,
    pub aim_distance: u32,
}

/// The tick record of a player: the hook position counts only while the
/// hook is grabbing (otherwise it is `0.0`), a tee with any jump left can
/// jump, and the flags of the input keys, the ground contact, the hook, the
/// freeze and the weapon are `1.0` or `0.0`.
pub open spec fn tick_record(tick: i64, input: InputState, aim: AimSample, tee: TeeSample) -> TickData {
    TickData {
        tick,
        pos_x: tee.pos_x,
        pos_y: tee.pos_y,
        vel_x: tee.vel_x,
        vel_y: tee.vel_y,
        cursor_x: aim.cursor_x,
        cursor_y: aim.cursor_y,
        aim_angle: tee.aim_angle,
        aim_distance: aim.aim_distance,
        move_dir: aim.move_dir,
        key_jump: flag_value(input.jump),
        key_fire: flag_value(input.fire),
        key_hook: flag_value(input.hook),
        is_grounded: flag_value(tee.grounded),
        freeze_status: flag_value(tee.frozen),
        hook_grabbed: flag_value(tee.hook_grabbed),
        hook_pos_x: if tee.hook_grabbed { tee.hook_pos_x } else { 0 },
        hook_pos_y: if tee.hook_grabbed { tee.hook_pos_y } else { 0 },
        is_hammer: flag_value(tee.weapon == HeldWeapon::Hammer),
        is_gun: flag_value(tee.weapon == HeldWeapon::Gun),
        is_other_weapon: flag_value(tee.weapon == HeldWeapon::Other),
        jumps_remaining: tee.jumps_value,
        can_jump: flag_value(tee.jumps > 0),
    }
}

/// Build the tick record of a player from its input and its tee. The
/// move direction and the number of jumps come as `f32` values of the
/// input's direction and the tee's jumps: for the integers an `f32` holds
/// exactly, they are those integers' bit patterns, so the recorded
/// `jumps_remaining` and `can_jump` come from the same number of jumps.
pub fn tick_data_of(tick: i64, input: InputState, aim: AimSample, tee: TeeSample) -> (t: TickData)
    requires
        exact_in_f32(input.direction as int) ==> aim.move_dir == int_f32_bits(input.direction as int),
        exact_in_f32(tee.jumps as int) ==> tee.jumps_value == int_f32_bits(tee.jumps as int),
    ensures
        t == tick_record(tick, input, aim, tee),
        exact_in_f32(tee.jumps as int) ==> t.jumps_remaining == int_f32_bits(tee.jumps as int) && t.can_jump
            == flag_value(tee.jumps > 0),
        exact_in_f32(input.direction as int) ==> t.move_dir == int_f32_bits(input.direction as int),
{
    let grabbed = tee.hook_grabbed;
    TickData {
        tick,
        pos_x: tee.pos_x,
        pos_y: tee.pos_y,
        vel_x: tee.vel_x,
        vel_y: tee.vel_y,
        cursor_x: aim.cursor_x,
        cursor_y: aim.cursor_y,
        aim_angle: tee.aim_angle,
        aim_distance: aim.aim_distance,
        move_dir: aim.move_dir,
        key_jump: flag_bits(input.jump),
        key_fire: flag_bits(input.fire),
        key_hook: flag_bits(input.hook),
        is_grounded: flag_bits(tee.grounded),
        freeze_status: flag_bits(tee.frozen),
        hook_grabbed: flag_bits(grabbed),
        hook_pos_x: if grabbed { tee.hook_pos_x } else { 0 },
        hook_pos_y: if grabbed { tee.hook_pos_y } else { 0 },
        is_hammer: flag_bits(matches!(tee.weapon, HeldWeapon::Hammer)),
        is_gun: flag_bits(matches!(tee.weapon, HeldWeapon::Gun)),
        is_other_weapon: flag_bits(matches!(tee.weapon, HeldWeapon::Other)),
        jumps_remaining: tee.jumps_value,
        can_jump: flag_bits(tee.jumps > 0),
    }
}

/// Each field of a tick record comes from the quantity of the same name:
/// changing one value of the aim sample, of the tee sample or of the input
/// (or the tick) changes exactly the record's field of that name (the
/// number of jumps gives `jumps_remaining` and the jump count `can_jump`,
/// a flag gives `1.0` or `0.0`, the weapon sets exactly its own flag), and
/// the hook position counts only while the hook is grabbing (otherwise it
/// is `0.0`).
pub proof fn tick_record_fields_follow_their_sources(
    tick: i64,
    other_tick: i64,
    input: InputState,
    aim: AimSample,
    tee: TeeSample,
    v: u32,
    b: bool,
    j: i32,
    w: HeldWeapon,
)
    ensures
        flag_value(true) != flag_value(false),
        ({
            let r = tick_record(tick, input, aim, tee);
            &&& tick_record(tick, input, AimSample { move_dir: v, ..aim }, tee) == (TickData { move_dir: v, ..r })
            &&& tick_record(tick, input, AimSample { cursor_x: v, ..aim }, tee) == (TickData { cursor_x: v, ..r })
            &&& tick_record(tick, input, AimSample { cursor_y: v, ..aim }, tee) == (TickData { cursor_y: v, ..r })
            &&& tick_record(tick, input, AimSample { aim_distance: v, ..aim }, tee) == (TickData { aim_distance: v, ..r })
            &&& tick_record(tick, input, aim, TeeSample { pos_x: v, ..tee }) == (TickData { pos_x: v, ..r })
            &&& tick_record(tick, input, aim, TeeSample { pos_y: v, ..tee }) == (TickData { pos_y: v, ..r })
            &&& tick_record(tick, input, aim, TeeSample { vel_x: v, ..tee }) == (TickData { vel_x: v, ..r })
            &&& tick_record(tick, input, aim, TeeSample { vel_y: v, ..tee }) == (TickData { vel_y: v, ..r })
            &&& tick_record(tick, input, aim, TeeSample { aim_angle: v, ..tee }) == (TickData { aim_angle: v, ..r })
            &&& tick_record(tick, input, aim, TeeSample { jumps_value: v, ..tee }) == (TickData { jumps_remaining: v, ..r })
            &&& tick_record(tick, input, aim, TeeSample { hook_pos_x: v, ..tee }) == if tee.hook_grabbed {
                TickData { hook_pos_x: v, ..r }
            } else {
                r
            }
            &&& tick_record(tick, input, aim, TeeSample { hook_pos_y: v, ..tee }) == if tee.hook_grabbed {
                TickData { hook_pos_y: v, ..r }
            } else {
                r
            }
            &&& tick_record(tick, InputState { jump: b, ..input }, aim, tee) == (TickData { key_jump: flag_value(b), ..r })
            &&& tick_record(tick, InputState { fire: b, ..input }, aim, tee) == (TickData { key_fire: flag_value(b), ..r })
            &&& tick_record(tick, InputState { hook: b, ..input }, aim, tee) == (TickData { key_hook: flag_value(b), ..r })
            &&& tick_record(tick, input, aim, TeeSample { grounded: b, ..tee }) == (TickData { is_grounded: flag_value(b), ..r })
            &&& tick_record(tick, input, aim, TeeSample { frozen: b, ..tee }) == (TickData { freeze_status: flag_value(b), ..r })
            &&& tick_record(other_tick, input, aim, tee) == (TickData { tick: other_tick, ..r })
            &&& tick_record(tick, input, aim, TeeSample { jumps: j, ..tee }) == (TickData {
                can_jump: flag_value(j > 0),
                ..r
            })
            &&& tick_record(tick, input, aim, TeeSample { weapon: w, ..tee }) == (TickData {
                is_hammer: flag_value(w == HeldWeapon::Hammer),
                is_gun: flag_value(w == HeldWeapon::Gun),
                is_other_weapon: flag_value(w == HeldWeapon::Other),
                ..r
            })
            &&& tick_record(tick, input, aim, TeeSample { hook_grabbed: true, ..tee }) == (TickData {
                hook_grabbed: flag_value(true),
                hook_pos_x: tee.hook_pos_x,
                hook_pos_y: tee.hook_pos_y,
                ..r
            })
            &&& tick_record(tick, input, aim, TeeSample { hook_grabbed: false, ..tee }) == (TickData {
                hook_grabbed: flag_value(false),
                hook_pos_x: 0,
                hook_pos_y: 0,
                ..r
            })
        }),
{
}

/// What the capture needs of a tracked player to record its tick.
#[derive(Debug, Clone, Copy)]
pub struct TickContext {
    /// The player's current input
    pub input: InputState,
    /// Position at the previous recorded tick (`f32` bit patterns)
    pub prev_pos: Option<(u32, u32)>,
    /// Practice mode is active for the player's current region
    pub practice: bool,
    /// The player was killed during this tick
    pub killed: bool,
}

/// A snapshot that contradicts the replay's player tracking.
#[derive(Debug, Clone, Copy, PartialEq, Eq, Structural)]
pub enum SnapError {
    /// A player in the snapshot has a tee but is not tracked.
    UntrackedPlayerWithTee,
}

/// Capture-side state: the current snapshot tick, players that asked for
/// practice this tick, the teams with practice enabled, the server's
/// `sv_rescue` setting and the map geometry.
pub struct CaptureState {
    pub current_tick: i64,
    /// Players who triggered /practice this tick, processed when the snapshot is finished
    pub pending_practice_players: Vec<i32>,
    /// Teams that have practice mode enabled
    pub practice_teams: Vec<i32>,
    /// sv_rescue=1 in the server config: every player is treated as practicing.
    pub sv_rescue: bool,
    pub map: MapGeometry,
}

/// Whether the server's `sv_rescue` setting (its value in the recording's
/// config, if present) enables rescue for everyone: exactly when it is "1".
pub fn rescue_enabled(value: Option<&str>) -> (r: bool)
    ensures
        r == (value matches Some(v) && v@ == "1"@),
{
    match value {
        Some(v) => str_equal(v, "1"),
        None => false,
    }
}

/// Some other player of the snapshot is on the team.
pub open spec fn team_occupied(snap_teams: Seq<(u32, i32)>, snap_id: u32, team: i32) -> bool {
    exists|k: int| 0 <= k < snap_teams.len() && (#[trigger] snap_teams[k]).0 != snap_id && snap_teams[k].1 == team
}

impl CaptureState {
    /// Practice teams are stored without repetition, team 0 (no team) is
    /// never one of them, and the map is well formed.
    pub open spec fn wf(&self) -> bool {
        &&& self.practice_teams@.no_duplicates()
        &&& !self.practice_teams@.contains(0)
        &&& self.map.wf()
    }

    /// Capture state at tick 0 with nobody practicing.
    pub fn new(map: MapGeometry, sv_rescue: bool) -> (s: Self)
        requires
            map.wf(),
        ensures
            s.wf(),
            s.current_tick == 0,
            s.pending_practice_players@ == Seq::<i32>::empty(),
            s.practice_teams@ == Seq::<i32>::empty(),
            s.sv_rescue == sv_rescue,
            s.map == map,
    {
        CaptureState {
            current_tick: 0,
            pending_practice_players: Vec::new(),
            practice_teams: Vec::new(),
            sv_rescue,
            map,
        }
    }

    /// A player chat message: `/practice...` marks the player as asking for
    /// practice, to be processed when the current snapshot is finished.
    pub fn on_player_chat(&mut self, player_id: i32, msg: &str)
        ensures
            final(self).current_tick == old(self).current_tick,
            final(self).practice_teams@ == old(self).practice_teams@,
            final(self).sv_rescue == old(self).sv_rescue,
            final(self).map == old(self).map,
            final(self).pending_practice_players@ == if "/practice"@.len() <= msg@.len() && msg@.subrange(
                0,
                "/practice"@.len() as int,
            ) == "/practice"@ {
                old(self).pending_practice_players@.push(player_id)
            } else {
                old(self).pending_practice_players@
            },
    {
        if starts_with(msg, "/practice") {
            self.pending_practice_players.push(player_id);
        }
    }

    /// A new snapshot at the given tick begins.
    pub fn begin_snap(&mut self, tick: i32)
        ensures
            final(self).current_tick == tick as i64,
            final(self).pending_practice_players@ == old(self).pending_practice_players@,
            final(self).practice_teams@ == old(self).practice_teams@,
            final(self).sv_rescue == old(self).sv_rescue,
            final(self).map == old(self).map,
    {
        self.current_tick = tick as i64;
    }

    /// Whether the team has practice enabled.
    pub fn team_practices(&self, team: i32) -> (r: bool)
        ensures
            r == self.practice_teams@.contains(team),
    {
        let mut k: usize = 0;
        while k < self.practice_teams.len()
            invariant
                k <= self.practice_teams@.len(),
                forall|j: int| 0 <= j < k ==> self.practice_teams@[j] != team,
            decreases self.practice_teams@.len() - k,
        {
            if self.practice_teams[k] == team {
                return true;
            }
            k = k + 1;
        }
        false
    }
}

fn team_occupied_by_other(snap_teams: &[(u32, i32)], snap_id: u32, team: i32) -> (r: bool)
    ensures
        r == team_occupied(snap_teams@, snap_id, team),
{
    let mut k: usize = 0;
    while k < snap_teams.len()
        invariant
            k <= snap_teams@.len(),
            forall|j: int| 0 <= j < k ==> !((#[trigger] snap_teams@[j]).0 != snap_id && snap_teams@[j].1 == team),
        decreases snap_teams@.len() - k,
    {
        let e = snap_teams[k];
        if e.0 != snap_id && e.1 == team {
            return true;
        }
        k = k + 1;
    }
    false
}

/// The tracked player after a snapshot showed it with `name` on `team`:
/// name and team updated; a team change closes the current region at
/// `tick` with `TeamChange` and takes the practice state of the new team.
pub open spec fn snap_updated(
    a: TrackedPlayer,
    b: TrackedPlayer,
    name: Seq<char>,
    team: i32,
    tick: i64,
    teams: Seq<i32>,
) -> bool {
    &&& b.player_id == a.player_id
    &&& b.name@ == name
    &&& b.team == team
    &&& b.input == a.input
    &&& b.data@ == a.data@
    &&& b.timeout_code == a.timeout_code
    &&& b.finishes@ == a.finishes@
    &&& b.prev_pos == a.prev_pos
    &&& if a.current_team != team {
        &&& b.completed_regions@ == a.completed_regions@ + closing_region(a, tick, RegionEndReason::TeamChange)
        &&& b.current_region_start == tick
        &&& b.current_team == team
        &&& b.current_practice == teams.contains(team)
    } else {
        &&& b.completed_regions@ == a.completed_regions@
        &&& b.current_region_start == a.current_region_start
        &&& b.current_team == a.current_team
        &&& b.current_practice == a.current_practice
    }
}

impl CaptureState {
    fn remove_practice_team(&mut self, team: i32)
        requires
            old(self).wf(),
        ensures
            final(self).wf(),
            forall|t: i32| #[trigger]
                final(self).practice_teams@.contains(t) <==> (old(self).practice_teams@.contains(t) && t
                    != team),
            final(self).current_tick == old(self).current_tick,
            final(self).pending_practice_players@ == old(self).pending_practice_players@,
            final(self).sv_rescue == old(self).sv_rescue,
            final(self).map == old(self).map,
    {
        let mut kept: Vec<i32> = Vec::new();
        let mut k: usize = 0;
        while k < self.practice_teams.len()
            invariant
                k <= self.practice_teams@.len(),
                self.practice_teams@ == old(self).practice_teams@,
                self.practice_teams@.no_duplicates(),
                kept@.no_duplicates(),
                forall|i: int|
                    0 <= i < kept@.len() ==> #[trigger] kept@[i] != team && exists|j: int|
                        0 <= j < k && self.practice_teams@[j] == kept@[i],
                forall|j: int|
                    0 <= j < k && #[trigger] self.practice_teams@[j] != team ==> kept@.contains(
                        self.practice_teams@[j],
                    ),
            decreases self.practice_teams@.len() - k,
        {
            let t = self.practice_teams[k];
            if t != team {
                let ghost before = kept@;
                proof {
                    if before.contains(t) {
                        let i = choose|i: int| 0 <= i < before.len() && before[i] == t;
                        let j = choose|j: int| 0 <= j < k && self.practice_teams@[j] == before[i];
                        assert(self.practice_teams@[j] == self.practice_teams@[k as int]);
                    }
                }
                kept.push(t);
                proof {
                    assert forall|i: int| 0 <= i < kept@.len() implies #[trigger] kept@[i] != team && exists|j: int|
                        0 <= j < k + 1 && self.practice_teams@[j] == kept@[i] by {
                        if i < before.len() {
                            assert(kept@[i] == before[i]);
                            let j = choose|j: int| 0 <= j < k && self.practice_teams@[j] == before[i];
                        } else {
                            assert(self.practice_teams@[k as int] == kept@[i]);
                        }
                    }
                    assert forall|j: int| 0 <= j < k + 1 && #[trigger] self.practice_teams@[j] != team implies kept@.contains(
                        self.practice_teams@[j],
                    ) by {
                        if j < k {
                            assert(before.contains(self.practice_teams@[j]));
                            let i = choose|i: int| 0 <= i < before.len() && before[i] == self.practice_teams@[j];
                            assert(kept@[i] == before[i]);
                        } else {
                            assert(kept@[kept@.len() - 1] == t);
                        }
                    }
                    assert forall|x: int, y: int| 0 <= x < kept@.len() && 0 <= y < kept@.len() && x != y implies kept@[x] != kept@[y] by {
                        if x < before.len() && y < before.len() {
                            assert(kept@[x] == before[x]);
                            assert(kept@[y] == before[y]);
                        } else if x < before.len() {
                            assert(kept@[x] == before[x]);
                            assert(before.contains(before[x]));
                        } else {
                            assert(kept@[y] == before[y]);
                            assert(before.contains(before[y]));
                        }
                    }
                }
            }
            k = k + 1;
        }
        proof {
            assert forall|u: i32| #[trigger] kept@.contains(u) <==> (old(self).practice_teams@.contains(u) && u != team) by {
                if kept@.contains(u) {
                    let i = choose|i: int| 0 <= i < kept@.len() && kept@[i] == u;
                    let j = choose|j: int| 0 <= j < k && self.practice_teams@[j] == kept@[i];
                }
                if old(self).practice_teams@.contains(u) && u != team {
                    let j = choose|j: int| 0 <= j < self.practice_teams@.len() && self.practice_teams@[j] == u;
                    assert(self.practice_teams@[j] != team);
                }
            }
        }
        self.practice_teams = kept;
    }

    /// One player of the snapshot, with its name, team, whether it has a
    /// tee, and the ids and teams of all players of the snapshot.
    ///
    /// An untracked player is skipped (an error if it has a tee). For a
    /// tracked player the name and team are taken over; a team change closes
    /// its region with `TeamChange`, gives it the practice state of its new
    /// team, and ends practice for the old team when nobody else of the
    /// snapshot is on it. A tracked player without a tee has lost it: its
    /// region closes with `TeeDisappear` and it is skipped; without an
    /// input yet it is skipped. Otherwise the returned context
    /// carries its input, previous position, practice state and whether it
    /// was killed this tick, and the kill flag is reset.
    pub fn snap_player(
        &mut self,
        world: &mut World,
        snap_id: u32,
        name: String,
        team: i32,
        has_tee: bool,
        snap_teams: &[(u32, i32)],
    ) -> (res: Result<Option<TickContext>, SnapError>)
        requires
            old(self).wf(),
            old(world).wf(),
            old(self).current_tick > i64::MIN,
        ensures
            final(self).wf(),
            final(world).wf(),
            final(self).current_tick == old(self).current_tick,
            final(self).pending_practice_players@ == old(self).pending_practice_players@,
            final(self).sv_rescue == old(self).sv_rescue,
            final(self).map == old(self).map,
            final(world).current_tick == old(world).current_tick,
            final(world).completed_players@ == old(world).completed_players@,
            final(world).map_name@ == old(world).map_name@,
            !has_player(old(world).tracked_players@, snap_id) ==> {
                &&& res == if has_tee {
                    Err::<Option<TickContext>, SnapError>(SnapError::UntrackedPlayerWithTee)
                } else {
                    Ok(None)
                }
                &&& final(world).tracked_players@ == old(world).tracked_players@
                &&& final(self).practice_teams@ == old(self).practice_teams@
            },
            has_player(old(world).tracked_players@, snap_id) ==> {
                let k = player_index(old(world).tracked_players@, snap_id);
                let a = old(world).tracked_players@[k];
                let b = final(world).tracked_players@[k];
                let leaves_practice_team = a.current_team != team && !team_occupied(
                    snap_teams@,
                    snap_id,
                    a.current_team,
                );
                &&& updated_at(old(world).tracked_players@, final(world).tracked_players@, k)
                &&& has_tee ==> snap_updated(a, b, name@, team, old(self).current_tick, old(self).practice_teams@)
                &&& !has_tee ==> exists|c: TrackedPlayer|
                    #[trigger] snap_updated(a, c, name@, team, old(self).current_tick, old(self).practice_teams@)
                        && crate::world::region_closed(c, b, old(self).current_tick, RegionEndReason::TeeDisappear)
                &&& forall|t: i32| #[trigger]
                    final(self).practice_teams@.contains(t) <==> (old(self).practice_teams@.contains(t)
                        && !(leaves_practice_team && t == a.current_team))
                &&& !has_tee ==> res == Ok::<Option<TickContext>, SnapError>(None) && b.killed_this_tick
                    == a.killed_this_tick
                &&& has_tee && a.input is None ==> res == Ok::<Option<TickContext>, SnapError>(None)
                    && b.killed_this_tick == a.killed_this_tick
                &&& has_tee && a.input is Some ==> res == Ok::<Option<TickContext>, SnapError>(
                    Some(
                        TickContext {
                            input: a.input.unwrap(),
                            prev_pos: a.prev_pos,
                            practice: b.current_practice,
                            killed: a.killed_this_tick,
                        },
                    ),
                ) && !b.killed_this_tick
            },
            world_keeps_up(*old(world)) && old(self).current_tick == old(world).current_tick ==> world_keeps_up(
                *final(world),
            ),
            team_zero_idle(*old(world)) ==> team_zero_idle(*final(world)),
    {
        let k = match world.find_tracked(snap_id) {
            Some(k) => k,
            None => {
                return if has_tee {
                    Err(SnapError::UntrackedPlayerWithTee)
                } else {
                    Ok(None)
                };
            },
        };
        let ghost a = world.tracked_players@[k as int];
        world.tracked_players[k].name = name;
        let old_team = world.tracked_players[k].current_team;
        if old_team != team {
            world.tracked_players[k].close_region(self.current_tick, RegionEndReason::TeamChange);
            world.tracked_players[k].current_team = team;
            let practice = self.team_practices(team);
            world.tracked_players[k].current_practice = practice;
            if self.team_practices(old_team) {
                if !team_occupied_by_other(snap_teams, snap_id, old_team) {
                    self.remove_practice_team(old_team);
                }
            }
        }
        world.tracked_players[k].team = team;
        proof {
            assert(updated_at(old(world).tracked_players@, world.tracked_players@, k as int));
            if world_keeps_up(*old(world)) && old(self).current_tick == old(world).current_tick {
                let now = world.current_tick as int;
                let b = world.tracked_players@[k as int];
                assert(active_keeps_up(a, now));
                if old_team != team {
                    // the player right after its region closed, before the new team is set
                    let mid = TrackedPlayer {
                        completed_regions: b.completed_regions,
                        current_region_start: b.current_region_start,
                        current_practice: false,
                        ..a
                    };
                    closing_region_keeps_up(a, mid, self.current_tick, RegionEndReason::TeamChange);
                }
                lemma_world_changed_at(*old(world), *world, k as int);
            }
        }
        if !has_tee {
            let ghost c = world.tracked_players@[k as int];
            let ghost w_mid = *world;
            world.tracked_players[k].close_region(self.current_tick, RegionEndReason::TeeDisappear);
            proof {
                assert(updated_at(old(world).tracked_players@, world.tracked_players@, k as int));
                assert(snap_updated(a, c, name@, team, old(self).current_tick, old(self).practice_teams@));
                if world_keeps_up(*old(world)) && old(self).current_tick == old(world).current_tick {
                    assert(world_keeps_up(w_mid));
                    assert(active_keeps_up(w_mid.tracked_players@[k as int], world.current_tick as int));
                    crate::tracking::lemma_close_keeps_active(
                        c,
                        world.tracked_players@[k as int],
                        self.current_tick,
                        RegionEndReason::TeeDisappear,
                        world.current_tick as int,
                    );
                    lemma_world_changed_at(w_mid, *world, k as int);
                }
            }
            return Ok(None);
        }
        match world.tracked_players[k].input {
            None => Ok(None),
            Some(input) => {
                let ctx = TickContext {
                    input,
                    prev_pos: world.tracked_players[k].prev_pos,
                    practice: world.tracked_players[k].current_practice,
                    killed: world.tracked_players[k].killed_this_tick,
                };
                world.tracked_players[k].killed_this_tick = false;
                proof {
                    assert(updated_at(old(world).tracked_players@, world.tracked_players@, k as int));
                }
                Ok(Some(ctx))
            },
        }
    }
}

/// How a large position jump at the current tick ends the player's region:
/// none when there was no large jump or the player was killed this tick
/// (a respawn); `Teleport` when a teleporter explains it, or practice or
/// sv_rescue allow teleporting; `Kill` when the player landed on a spawn
/// point; `UnknownTeleport` otherwise.
pub open spec fn jump_end_reason(
    map: MapGeometry,
    sv_rescue: bool,
    far: bool,
    killed: bool,
    prev_tile: (i32, i32),
    cur_tile: (i32, i32),
    practice: bool,
) -> Option<RegionEndReason> {
    if !far || killed {
        None
    } else if map_teleport(map, prev_tile, cur_tile) || practice || sv_rescue {
        Some(RegionEndReason::Teleport)
    } else if spawn_position(map, cur_tile) {
        Some(RegionEndReason::Kill)
    } else {
        Some(RegionEndReason::UnknownTeleport)
    }
}

/// A large jump of a player that was not killed, whose current tile lies
/// within one tile (in both axes) of a teleporter exit or of a checkpoint
/// teleporter exit, is a map teleport and ends the region with `Teleport`.
pub proof fn jump_next_to_exit_is_teleport(
    map: MapGeometry,
    sv_rescue: bool,
    prev_tile: (i32, i32),
    cur_tile: (i32, i32),
    practice: bool,
    checkpoint: bool,
    k: int,
)
    requires
        ({
            let exits = if checkpoint { map.tele_checkpoint_outs@ } else { map.tele_outs@ };
            &&& 0 <= k < exits.len()
            &&& -1 <= exits[k].0 - cur_tile.0 <= 1
            &&& -1 <= exits[k].1 - cur_tile.1 <= 1
        }),
    ensures
        map_teleport(map, prev_tile, cur_tile),
        jump_end_reason(map, sv_rescue, true, false, prev_tile, cur_tile, practice) == Some(
            RegionEndReason::Teleport,
        ),
{
    if checkpoint {
        assert(near_exit(map.tele_checkpoint_outs@, cur_tile.0 as int, cur_tile.1 as int));
    } else {
        assert(near_exit(map.tele_outs@, cur_tile.0 as int, cur_tile.1 as int));
    }
}

/// A large jump of a player that was not killed, from a tile within two
/// tiles (in both axes) of a teleporter tile, is a map teleport and ends
/// the region with `Teleport`.
pub proof fn jump_from_tele_tile_is_teleport(
    map: MapGeometry,
    sv_rescue: bool,
    prev_tile: (i32, i32),
    cur_tile: (i32, i32),
    practice: bool,
    dx: int,
    dy: int,
)
    requires
        -2 <= dx <= 2,
        -2 <= dy <= 2,
        has_tele_tile(map, prev_tile.0 + dx, prev_tile.1 + dy),
    ensures
        map_teleport(map, prev_tile, cur_tile),
        jump_end_reason(map, sv_rescue, true, false, prev_tile, cur_tile, practice) == Some(
            RegionEndReason::Teleport,
        ),
{
    assert(tele_tile_near(map, prev_tile.0 as int, prev_tile.1 as int));
}

/// A large jump without any teleporter tile within two tiles of the
/// previous tile, without any (checkpoint) teleporter exit within one tile
/// of the current tile, without practice and without sv_rescue, ends the
/// region with `Kill` when the current tile is a spawn point and with
/// `UnknownTeleport` otherwise; a jump of a killed player, or no large jump,
/// ends nothing.
pub proof fn unexplained_jump_reason(
    map: MapGeometry,
    prev_tile: (i32, i32),
    cur_tile: (i32, i32),
    far: bool,
    killed: bool,
)
    ensures
        !far || killed ==> jump_end_reason(map, false, far, killed, prev_tile, cur_tile, false) is None,
        far && !killed && (forall|dx: int, dy: int|
            -2 <= dx <= 2 && -2 <= dy <= 2 ==> !#[trigger] has_tele_tile(
                map,
                prev_tile.0 + dx,
                prev_tile.1 + dy,
            )) && (forall|k: int|
            0 <= k < map.tele_outs@.len() ==> !(-1 <= (#[trigger] map.tele_outs@[k]).0 - cur_tile.0 <= 1 && -1
                <= map.tele_outs@[k].1 - cur_tile.1 <= 1)) && (forall|k: int|
            0 <= k < map.tele_checkpoint_outs@.len() ==> !(-1 <= (#[trigger] map.tele_checkpoint_outs@[k]).0
                - cur_tile.0 <= 1 && -1 <= map.tele_checkpoint_outs@[k].1 - cur_tile.1 <= 1)) ==> jump_end_reason(
            map,
            false,
            far,
            killed,
            prev_tile,
            cur_tile,
            false,
        ) == if exists|k: int| 0 <= k < map.spawn_points@.len() && #[trigger] map.spawn_points@[k] == cur_tile {
            Some(RegionEndReason::Kill)
        } else {
            Some(RegionEndReason::UnknownTeleport)
        },
{
}

/// At least one pending `/practice` request comes from a tracked player on team `t`,
/// and `t` is not team 0 (no team), which cannot practice.
pub open spec fn practice_requested(players: Seq<TrackedPlayer>, pending: Seq<i32>, t: i32) -> bool {
    &&& t != 0
    &&& exists|i: int|
        0 <= i < pending.len() && has_player(players, #[trigger] pending[i] as u32)
            && players[player_index(players, pending[i] as u32)].current_team == t
}

impl CaptureState {
    /// Classify a large position jump of a tracked player at the current
    /// tick (`far`: the squared distance exceeded the threshold; tiles are
    /// the truncated previous and current positions) and close its region
    /// with the reason found, if any.
    pub fn resolve_position_jump(
        &self,
        world: &mut World,
        snap_id: u32,
        far: bool,
        killed: bool,
        prev_tile: (i32, i32),
        cur_tile: (i32, i32),
        practice: bool,
    ) -> (reason: Option<RegionEndReason>)
        requires
            self.wf(),
            old(world).wf(),
            has_player(old(world).tracked_players@, snap_id),
            self.current_tick > i64::MIN,
        ensures
            reason == jump_end_reason(self.map, self.sv_rescue, far, killed, prev_tile, cur_tile, practice),
            final(world).wf(),
            final(world).current_tick == old(world).current_tick,
            final(world).completed_players@ == old(world).completed_players@,
            final(world).map_name@ == old(world).map_name@,
            reason is None ==> final(world).tracked_players@ == old(world).tracked_players@,
            reason matches Some(r) ==> {
                let k = player_index(old(world).tracked_players@, snap_id);
                &&& updated_at(old(world).tracked_players@, final(world).tracked_players@, k)
                &&& crate::world::region_closed(
                    old(world).tracked_players@[k],
                    final(world).tracked_players@[k],
                    self.current_tick,
                    r,
                )
                &&& final(world).tracked_players@[k].killed_this_tick
                    == old(world).tracked_players@[k].killed_this_tick
            },
            world_keeps_up(*old(world)) && self.current_tick == old(world).current_tick ==> world_keeps_up(
                *final(world),
            ),
            team_zero_idle(*old(world)) ==> team_zero_idle(*final(world)),
    {
        if !far || killed {
            return None;
        }
        let reason = if self.map.is_map_teleport(prev_tile, cur_tile) || practice || self.sv_rescue {
            RegionEndReason::Teleport
        } else if self.map.is_spawn_position(cur_tile) {
            RegionEndReason::Kill
        } else {
            RegionEndReason::UnknownTeleport
        };
        let k = match world.find_tracked(snap_id) {
            Some(k) => k,
            None => {
                return Some(reason);
            },
        };
        world.tracked_players[k].close_region(self.current_tick, reason);
        proof {
            assert(updated_at(old(world).tracked_players@, world.tracked_players@, k as int));
            if world_keeps_up(*old(world)) && self.current_tick == old(world).current_tick {
                crate::tracking::lemma_close_keeps_active(
                    old(world).tracked_players@[k as int],
                    world.tracked_players@[k as int],
                    self.current_tick,
                    reason,
                    self.current_tick as int,
                );
                lemma_world_changed_at(*old(world), *world, k as int);
            }
        }
        Some(reason)
    }

    /// Pending `/practice` requests enable practice for the requesting
    /// players' teams (never for team 0), and every tracked player on a
    /// practicing team has practice set. Nothing changes when no request is
    /// pending.
    fn apply_practice_requests(&mut self, world: &mut World)
        requires
            old(self).wf(),
            old(world).wf(),
        ensures
            final(self).wf(),
            final(world).wf(),
            final(self).current_tick == old(self).current_tick,
            final(self).sv_rescue == old(self).sv_rescue,
            final(self).map == old(self).map,
            final(world).current_tick == old(world).current_tick,
            final(world).completed_players@ == old(world).completed_players@,
            final(world).map_name@ == old(world).map_name@,
            old(self).pending_practice_players@.len() == 0 ==> {
                &&& final(self).pending_practice_players@ == old(self).pending_practice_players@
                &&& final(self).practice_teams@ == old(self).practice_teams@
                &&& final(world).tracked_players@ == old(world).tracked_players@
            },
            old(self).pending_practice_players@.len() > 0 ==> {
                &&& final(self).pending_practice_players@ == Seq::<i32>::empty()
                &&& forall|t: i32| #[trigger]
                    final(self).practice_teams@.contains(t) <==> (old(self).practice_teams@.contains(t)
                        || practice_requested(
                        old(world).tracked_players@,
                        old(self).pending_practice_players@,
                        t,
                    ))
                &&& final(world).tracked_players@.len() == old(world).tracked_players@.len()
                &&& forall|j: int|
                    0 <= j < old(world).tracked_players@.len() ==> {
                        let a = old(world).tracked_players@[j];
                        let b = #[trigger] final(world).tracked_players@[j];
                        &&& b == TrackedPlayer { current_practice: b.current_practice, ..a }
                        &&& b.current_practice == (a.current_practice
                            || final(self).practice_teams@.contains(a.current_team))
                    }
            },
            world_keeps_up(*old(world)) ==> world_keeps_up(*final(world)),
    {
        if self.pending_practice_players.len() == 0 {
            return;
        }
        let ghost pending = self.pending_practice_players@;
        let ghost players = world.tracked_players@;
        let mut i: usize = 0;
        while i < self.pending_practice_players.len()
            invariant
                i <= pending.len(),
                self.pending_practice_players@ == pending,
                world.tracked_players@ == players,
                world.wf(),
                self.wf(),
                self.current_tick == old(self).current_tick,
                self.sv_rescue == old(self).sv_rescue,
                self.map == old(self).map,
                forall|t: i32| #[trigger]
                    self.practice_teams@.contains(t) <==> (old(self).practice_teams@.contains(t)
                        || practice_requested(players, pending.take(i as int), t)),
                world.current_tick == old(world).current_tick,
                world.completed_players@ == old(world).completed_players@,
                world.map_name@ == old(world).map_name@,
            decreases pending.len() - i,
        {
            let pid = self.pending_practice_players[i];
            let ghost before = self.practice_teams@;
            let found = world.find_tracked(pid as u32);
            let ghost mut added: Option<i32> = None;
            match found {
                Some(k) => {
                    let t = world.tracked_players[k].current_team;
                    if t != 0 && !self.team_practices(t) {
                        self.practice_teams.push(t);
                        proof {
                            added = Some(t);
                            assert forall|x: int, y: int|
                                0 <= x < self.practice_teams@.len() && 0 <= y < self.practice_teams@.len() && x
                                    != y implies self.practice_teams@[x] != self.practice_teams@[y] by {
                                if x < before.len() && y < before.len() {
                                } else if x < before.len() {
                                    assert(before.contains(before[x]));
                                } else {
                                    assert(before.contains(before[y]));
                                }
                            }
                        }
                    }
                },
                None => {},
            }
            proof {
                let pt = pending.take(i + 1);
                let pi = pending.take(i as int);
                assert(pt[i as int] == pid);
                assert forall|u: i32| #[trigger] self.practice_teams@.contains(u) <==> (before.contains(u) || added == Some(u)) by {
                    if added == Some(u) {
                        assert(self.practice_teams@[self.practice_teams@.len() - 1] == u);
                    }
                    if self.practice_teams@.contains(u) && !before.contains(u) {
                        if added is None {
                            assert(self.practice_teams@ == before);
                        } else {
                            let x = choose|x: int| 0 <= x < self.practice_teams@.len() && self.practice_teams@[x] == u;
                            if x < before.len() {
                                assert(before.contains(u));
                            }
                        }
                    }
                    if before.contains(u) && added is Some {
                        let x = choose|x: int| 0 <= x < before.len() && before[x] == u;
                        assert(self.practice_teams@[x] == u);
                    }
                }
                assert forall|u: i32| #[trigger] practice_requested(players, pi, u) implies practice_requested(players, pt, u) by {
                    let x = choose|x: int|
                        0 <= x < pi.len() && has_player(players, #[trigger] pi[x] as u32)
                            && players[player_index(players, pi[x] as u32)].current_team == u;
                    assert(pt[x] == pi[x]);
                }
                assert forall|u: i32| #[trigger] practice_requested(players, pt, u) implies practice_requested(players, pi, u)
                    || (found is Some && u != 0 && players[player_index(players, pid as u32)].current_team == u) by {
                    let x = choose|x: int|
                        0 <= x < pt.len() && has_player(players, #[trigger] pt[x] as u32)
                            && players[player_index(players, pt[x] as u32)].current_team == u;
                    if x < i {
                        assert(pt[x] == pi[x]);
                    }
                }
                if let Some(t) = added {
                    assert(has_player(players, pid as u32));
                    assert(practice_requested(players, pt, t));
                }
                assert forall|u: i32| #[trigger] self.practice_teams@.contains(u) <==> (old(self).practice_teams@.contains(u)
                    || practice_requested(players, pt, u)) by {
                    if practice_requested(players, pt, u) && !practice_requested(players, pi, u) {
                        if !before.contains(u) {
                            assert(added == Some(u));
                        }
                    }
                    if practice_requested(players, pi, u) {
                        assert(practice_requested(players, pt, u));
                    }
                }
            }
            i = i + 1;
        }
        proof {
            assert(pending.take(pending.len() as int) =~= pending);
        }
        self.pending_practice_players.clear();
        let ghost teams = self.practice_teams@;
        let mut j: usize = 0;
        while j < world.tracked_players.len()
            invariant
                j <= world.tracked_players@.len(),
                world.tracked_players@.len() == players.len(),
                self.wf(),
                self.practice_teams@ == teams,
                self.pending_practice_players@ == Seq::<i32>::empty(),
                self.current_tick == old(self).current_tick,
                self.sv_rescue == old(self).sv_rescue,
                self.map == old(self).map,
                world.current_tick == old(world).current_tick,
                world.completed_players@ == old(world).completed_players@,
                world.map_name@ == old(world).map_name@,
                forall|jj: int|
                    0 <= jj < players.len() ==> {
                        let a = players[jj];
                        let b = #[trigger] world.tracked_players@[jj];
                        &&& b == TrackedPlayer { current_practice: b.current_practice, ..a }
                        &&& jj < j ==> b.current_practice == (a.current_practice
                            || self.practice_teams@.contains(a.current_team))
                        &&& jj >= j ==> b.current_practice == a.current_practice
                    },
            decreases world.tracked_players@.len() - j,
        {
            let team = world.tracked_players[j].current_team;
            if self.team_practices(team) {
                world.tracked_players[j].set_practice();
            }
            j = j + 1;
        }
        proof {
            assert forall|x: int, y: int|
                0 <= x < world.tracked_players@.len() && 0 <= y < world.tracked_players@.len() && (
                #[trigger] world.tracked_players@[x]).player_id == (
                #[trigger] world.tracked_players@[y]).player_id implies x == y by {
                assert(world.tracked_players@[x].player_id == players[x].player_id);
                assert(world.tracked_players@[y].player_id == players[y].player_id);
            }
            if world_keeps_up(*old(world)) {
                assert forall|x: int| 0 <= x < world.tracked_players@.len() implies active_keeps_up(
                    #[trigger] world.tracked_players@[x],
                    world.current_tick as int,
                ) by {
                    assert(active_keeps_up(players[x], world.current_tick as int));
                }
            }
        }
    }

    /// Every tracked player has practice set (on a server with `sv_rescue`).
    fn practice_everyone(&self, world: &mut World)
        requires
            old(world).wf(),
        ensures
            final(world).wf(),
            final(world).current_tick == old(world).current_tick,
            final(world).completed_players@ == old(world).completed_players@,
            final(world).map_name@ == old(world).map_name@,
            final(world).tracked_players@.len() == old(world).tracked_players@.len(),
            forall|j: int|
                0 <= j < old(world).tracked_players@.len() ==> #[trigger] final(world).tracked_players@[j]
                    == (TrackedPlayer { current_practice: true, ..old(world).tracked_players@[j] }),
            world_keeps_up(*old(world)) ==> world_keeps_up(*final(world)),
    {
        let ghost players = world.tracked_players@;
        let mut j: usize = 0;
        while j < world.tracked_players.len()
            invariant
                j <= world.tracked_players@.len(),
                world.tracked_players@.len() == players.len(),
                players == old(world).tracked_players@,
                world.current_tick == old(world).current_tick,
                world.completed_players@ == old(world).completed_players@,
                world.map_name@ == old(world).map_name@,
                forall|x: int|
                    0 <= x < players.len() ==> #[trigger] world.tracked_players@[x] == if x < j {
                        TrackedPlayer { current_practice: true, ..players[x] }
                    } else {
                        players[x]
                    },
            decreases world.tracked_players@.len() - j,
        {
            world.tracked_players[j].set_practice();
            j = j + 1;
        }
        proof {
            assert forall|x: int, y: int|
                0 <= x < world.tracked_players@.len() && 0 <= y < world.tracked_players@.len() && (
                #[trigger] world.tracked_players@[x]).player_id == (
                #[trigger] world.tracked_players@[y]).player_id implies x == y by {
                assert(world.tracked_players@[x].player_id == players[x].player_id);
                assert(world.tracked_players@[y].player_id == players[y].player_id);
            }
            if world_keeps_up(*old(world)) {
                assert forall|x: int| 0 <= x < world.tracked_players@.len() implies active_keeps_up(
                    #[trigger] world.tracked_players@[x],
                    world.current_tick as int,
                ) by {
                    assert(active_keeps_up(players[x], world.current_tick as int));
                }
            }
        }
    }

    /// The snapshot is complete: pending `/practice` requests enable practice
    /// for the requesting players' teams (never for team 0), and every
    /// tracked player on a practicing team has practice set; with
    /// `sv_rescue`, every tracked player has practice set. Nothing changes
    /// when no request is pending and `sv_rescue` is off.
    pub fn finish_snap(&mut self, world: &mut World)
        requires
            old(self).wf(),
            old(world).wf(),
        ensures
            final(self).wf(),
            final(world).wf(),
            final(self).current_tick == old(self).current_tick,
            final(self).sv_rescue == old(self).sv_rescue,
            final(self).map == old(self).map,
            final(world).current_tick == old(world).current_tick,
            final(world).completed_players@ == old(world).completed_players@,
            final(world).map_name@ == old(world).map_name@,
            old(self).pending_practice_players@.len() == 0 ==> {
                &&& final(self).pending_practice_players@ == old(self).pending_practice_players@
                &&& final(self).practice_teams@ == old(self).practice_teams@
            },
            old(self).pending_practice_players@.len() == 0 && !old(self).sv_rescue ==> final(world).tracked_players@
                == old(world).tracked_players@,
            old(self).pending_practice_players@.len() > 0 ==> {
                &&& final(self).pending_practice_players@ == Seq::<i32>::empty()
                &&& forall|t: i32| #[trigger]
                    final(self).practice_teams@.contains(t) <==> (old(self).practice_teams@.contains(t)
                        || practice_requested(
                        old(world).tracked_players@,
                        old(self).pending_practice_players@,
                        t,
                    ))
            },
            final(world).tracked_players@.len() == old(world).tracked_players@.len(),
            forall|j: int|
                0 <= j < old(world).tracked_players@.len() ==> {
                    let a = old(world).tracked_players@[j];
                    let b = #[trigger] final(world).tracked_players@[j];
                    &&& b == TrackedPlayer { current_practice: b.current_practice, ..a }
                    &&& b.current_practice == (a.current_practice || (old(self).pending_practice_players@.len() > 0
                        && final(self).practice_teams@.contains(a.current_team)) || old(self).sv_rescue)
                },
            world_keeps_up(*old(world)) ==> world_keeps_up(*final(world)),
            team_zero_idle(*old(world)) && !old(self).sv_rescue ==> team_zero_idle(*final(world)),
    {
        let ghost w0 = *world;
        self.apply_practice_requests(world);
        let ghost w1 = *world;
        if self.sv_rescue {
            self.practice_everyone(world);
        }
        proof {
            assert forall|j: int| 0 <= j < w0.tracked_players@.len() implies {
                let a = w0.tracked_players@[j];
                let b = #[trigger] world.tracked_players@[j];
                &&& b == TrackedPlayer { current_practice: b.current_practice, ..a }
                &&& b.current_practice == (a.current_practice || (old(self).pending_practice_players@.len() > 0
                    && self.practice_teams@.contains(a.current_team)) || old(self).sv_rescue)
            } by {
                if old(self).pending_practice_players@.len() == 0 {
                    assert(w1.tracked_players@[j] == w0.tracked_players@[j]);
                } else {
                    assert(w1.tracked_players@[j] == TrackedPlayer { current_practice: w1.tracked_players@[j].current_practice, ..w0.tracked_players@[j] });
                }
            }
        }
    }
}

/// The recorded ticks after AFK removal (when a threshold is given).
pub open spec fn afk_removed(data: Seq<TickData>, afk_ticks: Option<usize>) -> Seq<TickData> {
    match afk_ticks {
        Some(t) => without_afk(data, t as nat, data.len() as int),
        None => data,
    }
}

/// A recorded player's regions made final: split on the tick gaps of the
/// recorded data (`Spectate`); after AFK removal, split on the new gaps
/// (`Afk`); resolved to indices into the remaining data; and with the
/// regions that kept no data dropped.
pub open spec fn cleaned_regions(
    regions: Seq<ActiveRegion>,
    data: Seq<TickData>,
    afk_ticks: Option<usize>,
) -> Seq<ActiveRegion> {
    let spectate_split = split_on_gaps(regions, data, RegionEndReason::Spectate);
    let kept = afk_removed(data, afk_ticks);
    let afk_split = match afk_ticks {
        Some(_) => split_on_gaps(spectate_split, kept, RegionEndReason::Afk),
        None => spectate_split,
    };
    let indexed = if kept.len() == 0 {
        afk_split
    } else {
        resolved_all(afk_split, kept)
    };
    regions_with_data(indexed)
}

/// Turn a recorded player's completed regions and data into the final
/// regions and data of its sequence (see `cleaned_regions`).
pub fn clean_player_regions(
    regions: Vec<ActiveRegion>,
    data: &mut Vec<TickData>,
    afk_ticks: Option<usize>,
) -> (res: Vec<ActiveRegion>)
    ensures
        final(data)@ == afk_removed(old(data)@, afk_ticks),
        res@ == cleaned_regions(regions@, old(data)@, afk_ticks),
{
    // tick gaps before AFK removal come from spectating
    let mut regions = split_regions_on_gaps(regions, data.as_slice(), RegionEndReason::Spectate);
    match afk_ticks {
        Some(threshold) => {
            drop_afk_ticks(data, threshold);
            // new tick gaps after AFK removal are AFK gaps
            regions = split_regions_on_gaps(regions, data.as_slice(), RegionEndReason::Afk);
        },
        None => {},
    }
    resolve_region_indices(regions.as_mut_slice(), data.as_slice());
    drop_regions_without_data(&mut regions);
    regions
}

/// The recorded players that have at least one tick of data, in order.
pub open spec fn players_with_data(ps: Seq<TrackedPlayer>) -> Seq<TrackedPlayer>
    decreases ps.len(),
{
    if ps.len() == 0 {
        Seq::empty()
    } else {
        let before = players_with_data(ps.drop_last());
        if ps.last().data@.len() > 0 {
            before.push(ps.last())
        } else {
            before
        }
    }
}

/// `s` is the sequence built from the recorded player `p`.
pub open spec fn sequence_of(
    p: TrackedPlayer,
    s: PlayerSequence,
    afk_ticks: Option<usize>,
    time_of_day: Seq<char>,
    map_name: Seq<char>,
) -> bool {
    &&& s.player_name@ == p.name@
    &&& s.team == p.team
    &&& s.finishes@ == p.finishes@
    &&& s.start_tick == p.data@[0].tick
    &&& s.end_tick == p.data@.last().tick
    &&& s.time_of_day@ == time_of_day
    &&& s.map_name@ == map_name
    &&& s.data@ == afk_removed(p.data@, afk_ticks)
    &&& s.active_regions@ == cleaned_regions(p.completed_regions@, p.data@, afk_ticks)
    &&& s.timeout_code == p.timeout_code
}

/// Convert recorded players (in order) into player sequences: players
/// without data are skipped; every other player gives one sequence with
/// its first and last recorded tick (before AFK removal), its data after
/// AFK removal and its cleaned regions.
pub fn build_sequences(
    players: Vec<TrackedPlayer>,
    afk_ticks: Option<usize>,
    time_of_day: String,
    map_name: String,
) -> (sequences: Vec<PlayerSequence>)
    requires
        forall|j: int| 0 <= j < players@.len() ==> (#[trigger] players@[j]).name@.len() > 0,
    ensures
        sequences@.len() == players_with_data(players@).len(),
        forall|i: int|
            0 <= i < sequences@.len() ==> sequence_of(
                players_with_data(players@)[i],
                #[trigger] sequences@[i],
                afk_ticks,
                time_of_day@,
                map_name@,
            ),
        (forall|j: int| 0 <= j < players@.len() ==> regions_cover_data(#[trigger] players@[j])) ==> forall|i: int|
            0 <= i < sequences@.len() ==> partitions_indices(
                (#[trigger] sequences@[i]).active_regions@,
                sequences@[i].data@.len() as int,
            ) && ticks_increasing(sequences@[i].data@),
{
    let ghost all = players@;
    let total = players.len();
    let mut players = players;
    let mut sequences: Vec<PlayerSequence> = Vec::new();
    let mut i: usize = 0;
    while players.len() > 0
        invariant
            i + players@.len() == all.len(),
            all.len() == total,
            players@ == all.skip(i as int),
            sequences@.len() == players_with_data(all.take(i as int)).len(),
            forall|x: int|
                0 <= x < sequences@.len() ==> sequence_of(
                    players_with_data(all.take(i as int))[x],
                    #[trigger] sequences@[x],
                    afk_ticks,
                    time_of_day@,
                    map_name@,
                ),
            (forall|j: int| 0 <= j < all.len() ==> regions_cover_data(#[trigger] all[j])) ==> forall|x: int|
                0 <= x < sequences@.len() ==> partitions_indices(
                    (#[trigger] sequences@[x]).active_regions@,
                    sequences@[x].data@.len() as int,
                ) && ticks_increasing(sequences@[x].data@),
        decreases players@.len(),
    {
        let player = players.remove(0);
        proof {
            assert(player == all[i as int]);
            assert(players@ =~= all.skip(i + 1));
            assert(all.take(i + 1).drop_last() =~= all.take(i as int));
            assert(all.take(i + 1).last() == player);
        }
        let ghost before = sequences@;
        if player.data.len() > 0 {
            let start_tick = player.data[0].tick;
            let end_tick = player.data[player.data.len() - 1].tick;
            let ghost p = player;
            let n_data = player.data.len();
            let TrackedPlayer { name, team, finishes, data, completed_regions, timeout_code, .. } = player;
            let mut data = data;
            let active_regions = clean_player_regions(completed_regions, &mut data, afk_ticks);
            sequences.push(
                PlayerSequence {
                    player_name: name,
                    team,
                    finishes,
                    start_tick,
                    end_tick,
                    time_of_day: time_of_day.clone(),
                    map_name: map_name.clone(),
                    data,
                    active_regions,
                    timeout_code,
                },
            );
            proof {
                assert forall|x: int| 0 <= x < sequences@.len() implies sequence_of(
                    players_with_data(all.take(i + 1))[x],
                    #[trigger] sequences@[x],
                    afk_ticks,
                    time_of_day@,
                    map_name@,
                ) by {
                    if x < before.len() {
                        assert(sequences@[x] == before[x]);
                    }
                }
                if forall|j: int| 0 <= j < all.len() ==> regions_cover_data(#[trigger] all[j]) {
                    assert(regions_cover_data(all[i as int]));
                    assert(p.data@.len() == n_data);
                    cleaned_regions_partition_data(p.completed_regions@, p.data@, afk_ticks);
                    if let Some(t) = afk_ticks {
                        afk_removal_keeps_ticks_covered(p.completed_regions@, p.data@, t as nat);
                    }
                    assert forall|x: int| 0 <= x < sequences@.len() implies partitions_indices(
                        (#[trigger] sequences@[x]).active_regions@,
                        sequences@[x].data@.len() as int,
                    ) && ticks_increasing(sequences@[x].data@) by {
                        if x < before.len() {
                            assert(sequences@[x] == before[x]);
                        }
                    }
                }
            }
        }
        i = i + 1;
    }
    proof {
        assert(all.take(i as int) =~= all);
    }
    sequences
}

/// Name for the SHA-256 digest of a byte string.
pub uninterp spec fn sha256_digest(data: Seq<u8>) -> Seq<u8>;

/// `<sha2::Sha256 as sha2::Digest>::digest`: the SHA-256 digest of the
/// bytes, which is 32 bytes long.
#[verifier::external_body]
fn sha256(data: &[u8]) -> (digest: Vec<u8>)
    ensures
        digest@ == sha256_digest(data@),
        digest@.len() == 32,
{
    <sha2::Sha256 as sha2::Digest>::digest(data).to_vec()
}

/// Lower-case hexadecimal digit of a value below 16.
pub open spec fn hex_digit(n: u8) -> char {
    if n < 10 {
        ('0' as u8 + n) as char
    } else {
        ('a' as u8 + (n - 10)) as char
    }
}

/// Lower-case hexadecimal text of the bytes, two digits per byte.
pub open spec fn hex_lower(bytes: Seq<u8>) -> Seq<char>
    decreases bytes.len(),
{
    if bytes.len() == 0 {
        Seq::empty()
    } else {
        hex_lower(bytes.drop_last()) + seq![
            hex_digit(bytes.last() / 16),
            hex_digit(bytes.last() % 16),
        ]
    }
}

fn hex_digit_char(n: u8) -> (c: char)
    requires
        n < 16,
    ensures
        c == hex_digit(n),
{
    match n {
        0 => '0',
        1 => '1',
        2 => '2',
        3 => '3',
        4 => '4',
        5 => '5',
        6 => '6',
        7 => '7',
        8 => '8',
        9 => '9',
        10 => 'a',
        11 => 'b',
        12 => 'c',
        13 => 'd',
        14 => 'e',
        _ => 'f',
    }
}

/// Lower-case hexadecimal text of the bytes.
pub fn to_hex_lower(bytes: &[u8]) -> (s: String)
    ensures
        s@ == hex_lower(bytes@),
{
    let mut s = String::new();
    let mut i: usize = 0;
    while i < bytes.len()
        invariant
            i <= bytes@.len(),
            s@ == hex_lower(bytes@.take(i as int)),
        decreases bytes@.len() - i,
    {
        let b = bytes[i];
        proof {
            assert(bytes@.take(i + 1).drop_last() =~= bytes@.take(i as int));
            assert(bytes@.take(i + 1).last() == b);
        }
        push_char(&mut s, hex_digit_char(b / 16));
        push_char(&mut s, hex_digit_char(b % 16));
        proof {
            assert(s@ =~= hex_lower(bytes@.take(i + 1)));
        }
        i = i + 1;
    }
    proof {
        assert(bytes@.take(bytes@.len() as int) =~= bytes@);
    }
    s
}

/// A map whose SHA-256 digest is not the one the recording names.
#[derive(Debug, Clone)]
pub struct MapHashMismatch {
    /// The digest named by the recording.
    pub expected: String,
    /// The digest of the map file (lower-case hex).
    pub actual: String,
}

/// Check a map digest against the digest (lower-case hex) that the
/// recording names, if it names one.
pub fn check_map_digest(digest: &[u8], expected: Option<&str>) -> (res: Result<(), MapHashMismatch>)
    ensures
        match expected {
            None => res is Ok,
            Some(e) => {
                &&& (res is Ok <==> e@ == hex_lower(digest@))
                &&& res matches Err(m) ==> m.expected@ == e@ && m.actual@ == hex_lower(digest@)
            },
        },
{
    match expected {
        None => Ok(()),
        Some(e) => {
            let actual = to_hex_lower(digest);
            let expected_hash = String::from_str(e);
            if actual == expected_hash {
                Ok(())
            } else {
                Err(MapHashMismatch { expected: expected_hash, actual })
            }
        },
    }
}

/// Verify the SHA-256 digest of map data against the digest the
/// recording names, if it names one.
pub fn verify_map_hash(map_data: &[u8], expected: Option<&str>) -> (res: Result<(), MapHashMismatch>)
    ensures
        match expected {
            None => res is Ok,
            Some(e) => {
                &&& (res is Ok <==> e@ == hex_lower(sha256_digest(map_data@)))
                &&& res matches Err(m) ==> m.expected@ == e@ && m.actual@ == hex_lower(
                    sha256_digest(map_data@),
                )
            },
        },
{
    match expected {
        None => Ok(()),
        Some(_) => {
            let digest = sha256(map_data);
            check_map_digest(digest.as_slice(), expected)
        },
    }
}

#[verifier::external_type_specification]
#[verifier::external_body]
pub struct ExTwgameMap(twgame::Map);

/// A map geometry as plain parts: the teleporter layer (width, height,
/// cells), the teleporter exits, the checkpoint teleporter exits and the
/// spawn points.
pub open spec fn geometry_parts(m: MapGeometry) -> (
    Option<(usize, usize, Seq<bool>)>,
    Seq<(i32, i32)>,
    Seq<(i32, i32)>,
    Seq<(i32, i32)>,
) {
    (
        match m.tele_layer {
            Some(g) => Some((g.width, g.height, g.cells@)),
            None => None,
        },
        m.tele_outs@,
        m.tele_checkpoint_outs@,
        m.spawn_points@,
    )
}

/// The teleporter layer of the parts has dimensions that fit tile
/// coordinates, and one cell per tile.
pub open spec fn parts_wf(
    p: (Option<(usize, usize, Seq<bool>)>, Seq<(i32, i32)>, Seq<(i32, i32)>, Seq<(i32, i32)>),
) -> bool {
    p.0 matches Some(l) ==> 1 <= l.0 <= i32::MAX && 1 <= l.1 <= i32::MAX && l.2.len() == l.0 * l.1
}

/// Name for the geometry that decoding map bytes gives, if they decode.
pub uninterp spec fn decoded_geometry(data: Seq<u8>) -> Option<
    (Option<(usize, usize, Seq<bool>)>, Seq<(i32, i32)>, Seq<(i32, i32)>, Seq<(i32, i32)>),
>;

/// `twmap::TwMap::parse` followed by `twgame::Map::try_from`: `None` when
/// either fails, otherwise the decoded map and its geometry, read row by
/// row from the teleporter layer and with the exits and spawn points of
/// all teleporter numbers and spawn kinds in order. (A map that passes the
/// checks of `TwMap::parse` has the game layer that `Map::try_from`
/// expects.) Nothing is stated of the decoded map itself.
#[verifier::external_body]
fn decode_map(data: &[u8]) -> (res: Option<(twgame::Map, MapGeometry)>)
    ensures
        res is Some <==> decoded_geometry(data@) is Some,
        res matches Some(r) ==> geometry_parts(r.1) == decoded_geometry(data@).unwrap(),
{
    let mut parsed = twmap::TwMap::parse(data).ok()?;
    let m = twgame::Map::try_from(&mut parsed).ok()?;
    let pts = |s: &[Vec<vek::Vec2<i32>>]| s.iter().flatten().map(|p| (p.x, p.y)).collect();
    let tele_layer = m.tele_layer.as_ref().map(
        |l| TileGrid { width: l.ncols(), height: l.nrows(), cells: l.iter().map(Option::is_some).collect() },
    );
    let (tele_outs, tele_checkpoint_outs) = (pts(&m.tele_outs), pts(&m.tele_checkpoint_outs));
    let spawn_points = pts(&m.spawn_points);
    Some((m, MapGeometry { tele_layer, tele_outs, tele_checkpoint_outs, spawn_points }))
}

/// Why a map could not be loaded.
#[derive(Debug)]
pub enum MapLoadError {
    /// The map's digest is not the one the recording names.
    HashMismatch(MapHashMismatch),
    /// The bytes are not a map that decodes.
    Undecodable,
    /// The teleporter layer's dimensions do not fit tile coordinates.
    TeleLayerOutOfRange,
}

/// Load a map from its bytes: the digest is checked against the one the
/// recording names (if any), then the map is decoded. Ok exactly when the
/// digest matches and the bytes decode to a geometry whose teleporter
/// layer fits tile coordinates; the geometry is then the decoded one.
pub fn load_map(map_data: &[u8], expected_sha256: Option<&str>) -> (res: Result<(twgame::Map, MapGeometry), MapLoadError>)
    ensures
        match expected_sha256 {
            Some(e) => e@ != hex_lower(sha256_digest(map_data@)) ==> (res matches Err(MapLoadError::HashMismatch(m))
                && m.expected@ == e@ && m.actual@ == hex_lower(sha256_digest(map_data@))),
            None => true,
        },
        (match expected_sha256 {
            Some(e) => e@ == hex_lower(sha256_digest(map_data@)),
            None => true,
        }) ==> match decoded_geometry(map_data@) {
            None => res matches Err(MapLoadError::Undecodable),
            Some(p) => if parts_wf(p) {
                res matches Ok(r) && geometry_parts(r.1) == p && r.1.wf()
            } else {
                res matches Err(MapLoadError::TeleLayerOutOfRange)
            },
        },
{
    match verify_map_hash(map_data, expected_sha256) {
        Err(m) => {
            return Err(MapLoadError::HashMismatch(m));
        },
        Ok(()) => {},
    }
    let (map, geometry) = match decode_map(map_data) {
        Some(d) => d,
        None => {
            return Err(MapLoadError::Undecodable);
        },
    };
    let fits = match &geometry.tele_layer {
        Some(g) => {
            if 1 <= g.width && g.width <= 0x7fff_ffff && 1 <= g.height && g.height <= 0x7fff_ffff {
                let w = g.width as u64;
                let h = g.height as u64;
                assert(w * h <= 0x7fff_ffff * 0x7fff_ffff) by (nonlinear_arith)
                    requires
                        w <= 0x7fff_ffff,
                        h <= 0x7fff_ffff,
                ;
                g.cells.len() as u64 == w * h
            } else {
                false
            }
        },
        None => true,
    };
    if !fits {
        return Err(MapLoadError::TeleLayerOutOfRange);
    }
    Ok((map, geometry))
}

} // verus!
