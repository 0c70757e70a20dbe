//! Per-player state during a replay and the decisions taken on replay
//! events (joins, inputs, kills, team swaps, leaves, finishes, console
//! commands): which regions close, when, and with what metadata.
use vstd::prelude::*;
use crate::sequence::{region, ActiveRegion, FinishInfo, RegionEndReason, TickData};
use crate::tracking::{
    active_keeps_up, data_before, fresh_player_keeps_up, lemma_close_keeps_active, lemma_leave_covers,
    lemma_world_changed_at, recording_tick_keeps_up, regions_cover_data, world_keeps_up, team_zero_idle,
    lemma_idle_changed_at,
};

verus! {

/// Player input state (the parts of a replay input the extractor uses).
#[derive(Debug, Clone, Copy)]
pub struct InputState {
    pub direction: i32,
    pub target_x: i32,
    pub target_y: i32,
    pub jump: bool,
    pub fire: bool,
    pub hook: bool,
}

impl Default for InputState {
    fn default() -> (s: Self)
        ensures
            s == (InputState { direction: 0, target_x: 0, target_y: 0, jump: false, fire: false, hook: false }),
    {
        InputState { direction: 0, target_x: 0, target_y: 0, jump: false, fire: false, hook: false }
    }
}

impl InputState {
    /// Input state from raw input values: the jump and hook flags are the
    /// lowest bit of their raw values, `fire` is whether the player is firing.
    pub fn from_raw(direction: i32, target_x: i32, target_y: i32, jump: i32, fire: bool, hook: i32) -> (s: Self)
        ensures
            s == (InputState {
                direction,
                target_x,
                target_y,
                jump: jump % 2 != 0,
                fire,
                hook: hook % 2 != 0,
            }),
    {
        InputState { direction, target_x, target_y, jump: jump % 2 != 0, fire, hook: hook % 2 != 0 }
    }
}

/// Tracks all data for an active player during replay.
#[derive(Debug)]
pub struct TrackedPlayer {
    pub player_id: u32,
    pub name: String,
    pub team: i32,
    pub input: Option<InputState>,
    pub data: Vec<TickData>,
    pub timeout_code: Option<String>,
    pub finishes: Vec<FinishInfo>,
    /// Start tick of the current active region
    pub current_region_start: i64,
    /// Team during the current active region
    pub current_team: i32,
    /// Whether practice mode is enabled for the current region
    pub current_practice: bool,
    /// Completed active regions
    pub completed_regions: Vec<ActiveRegion>,
    /// Position at the previous recorded tick (bit patterns of `f32` x and y)
    pub prev_pos: Option<(u32, u32)>,
    /// The player was killed during the current tick
    pub killed_this_tick: bool,
}

/// Reasons on which a region ends together with the player's team membership.
pub open spec fn resets_practice(reason: RegionEndReason) -> bool {
    ||| reason == RegionEndReason::TeamChange
    ||| reason == RegionEndReason::Leave
    ||| reason == RegionEndReason::ChangeMap
}

/// The region that closing at `end_tick` adds: it ends on the tick before
/// the event, and is only added when it holds at least one tick.
pub open spec fn closing_region(p: TrackedPlayer, end_tick: i64, reason: RegionEndReason) -> Seq<ActiveRegion> {
    if end_tick - 1 >= p.current_region_start {
        seq![region(p.current_region_start, (end_tick - 1) as i64, p.current_team, p.current_practice, reason)]
    } else {
        Seq::empty()
    }
}

/// All fields but the region bookkeeping and the kill flag agree.
pub open spec fn same_player_record(a: TrackedPlayer, b: TrackedPlayer) -> bool {
    &&& a.player_id == b.player_id
    &&& a.name@ == b.name@
    &&& a.team == b.team
    &&& a.input == b.input
    &&& a.data@ == b.data@
    &&& a.timeout_code == b.timeout_code
    &&& a.finishes@ == b.finishes@
    &&& a.current_team == b.current_team
    &&& a.prev_pos == b.prev_pos
}

/// `after` is `before` with its current region closed at `end_tick`.
pub open spec fn region_closed(
    before: TrackedPlayer,
    after: TrackedPlayer,
    end_tick: i64,
    reason: RegionEndReason,
) -> bool {
    &&& same_player_record(before, after)
    &&& after.completed_regions@ == before.completed_regions@ + closing_region(before, end_tick, reason)
    &&& after.current_region_start == end_tick
    &&& after.current_practice == (if resets_practice(reason) {
        false
    } else {
        before.current_practice
    })
}

impl TrackedPlayer {
    /// A player that became ready at `start_tick`: no name, no team, no
    /// input or data yet, a region open since `start_tick`.
    pub open spec fn is_fresh(&self, player_id: u32, start_tick: i64) -> bool {
        &&& self.player_id == player_id
        &&& self.name@ == Seq::<char>::empty()
        &&& self.team == 0
        &&& self.input is None
        &&& self.data@ == Seq::<TickData>::empty()
        &&& self.timeout_code is None
        &&& self.finishes@ == Seq::<FinishInfo>::empty()
        &&& self.current_region_start == start_tick
        &&& self.current_team == 0
        &&& !self.current_practice
        &&& self.completed_regions@ == Seq::<ActiveRegion>::empty()
        &&& self.prev_pos is None
        &&& !self.killed_this_tick
    }

    /// A player that became ready at `start_tick`.
    pub fn new(player_id: u32, start_tick: i64) -> (p: Self)
        ensures
            p.is_fresh(player_id, start_tick),
    {
        TrackedPlayer {
            player_id,
            name: String::new(),
            team: 0,
            input: None,
            data: Vec::new(),
            timeout_code: None,
            finishes: Vec::new(),
            current_region_start: start_tick,
            current_team: 0,
            current_practice: false,
            completed_regions: Vec::new(),
            prev_pos: None,
            killed_this_tick: false,
        }
    }

    /// Close the current region and start a new one.
    /// `end_tick` is the tick at which the event occurs; the region ends at
    /// `end_tick - 1` and is only recorded when it holds at least one tick.
    /// Practice is per team: it is reset only when the player leaves the team.
    pub fn close_region(&mut self, end_tick: i64, reason: RegionEndReason)
        requires
            end_tick > i64::MIN,
        ensures
            region_closed(*old(self), *final(self), end_tick, reason),
            final(self).killed_this_tick == old(self).killed_this_tick,
    {
        let region_end = end_tick - 1;
        if region_end >= self.current_region_start {
            self.completed_regions.push(
                ActiveRegion::new(
                    self.current_region_start,
                    region_end,
                    self.current_team,
                    self.current_practice,
                    reason,
                ),
            );
        }
        assert(self.completed_regions@ =~= old(self).completed_regions@ + closing_region(
            *old(self),
            end_tick,
            reason,
        ));
        self.current_region_start = end_tick;
        match reason {
            RegionEndReason::TeamChange | RegionEndReason::Leave | RegionEndReason::ChangeMap => {
                self.current_practice = false;
            },
            _ => {},
        }
    }

    /// Set practice mode for the current region
    pub fn set_practice(&mut self)
        ensures
            *final(self) == (TrackedPlayer { current_practice: true, ..*old(self) }),
    {
        self.current_practice = true;
    }
}

/// Some player in the list has the id.
pub open spec fn has_player(ps: Seq<TrackedPlayer>, id: u32) -> bool {
    exists|k: int| 0 <= k < ps.len() && (#[trigger] ps[k]).player_id == id
}

/// The position of the player with the id (meaningful when `has_player`).
pub open spec fn player_index(ps: Seq<TrackedPlayer>, id: u32) -> int {
    choose|k: int| 0 <= k < ps.len() && (#[trigger] ps[k]).player_id == id
}

/// No two players in the list share an id.
pub open spec fn ids_unique(ps: Seq<TrackedPlayer>) -> bool {
    forall|i: int, j: int|
        0 <= i < ps.len() && 0 <= j < ps.len() && (#[trigger] ps[i]).player_id == (#[trigger] ps[j]).player_id
            ==> i == j
}

/// `after` equals `before` except possibly at position `k`.
pub open spec fn updated_at(before: Seq<TrackedPlayer>, after: Seq<TrackedPlayer>, k: int) -> bool {
    &&& after.len() == before.len()
    &&& forall|j: int| 0 <= j < before.len() && j != k ==> #[trigger] after[j] == before[j]
}

/// The player list after a player-level change at the player with the id:
/// unchanged when no such player is active, otherwise changed at its
/// position only, keeping its id, with `change` relating old and new entry.
pub open spec fn changed_player(
    before: Seq<TrackedPlayer>,
    after: Seq<TrackedPlayer>,
    id: u32,
    change: spec_fn(TrackedPlayer, TrackedPlayer) -> bool,
) -> bool {
    if has_player(before, id) {
        let k = player_index(before, id);
        &&& updated_at(before, after, k)
        &&& after[k].player_id == id
        &&& change(before[k], after[k])
    } else {
        after == before
    }
}

/// The player list after the region of the player with the id closed at
/// `tick` because of a tee swap.
pub open spec fn swap_closed(before: Seq<TrackedPlayer>, after: Seq<TrackedPlayer>, id: u32, tick: i64) -> bool {
    changed_player(
        before,
        after,
        id,
        |a: TrackedPlayer, b: TrackedPlayer|
            region_closed(a, b, tick, RegionEndReason::SwapTees) && b.killed_this_tick == a.killed_this_tick,
    )
}

/// The name of a finished player run matches this many entries of `names`.
pub open spec fn name_count(names: Seq<String>, name: Seq<char>) -> nat
    decreases names.len(),
{
    if names.len() == 0 {
        0
    } else {
        name_count(names.drop_last(), name) + if names.last()@ == name {
            1nat
        } else {
            0nat
        }
    }
}

/// `n` copies of the finish.
pub open spec fn repeated(f: FinishInfo, n: nat) -> Seq<FinishInfo> {
    Seq::new(n, |_i: int| f)
}

/// The console command that sets a player's timeout code.
pub open spec fn timeout_command() -> Seq<u8> {
    seq![116u8, 105u8, 109u8, 101u8, 111u8, 117u8, 116u8]
}

/// `std::str::from_utf8`: succeeds exactly when the bytes are valid UTF-8,
/// and then yields the text they encode.
#[verifier::external_body]
fn utf8_text(bytes: &[u8]) -> (res: Option<&str>)
    ensures
        res is Some <==> vstd::utf8::valid_utf8(bytes@),
        res matches Some(s) ==> s@ == vstd::utf8::decode_utf8(bytes@),
{
    match std::str::from_utf8(bytes) {
        Ok(s) => Some(s),
        Err(_) => None,
    }
}

fn is_timeout_command(cmd: &[u8]) -> (r: bool)
    ensures
        r == (cmd@ == timeout_command()),
{
    let r = cmd.len() == 7 && cmd[0] == 116u8 && cmd[1] == 105u8 && cmd[2] == 109u8 && cmd[3] == 101u8
        && cmd[4] == 111u8 && cmd[5] == 117u8 && cmd[6] == 116u8;
    proof {
        if r {
            assert(cmd@ =~= timeout_command());
        } else if cmd@ == timeout_command() {
            assert(cmd@[0] == 116u8);
        }
    }
    r
}

/// Replay-side state of the extractor: the current tick, the players
/// between becoming ready and leaving, and those that already left.
pub struct World {
    pub current_tick: i32,
    /// Active players (between player_ready and player_leave)
    pub tracked_players: Vec<TrackedPlayer>,
    /// Players that left, in the order they left
    pub completed_players: Vec<TrackedPlayer>,
    pub map_name: String,
}

impl World {
    /// Tracked players have distinct ids.
    pub open spec fn wf(&self) -> bool {
        ids_unique(self.tracked_players@)
    }

    /// Empty state at tick 0.
    pub fn new(map_name: String) -> (w: Self)
        ensures
            w.wf(),
            w.current_tick == 0,
            w.tracked_players@ == Seq::<TrackedPlayer>::empty(),
            w.completed_players@ == Seq::<TrackedPlayer>::empty(),
            w.map_name@ == map_name@,
            world_keeps_up(w),
            team_zero_idle(w),
    {
        World { current_tick: 0, tracked_players: Vec::new(), completed_players: Vec::new(), map_name }
    }

    /// Position of the active player with the id.
    pub fn find_tracked(&self, id: u32) -> (res: Option<usize>)
        requires
            self.wf(),
        ensures
            res is None <==> !has_player(self.tracked_players@, id),
            res matches Some(k) ==> k == player_index(self.tracked_players@, id) && k
                < self.tracked_players@.len() && self.tracked_players@[k as int].player_id == id,
    {
        let mut k: usize = 0;
        while k < self.tracked_players.len()
            invariant
                self.wf(),
                k <= self.tracked_players@.len(),
                forall|j: int| 0 <= j < k ==> (#[trigger] self.tracked_players@[j]).player_id != id,
            decreases self.tracked_players@.len() - k,
        {
            if self.tracked_players[k].player_id == id {
                proof {
                    assert(has_player(self.tracked_players@, id));
                    let c = player_index(self.tracked_players@, id);
                    assert(self.tracked_players@[c].player_id == id);
                }
                return Some(k);
            }
            k = k + 1;
        }
        None
    }

    /// Advance to a new tick. Moving forward keeps every player's regions up
    /// with its data.
    pub fn tick(&mut self, tick: i32)
        ensures
            final(self).current_tick == tick,
            final(self).tracked_players@ == old(self).tracked_players@,
            final(self).completed_players@ == old(self).completed_players@,
            final(self).map_name@ == old(self).map_name@,
            world_keeps_up(*old(self)) && tick >= old(self).current_tick ==> world_keeps_up(*final(self)),
            team_zero_idle(*old(self)) ==> team_zero_idle(*final(self)),
    {
        self.current_tick = tick;
        proof {
            if world_keeps_up(*old(self)) && tick >= old(self).current_tick {
                assert forall|k: int| 0 <= k < self.tracked_players@.len() implies active_keeps_up(
                    #[trigger] self.tracked_players@[k],
                    tick as int,
                ) by {
                    assert(active_keeps_up(old(self).tracked_players@[k], old(self).current_tick as int));
                }
            }
        }
    }

    /// Close the current region of the player with the id, if active.
    fn close_player_region(&mut self, id: u32, end_tick: i64, reason: RegionEndReason)
        requires
            old(self).wf(),
            end_tick > i64::MIN,
        ensures
            final(self).wf(),
            final(self).current_tick == old(self).current_tick,
            final(self).completed_players@ == old(self).completed_players@,
            final(self).map_name@ == old(self).map_name@,
            changed_player(
                old(self).tracked_players@,
                final(self).tracked_players@,
                id,
                |a: TrackedPlayer, b: TrackedPlayer|
                    region_closed(a, b, end_tick, reason) && b.killed_this_tick == a.killed_this_tick,
            ),
            world_keeps_up(*old(self)) && end_tick == old(self).current_tick ==> world_keeps_up(*final(self)),
            team_zero_idle(*old(self)) ==> team_zero_idle(*final(self)),
    {
        match self.find_tracked(id) {
            Some(k) => {
                self.tracked_players[k].close_region(end_tick, reason);
                proof {
                    assert(updated_at(old(self).tracked_players@, self.tracked_players@, k as int));
                    if team_zero_idle(*old(self)) {
                        lemma_idle_changed_at(*old(self), *self, k as int);
                    }
                    if world_keeps_up(*old(self)) && end_tick == old(self).current_tick {
                        lemma_close_keeps_active(
                            old(self).tracked_players@[k as int],
                            self.tracked_players@[k as int],
                            end_tick,
                            reason,
                            end_tick as int,
                        );
                        lemma_world_changed_at(*old(self), *self, k as int);
                    }
                }
            },
            None => {},
        }
    }

    /// A player became ready: it is active from the current tick on, as a
    /// fresh player (replacing any active player with the same id).
    pub fn player_ready(&mut self, id: u32)
        requires
            old(self).wf(),
        ensures
            final(self).wf(),
            final(self).current_tick == old(self).current_tick,
            final(self).completed_players@ == old(self).completed_players@,
            final(self).map_name@ == old(self).map_name@,
            has_player(old(self).tracked_players@, id) ==> {
                let k = player_index(old(self).tracked_players@, id);
                &&& updated_at(old(self).tracked_players@, final(self).tracked_players@, k)
                &&& final(self).tracked_players@[k].is_fresh(id, old(self).current_tick as i64)
            },
            !has_player(old(self).tracked_players@, id) ==> {
                let n = old(self).tracked_players@.len();
                &&& final(self).tracked_players@.len() == n + 1
                &&& final(self).tracked_players@.take(n as int) == old(self).tracked_players@
                &&& final(self).tracked_players@[n as int].is_fresh(id, old(self).current_tick as i64)
            },
            world_keeps_up(*old(self)) ==> world_keeps_up(*final(self)),
            team_zero_idle(*old(self)) ==> team_zero_idle(*final(self)),
    {
        let player = TrackedPlayer::new(id, self.current_tick as i64);
        proof {
            fresh_player_keeps_up(player, id, self.current_tick as i64);
        }
        match self.find_tracked(id) {
            Some(k) => {
                self.tracked_players.set(k, player);
                proof {
                    assert(updated_at(old(self).tracked_players@, self.tracked_players@, k as int));
                    if team_zero_idle(*old(self)) {
                        lemma_idle_changed_at(*old(self), *self, k as int);
                    }
                    if world_keeps_up(*old(self)) {
                        lemma_world_changed_at(*old(self), *self, k as int);
                    }
                }
            },
            None => {
                self.tracked_players.push(player);
                proof {
                    assert(self.tracked_players@.take(old(self).tracked_players@.len() as int)
                        =~= old(self).tracked_players@);
                    if world_keeps_up(*old(self)) {
                        assert forall|j: int| 0 <= j < self.tracked_players@.len() implies active_keeps_up(
                            #[trigger] self.tracked_players@[j],
                            self.current_tick as int,
                        ) by {
                            if j < old(self).tracked_players@.len() {
                                assert(self.tracked_players@[j] == old(self).tracked_players@[j]);
                            }
                        }
                    }
                }
            },
        }
    }

    /// New input from a player: the active player's input is replaced.
    pub fn player_input(&mut self, id: u32, input: InputState)
        requires
            old(self).wf(),
        ensures
            final(self).wf(),
            final(self).current_tick == old(self).current_tick,
            final(self).completed_players@ == old(self).completed_players@,
            final(self).map_name@ == old(self).map_name@,
            changed_player(
                old(self).tracked_players@,
                final(self).tracked_players@,
                id,
                |a: TrackedPlayer, b: TrackedPlayer|
                    b == TrackedPlayer { input: Some(input), ..a },
            ),
            world_keeps_up(*old(self)) ==> world_keeps_up(*final(self)),
            team_zero_idle(*old(self)) ==> team_zero_idle(*final(self)),
    {
        match self.find_tracked(id) {
            Some(k) => {
                self.tracked_players[k].input = Some(input);
                proof {
                    assert(updated_at(old(self).tracked_players@, self.tracked_players@, k as int));
                    if team_zero_idle(*old(self)) {
                        lemma_idle_changed_at(*old(self), *self, k as int);
                    }
                    if world_keeps_up(*old(self)) {
                        assert(active_keeps_up(old(self).tracked_players@[k as int], self.current_tick as int));
                        lemma_world_changed_at(*old(self), *self, k as int);
                    }
                }
            },
            None => {},
        }
    }

    /// A player left: its final region closes with `Leave` (ending at the
    /// current tick, at which it is still active) and it moves from the
    /// active players to the end of the completed players.
    pub fn player_leave(&mut self, id: u32)
        requires
            old(self).wf(),
        ensures
            final(self).wf(),
            final(self).current_tick == old(self).current_tick,
            final(self).map_name@ == old(self).map_name@,
            has_player(old(self).tracked_players@, id) ==> {
                let k = player_index(old(self).tracked_players@, id);
                let n = old(self).completed_players@.len();
                &&& final(self).tracked_players@ == old(self).tracked_players@.remove(k)
                &&& final(self).completed_players@.len() == n + 1
                &&& final(self).completed_players@.take(n as int) == old(self).completed_players@
                &&& region_closed(
                    old(self).tracked_players@[k],
                    final(self).completed_players@[n as int],
                    (old(self).current_tick + 1) as i64,
                    RegionEndReason::Leave,
                )
                &&& final(self).completed_players@[n as int].killed_this_tick
                    == old(self).tracked_players@[k].killed_this_tick
            },
            !has_player(old(self).tracked_players@, id) ==> {
                &&& final(self).tracked_players@ == old(self).tracked_players@
                &&& final(self).completed_players@ == old(self).completed_players@
            },
            world_keeps_up(*old(self)) ==> world_keeps_up(*final(self)),
            team_zero_idle(*old(self)) ==> team_zero_idle(*final(self)),
    {
        let end_tick = self.current_tick as i64 + 1;
        match self.find_tracked(id) {
            Some(k) => {
                let mut player = self.tracked_players.remove(k);
                player.close_region(end_tick, RegionEndReason::Leave);
                self.completed_players.push(player);
                proof {
                    let old_t = old(self).tracked_players@;
                    let new_t = self.tracked_players@;
                    assert forall|i: int, j: int|
                        0 <= i < new_t.len() && 0 <= j < new_t.len() && (#[trigger] new_t[i]).player_id
                            == (#[trigger] new_t[j]).player_id implies i == j by {
                        let oi = if i < k { i } else { i + 1 };
                        let oj = if j < k { j } else { j + 1 };
                        assert(new_t[i] == old_t[oi]);
                        assert(new_t[j] == old_t[oj]);
                    }
                    assert(self.completed_players@.take(old(self).completed_players@.len() as int)
                        =~= old(self).completed_players@);
                    if world_keeps_up(*old(self)) {
                        let now = old(self).current_tick as int;
                        let n = old(self).completed_players@.len() as int;
                        lemma_leave_covers(old_t[k as int], self.completed_players@[n], RegionEndReason::Leave, now);
                        assert forall|j: int| 0 <= j < new_t.len() implies active_keeps_up(
                            #[trigger] new_t[j],
                            now,
                        ) by {
                            let oj = if j < k { j } else { j + 1 };
                            assert(new_t[j] == old_t[oj]);
                        }
                        assert forall|j: int| 0 <= j < self.completed_players@.len() implies regions_cover_data(
                            #[trigger] self.completed_players@[j],
                        ) by {
                            if j < n {
                                assert(self.completed_players@[j] == old(self).completed_players@[j]);
                            }
                        }
                    }
                }
            },
            None => {},
        }
    }

    /// Tees of two players were swapped: the regions of both close at the
    /// current tick with `SwapTees`, first the one of `id1`, then `id2`.
    pub fn swap_tees(&mut self, id1: u32, id2: u32)
        requires
            old(self).wf(),
        ensures
            final(self).wf(),
            final(self).current_tick == old(self).current_tick,
            final(self).completed_players@ == old(self).completed_players@,
            final(self).map_name@ == old(self).map_name@,
            exists|mid: Seq<TrackedPlayer>|
                #[trigger] swap_closed(old(self).tracked_players@, mid, id1, old(self).current_tick as i64)
                    && swap_closed(mid, final(self).tracked_players@, id2, old(self).current_tick as i64),
            world_keeps_up(*old(self)) ==> world_keeps_up(*final(self)),
            team_zero_idle(*old(self)) ==> team_zero_idle(*final(self)),
    {
        let tick = self.current_tick as i64;
        self.close_player_region(id1, tick, RegionEndReason::SwapTees);
        let ghost mid = self.tracked_players@;
        self.close_player_region(id2, tick, RegionEndReason::SwapTees);
        assert(swap_closed(old(self).tracked_players@, mid, id1, tick));
    }

    /// A console command was executed. `timeout <code>` by a player (client
    /// id `cid >= 0`) whose first argument is valid UTF-8 sets that player's
    /// timeout code; every other command leaves the state unchanged.
    pub fn on_console_command(&mut self, cid: i32, cmd: &[u8], first_arg: Option<&[u8]>)
        requires
            old(self).wf(),
        ensures
            final(self).wf(),
            final(self).current_tick == old(self).current_tick,
            final(self).completed_players@ == old(self).completed_players@,
            final(self).map_name@ == old(self).map_name@,
            ({
                let sets = cmd@ == timeout_command() && cid >= 0 && first_arg is Some
                    && vstd::utf8::valid_utf8(first_arg.unwrap()@);
                &&& sets ==> changed_player(
                    old(self).tracked_players@,
                    final(self).tracked_players@,
                    cid as u32,
                    |a: TrackedPlayer, b: TrackedPlayer|
                        {
                            &&& b.timeout_code matches Some(code)
                            &&& code@ == vstd::utf8::decode_utf8(first_arg.unwrap()@)
                            &&& b == TrackedPlayer { timeout_code: b.timeout_code, ..a }
                        },
                )
                &&& !sets ==> final(self).tracked_players@ == old(self).tracked_players@
            }),
            world_keeps_up(*old(self)) ==> world_keeps_up(*final(self)),
            team_zero_idle(*old(self)) ==> team_zero_idle(*final(self)),
    {
        if !is_timeout_command(cmd) || cid < 0 {
            return;
        }
        let arg = match first_arg {
            Some(a) => a,
            None => {
                return;
            },
        };
        let text = match utf8_text(arg) {
            Some(t) => t,
            None => {
                return;
            },
        };
        match self.find_tracked(cid as u32) {
            Some(k) => {
                self.tracked_players[k].timeout_code = Some(String::from_str(text));
                proof {
                    assert(updated_at(old(self).tracked_players@, self.tracked_players@, k as int));
                    if team_zero_idle(*old(self)) {
                        lemma_idle_changed_at(*old(self), *self, k as int);
                    }
                    if world_keeps_up(*old(self)) {
                        assert(active_keeps_up(old(self).tracked_players@[k as int], self.current_tick as int));
                        lemma_world_changed_at(*old(self), *self, k as int);
                    }
                }
            },
            None => {},
        }
    }

    /// A run finished: every active player whose current name equals one
    /// of the finishers' names gets the finish recorded, once per matching name.
    pub fn on_finish(&mut self, tick: i64, duration_secs: u32, names: &[String])
        requires
            old(self).wf(),
        ensures
            final(self).wf(),
            final(self).current_tick == old(self).current_tick,
            final(self).completed_players@ == old(self).completed_players@,
            final(self).map_name@ == old(self).map_name@,
            final(self).tracked_players@.len() == old(self).tracked_players@.len(),
            forall|j: int|
                0 <= j < old(self).tracked_players@.len() ==> {
                    let a = old(self).tracked_players@[j];
                    let b = #[trigger] final(self).tracked_players@[j];
                    &&& b == TrackedPlayer { finishes: b.finishes, ..a }
                    &&& b.finishes@ == a.finishes@ + repeated(
                        FinishInfo { tick, duration_secs },
                        name_count(names@, a.name@),
                    )
                },
            world_keeps_up(*old(self)) ==> world_keeps_up(*final(self)),
            team_zero_idle(*old(self)) ==> team_zero_idle(*final(self)),
    {
        let finish = FinishInfo { tick, duration_secs };
        let ghost before = old(self).tracked_players@;
        let mut i: usize = 0;
        while i < names.len()
            invariant
                i <= names@.len(),
                self.wf(),
                self.current_tick == old(self).current_tick,
                self.completed_players@ == old(self).completed_players@,
                self.map_name@ == old(self).map_name@,
                before == old(self).tracked_players@,
                finish == (FinishInfo { tick, duration_secs }),
                self.tracked_players@.len() == before.len(),
                forall|j: int|
                    0 <= j < before.len() ==> {
                        let a = before[j];
                        let b = #[trigger] self.tracked_players@[j];
                        &&& b == TrackedPlayer { finishes: b.finishes, ..a }
                        &&& b.finishes@ == a.finishes@ + repeated(finish, name_count(names@.take(i as int), a.name@))
                    },
            decreases names@.len() - i,
        {
            proof {
                assert(names@.take(i + 1).drop_last() =~= names@.take(i as int));
                assert(names@.take(i + 1).last() == names@[i as int]);
            }
            let mut j: usize = 0;
            while j < self.tracked_players.len()
                invariant
                    i < names@.len(),
                    j <= self.tracked_players@.len(),
                    self.wf(),
                    self.current_tick == old(self).current_tick,
                    self.completed_players@ == old(self).completed_players@,
                    self.map_name@ == old(self).map_name@,
                    before == old(self).tracked_players@,
                    finish == (FinishInfo { tick, duration_secs }),
                    self.tracked_players@.len() == before.len(),
                    forall|jj: int|
                        0 <= jj < before.len() ==> {
                            let a = before[jj];
                            let b = #[trigger] self.tracked_players@[jj];
                            let upto = if jj < j { i + 1 } else { i as int };
                            &&& b == TrackedPlayer { finishes: b.finishes, ..a }
                            &&& b.finishes@ == a.finishes@ + repeated(finish, name_count(names@.take(upto), a.name@))
                        },
                decreases self.tracked_players@.len() - j,
            {
                let ghost prev = self.tracked_players@;
                proof {
                    assert(names@.take(i + 1).drop_last() =~= names@.take(i as int));
                    assert(names@.take(i + 1).last() == names@[i as int]);
                }
                if self.tracked_players[j].name == names[i] {
                    self.tracked_players[j].finishes.push(finish);
                    proof {
                        let a = before[j as int];
                        let n = name_count(names@.take(i as int), a.name@);
                        assert(repeated(finish, n).push(finish) =~= repeated(finish, n + 1));
                        assert(a.finishes@ + repeated(finish, n + 1) =~= (a.finishes@ + repeated(finish, n)).push(finish));
                    }
                }
                proof {
                    assert forall|a: int, b: int|
                        0 <= a < self.tracked_players@.len() && 0 <= b < self.tracked_players@.len()
                            && (#[trigger] self.tracked_players@[a]).player_id
                            == (#[trigger] self.tracked_players@[b]).player_id implies a == b by {
                        assert(self.tracked_players@[a].player_id == prev[a].player_id);
                        assert(self.tracked_players@[b].player_id == prev[b].player_id);
                    }
                }
                j = j + 1;
            }
            i = i + 1;
        }
        proof {
            assert(names@.take(names@.len() as int) =~= names@);
            if world_keeps_up(*old(self)) {
                assert forall|j: int| 0 <= j < self.tracked_players@.len() implies active_keeps_up(
                    #[trigger] self.tracked_players@[j],
                    self.current_tick as int,
                ) by {
                    assert(active_keeps_up(before[j], self.current_tick as int));
                }
            }
        }
    }

    /// The replay ended: every still-active player's region closes with
    /// `ChangeMap` (ending at the current tick, at which they are still
    /// active). Returns the players that left, in order, followed by the
    /// still-active ones.
    pub fn finish_replay(self) -> (players: Vec<TrackedPlayer>)
        requires
            self.wf(),
        ensures
            players@.len() == self.completed_players@.len() + self.tracked_players@.len(),
            players@.take(self.completed_players@.len() as int) == self.completed_players@,
            forall|j: int|
                0 <= j < self.tracked_players@.len() ==> {
                    &&& region_closed(
                        self.tracked_players@[j],
                        #[trigger] players@[self.completed_players@.len() + j],
                        (self.current_tick + 1) as i64,
                        RegionEndReason::ChangeMap,
                    )
                    &&& players@[self.completed_players@.len() + j].killed_this_tick
                        == self.tracked_players@[j].killed_this_tick
                },
            world_keeps_up(self) ==> forall|j: int| 0 <= j < players@.len() ==> regions_cover_data(#[trigger] players@[j]),
    {
        let end_tick = self.current_tick as i64 + 1;
        let ghost tracked_before = self.tracked_players@;
        let ghost completed_before = self.completed_players@;
        let mut active = self.tracked_players;
        let mut players = self.completed_players;
        let mut k: usize = 0;
        while k < active.len()
            invariant
                k <= active@.len(),
                active@.len() == tracked_before.len(),
                end_tick == (self.current_tick + 1) as i64,
                forall|j: int| 0 <= j < k ==> {
                    &&& region_closed(tracked_before[j], #[trigger] active@[j], end_tick, RegionEndReason::ChangeMap)
                    &&& active@[j].killed_this_tick == tracked_before[j].killed_this_tick
                },
                forall|j: int| k <= j < active@.len() ==> #[trigger] active@[j] == tracked_before[j],
            decreases active@.len() - k,
        {
            active[k].close_region(end_tick, RegionEndReason::ChangeMap);
            k = k + 1;
        }
        let ghost closed = active@;
        players.append(&mut active);
        proof {
            assert(players@ == completed_before + closed);
            assert(players@.take(completed_before.len() as int) =~= completed_before);
            assert forall|j: int| 0 <= j < tracked_before.len() implies #[trigger] players@[completed_before.len() + j]
                == closed[j] by {}
            if world_keeps_up(self) {
                assert forall|j: int| 0 <= j < players@.len() implies regions_cover_data(#[trigger] players@[j]) by {
                    if j < completed_before.len() {
                        assert(players@[j] == completed_before[j]);
                    } else {
                        let m = j - completed_before.len();
                        assert(players@[completed_before.len() + m] == closed[m]);
                        lemma_leave_covers(
                            tracked_before[m],
                            closed[m],
                            RegionEndReason::ChangeMap,
                            self.current_tick as int,
                        );
                    }
                }
            }
        }
        players
    }

    /// Record a tick of data for a tracked player, remembering its position.
    pub fn record_tick(&mut self, id: u32, tick_data: TickData, pos: (u32, u32))
        requires
            old(self).wf(),
            has_player(old(self).tracked_players@, id),
        ensures
            final(self).wf(),
            final(self).current_tick == old(self).current_tick,
            final(self).completed_players@ == old(self).completed_players@,
            final(self).map_name@ == old(self).map_name@,
            ({
                let k = player_index(old(self).tracked_players@, id);
                let a = old(self).tracked_players@[k];
                let b = final(self).tracked_players@[k];
                &&& updated_at(old(self).tracked_players@, final(self).tracked_players@, k)
                &&& b == TrackedPlayer { data: b.data, prev_pos: Some(pos), ..a }
                &&& b.data@ == a.data@.push(tick_data)
            }),
            ({
                let a = old(self).tracked_players@[player_index(old(self).tracked_players@, id)];
                world_keeps_up(*old(self)) && tick_data.tick == old(self).current_tick && data_before(
                    a,
                    tick_data.tick as int,
                ) ==> world_keeps_up(*final(self))
            }),
            team_zero_idle(*old(self)) ==> team_zero_idle(*final(self)),
    {
        match self.find_tracked(id) {
            Some(k) => {
                self.tracked_players[k].data.push(tick_data);
                self.tracked_players[k].prev_pos = Some(pos);
                proof {
                    assert(updated_at(old(self).tracked_players@, self.tracked_players@, k as int));
                    if team_zero_idle(*old(self)) {
                        lemma_idle_changed_at(*old(self), *self, k as int);
                    }
                    let a = old(self).tracked_players@[k as int];
                    let b = self.tracked_players@[k as int];
                    if world_keeps_up(*old(self)) && tick_data.tick == old(self).current_tick && data_before(
                        a,
                        tick_data.tick as int,
                    ) {
                        assert(active_keeps_up(a, self.current_tick as int));
                        recording_tick_keeps_up(a, b, tick_data);
                        assert forall|i: int| 0 <= i < b.data@.len() implies #[trigger] b.data@[i].tick
                            < self.current_tick + 1 by {
                            if i < a.data@.len() {
                                assert(b.data@[i] == a.data@[i]);
                            }
                        }
                        lemma_world_changed_at(*old(self), *self, k as int);
                    }
                }
            },
            None => {},
        }
    }

    /// The player was killed (kill message or kill console command): its
    /// region closes at the current tick with `Kill`, and the kill is noted
    /// for the current tick.
    pub fn player_kill(&mut self, id: u32)
        requires
            old(self).wf(),
        ensures
            final(self).wf(),
            final(self).current_tick == old(self).current_tick,
            final(self).completed_players@ == old(self).completed_players@,
            final(self).map_name@ == old(self).map_name@,
            changed_player(
                old(self).tracked_players@,
                final(self).tracked_players@,
                id,
                |a: TrackedPlayer, b: TrackedPlayer|
                    region_closed(a, b, old(self).current_tick as i64, RegionEndReason::Kill)
                        && b.killed_this_tick,
            ),
            world_keeps_up(*old(self)) ==> world_keeps_up(*final(self)),
            team_zero_idle(*old(self)) ==> team_zero_idle(*final(self)),
    {
        let tick = self.current_tick as i64;
        match self.find_tracked(id) {
            Some(k) => {
                self.tracked_players[k].close_region(tick, RegionEndReason::Kill);
                self.tracked_players[k].killed_this_tick = true;
                proof {
                    assert(updated_at(old(self).tracked_players@, self.tracked_players@, k as int));
                    if team_zero_idle(*old(self)) {
                        lemma_idle_changed_at(*old(self), *self, k as int);
                    }
                    if world_keeps_up(*old(self)) {
                        lemma_close_keeps_active(
                            old(self).tracked_players@[k as int],
                            self.tracked_players@[k as int],
                            tick,
                            RegionEndReason::Kill,
                            tick as int,
                        );
                        lemma_world_changed_at(*old(self), *self, k as int);
                    }
                }
            },
            None => {},
        }
    }
}

} // verus!
