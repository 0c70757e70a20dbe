use teehee_extractor::extractor::{
    build_sequences, check_map_digest, clean_player_regions, load_map, rescue_enabled, tick_data_of, to_hex_lower,
    verify_map_hash, AimSample, CaptureState, HeldWeapon, MapGeometry, MapLoadError, SnapError, TeeSample, TileGrid,
};
use teehee_extractor::world::{InputState, TrackedPlayer, World};
use teehee_extractor::{RegionEndReason, TickData};

fn tick(t: i64) -> TickData {
    let z = 0.0f32.to_bits();
    TickData {
        tick: t,
        pos_x: z,
        pos_y: z,
        vel_x: z,
        vel_y: z,
        cursor_x: z,
        cursor_y: z,
        aim_angle: z,
        aim_distance: z,
        move_dir: (t as f32).to_bits(),
        key_jump: z,
        key_fire: z,
        key_hook: z,
        is_grounded: z,
        freeze_status: z,
        hook_grabbed: z,
        hook_pos_x: z,
        hook_pos_y: z,
        is_hammer: z,
        is_gun: z,
        is_other_weapon: z,
        jumps_remaining: z,
        can_jump: z,
    }
}

fn empty_map() -> MapGeometry {
    MapGeometry { tele_layer: None, tele_outs: vec![], tele_checkpoint_outs: vec![], spawn_points: vec![] }
}

fn regions_of(p: &TrackedPlayer) -> Vec<(i64, i64, i32, bool, RegionEndReason)> {
    p.completed_regions.iter().map(|r| (r.start_tick, r.end_tick, r.team, r.practice, r.end_reason)).collect()
}

#[test]
fn input_state_from_raw_uses_lowest_bits() {
    let s = InputState::from_raw(-1, 64, -32, 3, true, 2);
    assert_eq!((s.direction, s.target_x, s.target_y), (-1, 64, -32));
    assert!(s.jump && s.fire && !s.hook);
    let d = InputState::default();
    assert!(!d.jump && !d.fire && !d.hook && d.direction == 0);
}

#[test]
fn close_region_ends_before_event_tick() {
    let mut p = TrackedPlayer::new(1, 10);
    p.current_team = 2;
    p.current_practice = true;
    p.close_region(15, RegionEndReason::Kill);
    assert_eq!(regions_of(&p), vec![(10, 14, 2, true, RegionEndReason::Kill)]);
    assert_eq!(p.current_region_start, 15);
    assert!(p.current_practice);
    // an empty region is not recorded
    p.close_region(15, RegionEndReason::SwapTees);
    assert_eq!(p.completed_regions.len(), 1);
    // leaving the team ends practice
    p.close_region(20, RegionEndReason::TeamChange);
    assert!(!p.current_practice);
    assert_eq!(p.completed_regions[1].end_tick, 19);
}

#[test]
fn set_practice_only_sets_the_flag() {
    let mut p = TrackedPlayer::new(4, 0);
    p.set_practice();
    assert!(p.current_practice);
    assert_eq!(p.current_region_start, 0);
}

#[test]
fn world_ready_input_kill_and_leave() {
    let mut w = World::new("map".to_string());
    w.tick(5);
    w.player_ready(3);
    assert_eq!(w.find_tracked(3), Some(0));
    assert_eq!(w.find_tracked(4), None);
    w.player_input(3, InputState::from_raw(1, 0, 0, 0, false, 0));
    assert_eq!(w.tracked_players[0].input.unwrap().direction, 1);
    w.record_tick(3, tick(5), (1, 2));
    assert_eq!(w.tracked_players[0].prev_pos, Some((1, 2)));
    w.tick(8);
    w.player_kill(3);
    assert!(w.tracked_players[0].killed_this_tick);
    assert_eq!(regions_of(&w.tracked_players[0]), vec![(5, 7, 0, false, RegionEndReason::Kill)]);
    w.tick(12);
    w.player_leave(3);
    assert!(w.tracked_players.is_empty());
    assert_eq!(w.completed_players.len(), 1);
    assert_eq!(
        regions_of(&w.completed_players[0]),
        vec![(5, 7, 0, false, RegionEndReason::Kill), (8, 12, 0, false, RegionEndReason::Leave)]
    );
    // events for unknown players change nothing
    w.player_leave(9);
    w.player_kill(9);
    assert_eq!(w.completed_players.len(), 1);
}

#[test]
fn world_ready_again_resets_player() {
    let mut w = World::new("m".to_string());
    w.player_ready(1);
    w.record_tick(1, tick(0), (0, 0));
    w.tick(3);
    w.player_ready(1);
    assert_eq!(w.tracked_players.len(), 1);
    assert!(w.tracked_players[0].data.is_empty());
    assert_eq!(w.tracked_players[0].current_region_start, 3);
}

#[test]
fn swap_tees_closes_both_regions() {
    let mut w = World::new("m".to_string());
    w.player_ready(1);
    w.player_ready(2);
    w.tick(4);
    w.swap_tees(1, 2);
    for p in &w.tracked_players {
        assert_eq!(regions_of(p), vec![(0, 3, 0, false, RegionEndReason::SwapTees)]);
        assert_eq!(p.current_region_start, 4);
    }
}

#[test]
fn timeout_command_sets_code() {
    let mut w = World::new("m".to_string());
    w.player_ready(2);
    w.on_console_command(2, b"timeout", Some(&b"abc123"[..]));
    assert_eq!(w.tracked_players[0].timeout_code.as_deref(), Some("abc123"));
    w.on_console_command(2, b"timeout", Some(&[0xffu8, 0xfe][..]));
    assert_eq!(w.tracked_players[0].timeout_code.as_deref(), Some("abc123"));
    w.on_console_command(2, b"kill", Some(&b"x"[..]));
    w.on_console_command(-1, b"timeout", Some(&b"zzz"[..]));
    assert_eq!(w.tracked_players[0].timeout_code.as_deref(), Some("abc123"));
}

#[test]
fn finish_recorded_once_per_matching_name() {
    let mut w = World::new("m".to_string());
    w.player_ready(1);
    w.player_ready(2);
    w.tracked_players[0].name = "alice".to_string();
    w.tracked_players[1].name = "bob".to_string();
    let secs = 12.5f32.to_bits();
    w.on_finish(100, secs, &["alice".to_string(), "carol".to_string(), "alice".to_string()]);
    assert_eq!(w.tracked_players[0].finishes.len(), 2);
    assert_eq!(w.tracked_players[0].finishes[0].tick, 100);
    assert_eq!(f32::from_bits(w.tracked_players[0].finishes[0].duration_secs), 12.5);
    assert!(w.tracked_players[1].finishes.is_empty());
}

#[test]
fn finish_replay_closes_active_players_after_final_tick() {
    let mut w = World::new("m".to_string());
    w.player_ready(1);
    w.player_ready(2);
    w.tick(3);
    w.player_leave(2);
    w.tick(9);
    let players = w.finish_replay();
    assert_eq!(players.len(), 2);
    assert_eq!(players[0].player_id, 2);
    assert_eq!(regions_of(&players[0]), vec![(0, 3, 0, false, RegionEndReason::Leave)]);
    assert_eq!(players[1].player_id, 1);
    assert_eq!(regions_of(&players[1]), vec![(0, 9, 0, false, RegionEndReason::ChangeMap)]);
}

#[test]
fn practice_request_enables_team_and_never_team_zero() {
    let mut w = World::new("m".to_string());
    w.player_ready(1);
    w.player_ready(2);
    w.player_ready(3);
    w.tracked_players[0].current_team = 5;
    w.tracked_players[1].current_team = 5;
    let mut c = CaptureState::new(empty_map(), false);
    c.on_player_chat(1, "/practice");
    c.on_player_chat(3, "/practice now");
    c.on_player_chat(2, "hello /practice");
    assert_eq!(c.pending_practice_players, vec![1, 3]);
    c.finish_snap(&mut w);
    assert!(c.pending_practice_players.is_empty());
    assert_eq!(c.practice_teams, vec![5]);
    assert!(c.team_practices(5));
    assert!(!c.team_practices(0));
    assert!(w.tracked_players[0].current_practice);
    assert!(w.tracked_players[1].current_practice);
    assert!(!w.tracked_players[2].current_practice);
}

#[test]
fn snap_player_team_change_and_contexts() {
    let mut w = World::new("m".to_string());
    w.player_ready(1);
    w.player_ready(2);
    let mut c = CaptureState::new(empty_map(), false);
    c.practice_teams = vec![7];
    c.begin_snap(10);
    assert_eq!(c.current_tick, 10);
    let teams = [(1u32, 7), (2u32, 0)];
    // tracked, no input yet
    let r = c.snap_player(&mut w, 1, "one".to_string(), 7, true, &teams);
    assert!(matches!(r, Ok(None)));
    assert_eq!(w.tracked_players[0].name, "one");
    assert_eq!(regions_of(&w.tracked_players[0]), vec![(0, 9, 0, false, RegionEndReason::TeamChange)]);
    assert!(w.tracked_players[0].current_practice);
    // with input: context returned and kill flag reset
    w.player_input(1, InputState::from_raw(1, 2, 3, 0, false, 0));
    w.tracked_players[0].killed_this_tick = true;
    let r = c.snap_player(&mut w, 1, "one".to_string(), 7, true, &teams).unwrap().unwrap();
    assert!(r.killed && r.practice && r.prev_pos.is_none());
    assert!(!w.tracked_players[0].killed_this_tick);
    // leaving team 7 when nobody else is on it ends practice for team 7
    c.begin_snap(11);
    let teams = [(1u32, 3), (2u32, 0)];
    let _ = c.snap_player(&mut w, 1, "one".to_string(), 3, true, &teams);
    assert!(c.practice_teams.is_empty());
    assert!(!w.tracked_players[0].current_practice);
}

#[test]
fn snap_player_errors() {
    let mut w = World::new("m".to_string());
    w.player_ready(1);
    let mut c = CaptureState::new(empty_map(), false);
    assert!(matches!(
        c.snap_player(&mut w, 9, "x".to_string(), 0, true, &[]),
        Err(SnapError::UntrackedPlayerWithTee)
    ));
    assert!(matches!(c.snap_player(&mut w, 9, "x".to_string(), 0, false, &[]), Ok(None)));
    // a tracked player that lost its tee: its region closes and it is skipped
    w.tick(6);
    c.begin_snap(6);
    assert!(matches!(c.snap_player(&mut w, 1, "x".to_string(), 0, false, &[]), Ok(None)));
    assert_eq!(regions_of(&w.tracked_players[0]), vec![(0, 5, 0, false, RegionEndReason::TeeDisappear)]);
    assert_eq!(w.tracked_players[0].current_region_start, 6);
}

#[test]
fn position_jump_classification() {
    let mut grid = vec![false; 100];
    grid[5 * 10 + 5] = true;
    let map = MapGeometry {
        tele_layer: Some(TileGrid { width: 10, height: 10, cells: grid }),
        tele_outs: vec![(50, 50)],
        tele_checkpoint_outs: vec![],
        spawn_points: vec![(20, 20)],
    };
    assert!(map.is_map_teleport((7, 7), (0, 0)));
    assert!(!map.is_map_teleport((8, 8), (0, 0)));
    assert!(map.is_map_teleport((0, 0), (51, 49)));
    assert!(!map.is_map_teleport((0, 0), (52, 50)));
    assert!(map.is_spawn_position((20, 20)));
    assert!(!map.is_spawn_position((20, 21)));
    let mut w = World::new("m".to_string());
    w.player_ready(1);
    let mut c = CaptureState::new(map, false);
    c.begin_snap(30);
    assert_eq!(c.resolve_position_jump(&mut w, 1, false, false, (0, 0), (0, 0), false), None);
    assert_eq!(c.resolve_position_jump(&mut w, 1, true, true, (0, 0), (0, 0), false), None);
    assert_eq!(c.resolve_position_jump(&mut w, 1, true, false, (6, 6), (0, 0), false), Some(RegionEndReason::Teleport));
    assert_eq!(c.resolve_position_jump(&mut w, 1, true, false, (0, 0), (0, 0), true), Some(RegionEndReason::Teleport));
    assert_eq!(c.resolve_position_jump(&mut w, 1, true, false, (0, 0), (20, 20), false), Some(RegionEndReason::Kill));
    assert_eq!(
        c.resolve_position_jump(&mut w, 1, true, false, (0, 0), (30, 30), false),
        Some(RegionEndReason::UnknownTeleport)
    );
    assert_eq!(regions_of(&w.tracked_players[0]), vec![(0, 29, 0, false, RegionEndReason::Teleport)]);
    let rescue = CaptureState::new(empty_map(), true);
    assert_eq!(rescue.resolve_position_jump(&mut w, 1, true, false, (0, 0), (30, 30), false), Some(RegionEndReason::Teleport));
}

#[test]
fn tele_lookup_clamps_at_map_border() {
    let mut grid = vec![false; 9];
    grid[0] = true;
    let map = MapGeometry {
        tele_layer: Some(TileGrid { width: 3, height: 3, cells: grid }),
        tele_outs: vec![],
        tele_checkpoint_outs: vec![],
        spawn_points: vec![],
    };
    assert!(map.is_map_teleport((-10, -10), (100, 100)));
}

#[test]
fn clean_regions_spectate_and_afk_gaps() {
    let data: Vec<TickData> = [1i64, 2, 3, 4, 8, 9].iter().map(|&t| tick(t)).collect();
    let mut data = data;
    // make ticks 2..4 idle
    for d in data.iter_mut().take(4).skip(1) {
        d.move_dir = 0.0f32.to_bits();
    }
    let regions = vec![teehee_extractor::ActiveRegion::new(1, 9, 0, false, RegionEndReason::Leave)];
    let out = clean_player_regions(regions, &mut data, Some(1));
    let kept: Vec<i64> = data.iter().map(|d| d.tick).collect();
    assert_eq!(kept, vec![1, 2, 8, 9]);
    let shape: Vec<(i64, i64, RegionEndReason, Option<usize>, Option<usize>)> =
        out.iter().map(|r| (r.start_tick, r.end_tick, r.end_reason, r.start_idx, r.end_idx)).collect();
    assert_eq!(
        shape,
        vec![(1, 2, RegionEndReason::Afk, Some(0), Some(2)), (8, 9, RegionEndReason::Leave, Some(2), Some(4))]
    );
}

#[test]
fn recorded_player_ticks_each_in_exactly_one_region() {
    let mut w = World::new("m".to_string());
    w.tick(1);
    w.player_ready(1);
    for t in 1..=10 {
        w.tick(t);
        if t == 6 {
            w.player_kill(1);
        }
        if t != 4 {
            w.record_tick(1, tick(t as i64), (0, 0));
        }
    }
    w.tracked_players[0].name = "p".to_string();
    let players = w.finish_replay();
    let seqs = build_sequences(players, None, "t".to_string(), "m".to_string());
    assert_eq!(seqs.len(), 1);
    let s = &seqs[0];
    for i in 0..s.data.len() {
        let owners = s
            .active_regions
            .iter()
            .filter(|r| r.start_idx.unwrap() <= i && i < r.end_idx.unwrap())
            .count();
        assert_eq!(owners, 1);
    }
}

#[test]
fn build_sequences_skips_players_without_data() {
    let mut a = TrackedPlayer::new(1, 0);
    a.name = "a".to_string();
    let mut b = TrackedPlayer::new(2, 0);
    b.name = "b".to_string();
    b.team = 3;
    b.data = vec![tick(0), tick(1), tick(2)];
    b.timeout_code = Some("code".to_string());
    b.close_region(3, RegionEndReason::Leave);
    let seqs = build_sequences(vec![a, b], None, "2024-01-01".to_string(), "map1".to_string());
    assert_eq!(seqs.len(), 1);
    let s = &seqs[0];
    assert_eq!(s.player_name, "b");
    assert_eq!((s.team, s.start_tick, s.end_tick), (3, 0, 2));
    assert_eq!((s.time_of_day.as_str(), s.map_name.as_str()), ("2024-01-01", "map1"));
    assert_eq!(s.timeout_code.as_deref(), Some("code"));
    assert_eq!(s.active_regions.len(), 1);
    assert_eq!((s.active_regions[0].start_idx, s.active_regions[0].end_idx), (Some(0), Some(3)));
}

#[test]
fn hex_of_bytes() {
    assert_eq!(to_hex_lower(&[0x00, 0x0f, 0xab, 0xff]), "000fabff");
    assert_eq!(to_hex_lower(&[]), "");
}

#[test]
fn map_hash_checked_with_sha256() {
    let abc = "ba7816bf8f01cfea414140de5dae2223b00361a396177a9cb410ff61f20015ad";
    assert!(verify_map_hash(b"abc", Some(abc)).is_ok());
    assert!(verify_map_hash(b"abc", None).is_ok());
    let err = verify_map_hash(b"abd", Some(abc)).unwrap_err();
    assert_eq!(err.expected, abc);
    assert_ne!(err.actual, abc);
    assert_eq!(err.actual.len(), 64);
    let err = check_map_digest(&[1, 2], Some("0103")).unwrap_err();
    assert_eq!((err.expected.as_str(), err.actual.as_str()), ("0103", "0102"));
    assert!(check_map_digest(&[1, 2], Some("0102")).is_ok());
}

#[test]
fn tick_record_flags_and_hook_position() {
    let input = InputState::from_raw(-1, 64, 0, 1, false, 1);
    let aim = AimSample {
        move_dir: (-1.0f32).to_bits(),
        cursor_x: 2.0f32.to_bits(),
        cursor_y: 0.0f32.to_bits(),
        aim_distance: 2.0f32.to_bits(),
    };
    let tee = TeeSample {
        pos_x: 3.5f32.to_bits(),
        pos_y: 4.5f32.to_bits(),
        vel_x: 0.25f32.to_bits(),
        vel_y: (-0.5f32).to_bits(),
        aim_angle: 1.0f32.to_bits(),
        hook_pos_x: 9.0f32.to_bits(),
        hook_pos_y: 8.0f32.to_bits(),
        hook_grabbed: false,
        weapon: HeldWeapon::Other,
        jumps: 2,
        jumps_value: 2.0f32.to_bits(),
        grounded: false,
        frozen: true,
    };
    let t = tick_data_of(42, input, aim, tee);
    let f = f32::from_bits;
    assert_eq!(t.tick, 42);
    assert_eq!((f(t.pos_x), f(t.pos_y), f(t.vel_x), f(t.vel_y)), (3.5, 4.5, 0.25, -0.5));
    assert_eq!((f(t.key_jump), f(t.key_fire), f(t.key_hook)), (1.0, 0.0, 1.0));
    // two jumps left but in the air: not grounded
    assert_eq!((f(t.is_grounded), f(t.can_jump), f(t.freeze_status)), (0.0, 1.0, 1.0));
    assert_eq!((f(t.hook_grabbed), f(t.hook_pos_x), f(t.hook_pos_y)), (0.0, 0.0, 0.0));
    assert_eq!((f(t.is_hammer), f(t.is_gun), f(t.is_other_weapon)), (0.0, 0.0, 1.0));
    assert_eq!((f(t.move_dir), f(t.cursor_x), f(t.aim_distance), f(t.jumps_remaining)), (-1.0, 2.0, 2.0, 2.0));
    let grabbed =
        TeeSample {
        hook_grabbed: true,
        weapon: HeldWeapon::Hammer,
        jumps: 1,
        jumps_value: 1.0f32.to_bits(),
        grounded: true,
        frozen: false,
        ..tee
    };
    let t = tick_data_of(43, input, aim, grabbed);
    assert_eq!((f(t.hook_grabbed), f(t.hook_pos_x), f(t.hook_pos_y)), (1.0, 9.0, 8.0));
    assert_eq!((f(t.is_hammer), f(t.is_grounded), f(t.can_jump), f(t.freeze_status)), (1.0, 1.0, 1.0, 0.0));
    let none_left = TeeSample { jumps: 0, jumps_value: 0.0f32.to_bits(), weapon: HeldWeapon::Gun, ..tee };
    let t = tick_data_of(44, input, aim, none_left);
    assert_eq!((f(t.can_jump), f(t.is_gun), f(t.jumps_remaining)), (0.0, 1.0, 0.0));
}

#[test]
fn rescue_setting_is_on_only_for_one() {
    assert!(rescue_enabled(Some("1")));
    assert!(!rescue_enabled(Some("0")));
    assert!(!rescue_enabled(Some("1 ")));
    assert!(!rescue_enabled(None));
}

#[test]
fn sv_rescue_makes_every_player_practice() {
    let mut w = World::new("m".to_string());
    w.player_ready(1);
    w.player_ready(2);
    w.tracked_players[1].current_team = 4;
    let mut c = CaptureState::new(empty_map(), true);
    c.finish_snap(&mut w);
    assert!(w.tracked_players.iter().all(|p| p.current_practice));
    assert!(c.practice_teams.is_empty());
    w.tick(3);
    w.player_kill(1);
    assert!(w.tracked_players[0].completed_regions[0].practice);
    let mut plain = CaptureState::new(empty_map(), false);
    let mut w2 = World::new("m".to_string());
    w2.player_ready(1);
    plain.finish_snap(&mut w2);
    assert!(!w2.tracked_players[0].current_practice);
}

#[test]
fn load_map_rejects_bad_hash_and_undecodable_bytes() {
    let abc = "ba7816bf8f01cfea414140de5dae2223b00361a396177a9cb410ff61f20015ad";
    match load_map(b"abd", Some(abc)) {
        Err(MapLoadError::HashMismatch(m)) => assert_eq!(m.expected, abc),
        _ => panic!("expected a hash mismatch"),
    }
    assert!(matches!(load_map(b"abc", Some(abc)), Err(MapLoadError::Undecodable)));
    assert!(matches!(load_map(b"not a map", None), Err(MapLoadError::Undecodable)));
}
