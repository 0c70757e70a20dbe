use teehee_extractor::export::{drop_short_sequences, region_columns, region_table, SequenceCounter};
use teehee_extractor::float_bits::{f32_bits_equal, f32_bits_is_nan, small_int_f32_bits};
use teehee_extractor::sequence::{
    compute_active_regions, drop_afk_ticks, drop_regions_without_data, find_tick_gaps,
    resolve_region_indices, split_regions_on_gaps,
};
use teehee_extractor::{ActiveRegion, FinishInfo, PlayerSequence, RegionEndReason, TickData};

fn tick(t: i64, move_dir: f32) -> TickData {
    let z = 0.0f32.to_bits();
    TickData {
        tick: t,
        pos_x: z,
        pos_y: z,
        vel_x: z,
        vel_y: z,
        cursor_x: z,
        cursor_y: z,
        aim_angle: z,
        aim_distance: z,
        move_dir: move_dir.to_bits(),
        key_jump: z,
        key_fire: z,
        key_hook: z,
        is_grounded: z,
        freeze_status: z,
        hook_grabbed: z,
        hook_pos_x: z,
        hook_pos_y: z,
        is_hammer: z,
        is_gun: z,
        is_other_weapon: z,
        jumps_remaining: z,
        can_jump: z,
    }
}

fn ticks(ts: &[i64]) -> Vec<TickData> {
    ts.iter().map(|&t| tick(t, 0.0)).collect()
}

fn sequence(data: Vec<TickData>, regions: Vec<ActiveRegion>) -> PlayerSequence {
    PlayerSequence {
        player_name: "p".to_string(),
        team: 0,
        finishes: Vec::<FinishInfo>::new(),
        start_tick: 0,
        end_tick: 0,
        time_of_day: String::new(),
        map_name: String::new(),
        data,
        active_regions: regions,
        timeout_code: None,
    }
}

#[test]
fn end_reason_values() {
    let all = [
        (RegionEndReason::Kill, 0u8),
        (RegionEndReason::TeamChange, 1),
        (RegionEndReason::SwapTees, 2),
        (RegionEndReason::Spectate, 3),
        (RegionEndReason::Afk, 4),
        (RegionEndReason::Leave, 5),
        (RegionEndReason::ChangeMap, 6),
        (RegionEndReason::Unknown, 7),
        (RegionEndReason::Teleport, 8),
        (RegionEndReason::UnknownTeleport, 9),
        (RegionEndReason::TeeDisappear, 10),
    ];
    for (r, v) in all {
        assert_eq!(r.as_u8(), v);
    }
}

#[test]
fn end_reason_names_in_value_order() {
    let names: Vec<&str> = RegionEndReason::names().split(',').collect();
    assert_eq!(names.len(), 11);
    assert_eq!(names[0], "Kill");
    assert_eq!(names[8], "Teleport");
    assert_eq!(names[10], "TeeDisappear");
    assert_eq!(
        RegionEndReason::names(),
        "Kill,TeamChange,SwapTees,Spectate,Afk,Leave,ChangeMap,Unknown,Teleport,UnknownTeleport,TeeDisappear"
    );
}

#[test]
fn new_region_has_no_indices() {
    let r = ActiveRegion::new(3, 9, 2, true, RegionEndReason::Kill);
    assert_eq!((r.start_tick, r.end_tick, r.team, r.practice), (3, 9, 2, true));
    assert_eq!(r.end_reason, RegionEndReason::Kill);
    assert_eq!((r.start_idx, r.end_idx), (None, None));
}

#[test]
fn f32_bit_equality_matches_float_equality() {
    let samples = [0.0f32, -0.0, 1.0, -1.0, f32::NAN, f32::INFINITY, 2.5];
    for a in samples {
        for b in samples {
            assert_eq!(f32_bits_equal(a.to_bits(), b.to_bits()), a == b, "{a} {b}");
        }
    }
    assert!(f32_bits_is_nan(f32::NAN.to_bits()));
    assert!(!f32_bits_is_nan(f32::INFINITY.to_bits()));
}

#[test]
fn tick_gaps_found() {
    assert_eq!(find_tick_gaps(&ticks(&[1, 2, 3, 7, 8, 10])), vec![(3, 7), (8, 10)]);
    assert_eq!(find_tick_gaps(&ticks(&[1, 2, 3])), vec![]);
    assert_eq!(find_tick_gaps(&ticks(&[5])), vec![]);
    assert_eq!(find_tick_gaps(&[]), vec![]);
}

#[test]
fn afk_ticks_dropped_after_threshold() {
    // move_dir unchanged from tick 2 on: with threshold 2 the ticks after
    // two equal steps are dropped
    let mut data = vec![tick(1, 1.0), tick(2, 0.0), tick(3, 0.0), tick(4, 0.0), tick(5, 0.0), tick(6, -1.0)];
    drop_afk_ticks(&mut data, 2);
    let kept: Vec<i64> = data.iter().map(|d| d.tick).collect();
    assert_eq!(kept, vec![1, 2, 3, 6]);
}

#[test]
fn afk_threshold_zero_keeps_changes_only() {
    let mut data = vec![tick(1, 1.0), tick(2, 1.0), tick(3, 0.0), tick(4, 0.0)];
    drop_afk_ticks(&mut data, 0);
    let kept: Vec<i64> = data.iter().map(|d| d.tick).collect();
    assert_eq!(kept, vec![1, 3]);
}

#[test]
fn afk_nan_direction_never_repeats() {
    let mut data = vec![tick(1, f32::NAN), tick(2, f32::NAN), tick(3, f32::NAN)];
    drop_afk_ticks(&mut data, 1);
    assert_eq!(data.len(), 3);
}

#[test]
fn split_on_gaps_cuts_regions() {
    let data = ticks(&[1, 2, 3, 7, 8, 12]);
    let regions = vec![
        ActiveRegion::new(1, 8, 4, true, RegionEndReason::Kill),
        ActiveRegion::new(12, 12, 5, false, RegionEndReason::Leave),
    ];
    let out = split_regions_on_gaps(regions, &data, RegionEndReason::Spectate);
    let shape: Vec<(i64, i64, i32, RegionEndReason)> =
        out.iter().map(|r| (r.start_tick, r.end_tick, r.team, r.end_reason)).collect();
    assert_eq!(
        shape,
        vec![
            (1, 3, 4, RegionEndReason::Spectate),
            (7, 8, 4, RegionEndReason::Kill),
            (12, 12, 5, RegionEndReason::Leave)
        ]
    );
    assert!(out.iter().all(|r| r.start_idx.is_none()));
}

#[test]
fn split_without_gaps_changes_nothing() {
    let data = ticks(&[1, 2, 3]);
    let out = split_regions_on_gaps(vec![ActiveRegion::new(1, 3, 0, false, RegionEndReason::Leave)], &data, RegionEndReason::Afk);
    assert_eq!(out.len(), 1);
    assert_eq!((out[0].start_tick, out[0].end_tick), (1, 3));
}

#[test]
fn split_keeps_every_tick_covered_example() {
    let data = ticks(&[1, 2, 5, 6, 9]);
    let out = split_regions_on_gaps(vec![ActiveRegion::new(0, 9, 0, false, RegionEndReason::Leave)], &data, RegionEndReason::Spectate);
    for d in &data {
        assert!(out.iter().any(|r| r.start_tick <= d.tick && d.tick <= r.end_tick));
    }
    for w in out.windows(2) {
        assert!(w[0].end_tick < w[1].start_tick);
    }
}

#[test]
fn resolve_indices_and_drop_empty_regions() {
    let data = ticks(&[1, 2, 3, 7, 8]);
    let mut regions = vec![
        ActiveRegion::new(0, 2, 0, false, RegionEndReason::Kill),
        ActiveRegion::new(3, 5, 0, false, RegionEndReason::Kill),
        ActiveRegion::new(6, 6, 0, false, RegionEndReason::Kill),
        ActiveRegion::new(7, 9, 0, false, RegionEndReason::Leave),
    ];
    resolve_region_indices(&mut regions, &data);
    let idx: Vec<(Option<usize>, Option<usize>)> = regions.iter().map(|r| (r.start_idx, r.end_idx)).collect();
    assert_eq!(idx, vec![(Some(0), Some(2)), (Some(2), Some(3)), (None, None), (Some(3), Some(5))]);
    drop_regions_without_data(&mut regions);
    assert_eq!(regions.len(), 3);
    assert_eq!(regions[2].start_tick, 7);
}

#[test]
fn compute_active_regions_one_per_run() {
    let data = ticks(&[4, 5, 6, 10, 11, 20]);
    let regions = compute_active_regions(&data);
    let shape: Vec<(i64, i64, Option<usize>, Option<usize>)> =
        regions.iter().map(|r| (r.start_tick, r.end_tick, r.start_idx, r.end_idx)).collect();
    assert_eq!(
        shape,
        vec![(4, 6, Some(0), Some(3)), (10, 11, Some(3), Some(5)), (20, 20, Some(5), Some(6))]
    );
    assert!(regions.iter().all(|r| r.end_reason == RegionEndReason::Unknown && r.team == 0 && !r.practice));
    assert!(compute_active_regions(&[]).is_empty());
}

#[test]
fn region_columns_map_ticks_to_regions() {
    let data = ticks(&[1, 2, 3, 4, 5]);
    let mut regions = vec![
        ActiveRegion::new(1, 2, 3, true, RegionEndReason::Kill),
        ActiveRegion::new(4, 5, 4, false, RegionEndReason::Leave),
    ];
    resolve_region_indices(&mut regions, &data);
    let cols = region_columns(&sequence(data, regions));
    assert_eq!(cols.region_ids, vec![0, 0, 0, 1, 1]);
    assert_eq!(cols.region_teams, vec![3, 3, 0, 4, 4]);
    assert_eq!(cols.region_practices, vec![true, true, false, false, false]);
    assert_eq!(cols.region_end_reasons, vec![0, 0, 7, 5, 5]);
}

#[test]
fn region_columns_later_region_wins_and_ranges_are_cut() {
    let data = ticks(&[1, 2, 3]);
    let mut a = ActiveRegion::new(1, 3, 1, false, RegionEndReason::Kill);
    a.start_idx = Some(0);
    a.end_idx = Some(9);
    let mut b = ActiveRegion::new(2, 2, 2, false, RegionEndReason::Afk);
    b.start_idx = Some(1);
    b.end_idx = Some(2);
    let cols = region_columns(&sequence(data, vec![a, b]));
    assert_eq!(cols.region_ids, vec![0, 1, 0]);
    assert_eq!(cols.region_end_reasons, vec![0, 4, 0]);
}

#[test]
fn region_table_flattens_regions() {
    let mut a = ActiveRegion::new(1, 5, 2, true, RegionEndReason::Teleport);
    a.start_idx = Some(0);
    a.end_idx = Some(5);
    let b = ActiveRegion::new(8, 9, 3, false, RegionEndReason::ChangeMap);
    let t = region_table(&[a, b]);
    assert_eq!(t.ticks, vec![1, 5, 8, 9]);
    assert_eq!(t.indices, vec![0, 5, 0, 0]);
    assert_eq!(t.teams, vec![2, 3]);
    assert_eq!(t.practice, vec![1, 0]);
    assert_eq!(t.end_reasons, vec![8, 6]);
}

#[test]
fn sequence_counter_skips_empty_sequences() {
    let mut c = SequenceCounter::new();
    assert_eq!(c.number_sequence(10), 0);
    assert_eq!(c.number_sequence(0), 1);
    assert_eq!(c.number_sequence(3), 1);
    assert_eq!(c.sequences_written(), 2);
}

#[test]
fn short_sequences_dropped_in_order() {
    let mut seqs = vec![
        sequence(ticks(&[1, 2, 3]), vec![]),
        sequence(ticks(&[1]), vec![]),
        sequence(ticks(&[4, 5]), vec![]),
    ];
    drop_short_sequences(&mut seqs, 2);
    let lens: Vec<usize> = seqs.iter().map(|s| s.data.len()).collect();
    assert_eq!(lens, vec![3, 2]);
}

#[test]
fn splitting_twice_on_same_data_changes_nothing() {
    let data = ticks(&[1, 2, 5, 6, 9, 10]);
    let regions = vec![
        ActiveRegion::new(0, 6, 1, false, RegionEndReason::Kill),
        ActiveRegion::new(9, 12, 2, true, RegionEndReason::Leave),
    ];
    let once = split_regions_on_gaps(regions, &data, RegionEndReason::Spectate);
    let twice = split_regions_on_gaps(once.clone(), &data, RegionEndReason::Afk);
    let shape = |rs: &[ActiveRegion]| -> Vec<(i64, i64, RegionEndReason)> {
        rs.iter().map(|r| (r.start_tick, r.end_tick, r.end_reason)).collect()
    };
    assert_eq!(shape(&once), shape(&twice));
    assert_eq!(
        shape(&once),
        vec![
            (0, 2, RegionEndReason::Spectate),
            (5, 6, RegionEndReason::Kill),
            (9, 12, RegionEndReason::Leave)
        ]
    );
}

#[test]
fn active_regions_partition_every_tick() {
    let data = ticks(&[3, 4, 8, 9, 10, 15]);
    let regions = compute_active_regions(&data);
    for i in 0..data.len() {
        let owners = regions
            .iter()
            .filter(|r| r.start_idx.unwrap() <= i && i < r.end_idx.unwrap())
            .count();
        assert_eq!(owners, 1);
    }
}

#[test]
fn afk_removal_twice_changes_nothing() {
    let dirs = [1.0f32, 1.0, 1.0, 1.0, 0.0, 0.0, 0.0, -1.0, -1.0, 1.0];
    for threshold in 0..4 {
        let mut data: Vec<TickData> = dirs.iter().enumerate().map(|(i, &d)| tick(i as i64, d)).collect();
        drop_afk_ticks(&mut data, threshold);
        let once: Vec<i64> = data.iter().map(|d| d.tick).collect();
        drop_afk_ticks(&mut data, threshold);
        let twice: Vec<i64> = data.iter().map(|d| d.tick).collect();
        assert_eq!(once, twice, "threshold {threshold}");
    }
}

#[test]
fn small_integer_f32_bits_match_the_cast() {
    let samples = [0i32, 1, -1, 2, 3, -3, 7, 8, 100, -255, 4096, 12345, 0xff_ffff, -0xff_ffff];
    for n in samples {
        assert_eq!(small_int_f32_bits(n), Some((n as f32).to_bits()), "{n}");
    }
    for n in -2000..2000 {
        assert_eq!(small_int_f32_bits(n), Some((n as f32).to_bits()), "{n}");
    }
    assert_eq!(small_int_f32_bits(0x100_0000), None);
    assert_eq!(small_int_f32_bits(-0x100_0000), None);
    assert_eq!(small_int_f32_bits(i32::MIN), None);
}
