use teehee_extractor::export::column_names;
use teehee_extractor::features::{Feature, FeatureSet};
use teehee_extractor::TickData;

const GROUPS: [&str; 10] = [
    "position", "velocity", "cursor", "aim", "movement", "inputs", "state", "hook", "weapons", "jumps",
];

const NAMES: [&str; 22] = [
    "pos_x",
    "pos_y",
    "vel_x",
    "vel_y",
    "cursor_x",
    "cursor_y",
    "aim_angle",
    "aim_distance",
    "move_dir",
    "key_jump",
    "key_fire",
    "key_hook",
    "is_grounded",
    "freeze_status",
    "hook_grabbed",
    "hook_pos_x",
    "hook_pos_y",
    "is_hammer",
    "is_gun",
    "is_other_weapon",
    "jumps_remaining",
    "can_jump",
];

fn tick_with_values() -> TickData {
    let v = |x: f32| x.to_bits();
    TickData {
        tick: 7,
        pos_x: v(1.0),
        pos_y: v(2.0),
        vel_x: v(3.0),
        vel_y: v(4.0),
        cursor_x: v(5.0),
        cursor_y: v(6.0),
        aim_angle: v(7.0),
        aim_distance: v(8.0),
        move_dir: v(-1.0),
        key_jump: v(1.0),
        key_fire: v(0.0),
        key_hook: v(1.0),
        is_grounded: v(1.0),
        freeze_status: v(0.0),
        hook_grabbed: v(1.0),
        hook_pos_x: v(9.0),
        hook_pos_y: v(10.0),
        is_hammer: v(0.0),
        is_gun: v(1.0),
        is_other_weapon: v(0.0),
        jumps_remaining: v(2.0),
        can_jump: v(1.0),
    }
}

#[test]
fn all_features_in_canonical_order_with_names() {
    let names: Vec<&str> = Feature::all().iter().map(|f| f.name()).collect();
    assert_eq!(names, NAMES.to_vec());
    assert_eq!(Feature::all().len(), 22);
}

#[test]
fn groups_are_listed_in_order() {
    assert_eq!(Feature::groups().to_vec(), GROUPS.to_vec());
}

#[test]
fn feature_groups() {
    assert_eq!(Feature::PosX.group(), "position");
    assert_eq!(Feature::MoveDir.group(), "movement");
    assert_eq!(Feature::JumpsRemaining.group(), "jumps");
    assert_eq!(Feature::CanJump.group(), "jumps");
    assert_eq!(Feature::IsOtherWeapon.group(), "weapons");
}

#[test]
fn in_group_lists_group_members_in_order() {
    assert_eq!(Feature::in_group("hook"), vec![Feature::HookGrabbed, Feature::HookPosX, Feature::HookPosY]);
    assert_eq!(Feature::in_group("jumps"), vec![Feature::JumpsRemaining, Feature::CanJump]);
    assert_eq!(Feature::in_group("nothing"), Vec::<Feature>::new());
}

#[test]
fn every_group_selects_its_features() {
    for f in Feature::all() {
        assert!(Feature::in_group(f.group()).contains(f));
    }
    let total: usize = Feature::groups().iter().map(|g| Feature::in_group(g).len()).sum();
    assert_eq!(total, 22);
}

#[test]
fn parse_group_feature_and_unknown() {
    assert_eq!(Feature::parse("velocity"), Some(vec![Feature::VelX, Feature::VelY]));
    assert_eq!(Feature::parse("aim_angle"), Some(vec![Feature::AimAngle]));
    assert_eq!(Feature::parse("jumps_remaining"), Some(vec![Feature::JumpsRemaining]));
    assert_eq!(Feature::parse("POS_X"), None);
    assert_eq!(Feature::parse(""), None);
}

#[test]
fn feature_name_round_trip_on_every_feature() {
    for f in Feature::all() {
        assert_eq!(Feature::parse(f.name()), Some(vec![*f]));
    }
}

#[test]
fn feature_names_are_distinct() {
    let mut names: Vec<&str> = Feature::all().iter().map(|f| f.name()).collect();
    names.sort();
    names.dedup();
    assert_eq!(names.len(), 22);
}

#[test]
fn feature_set_all_and_default() {
    let all = FeatureSet::all();
    assert_eq!(all.len(), 22);
    assert!(!all.is_empty());
    assert_eq!(all.names(), NAMES.to_vec());
    assert_eq!(all.features(), Feature::all());
    let d = FeatureSet::default();
    assert_eq!(d.features(), Feature::all());
}

#[test]
fn from_spec_trims_skips_empty_and_keeps_first_appearance() {
    let fs = FeatureSet::from_spec(" position , , pos_x,inputs,key_jump,velocity").unwrap();
    assert_eq!(
        fs.features(),
        &[
            Feature::PosX,
            Feature::PosY,
            Feature::KeyJump,
            Feature::KeyFire,
            Feature::KeyHook,
            Feature::VelX,
            Feature::VelY
        ]
    );
    assert_eq!(fs.names(), vec!["pos_x", "pos_y", "key_jump", "key_fire", "key_hook", "vel_x", "vel_y"]);
}

#[test]
fn from_spec_selected_features_are_distinct() {
    let fs = FeatureSet::from_spec("hook,hook_pos_x,hook,hook_grabbed").unwrap();
    assert_eq!(fs.features(), &[Feature::HookGrabbed, Feature::HookPosX, Feature::HookPosY]);
}

#[test]
fn from_spec_unknown_name_error_message() {
    let err = FeatureSet::from_spec("position,bogus,velocity").unwrap_err();
    let expected = format!(
        "Unknown feature or group: '{}'. Available groups: {:?}, features: {:?}",
        "bogus",
        GROUPS.to_vec(),
        NAMES.to_vec()
    );
    assert_eq!(err, expected);
}

#[test]
fn from_spec_nothing_selected() {
    assert_eq!(FeatureSet::from_spec("").unwrap_err(), "No features selected");
    assert_eq!(FeatureSet::from_spec(" , ,").unwrap_err(), "No features selected");
}

#[test]
fn extract_follows_selection_order() {
    let t = tick_with_values();
    let fs = FeatureSet::from_spec("movement,position,jumps").unwrap();
    let values: Vec<f32> = fs.extract(&t).into_iter().map(f32::from_bits).collect();
    assert_eq!(values, vec![-1.0, 1.0, 2.0, 2.0, 1.0]);
    assert_eq!(f32::from_bits(fs.extract_single(&t, Feature::HookPosY)), 10.0);
    assert_eq!(f32::from_bits(fs.extract_single(&t, Feature::JumpsRemaining)), 2.0);
}

#[test]
fn extract_all_gives_one_value_per_feature() {
    let t = tick_with_values();
    let all = FeatureSet::all();
    let values = all.extract(&t);
    assert_eq!(values.len(), 22);
    for (i, f) in all.features().iter().enumerate() {
        assert_eq!(values[i], all.extract_single(&t, *f));
    }
}

#[test]
fn column_names_put_metadata_before_features() {
    let fs = FeatureSet::from_spec("aim").unwrap();
    assert_eq!(
        column_names(&fs),
        vec![
            "seq_id",
            "player_name",
            "team",
            "map_name",
            "time_of_day",
            "timeout_code",
            "tick",
            "region_id",
            "region_team",
            "region_practice",
            "region_end_reason",
            "aim_angle",
            "aim_distance"
        ]
    );
}

#[test]
fn groups_together_give_all_features() {
    let joined: Vec<Feature> = Feature::groups().iter().flat_map(|g| Feature::in_group(g)).collect();
    assert_eq!(joined, Feature::all().to_vec());
    assert!(Feature::in_group("position_x").is_empty());
    assert!(Feature::groups().iter().all(|g| !Feature::in_group(g).is_empty()));
}
