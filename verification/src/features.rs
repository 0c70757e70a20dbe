//! Feature definitions and the selection of features for export.
use vstd::prelude::*;
use crate::sequence::TickData;
use crate::text::{split_commas, split_on_commas, str_equal, trim, trimmed};

verus! {

/// All available features, grouped.
#[derive(Debug, Clone, Copy, PartialEq, Eq, Hash, Structural)]
pub enum Feature {
    // position group
    PosX,
    PosY,
    // velocity group
    VelX,
    VelY,
    // cursor group (raw target position)
    CursorX,
    CursorY,
    // aim group (derived from cursor)
    AimAngle,
    AimDistance,
    // movement group
    MoveDir,
    // inputs group
    KeyJump,
    KeyFire,
    KeyHook,
    // state group
    IsGrounded,
    FreezeStatus,
    // hook group
    HookGrabbed,
    HookPosX,
    HookPosY,
    // weapons group
    IsHammer,
    IsGun,
    IsOtherWeapon,
    // jumps group
    JumpsRemaining,
    CanJump,
}

/// The name of a feature (used on the command line and in exported files).
pub open spec fn feature_name(f: Feature) -> Seq<char> {
    match f {
        Feature::PosX => "pos_x"@,
        Feature::PosY => "pos_y"@,
        Feature::VelX => "vel_x"@,
        Feature::VelY => "vel_y"@,
        Feature::CursorX => "cursor_x"@,
        Feature::CursorY => "cursor_y"@,
        Feature::AimAngle => "aim_angle"@,
        Feature::AimDistance => "aim_distance"@,
        Feature::MoveDir => "move_dir"@,
        Feature::KeyJump => "key_jump"@,
        Feature::KeyFire => "key_fire"@,
        Feature::KeyHook => "key_hook"@,
        Feature::IsGrounded => "is_grounded"@,
        Feature::FreezeStatus => "freeze_status"@,
        Feature::HookGrabbed => "hook_grabbed"@,
        Feature::HookPosX => "hook_pos_x"@,
        Feature::HookPosY => "hook_pos_y"@,
        Feature::IsHammer => "is_hammer"@,
        Feature::IsGun => "is_gun"@,
        Feature::IsOtherWeapon => "is_other_weapon"@,
        Feature::JumpsRemaining => "jumps_remaining"@,
        Feature::CanJump => "can_jump"@,
    }
}

/// The group a feature belongs to.
pub open spec fn feature_group(f: Feature) -> Seq<char> {
    match f {
        Feature::PosX | Feature::PosY => "position"@,
        Feature::VelX | Feature::VelY => "velocity"@,
        Feature::CursorX | Feature::CursorY => "cursor"@,
        Feature::AimAngle | Feature::AimDistance => "aim"@,
        Feature::MoveDir => "movement"@,
        Feature::KeyJump | Feature::KeyFire | Feature::KeyHook => "inputs"@,
        Feature::IsGrounded | Feature::FreezeStatus => "state"@,
        Feature::HookGrabbed | Feature::HookPosX | Feature::HookPosY => "hook"@,
        Feature::IsHammer | Feature::IsGun | Feature::IsOtherWeapon => "weapons"@,
        Feature::JumpsRemaining | Feature::CanJump => "jumps"@,
    }
}

/// All features in canonical order.
pub open spec fn all_features() -> Seq<Feature> {
    seq![
        Feature::PosX,
        Feature::PosY,
        Feature::VelX,
        Feature::VelY,
        Feature::CursorX,
        Feature::CursorY,
        Feature::AimAngle,
        Feature::AimDistance,
        Feature::MoveDir,
        Feature::KeyJump,
        Feature::KeyFire,
        Feature::KeyHook,
        Feature::IsGrounded,
        Feature::FreezeStatus,
        Feature::HookGrabbed,
        Feature::HookPosX,
        Feature::HookPosY,
        Feature::IsHammer,
        Feature::IsGun,
        Feature::IsOtherWeapon,
        Feature::JumpsRemaining,
        Feature::CanJump,
    ]
}

/// All group names, in order.
pub open spec fn all_groups() -> Seq<Seq<char>> {
    seq!["position"@, "velocity"@, "cursor"@, "aim"@, "movement"@, "inputs"@, "state"@, "hook"@, "weapons"@, "jumps"@]
}

/// The features of `fs` that belong to the group, in order.
pub open spec fn features_in(fs: Seq<Feature>, group: Seq<char>) -> Seq<Feature>
    decreases fs.len(),
{
    if fs.len() == 0 {
        Seq::empty()
    } else {
        let before = features_in(fs.drop_last(), group);
        if feature_group(fs.last()) == group {
            before.push(fs.last())
        } else {
            before
        }
    }
}

/// The first feature of `fs` with the name, if any.
pub open spec fn find_named(fs: Seq<Feature>, name: Seq<char>) -> Option<Feature>
    decreases fs.len(),
{
    if fs.len() == 0 {
        None
    } else if feature_name(fs[0]) == name {
        Some(fs[0])
    } else {
        find_named(fs.drop_first(), name)
    }
}

/// The features a feature or group name stands for: a group name gives all
/// features of the group; otherwise a feature name gives that feature.
pub open spec fn parse_name(name: Seq<char>) -> Option<Seq<Feature>> {
    if all_groups().contains(name) {
        Some(features_in(all_features(), name))
    } else {
        match find_named(all_features(), name) {
            Some(f) => Some(seq![f]),
            None => None,
        }
    }
}

/// The value of a feature in a tick (bit pattern of the `f32` value).
pub open spec fn feature_value(t: TickData, f: Feature) -> u32 {
    match f {
        Feature::PosX => t.pos_x,
        Feature::PosY => t.pos_y,
        Feature::VelX => t.vel_x,
        Feature::VelY => t.vel_y,
        Feature::CursorX => t.cursor_x,
        Feature::CursorY => t.cursor_y,
        Feature::AimAngle => t.aim_angle,
        Feature::AimDistance => t.aim_distance,
        Feature::MoveDir => t.move_dir,
        Feature::KeyJump => t.key_jump,
        Feature::KeyFire => t.key_fire,
        Feature::KeyHook => t.key_hook,
        Feature::IsGrounded => t.is_grounded,
        Feature::FreezeStatus => t.freeze_status,
        Feature::HookGrabbed => t.hook_grabbed,
        Feature::HookPosX => t.hook_pos_x,
        Feature::HookPosY => t.hook_pos_y,
        Feature::IsHammer => t.is_hammer,
        Feature::IsGun => t.is_gun,
        Feature::IsOtherWeapon => t.is_other_weapon,
        Feature::JumpsRemaining => t.jumps_remaining,
        Feature::CanJump => t.can_jump,
    }
}

impl Feature {
    /// Get the string name of this feature (used in CLI and exported metadata)
    pub fn name(&self) -> (s: &'static str)
        ensures
            s@ == feature_name(*self),
    {
        match self {
            Feature::PosX => "pos_x",
            Feature::PosY => "pos_y",
            Feature::VelX => "vel_x",
            Feature::VelY => "vel_y",
            Feature::CursorX => "cursor_x",
            Feature::CursorY => "cursor_y",
            Feature::AimAngle => "aim_angle",
            Feature::AimDistance => "aim_distance",
            Feature::MoveDir => "move_dir",
            Feature::KeyJump => "key_jump",
            Feature::KeyFire => "key_fire",
            Feature::KeyHook => "key_hook",
            Feature::IsGrounded => "is_grounded",
            Feature::FreezeStatus => "freeze_status",
            Feature::HookGrabbed => "hook_grabbed",
            Feature::HookPosX => "hook_pos_x",
            Feature::HookPosY => "hook_pos_y",
            Feature::IsHammer => "is_hammer",
            Feature::IsGun => "is_gun",
            Feature::IsOtherWeapon => "is_other_weapon",
            Feature::JumpsRemaining => "jumps_remaining",
            Feature::CanJump => "can_jump",
        }
    }

    /// Get the group this feature belongs to
    pub fn group(&self) -> (s: &'static str)
        ensures
            s@ == feature_group(*self),
    {
        match self {
            Feature::PosX | Feature::PosY => "position",
            Feature::VelX | Feature::VelY => "velocity",
            Feature::CursorX | Feature::CursorY => "cursor",
            Feature::AimAngle | Feature::AimDistance => "aim",
            Feature::MoveDir => "movement",
            Feature::KeyJump | Feature::KeyFire | Feature::KeyHook => "inputs",
            Feature::IsGrounded | Feature::FreezeStatus => "state",
            Feature::HookGrabbed | Feature::HookPosX | Feature::HookPosY => "hook",
            Feature::IsHammer | Feature::IsGun | Feature::IsOtherWeapon => "weapons",
            Feature::JumpsRemaining | Feature::CanJump => "jumps",
        }
    }

    /// All features in canonical order
    pub fn all() -> (r: &'static [Feature])
        ensures
            r@ == all_features(),
    {
        let r: &'static [Feature] = &[
            Feature::PosX,
            Feature::PosY,
            Feature::VelX,
            Feature::VelY,
            Feature::CursorX,
            Feature::CursorY,
            Feature::AimAngle,
            Feature::AimDistance,
            Feature::MoveDir,
            Feature::KeyJump,
            Feature::KeyFire,
            Feature::KeyHook,
            Feature::IsGrounded,
            Feature::FreezeStatus,
            Feature::HookGrabbed,
            Feature::HookPosX,
            Feature::HookPosY,
            Feature::IsHammer,
            Feature::IsGun,
            Feature::IsOtherWeapon,
            Feature::JumpsRemaining,
            Feature::CanJump,
        ];
        assert(r@ == all_features());
        r
    }

    /// All available group names
    pub fn groups() -> (r: &'static [&'static str])
        ensures
            r@.len() == all_groups().len(),
            forall|i: int| 0 <= i < r@.len() ==> #[trigger] r@[i]@ == all_groups()[i],
    {
        let r: &'static [&'static str] = &["position", "velocity", "cursor", "aim", "movement", "inputs", "state", "hook", "weapons", "jumps"];
        r
    }

    /// Get all features in a group, in canonical order
    pub fn in_group(group: &str) -> (r: Vec<Feature>)
        ensures
            r@ == features_in(all_features(), group@),
    {
        let all = Feature::all();
        let mut r: Vec<Feature> = Vec::new();
        let mut i: usize = 0;
        while i < all.len()
            invariant
                all@ == all_features(),
                i <= all@.len(),
                r@ == features_in(all@.take(i as int), group@),
            decreases all@.len() - i,
        {
            let f = all[i];
            proof {
                assert(all@.take(i + 1).drop_last() =~= all@.take(i as int));
                assert(all@.take(i + 1).last() == f);
            }
            if str_equal(f.group(), group) {
                r.push(f);
            }
            i = i + 1;
        }
        assert(all@.take(all@.len() as int) =~= all@);
        r
    }

    /// Parse a feature or group name into features
    pub fn parse(name: &str) -> (r: Option<Vec<Feature>>)
        ensures
            match r {
                Some(v) => parse_name(name@) == Some(v@),
                None => parse_name(name@) is None,
            },
    {
        let groups = Feature::groups();
        let mut g: usize = 0;
        while g < groups.len()
            invariant
                g <= groups@.len(),
                groups@.len() == all_groups().len(),
                forall|i: int| 0 <= i < groups@.len() ==> #[trigger] groups@[i]@ == all_groups()[i],
                forall|i: int| 0 <= i < g ==> all_groups()[i] != name@,
            decreases groups@.len() - g,
        {
            if str_equal(groups[g], name) {
                proof {
                    assert(all_groups()[g as int] == name@);
                }
                return Some(Feature::in_group(name));
            }
            g = g + 1;
        }
        proof {
            assert(!all_groups().contains(name@));
        }
        let all = Feature::all();
        let mut i: usize = 0;
        assert(all@.skip(0) =~= all@);
        while i < all.len()
            invariant
                all@ == all_features(),
                i <= all@.len(),
                find_named(all@, name@) == find_named(all@.skip(i as int), name@),
                !all_groups().contains(name@),
            decreases all@.len() - i,
        {
            let f = all[i];
            proof {
                assert(all@.skip(i as int)[0] == f);
                assert(all@.skip(i as int).drop_first() =~= all@.skip(i + 1));
            }
            if str_equal(f.name(), name) {
                let v = vec![f];
                assert(v@ =~= seq![f]);
                assert(find_named(all@.skip(i as int), name@) == Some(f));
                return Some(v);
            }
            i = i + 1;
        }
        None
    }
}

/// The names of all features, in canonical order.
pub open spec fn all_feature_names() -> Seq<Seq<char>> {
    Seq::new(all_features().len(), |i: int| feature_name(all_features()[i]))
}

/// `fs` followed by the features of `ps` that it does not hold yet, in order.
pub open spec fn add_new(fs: Seq<Feature>, ps: Seq<Feature>) -> Seq<Feature>
    decreases ps.len(),
{
    if ps.len() == 0 {
        fs
    } else {
        let before = add_new(fs, ps.drop_last());
        if before.contains(ps.last()) {
            before
        } else {
            before.push(ps.last())
        }
    }
}

/// The features selected by a list of (untrimmed) names, in order of first
/// appearance: empty names are skipped; the first name that is neither a
/// feature nor a group is the error.
pub open spec fn select_features(names: Seq<Seq<char>>) -> Result<Seq<Feature>, Seq<char>>
    decreases names.len(),
{
    if names.len() == 0 {
        Ok(Seq::empty())
    } else {
        match select_features(names.drop_last()) {
            Err(bad) => Err(bad),
            Ok(fs) => {
                let name = trimmed(names.last());
                if name.len() == 0 {
                    Ok(fs)
                } else {
                    match parse_name(name) {
                        Some(ps) => Ok(add_new(fs, ps)),
                        None => Err(name),
                    }
                }
            },
        }
    }
}

/// Items quoted and separated by ", " (as `{:?}` prints string items).
pub open spec fn quoted_items(items: Seq<Seq<char>>) -> Seq<char>
    decreases items.len(),
{
    if items.len() == 0 {
        Seq::empty()
    } else if items.len() == 1 {
        "\""@ + items[0] + "\""@
    } else {
        quoted_items(items.drop_last()) + ", "@ + ("\""@ + items.last() + "\""@)
    }
}

/// A list of strings as `{:?}` prints it.
pub open spec fn debug_list(items: Seq<Seq<char>>) -> Seq<char> {
    "["@ + quoted_items(items) + "]"@
}

/// The error message for a name that is neither a feature nor a group.
pub open spec fn unknown_name_message(name: Seq<char>) -> Seq<char> {
    "Unknown feature or group: '"@ + name + "'. Available groups: "@ + debug_list(all_groups())
        + ", features: "@ + debug_list(all_feature_names())
}

/// What `FeatureSet::from_spec` yields for a comma-separated list.
pub open spec fn feature_spec_result(spec: Seq<char>) -> Result<Seq<Feature>, Seq<char>> {
    match select_features(split_commas(spec)) {
        Err(bad) => Err(unknown_name_message(bad)),
        Ok(fs) => if fs.len() == 0 {
            Err("No features selected"@)
        } else {
            Ok(fs)
        },
    }
}

/// Selected features for extraction, in order.
#[derive(Debug, Clone)]
pub struct FeatureSet {
    features: Vec<Feature>,
}

impl View for FeatureSet {
    type V = Seq<Feature>;

    closed spec fn view(&self) -> Seq<Feature> {
        self.features@
    }
}

impl Default for FeatureSet {
    fn default() -> (s: Self)
        ensures
            s@ == all_features(),
    {
        Self::all()
    }
}

fn append_quoted_items(out: &mut String, items: &[&str])
    ensures
        final(out)@ == old(out)@ + quoted_items(items@.map_values(|s: &str| s@)),
{
    let ghost views = items@.map_values(|s: &str| s@);
    let mut i: usize = 0;
    while i < items.len()
        invariant
            i <= items@.len(),
            views == items@.map_values(|s: &str| s@),
            out@ == old(out)@ + quoted_items(views.take(i as int)),
        decreases items@.len() - i,
    {
        let ghost before = out@;
        if i > 0 {
            out.append(", ");
        }
        out.append("\"");
        out.append(items[i]);
        out.append("\"");
        proof {
            let t = views.take(i + 1);
            assert(t.drop_last() =~= views.take(i as int));
            assert(t.last() == items@[i as int]@);
            if i == 0 {
                assert(t.len() == 1);
                assert(t[0] == items@[0]@);
            }
            assert(out@ =~= old(out)@ + quoted_items(t));
        }
        i = i + 1;
    }
    proof {
        assert(views.take(items@.len() as int) =~= views);
    }
}

fn feature_names_of(fs: &[Feature]) -> (names: Vec<&'static str>)
    ensures
        names@.len() == fs@.len(),
        forall|i: int| 0 <= i < fs@.len() ==> #[trigger] names@[i]@ == feature_name(fs@[i]),
{
    let mut names: Vec<&'static str> = Vec::new();
    let mut i: usize = 0;
    while i < fs.len()
        invariant
            i <= fs@.len(),
            names@.len() == i,
            forall|j: int| 0 <= j < i ==> #[trigger] names@[j]@ == feature_name(fs@[j]),
        decreases fs@.len() - i,
    {
        names.push(fs[i].name());
        i = i + 1;
    }
    names
}

fn unknown_name_text(name: &str) -> (msg: String)
    ensures
        msg@ == unknown_name_message(name@),
{
    let mut msg = String::from_str("Unknown feature or group: '");
    msg.append(name);
    msg.append("'. Available groups: [");
    let groups = Feature::groups();
    append_quoted_items(&mut msg, groups);
    msg.append("], features: [");
    let names = feature_names_of(Feature::all());
    append_quoted_items(&mut msg, names.as_slice());
    msg.append("]");
    proof {
        assert(groups@.map_values(|s: &str| s@) =~= all_groups());
        assert(names@.map_values(|s: &str| s@) =~= all_feature_names());
        reveal_strlit("[");
        reveal_strlit("]");
        reveal_strlit("'. Available groups: [");
        reveal_strlit("'. Available groups: ");
        reveal_strlit("], features: [");
        reveal_strlit(", features: ");
        assert(msg@ =~= unknown_name_message(name@));
    }
    msg
}

fn add_new_features(features: &mut Vec<Feature>, parsed: &Vec<Feature>)
    ensures
        final(features)@ == add_new(old(features)@, parsed@),
{
    let mut i: usize = 0;
    while i < parsed.len()
        invariant
            i <= parsed@.len(),
            features@ == add_new(old(features)@, parsed@.take(i as int)),
        decreases parsed@.len() - i,
    {
        let f = parsed[i];
        proof {
            assert(parsed@.take(i + 1).drop_last() =~= parsed@.take(i as int));
            assert(parsed@.take(i + 1).last() == f);
        }
        let mut seen = false;
        let mut k: usize = 0;
        while k < features.len()
            invariant
                k <= features@.len(),
                seen == exists|j: int| 0 <= j < k && features@[j] == f,
            decreases features@.len() - k,
        {
            if features[k] == f {
                seen = true;
            }
            k = k + 1;
        }
        if !seen {
            features.push(f);
        }
        i = i + 1;
    }
    assert(parsed@.take(parsed@.len() as int) =~= parsed@);
}

impl FeatureSet {
    /// Create a feature set with all features
    pub fn all() -> (s: Self)
        ensures
            s@ == all_features(),
    {
        let all = Feature::all();
        let mut features: Vec<Feature> = Vec::new();
        let mut i: usize = 0;
        while i < all.len()
            invariant
                i <= all@.len(),
                features@ == all@.take(i as int),
            decreases all@.len() - i,
        {
            features.push(all[i]);
            proof {
                assert(features@ =~= all@.take(i + 1));
            }
            i = i + 1;
        }
        assert(all@.take(all@.len() as int) =~= all@);
        FeatureSet { features }
    }

    /// Create a feature set from a comma-separated string of feature/group
    /// names: names are trimmed, empty names skipped, features kept in order
    /// of first appearance without repetition. An unknown name, or no
    /// selected feature at all, is an error with a message.
    pub fn from_spec(spec: &str) -> (r: Result<Self, String>)
        ensures
            match feature_spec_result(spec@) {
                Ok(fs) => r matches Ok(s) && s@ == fs,
                Err(msg) => r matches Err(m) && m@ == msg,
            },
    {
        let pieces = split_on_commas(spec);
        let ghost names = split_commas(spec@);
        let mut features: Vec<Feature> = Vec::new();
        let mut i: usize = 0;
        while i < pieces.len()
            invariant
                i <= pieces@.len(),
                pieces@.len() == names.len(),
                names == split_commas(spec@),
                forall|j: int| 0 <= j < pieces@.len() ==> #[trigger] pieces@[j]@ == names[j],
                select_features(names.take(i as int)) == Ok::<Seq<Feature>, Seq<char>>(features@),
            decreases pieces@.len() - i,
        {
            let name = trim(pieces[i].as_str());
            proof {
                assert(names.take(i + 1).drop_last() =~= names.take(i as int));
                assert(names.take(i + 1).last() == names[i as int]);
            }
            if !name.is_empty() {
                match Feature::parse(name) {
                    Some(parsed) => {
                        add_new_features(&mut features, &parsed);
                    },
                    None => {
                        proof {
                            lemma_select_error_sticks(names, i as int + 1, name@);
                        }
                        return Err(unknown_name_text(name));
                    },
                }
            }
            i = i + 1;
        }
        proof {
            assert(names.take(names.len() as int) =~= names);
        }
        if features.len() == 0 {
            return Err(String::from_str("No features selected"));
        }
        Ok(FeatureSet { features })
    }

    /// Get the selected features in order
    pub fn features(&self) -> (r: &[Feature])
        ensures
            r@ == self@,
    {
        self.features.as_slice()
    }

    /// Get feature names in order
    pub fn names(&self) -> (r: Vec<&'static str>)
        ensures
            r@.len() == self@.len(),
            forall|i: int| 0 <= i < self@.len() ==> #[trigger] r@[i]@ == feature_name(self@[i]),
    {
        feature_names_of(self.features.as_slice())
    }

    /// Number of selected features
    pub fn len(&self) -> (n: usize)
        ensures
            n == self@.len(),
    {
        self.features.len()
    }

    /// Check if empty
    pub fn is_empty(&self) -> (b: bool)
        ensures
            b == (self@.len() == 0),
    {
        self.features.len() == 0
    }

    /// Extract a single feature value from a tick (bit pattern of the `f32` value)
    pub fn extract_single(&self, tick: &TickData, feature: Feature) -> (v: u32)
        ensures
            v == feature_value(*tick, feature),
    {
        match feature {
            Feature::PosX => tick.pos_x,
            Feature::PosY => tick.pos_y,
            Feature::VelX => tick.vel_x,
            Feature::VelY => tick.vel_y,
            Feature::CursorX => tick.cursor_x,
            Feature::CursorY => tick.cursor_y,
            Feature::AimAngle => tick.aim_angle,
            Feature::AimDistance => tick.aim_distance,
            Feature::MoveDir => tick.move_dir,
            Feature::KeyJump => tick.key_jump,
            Feature::KeyFire => tick.key_fire,
            Feature::KeyHook => tick.key_hook,
            Feature::IsGrounded => tick.is_grounded,
            Feature::FreezeStatus => tick.freeze_status,
            Feature::HookGrabbed => tick.hook_grabbed,
            Feature::HookPosX => tick.hook_pos_x,
            Feature::HookPosY => tick.hook_pos_y,
            Feature::IsHammer => tick.is_hammer,
            Feature::IsGun => tick.is_gun,
            Feature::IsOtherWeapon => tick.is_other_weapon,
            Feature::JumpsRemaining => tick.jumps_remaining,
            Feature::CanJump => tick.can_jump,
        }
    }

    /// Extract the values of the selected features from a tick, in order
    pub fn extract(&self, tick: &TickData) -> (values: Vec<u32>)
        ensures
            values@ == Seq::new(self@.len(), |i: int| feature_value(*tick, self@[i])),
    {
        let mut values: Vec<u32> = Vec::new();
        let mut i: usize = 0;
        while i < self.features.len()
            invariant
                i <= self.features@.len(),
                values@ == Seq::new(i as nat, |j: int| feature_value(*tick, self.features@[j])),
            decreases self.features@.len() - i,
        {
            values.push(self.extract_single(tick, self.features[i]));
            proof {
                assert(values@ =~= Seq::new((i + 1) as nat, |j: int| feature_value(*tick, self.features@[j])));
            }
            i = i + 1;
        }
        values
    }
}

proof fn lemma_select_error_sticks(names: Seq<Seq<char>>, k: int, bad: Seq<char>)
    requires
        0 < k <= names.len(),
        select_features(names.take(k - 1)) is Ok,
        trimmed(names[k - 1]) == bad,
        bad.len() > 0,
        parse_name(bad) is None,
    ensures
        select_features(names) == Err::<Seq<Feature>, Seq<char>>(bad),
    decreases names.len() - k,
{
    assert(names.take(k).drop_last() =~= names.take(k - 1));
    assert(select_features(names.take(k)) == Err::<Seq<Feature>, Seq<char>>(bad));
    lemma_error_stays(names, k, bad);
}

proof fn lemma_error_stays(names: Seq<Seq<char>>, k: int, bad: Seq<char>)
    requires
        0 <= k <= names.len(),
        select_features(names.take(k)) == Err::<Seq<Feature>, Seq<char>>(bad),
    ensures
        select_features(names) == Err::<Seq<Feature>, Seq<char>>(bad),
    decreases names.len() - k,
{
    if k < names.len() {
        assert(names.take(k + 1).drop_last() =~= names.take(k));
        lemma_error_stays(names, k + 1, bad);
    } else {
        assert(names.take(k) =~= names);
    }
}


/// A number that equal texts share: length, first and last character.
pub open spec fn text_key(s: Seq<char>) -> int {
    s.len() * 1000000 + (s[0] as int) * 1000 + (s[s.len() - 1] as int)
}

spec fn feature_key(f: Feature) -> int {
    match f {
        Feature::PosX => 5112120,
        Feature::PosY => 5112121,
        Feature::VelX => 5118120,
        Feature::VelY => 5118121,
        Feature::CursorX => 8099120,
        Feature::CursorY => 8099121,
        Feature::AimAngle => 9097101,
        Feature::AimDistance => 12097101,
        Feature::MoveDir => 8109114,
        Feature::KeyJump => 8107112,
        Feature::KeyFire => 8107101,
        Feature::KeyHook => 8107107,
        Feature::IsGrounded => 11105100,
        Feature::FreezeStatus => 13102115,
        Feature::HookGrabbed => 12104100,
        Feature::HookPosX => 10104120,
        Feature::HookPosY => 10104121,
        Feature::IsHammer => 9105114,
        Feature::IsGun => 6105110,
        Feature::IsOtherWeapon => 15105110,
        Feature::JumpsRemaining => 15106103,
        Feature::CanJump => 8099112,
    }
}

spec fn feature_position(f: Feature) -> int {
    match f {
        Feature::PosX => 0,
        Feature::PosY => 1,
        Feature::VelX => 2,
        Feature::VelY => 3,
        Feature::CursorX => 4,
        Feature::CursorY => 5,
        Feature::AimAngle => 6,
        Feature::AimDistance => 7,
        Feature::MoveDir => 8,
        Feature::KeyJump => 9,
        Feature::KeyFire => 10,
        Feature::KeyHook => 11,
        Feature::IsGrounded => 12,
        Feature::FreezeStatus => 13,
        Feature::HookGrabbed => 14,
        Feature::HookPosX => 15,
        Feature::HookPosY => 16,
        Feature::IsHammer => 17,
        Feature::IsGun => 18,
        Feature::IsOtherWeapon => 19,
        Feature::JumpsRemaining => 20,
        Feature::CanJump => 21,
    }
}

proof fn lemma_feature_key(f: Feature)
    ensures
        text_key(feature_name(f)) == feature_key(f),
{
    match f {
        Feature::PosX => {
            reveal_strlit("pos_x");
        },
        Feature::PosY => {
            reveal_strlit("pos_y");
        },
        Feature::VelX => {
            reveal_strlit("vel_x");
        },
        Feature::VelY => {
            reveal_strlit("vel_y");
        },
        Feature::CursorX => {
            reveal_strlit("cursor_x");
        },
        Feature::CursorY => {
            reveal_strlit("cursor_y");
        },
        Feature::AimAngle => {
            reveal_strlit("aim_angle");
        },
        Feature::AimDistance => {
            reveal_strlit("aim_distance");
        },
        Feature::MoveDir => {
            reveal_strlit("move_dir");
        },
        Feature::KeyJump => {
            reveal_strlit("key_jump");
        },
        Feature::KeyFire => {
            reveal_strlit("key_fire");
        },
        Feature::KeyHook => {
            reveal_strlit("key_hook");
        },
        Feature::IsGrounded => {
            reveal_strlit("is_grounded");
        },
        Feature::FreezeStatus => {
            reveal_strlit("freeze_status");
        },
        Feature::HookGrabbed => {
            reveal_strlit("hook_grabbed");
        },
        Feature::HookPosX => {
            reveal_strlit("hook_pos_x");
        },
        Feature::HookPosY => {
            reveal_strlit("hook_pos_y");
        },
        Feature::IsHammer => {
            reveal_strlit("is_hammer");
        },
        Feature::IsGun => {
            reveal_strlit("is_gun");
        },
        Feature::IsOtherWeapon => {
            reveal_strlit("is_other_weapon");
        },
        Feature::JumpsRemaining => {
            reveal_strlit("jumps_remaining");
        },
        Feature::CanJump => {
            reveal_strlit("can_jump");
        },
    }
}

proof fn lemma_group_keys(i: int)
    requires
        0 <= i < all_groups().len(),
    ensures
        forall|f: Feature| #[trigger] feature_key(f) != text_key(all_groups()[i]),
{
        if i == 0 {
            reveal_strlit("position");
            assert(all_groups()[i] == "position"@);
        } else if i == 1 {
            reveal_strlit("velocity");
            assert(all_groups()[i] == "velocity"@);
        } else if i == 2 {
            reveal_strlit("cursor");
            assert(all_groups()[i] == "cursor"@);
        } else if i == 3 {
            reveal_strlit("aim");
            assert(all_groups()[i] == "aim"@);
        } else if i == 4 {
            reveal_strlit("movement");
            assert(all_groups()[i] == "movement"@);
        } else if i == 5 {
            reveal_strlit("inputs");
            assert(all_groups()[i] == "inputs"@);
        } else if i == 6 {
            reveal_strlit("state");
            assert(all_groups()[i] == "state"@);
        } else if i == 7 {
            reveal_strlit("hook");
            assert(all_groups()[i] == "hook"@);
        } else if i == 8 {
            reveal_strlit("weapons");
            assert(all_groups()[i] == "weapons"@);
        } else if i == 9 {
            reveal_strlit("jumps");
            assert(all_groups()[i] == "jumps"@);
        }
}

proof fn lemma_find_named(fs: Seq<Feature>, f: Feature)
    requires
        fs.contains(f),
        forall|j: int| 0 <= j < fs.len() && feature_name(#[trigger] fs[j]) == feature_name(f) ==> fs[j] == f,
    ensures
        find_named(fs, feature_name(f)) == Some(f),
    decreases fs.len(),
{
    if feature_name(fs[0]) != feature_name(f) {
        let k = choose|k: int| 0 <= k < fs.len() && fs[k] == f;
        assert(fs.drop_first()[k - 1] == f);
        assert forall|j: int| 0 <= j < fs.drop_first().len() && feature_name(#[trigger] fs.drop_first()[j]) == feature_name(f) implies fs.drop_first()[j] == f by {
            assert(fs.drop_first()[j] == fs[j + 1]);
        }
        lemma_find_named(fs.drop_first(), f);
    }
}

/// No two features share a name.
pub proof fn feature_names_distinct(f: Feature, g: Feature)
    ensures
        feature_name(f) == feature_name(g) ==> f == g,
{
    lemma_feature_key(f);
    lemma_feature_key(g);
}

/// Each feature appears exactly once in the canonical list.
pub proof fn all_features_lists_each_feature_once(f: Feature)
    ensures
        all_features().contains(f),
        all_features().no_duplicates(),
{
    assert(all_features()[feature_position(f)] == f);
}

/// Every feature name parses back to exactly that feature: no feature name
/// is a group name, and no two features share a name.
pub proof fn feature_name_round_trip(f: Feature)
    ensures
        parse_name(feature_name(f)) == Some(seq![f]),
{
    lemma_feature_key(f);
    if all_groups().contains(feature_name(f)) {
        let i = choose|i: int| 0 <= i < all_groups().len() && all_groups()[i] == feature_name(f);
        lemma_group_keys(i);
    }
    let all = all_features();
    all_features_lists_each_feature_once(f);
    assert forall|j: int| 0 <= j < all.len() && feature_name(#[trigger] all[j]) == feature_name(f) implies all[j] == f by {
        feature_names_distinct(all[j], f);
    }
    lemma_find_named(all, f);
}

spec fn group_position(f: Feature) -> int {
    match f {
        Feature::PosX => 0,
        Feature::PosY => 0,
        Feature::VelX => 1,
        Feature::VelY => 1,
        Feature::CursorX => 2,
        Feature::CursorY => 2,
        Feature::AimAngle => 3,
        Feature::AimDistance => 3,
        Feature::MoveDir => 4,
        Feature::KeyJump => 5,
        Feature::KeyFire => 5,
        Feature::KeyHook => 5,
        Feature::IsGrounded => 6,
        Feature::FreezeStatus => 6,
        Feature::HookGrabbed => 7,
        Feature::HookPosX => 7,
        Feature::HookPosY => 7,
        Feature::IsHammer => 8,
        Feature::IsGun => 8,
        Feature::IsOtherWeapon => 8,
        Feature::JumpsRemaining => 9,
        Feature::CanJump => 9,
    }
}

proof fn lemma_features_in_contains(fs: Seq<Feature>, f: Feature)
    requires
        fs.contains(f),
    ensures
        features_in(fs, feature_group(f)).contains(f),
    decreases fs.len(),
{
    if fs.last() == f {
        let r = features_in(fs, feature_group(f));
        assert(r[r.len() - 1] == f);
    } else {
        let k = choose|k: int| 0 <= k < fs.len() && fs[k] == f;
        assert(fs.drop_last()[k] == f);
        lemma_features_in_contains(fs.drop_last(), f);
        let b = features_in(fs.drop_last(), feature_group(f));
        let j = choose|j: int| 0 <= j < b.len() && b[j] == f;
        assert(features_in(fs, feature_group(f))[j] == f);
    }
}

/// Every feature belongs to one of the listed groups, and that group's
/// name selects it.
pub proof fn feature_group_selects_feature(f: Feature)
    ensures
        all_groups().contains(feature_group(f)),
        parse_name(feature_group(f)) matches Some(fs) && fs.contains(f),
{
    assert(all_groups()[group_position(f)] == feature_group(f));
    all_features_lists_each_feature_once(f);
    lemma_features_in_contains(all_features(), f);
}

proof fn lemma_add_new_distinct(fs: Seq<Feature>, ps: Seq<Feature>)
    requires
        fs.no_duplicates(),
    ensures
        add_new(fs, ps).no_duplicates(),
    decreases ps.len(),
{
    if ps.len() > 0 {
        lemma_add_new_distinct(fs, ps.drop_last());
        let b = add_new(fs, ps.drop_last());
        if !b.contains(ps.last()) {
            assert forall|i: int, j: int| 0 <= i < b.len() + 1 && 0 <= j < b.len() + 1 && i != j implies b.push(
                ps.last(),
            )[i] != b.push(ps.last())[j] by {
                if i == b.len() {
                    assert(b.contains(b[j]));
                } else if j == b.len() {
                    assert(b.contains(b[i]));
                }
            }
        }
    }
}

/// The features selected from a list of names never repeat a feature.
pub proof fn selected_features_distinct(names: Seq<Seq<char>>)
    ensures
        select_features(names) matches Ok(fs) ==> fs.no_duplicates(),
    decreases names.len(),
{
    if names.len() > 0 {
        selected_features_distinct(names.drop_last());
        if let Ok(fs) = select_features(names.drop_last()) {
            if let Some(ps) = parse_name(trimmed(names.last())) {
                lemma_add_new_distinct(fs, ps);
            }
        }
    }
}

spec fn group_key(i: int) -> int {
    if i == 0 {
        8112110
    } else if i == 1 {
        8118121
    } else if i == 2 {
        6099114
    } else if i == 3 {
        3097109
    } else if i == 4 {
        8109116
    } else if i == 5 {
        6105115
    } else if i == 6 {
        5115101
    } else if i == 7 {
        4104107
    } else if i == 8 {
        7119115
    } else {
        5106115
    }
}

proof fn lemma_group_text_key(i: int)
    requires
        0 <= i < all_groups().len(),
    ensures
        text_key(all_groups()[i]) == group_key(i),
{
    if i == 0 {
        reveal_strlit("position");
    } else if i == 1 {
        reveal_strlit("velocity");
    } else if i == 2 {
        reveal_strlit("cursor");
    } else if i == 3 {
        reveal_strlit("aim");
    } else if i == 4 {
        reveal_strlit("movement");
    } else if i == 5 {
        reveal_strlit("inputs");
    } else if i == 6 {
        reveal_strlit("state");
    } else if i == 7 {
        reveal_strlit("hook");
    } else if i == 8 {
        reveal_strlit("weapons");
    } else {
        reveal_strlit("jumps");
    }
}

proof fn lemma_group_match(f: Feature, i: int)
    requires
        0 <= i < all_groups().len(),
    ensures
        (feature_group(f) == all_groups()[i]) == (group_position(f) == i),
{
    assert(all_groups()[group_position(f)] == feature_group(f));
    if group_position(f) != i && feature_group(f) == all_groups()[i] {
        lemma_group_text_key(i);
        lemma_group_text_key(group_position(f));
    }
}

/// The features of `fs` whose group is the `i`-th group, in order.
spec fn with_group_position(fs: Seq<Feature>, i: int) -> Seq<Feature>
    decreases fs.len(),
{
    if fs.len() == 0 {
        Seq::empty()
    } else {
        let before = with_group_position(fs.drop_last(), i);
        if group_position(fs.last()) == i {
            before.push(fs.last())
        } else {
            before
        }
    }
}

proof fn lemma_features_in_position(fs: Seq<Feature>, i: int)
    requires
        0 <= i < all_groups().len(),
    ensures
        features_in(fs, all_groups()[i]) == with_group_position(fs, i),
    decreases fs.len(),
{
    if fs.len() > 0 {
        lemma_features_in_position(fs.drop_last(), i);
        lemma_group_match(fs.last(), i);
    }
}

/// The features of the first `n` groups, group by group.
spec fn positions_concat(n: int) -> Seq<Feature>
    decreases n,
{
    if n <= 0 {
        Seq::empty()
    } else {
        positions_concat(n - 1) + with_group_position(all_features(), n - 1)
    }
}

/// The features of each group of `gs` (as `Feature::in_group` lists them),
/// one group after the other.
pub open spec fn groups_concat(gs: Seq<Seq<char>>) -> Seq<Feature>
    decreases gs.len(),
{
    if gs.len() == 0 {
        Seq::empty()
    } else {
        groups_concat(gs.drop_last()) + features_in(all_features(), gs.last())
    }
}

proof fn lemma_groups_concat_positions(n: int)
    requires
        0 <= n <= all_groups().len(),
    ensures
        groups_concat(all_groups().take(n)) == positions_concat(n),
    decreases n,
{
    if n > 0 {
        lemma_groups_concat_positions(n - 1);
        assert(all_groups().take(n).drop_last() =~= all_groups().take(n - 1));
        assert(all_groups().take(n).last() == all_groups()[n - 1]);
        lemma_features_in_position(all_features(), n - 1);
    }
}

proof fn lemma_features_in_unknown(fs: Seq<Feature>, g: Seq<char>)
    requires
        !all_groups().contains(g),
    ensures
        features_in(fs, g).len() == 0,
    decreases fs.len(),
{
    if fs.len() > 0 {
        lemma_features_in_unknown(fs.drop_last(), g);
        let f = fs.last();
        assert(all_groups()[group_position(f)] == feature_group(f));
    }
}

proof fn lemma_positions_concat_value()
    ensures
        positions_concat(10) =~= all_features(),
        forall|i: int| 0 <= i < 10 ==> #[trigger] with_group_position(all_features(), i).len() > 0,
{
    reveal_with_fuel(with_group_position, 23);
    let a = all_features();
    assert(with_group_position(a, 0) =~= seq![Feature::PosX, Feature::PosY]);
    assert(with_group_position(a, 1) =~= seq![Feature::VelX, Feature::VelY]);
    assert(with_group_position(a, 2) =~= seq![Feature::CursorX, Feature::CursorY]);
    assert(with_group_position(a, 3) =~= seq![Feature::AimAngle, Feature::AimDistance]);
    assert(with_group_position(a, 4) =~= seq![Feature::MoveDir]);
    assert(with_group_position(a, 5) =~= seq![Feature::KeyJump, Feature::KeyFire, Feature::KeyHook]);
    assert(with_group_position(a, 6) =~= seq![Feature::IsGrounded, Feature::FreezeStatus]);
    assert(with_group_position(a, 7) =~= seq![Feature::HookGrabbed, Feature::HookPosX, Feature::HookPosY]);
    assert(with_group_position(a, 8) =~= seq![Feature::IsHammer, Feature::IsGun, Feature::IsOtherWeapon]);
    assert(with_group_position(a, 9) =~= seq![Feature::JumpsRemaining, Feature::CanJump]);
    reveal_with_fuel(positions_concat, 11);
}

/// The groups split the features: listing the features of each group in
/// group order gives every feature exactly once, in canonical order; a name
/// selects no feature exactly when it is no group.
pub proof fn groups_partition_features(g: Seq<char>)
    ensures
        groups_concat(all_groups()) == all_features(),
        features_in(all_features(), g).len() == 0 <==> !all_groups().contains(g),
{
    lemma_positions_concat_value();
    if all_groups().contains(g) {
        let i = choose|i: int| 0 <= i < all_groups().len() && all_groups()[i] == g;
        lemma_features_in_position(all_features(), i);
        assert(with_group_position(all_features(), i).len() > 0);
    }
    lemma_groups_concat_positions(all_groups().len() as int);
    assert(all_groups().take(all_groups().len() as int) =~= all_groups());
    assert(positions_concat(10) =~= all_features()) by {
        lemma_positions_concat_value();
    }
    if !all_groups().contains(g) {
        lemma_features_in_unknown(all_features(), g);
    }
}

/// Each feature reads its own field of the tick: setting one field of a
/// tick to a new value changes the value of exactly the feature of that
/// name, to the new value, and setting the tick number changes no feature.
pub proof fn feature_reads_its_own_field(t: TickData, v: u32, tick: i64, f: Feature)
    ensures
        feature_value(TickData { tick, ..t }, f) == feature_value(t, f),
        feature_value(TickData { pos_x: v, ..t }, f) == if f == Feature::PosX {
            v
        } else {
            feature_value(t, f)
        },
        feature_value(TickData { pos_y: v, ..t }, f) == if f == Feature::PosY {
            v
        } else {
            feature_value(t, f)
        },
        feature_value(TickData { vel_x: v, ..t }, f) == if f == Feature::VelX {
            v
        } else {
            feature_value(t, f)
        },
        feature_value(TickData { vel_y: v, ..t }, f) == if f == Feature::VelY {
            v
        } else {
            feature_value(t, f)
        },
        feature_value(TickData { cursor_x: v, ..t }, f) == if f == Feature::CursorX {
            v
        } else {
            feature_value(t, f)
        },
        feature_value(TickData { cursor_y: v, ..t }, f) == if f == Feature::CursorY {
            v
        } else {
            feature_value(t, f)
        },
        feature_value(TickData { aim_angle: v, ..t }, f) == if f == Feature::AimAngle {
            v
        } else {
            feature_value(t, f)
        },
        feature_value(TickData { aim_distance: v, ..t }, f) == if f == Feature::AimDistance {
            v
        } else {
            feature_value(t, f)
        },
        feature_value(TickData { move_dir: v, ..t }, f) == if f == Feature::MoveDir {
            v
        } else {
            feature_value(t, f)
        },
        feature_value(TickData { key_jump: v, ..t }, f) == if f == Feature::KeyJump {
            v
        } else {
            feature_value(t, f)
        },
        feature_value(TickData { key_fire: v, ..t }, f) == if f == Feature::KeyFire {
            v
        } else {
            feature_value(t, f)
        },
        feature_value(TickData { key_hook: v, ..t }, f) == if f == Feature::KeyHook {
            v
        } else {
            feature_value(t, f)
        },
        feature_value(TickData { is_grounded: v, ..t }, f) == if f == Feature::IsGrounded {
            v
        } else {
            feature_value(t, f)
        },
        feature_value(TickData { freeze_status: v, ..t }, f) == if f == Feature::FreezeStatus {
            v
        } else {
            feature_value(t, f)
        },
        feature_value(TickData { hook_grabbed: v, ..t }, f) == if f == Feature::HookGrabbed {
            v
        } else {
            feature_value(t, f)
        },
        feature_value(TickData { hook_pos_x: v, ..t }, f) == if f == Feature::HookPosX {
            v
        } else {
            feature_value(t, f)
        },
        feature_value(TickData { hook_pos_y: v, ..t }, f) == if f == Feature::HookPosY {
            v
        } else {
            feature_value(t, f)
        },
        feature_value(TickData { is_hammer: v, ..t }, f) == if f == Feature::IsHammer {
            v
        } else {
            feature_value(t, f)
        },
        feature_value(TickData { is_gun: v, ..t }, f) == if f == Feature::IsGun {
            v
        } else {
            feature_value(t, f)
        },
        feature_value(TickData { is_other_weapon: v, ..t }, f) == if f == Feature::IsOtherWeapon {
            v
        } else {
            feature_value(t, f)
        },
        feature_value(TickData { jumps_remaining: v, ..t }, f) == if f == Feature::JumpsRemaining {
            v
        } else {
            feature_value(t, f)
        },
        feature_value(TickData { can_jump: v, ..t }, f) == if f == Feature::CanJump {
            v
        } else {
            feature_value(t, f)
        },
{
}

/// No two features read the same value of every tick: for distinct
/// features there is a tick on which their values differ.
pub proof fn features_read_distinct_fields(f: Feature, g: Feature)
    requires
        f != g,
    ensures
        exists|t: TickData| #[trigger] feature_value(t, f) != feature_value(t, g),
{
    let t = TickData {
        pos_x: 0,
        pos_y: 1,
        vel_x: 2,
        vel_y: 3,
        cursor_x: 4,
        cursor_y: 5,
        aim_angle: 6,
        aim_distance: 7,
        move_dir: 8,
        key_jump: 9,
        key_fire: 10,
        key_hook: 11,
        is_grounded: 12,
        freeze_status: 13,
        hook_grabbed: 14,
        hook_pos_x: 15,
        hook_pos_y: 16,
        is_hammer: 17,
        is_gun: 18,
        is_other_weapon: 19,
        jumps_remaining: 20,
        can_jump: 21,
        tick: 0,
    };
    assert(feature_value(t, f) != feature_value(t, g));
}

} // verus!
