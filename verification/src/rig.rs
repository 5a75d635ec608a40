//! Which body the fly wears, and which of its bones are legs and wings.
//!
//! The rigged fly's skeleton names its leg bones `leg_<which>_<part>`: six
//! legs, each a femur, a tibia and a tarsus. They walk in two tripods — front
//! left, middle right and rear left together, the other three half a stride
//! behind. Its two wing bones are `bone_12` and `bone_14`.
use vstd::prelude::*;
use crate::text::{same, rsplit_once_at, split_last, strip_prefix_of, without_prefix};

verus! {

/// Which body the fly wears.
#[derive(Clone, Copy, PartialEq, Eq, Debug, Structural)]
pub enum Worn {
    /// Boxes and lathes built in code. Wings and legs both driven.
    Built,
    /// The early model, whose rig is not usable.
    Early,
    /// The rigged model, with six leg bones of its own.
    Rigged,
}

/// `built` for the one built in code, `glb` for the early model, anything
/// else (or nothing) for the rigged one.
pub open spec fn worn_spec(setting: Option<Seq<char>>) -> Worn {
    match setting {
        Some(s) => if s == "built"@ {
            Worn::Built
        } else if s == "glb"@ {
            Worn::Early
        } else {
            Worn::Rigged
        },
        None => Worn::Rigged,
    }
}

/// Which body the fly wears, from the model setting if there is one.
pub fn worn(setting: Option<&str>) -> (w: Worn)
    ensures
        w == worn_spec(
            match setting {
                Some(s) => Some(s@),
                None => None,
            },
        ),
{
    match setting {
        Some(s) => if same(s, "built") {
            Worn::Built
        } else if same(s, "glb") {
            Worn::Early
        } else {
            Worn::Rigged
        },
        None => Worn::Rigged,
    }
}

/// Which of the two tripods a leg walks with.
#[derive(Clone, Copy, PartialEq, Eq, Debug, Structural)]
pub enum Tripod {
    /// Front left, middle right, rear left: phase nought.
    First,
    /// Front right, middle left, rear right: half a stride behind.
    Second,
}

/// Which bone of a leg.
#[derive(Clone, Copy, PartialEq, Eq, Debug, Structural)]
pub enum Segment {
    Femur,
    Tibia,
    Tarsus,
}

/// A leg bone: which tripod its leg walks with, and which bone of it.
#[derive(Clone, Copy, PartialEq, Eq, Debug, Structural)]
pub struct LegBone {
    pub tripod: Tripod,
    pub segment: Segment,
}

/// The tripod of the leg called `which`.
pub open spec fn tripod_of(which: Seq<char>) -> Option<Tripod> {
    if which == "front_left"@ || which == "middle_right"@ || which == "rear_left"@ {
        Some(Tripod::First)
    } else if which == "front_right"@ || which == "middle_left"@ || which == "rear_right"@ {
        Some(Tripod::Second)
    } else {
        None
    }
}

/// The segment called `part`.
pub open spec fn segment_of(part: Seq<char>) -> Option<Segment> {
    if part == "femur"@ {
        Some(Segment::Femur)
    } else if part == "tibia"@ {
        Some(Segment::Tibia)
    } else if part == "tarsus"@ {
        Some(Segment::Tarsus)
    } else {
        None
    }
}

/// What a bone called `name` is, if it is a leg bone: `leg_`, then which leg,
/// then, after the last `_`, which part.
pub open spec fn leg_of(name: Seq<char>) -> Option<LegBone> {
    match without_prefix(name, "leg_"@) {
        Some(rest) => match split_last(rest, '_') {
            Some((which, part)) => match (tripod_of(which), segment_of(part)) {
                (Some(t), Some(s)) => Some(LegBone { tripod: t, segment: s }),
                _ => None,
            },
            None => None,
        },
        None => None,
    }
}

/// The tripod of the leg called `which`.
pub fn tripod_named(which: &str) -> (t: Option<Tripod>)
    ensures
        t == tripod_of(which@),
{
    if same(which, "front_left") || same(which, "middle_right") || same(which, "rear_left") {
        Some(Tripod::First)
    } else if same(which, "front_right") || same(which, "middle_left") || same(which, "rear_right") {
        Some(Tripod::Second)
    } else {
        None
    }
}

/// The segment called `part`.
pub fn segment_named(part: &str) -> (s: Option<Segment>)
    ensures
        s == segment_of(part@),
{
    if same(part, "femur") {
        Some(Segment::Femur)
    } else if same(part, "tibia") {
        Some(Segment::Tibia)
    } else if same(part, "tarsus") {
        Some(Segment::Tarsus)
    } else {
        None
    }
}

/// What a bone is, if it is one of the rigged fly's leg bones.
pub fn leg_bone(name: &str) -> (leg: Option<LegBone>)
    ensures
        leg == leg_of(name@),
{
    let rest = match strip_prefix_of(name, "leg_") {
        Some(r) => r,
        None => {
            return None;
        },
    };
    let (which, part) = match rsplit_once_at(rest, '_') {
        Some(p) => p,
        None => {
            return None;
        },
    };
    match (tripod_named(which), segment_named(part)) {
        (Some(t), Some(s)) => Some(LegBone { tripod: t, segment: s }),
        _ => None,
    }
}

/// How many leg bones the rigged fly has: three on each of six legs.
pub const LEG_BONES: usize = 18;

/// Which side a wing is on.
#[derive(Clone, Copy, PartialEq, Eq, Debug, Structural)]
pub enum Side {
    Left,
    Right,
}

/// Which wing a bone is, if it is one: `bone_12` the left, `bone_14` the
/// right.
pub open spec fn wing_of(name: Seq<char>) -> Option<Side> {
    if name == "bone_12"@ {
        Some(Side::Left)
    } else if name == "bone_14"@ {
        Some(Side::Right)
    } else {
        None
    }
}

/// Which wing a bone is, if it is one of the rigged fly's two wing bones.
pub fn wing_side(name: &str) -> (side: Option<Side>)
    ensures
        side == wing_of(name@),
{
    if same(name, "bone_12") {
        Some(Side::Left)
    } else if same(name, "bone_14") {
        Some(Side::Right)
    } else {
        None
    }
}

/// The rigged fly walks on alternating tripods: every one of its six legs
/// walks with one of them, the left and right legs of each pair are always
/// in different tripods, neighbouring legs down each side alternate, and the
/// front left, middle right and rear left walk together.
pub proof fn the_legs_walk_in_alternating_tripods()
    ensures
        tripod_of("front_left"@) is Some,
        tripod_of("front_right"@) is Some,
        tripod_of("middle_left"@) is Some,
        tripod_of("middle_right"@) is Some,
        tripod_of("rear_left"@) is Some,
        tripod_of("rear_right"@) is Some,
        tripod_of("front_left"@) != tripod_of("front_right"@),
        tripod_of("middle_left"@) != tripod_of("middle_right"@),
        tripod_of("rear_left"@) != tripod_of("rear_right"@),
        tripod_of("front_left"@) != tripod_of("middle_left"@),
        tripod_of("middle_left"@) != tripod_of("rear_left"@),
        tripod_of("front_right"@) != tripod_of("middle_right"@),
        tripod_of("middle_right"@) != tripod_of("rear_right"@),
        tripod_of("front_left"@) == Some(Tripod::First),
{
    reveal_strlit("front_left");
    reveal_strlit("front_right");
    reveal_strlit("middle_left");
    reveal_strlit("middle_right");
    reveal_strlit("rear_left");
    reveal_strlit("rear_right");
    assert("front_right"@ != "front_left"@) by {
        assert("front_right"@.len() != "front_left"@.len());
    }
    assert("front_right"@ != "middle_right"@) by {
        assert("front_right"@[0] != "middle_right"@[0]);
    }
    assert("front_right"@ != "rear_left"@) by {
        assert("front_right"@[0] != "rear_left"@[0]);
    }
    assert("middle_left"@ != "front_left"@) by {
        assert("middle_left"@[0] != "front_left"@[0]);
    }
    assert("middle_left"@ != "middle_right"@) by {
        assert("middle_left"@.len() != "middle_right"@.len());
    }
    assert("middle_left"@ != "rear_left"@) by {
        assert("middle_left"@[0] != "rear_left"@[0]);
    }
    assert("middle_right"@ != "front_left"@) by {
        assert("middle_right"@[0] != "front_left"@[0]);
    }
    assert("rear_left"@ != "front_left"@) by {
        assert("rear_left"@[0] != "front_left"@[0]);
    }
    assert("rear_left"@ != "middle_right"@) by {
        assert("rear_left"@[0] != "middle_right"@[0]);
    }
    assert("rear_right"@ != "front_left"@) by {
        assert("rear_right"@[0] != "front_left"@[0]);
    }
    assert("rear_right"@ != "middle_right"@) by {
        assert("rear_right"@[0] != "middle_right"@[0]);
    }
    assert("rear_right"@ != "rear_left"@) by {
        assert("rear_right"@.len() != "rear_left"@.len());
    }
}

} // verus!
