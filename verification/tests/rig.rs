use fly_on_the_wall::rig::{leg_bone, wing_side, worn, LegBone, Segment, Side, Tripod, Worn};

#[test]
fn the_model_setting_picks_the_body() {
    assert_eq!(worn(Some("built")), Worn::Built);
    assert_eq!(worn(Some("glb")), Worn::Early);
    assert_eq!(worn(Some("anything")), Worn::Rigged);
    assert_eq!(worn(None), Worn::Rigged);
}

#[test]
fn leg_bones_walk_in_two_tripods() {
    assert_eq!(
        leg_bone("leg_front_left_femur"),
        Some(LegBone { tripod: Tripod::First, segment: Segment::Femur })
    );
    assert_eq!(
        leg_bone("leg_middle_left_tarsus"),
        Some(LegBone { tripod: Tripod::Second, segment: Segment::Tarsus })
    );
    assert_eq!(
        leg_bone("leg_rear_right_tibia"),
        Some(LegBone { tripod: Tripod::Second, segment: Segment::Tibia })
    );
    assert_eq!(leg_bone("leg_front_left"), None);
    assert_eq!(leg_bone("leg_front_left_knee"), None);
    assert_eq!(leg_bone("arm_front_left_femur"), None);
    assert_eq!(leg_bone("legfront_left_femur"), None);
}

#[test]
fn all_eighteen_leg_bones_are_recognised() {
    let mut found = 0;
    for which in ["front_left", "front_right", "middle_left", "middle_right", "rear_left", "rear_right"] {
        for part in ["femur", "tibia", "tarsus"] {
            if leg_bone(&format!("leg_{which}_{part}")).is_some() {
                found += 1;
            }
        }
    }
    assert_eq!(found, fly_on_the_wall::rig::LEG_BONES);
}

#[test]
fn two_bones_are_wings() {
    assert_eq!(wing_side("bone_12"), Some(Side::Left));
    assert_eq!(wing_side("bone_14"), Some(Side::Right));
    assert_eq!(wing_side("bone_13"), None);
}
