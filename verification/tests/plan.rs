use fly_on_the_wall::text::same;
use fly_on_the_wall::plan::{
    edge_letter, flip, hole_kind, kit_for, Kit, open_to_each_other, outdoors, portal_here, unmatched,
    wall_paint, what_to_build, Build, Hole, Paint, Shape, Use, WallLedger,
};

#[test]
fn only_living_space_is_habitable() {
    assert!(Use::Living.habitable());
    assert!(Use::Kitchen.habitable());
    assert!(Use::Bed.habitable());
    for u in [Use::Bath, Use::Utility, Use::Hall, Use::Garage] {
        assert!(!u.habitable());
    }
}

#[test]
fn rooms_are_painted_by_use_and_by_name() {
    assert_eq!(wall_paint(Use::Living, "great room"), Paint::Warm);
    assert_eq!(wall_paint(Use::Bath, "master bath"), Paint::MasterBath);
    assert_eq!(wall_paint(Use::Bath, "bath two tub"), Paint::Bath);
    assert_eq!(wall_paint(Use::Bed, "master bedroom"), Paint::MasterBedroom);
    assert_eq!(wall_paint(Use::Bed, "bedroom two"), Paint::BedroomTwo);
    assert_eq!(wall_paint(Use::Bed, "office"), Paint::Bedroom);
    assert_eq!(wall_paint(Use::Garage, "garage"), Paint::Garage);
}

#[test]
fn porches_are_outdoors() {
    assert!(outdoors("front porch"));
    assert!(outdoors("rear porch"));
    assert!(!outdoors("porch light"));
    assert!(!outdoors("garage"));
    assert!(same("a b", "a b"));
    assert!(!same("a", "ab"));
}

#[test]
fn three_pairs_are_open_plan_either_way_round() {
    for (a, b) in [("kitchen", "dining"), ("garage", "open storage"), ("bath two", "bath two tub")] {
        assert!(open_to_each_other(a, b));
        assert!(open_to_each_other(b, a));
    }
    assert!(!open_to_each_other("kitchen", "great room"));
}

#[test]
fn edges_are_named_as_the_drawing_names_them() {
    assert_eq!(edge_letter(true, false), 'n');
    assert_eq!(edge_letter(true, true), 's');
    assert_eq!(edge_letter(false, false), 'w');
    assert_eq!(edge_letter(false, true), 'e');
    for e in ['n', 's', 'e', 'w'] {
        assert_eq!(flip(flip(e)), e);
        assert_ne!(flip(e), e);
    }
}

#[test]
fn a_portal_is_found_from_both_of_its_rooms() {
    // The bedroom's barn door into the master bath, offered by either room.
    assert!(portal_here("master bedroom", 'w', "master bath", "master bedroom", 'w', Some("master bath")));
    assert!(portal_here("master bedroom", 'w', "master bath", "master bath", 'e', Some("master bedroom")));
    assert!(!portal_here("master bedroom", 'w', "master bath", "master bath", 'w', Some("master bedroom")));
    // A window onto the outside has nobody on the other side.
    assert!(portal_here("bedroom two", 'e', "outside", "bedroom two", 'e', None));
    assert!(!portal_here("bedroom two", 'e', "outside", "bedroom two", 'e', Some("office")));
}

#[test]
fn holes_are_recorded_by_what_they_open_onto() {
    assert_eq!(hole_kind(Shape::Way, "garage", "outside"), Hole::Vehicle);
    assert_eq!(hole_kind(Shape::Way, "great room", "front porch"), Hole::Front);
    assert_eq!(hole_kind(Shape::Way, "great room", "rear porch"), Hole::Back);
    assert_eq!(hole_kind(Shape::Way, "pantry", "mud hall"), Hole::Doorway);
    assert_eq!(hole_kind(Shape::Pane, "kitchen", "rear porch"), Hole::Pane);
    assert_eq!(hole_kind(Shape::Arch, "great room", "wing hall"), Hole::Arch);
    assert_eq!(hole_kind(Shape::Wide, "kitchen", "great room"), Hole::Wide);
}

#[test]
fn what_is_built_depends_on_both_sides() {
    assert_eq!(what_to_build("kitchen", Some("dining")), Build::Seam);
    assert_eq!(what_to_build("front porch", None), Build::Nothing);
    assert_eq!(what_to_build("front porch", Some("rear porch")), Build::Nothing);
    assert_eq!(what_to_build("great room", Some("front porch")), Build::Wall { inside: false });
    assert_eq!(what_to_build("front porch", Some("great room")), Build::Wall { inside: false });
    assert_eq!(what_to_build("pantry", Some("mud hall")), Build::Wall { inside: true });
    assert_eq!(what_to_build("pantry", None), Build::Wall { inside: false });
}

#[test]
fn a_shared_run_is_offered_twice_and_built_once() {
    let mut ledger = WallLedger::new();
    assert!(ledger.offer((0, 10, 40, 10)));
    assert!(!ledger.offer((40, 10, 0, 10)));
    assert!(!ledger.offer((0, 10, 40, 10)));
    assert!(ledger.offer((0, 12, 40, 12)));
    assert_eq!(ledger.built.len(), 2);
}

#[test]
fn openings_that_found_no_wall_are_listed() {
    assert_eq!(unmatched(&vec![true, false, true, false]), vec![1, 3]);
    assert!(unmatched(&vec![true, true]).is_empty());
}

#[test]
fn each_use_has_its_own_furniture() {
    assert_eq!(kit_for(Use::Living), Kit::Living);
    assert_eq!(kit_for(Use::Kitchen), Kit::Kitchen);
    assert_eq!(kit_for(Use::Bed), Kit::Bedroom);
    assert_eq!(kit_for(Use::Bath), Kit::Bathroom);
    assert_eq!(kit_for(Use::Utility), Kit::Laundry);
    assert_eq!(kit_for(Use::Hall), Kit::Hall);
    assert_eq!(kit_for(Use::Garage), Kit::Garage);
}
