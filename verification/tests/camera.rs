use fly_on_the_wall::camera::{corner_named, plan_view, read_room_view, room_named, room_view, Corner};

#[test]
fn a_room_view_is_a_room_and_a_corner() {
    let v = read_room_view("kitchen:NE");
    assert_eq!(v.room, "kitchen");
    assert_eq!(v.corner, Corner::NorthEast);
    let v = read_room_view("kitchen");
    assert_eq!(v.room, "kitchen");
    assert_eq!(v.corner, Corner::SouthWest);
    let v = read_room_view("garage:middle");
    assert_eq!(v.corner, Corner::SouthWest);
    assert_eq!(room_view(Some(String::new())), None);
    assert_eq!(room_view(Some("hall".to_string())), Some("hall".to_string()));
}

#[test]
fn corners_are_read_in_any_case() {
    assert_eq!(corner_named("nw"), Corner::NorthWest);
    assert_eq!(corner_named("Se"), Corner::SouthEast);
    assert_eq!(corner_named("sw"), Corner::SouthWest);
    assert_eq!(corner_named(""), Corner::SouthWest);
}

#[test]
fn rooms_are_found_regardless_of_case() {
    let rooms: Vec<String> = ["great room", "Kitchen", "kitchen"].iter().map(|s| s.to_string()).collect();
    assert_eq!(room_named(&rooms, "KITCHEN"), Some(1));
    assert_eq!(room_named(&rooms, "attic"), None);
}

#[test]
fn only_one_asks_for_the_plan() {
    assert!(plan_view(Some("1")));
    assert!(!plan_view(Some("yes")));
    assert!(!plan_view(None));
}
