use fly_on_the_wall::door::DoorWant;
use fly_on_the_wall::world::{audited, choose_house, origin_of, HouseChoice, Origin, Stuff};

#[test]
fn only_glass_is_glass() {
    assert!(Stuff::Glass.is_glass());
    assert!(!Stuff::Plaster.is_glass());
}

#[test]
fn the_house_is_chosen_by_name() {
    assert_eq!(choose_house(None), HouseChoice::Procedural);
    assert_eq!(choose_house(Some("greybox".to_string())), HouseChoice::Greybox);
    assert_eq!(choose_house(Some("ranch".to_string())), HouseChoice::Drawn("ranch".to_string()));
}

#[test]
fn a_drawn_house_that_will_not_load_falls_back() {
    let drawn = HouseChoice::Drawn("ranch".to_string());
    assert_eq!(origin_of(&drawn, true), Origin::Drawn);
    assert_eq!(origin_of(&drawn, false), Origin::Procedural);
    assert_eq!(origin_of(&HouseChoice::Greybox, false), Origin::Greybox);
    assert!(audited(origin_of(&drawn, false)));
    assert!(!audited(Origin::Greybox));
}

#[test]
fn the_door_cycles_closed_ajar_open() {
    let w = DoorWant::initial();
    assert_eq!(w, DoorWant::Closed);
    assert_eq!(w.cycled(), DoorWant::Ajar);
    assert_eq!(w.cycled().cycled(), DoorWant::Open);
    assert_eq!(w.cycled().cycled().cycled(), w);
}

#[test]
fn the_readout_names_the_door_state() {
    assert_eq!(DoorWant::Open.label(), "open");
    assert_eq!(DoorWant::Ajar.label(), "ajar");
    assert_eq!(DoorWant::Closed.label(), "closed");
}
