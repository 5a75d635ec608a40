use fly_on_the_wall::stage::{
    escape_asked, opening_stage, pieces_in_order, Action, CameraView, Choice, Event, Game, Roll, Selection, Stage,
    NO_PIECE,
};

#[test]
fn the_game_opens_where_it_was_asked_to() {
    assert_eq!(opening_stage(true, true), Stage::Diving);
    assert_eq!(opening_stage(false, true), Stage::Playing);
    assert_eq!(opening_stage(false, false), Stage::Title);
    assert!(Stage::Playing.playing());
    assert!(!Stage::Diving.playing());
}

#[test]
fn start_dive_arrive_play() {
    let g = Game::new(Stage::Title);
    let (g, a) = g.step(Event::Start);
    assert_eq!((g.stage, a), (Stage::Diving, Action::BeginDive));
    let (g2, a2) = g.step(Event::Start);
    assert_eq!((g2, a2), (g, Action::Nothing));
    let (g, a) = g.step(Event::Arrived);
    assert_eq!((g.stage, a), (Stage::Playing, Action::TakeControl));
}

#[test]
fn escape_only_pauses_while_playing() {
    let title = Game::new(Stage::Title);
    assert_eq!(title.step(Event::Escape), (title, Action::Nothing));
    let diving = Game::new(Stage::Diving);
    assert_eq!(diving.step(Event::Escape), (diving, Action::Nothing));
    let playing = Game::new(Stage::Playing);
    let (paused, a) = playing.step(Event::Escape);
    assert!(paused.paused);
    assert_eq!(a, Action::OpenMenu);
    let (back, a) = paused.step(Event::Escape);
    assert_eq!(back, playing);
    assert_eq!(a, Action::CloseMenu);
}

#[test]
fn every_menu_entry_takes_the_menu_down() {
    let paused = Game { stage: Stage::Playing, paused: true };
    assert_eq!(paused.step(Event::Pick(Choice::Resume)), (Game::new(Stage::Playing), Action::CloseMenu));
    assert_eq!(paused.step(Event::Pick(Choice::Title)), (Game::new(Stage::Title), Action::BackToTitle));
    assert_eq!(paused.step(Event::Pick(Choice::Quit)), (Game::new(Stage::Playing), Action::Leave));
    let playing = Game::new(Stage::Playing);
    assert_eq!(playing.step(Event::Pick(Choice::Quit)), (playing, Action::Nothing));
}

#[test]
fn the_camera_switches_undo_themselves() {
    assert_eq!(CameraView::initial(), CameraView::Chase);
    assert_eq!(CameraView::Chase.toggled(), CameraView::FirstPerson);
    assert_eq!(CameraView::Chase.toggled().toggled(), CameraView::Chase);
    assert_eq!(Roll::initial(), Roll::WorldUp);
    assert_eq!(Roll::WorldUp.toggled(), Roll::BodyUp);
    assert_eq!(Roll::BodyUp.toggled().toggled(), Roll::BodyUp);
}

#[test]
fn arrange_mode_aims_grabs_and_lets_go() {
    let s = Selection::new(true);
    let s = s.aimed(Some(NO_PIECE));
    assert_eq!(s.looking_at, None);
    let s = s.aimed(Some(7));
    assert_eq!(s.looking_at, Some(7));
    let held = s.grabbed();
    assert_eq!(held.held, Some(7));
    assert_eq!(held.showing(), Some(7));
    // While something is held the aim does not wander.
    let still = held.aimed(Some(9));
    assert_eq!(still.looking_at, Some(7));
    assert_eq!(still.grabbed(), s);
    // Turning arrange mode off lets go of everything.
    let off = held.toggled();
    assert!(!off.on);
    assert_eq!((off.looking_at, off.held, off.showing()), (None, None, None));
}

#[test]
fn pieces_are_listed_once_in_the_order_they_come() {
    assert_eq!(pieces_in_order(&vec![3, NO_PIECE, 3, 1, 3, 2, 1]), vec![3, 1, 2]);
    assert!(pieces_in_order(&vec![NO_PIECE, NO_PIECE]).is_empty());
}

#[test]
fn the_menu_opens_on_a_key_or_once_on_request() {
    assert!(escape_asked(true, false, true, true));
    assert!(escape_asked(false, true, false, false));
    assert!(!escape_asked(false, true, true, false));
    assert!(!escape_asked(false, true, false, true));
    assert!(!escape_asked(false, false, false, false));
}

#[test]
fn back_to_the_title_and_a_new_game() {
    let paused = Game { stage: Stage::Playing, paused: true };
    let (title, _) = paused.step(Event::Pick(Choice::Title));
    let (diving, action) = title.step(Event::Start);
    assert_eq!(diving.stage, Stage::Diving);
    assert_eq!(action, Action::BeginDive);
}

#[test]
fn arrange_mode_off_ignores_aim_and_grab() {
    let off = Selection::new(false);
    assert_eq!(off.aimed(Some(4)), off);
    assert_eq!(off.grabbed(), off);
    let on = off.toggled();
    assert!(on.on);
    assert_eq!(on.aimed(Some(4)).grabbed().held, Some(4));
}
