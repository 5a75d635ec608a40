use fly_on_the_wall::capture::{capture_path, capture_size, screenshot_name, target_size, Shots};

#[test]
fn an_empty_capture_setting_is_no_capture() {
    assert_eq!(capture_path(Some("shot.png".to_string())), Some("shot.png".to_string()));
    assert_eq!(capture_path(Some(String::new())), None);
    assert_eq!(capture_path(None), None);
}

#[test]
fn a_capture_size_is_two_numbers_around_an_x() {
    assert_eq!(capture_size("1280x720"), Some((1280, 720)));
    assert_eq!(capture_size("1280x"), None);
    assert_eq!(capture_size("1280*720"), None);
    assert_eq!(capture_size("12x34x56"), None);
    assert_eq!(capture_size("x720"), None);
}

#[test]
fn the_target_falls_back_and_is_never_empty() {
    assert_eq!(target_size(Some((800, 600)), Some((1, 1))), (800, 600));
    assert_eq!(target_size(None, Some((2560, 1440))), (2560, 1440));
    assert_eq!(target_size(None, None), (1920, 1080));
    assert_eq!(target_size(Some((0, 0)), None), (1, 1));
}

#[test]
fn screenshots_are_numbered_in_three_digits_at_least() {
    assert_eq!(screenshot_name(0), "fly-000.png");
    assert_eq!(screenshot_name(42), "fly-042.png");
    assert_eq!(screenshot_name(1234), "fly-1234.png");
    let mut shots = Shots::new();
    assert_eq!(shots.next(), "fly-000.png");
    assert_eq!(shots.next(), "fly-001.png");
    assert_eq!(shots.taken, 2);
}
