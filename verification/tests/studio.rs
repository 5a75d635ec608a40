use fly_on_the_wall::studio::{split_at_every, studio_switches};

#[test]
fn a_setting_splits_at_every_colon() {
    assert_eq!(split_at_every("0.5:head", ':'), vec!["0.5", "head"]);
    assert_eq!(split_at_every("", ':'), vec![""]);
    assert_eq!(split_at_every("a::", ':'), vec!["a", "", ""]);
}

#[test]
fn the_studio_reads_its_flags() {
    let s = studio_switches(" 0.25 : head : keep");
    assert_eq!(s.round, "0.25");
    assert!(s.head && s.keep);
    let s = studio_switches("0.5");
    assert!(!s.head && !s.keep);
    // The first piece is how far round, never a flag.
    let s = studio_switches("head:keep");
    assert_eq!(s.round, "head");
    assert!(!s.head && s.keep);
}
