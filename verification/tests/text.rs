use fly_on_the_wall::text::{
    contains_part, decimal_text, ends_with_part, eq_ignore_ascii_case, first_containing, join,
    lex_less, parse_u32, position_of, rsplit_once_at, shared_prefix_len, sorted_names, split_once_at,
    strip_prefix_of, strip_suffix_of, trim_separators, trim_space,
};

#[test]
fn shared_prefixes_are_counted_in_characters() {
    assert_eq!(shared_prefix_len("DadRigged", "DadWalk"), 3);
    assert_eq!(shared_prefix_len("", "Dad"), 0);
    assert_eq!(shared_prefix_len("Dad", "Dad"), 3);
    assert_eq!(shared_prefix_len("éa", "éb"), 1);
}

#[test]
fn trimming_takes_only_the_ends() {
    assert_eq!(trim_separators("__a-b__"), "a-b");
    assert_eq!(trim_separators("-_ -"), "");
    assert_eq!(trim_space("  3.5\t"), "3.5");
    assert_eq!(trim_space("\u{3000}head\n"), "head");
}

#[test]
fn parts_are_found_where_they_are() {
    assert!(contains_part("sitting", "sit"));
    assert!(contains_part("sit", ""));
    assert!(!contains_part("sit", "sitting"));
    assert!(ends_with_part("front porch", "porch"));
    assert!(!ends_with_part("porch door", "porch"));
    let names: Vec<String> = ["a", "bb", "abc"].iter().map(|s| s.to_string()).collect();
    assert_eq!(first_containing(&names, "b"), Some(1));
    assert_eq!(first_containing(&names, "z"), None);
}

#[test]
fn case_is_folded_two_ways() {
    assert!(eq_ignore_ascii_case("Kitchen", "kITCHEN"));
    assert!(!eq_ignore_ascii_case("kitchen", "kitchens"));
}

#[test]
fn dictionary_order_is_by_character() {
    assert!(lex_less("idle", "walk"));
    assert!(lex_less("idle", "idle2"));
    assert!(!lex_less("walk", "walk"));
    assert!(!lex_less("b", "a"));
}

#[test]
fn decimals_round_trip() {
    assert_eq!(decimal_text(0), "0");
    assert_eq!(decimal_text(4096), "4096");
    assert_eq!(parse_u32("4096"), Some(4096));
    assert_eq!(parse_u32("+7"), Some(7));
    assert_eq!(parse_u32("4294967295"), Some(u32::MAX));
    assert_eq!(parse_u32("4294967296"), None);
    assert_eq!(parse_u32(""), None);
    assert_eq!(parse_u32("+"), None);
    assert_eq!(parse_u32("-1"), None);
    assert_eq!(parse_u32("12a"), None);
}

#[test]
fn strings_are_cut_where_asked() {
    assert_eq!(split_once_at("kitchen:ne:x", ':'), Some(("kitchen", "ne:x")));
    assert_eq!(split_once_at("kitchen", ':'), None);
    assert_eq!(rsplit_once_at("front_left_femur", '_'), Some(("front_left", "femur")));
    assert_eq!(strip_prefix_of("leg_x", "leg_"), Some("x"));
    assert_eq!(strip_prefix_of("arm_x", "leg_"), None);
    assert_eq!(strip_suffix_of("ranch.json", ".json"), Some("ranch"));
    assert_eq!(strip_suffix_of("ranch.baz", ".json"), None);
}

#[test]
fn names_sort_and_join() {
    let names: Vec<String> = ["ranch", "cottage", "barn"].iter().map(|s| s.to_string()).collect();
    let sorted = sorted_names(names);
    assert_eq!(sorted, vec!["barn", "cottage", "ranch"]);
    assert_eq!(join(&sorted, ", "), "barn, cottage, ranch");
    assert_eq!(join(&Vec::new(), ", "), "");
}

#[test]
fn a_room_is_found_by_its_exact_name() {
    let names: Vec<String> = ["kitchen", "Kitchen", "great room"].iter().map(|s| s.to_string()).collect();
    assert_eq!(position_of(&names, "great room"), Some(2));
    assert_eq!(position_of(&names, "Kitchen"), Some(1));
    assert_eq!(position_of(&names, "attic"), None);
}
