use fly_on_the_wall::blueprint::{
    approximated, house_candidates, installed, is_roof, missing_house, requested,
};

#[test]
fn an_empty_house_name_asks_for_nothing() {
    assert_eq!(requested(Some("ranch".to_string())), Some("ranch".to_string()));
    assert_eq!(requested(Some(String::new())), None);
    assert_eq!(requested(None), None);
}

#[test]
fn a_house_is_looked_for_in_three_places() {
    assert_eq!(
        house_candidates("ranch"),
        vec!["ranch", "assets/buildings/ranch", "assets/buildings/ranch.json"]
    );
}

#[test]
fn installed_houses_are_the_json_files_sorted() {
    let files: Vec<String> = ["ranch.json", "notes.txt", "cottage.json", "barn.json.bak"]
        .iter()
        .map(|s| s.to_string())
        .collect();
    assert_eq!(installed(&files), vec!["cottage", "ranch"]);
    assert!(installed(&Vec::new()).is_empty());
}

#[test]
fn a_missing_house_lists_what_there_is() {
    assert_eq!(
        missing_house("rnach", &vec!["cottage".to_string(), "ranch".to_string()]),
        "no house called 'rnach' \u{2014} assets/buildings/ has: cottage, ranch"
    );
    assert_eq!(
        missing_house("ranch", &Vec::new()),
        "no house called 'ranch', and nothing is installed in assets/buildings/"
    );
}

#[test]
fn roof_shapes_are_counted_and_roofs_known() {
    let forms: Vec<String> = ["", "box", "wedge", "hip:3", "box", "mitre"].iter().map(|s| s.to_string()).collect();
    assert_eq!(approximated(&forms), 3);
    assert!(is_roof("roof"));
    assert!(!is_roof("walls"));
}
