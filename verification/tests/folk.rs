use fly_on_the_wall::folk::{
    choose_clip, clip_name, clip_names, differing_part, movement_name, movements, wanted_clip,
};

#[test]
fn a_movement_is_named_after_what_differs() {
    // The rigging tool writes one animation per export, so the files arrive
    // as a family and the family name is the part they share.
    assert_eq!(movement_name("DadRigged", "DadWalk"), "walk");
    assert_eq!(movement_name("DadRigged", "DadSitting"), "sitting");
    assert_eq!(movement_name("DadRigged", "Dad_Idle"), "idle");
    // The base model shares its whole name with itself.
    assert_eq!(movement_name("DadRigged", "DadRigged"), "dadrigged");
    // And something unrelated dropped in the same folder keeps its name
    // rather than becoming a suffix of somebody else's.
    assert_eq!(movement_name("DadRigged", "MumWave"), "mumwave");
}

#[test]
fn the_differing_part_is_trimmed_of_separators() {
    assert_eq!(differing_part("DadRigged", "Dad_Idle"), "Idle");
    assert_eq!(differing_part("DadRigged", "Dad - Walk _"), "Walk");
    assert_eq!(differing_part("DadRigged", "DadRigged"), "");
    assert_eq!(differing_part("DadRigged", "Dad"), "");
    assert_eq!(differing_part("", "Walk"), "Walk");
}

#[test]
fn a_movement_of_separators_alone_keeps_the_file_name() {
    assert_eq!(movement_name("Dad", "Dad__"), "dad__");
    assert_eq!(movement_name("Dad", "DAD"), "ad");
}

#[test]
fn movements_come_sorted_by_name_then_path() {
    let found = vec![
        ("DadWalk".to_string(), "characters/DadWalk.glb".to_string()),
        ("DadRigged".to_string(), "characters/DadRigged.glb".to_string()),
        ("Dad_Idle".to_string(), "characters/Dad_Idle.glb".to_string()),
        ("DadIdle".to_string(), "characters/DadIdle.glb".to_string()),
    ];
    let named = movements("DadRigged", found);
    let got: Vec<(&str, &str)> = named.iter().map(|(a, b)| (a.as_str(), b.as_str())).collect();
    assert_eq!(
        got,
        vec![
            ("dadrigged", "characters/DadRigged.glb"),
            ("idle", "characters/DadIdle.glb"),
            ("idle", "characters/Dad_Idle.glb"),
            ("walk", "characters/DadWalk.glb"),
        ]
    );
}

#[test]
fn no_files_no_movements() {
    assert!(movements("DadRigged", Vec::new()).is_empty());
}

#[test]
fn unnamed_clips_are_numbered_after_the_first() {
    assert_eq!(clip_name("walk", 0), "walk");
    assert_eq!(clip_name("walk", 1), "walk1");
    assert_eq!(clip_name("walk", 12), "walk12");
    assert_eq!(clip_names("walk", &Vec::new(), 3), vec!["walk", "walk1", "walk2"]);
}

#[test]
fn named_clips_are_believed_in_lowercase() {
    let named = vec!["Sit_Down".to_string(), "IDLE".to_string()];
    assert_eq!(clip_names("walk", &named, 5), vec!["sit_down", "idle"]);
}

#[test]
fn the_clip_asked_for_wins_then_idle_then_the_first() {
    let names: Vec<String> = ["walk", "sitting", "idle2", "idle"].iter().map(|s| s.to_string()).collect();
    assert_eq!(choose_clip(&names, "sit"), Some(1));
    assert_eq!(choose_clip(&names, "idle"), Some(2));
    assert_eq!(choose_clip(&names, "dance"), Some(2));
    let plain: Vec<String> = ["walk", "run"].iter().map(|s| s.to_string()).collect();
    assert_eq!(choose_clip(&plain, "dance"), Some(0));
    assert_eq!(choose_clip(&Vec::new(), "idle"), None);
}

#[test]
fn the_command_line_outranks_the_posture() {
    assert_eq!(wanted_clip(Some("wave"), Some("sit")), "wave");
    assert_eq!(wanted_clip(None, Some("sit")), "sit");
    assert_eq!(wanted_clip(None, None), "idle");
}
