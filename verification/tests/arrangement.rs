use fly_on_the_wall::arrangement::{
    entries_saved, read_arrangement, read_row, split_lines, split_words, write_arrangement, Placement,
};

#[test]
fn lines_split_as_the_standard_library_splits_them() {
    assert_eq!(split_lines("a\nb\r\nc"), vec!["a", "b", "c"]);
    assert_eq!(split_lines("a\n"), vec!["a"]);
    assert_eq!(split_lines("\n\n"), vec!["", ""]);
    assert!(split_lines("").is_empty());
    assert_eq!(split_lines("x\r"), vec!["x\r"]);
}

#[test]
fn words_are_runs_between_whitespace() {
    assert_eq!(split_words("  12 0.50\t-3 "), vec!["12", "0.50", "-3"]);
    assert!(split_words(" \t ").is_empty());
    assert_eq!(split_words("a\u{a0}b"), vec!["a", "b"]);
}

#[test]
fn a_row_needs_a_piece_and_five_fields() {
    let row = read_row("12 1.00 0.00 -2.50 0.2618 1.0400").unwrap();
    assert_eq!(row.piece, 12);
    assert_eq!(row.fields, vec!["1.00", "0.00", "-2.50", "0.2618", "1.0400"]);
    let short = read_row("7 1 2 3 0.5").unwrap();
    assert_eq!(short.fields.len(), 4);
    assert!(read_row("# piece  x  y  z  yaw  scale").is_none());
    assert!(read_row("").is_none());
    assert!(read_row("7 1 2 3").is_none());
    assert!(read_row("sofa 1 2 3 4").is_none());
    assert!(read_row("-7 1 2 3 4").is_none());
}

#[test]
fn an_arrangement_reads_back_every_good_line_in_order() {
    let text = "# piece  x  y  z  yaw  scale\n12 1.00 0.00 -2.50 0.0000 1.0000\n\nbad line\n3 0.00 42.00 0.00 0.2618 1.0000\n";
    let rows = read_arrangement(text);
    let pieces: Vec<u32> = rows.iter().map(|r| r.piece).collect();
    assert_eq!(pieces, vec![12, 3]);
    assert_eq!(rows[1].fields[1], "42.00");
}

#[test]
fn a_save_counts_the_lines_that_are_not_comments() {
    let text = "# piece  x  y  z  yaw  scale\n12 1.00 0.00 -2.50 0.0000 1.0000\n3 0.00 42.00 0.00 0.2618 1.0000\n";
    assert_eq!(entries_saved(text), 2);
    assert_eq!(entries_saved("# nothing moved\n"), 0);
}

#[test]
fn what_arrange_mode_writes_it_reads_back() {
    let rows = vec![
        Placement {
            piece: 12,
            fields: ["1.00", "0.00", "-2.50", "0.0000", "1.0000"].iter().map(|s| s.to_string()).collect(),
        },
        Placement {
            piece: 0,
            fields: ["0.00", "42.00", "0.00", "0.2618", "1.0400"].iter().map(|s| s.to_string()).collect(),
        },
    ];
    let text = write_arrangement(&rows);
    assert_eq!(
        text,
        "# piece  x  y  z  yaw  scale \u{2014} written by arrange mode\n12 1.00 0.00 -2.50 0.0000 1.0000\n0 0.00 42.00 0.00 0.2618 1.0400\n"
    );
    let back = read_arrangement(&text);
    assert_eq!(back.len(), 2);
    for (a, b) in back.iter().zip(rows.iter()) {
        assert_eq!(a.piece, b.piece);
        assert_eq!(a.fields, b.fields);
    }
    assert_eq!(entries_saved(&text), 2);
    assert_eq!(write_arrangement(&Vec::new()), "# piece  x  y  z  yaw  scale \u{2014} written by arrange mode\n");
}
