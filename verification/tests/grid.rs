use fly_on_the_wall::grid::{Grid, SMALLEST_ROOM};

/// A slice from rows of `#` (solid) and `.` (open air).
fn slice(rows: &[&str]) -> Grid {
    let wide = rows[0].len();
    let deep = rows.len();
    let open: Vec<bool> = rows.iter().flat_map(|r| r.chars().map(|c| c == '.')).collect();
    Grid::new(wide, deep, open)
}

#[test]
fn a_fill_reaches_through_open_air_only() {
    let g = slice(&["#####", "#..##", "##..#", "#####"]);
    let seen = g.reach_from(6);
    let reached: Vec<usize> = (0..seen.len()).filter(|&c| seen[c]).collect();
    // Cells 6 and 7 touch, 12 and 13 touch, and 7 sits over 12.
    assert_eq!(reached, vec![6, 7, 12, 13]);
    assert!(Grid::reached_any(&seen, &vec![0, 13]));
    assert!(!Grid::reached_any(&seen, &vec![0, 1]));
    assert!(!Grid::reached_any(&seen, &vec![]));
}

#[test]
fn a_fill_from_a_wall_reaches_its_open_neighbours_and_itself() {
    let g = slice(&["...", "#.#"]);
    let seen = g.reach_from(3);
    let reached: Vec<usize> = (0..seen.len()).filter(|&c| seen[c]).collect();
    assert_eq!(reached, vec![0, 1, 2, 3, 4]);
}

#[test]
fn islands_cover_the_air_once_each() {
    let g = slice(&["#####", "#.#.#", "#####"]);
    let islands = g.islands();
    assert_eq!(islands.len(), 2);
    assert_eq!(islands[0].start, 6);
    assert_eq!(islands[0].cells, vec![6]);
    assert_eq!(islands[1].start, 8);
    assert!(!islands[0].outdoors);
}

#[test]
fn a_room_is_indoors_and_big_enough() {
    // A 4 x 4 room (sixteen cells) walled in, a two-cell nook on the right
    // edge, and open air round the outside of the wall on the left.
    let g = slice(&[
        "..#######",
        "..#....##",
        "..#....##",
        "..#....#.",
        "..#....#.",
        "..#######",
    ]);
    let islands = g.islands();
    assert_eq!(islands.len(), 3);
    assert!(islands[0].outdoors);
    let rooms = g.rooms();
    assert_eq!(rooms.len(), 1);
    assert_eq!(rooms[0].cells.len(), 16);
    assert!(rooms[0].cells.len() >= SMALLEST_ROOM);
    assert_eq!(rooms[0].start, 12);
}

#[test]
fn reaching_runs_both_ways_between_open_cells() {
    let g = slice(&["#.#..", "#...#", "##.##"]);
    for a in 0..15 {
        for b in 0..15 {
            if g.open[a] && g.open[b] {
                assert_eq!(g.reach_from(a)[b], g.reach_from(b)[a]);
            }
        }
    }
}
