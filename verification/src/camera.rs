//! Where the camera is asked to stand, when a viewpoint is asked for.
//!
//! `room` or `room:corner` stands in a room and looks across it from one of
//! its corners; the plan switch looks straight down on the whole house.
use vstd::prelude::*;
use crate::capture::{given, given_spec, opt_view};
use crate::text::{same, ascii_lower, eq_ignore_ascii_case, same_ignoring_ascii_case, split_first, split_once_at};

verus! {

/// The room view asked for, if one was: an empty setting asks for none.
pub fn room_view(var: Option<String>) -> (view: Option<String>)
    ensures
        opt_view(view) == given_spec(opt_view(var)),
{
    given(var)
}

/// Whether the view from above was asked for: only by `1`.
pub fn plan_view(var: Option<&str>) -> (b: bool)
    ensures
        b == (match var {
            Some(v) => v@ == "1"@,
            None => false,
        }),
{
    match var {
        Some(v) => same(v, "1"),
        None => false,
    }
}

/// Which corner of a room the camera stands in.
#[derive(Clone, Copy, PartialEq, Eq, Debug, Structural)]
pub enum Corner {
    NorthEast,
    NorthWest,
    SouthEast,
    SouthWest,
}

/// The corner a name asks for, whatever its case; anything but `ne`, `nw`
/// and `se` is the south-west corner.
pub open spec fn corner_of(c: Seq<char>) -> Corner {
    if same_ignoring_ascii_case(c, "ne"@) {
        Corner::NorthEast
    } else if same_ignoring_ascii_case(c, "nw"@) {
        Corner::NorthWest
    } else if same_ignoring_ascii_case(c, "se"@) {
        Corner::SouthEast
    } else {
        Corner::SouthWest
    }
}

/// The corner a name asks for.
pub fn corner_named(c: &str) -> (corner: Corner)
    ensures
        corner == corner_of(c@),
{
    if eq_ignore_ascii_case(c, "ne") {
        Corner::NorthEast
    } else if eq_ignore_ascii_case(c, "nw") {
        Corner::NorthWest
    } else if eq_ignore_ascii_case(c, "se") {
        Corner::SouthEast
    } else {
        Corner::SouthWest
    }
}

/// A room view: which room, and which corner to stand in.
pub struct RoomView {
    pub room: String,
    pub corner: Corner,
}

/// What a room view setting asks for: the room before the first `:` and the
/// corner after it, or the whole setting as the room and the south-west
/// corner when there is no `:`.
pub open spec fn room_view_spec(s: Seq<char>) -> (Seq<char>, Corner) {
    match split_first(s, ':') {
        Some((name, corner)) => (name, corner_of(corner)),
        None => (s, Corner::SouthWest),
    }
}

/// Read a room view setting.
pub fn read_room_view(s: &str) -> (v: RoomView)
    ensures
        (v.room@, v.corner) == room_view_spec(s@),
{
    match split_once_at(s, ':') {
        Some((name, corner)) => RoomView { room: name.to_string(), corner: corner_named(corner) },
        None => RoomView { room: s.to_string(), corner: Corner::SouthWest },
    }
}

/// The first of `rooms` whose name matches `name` regardless of ASCII case.
pub fn room_named(rooms: &Vec<String>, name: &str) -> (found: Option<usize>)
    ensures
        match found {
            Some(k) => k < rooms@.len() && same_ignoring_ascii_case(rooms@[k as int]@, name@)
                && forall|j: int| 0 <= j < k ==> !same_ignoring_ascii_case(#[trigger] rooms@[j]@, name@),
            None => forall|j: int|
                0 <= j < rooms@.len() ==> !same_ignoring_ascii_case(#[trigger] rooms@[j]@, name@),
        },
{
    let mut k: usize = 0;
    while k < rooms.len()
        invariant
            k <= rooms@.len(),
            forall|j: int| 0 <= j < k ==> !same_ignoring_ascii_case(#[trigger] rooms@[j]@, name@),
        decreases rooms@.len() - k,
    {
        if eq_ignore_ascii_case(rooms[k].as_str(), name) {
            return Some(k);
        }
        k += 1;
    }
    None
}

/// The corner is read whatever its case: anything that matches `ne`, `nw`
/// or `se` once ASCII capitals are made small is that corner, and anything
/// else is the south-west.
pub proof fn corners_are_read_in_any_case(c: Seq<char>)
    ensures
        same_ignoring_ascii_case(c, "ne"@) ==> corner_of(c) == Corner::NorthEast,
        same_ignoring_ascii_case(c, "nw"@) ==> corner_of(c) == Corner::NorthWest,
        same_ignoring_ascii_case(c, "se"@) ==> corner_of(c) == Corner::SouthEast,
        !same_ignoring_ascii_case(c, "ne"@) && !same_ignoring_ascii_case(c, "nw"@)
            && !same_ignoring_ascii_case(c, "se"@) ==> corner_of(c) == Corner::SouthWest,
{
    reveal_strlit("ne");
    reveal_strlit("nw");
    reveal_strlit("se");
    if same_ignoring_ascii_case(c, "nw"@) {
        assert(ascii_lower(c[1]) == ascii_lower('w'));
        assert(!same_ignoring_ascii_case(c, "ne"@)) by {
            if same_ignoring_ascii_case(c, "ne"@) {
                assert(ascii_lower(c[1]) == ascii_lower('e'));
            }
        }
    }
    if same_ignoring_ascii_case(c, "se"@) {
        assert(ascii_lower(c[0]) == ascii_lower('s'));
        assert(!same_ignoring_ascii_case(c, "ne"@)) by {
            if same_ignoring_ascii_case(c, "ne"@) {
                assert(ascii_lower(c[0]) == ascii_lower('n'));
            }
        }
        assert(!same_ignoring_ascii_case(c, "nw"@)) by {
            if same_ignoring_ascii_case(c, "nw"@) {
                assert(ascii_lower(c[0]) == ascii_lower('n'));
            }
        }
    }
}

} // verus!
