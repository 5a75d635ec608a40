//! The rules a floor plan's walls are derived by.
//!
//! Each room offers its four edges; each stretch of edge has a neighbour on
//! the other side or the outside. What is built there — nothing, a seam board,
//! a partition or an exterior wall — and which of the drawing's openings are
//! cut in it are decided here, by name, from the plan's tables.
use vstd::prelude::*;
use crate::text::{ends_with, ends_with_part, same};

verus! {

/// What a room is for.
#[derive(Clone, Copy, PartialEq, Eq, Debug, Structural)]
pub enum Use {
    Living,
    Kitchen,
    Bed,
    Bath,
    Utility,
    Hall,
    Garage,
}

impl Use {
    /// Living space, and so held to the fifteen-foot minimum.
    pub open spec fn is_habitable(self) -> bool {
        self is Living || self is Kitchen || self is Bed
    }

    /// Living space, and so held to the fifteen-foot minimum.
    pub fn habitable(self) -> (b: bool)
        ensures
            b == self.is_habitable(),
    {
        match self {
            Use::Living | Use::Kitchen | Use::Bed => true,
            _ => false,
        }
    }
}

/// Which set of furniture a room is furnished with, by what it is for.
#[derive(Clone, Copy, PartialEq, Eq, Debug, Structural)]
pub enum Kit {
    Living,
    Kitchen,
    Bedroom,
    Bathroom,
    /// Utility rooms are fitted out as a laundry.
    Laundry,
    Hall,
    Garage,
}

/// The furniture a room of each use gets.
pub open spec fn kit_of(use_for: Use) -> Kit {
    match use_for {
        Use::Living => Kit::Living,
        Use::Kitchen => Kit::Kitchen,
        Use::Bed => Kit::Bedroom,
        Use::Bath => Kit::Bathroom,
        Use::Utility => Kit::Laundry,
        Use::Hall => Kit::Hall,
        Use::Garage => Kit::Garage,
    }
}

/// Which set of furniture a room is furnished with.
pub fn kit_for(use_for: Use) -> (k: Kit)
    ensures
        k == kit_of(use_for),
{
    match use_for {
        Use::Living => Kit::Living,
        Use::Kitchen => Kit::Kitchen,
        Use::Bed => Kit::Bedroom,
        Use::Bath => Kit::Bathroom,
        Use::Utility => Kit::Laundry,
        Use::Hall => Kit::Hall,
        Use::Garage => Kit::Garage,
    }
}

/// How a room's walls are painted.
#[derive(Clone, Copy, PartialEq, Eq, Debug, Structural)]
pub enum Paint {
    /// The living rooms go warm.
    Warm,
    Kitchen,
    Hall,
    /// The master bath stays warm-neutral.
    MasterBath,
    /// The children's bath, and its tub nook, go cool.
    Bath,
    MasterBedroom,
    BedroomTwo,
    Bedroom,
    Utility,
    Garage,
}

/// The paint a room gets, by what it is for and, for baths and bedrooms, by
/// which one it is.
pub open spec fn paint_of(use_for: Use, name: Seq<char>) -> Paint {
    match use_for {
        Use::Living => Paint::Warm,
        Use::Kitchen => Paint::Kitchen,
        Use::Hall => Paint::Hall,
        Use::Bath => if name == "master bath"@ {
            Paint::MasterBath
        } else {
            Paint::Bath
        },
        Use::Bed => if name == "master bedroom"@ {
            Paint::MasterBedroom
        } else if name == "bedroom two"@ {
            Paint::BedroomTwo
        } else {
            Paint::Bedroom
        },
        Use::Utility => Paint::Utility,
        Use::Garage => Paint::Garage,
    }
}

/// What colour a room is painted.
pub fn wall_paint(use_for: Use, name: &str) -> (p: Paint)
    ensures
        p == paint_of(use_for, name@),
{
    match use_for {
        Use::Living => Paint::Warm,
        Use::Kitchen => Paint::Kitchen,
        Use::Hall => Paint::Hall,
        Use::Bath => if same(name, "master bath") {
            Paint::MasterBath
        } else {
            Paint::Bath
        },
        Use::Bed => if same(name, "master bedroom") {
            Paint::MasterBedroom
        } else if same(name, "bedroom two") {
            Paint::BedroomTwo
        } else {
            Paint::Bedroom
        },
        Use::Utility => Paint::Utility,
        Use::Garage => Paint::Garage,
    }
}

/// A porch is outside: its name ends in `porch`.
pub open spec fn is_outdoors(name: Seq<char>) -> bool {
    ends_with(name, "porch"@)
}

/// A porch is outside. The wall between a room and one is an exterior wall
/// with a door in it, not a partition.
pub fn outdoors(name: &str) -> (b: bool)
    ensures
        b == is_outdoors(name@),
{
    ends_with_part(name, "porch")
}

/// The pairs of rooms the plan draws no wall between.
pub open spec fn is_open_pair(a: Seq<char>, b: Seq<char>) -> bool {
    ||| (a == "kitchen"@ && b == "dining"@)
    ||| (a == "garage"@ && b == "open storage"@)
    ||| (a == "bath two"@ && b == "bath two tub"@)
}

/// Whether the plan leaves two rooms open to each other, in either order.
pub open spec fn open_between(a: Seq<char>, b: Seq<char>) -> bool {
    is_open_pair(a, b) || is_open_pair(b, a)
}

/// Which pairs of rooms the plan leaves open to each other: the kitchen and
/// the dining room, the garage and its storage bay, bath two and its tub nook.
pub fn open_to_each_other(a: &str, b: &str) -> (r: bool)
    ensures
        r == open_between(a@, b@),
{
    (same(a, "kitchen") && same(b, "dining")) || (same(a, "dining") && same(b, "kitchen")) || (
    same(a, "garage") && same(b, "open storage")) || (same(a, "open storage") && same(b, "garage"))
        || (same(a, "bath two") && same(b, "bath two tub")) || (same(a, "bath two tub") && same(
        b,
        "bath two",
    ))
}

/// Rooms are open to each other the same way round as the other.
pub proof fn openness_is_mutual(a: Seq<char>, b: Seq<char>)
    ensures
        open_between(a, b) == open_between(b, a),
{
}

// ---------------------------------------------------------------------------
// Edges
// ---------------------------------------------------------------------------

/// The drawing's name for an edge: `n`, `s`, `w` or `e`, north at the top and
/// `y` running south.
pub open spec fn edge_of(horizontal: bool, outward: bool) -> char {
    if horizontal {
        if outward {
            's'
        } else {
            'n'
        }
    } else {
        if outward {
            'e'
        } else {
            'w'
        }
    }
}

/// The edge across the wall from `e`.
pub open spec fn opposite(e: char) -> char {
    if e == 'n' {
        's'
    } else if e == 's' {
        'n'
    } else if e == 'w' {
        'e'
    } else {
        'w'
    }
}

/// Which way an edge faces, in the drawing's orientation, from whether it
/// runs along `x` and whether it faces the positive side.
pub fn edge_letter(horizontal: bool, outward: bool) -> (e: char)
    ensures
        e == edge_of(horizontal, outward),
{
    match (horizontal, outward) {
        (true, false) => 'n',
        (true, true) => 's',
        (false, false) => 'w',
        (false, true) => 'e',
    }
}

/// The edge across the wall from `e`; any letter but `n`, `s` and `w` is
/// taken for `e`.
pub fn flip(e: char) -> (f: char)
    ensures
        f == opposite(e),
{
    if e == 'n' {
        's'
    } else if e == 's' {
        'n'
    } else if e == 'w' {
        'e'
    } else {
        'w'
    }
}

/// The edge across the wall from an edge is the edge facing the other way,
/// and across again is where it started.
pub proof fn crossing_twice_comes_back(horizontal: bool, outward: bool)
    ensures
        opposite(edge_of(horizontal, outward)) == edge_of(horizontal, !outward),
        opposite(opposite(edge_of(horizontal, outward))) == edge_of(horizontal, outward),
{
}

// ---------------------------------------------------------------------------
// Openings
// ---------------------------------------------------------------------------

/// Whether an opening `(a, on, b)` of the table — in `a`'s edge `on`, with
/// `b` on the far side — belongs on the wall that `room`'s edge `edge` offers
/// with `neighbour` across it (none meaning the outside).
///
/// The same wall is offered from both sides, so it is matched from either.
pub open spec fn portal_matches(
    a: Seq<char>,
    on: char,
    b: Seq<char>,
    room: Seq<char>,
    edge: char,
    neighbour: Option<Seq<char>>,
) -> bool {
    ||| (a == room && on == edge && match neighbour {
        None => b == "outside"@,
        Some(n) => b == n,
    })
    ||| (match neighbour {
        Some(n) => a == n && b == room && opposite(on) == edge,
        None => false,
    })
}

/// Whether an opening of the table belongs on the wall being offered.
pub fn portal_here(
    a: &str,
    on: char,
    b: &str,
    room: &str,
    edge: char,
    neighbour: Option<&str>,
) -> (here: bool)
    ensures
        here == portal_matches(
            a@,
            on,
            b@,
            room@,
            edge,
            match neighbour {
                Some(n) => Some(n@),
                None => None,
            },
        ),
{
    let mine = same(a, room) && on == edge && match neighbour {
        None => same(b, "outside"),
        Some(n) => same(b, n),
    };
    let theirs = match neighbour {
        Some(n) => same(a, n) && same(b, room) && flip(on) == edge,
        None => false,
    };
    mine || theirs
}

/// An opening between two rooms is found on their shared wall whichever of
/// the two offers it.
pub proof fn an_opening_is_found_from_either_side(a: Seq<char>, on: char, b: Seq<char>)
    ensures
        portal_matches(a, on, b, a, on, Some(b)),
        portal_matches(a, on, b, b, opposite(on), Some(a)),
{
}

/// The shape of a hole in a wall.
#[derive(Clone, Copy, PartialEq, Eq, Debug, Structural)]
pub enum Shape {
    /// A window, with a sill.
    Pane,
    /// A doorway, open to the floor.
    Way,
    /// A cased opening with no leaf in it.
    Arch,
    /// Open plan: the wall simply is not there over this stretch.
    Wide,
}

/// What kind of hole a wall cut, for the record downstream readers use.
#[derive(Clone, Copy, PartialEq, Eq, Debug, Structural)]
pub enum Hole {
    Pane,
    Doorway,
    Arch,
    Front,
    Back,
    Vehicle,
    Wide,
}

/// What a cut of shape `shape` from `a` to `b` is recorded as.
pub open spec fn hole_of(shape: Shape, a: Seq<char>, b: Seq<char>) -> Hole {
    match shape {
        Shape::Pane => Hole::Pane,
        Shape::Way => if a == "garage"@ && b == "outside"@ {
            Hole::Vehicle
        } else if b == "front porch"@ {
            Hole::Front
        } else if b == "rear porch"@ {
            Hole::Back
        } else {
            Hole::Doorway
        },
        Shape::Arch => Hole::Arch,
        Shape::Wide => Hole::Wide,
    }
}

/// What kind of hole an opening of the table is: the garage's door to the
/// outside is the vehicle door, a door onto the front or rear porch is the
/// front or back door, and any other way through is a doorway.
pub fn hole_kind(shape: Shape, a: &str, b: &str) -> (h: Hole)
    ensures
        h == hole_of(shape, a@, b@),
{
    match shape {
        Shape::Pane => Hole::Pane,
        Shape::Way => if same(a, "garage") && same(b, "outside") {
            Hole::Vehicle
        } else if same(b, "front porch") {
            Hole::Front
        } else if same(b, "rear porch") {
            Hole::Back
        } else {
            Hole::Doorway
        },
        Shape::Arch => Hole::Arch,
        Shape::Wide => Hole::Wide,
    }
}

// ---------------------------------------------------------------------------
// What goes on a stretch of edge
// ---------------------------------------------------------------------------

/// What is built along one stretch of a room's edge.
#[derive(Clone, Copy, PartialEq, Eq, Debug, Structural)]
pub enum Build {
    /// Two rooms open to each other: no wall, a flush seam board over the gap.
    Seam,
    /// A porch's open side: nothing at all, posts hold the roof.
    Nothing,
    /// A wall: a thin partition when both sides are indoors, else an
    /// exterior wall.
    Wall { inside: bool },
}

/// What the plan builds between `room` and `neighbour` (none meaning the
/// outside).
pub open spec fn build_of(room: Seq<char>, neighbour: Option<Seq<char>>) -> Build {
    match neighbour {
        Some(n) => if open_between(room, n) {
            Build::Seam
        } else if is_outdoors(room) && is_outdoors(n) {
            Build::Nothing
        } else {
            Build::Wall { inside: !is_outdoors(n) && !is_outdoors(room) }
        },
        None => if is_outdoors(room) {
            Build::Nothing
        } else {
            Build::Wall { inside: false }
        },
    }
}

/// What is built along a stretch of `room`'s edge with `neighbour` across it.
pub fn what_to_build(room: &str, neighbour: Option<&str>) -> (b: Build)
    ensures
        b == build_of(
            room@,
            match neighbour {
                Some(n) => Some(n@),
                None => None,
            },
        ),
{
    match neighbour {
        Some(n) => if open_to_each_other(room, n) {
            Build::Seam
        } else if outdoors(room) && outdoors(n) {
            Build::Nothing
        } else {
            Build::Wall { inside: !outdoors(n) && !outdoors(room) }
        },
        None => if outdoors(room) {
            Build::Nothing
        } else {
            Build::Wall { inside: false }
        },
    }
}

/// A shared stretch of edge is treated alike from both of its rooms.
pub proof fn both_sides_agree(a: Seq<char>, b: Seq<char>)
    ensures
        build_of(a, Some(b)) == build_of(b, Some(a)),
{
}

// ---------------------------------------------------------------------------
// Building each run once
// ---------------------------------------------------------------------------

/// A run of wall by its two ends, in quarter-centimetres.
pub type RunKey = (i32, i32, i32, i32);

/// The same run, from its other end.
pub open spec fn reversed(k: RunKey) -> RunKey {
    (k.2, k.3, k.0, k.1)
}

/// The runs already built. A partition belongs to both of its rooms and is
/// offered twice; the ledger lets the first offer through and refuses the
/// second, whichever end it is described from.
pub struct WallLedger {
    pub built: Vec<RunKey>,
}

impl WallLedger {
    /// The runs built so far.
    pub open spec fn runs(&self) -> Set<RunKey> {
        self.built@.to_set()
    }

    /// A ledger with nothing built.
    pub fn new() -> (l: WallLedger)
        ensures
            l.runs() == Set::<RunKey>::empty(),
    {
        let l = WallLedger { built: Vec::new() };
        proof {
            assert(l.built@.to_set() =~= Set::<RunKey>::empty());
        }
        l
    }

    /// Offer a run to be built. It is built, and recorded, unless it or the
    /// same run from its other end has been built already.
    pub fn offer(&mut self, k: RunKey) -> (fresh: bool)
        ensures
            fresh == admits(old(self).runs(), k),
            final(self).runs() == after_offer(old(self).runs(), k),
    {
        let back: RunKey = (k.2, k.3, k.0, k.1);
        let mut i: usize = 0;
        while i < self.built.len()
            invariant
                i <= self.built@.len(),
                back == reversed(k),
                forall|j: int| 0 <= j < i ==> self.built@[j] != k && self.built@[j] != back,
            decreases self.built@.len() - i,
        {
            let b = self.built[i];
            let same_way = b.0 == k.0 && b.1 == k.1 && b.2 == k.2 && b.3 == k.3;
            let other_way = b.0 == back.0 && b.1 == back.1 && b.2 == back.2 && b.3 == back.3;
            if same_way || other_way {
                proof {
                    assert(self.built@.contains(self.built@[i as int]));
                }
                return false;
            }
            i += 1;
        }
        let ghost before = self.built@;
        self.built.push(k);
        proof {
            assert(self.built@ == before.push(k));
            assert(!before.to_set().contains(k)) by {
                if before.contains(k) {
                    let w = choose|w: int| 0 <= w < before.len() && before[w] == k;
                }
            }
            assert(!before.to_set().contains(back)) by {
                if before.contains(back) {
                    let w = choose|w: int| 0 <= w < before.len() && before[w] == back;
                }
            }
            lemma_push_to_set(before, k);
        }
        true
    }
}

proof fn lemma_push_to_set<A>(s: Seq<A>, x: A)
    ensures
        s.push(x).to_set() =~= s.to_set().insert(x),
{
    assert forall|y: A| s.push(x).contains(y) == (s.contains(y) || y == x) by {
        if s.contains(y) {
            let w = choose|w: int| 0 <= w < s.len() && s[w] == y;
            assert(s.push(x)[w] == y);
        }
        if y == x {
            assert(s.push(x)[s.len() as int] == y);
        }
        if s.push(x).contains(y) {
            let w = choose|w: int| 0 <= w < s.len() + 1 && s.push(x)[w] == y;
            if w < s.len() {
                assert(s[w] == y);
            }
        }
    }
    assert forall|y: A| #[trigger] s.push(x).to_set().contains(y) == s.to_set().insert(x).contains(y) by {
        assert(s.push(x).contains(y) == (s.contains(y) || y == x));
    }
}

/// Whether an offered run is let through: neither it nor the same run from
/// its other end has been built.
pub open spec fn admits(runs: Set<RunKey>, k: RunKey) -> bool {
    !(runs.contains(k) || runs.contains(reversed(k)))
}

/// The runs built once `k` has been offered.
pub open spec fn after_offer(runs: Set<RunKey>, k: RunKey) -> Set<RunKey> {
    if admits(runs, k) {
        runs.insert(k)
    } else {
        runs
    }
}

/// A run offered from both of its rooms, once from each end, is built once:
/// after any offer of it, neither description of it is let through again.
pub proof fn a_shared_run_is_built_once(runs: Set<RunKey>, k: RunKey)
    ensures
        !admits(after_offer(runs, k), k),
        !admits(after_offer(runs, k), reversed(k)),
        admits(runs, k) == admits(runs, reversed(k)),
{
    assert(reversed(reversed(k)) == k);
}

/// The openings of the table that found no wall.
///
/// `used[i]` says whether opening `i` was cut; one that was not is a typo
/// against the drawing.
pub fn unmatched(used: &Vec<bool>) -> (missed: Vec<usize>)
    ensures
        forall|k: int| 0 <= k < missed@.len() ==> missed@[k] < used@.len() && !used@[missed@[k] as int],
        forall|i: int| 0 <= i < used@.len() && !used@[i] ==> missed@.contains(i as usize),
        forall|a: int, b: int| 0 <= a < b < missed@.len() ==> missed@[a] < missed@[b],
{
    let mut missed: Vec<usize> = Vec::new();
    let mut i: usize = 0;
    while i < used.len()
        invariant
            i <= used@.len(),
            forall|k: int| 0 <= k < missed@.len() ==> missed@[k] < i && !used@[missed@[k] as int],
            forall|j: int| 0 <= j < i && !used@[j] ==> missed@.contains(j as usize),
            forall|a: int, b: int| 0 <= a < b < missed@.len() ==> missed@[a] < missed@[b],
        decreases used@.len() - i,
    {
        if !used[i] {
            let ghost before = missed@;
            missed.push(i);
            proof {
                assert forall|j: int| 0 <= j < i + 1 && !used@[j] implies missed@.contains(j as usize) by {
                    if j < i {
                        assert(before.contains(j as usize));
                        let w = choose|w: int| 0 <= w < before.len() && before[w] == j as usize;
                        assert(missed@[w] == j as usize);
                    } else {
                        assert(missed@[missed@.len() - 1] == j as usize);
                    }
                }
            }
        }
        i += 1;
    }
    missed
}

/// The pairs of rooms the drawing leaves open to each other, written out:
/// the kitchen and the dining room, the garage and its storage bay, bath two
/// and its tub nook, either way round.
pub open spec fn drawn_open(a: Seq<char>, b: Seq<char>) -> bool {
    ||| (a == "kitchen"@ && b == "dining"@)
    ||| (a == "dining"@ && b == "kitchen"@)
    ||| (a == "garage"@ && b == "open storage"@)
    ||| (a == "open storage"@ && b == "garage"@)
    ||| (a == "bath two"@ && b == "bath two tub"@)
    ||| (a == "bath two tub"@ && b == "bath two"@)
}

/// Between two rooms the drawing leaves open to each other a seam board is
/// laid and no wall is built; between any other two rooms there is never a
/// seam.
pub proof fn open_plan_gets_a_seam_and_nothing_else_does(a: Seq<char>, b: Seq<char>)
    ensures
        drawn_open(a, b) ==> build_of(a, Some(b)) == Build::Seam,
        !drawn_open(a, b) ==> build_of(a, Some(b)) != Build::Seam,
        build_of(a, None) != Build::Seam,
{
}

/// An opening of the table is only cut in a wall of one of its two rooms, on
/// the edge it names or, from the room across, on the edge facing it; a
/// window onto the outside only ever on the edge it names.
pub proof fn an_opening_stays_on_its_own_wall(
    a: Seq<char>,
    on: char,
    b: Seq<char>,
    room: Seq<char>,
    edge: char,
    neighbour: Option<Seq<char>>,
)
    requires
        portal_matches(a, on, b, room, edge, neighbour),
    ensures
        room == a || room == b,
        edge == on || edge == opposite(on),
        neighbour is None ==> edge == on && room == a && b == "outside"@,
{
}

} // verus!
