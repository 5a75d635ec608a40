//! Which house the fly is loose in, and what its surfaces are made of.
use vstd::prelude::*;
use crate::text::same;

verus! {

/// What a surface is made of.
#[derive(Clone, Copy, PartialEq, Eq, Debug, Structural)]
pub enum Stuff {
    Plaster,
    Grass,
    Floorboard,
    Wood,
    Fabric,
    Metal,
    Stone,
    Glass,
}

impl Stuff {
    /// Glass is drawn see-through and is not allowed to cast a shadow: a pane
    /// that shadowed would close the window it fills.
    pub fn is_glass(self) -> (b: bool)
        ensures
            b == (self is Glass),
    {
        match self {
            Stuff::Glass => true,
            _ => false,
        }
    }
}

/// Where the house came from.
#[derive(Clone, Copy, PartialEq, Eq, Debug, Structural)]
pub enum Origin {
    /// The house this game builds from its plan.
    Procedural,
    /// The two-room movement test.
    Greybox,
    /// A house drawn in the building bench and baked to boxes.
    Drawn,
}

/// Which house to try for, from the one asked for by name.
#[derive(PartialEq, Eq, Debug)]
pub enum HouseChoice {
    Procedural,
    Greybox,
    /// A drawn house, by the name it was asked for by.
    Drawn(String),
}

/// What asking for a house by name chooses: nothing asked for is the
/// procedural house, `greybox` the movement test, and any other name a drawn
/// house.
pub open spec fn choice_is(asked: Option<Seq<char>>, c: HouseChoice) -> bool {
    match asked {
        None => c is Procedural,
        Some(n) => if n == "greybox"@ {
            c is Greybox
        } else {
            c matches HouseChoice::Drawn(d) && d@ == n
        },
    }
}

/// Which house to try for, given the name asked for, if any.
pub fn choose_house(asked: Option<String>) -> (c: HouseChoice)
    ensures
        choice_is(
            match asked {
                Some(n) => Some(n@),
                None => None,
            },
            c,
        ),
{
    match asked {
        None => HouseChoice::Procedural,
        Some(n) => if same(n.as_str(), "greybox") {
            HouseChoice::Greybox
        } else {
            HouseChoice::Drawn(n)
        },
    }
}

/// Where the house came from, once a drawn house has been tried: a drawn
/// house that would not load falls back to the procedural one.
pub open spec fn origin_spec(c: HouseChoice, loaded: bool) -> Origin {
    match c {
        HouseChoice::Procedural => Origin::Procedural,
        HouseChoice::Greybox => Origin::Greybox,
        HouseChoice::Drawn(_) => if loaded {
            Origin::Drawn
        } else {
            Origin::Procedural
        },
    }
}

/// Where the house came from, given the choice and whether a drawn house
/// loaded.
pub fn origin_of(c: &HouseChoice, loaded: bool) -> (o: Origin)
    ensures
        o == origin_spec(*c, loaded),
{
    match c {
        HouseChoice::Procedural => Origin::Procedural,
        HouseChoice::Greybox => Origin::Greybox,
        HouseChoice::Drawn(_) => if loaded {
            Origin::Drawn
        } else {
            Origin::Procedural
        },
    }
}

/// Whether the house is held to the plan's audit: only the procedural one is
/// built from the plan.
pub fn audited(o: Origin) -> (b: bool)
    ensures
        b == (o is Procedural),
{
    match o {
        Origin::Procedural => true,
        _ => false,
    }
}

} // verus!
