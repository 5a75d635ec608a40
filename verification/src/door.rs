use vstd::prelude::*;

verus! {

/// What the door has been asked to do. `E` cycles it: closed, ajar, open.
#[derive(Clone, Copy, PartialEq, Eq, Debug, Structural)]
pub enum DoorWant {
    Open,
    /// A slot to thread rather than a hole to fly through.
    Ajar,
    Closed,
}

/// One press of the door key.
pub open spec fn next_want(w: DoorWant) -> DoorWant {
    match w {
        DoorWant::Closed => DoorWant::Ajar,
        DoorWant::Ajar => DoorWant::Open,
        DoorWant::Open => DoorWant::Closed,
    }
}

impl DoorWant {
    /// The state a freshly built house starts in.
    pub fn initial() -> (w: DoorWant)
        ensures
            w == DoorWant::Closed,
    {
        DoorWant::Closed
    }

    /// Cycle the door: closed, then ajar, then open, then closed again.
    pub fn cycled(self) -> (w: DoorWant)
        ensures
            w == next_want(self),
    {
        match self {
            DoorWant::Closed => DoorWant::Ajar,
            DoorWant::Ajar => DoorWant::Open,
            DoorWant::Open => DoorWant::Closed,
        }
    }
}

/// What the readout calls each state.
pub open spec fn want_label(w: DoorWant) -> Seq<char> {
    match w {
        DoorWant::Open => "open"@,
        DoorWant::Ajar => "ajar"@,
        DoorWant::Closed => "closed"@,
    }
}

impl DoorWant {
    /// What the readout calls this state.
    pub fn label(self) -> (s: &'static str)
        ensures
            s@ == want_label(self),
    {
        match self {
            DoorWant::Open => "open",
            DoorWant::Ajar => "ajar",
            DoorWant::Closed => "closed",
        }
    }
}

/// Three presses of the door key bring it back to where it was, and no fewer do.
pub proof fn three_presses_come_back(w: DoorWant)
    ensures
        next_want(next_want(next_want(w))) == w,
        next_want(w) != w,
        next_want(next_want(w)) != w,
{
}

} // verus!
