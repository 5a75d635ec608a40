//! Where the game is: on the title screen, diving down to the fly, or
//! playing; whether it is paused behind the menu; which way the camera looks;
//! and what arrange mode has hold of.
//!
//! Each is a small state machine. The decisions are here, as functions from
//! a state and what just happened to the next state; the clock, the keys and
//! the screen stay with the caller.
use vstd::prelude::*;

verus! {

/// Where the game is.
#[derive(Clone, Copy, PartialEq, Eq, Debug, Structural)]
pub enum Stage {
    /// The house behind the sign, waiting for somebody to start.
    Title,
    /// The camera on its way down to the fly.
    Diving,
    /// The fly under the player's hands.
    Playing,
}

impl Stage {
    /// Whether the fly is under the player's hands.
    pub fn playing(&self) -> (b: bool)
        ensures
            b == (*self is Playing),
    {
        match self {
            Stage::Playing => true,
            _ => false,
        }
    }
}

/// Where the game opens: part-way through the dive when a moment of it was
/// asked for, straight into play when a viewpoint was asked for (they are
/// diagnostics looking at the house, not a person starting a game), and at
/// the title otherwise.
pub fn opening_stage(dive_asked: bool, posed: bool) -> (s: Stage)
    ensures
        dive_asked ==> s == Stage::Diving,
        !dive_asked && posed ==> s == Stage::Playing,
        !dive_asked && !posed ==> s == Stage::Title,
{
    if dive_asked {
        Stage::Diving
    } else if posed {
        Stage::Playing
    } else {
        Stage::Title
    }
}

/// The three things the pause menu offers.
#[derive(Clone, Copy, PartialEq, Eq, Debug, Structural)]
pub enum Choice {
    Resume,
    Title,
    Quit,
}

/// What happened this frame that the game's state answers to.
#[derive(Clone, Copy, PartialEq, Eq, Debug, Structural)]
pub enum Event {
    /// The button, a click, `Enter` or `Space`: anything that means "yes".
    Start,
    /// The camera reached the fly.
    Arrived,
    /// `Esc`, or the request to open the menu on the first frame.
    Escape,
    /// A menu entry was pressed.
    Pick(Choice),
}

/// What the caller has to do besides changing the state.
#[derive(Clone, Copy, PartialEq, Eq, Debug, Structural)]
pub enum Action {
    Nothing,
    /// Start the dive's clock from zero.
    BeginDive,
    /// Hand over the controls: take the mouse, drop the sign.
    TakeControl,
    /// Put the menu up and give the cursor back.
    OpenMenu,
    /// Take the menu down.
    CloseMenu,
    /// Take the menu down and put the fly back on the ceiling.
    BackToTitle,
    /// Leave the game.
    Leave,
}

/// The game's state: where it is, and whether the menu is up.
#[derive(Clone, Copy, PartialEq, Eq, Debug, Structural)]
pub struct Game {
    pub stage: Stage,
    pub paused: bool,
}

/// What an event does to the game.
pub open spec fn step_spec(g: Game, e: Event) -> (Game, Action) {
    match e {
        Event::Start => if g.stage is Title {
            (Game { stage: Stage::Diving, ..g }, Action::BeginDive)
        } else {
            (g, Action::Nothing)
        },
        Event::Arrived => if g.stage is Diving {
            (Game { stage: Stage::Playing, ..g }, Action::TakeControl)
        } else {
            (g, Action::Nothing)
        },
        Event::Escape => if g.stage is Playing {
            if g.paused {
                (Game { paused: false, ..g }, Action::CloseMenu)
            } else {
                (Game { paused: true, ..g }, Action::OpenMenu)
            }
        } else {
            (g, Action::Nothing)
        },
        Event::Pick(c) => if g.paused {
            match c {
                Choice::Resume => (Game { paused: false, ..g }, Action::CloseMenu),
                Choice::Title => (Game { stage: Stage::Title, paused: false }, Action::BackToTitle),
                Choice::Quit => (Game { paused: false, ..g }, Action::Leave),
            }
        } else {
            (g, Action::Nothing)
        },
    }
}

impl Game {
    /// A game at `stage` with the menu down.
    pub fn new(stage: Stage) -> (g: Game)
        ensures
            g.stage == stage,
            !g.paused,
    {
        Game { stage, paused: false }
    }

    /// Answer one event: the next state, and what the caller must do.
    ///
    /// Starting only means something on the title screen and arriving only
    /// during the dive. The menu opens and closes only while playing — on the
    /// title there is nothing to pause, and during the dive it would strand
    /// the camera half way across the room. Picking anything on the menu takes
    /// it down; picking the title goes back there.
    pub fn step(self, e: Event) -> (r: (Game, Action))
        ensures
            r == step_spec(self, e),
    {
        match e {
            Event::Start => if self.stage == Stage::Title {
                (Game { stage: Stage::Diving, paused: self.paused }, Action::BeginDive)
            } else {
                (self, Action::Nothing)
            },
            Event::Arrived => if self.stage == Stage::Diving {
                (Game { stage: Stage::Playing, paused: self.paused }, Action::TakeControl)
            } else {
                (self, Action::Nothing)
            },
            Event::Escape => if self.stage == Stage::Playing {
                if self.paused {
                    (Game { stage: self.stage, paused: false }, Action::CloseMenu)
                } else {
                    (Game { stage: self.stage, paused: true }, Action::OpenMenu)
                }
            } else {
                (self, Action::Nothing)
            },
            Event::Pick(c) => if self.paused {
                match c {
                    Choice::Resume => (Game { stage: self.stage, paused: false }, Action::CloseMenu),
                    Choice::Title => (Game { stage: Stage::Title, paused: false }, Action::BackToTitle),
                    Choice::Quit => (Game { stage: self.stage, paused: false }, Action::Leave),
                }
            } else {
                (self, Action::Nothing)
            },
        }
    }
}

/// Whether `Esc` was asked for this frame: the key itself, or the request to
/// open the menu on the first frame, which only counts while the menu is
/// neither up nor showing.
pub fn escape_asked(pressed: bool, open_on_start: bool, menu_up: bool, paused: bool) -> (asked: bool)
    ensures
        asked == (pressed || (open_on_start && !menu_up && !paused)),
{
    pressed || (open_on_start && !menu_up && !paused)
}

/// The menu is only ever up while playing: every event keeps that so.
pub proof fn paused_only_while_playing(g: Game, e: Event)
    requires
        g.paused ==> g.stage is Playing,
    ensures
        step_spec(g, e).0.paused ==> step_spec(g, e).0.stage is Playing,
{
}

/// `Esc` twice puts the game back as it was: while playing it opens the
/// menu and closes it again, and otherwise it does nothing.
pub proof fn escape_twice_comes_back(g: Game)
    ensures
        step_spec(step_spec(g, Event::Escape).0, Event::Escape).0 == g,
{
}

/// Starting only means something on the title screen: there it begins the
/// dive and leaves the menu as it was; anywhere else nothing happens.
pub proof fn start_only_leaves_the_title(g: Game)
    ensures
        !(g.stage is Title) ==> step_spec(g, Event::Start) == (g, Action::Nothing),
        g.stage is Title ==> step_spec(g, Event::Start) == (
        Game { stage: Stage::Diving, paused: g.paused }, Action::BeginDive),
{
}

/// Going back to the title from the menu lands on the title screen with the
/// menu down, from where starting dives again.
pub proof fn the_title_starts_a_new_game(g: Game)
    requires
        g.paused,
    ensures
        step_spec(g, Event::Pick(Choice::Title)).0 == (Game { stage: Stage::Title, paused: false }),
        step_spec(step_spec(g, Event::Pick(Choice::Title)).0, Event::Start).0.stage == Stage::Diving,
{
}

// ---------------------------------------------------------------------------
// The camera's two switches
// ---------------------------------------------------------------------------

/// Where the camera sits.
#[derive(Clone, Copy, PartialEq, Eq, Debug, Structural)]
pub enum CameraView {
    Chase,
    FirstPerson,
}

/// Which way is up on screen.
#[derive(Clone, Copy, PartialEq, Eq, Debug, Structural)]
pub enum Roll {
    /// The room stays upright; the fly goes upside down.
    WorldUp,
    /// The fly stays upright; the room goes upside down.
    BodyUp,
}

/// The other view.
pub open spec fn other_view(v: CameraView) -> CameraView {
    match v {
        CameraView::Chase => CameraView::FirstPerson,
        CameraView::FirstPerson => CameraView::Chase,
    }
}

/// The other roll.
pub open spec fn other_roll(r: Roll) -> Roll {
    match r {
        Roll::WorldUp => Roll::BodyUp,
        Roll::BodyUp => Roll::WorldUp,
    }
}

impl CameraView {
    /// The camera a game starts with: chasing the fly.
    pub fn initial() -> (v: CameraView)
        ensures
            v == CameraView::Chase,
    {
        CameraView::Chase
    }

    /// `Q`: between chasing the fly and looking out of its eyes.
    pub fn toggled(self) -> (v: CameraView)
        ensures
            v == other_view(self),
    {
        match self {
            CameraView::Chase => CameraView::FirstPerson,
            CameraView::FirstPerson => CameraView::Chase,
        }
    }
}

impl Roll {
    /// The roll a game starts with: the room upright.
    pub fn initial() -> (r: Roll)
        ensures
            r == Roll::WorldUp,
    {
        Roll::WorldUp
    }

    /// `R`: between the room upright and the fly upright.
    pub fn toggled(self) -> (r: Roll)
        ensures
            r == other_roll(self),
    {
        match self {
            Roll::WorldUp => Roll::BodyUp,
            Roll::BodyUp => Roll::WorldUp,
        }
    }
}

/// Each switch changes something, and pressing it twice changes nothing.
pub proof fn switches_undo_themselves(v: CameraView, r: Roll)
    ensures
        other_view(v) != v,
        other_view(other_view(v)) == v,
        other_roll(r) != r,
        other_roll(other_roll(r)) == r,
{
}

// ---------------------------------------------------------------------------
// Arrange mode
// ---------------------------------------------------------------------------

/// The piece number solids carry when they belong to no piece of furniture:
/// the walls, the floors, the house itself. They cannot be picked up.
pub const NO_PIECE: u32 = 0xFFFF_FFFF;

/// What arrange mode has hold of.
#[derive(Clone, Copy, PartialEq, Eq, Debug, Structural)]
pub struct Selection {
    /// Whether arrange mode is on.
    pub on: bool,
    /// The piece under the crosshair, if any.
    pub looking_at: Option<u32>,
    /// The piece being carried, if any.
    pub held: Option<u32>,
}

/// Arrange mode is consistent: nothing is aimed at or held while it is off,
/// and no piece is the house itself.
pub open spec fn selection_ok(s: Selection) -> bool {
    &&& !s.on ==> s.looking_at is None && s.held is None
    &&& s.looking_at != Some(NO_PIECE)
    &&& s.held != Some(NO_PIECE)
}

impl Selection {
    /// Arrange mode as a run opens it: on when asked for, with nothing
    /// aimed at or held.
    pub fn new(on: bool) -> (s: Selection)
        ensures
            s.on == on,
            s.looking_at is None,
            s.held is None,
            selection_ok(s),
    {
        Selection { on, looking_at: None, held: None }
    }

    /// `Tab` or `F4`: arrange mode on or off. Turning it off lets go of
    /// everything.
    pub fn toggled(self) -> (s: Selection)
        requires
            selection_ok(self),
        ensures
            s.on == !self.on,
            self.on ==> s.looking_at is None && s.held is None,
            !self.on ==> s.looking_at == self.looking_at && s.held == self.held,
            selection_ok(s),
    {
        if self.on {
            Selection { on: false, looking_at: None, held: None }
        } else {
            Selection { on: true, looking_at: self.looking_at, held: self.held }
        }
    }

    /// What the crosshair found: the piece of whatever solid it hit, unless
    /// that solid is part of the house. While something is held the aim does
    /// not move on, and while arrange mode is off nothing is aimed at.
    pub fn aimed(self, hit: Option<u32>) -> (s: Selection)
        requires
            selection_ok(self),
        ensures
            !self.on ==> s == self,
            s.on == self.on,
            s.held == self.held,
            self.held is Some ==> s.looking_at == self.looking_at,
            self.on && self.held is None ==> s.looking_at == (match hit {
                Some(p) => if p == NO_PIECE {
                    None
                } else {
                    Some(p)
                },
                None => None,
            }),
            selection_ok(s),
    {
        if !self.on || self.held.is_some() {
            return self;
        }
        let looking_at = match hit {
            Some(p) => if p == NO_PIECE {
                None
            } else {
                Some(p)
            },
            None => None,
        };
        Selection { on: self.on, looking_at, held: self.held }
    }

    /// A click or `G`: let go of what is held, or take hold of what is
    /// aimed at. Nothing happens while arrange mode is off.
    pub fn grabbed(self) -> (s: Selection)
        requires
            selection_ok(self),
        ensures
            self.on ==> s == grab_spec(self),
            !self.on ==> s == self,
            selection_ok(s),
    {
        if !self.on {
            return self;
        }
        let held = match self.held {
            Some(_) => None,
            None => self.looking_at,
        };
        Selection { on: self.on, looking_at: self.looking_at, held }
    }

    /// The piece to outline: the one held, else the one aimed at.
    pub fn showing(&self) -> (p: Option<u32>)
        ensures
            p == (match self.held {
                Some(h) => Some(h),
                None => self.looking_at,
            }),
    {
        match self.held {
            Some(h) => Some(h),
            None => self.looking_at,
        }
    }
}

/// A click or `G`: what is held is let go of; with nothing held, what is
/// aimed at is taken hold of.
pub open spec fn grab_spec(s: Selection) -> Selection {
    match s.held {
        Some(_) => Selection { held: None, ..s },
        None => Selection { held: s.looking_at, ..s },
    }
}

/// Taking hold of what is aimed at and letting go again leaves arrange mode
/// as it was; and something aimed at is really taken hold of.
pub proof fn grab_and_let_go(s: Selection)
    requires
        s.held is None,
    ensures
        grab_spec(grab_spec(s)) == s,
        s.looking_at is Some ==> grab_spec(s).held == s.looking_at,
{
}

/// The pieces that solids belong to, each once, in the order they first
/// appear, leaving out the house itself.
pub open spec fn distinct_pieces(pieces: Seq<u32>) -> Seq<u32>
    decreases pieces.len(),
{
    if pieces.len() == 0 {
        Seq::empty()
    } else {
        let before = distinct_pieces(pieces.drop_last());
        let p = pieces.last();
        if p == NO_PIECE || before.contains(p) {
            before
        } else {
            before.push(p)
        }
    }
}

/// Every piece of furniture the house has, once each, in the order its
/// solids come: the order an arrangement is written in.
pub fn pieces_in_order(pieces: &Vec<u32>) -> (order: Vec<u32>)
    ensures
        order@ == distinct_pieces(pieces@),
{
    let mut order: Vec<u32> = Vec::new();
    let mut i: usize = 0;
    while i < pieces.len()
        invariant
            i <= pieces@.len(),
            order@ == distinct_pieces(pieces@.take(i as int)),
        decreases pieces@.len() - i,
    {
        let p = pieces[i];
        proof {
            assert(pieces@.take(i + 1).drop_last() =~= pieces@.take(i as int));
            assert(pieces@.take(i + 1).last() == p);
        }
        if p != NO_PIECE {
            let mut seen = false;
            let mut k: usize = 0;
            while k < order.len()
                invariant
                    k <= order@.len(),
                    seen == exists|j: int| 0 <= j < k && order@[j] == p,
                decreases order@.len() - k,
            {
                if order[k] == p {
                    seen = true;
                }
                k += 1;
            }
            if !seen {
                order.push(p);
            }
        }
        i += 1;
    }
    proof {
        assert(pieces@.take(pieces@.len() as int) =~= pieces@);
    }
    order
}

/// No piece is listed twice, and the house itself is never listed.
pub proof fn pieces_are_listed_once(pieces: Seq<u32>)
    ensures
        forall|a: int, b: int|
            0 <= a < b < distinct_pieces(pieces).len() ==> distinct_pieces(pieces)[a] != distinct_pieces(
                pieces,
            )[b],
        !distinct_pieces(pieces).contains(NO_PIECE),
        forall|i: int| 0 <= i < pieces.len() && pieces[i] != NO_PIECE ==> distinct_pieces(pieces).contains(
            #[trigger] pieces[i],
        ),
    decreases pieces.len(),
{
    if pieces.len() > 0 {
        let rest = pieces.drop_last();
        pieces_are_listed_once(rest);
        let before = distinct_pieces(rest);
        let p = pieces.last();
        if !(p == NO_PIECE || before.contains(p)) {
            assert(before.push(p).contains(p)) by {
                assert(before.push(p)[before.len() as int] == p);
            }
            assert forall|x: u32| before.contains(x) implies before.push(p).contains(x) by {
                let w = choose|w: int| 0 <= w < before.len() && before[w] == x;
                assert(before.push(p)[w] == x);
            }
            assert(!before.push(p).contains(NO_PIECE)) by {
                if before.push(p).contains(NO_PIECE) {
                    let w = choose|w: int| 0 <= w < before.len() + 1 && before.push(p)[w] == NO_PIECE;
                    if w < before.len() {
                        assert(before[w] == NO_PIECE);
                    }
                }
            }
        }
        assert forall|i: int| 0 <= i < pieces.len() && pieces[i] != NO_PIECE implies distinct_pieces(
            pieces,
        ).contains(#[trigger] pieces[i]) by {
            if i < pieces.len() - 1 {
                assert(rest[i] == pieces[i]);
            }
        }
    }
}

} // verus!
