//! Taking pictures of the game: where an automatic capture goes, how big
//! its picture is, and what a screenshot taken on request is called.
use vstd::prelude::*;
use crate::text::{push_zero_padded, split_first, split_once_at, parse_u32, u32_text, zero_padded};

verus! {

/// A setting that was given and is not empty.
pub open spec fn given_spec(var: Option<Seq<char>>) -> Option<Seq<char>> {
    match var {
        Some(v) => if v.len() > 0 {
            Some(v)
        } else {
            None
        },
        None => None,
    }
}

/// Views an optional string as its characters.
pub open spec fn opt_view(var: Option<String>) -> Option<Seq<char>> {
    match var {
        Some(v) => Some(v@),
        None => None,
    }
}

/// A setting, if it was given and is not empty: an empty one means the same
/// as none.
pub fn given(var: Option<String>) -> (r: Option<String>)
    ensures
        opt_view(r) == given_spec(opt_view(var)),
{
    match var {
        Some(v) => if v.as_str().unicode_len() > 0 {
            Some(v)
        } else {
            None
        },
        None => None,
    }
}

/// Where an automatic capture is saved, from the capture setting: set and
/// not empty means a capture is wanted.
pub fn capture_path(var: Option<String>) -> (path: Option<String>)
    ensures
        opt_view(path) == given_spec(opt_view(var)),
{
    given(var)
}

/// A picture size written `WxH`: two whole numbers around the first `x`.
pub open spec fn size_spec(s: Seq<char>) -> Option<(u32, u32)> {
    match split_first(s, 'x') {
        Some((w, h)) => match (u32_text(w), u32_text(h)) {
            (Some(a), Some(b)) => Some((a, b)),
            _ => None,
        },
        None => None,
    }
}

/// The picture size asked for, as `WxH`.
pub fn capture_size(s: &str) -> (size: Option<(u32, u32)>)
    ensures
        size == size_spec(s@),
{
    match split_once_at(s, 'x') {
        Some((w, h)) => match (parse_u32(w), parse_u32(h)) {
            (Some(a), Some(b)) => Some((a, b)),
            _ => None,
        },
        None => None,
    }
}

/// The size a capture is drawn at: what was asked for, else the window's,
/// else 1920 by 1080; never narrower or shorter than one pixel.
pub open spec fn target_spec(asked: Option<(u32, u32)>, window: Option<(u32, u32)>) -> (u32, u32) {
    let (w, h) = match asked {
        Some(s) => s,
        None => match window {
            Some(s) => s,
            None => (1920u32, 1080u32),
        },
    };
    (if w < 1 {
        1
    } else {
        w
    }, if h < 1 {
        1
    } else {
        h
    })
}

/// The size a capture is drawn at.
pub fn target_size(asked: Option<(u32, u32)>, window: Option<(u32, u32)>) -> (size: (u32, u32))
    ensures
        size == target_spec(asked, window),
        size.0 >= 1 && size.1 >= 1,
{
    let (w, h) = match asked {
        Some(s) => s,
        None => match window {
            Some(s) => s,
            None => (1920, 1080),
        },
    };
    (if w < 1 {
        1
    } else {
        w
    }, if h < 1 {
        1
    } else {
        h
    })
}

/// The name of the screenshot numbered `n`: `fly-`, the number in at least
/// three digits, `.png`.
pub open spec fn screenshot_spec(n: nat) -> Seq<char> {
    "fly-"@ + zero_padded(n, 3) + ".png"@
}

/// What the screenshot numbered `n` is saved as.
pub fn screenshot_name(n: u32) -> (name: String)
    ensures
        name@ == screenshot_spec(n as nat),
{
    let mut name = String::new();
    name.append("fly-");
    push_zero_padded(&mut name, n as u64, 3);
    name.append(".png");
    proof {
        assert(name@ =~= screenshot_spec(n as nat));
    }
    name
}

/// Shots taken on request, counted so no two overwrite each other.
pub struct Shots {
    pub taken: u32,
}

impl Shots {
    /// No shots yet.
    pub fn new() -> (s: Shots)
        ensures
            s.taken == 0,
    {
        Shots { taken: 0 }
    }

    /// The name the next shot is saved as; the count goes up by one.
    pub fn next(&mut self) -> (name: String)
        requires
            old(self).taken < u32::MAX,
        ensures
            name@ == screenshot_spec(old(self).taken as nat),
            final(self).taken == old(self).taken + 1,
    {
        let name = screenshot_name(self.taken);
        self.taken = self.taken + 1;
        name
    }
}

/// Two shots taken one after the other never share a name.
pub proof fn shots_never_collide(a: nat, b: nat)
    requires
        a != b,
    ensures
        screenshot_spec(a) != screenshot_spec(b),
{
    crate::text::lemma_zero_padded_injective(a, b, 3);
    let sa = screenshot_spec(a);
    let sb = screenshot_spec(b);
    reveal_strlit("fly-");
    reveal_strlit(".png");
    if sa == sb {
        assert(sa.subrange(4, sa.len() - 4) =~= zero_padded(a, 3));
        assert(sb.subrange(4, sb.len() - 4) =~= zero_padded(b, 3));
    }
}

} // verus!
