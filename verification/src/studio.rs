//! The turntable studio: a person alone on a plain set, turning, for
//! looking at a model.
//!
//! Its setting is `round[:flag[:flag...]]`: how far round to turn, then any
//! of `head` (look at the head) and `keep` (keep the house standing).
use vstd::prelude::*;
use crate::text::{same, push_char, trimmed_by, trim_space, Loose};

verus! {

/// The pieces of `s` from position `i` on, split at every `c`, `cur` being
/// the part of the current piece already read; as `str::split` gives them,
/// so there is always at least one.
pub open spec fn pieces_from(s: Seq<char>, c: char, i: int, cur: Seq<char>) -> Seq<Seq<char>>
    decreases s.len() - i,
{
    if i < 0 || i >= s.len() {
        seq![cur]
    } else if s[i] == c {
        seq![cur] + pieces_from(s, c, i + 1, Seq::empty())
    } else {
        pieces_from(s, c, i + 1, cur.push(s[i]))
    }
}

/// The pieces of `s` between the `c`s in it.
pub open spec fn pieces_of(s: Seq<char>, c: char) -> Seq<Seq<char>> {
    pieces_from(s, c, 0, Seq::empty())
}

/// The pieces of a string between the `c`s in it, as `str::split` gives
/// them.
pub fn split_at_every(s: &str, c: char) -> (pieces: Vec<String>)
    ensures
        pieces@.map_values(|p: String| p@) == pieces_of(s@, c),
{
    let len = s.unicode_len();
    let mut pieces: Vec<String> = Vec::new();
    let mut cur = String::new();
    let mut i: usize = 0;
    proof {
        assert(cur@ =~= Seq::<char>::empty());
        assert(pieces@.map_values(|p: String| p@) =~= Seq::<Seq<char>>::empty());
    }
    while i < len
        invariant
            len == s@.len(),
            i <= len,
            pieces@.map_values(|p: String| p@) + pieces_from(s@, c, i as int, cur@) == pieces_of(s@, c),
        decreases len - i,
    {
        let ch = s.get_char(i);
        if ch == c {
            let ghost done = pieces@.map_values(|p: String| p@);
            let ghost read = cur@;
            pieces.push(cur);
            cur = String::new();
            proof {
                assert(cur@ =~= Seq::<char>::empty());
                assert(pieces@.map_values(|p: String| p@) =~= done.push(read));
                assert(done.push(read) + pieces_from(s@, c, i + 1, Seq::empty()) =~= done + (seq![read]
                    + pieces_from(s@, c, i + 1, Seq::empty())));
            }
        } else {
            push_char(&mut cur, ch);
        }
        i += 1;
    }
    let ghost done = pieces@.map_values(|p: String| p@);
    let ghost last = cur@;
    pieces.push(cur);
    proof {
        assert(pieces@.map_values(|p: String| p@) =~= done.push(last));
        assert(done + seq![last] =~= done.push(last));
    }
    pieces
}

/// What the studio setting says besides how far round to turn.
pub struct Switches {
    /// The first piece, trimmed: how far round, for the caller to read.
    pub round: String,
    /// Look at the head rather than the whole body.
    pub head: bool,
    /// Keep the house standing rather than clearing the set.
    pub keep: bool,
}

/// Whether one of the pieces after the first, trimmed, is `flag`.
pub open spec fn has_flag(pieces: Seq<Seq<char>>, flag: Seq<char>) -> bool {
    exists|k: int| 1 <= k < pieces.len() && trimmed_by(Loose::Whitespace, #[trigger] pieces[k]) == flag
}

/// Read the studio setting's pieces: the first, trimmed, is how far round;
/// `head` and `keep` among the rest, each trimmed, are switched on.
pub fn studio_switches(raw: &str) -> (s: Switches)
    ensures
        s.round@ == trimmed_by(Loose::Whitespace, pieces_of(raw@, ':')[0]),
        s.head == has_flag(pieces_of(raw@, ':'), "head"@),
        s.keep == has_flag(pieces_of(raw@, ':'), "keep"@),
{
    let pieces = split_at_every(raw, ':');
    let ghost views = pieces@.map_values(|p: String| p@);
    proof {
        lemma_pieces_nonempty(raw@, ':', 0, Seq::empty());
        assert(views.len() == pieces@.len());
    }
    let round = trim_space(pieces[0].as_str()).to_string();
    let mut head = false;
    let mut keep = false;
    let mut k: usize = 1;
    while k < pieces.len()
        invariant
            1 <= k <= pieces@.len(),
            views == pieces@.map_values(|p: String| p@),
            head == exists|j: int| 1 <= j < k && trimmed_by(Loose::Whitespace, #[trigger] views[j]) == "head"@,
            keep == exists|j: int| 1 <= j < k && trimmed_by(Loose::Whitespace, #[trigger] views[j]) == "keep"@,
        decreases pieces@.len() - k,
    {
        let flag = trim_space(pieces[k].as_str());
        proof {
            assert(views[k as int] == pieces@[k as int]@);
        }
        if same(flag, "head") {
            head = true;
        }
        if same(flag, "keep") {
            keep = true;
        }
        k += 1;
    }
    Switches { round, head, keep }
}

proof fn lemma_pieces_nonempty(s: Seq<char>, c: char, i: int, cur: Seq<char>)
    ensures
        pieces_from(s, c, i, cur).len() >= 1,
    decreases s.len() - i,
{
    if 0 <= i < s.len() {
        if s[i] == c {
            lemma_pieces_nonempty(s, c, i + 1, Seq::empty());
        } else {
            lemma_pieces_nonempty(s, c, i + 1, cur.push(s[i]));
        }
    }
}

} // verus!
