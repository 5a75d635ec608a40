//! The people in the house: what their movements are called, and which one
//! they play.
//!
//! A rigging tool writes one animation per export, so a person's movements
//! arrive as a folder of files that share the base model's name and differ in
//! the part that says what they are: `DadRigged`, `DadWalk`, `Dad_Idle`.
use vstd::prelude::*;
use vstd::utf8::*;
use vstd::string::StringSliceAdditionalSpecFns;
use vstd::seq_lib::group_to_multiset_ensures;
use crate::text::{
    decimal, has_part, lex_less, lex_lt, lowercase, push_decimal, shared_prefix,
    shared_prefix_len, to_lowercase, trim_separators, trimmed, first_containing,
    lemma_lex_asymmetric, lemma_lex_transitive, lemma_lex_trichotomy,
};

verus! {

/// What is left of `file` once its first `shared` characters' worth of bytes
/// are cut off the front.
pub open spec fn tail_after(file: Seq<char>, shared: int) -> Seq<char> {
    decode_utf8(encode_utf8(file).subrange(shared, encode_utf8(file).len() as int))
}

/// The cut after the shared prefix falls between two characters of the file.
///
/// The prefix is counted in characters and cut in bytes, so for a name whose
/// shared prefix is plain ASCII this always holds.
pub open spec fn cut_is_clean(model: Seq<char>, file: Seq<char>) -> bool {
    is_char_boundary(encode_utf8(file), shared_prefix(file, model))
}

/// The part of a file's name that differs from the base model's, with
/// separators trimmed off.
pub open spec fn differing(model: Seq<char>, file: Seq<char>) -> Seq<char> {
    trimmed(tail_after(file, shared_prefix(file, model)))
}

/// What the movement in `file` is called: the differing part, made lowercase,
/// or the whole file name made lowercase when nothing differs.
pub open spec fn movement(model: Seq<char>, file: Seq<char>) -> Seq<char> {
    let part = differing(model, file);
    if part.len() == 0 {
        lowercase(file)
    } else {
        lowercase(part)
    }
}

/// The part of `file` after the prefix it shares with `model`, trimmed of
/// `_`, `-` and spaces.
pub fn differing_part<'a>(model: &str, file: &'a str) -> (part: &'a str)
    requires
        cut_is_clean(model@, file@),
    ensures
        part@ == differing(model@, file@),
{
    let shared = shared_prefix_len(file, model);
    let (_, rest) = file.split_at(shared);
    proof {
        broadcast use encode_utf8_decode_utf8;
        assert(encode_utf8(rest@) == rest.spec_bytes());
        assert(rest@ == decode_utf8(encode_utf8(rest@)));
        assert(rest@ == tail_after(file@, shared_prefix(file@, model@)));
    }
    trim_separators(rest)
}

/// What to call the movement in a file, given the base model's name.
///
/// `DadRigged` and `DadWalk` share `Dad`, so the second is `walk`. A file
/// with nothing left once the shared part and its separators are gone keeps
/// its own name, made lowercase.
pub fn movement_name(model: &str, file: &str) -> (name: String)
    requires
        cut_is_clean(model@, file@),
    ensures
        name@ == movement(model@, file@),
{
    let part = to_lowercase(differing_part(model, file));
    if part.as_str().unicode_len() == 0 {
        to_lowercase(file)
    } else {
        part
    }
}

// ---------------------------------------------------------------------------
// The folder of movements, in order
// ---------------------------------------------------------------------------

/// A pair of names as characters.
pub open spec fn pair_view(p: (String, String)) -> (Seq<char>, Seq<char>) {
    (p.0@, p.1@)
}

/// The order of (movement, path) pairs: by movement, then by path.
pub open spec fn pair_lt(a: (Seq<char>, Seq<char>), b: (Seq<char>, Seq<char>)) -> bool {
    lex_lt(a.0, b.0) || (a.0 == b.0 && lex_lt(a.1, b.1))
}

/// Every pair in `s` is in order with every pair after it.
pub open spec fn pairs_in_order(s: Seq<(String, String)>) -> bool {
    forall|i: int, j: int|
        0 <= i < j < s.len() ==> !pair_lt(pair_view(#[trigger] s[j]), pair_view(#[trigger] s[i]))
}

/// A list of pairs as characters.
pub open spec fn pair_views(s: Seq<(String, String)>) -> Seq<(Seq<char>, Seq<char>)> {
    s.map_values(|p: (String, String)| pair_view(p))
}

/// Every file found, named after its movement.
pub open spec fn all_named(model: Seq<char>, found: Seq<(String, String)>) -> Seq<(Seq<char>, Seq<char>)> {
    found.map_values(|f: (String, String)| named(model, f))
}

/// A file found in the folder, (file stem, path), named after its movement.
pub open spec fn named(model: Seq<char>, found: (String, String)) -> (Seq<char>, Seq<char>) {
    (movement(model, found.0@), found.1@)
}

proof fn lemma_pair_transitive(
    a: (Seq<char>, Seq<char>),
    b: (Seq<char>, Seq<char>),
    c: (Seq<char>, Seq<char>),
)
    requires
        pair_lt(a, b),
        pair_lt(b, c),
    ensures
        pair_lt(a, c),
{
    if lex_lt(a.0, b.0) && lex_lt(b.0, c.0) {
        lemma_lex_transitive(a.0, b.0, c.0);
    } else if a.0 == b.0 && b.0 == c.0 {
        lemma_lex_transitive(a.1, b.1, c.1);
    }
}

proof fn lemma_pair_asymmetric(a: (Seq<char>, Seq<char>), b: (Seq<char>, Seq<char>))
    ensures
        !(pair_lt(a, b) && pair_lt(b, a)),
{
    lemma_lex_asymmetric(a.0, b.0);
    lemma_lex_asymmetric(a.1, b.1);
}

proof fn lemma_insert_to_multiset<A>(s: Seq<A>, p: int, x: A)
    requires
        0 <= p <= s.len(),
    ensures
        s.insert(p, x).to_multiset() =~= s.to_multiset().insert(x),
{
    broadcast use group_to_multiset_ensures;

    let t = s.insert(p, x);
    assert(t.remove(p) =~= s);
    assert(t[p] == x);
    assert(t.contains(x));
}

/// Whether pair `a` comes strictly before pair `b`.
fn pair_less(a: &(String, String), b: &(String, String)) -> (r: bool)
    ensures
        r == pair_lt(pair_view(*a), pair_view(*b)),
{
    if lex_less(a.0.as_str(), b.0.as_str()) {
        true
    } else if lex_less(b.0.as_str(), a.0.as_str()) {
        proof {
            lemma_lex_asymmetric(a.0@, b.0@);
        }
        false
    } else {
        proof {
            lemma_lex_trichotomy(a.0@, b.0@);
        }
        lex_less(a.1.as_str(), b.1.as_str())
    }
}

/// Every file found in the characters folder, as (movement, path), in order.
///
/// `found` holds each file's stem and its path; the movement comes from the
/// stem, named after what differs from the base model's stem. The result is
/// the same pairs, sorted by movement and then by path.
pub fn movements(model: &str, found: Vec<(String, String)>) -> (sorted: Vec<(String, String)>)
    requires
        forall|k: int| 0 <= k < found@.len() ==> cut_is_clean(model@, (#[trigger] found@[k]).0@),
    ensures
        pairs_in_order(sorted@),
        pair_views(sorted@).to_multiset() =~= all_named(model@, found@).to_multiset(),
{
    broadcast use group_to_multiset_ensures;

    let mut sorted: Vec<(String, String)> = Vec::new();
    let mut i: usize = 0;
    proof {
        assert(all_named(model@, found@.take(0)) =~= Seq::empty());
        assert(pair_views(sorted@) =~= Seq::empty());
    }
    while i < found.len()
        invariant
            i <= found@.len(),
            forall|k: int| 0 <= k < found@.len() ==> cut_is_clean(model@, (#[trigger] found@[k]).0@),
            pairs_in_order(sorted@),
            pair_views(sorted@).to_multiset() =~= all_named(model@, found@.take(i as int)).to_multiset(),
        decreases found@.len() - i,
    {
        let name = movement_name(model, found[i].0.as_str());
        let path = found[i].1.clone();
        let item = (name, path);
        assert(pair_view(item) == named(model@, found@[i as int]));
        let mut p: usize = 0;
        while p < sorted.len() && !pair_less(&item, &sorted[p])
            invariant
                p <= sorted@.len(),
                forall|q: int| 0 <= q < p ==> !pair_lt(pair_view(item), pair_view(#[trigger] sorted@[q])),
            decreases sorted@.len() - p,
        {
            p += 1;
        }
        let ghost before = sorted@;
        let ghost seen = pair_view(item);
        assert(seen == named(model@, found@[i as int]));
        sorted.insert(p, item);
        proof {
            assert(sorted@ == before.insert(p as int, item));
            assert forall|a: int, b: int| 0 <= a < b < sorted@.len() implies !pair_lt(
                pair_view(#[trigger] sorted@[b]),
                pair_view(#[trigger] sorted@[a]),
            ) by {
                if b < p {
                    assert(sorted@[a] == before[a] && sorted@[b] == before[b]);
                } else if b == p {
                    assert(sorted@[a] == before[a]);
                } else if a == p {
                    assert(sorted@[b] == before[b - 1]);
                    assert(pair_lt(pair_view(item), pair_view(before[p as int])));
                    if b - 1 > p {
                        assert(!pair_lt(pair_view(before[b - 1]), pair_view(before[p as int])));
                    }
                    if pair_lt(pair_view(before[b - 1]), pair_view(item)) {
                        lemma_pair_transitive(
                            pair_view(before[b - 1]),
                            pair_view(item),
                            pair_view(before[p as int]),
                        );
                        lemma_pair_asymmetric(pair_view(before[b - 1]), pair_view(before[p as int]));
                    }
                } else if a < p {
                    assert(sorted@[a] == before[a] && sorted@[b] == before[b - 1]);
                } else {
                    assert(sorted@[a] == before[a - 1] && sorted@[b] == before[b - 1]);
                }
            }
            assert(pair_views(sorted@) =~= pair_views(before).insert(p as int, pair_view(item)));
            lemma_insert_to_multiset(pair_views(before), p as int, pair_view(item));
            assert(all_named(model@, found@.take(i + 1)) =~= all_named(model@, found@.take(i as int)).push(
                seen,
            ));
            assert(pair_views(sorted@).to_multiset() =~= pair_views(before).to_multiset().insert(seen));
            vstd::seq_lib::to_multiset_build(all_named(model@, found@.take(i as int)), seen);
            assert(all_named(model@, found@.take(i + 1)).to_multiset() =~= all_named(model@, found@.take(i as int)).to_multiset().insert(seen));
        }
        i += 1;
    }
    proof {
        assert(found@.take(found@.len() as int) =~= found@);
    }
    sorted
}

// ---------------------------------------------------------------------------
// Clips
// ---------------------------------------------------------------------------

/// What the `i`th unnamed clip of a file is called: the file's movement for
/// the first, and the movement followed by its number after that.
pub open spec fn clip_title(movement: Seq<char>, i: nat) -> Seq<char> {
    if i == 0 {
        movement
    } else {
        movement + decimal(i)
    }
}

/// The name of the `i`th unnamed clip in a file whose movement is `movement`.
pub fn clip_name(movement: &str, i: usize) -> (name: String)
    ensures
        name@ == clip_title(movement@, i as nat),
{
    let mut name = movement.to_string();
    if i > 0 {
        push_decimal(&mut name, i as u64);
    }
    name
}

/// The names a file's clips go by.
///
/// A file that names its clips is believed, each name made lowercase; one
/// that does not has its `unnamed` clips named after its movement.
pub fn clip_names(movement: &str, named_clips: &Vec<String>, unnamed: usize) -> (names: Vec<String>)
    ensures
        named_clips@.len() > 0 ==> names@.len() == named_clips@.len() && forall|k: int|
            0 <= k < names@.len() ==> (#[trigger] names@[k])@ == lowercase(named_clips@[k]@),
        named_clips@.len() == 0 ==> names@.len() == unnamed && forall|k: int|
            0 <= k < names@.len() ==> (#[trigger] names@[k])@ == clip_title(movement@, k as nat),
{
    let mut names: Vec<String> = Vec::new();
    if named_clips.len() > 0 {
        let mut k: usize = 0;
        while k < named_clips.len()
            invariant
                k <= named_clips@.len(),
                names@.len() == k,
                forall|j: int| 0 <= j < k ==> (#[trigger] names@[j])@ == lowercase(named_clips@[j]@),
            decreases named_clips@.len() - k,
        {
            names.push(to_lowercase(named_clips[k].as_str()));
            k += 1;
        }
    } else {
        let mut k: usize = 0;
        while k < unnamed
            invariant
                k <= unnamed,
                names@.len() == k,
                forall|j: int| 0 <= j < k ==> (#[trigger] names@[j])@ == clip_title(movement@, j as nat),
            decreases unnamed - k,
        {
            names.push(clip_name(movement, k));
            k += 1;
        }
    }
    names
}

/// The clip a person asks for: the one named on the command line if any,
/// else the one their posture asks for, else `idle`.
pub fn wanted_clip<'a>(asked: Option<&'a str>, posture: Option<&'a str>) -> (wants: &'a str)
    ensures
        asked matches Some(a) ==> wants@ == a@,
        asked is None ==> (posture matches Some(p) ==> wants@ == p@),
        asked is None && posture is None ==> wants@ == "idle"@,
{
    match asked {
        Some(a) => a,
        None => match posture {
            Some(p) => p,
            None => "idle",
        },
    }
}

/// The first name in `names` that has `part` in it.
pub open spec fn first_with(names: Seq<String>, part: Seq<char>, k: int) -> bool {
    0 <= k < names.len() && has_part(names[k]@, part) && forall|j: int|
        0 <= j < k ==> !has_part(#[trigger] names[j]@, part)
}

/// Which clip to play, by its place in `names`.
///
/// The first whose name contains what was wanted; failing that, the first
/// whose name contains `idle`; failing that, the first clip there is. Nothing
/// when there are no clips.
pub fn choose_clip(names: &Vec<String>, wants: &str) -> (chosen: Option<usize>)
    ensures
        names@.len() == 0 <==> chosen is None,
        (exists|k: int| 0 <= k < names@.len() && has_part(#[trigger] names@[k]@, wants@)) ==> (
        chosen matches Some(k) && first_with(names@, wants@, k as int)),
        (forall|k: int| 0 <= k < names@.len() ==> !has_part(#[trigger] names@[k]@, wants@)) && (
        exists|k: int| 0 <= k < names@.len() && has_part(#[trigger] names@[k]@, "idle"@)) ==> (
        chosen matches Some(k) && first_with(names@, "idle"@, k as int)),
        (forall|k: int|
            0 <= k < names@.len() ==> !has_part(#[trigger] names@[k]@, wants@) && !has_part(
                names@[k]@,
                "idle"@,
            )) && names@.len() > 0 ==> chosen == Some(0usize),
{
    match first_containing(names, wants) {
        Some(k) => Some(k),
        None => match first_containing(names, "idle") {
            Some(k) => Some(k),
            None => if names.len() > 0 {
                Some(0)
            } else {
                None
            },
        },
    }
}

// ---------------------------------------------------------------------------
// What a movement is called, as a whole
// ---------------------------------------------------------------------------

proof fn lemma_shared_with_itself(a: Seq<char>, i: int)
    requires
        0 <= i <= a.len(),
    ensures
        crate::text::shared_from(a, a, i) == a.len(),
    decreases a.len() - i,
{
    if i < a.len() {
        lemma_shared_with_itself(a, i + 1);
    }
}

/// A file name in ASCII is always cut cleanly: every byte of it starts a
/// character.
pub proof fn ascii_names_cut_clean(model: Seq<char>, file: Seq<char>)
    requires
        is_ascii_chars(file),
    ensures
        cut_is_clean(model, file),
{
    broadcast use encode_utf8_valid_utf8, is_ascii_chars_encode_utf8;

    let bytes = encode_utf8(file);
    let k = shared_prefix(file, model);
    crate::text::lemma_shared_prefix_bound(file, model);
    is_char_boundary_start_end_of_seq(bytes);
    if 0 < k < bytes.len() {
        is_char_boundary_iff_not_is_continuation_byte(bytes, k);
        assert(file[k] as u8 == bytes[k]);
        assert((file[k] as u32) < 128) by {
            assert('\0' <= file[k] <= '\u{7f}');
        }
        let b = bytes[k];
        assert(!is_continuation_byte(b)) by (bit_vector)
            requires
                b < 128,
        ;
    }
}

/// A file with the base model's own name keeps its own name, made lowercase:
/// it shares everything with the model, so nothing differs.
///
/// The shared prefix is counted in characters and cut in bytes, so this
/// holds of names in ASCII; a name with other characters in it is cut short
/// of its end, and the rest of it is taken for what differs.
pub proof fn a_whole_name_is_kept(model: Seq<char>)
    requires
        is_ascii_chars(model),
    ensures
        cut_is_clean(model, model),
        differing(model, model).len() == 0,
        movement(model, model) == lowercase(model),
{
    broadcast use encode_utf8_valid_utf8, is_ascii_chars_encode_utf8, encode_utf8_decode_utf8;

    ascii_names_cut_clean(model, model);
    lemma_shared_with_itself(model, 0);
    let bytes = encode_utf8(model);
    assert(bytes.subrange(model.len() as int, bytes.len() as int) =~= encode_utf8(Seq::<char>::empty()));
    let tail = tail_after(model, model.len() as int);
    assert(tail =~= Seq::<char>::empty());
    assert(trimmed(tail) =~= Seq::<char>::empty());
}

/// A file that shares nothing with the base model, and has no separators at
/// its ends, keeps its own name, made lowercase.
pub proof fn an_unrelated_name_is_kept(model: Seq<char>, file: Seq<char>)
    requires
        shared_prefix(file, model) == 0,
        file.len() > 0,
        !crate::text::is_separator(file[0]),
        !crate::text::is_separator(file.last()),
    ensures
        cut_is_clean(model, file),
        movement(model, file) == lowercase(file),
{
    broadcast use encode_utf8_valid_utf8, encode_utf8_decode_utf8;

    let bytes = encode_utf8(file);
    is_char_boundary_start_end_of_seq(bytes);
    assert(bytes.subrange(0, bytes.len() as int) =~= bytes);
    assert(tail_after(file, 0) == file);
    assert(crate::text::lead_end(crate::text::Loose::Separators, file, 0) == 0);
    assert(crate::text::tail_end(crate::text::Loose::Separators, file, 0, file.len() as int) == file.len());
    assert(trimmed(file) =~= file);
}

} // verus!
