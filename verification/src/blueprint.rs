//! Reading a house that somebody drew: which file was asked for, what is
//! installed, and what the boxes in a baked building say about themselves.
//!
//! The file itself is JSON and is read by the caller; what it means is
//! decided here.
use vstd::prelude::*;
use crate::capture::{given, given_spec, opt_view};
use crate::text::{same, name_views, names_in_order, sorted_names, strip_suffix_of, without_suffix, joined, join};

verus! {

/// The house asked for on the command line, if one was: nothing, or
/// nothing but an empty name, means the procedural house.
pub fn requested(var: Option<String>) -> (house: Option<String>)
    ensures
        opt_view(house) == given_spec(opt_view(var)),
{
    given(var)
}

/// Where a house asked for by `named` may be, in the order they are tried:
/// the name as a path, then in the installed folder as it is, then there
/// with `.json` after it.
pub open spec fn candidates_spec(named: Seq<char>) -> Seq<Seq<char>> {
    seq![named, "assets/buildings/"@ + named, "assets/buildings/"@ + named + ".json"@]
}

/// The paths a house asked for by name may be found at, first choice first.
pub fn house_candidates(named: &str) -> (paths: Vec<String>)
    ensures
        name_views(paths@) == candidates_spec(named@),
{
    let mut paths: Vec<String> = Vec::new();
    paths.push(named.to_string());
    let mut there = String::new();
    there.append("assets/buildings/");
    there.append(named);
    let mut json = there.clone();
    json.append(".json");
    paths.push(there);
    paths.push(json);
    proof {
        assert(name_views(paths@) =~= candidates_spec(named@));
    }
    paths
}

/// The names of the installed houses among the files in the installed
/// folder: each file whose name ends in `.json`, without it.
pub open spec fn installed_spec(files: Seq<Seq<char>>) -> Seq<Seq<char>>
    decreases files.len(),
{
    if files.len() == 0 {
        Seq::empty()
    } else {
        let before = installed_spec(files.drop_last());
        match without_suffix(files.last(), ".json"@) {
            Some(n) => before.push(n),
            None => before,
        }
    }
}

/// Every house installed, by name, in dictionary order, from the names of
/// the files in the installed folder.
pub fn installed(files: &Vec<String>) -> (names: Vec<String>)
    ensures
        names_in_order(name_views(names@)),
        name_views(names@).to_multiset() =~= installed_spec(name_views(files@)).to_multiset(),
{
    let mut found: Vec<String> = Vec::new();
    let mut i: usize = 0;
    while i < files.len()
        invariant
            i <= files@.len(),
            name_views(found@) == installed_spec(name_views(files@.take(i as int))),
        decreases files@.len() - i,
    {
        proof {
            assert(name_views(files@.take(i + 1)).drop_last() =~= name_views(files@.take(i as int)));
            assert(name_views(files@.take(i + 1)).last() == files@[i as int]@);
        }
        match strip_suffix_of(files[i].as_str(), ".json") {
            Some(n) => {
                let ghost before = name_views(found@);
                found.push(n.to_string());
                proof {
                    assert(name_views(found@) =~= before.push(n@));
                }
            },
            None => {},
        }
        i += 1;
    }
    proof {
        assert(files@.take(files@.len() as int) =~= files@);
    }
    sorted_names(found)
}

/// What is said when the house asked for is not there: the list of what is,
/// because a missing house is nearly always a typo and the cure is the list.
pub open spec fn missing_spec(named: Seq<char>, known: Seq<Seq<char>>) -> Seq<char> {
    if known.len() == 0 {
        "no house called '"@ + named + "', and nothing is installed in assets/buildings/"@
    } else {
        "no house called '"@ + named + "' \u{2014} assets/buildings/ has: "@ + joined(known, ", "@)
    }
}

/// The message for a house that could not be found.
pub fn missing_house(named: &str, known: &Vec<String>) -> (message: String)
    ensures
        message@ == missing_spec(named@, name_views(known@)),
{
    let mut message = String::new();
    message.append("no house called '");
    message.append(named);
    if known.len() == 0 {
        message.append("', and nothing is installed in assets/buildings/");
    } else {
        message.append("' \u{2014} assets/buildings/ has: ");
        let list = join(known, ", ");
        message.append(list.as_str());
    }
    proof {
        assert(message@ =~= missing_spec(named@, name_views(known@)));
    }
    message
}

/// Whether a box's form is one taken as its bounding box: anything named
/// but a plain box.
pub open spec fn approximated_form(form: Seq<char>) -> bool {
    form.len() > 0 && form != "box"@
}

/// How many of `forms` are taken as their bounding boxes.
pub open spec fn approximated_spec(forms: Seq<Seq<char>>) -> nat
    decreases forms.len(),
{
    if forms.len() == 0 {
        0
    } else {
        approximated_spec(forms.drop_last()) + if approximated_form(forms.last()) {
            1nat
        } else {
            0nat
        }
    }
}

/// How many boxes of a baked house are roof shapes taken as their bounding
/// boxes, which the import reports.
pub fn approximated(forms: &Vec<String>) -> (n: usize)
    ensures
        n == approximated_spec(name_views(forms@)),
{
    let mut n: usize = 0;
    let mut i: usize = 0;
    while i < forms.len()
        invariant
            i <= forms@.len(),
            n <= i,
            n == approximated_spec(name_views(forms@.take(i as int))),
        decreases forms@.len() - i,
    {
        proof {
            assert(name_views(forms@.take(i + 1)).drop_last() =~= name_views(forms@.take(i as int)));
            assert(name_views(forms@.take(i + 1)).last() == forms@[i as int]@);
        }
        let f = forms[i].as_str();
        if f.unicode_len() > 0 && !same(f, "box") {
            n += 1;
        }
        i += 1;
    }
    proof {
        assert(forms@.take(forms@.len() as int) =~= forms@);
    }
    n
}

/// Whether a box of a baked house is part of the roof, which the plan view
/// drops: its stage says `roof`.
pub fn is_roof(stage: &str) -> (roof: bool)
    ensures
        roof == (stage@ == "roof"@),
{
    same(stage, "roof")
}

} // verus!
