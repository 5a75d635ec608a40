//! Counting and ranking.
//!
//! A few small questions the house asks of lists of numbers. Which ceiling
//! height is the commonest, so a ceiling can go over the ordinary walls and not
//! the gable ends; which seat height the most probes landed at; which slice
//! found the most rooms, and which rooms are biggest, so the bulbs go where they
//! are worth the most.
use vstd::prelude::*;

verus! {

/// How many times `x` occurs in `s`.
pub open spec fn occurrences(s: Seq<i32>, x: i32) -> nat
    decreases s.len(),
{
    if s.len() == 0 {
        0
    } else {
        occurrences(s.drop_last(), x) + if s.last() == x {
            1nat
        } else {
            0nat
        }
    }
}

/// The count of `x` in `s`, taken a prefix at a time.
proof fn lemma_occurrences_prefix(s: Seq<i32>, x: i32, i: int)
    requires
        0 <= i < s.len(),
    ensures
        occurrences(s.take(i + 1), x) == occurrences(s.take(i), x) + if s[i] == x {
            1nat
        } else {
            0nat
        },
{
    assert(s.take(i + 1).drop_last() =~= s.take(i));
}

/// A value that occurs has at least one occurrence.
proof fn lemma_occurs(s: Seq<i32>, i: int)
    requires
        0 <= i < s.len(),
    ensures
        occurrences(s, s[i]) >= 1,
    decreases s.len(),
{
    if i < s.len() - 1 {
        lemma_occurs(s.drop_last(), i);
    }
}

/// How many times `x` occurs, counted by walking the list.
fn count_of(s: &Vec<i32>, x: i32) -> (n: usize)
    ensures
        n == occurrences(s@, x),
{
    let mut n: usize = 0;
    let mut i: usize = 0;
    while i < s.len()
        invariant
            i <= s@.len(),
            n == occurrences(s@.take(i as int), x),
            n <= i,
        decreases s@.len() - i,
    {
        proof {
            lemma_occurrences_prefix(s@, x, i as int);
        }
        if s[i] == x {
            n += 1;
        }
        i += 1;
    }
    proof {
        assert(s@.take(s@.len() as int) =~= s@);
    }
    n
}

/// The commonest value in a list and how often it occurs, or nothing for an
/// empty list. Where several values are equally common, the one that occurs
/// first in the list is given.
pub fn mode_of(s: &Vec<i32>) -> (found: Option<(i32, usize)>)
    ensures
        found is None <==> s@.len() == 0,
        found matches Some((value, count)) ==> {
            &&& s@.contains(value)
            &&& count == occurrences(s@, value)
            &&& forall|x: i32| #[trigger] occurrences(s@, x) <= count
            &&& exists|k: int|
                0 <= k < s@.len() && s@[k] == value && forall|j: int|
                    0 <= j < k ==> #[trigger] occurrences(s@, s@[j]) < count
        },
{
    if s.len() == 0 {
        return None;
    }
    let mut best = s[0];
    let mut best_count = count_of(s, best);
    let mut best_at: usize = 0;
    let mut i: usize = 1;
    while i < s.len()
        invariant
            1 <= i <= s@.len(),
            best_at < i,
            s@[best_at as int] == best,
            forall|j: int| 0 <= j < best_at ==> #[trigger] occurrences(s@, s@[j]) < best_count,
            s@.contains(best),
            best_count == occurrences(s@, best),
            forall|j: int| 0 <= j < i ==> #[trigger] occurrences(s@, s@[j]) <= best_count,
        decreases s@.len() - i,
    {
        let here = count_of(s, s[i]);
        if here > best_count {
            best = s[i];
            best_count = here;
            best_at = i;
        }
        i += 1;
    }
    proof {
        assert forall|x: i32| #[trigger] occurrences(s@, x) <= best_count by {
            if !s@.contains(x) {
                lemma_absent(s@, x);
            } else {
                let j = choose|j: int| 0 <= j < s@.len() && s@[j] == x;
                assert(occurrences(s@, s@[j]) <= best_count);
            }
        }
        assert(s@[best_at as int] == best);
    }
    Some((best, best_count))
}

/// A value that does not occur is counted zero times.
proof fn lemma_absent(s: Seq<i32>, x: i32)
    requires
        !s.contains(x),
    ensures
        occurrences(s, x) == 0,
    decreases s.len(),
{
    if s.len() > 0 {
        assert(!s.drop_last().contains(x)) by {
            if s.drop_last().contains(x) {
                let j = choose|j: int| 0 <= j < s.drop_last().len() && s.drop_last()[j] == x;
                assert(s[j] == x);
            }
        }
        lemma_absent(s.drop_last(), x);
    }
}

/// The first position holding the largest count, or nothing for an empty
/// list: later positions only win by being strictly larger.
pub fn first_largest(counts: &Vec<usize>) -> (found: Option<usize>)
    ensures
        found is None <==> counts@.len() == 0,
        found matches Some(k) ==> {
            &&& k < counts@.len()
            &&& forall|j: int| 0 <= j < counts@.len() ==> #[trigger] counts@[j] <= counts@[k as int]
            &&& forall|j: int| 0 <= j < k ==> #[trigger] counts@[j] < counts@[k as int]
        },
{
    if counts.len() == 0 {
        return None;
    }
    let mut best: usize = 0;
    let mut i: usize = 1;
    while i < counts.len()
        invariant
            1 <= i <= counts@.len(),
            best < i,
            forall|j: int| 0 <= j < i ==> #[trigger] counts@[j] <= counts@[best as int],
            forall|j: int| 0 <= j < best ==> #[trigger] counts@[j] < counts@[best as int],
        decreases counts@.len() - i,
    {
        if counts[i] > counts[best] {
            best = i;
        }
        i += 1;
    }
    Some(best)
}

/// How many rooms of a drawn house get a bulb: the biggest ones.
pub const MOST_BULBS: usize = 14;

/// `a` is ranked ahead of `b`: it is bigger, or as big and earlier.
pub open spec fn ahead(keys: Seq<usize>, a: int, b: int) -> bool {
    keys[a] > keys[b] || (keys[a] == keys[b] && a < b)
}

/// The positions of the `most` biggest values, biggest first, equal values in
/// the order they came in. Fewer when there are fewer values.
pub fn biggest(keys: &Vec<usize>, most: usize) -> (ranked: Vec<usize>)
    ensures
        ranked@.len() == if most < keys@.len() {
            most as int
        } else {
            keys@.len() as int
        },
        forall|i: int| 0 <= i < ranked@.len() ==> #[trigger] ranked@[i] < keys@.len(),
        forall|i: int, j: int|
            0 <= i < j < ranked@.len() ==> ahead(keys@, #[trigger] ranked@[i] as int, #[trigger] ranked@[j] as int),
        forall|i: int, p: int|
            0 <= i < ranked@.len() && 0 <= p < keys@.len() && !ranked@.contains(p as usize)
                ==> #[trigger] ahead(keys@, ranked@[i] as int, p),
{
    let n = keys.len();
    let want = if most < n {
        most
    } else {
        n
    };
    let mut taken: Vec<bool> = Vec::new();
    let mut k: usize = 0;
    while k < n
        invariant
            k <= n,
            n == keys@.len(),
            taken@.len() == k,
            forall|j: int| 0 <= j < k ==> !#[trigger] taken@[j],
        decreases n - k,
    {
        taken.push(false);
        k += 1;
    }
    let mut ranked: Vec<usize> = Vec::new();
    while ranked.len() < want
        invariant
            n == keys@.len(),
            want <= n,
            ranked@.len() <= want,
            taken@.len() == n,
            forall|i: int| 0 <= i < ranked@.len() ==> #[trigger] ranked@[i] < n,
            forall|p: int| 0 <= p < n ==> (#[trigger] taken@[p] <==> ranked@.contains(p as usize)),
            forall|i: int, j: int|
                0 <= i < j < ranked@.len() ==> ahead(keys@, #[trigger] ranked@[i] as int, #[trigger] ranked@[j] as int),
            forall|i: int, p: int|
                0 <= i < ranked@.len() && 0 <= p < n && !#[trigger] taken@[p] ==> ahead(keys@, #[trigger] ranked@[i] as int, p),
        decreases want - ranked@.len(),
    {
        // There is an untaken position while fewer than `want` are taken.
        proof {
            if forall|p: int| 0 <= p < n ==> #[trigger] taken@[p] {
                assert forall|p: int| 0 <= p < n implies #[trigger] ranked@.contains(p as usize) by { assert(taken@[p]); }
                lemma_taken_all(ranked@, n as int);
            }
        }
        let mut best: usize = 0;
        let mut found = false;
        let mut p: usize = 0;
        while p < n
            invariant
                n == keys@.len(),
                taken@.len() == n,
                p <= n,
                found ==> best < p && !taken@[best as int],
                found ==> forall|q: int| 0 <= q < p && !#[trigger] taken@[q] && q != best ==> ahead(keys@, best as int, q),
                !found ==> forall|q: int| 0 <= q < p ==> #[trigger] taken@[q],
            decreases n - p,
        {
            if !taken[p] && (!found || keys[p] > keys[best]) {
                best = p;
                found = true;
            }
            p += 1;
        }
        let ghost ranked0 = ranked@;
        let ghost taken0 = taken@;
        taken.set(best, true);
        ranked.push(best);
        proof {
            assert forall|q: int| 0 <= q < n implies (#[trigger] taken@[q] <==> ranked@.contains(q as usize)) by {
                if q == best as int {
                    assert(ranked@[ranked@.len() - 1] == best);
                } else {
                    if ranked0.contains(q as usize) {
                        let m = choose|m: int| 0 <= m < ranked0.len() && ranked0[m] == q as usize;
                        assert(ranked@[m] == q as usize);
                    }
                    if ranked@.contains(q as usize) {
                        let m = choose|m: int| 0 <= m < ranked@.len() && ranked@[m] == q as usize;
                        if m < ranked0.len() {
                            assert(ranked0[m] == q as usize);
                        }
                    }
                }
            }
            assert forall|i: int, j: int| 0 <= i < j < ranked@.len() implies ahead(keys@, #[trigger] ranked@[i] as int, #[trigger] ranked@[j] as int) by {
                if j == ranked@.len() - 1 {
                    assert(ranked@[i] == ranked0[i]);
                    assert(!taken0[best as int]);
                } else {
                    assert(ranked@[i] == ranked0[i]);
                    assert(ranked@[j] == ranked0[j]);
                }
            }
            assert forall|i: int, q: int| 0 <= i < ranked@.len() && 0 <= q < n && !#[trigger] taken@[q] implies ahead(keys@, #[trigger] ranked@[i] as int, q) by {
                if i == ranked@.len() - 1 {
                    assert(q != best as int);
                } else {
                    assert(ranked@[i] == ranked0[i]);
                }
            }
        }
    }
    proof {
        assert forall|i: int, p: int|
            0 <= i < ranked@.len() && 0 <= p < keys@.len() && !ranked@.contains(p as usize)
                implies #[trigger] ahead(keys@, ranked@[i] as int, p) by {
            assert(!taken@[p]);
        }
    }
    ranked
}

/// Every position taken means at least as many taken as there are positions.
proof fn lemma_taken_all(ranked: Seq<usize>, n: int)
    requires
        0 <= n <= usize::MAX,
        forall|p: int| 0 <= p < n ==> #[trigger] ranked.contains(p as usize),
    ensures
        ranked.len() >= n,
    decreases n,
{
    if n > 0 {
        let last = (n - 1) as usize;
        assert(ranked.contains(last));
        let k = choose|k: int| 0 <= k < ranked.len() && ranked[k] == last;
        let rest = ranked.subrange(0, k) + ranked.subrange(k + 1, ranked.len() as int);
        assert forall|p: int| 0 <= p < n - 1 implies #[trigger] rest.contains(p as usize) by {
            assert(ranked.contains(p as usize));
            let m = choose|m: int| 0 <= m < ranked.len() && ranked[m] == p as usize;
            assert(m != k);
            if m < k {
                assert(rest[m] == ranked[m]);
            } else {
                assert(rest[m - 1] == ranked[m]);
            }
        }
        lemma_taken_all(rest, n - 1);
    }
}

/// How many probes a cushion must catch before it counts as a seat.
pub const FULLEST_BIN_AT_LEAST: usize = 8;

/// The height bin a seat is at: the fullest bin of probe heights, the first
/// met of equally full ones, and nothing unless it caught at least eight
/// probes. Graze hits spread across every bin; a cushion fills
/// one.
pub fn cushion_level(bins: &Vec<i32>) -> (level: Option<i32>)
    ensures
        match level {
            Some(b) => occurrences(bins@, b) >= FULLEST_BIN_AT_LEAST && bins@.contains(b) && (forall|x: i32|
                #[trigger] occurrences(bins@, x) <= occurrences(bins@, b)) && exists|k: int|
                0 <= k < bins@.len() && bins@[k] == b && forall|j: int|
                    0 <= j < k ==> #[trigger] occurrences(bins@, bins@[j]) < occurrences(bins@, b),
            None => forall|x: i32| #[trigger] occurrences(bins@, x) < FULLEST_BIN_AT_LEAST,
        },
{
    match mode_of(bins) {
        Some((b, count)) => if count < FULLEST_BIN_AT_LEAST {
            None
        } else {
            Some(b)
        },
        None => {
            proof {
                assert forall|x: i32| #[trigger] occurrences(bins@, x) < FULLEST_BIN_AT_LEAST by {
                    lemma_absent(bins@, x);
                }
            }
            None
        },
    }
}

} // verus!
