//! Natural, case-insensitive ordering of names, and the ranking of a list
//! of names by it.

use std::cmp::Ordering;
use vstd::prelude::*;

verus! {

/// The sign that `natord::compare_ignore_case` gives to a pair of strings:
/// negative where the left one orders first, zero where neither does,
/// positive where the right one orders first.
pub uninterp spec fn natural_order(left: Seq<char>, right: Seq<char>) -> int;

/// Calls `natord::compare_ignore_case` and hands its answer back as a sign.
/// Believed of it: it is a function of the two texts alone; a text compared
/// with itself gives zero; and swapping the arguments mirrors the answer,
/// since the comparison treats its two sides alike, step by step.
#[verifier::external_body]
fn compare_ignore_case(left: &str, right: &str) -> (sign: i8)
    ensures
        sign == natural_order(left@, right@),
        -1 <= sign <= 1,
        natural_order(right@, left@) == -sign,
        left@ == right@ ==> sign == 0,
{
    match natord::compare_ignore_case(left, right) {
        std::cmp::Ordering::Less => -1,
        std::cmp::Ordering::Equal => 0,
        std::cmp::Ordering::Greater => 1,
    }
}

/// Compares two names in natural order, ignoring case: `-1` where `left`
/// orders first, `0` where neither does, `1` where `right` orders first.
/// A name compared with itself gives `0`, and the answer for the swapped
/// pair is the mirrored one.
pub fn natural_sign(left: &str, right: &str) -> (sign: i8)
    ensures
        sign == natural_order(left@, right@),
        -1 <= sign <= 1,
        natural_order(right@, left@) == -sign,
        left@ == right@ ==> sign == 0,
{
    compare_ignore_case(left, right)
}

/// The order that a sign stands for.
pub open spec fn order_of(sign: int) -> Ordering {
    if sign < 0 {
        Ordering::Less
    } else if sign == 0 {
        Ordering::Equal
    } else {
        Ordering::Greater
    }
}

/// The order of a pair that is swapped.
pub open spec fn mirrored(order: Ordering) -> Ordering {
    match order {
        Ordering::Less => Ordering::Greater,
        Ordering::Equal => Ordering::Equal,
        Ordering::Greater => Ordering::Less,
    }
}

/// Compares two names in natural order, ignoring case. A name compared with
/// itself gives `Equal`, and the answer for the swapped pair is the
/// mirrored one.
pub fn natural_ordering(left: &str, right: &str) -> (order: Ordering)
    ensures
        order == order_of(natural_order(left@, right@)),
        order_of(natural_order(right@, left@)) == mirrored(order),
        left@ == right@ ==> order == Ordering::Equal,
{
    let sign = natural_sign(left, right);
    if sign < 0 {
        Ordering::Less
    } else if sign == 0 {
        Ordering::Equal
    } else {
        Ordering::Greater
    }
}

/// The texts of a list of strings.
pub open spec fn texts(names: Seq<String>) -> Seq<Seq<char>> {
    names.map_values(|s: String| s@)
}

/// `ranking` lists every position of `0..count` exactly once.
pub open spec fn is_ranking(ranking: Seq<usize>, count: nat) -> bool {
    &&& ranking.len() == count
    &&& ranking.no_duplicates()
    &&& forall|i: int| 0 <= i < ranking.len() ==> (#[trigger] ranking[i]) < count
}

/// A ranking leaves no position out.
pub proof fn lemma_ranking_covers(ranking: Seq<usize>, count: nat, position: int)
    requires
        is_ranking(ranking, count),
        0 <= position < count,
    ensures
        exists|i: int| 0 <= i < ranking.len() && #[trigger] ranking[i] == position,
{
    let places = ranking.map_values(|x: usize| x as int);
    assert forall|i: int, j: int| 0 <= i < places.len() && 0 <= j < places.len() && i != j implies places[i]
        != places[j] by {
        assert(ranking[i] != ranking[j]);
    }
    places.unique_seq_to_set();
    vstd::set_lib::lemma_int_range(0, count as int);
    let all = vstd::set_lib::set_int_range(0, count as int);
    assert forall|x: int| places.to_set().contains(x) implies all.contains(x) by {
        let i = choose|i: int| 0 <= i < places.len() && places[i] == x;
        assert(ranking[i] < count);
    }
    vstd::seq_lib::seq_to_set_is_finite(places);
    vstd::set_lib::lemma_subset_equality(places.to_set(), all);
    assert(all.contains(position));
    assert(places.to_set().contains(position));
    let i = choose|i: int| 0 <= i < places.len() && places[i] == position;
    assert(ranking[i] == position);
}

/// Two names that follow each other in a ranking stand in natural order,
/// and where the order does not tell them apart, the one that came first in
/// the list stays first.
pub open spec fn follows(names: Seq<Seq<char>>, earlier: usize, later: usize) -> bool {
    let sign = natural_order(names[earlier as int], names[later as int]);
    sign <= 0 && (sign == 0 ==> earlier < later)
}

/// `ranking` is the stable natural ordering of `names`: a ranking of all its
/// positions in which each neighbour follows the one before it.
pub open spec fn ranks_naturally(names: Seq<Seq<char>>, ranking: Seq<usize>) -> bool {
    &&& is_ranking(ranking, names.len())
    &&& forall|i: int|
        0 <= i < ranking.len() - 1 ==> follows(names, #[trigger] ranking[i], ranking[i + 1])
}

/// `run` lists every position of `first..end` exactly once, and each
/// neighbour in it follows the one before.
pub open spec fn is_sorted_run(names: Seq<Seq<char>>, run: Seq<usize>, first: int, end: int) -> bool {
    &&& run.len() == end - first
    &&& run.no_duplicates()
    &&& forall|i: int| 0 <= i < run.len() ==> first <= (#[trigger] run[i]) < end
    &&& forall|i: int| 0 <= i < run.len() - 1 ==> follows(names, #[trigger] run[i], run[i + 1])
}

/// Merges two sorted runs of neighbouring ranges into one. Where a name of
/// the left run and one of the right compare as equal, the left one goes
/// first.
fn merge(
    names: &Vec<String>,
    left: &Vec<usize>,
    right: &Vec<usize>,
    Ghost(first): Ghost<int>,
    Ghost(middle): Ghost<int>,
    Ghost(end): Ghost<int>,
) -> (merged: Vec<usize>)
    requires
        0 <= first <= middle <= end <= names@.len(),
        is_sorted_run(texts(names@), left@, first, middle),
        is_sorted_run(texts(names@), right@, middle, end),
    ensures
        is_sorted_run(texts(names@), merged@, first, end),
{
    let ghost keys = texts(names@);
    let mut merged: Vec<usize> = Vec::new();
    let mut i: usize = 0;
    let mut j: usize = 0;
    while i < left.len() || j < right.len()
        invariant
            keys == texts(names@),
            0 <= first <= middle <= end <= names@.len(),
            is_sorted_run(keys, left@, first, middle),
            is_sorted_run(keys, right@, middle, end),
            i <= left@.len(),
            j <= right@.len(),
            merged@.len() == i + j,
            forall|k: int|
                0 <= k < merged@.len() ==> (exists|a: int| 0 <= a < i && left@[a] == #[trigger] merged@[k]) || (
                exists|b: int| 0 <= b < j && right@[b] == merged@[k]),
            merged@.no_duplicates(),
            forall|k: int| 0 <= k < merged@.len() - 1 ==> follows(keys, #[trigger] merged@[k], merged@[k + 1]),
            merged@.len() > 0 && i < left@.len() ==> follows(keys, merged@.last(), left@[i as int]),
            merged@.len() > 0 && j < right@.len() ==> follows(keys, merged@.last(), right@[j as int]),
        decreases left@.len() - i + right@.len() - j,
    {
        let ghost before = merged@;
        let take_left = if i == left.len() {
            false
        } else if j == right.len() {
            true
        } else {
            natural_sign(names[right[j]].as_str(), names[left[i]].as_str()) >= 0
        };
        let next = if take_left {
            left[i]
        } else {
            right[j]
        };
        proof {
            assert forall|k: int| 0 <= k < before.len() implies before[k] != next by {
                if exists|a: int| 0 <= a < i && left@[a] == before[k] {
                    let a = choose|a: int| 0 <= a < i && left@[a] == before[k];
                    if take_left {
                        assert(left@[a] != left@[i as int]);
                    } else {
                        assert(left@[a] < middle);
                        assert(right@[j as int] >= middle);
                    }
                } else {
                    let b = choose|b: int| 0 <= b < j && right@[b] == before[k];
                    if take_left {
                        assert(right@[b] >= middle);
                        assert(left@[i as int] < middle);
                    } else {
                        assert(right@[b] != right@[j as int]);
                    }
                }
            }
            if take_left {
                if i + 1 < left@.len() {
                    assert(follows(keys, left@[i as int], left@[i + 1]));
                }
                if j < right@.len() {
                    assert(left@[i as int] < middle);
                    assert(right@[j as int] >= middle);
                }
            } else {
                if j + 1 < right@.len() {
                    assert(follows(keys, right@[j as int], right@[j + 1]));
                }
            }
        }
        merged.push(next);
        if take_left {
            i = i + 1;
        } else {
            j = j + 1;
        }
        proof {
            assert forall|k: int| 0 <= k < merged@.len() implies (exists|a: int|
                0 <= a < i && left@[a] == #[trigger] merged@[k]) || (exists|b: int|
                0 <= b < j && right@[b] == merged@[k]) by {
                if k < before.len() {
                    assert(merged@[k] == before[k]);
                    if exists|a: int| 0 <= a < i && left@[a] == before[k] {
                    } else {
                        let b = choose|b: int| 0 <= b < j && right@[b] == before[k];
                    }
                } else {
                    if take_left {
                        assert(left@[i - 1] == merged@[k]);
                    } else {
                        assert(right@[j - 1] == merged@[k]);
                    }
                }
            }
            assert forall|k: int| 0 <= k < merged@.len() - 1 implies follows(
                keys,
                #[trigger] merged@[k],
                merged@[k + 1],
            ) by {
                if k + 1 < before.len() {
                    assert(merged@[k] == before[k] && merged@[k + 1] == before[k + 1]);
                } else {
                    assert(merged@[k] == before.last());
                }
            }
        }
    }
    proof {
        assert forall|k: int| 0 <= k < merged@.len() implies first <= (#[trigger] merged@[k]) < end by {
            if exists|a: int| 0 <= a < i && left@[a] == merged@[k] {
                let a = choose|a: int| 0 <= a < i && left@[a] == merged@[k];
            } else {
                let b = choose|b: int| 0 <= b < j && right@[b] == merged@[k];
            }
        }
    }
    merged
}

/// Ranks the positions `first..end` of `names` in natural order.
fn rank_range(names: &Vec<String>, first: usize, end: usize) -> (run: Vec<usize>)
    requires
        first <= end <= names@.len(),
    ensures
        is_sorted_run(texts(names@), run@, first as int, end as int),
    decreases end - first,
{
    let mut run: Vec<usize> = Vec::new();
    if end - first == 0 {
        return run;
    }
    if end - first == 1 {
        run.push(first);
        return run;
    }
    let middle = first + (end - first) / 2;
    let left = rank_range(names, first, middle);
    let right = rank_range(names, middle, end);
    merge(names, &left, &right, Ghost(first as int), Ghost(middle as int), Ghost(end as int))
}

/// Ranks the positions of `names` in natural order, keeping the order of the
/// list among names that compare as equal.
pub fn natural_ranking(names: &Vec<String>) -> (ranking: Vec<usize>)
    ensures
        ranks_naturally(texts(names@), ranking@),
{
    rank_range(names, 0, names.len())
}

} // verus!
