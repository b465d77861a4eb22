//! Putting names in order, as lists of channels and users are shown.

use vstd::prelude::*;
use vstd::std_specs::iter::IteratorSpec;

verus! {

/// `a` comes before `b` in the order of strings: at the first place where
/// they differ `a` has the lesser character, or `a` ends there and `b` goes on.
pub open spec fn precedes(a: Seq<char>, b: Seq<char>) -> bool
    decreases a.len(),
{
    if b.len() == 0 {
        false
    } else if a.len() == 0 {
        true
    } else if a[0] == b[0] {
        precedes(a.drop_first(), b.drop_first())
    } else {
        (a[0] as u32) < (b[0] as u32)
    }
}

/// Whether the name `a` comes before the name `b`.
pub fn name_precedes(a: &str, b: &str) -> (before: bool)
    ensures
        before == precedes(a@, b@),
{
    broadcast use vstd::string::axiom_spec_iter;
    broadcast use vstd::string::next_postcondition;

    let mut left = a.chars();
    let mut right = b.chars();
    loop
        invariant
            precedes(a@, b@) == precedes(left.remaining(), right.remaining()),
            left.decrease() is Some,
        decreases left.decrease()->0,
    {
        match right.next() {
            None => {
                return false;
            },
            Some(theirs) => match left.next() {
                None => {
                    return true;
                },
                Some(ours) => {
                    if ours != theirs {
                        return (ours as u32) < (theirs as u32);
                    }
                },
            },
        }
    }
}

/// What comes before something that comes before a third comes before the
/// third.
pub proof fn lemma_precedes_transitive(a: Seq<char>, b: Seq<char>, c: Seq<char>)
    requires
        precedes(a, b),
        precedes(b, c),
    ensures
        precedes(a, c),
    decreases a.len(),
{
    if a.len() > 0 && a[0] == b[0] && b[0] == c[0] {
        lemma_precedes_transitive(a.drop_first(), b.drop_first(), c.drop_first());
    }
}

/// Nothing comes before itself.
pub proof fn lemma_precedes_irreflexive(a: Seq<char>)
    ensures
        !precedes(a, a),
    decreases a.len(),
{
    if a.len() > 0 {
        lemma_precedes_irreflexive(a.drop_first());
    }
}

/// The names at the places `order`, out of `names`, never go down, and of
/// two places with the same name the lesser comes first.
pub open spec fn in_name_order(names: Seq<Seq<char>>, order: Seq<usize>) -> bool {
    forall|i: int, j: int|
        0 <= i < j < order.len() ==> {
            &&& !precedes(names[order[j] as int], names[order[i] as int])
            &&& names[order[i] as int] == names[order[j] as int] ==> order[i] < order[j]
        }
}

/// `order` names every place below `n` once and nothing else.
pub open spec fn is_arrangement(order: Seq<usize>, n: nat) -> bool {
    &&& order.len() == n
    &&& order.no_duplicates()
    &&& forall|i: int| 0 <= i < order.len() ==> order[i] < n
}

/// The values of a run of names.
pub open spec fn names_of(names: Seq<String>) -> Seq<Seq<char>> {
    names.map_values(|name: String| name@)
}

/// The places of `names` in the order of the names. Where two names are
/// the same, the one that stands first in `names` comes first.
pub fn order_by_name(names: &Vec<String>) -> (order: Vec<usize>)
    ensures
        is_arrangement(order@, names.len() as nat),
        in_name_order(names_of(names@), order@),
{
    let ghost values = names_of(names@);
    let mut order: Vec<usize> = Vec::new();
    let mut next: usize = 0;
    while next < names.len()
        invariant
            next <= names.len(),
            values == names_of(names@),
            order.len() == next,
            order@.no_duplicates(),
            forall|i: int| 0 <= i < order.len() ==> order[i] < next,
            in_name_order(values, order@),
        decreases names.len() - next,
    {
        let mut at: usize = 0;
        while at < order.len() && !name_precedes(names[next].as_str(), names[order[at]].as_str())
            invariant
                at <= order.len(),
                next < names.len(),
                values == names_of(names@),
                forall|i: int| 0 <= i < order.len() ==> order[i] < next,
                forall|i: int|
                    0 <= i < at ==> !precedes(values[next as int], values[order[i] as int]),
            decreases order.len() - at,
        {
            at += 1;
        }
        let ghost before = order@;
        order.insert(at, next);
        proof {
            assert(forall|i: int| 0 <= i < at ==> order[i] == before[i]);
            assert(order[at as int] == next);
            assert(forall|i: int| at < i < order.len() ==> order[i] == before[i - 1]);
            assert forall|i: int, j: int| 0 <= i < j < order.len() implies {
                &&& !precedes(values[order[j] as int], values[order[i] as int])
                &&& values[order[i] as int] == values[order[j] as int] ==> order[i] < order[j]
            } by {
                if j == at {
                } else if i == at {
                    let new = values[next as int];
                    let first = values[before[at as int] as int];
                    let later = values[order[j] as int];
                    assert(precedes(new, first));
                    if j - 1 > at {
                        assert(!precedes(later, first));
                    }
                    if precedes(later, new) {
                        lemma_precedes_transitive(later, new, first);
                        lemma_precedes_irreflexive(first);
                    }
                    assert(later != new);
                } else {
                    let was_i = if i < at {
                        i
                    } else {
                        i - 1
                    };
                    let was_j = if j < at {
                        j
                    } else {
                        j - 1
                    };
                    assert(!precedes(
                        values[before[was_j] as int],
                        values[before[was_i] as int],
                    ));
                }
            }
            assert forall|i: int, j: int|
                0 <= i < order.len() && 0 <= j < order.len() && i != j implies order[i]
                != order[j] by {
                if i != at && j != at {
                    let was_i = if i < at {
                        i
                    } else {
                        i - 1
                    };
                    let was_j = if j < at {
                        j
                    } else {
                        j - 1
                    };
                    assert(before[was_i] != before[was_j]);
                }
            }
        }
        next += 1;
    }
    order
}

} // verus!
