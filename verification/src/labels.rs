//! Lists of state labels: search, removal and tests for repetition.

use vstd::prelude::*;

verus! {

/// The first place at which `value` occurs in `list`.
pub open spec fn place(list: Seq<usize>, value: usize) -> int {
    choose|i: int|
        0 <= i < list.len() && list[i] == value && forall|k: int| 0 <= k < i ==> list[k] != value
}

/// The list without `value`: its first occurrence is taken out, the rest keeps
/// its order. For a list that does not hold `value` it is the list itself.
pub open spec fn without(list: Seq<usize>, value: usize) -> Seq<usize> {
    if list.contains(value) {
        list.remove(place(list, value))
    } else {
        list
    }
}

/// The first occurrence of a value is its place.
pub proof fn lemma_place(list: Seq<usize>, value: usize, first: int)
    requires
        0 <= first < list.len(),
        list[first] == value,
        forall|k: int| 0 <= k < first ==> list[k] != value,
    ensures
        place(list, value) == first,
{
    let j = place(list, value);
    assert(0 <= j < list.len() && list[j] == value && forall|k: int|
        0 <= k < j ==> list[k] != value);
}

/// In a list without repetition, the place of an element is its index.
pub proof fn lemma_place_of(list: Seq<usize>, i: int)
    requires
        list.no_duplicates(),
        0 <= i < list.len(),
    ensures
        place(list, list[i]) == i,
{
    lemma_place(list, list[i], i);
}

/// A value that occurs has a place, and it stands there.
pub proof fn lemma_place_holds(list: Seq<usize>, value: usize)
    requires
        list.contains(value),
    ensures
        0 <= place(list, value) < list.len(),
        list[place(list, value)] == value,
        forall|k: int| 0 <= k < place(list, value) ==> list[k] != value,
    decreases list.len(),
{
    let some = choose|i: int| 0 <= i < list.len() && list[i] == value;
    lemma_first_exists(list, value, some);
}

/// A value that stands at `upto` has a first place.
proof fn lemma_first_exists(list: Seq<usize>, value: usize, upto: int)
    requires
        0 <= upto < list.len(),
        list[upto] == value,
    ensures
        0 <= place(list, value) < list.len(),
        list[place(list, value)] == value,
        forall|k: int| 0 <= k < place(list, value) ==> list[k] != value,
    decreases upto,
{
    if forall|k: int| 0 <= k < upto ==> list[k] != value {
        lemma_place(list, value, upto);
    } else {
        let k = choose|k: int| 0 <= k < upto && list[k] == value;
        lemma_first_exists(list, value, k);
    }
}

/// What a list without repetition holds after `value` was taken out.
pub proof fn lemma_without(list: Seq<usize>, value: usize)
    requires
        list.no_duplicates(),
    ensures
        without(list, value).no_duplicates(),
        !without(list, value).contains(value),
        forall|other: usize|
            other != value ==> (#[trigger] without(list, value).contains(other) <==> list.contains(
                other,
            )),
        list.contains(value) ==> without(list, value).len() + 1 == list.len(),
{
    let rest = without(list, value);
    if list.contains(value) {
        lemma_place_holds(list, value);
        let at = place(list, value);
        assert forall|other: usize| other != value implies (#[trigger] rest.contains(other)
            <==> list.contains(other)) by {
            if rest.contains(other) {
                let k = choose|k: int| 0 <= k < rest.len() && rest[k] == other;
                if k < at {
                    assert(list[k] == other);
                } else {
                    assert(list[k + 1] == other);
                }
            }
            if list.contains(other) {
                let k = choose|k: int| 0 <= k < list.len() && list[k] == other;
                if k < at {
                    assert(rest[k] == other);
                } else {
                    assert(rest[k - 1] == other);
                }
            }
        }
        if rest.contains(value) {
            let k = choose|k: int| 0 <= k < rest.len() && rest[k] == value;
            if k < at {
                assert(list[k] == value);
            } else {
                assert(list[k + 1] == value);
            }
        }
    }
}

/// The place of `value` in `list`, if it occurs there.
pub fn position(list: &Vec<usize>, value: usize) -> (at: Option<usize>)
    ensures
        match at {
            Some(i) => i < list.len() && list[i as int] == value && i == place(list@, value),
            None => !list@.contains(value),
        },
{
    let mut i: usize = 0;
    while i < list.len()
        invariant
            i <= list.len(),
            forall|k: int| 0 <= k < i ==> list[k] != value,
        decreases list.len() - i,
    {
        if list[i] == value {
            proof {
                lemma_place(list@, value, i as int);
            }
            return Some(i);
        }
        i = i + 1;
    }
    None
}

/// Whether `value` occurs in `list`.
pub fn holds(list: &Vec<usize>, value: usize) -> (found: bool)
    ensures
        found == list@.contains(value),
{
    position(list, value).is_some()
}

/// Whether some label occurs twice in `list`.
pub fn repeats(list: &Vec<usize>) -> (twice: bool)
    ensures
        twice == !list@.no_duplicates(),
{
    let mut i: usize = 0;
    while i < list.len()
        invariant
            i <= list.len(),
            list@.take(i as int).no_duplicates(),
        decreases list.len() - i,
    {
        let mut k: usize = 0;
        while k < i
            invariant
                k <= i,
                i < list.len(),
                forall|j: int| 0 <= j < k ==> list[j] != list[i as int],
            decreases i - k,
        {
            if list[k] == list[i] {
                return true;
            }
            k = k + 1;
        }
        assert(list@.take(i + 1).no_duplicates()) by {
            let now = list@.take(i + 1);
            let was = list@.take(i as int);
            assert forall|a: int, b: int| 0 <= a < now.len() && 0 <= b < now.len() && a != b implies now[a]
                != now[b] by {
                if a < i && b < i {
                    assert(was[a] != was[b]);
                }
            }
        }
        i = i + 1;
    }
    assert(list@.take(i as int) =~= list@);
    false
}

/// A copy of `list`.
pub fn copy(list: &Vec<usize>) -> (same: Vec<usize>)
    ensures
        same@ == list@,
{
    let mut same: Vec<usize> = Vec::new();
    let mut i: usize = 0;
    while i < list.len()
        invariant
            i <= list.len(),
            same@ == list@.take(i as int),
        decreases list.len() - i,
    {
        same.push(list[i]);
        assert(list@.take(i + 1) =~= list@.take(i as int).push(list[i as int]));
        i = i + 1;
    }
    assert(list@.take(i as int) =~= list@);
    same
}

/// Takes the first occurrence of `value` out of `list`; says whether there
/// was one.
pub fn take_out(list: &mut Vec<usize>, value: usize) -> (found: bool)
    ensures
        found == old(list)@.contains(value),
        final(list)@ == without(old(list)@, value),
{
    match position(list, value) {
        Some(i) => {
            list.remove(i);
            true
        },
        None => false,
    }
}

} // verus!
