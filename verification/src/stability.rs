//! Stability and transversality: how the doors of the strongly connected
//! components are joined with one another and with the rest of the automaton.
//!
//! An automaton is stable if every output door has a transition to an input
//! door, and every input door a transition from an output door. It is
//! transverse if all input doors are entered from the same states outside
//! their components, and all output doors lead to the same states outside.

use vstd::prelude::*;
use crate::door::{all_doors, door_lists, DoorPolicy, DoorType};
use crate::inner::{Descriptor, InnerAutomata};
use crate::relation::{flip, flipped};

verus! {

/// Whether a transition leads from `p` to `q`.
pub open spec fn joined(follows: Seq<(usize, char, usize)>, p: usize, q: usize) -> bool {
    exists|c: char| follows.contains((p, c, q))
}

/// Whether `doors` has a `k`-th state in its `a`-th component.
pub open spec fn is_place(doors: Seq<Seq<(usize, DoorType)>>, a: int, k: int) -> bool {
    0 <= a < doors.len() && 0 <= k < doors[a].len()
}

/// Whether a transition leads from `s` to an input door.
pub open spec fn reaches_in(
    doors: Seq<Seq<(usize, DoorType)>>,
    follows: Seq<(usize, char, usize)>,
    s: usize,
) -> bool {
    exists|b: int, l: int|
        is_place(doors, b, l) && (#[trigger] doors[b][l]).1.lets_in() && joined(
            follows,
            s,
            doors[b][l].0,
        )
}

/// Whether a transition leads from an output door to `s`.
pub open spec fn reached_from_out(
    doors: Seq<Seq<(usize, DoorType)>>,
    follows: Seq<(usize, char, usize)>,
    s: usize,
) -> bool {
    exists|b: int, l: int|
        is_place(doors, b, l) && (#[trigger] doors[b][l]).1.lets_out() && joined(
            follows,
            doors[b][l].0,
            s,
        )
}

/// Every output door has a transition to an input door, and every input door
/// a transition from an output door.
pub open spec fn stable_doors(doors: Seq<Seq<(usize, DoorType)>>, follows: Seq<(usize, char, usize)>) -> bool {
    forall|a: int, k: int|
        is_place(doors, a, k) ==> ((#[trigger] doors[a][k]).1.lets_out() ==> reaches_in(
            doors,
            follows,
            doors[a][k].0,
        )) && (doors[a][k].1.lets_in() ==> reached_from_out(doors, follows, doors[a][k].0))
}

/// Whether the automaton is stable.
pub open spec fn stable(d: Descriptor, follows: Seq<(usize, char, usize)>, policy: DoorPolicy) -> bool {
    stable_doors(all_doors(d, follows, policy), follows)
}

/// Whether `p` is no state of the component `part`.
pub open spec fn outside(part: Seq<(usize, DoorType)>, p: usize) -> bool {
    forall|k: int| 0 <= k < part.len() ==> (#[trigger] part[k]).0 != p
}

/// Whether a transition leads to `s` from `p`, a state outside the component
/// `part`.
pub open spec fn comes_from(
    follows: Seq<(usize, char, usize)>,
    part: Seq<(usize, DoorType)>,
    s: usize,
    p: usize,
) -> bool {
    joined(follows, p, s) && outside(part, p)
}

/// Every state from outside `near` that leads to `s` also leads to `t` from
/// outside `far`.
pub open spec fn sources_within(
    follows: Seq<(usize, char, usize)>,
    near: Seq<(usize, DoorType)>,
    s: usize,
    far: Seq<(usize, DoorType)>,
    t: usize,
) -> bool {
    forall|p: usize| #[trigger] comes_from(follows, near, s, p) ==> comes_from(follows, far, t, p)
}

/// `s` and `t` are entered from the same states outside their components.
pub open spec fn same_sources(
    follows: Seq<(usize, char, usize)>,
    near: Seq<(usize, DoorType)>,
    s: usize,
    far: Seq<(usize, DoorType)>,
    t: usize,
) -> bool {
    sources_within(follows, near, s, far, t) && sources_within(follows, far, t, near, s)
}

/// The door at the place `(a, k)` agrees with the door at `(b, l)`: if both
/// are input doors they are entered from the same states outside, and if both
/// are output doors they lead to the same states outside.
pub open spec fn doors_agree(
    doors: Seq<Seq<(usize, DoorType)>>,
    follows: Seq<(usize, char, usize)>,
    a: int,
    k: int,
    b: int,
    l: int,
) -> bool {
    &&& doors[a][k].1.lets_in() && doors[b][l].1.lets_in() ==> same_sources(
        follows,
        doors[a],
        doors[a][k].0,
        doors[b],
        doors[b][l].0,
    )
    &&& doors[a][k].1.lets_out() && doors[b][l].1.lets_out() ==> same_sources(
        flip(follows),
        doors[a],
        doors[a][k].0,
        doors[b],
        doors[b][l].0,
    )
}

/// All input doors are entered from the same states outside their components,
/// and all output doors lead to the same states outside.
pub open spec fn transverse_doors(
    doors: Seq<Seq<(usize, DoorType)>>,
    follows: Seq<(usize, char, usize)>,
) -> bool {
    forall|a: int, k: int, b: int, l: int|
        is_place(doors, a, k) && is_place(doors, b, l) ==> #[trigger] doors_agree(
            doors,
            follows,
            a,
            k,
            b,
            l,
        )
}

/// Whether the automaton is transverse.
pub open spec fn transverse(d: Descriptor, follows: Seq<(usize, char, usize)>, policy: DoorPolicy) -> bool {
    transverse_doors(all_doors(d, follows, policy), follows)
}

/// Whether a transition leads from `p` to `q`.
pub fn is_joined(follows: &Vec<(usize, char, usize)>, p: usize, q: usize) -> (found: bool)
    ensures
        found == joined(follows@, p, q),
{
    let mut i: usize = 0;
    while i < follows.len()
        invariant
            i <= follows.len(),
            forall|k: int| 0 <= k < i ==> !((#[trigger] follows[k]).0 == p && follows[k].2 == q),
        decreases follows.len() - i,
    {
        if follows[i].0 == p && follows[i].2 == q {
            proof {
                let t = follows@[i as int];
                assert(follows@.contains((p, t.1, q)));
            }
            return true;
        }
        i = i + 1;
    }
    proof {
        if joined(follows@, p, q) {
            let c = choose|c: char| follows@.contains((p, c, q));
            let k = choose|k: int| 0 <= k < follows@.len() && follows@[k] == (p, c, q);
            assert(follows[k].0 == p);
        }
    }
    false
}

/// Whether `p` is no state of the component `part`.
pub fn is_outside(part: &Vec<(usize, DoorType)>, p: usize) -> (out: bool)
    ensures
        out == outside(part@, p),
{
    let mut i: usize = 0;
    while i < part.len()
        invariant
            i <= part.len(),
            forall|k: int| 0 <= k < i ==> (#[trigger] part[k]).0 != p,
        decreases part.len() - i,
    {
        if part[i].0 == p {
            return false;
        }
        i = i + 1;
    }
    true
}

/// Whether a transition leads from `s` to an input door (`inward`), or from
/// an output door to `s`.
pub fn meets_door(
    doors: &Vec<Vec<(usize, DoorType)>>,
    follows: &Vec<(usize, char, usize)>,
    s: usize,
    inward: bool,
) -> (found: bool)
    ensures
        found == (if inward {
            reaches_in(door_lists(doors@), follows@, s)
        } else {
            reached_from_out(door_lists(doors@), follows@, s)
        }),
{
    let ghost all = door_lists(doors@);
    let mut b: usize = 0;
    while b < doors.len()
        invariant
            b <= doors.len(),
            all == door_lists(doors@),
            forall|x: int, l: int|
                0 <= x < b && 0 <= l < all[x].len() ==> !(if inward {
                    (#[trigger] all[x][l]).1.lets_in() && joined(follows@, s, all[x][l].0)
                } else {
                    all[x][l].1.lets_out() && joined(follows@, all[x][l].0, s)
                }),
        decreases doors.len() - b,
    {
        let mut l: usize = 0;
        while l < doors[b].len()
            invariant
                b < doors.len(),
                l <= doors[b as int].len(),
                all == door_lists(doors@),
                forall|y: int|
                    0 <= y < l ==> !(if inward {
                        (#[trigger] all[b as int][y]).1.lets_in() && joined(
                            follows@,
                            s,
                            all[b as int][y].0,
                        )
                    } else {
                        all[b as int][y].1.lets_out() && joined(follows@, all[b as int][y].0, s)
                    }),
            decreases doors[b as int].len() - l,
        {
            let entry = doors[b][l];
            assert(all[b as int][l as int] == entry);
            if inward {
                if entry.1.is_in() && is_joined(follows, s, entry.0) {
                    assert(is_place(all, b as int, l as int));
                    return true;
                }
            } else {
                if entry.1.is_out() && is_joined(follows, entry.0, s) {
                    assert(is_place(all, b as int, l as int));
                    return true;
                }
            }
            l = l + 1;
        }
        b = b + 1;
    }
    false
}

/// Whether every state from outside `near` that leads to `s` also leads to
/// `t` from outside `far`.
pub fn has_sources_within(
    follows: &Vec<(usize, char, usize)>,
    near: &Vec<(usize, DoorType)>,
    s: usize,
    far: &Vec<(usize, DoorType)>,
    t: usize,
) -> (holds: bool)
    ensures
        holds == sources_within(follows@, near@, s, far@, t),
{
    let mut i: usize = 0;
    while i < follows.len()
        invariant
            i <= follows.len(),
            forall|k: int|
                0 <= k < i && (#[trigger] follows[k]).2 == s && outside(near@, follows[k].0)
                    ==> comes_from(follows@, far@, t, follows[k].0),
        decreases follows.len() - i,
    {
        let x = follows[i];
        if x.2 == s && is_outside(near, x.0) {
            if !(is_joined(follows, x.0, t) && is_outside(far, x.0)) {
                proof {
                    assert(follows@.contains((x.0, x.1, s)));
                    assert(comes_from(follows@, near@, s, x.0));
                }
                return false;
            }
        }
        i = i + 1;
    }
    proof {
        assert forall|p: usize| #[trigger] comes_from(follows@, near@, s, p) implies comes_from(
            follows@,
            far@,
            t,
            p,
        ) by {
            let c = choose|c: char| follows@.contains((p, c, s));
            let k = choose|k: int| 0 <= k < follows@.len() && follows@[k] == (p, c, s);
            assert(follows[k].2 == s);
        }
    }
    true
}

/// Whether `s` and `t` are entered from the same states outside their
/// components.
pub fn has_same_sources(
    follows: &Vec<(usize, char, usize)>,
    near: &Vec<(usize, DoorType)>,
    s: usize,
    far: &Vec<(usize, DoorType)>,
    t: usize,
) -> (holds: bool)
    ensures
        holds == same_sources(follows@, near@, s, far@, t),
{
    has_sources_within(follows, near, s, far, t) && has_sources_within(follows, far, t, near, s)
}

/// Whether the door at the place `(a, k)` agrees with every door.
pub fn agrees_with_all(
    doors: &Vec<Vec<(usize, DoorType)>>,
    follows: &Vec<(usize, char, usize)>,
    back: &Vec<(usize, char, usize)>,
    a: usize,
    k: usize,
) -> (holds: bool)
    requires
        a < doors.len(),
        k < doors[a as int].len(),
        back@ == flip(follows@),
    ensures
        holds == forall|b: int, l: int|
            is_place(door_lists(doors@), b, l) ==> #[trigger] doors_agree(
                door_lists(doors@),
                follows@,
                a as int,
                k as int,
                b,
                l,
            ),
{
    let ghost all = door_lists(doors@);
    let mine = doors[a][k];
    let mut b: usize = 0;
    while b < doors.len()
        invariant
            b <= doors.len(),
            a < doors.len(),
            k < doors[a as int].len(),
            mine == doors[a as int][k as int],
            back@ == flip(follows@),
            all == door_lists(doors@),
            forall|x: int, l: int|
                0 <= x < b && 0 <= l < all[x].len() ==> #[trigger] doors_agree(
                    all,
                    follows@,
                    a as int,
                    k as int,
                    x,
                    l,
                ),
        decreases doors.len() - b,
    {
        let mut l: usize = 0;
        while l < doors[b].len()
            invariant
                b < doors.len(),
                l <= doors[b as int].len(),
                a < doors.len(),
                k < doors[a as int].len(),
                mine == doors[a as int][k as int],
                back@ == flip(follows@),
                all == door_lists(doors@),
                forall|y: int|
                    0 <= y < l ==> #[trigger] doors_agree(
                        all,
                        follows@,
                        a as int,
                        k as int,
                        b as int,
                        y,
                    ),
            decreases doors[b as int].len() - l,
        {
            let other = doors[b][l];
            assert(all[b as int][l as int] == other);
            assert(all[a as int][k as int] == mine);
            assert(all[a as int] == doors[a as int]@);
            assert(all[b as int] == doors[b as int]@);
            if mine.1.is_in() && other.1.is_in() {
                if !has_same_sources(follows, &doors[a], mine.0, &doors[b], other.0) {
                    assert(is_place(all, b as int, l as int));
                    assert(!doors_agree(all, follows@, a as int, k as int, b as int, l as int));
                    return false;
                }
            }
            if mine.1.is_out() && other.1.is_out() {
                if !has_same_sources(back, &doors[a], mine.0, &doors[b], other.0) {
                    assert(is_place(all, b as int, l as int));
                    assert(!doors_agree(all, follows@, a as int, k as int, b as int, l as int));
                    return false;
                }
            }
            l = l + 1;
        }
        b = b + 1;
    }
    true
}

/// Whether every output door of `doors` has a transition to an input door,
/// and every input door a transition from an output door.
pub fn check_stable(doors: &Vec<Vec<(usize, DoorType)>>, follows: &Vec<(usize, char, usize)>) -> (holds:
    bool)
    ensures
        holds == stable_doors(door_lists(doors@), follows@),
{
    let ghost all = door_lists(doors@);
    let mut a: usize = 0;
    while a < doors.len()
        invariant
            a <= doors.len(),
            all == door_lists(doors@),
            forall|x: int, k: int|
                0 <= x < a && 0 <= k < all[x].len() ==> ((#[trigger] all[x][k]).1.lets_out()
                    ==> reaches_in(all, follows@, all[x][k].0)) && (all[x][k].1.lets_in()
                    ==> reached_from_out(all, follows@, all[x][k].0)),
        decreases doors.len() - a,
    {
        let mut k: usize = 0;
        while k < doors[a].len()
            invariant
                a < doors.len(),
                k <= doors[a as int].len(),
                all == door_lists(doors@),
                forall|y: int|
                    0 <= y < k ==> ((#[trigger] all[a as int][y]).1.lets_out() ==> reaches_in(
                        all,
                        follows@,
                        all[a as int][y].0,
                    )) && (all[a as int][y].1.lets_in() ==> reached_from_out(
                        all,
                        follows@,
                        all[a as int][y].0,
                    )),
            decreases doors[a as int].len() - k,
        {
            let entry = doors[a][k];
            assert(all[a as int][k as int] == entry);
            if entry.1.is_out() && !meets_door(doors, follows, entry.0, true) {
                assert(is_place(all, a as int, k as int));
                return false;
            }
            if entry.1.is_in() && !meets_door(doors, follows, entry.0, false) {
                assert(is_place(all, a as int, k as int));
                return false;
            }
            k = k + 1;
        }
        a = a + 1;
    }
    true
}

/// Whether all input doors of `doors` are entered from the same states
/// outside their components, and all output doors lead to the same states
/// outside.
pub fn check_transverse(doors: &Vec<Vec<(usize, DoorType)>>, follows: &Vec<(usize, char, usize)>) -> (holds:
    bool)
    ensures
        holds == transverse_doors(door_lists(doors@), follows@),
{
    let back = flipped(follows);
    let ghost all = door_lists(doors@);
    let mut a: usize = 0;
    while a < doors.len()
        invariant
            a <= doors.len(),
            back@ == flip(follows@),
            all == door_lists(doors@),
            forall|x: int, k: int, b: int, l: int|
                0 <= x < a && 0 <= k < all[x].len() && is_place(all, b, l)
                    ==> #[trigger] doors_agree(all, follows@, x, k, b, l),
        decreases doors.len() - a,
    {
        let mut k: usize = 0;
        while k < doors[a].len()
            invariant
                a < doors.len(),
                k <= doors[a as int].len(),
                back@ == flip(follows@),
                all == door_lists(doors@),
                forall|y: int, b: int, l: int|
                    0 <= y < k && is_place(all, b, l) ==> #[trigger] doors_agree(
                        all,
                        follows@,
                        a as int,
                        y,
                        b,
                        l,
                    ),
            decreases doors[a as int].len() - k,
        {
            if !agrees_with_all(doors, follows, &back, a, k) {
                proof {
                    let (b, l) = choose|b: int, l: int|
                        is_place(all, b, l) && !#[trigger] doors_agree(
                            all,
                            follows@,
                            a as int,
                            k as int,
                            b,
                            l,
                        );
                    assert(is_place(all, a as int, k as int));
                }
                return false;
            }
            k = k + 1;
        }
        a = a + 1;
    }
    true
}

impl InnerAutomata {
    /// Whether every output door has a transition to an input door, and every
    /// input door a transition from an output door.
    pub fn is_stable(&self, follows: &Vec<(usize, char, usize)>, policy: DoorPolicy) -> (holds: bool)
        requires
            self.wf(),
        ensures
            holds == stable(self@, follows@, policy),
    {
        let doors = self.get_door(follows, policy);
        check_stable(&doors, follows)
    }

    /// Whether all input doors are entered from the same states outside their
    /// components, and all output doors lead to the same states outside.
    pub fn is_transverse(&self, follows: &Vec<(usize, char, usize)>, policy: DoorPolicy) -> (holds:
        bool)
        requires
            self.wf(),
        ensures
            holds == transverse(self@, follows@, policy),
    {
        let doors = self.get_door(follows, policy);
        check_transverse(&doors, follows)
    }
}

} // verus!
