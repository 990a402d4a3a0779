//! The DOT text of an automaton.
//!
//! Every state is a node, named by its label. A final state has a doubled
//! border and an initial state is a diamond; an input door is red, an output
//! door blue, and a door of both kinds purple. Every strongly connected
//! component is a cluster, and every transition an edge with its symbol.

use vstd::prelude::*;
use vstd::string::*;
use crate::analysis::flatten_doors;
use crate::automata::{Automata, SubAutomata};
use crate::door::{all_doors, door_lists, DoorPolicy, DoorType};
use crate::inner::{Descriptor, InnerAutomata};
use crate::relation::{restrict, restricted};

verus! {

/// Appends one character to a string: `String::push` of the standard library.
/// The contract says that the string is afterwards the old string with `c` at
/// its end.
#[verifier::external_body]
pub(crate) fn push_char(out: &mut String, c: char)
    ensures
        final(out)@ == old(out)@.push(c),
{
    out.push(c);
}

/// The character of the digit `d`.
pub open spec fn digit(d: nat) -> char {
    if d == 0 {
        '0'
    } else if d == 1 {
        '1'
    } else if d == 2 {
        '2'
    } else if d == 3 {
        '3'
    } else if d == 4 {
        '4'
    } else if d == 5 {
        '5'
    } else if d == 6 {
        '6'
    } else if d == 7 {
        '7'
    } else if d == 8 {
        '8'
    } else {
        '9'
    }
}

/// The number `n` in decimal digits.
pub open spec fn decimal(n: nat) -> Seq<char>
    decreases n,
{
    if n < 10 {
        seq![digit(n)]
    } else {
        decimal(n / 10).push(digit(n % 10))
    }
}

/// What marks a final state.
pub open spec fn final_mark(is_final: bool) -> Seq<char> {
    if is_final {
        " peripheries=2"@
    } else {
        ""@
    }
}

/// What marks an initial state.
pub open spec fn initial_mark(is_initial: bool) -> Seq<char> {
    if is_initial {
        " shape=diamond"@
    } else {
        ""@
    }
}

/// What marks a door.
pub open spec fn door_mark(door: DoorType) -> Seq<char> {
    match door {
        DoorType::Both => " color=purple"@,
        DoorType::In => " color=red"@,
        DoorType::Out => " color=blue"@,
        DoorType::Neither => ""@,
    }
}

/// The text of a node: its name, its label, and what the state is.
pub open spec fn node_text(label: usize, is_final: bool, is_initial: bool, door: DoorType) -> Seq<
    char,
> {
    "\t"@ + decimal(label as nat) + " [label = \""@ + decimal(label as nat) + "\""@ + final_mark(
        is_final,
    ) + initial_mark(is_initial) + door_mark(door) + "]\n"@
}

/// The text of the nodes of the states `doors`.
pub open spec fn nodes_text(d: Descriptor, doors: Seq<(usize, DoorType)>) -> Seq<char>
    decreases doors.len(),
{
    if doors.len() == 0 {
        Seq::empty()
    } else {
        nodes_text(d, doors.drop_last()) + node_text(
            doors.last().0,
            d.outputs.contains(doors.last().0),
            d.inputs.contains(doors.last().0),
            doors.last().1,
        )
    }
}

/// The names of the states `part`, one on a line.
pub open spec fn members_text(part: Seq<(usize, DoorType)>) -> Seq<char>
    decreases part.len(),
{
    if part.len() == 0 {
        Seq::empty()
    } else {
        members_text(part.drop_last()) + "\t\t"@ + decimal(part.last().0 as nat) + "\n"@
    }
}

/// The text of the clusters of the components `doors`.
pub open spec fn clusters_text(doors: Seq<Seq<(usize, DoorType)>>) -> Seq<char>
    decreases doors.len(),
{
    if doors.len() == 0 {
        Seq::empty()
    } else {
        clusters_text(doors.drop_last()) + "\tsubgraph cluster"@ + decimal(
            (doors.len() - 1) as nat,
        ) + " {\n"@ + members_text(doors.last()) + "\t}\n"@
    }
}

/// The text of the edges of the transitions `follows`.
pub open spec fn edges_text(follows: Seq<(usize, char, usize)>) -> Seq<char>
    decreases follows.len(),
{
    if follows.len() == 0 {
        Seq::empty()
    } else {
        edges_text(follows.drop_last()) + "\t"@ + decimal(follows.last().0 as nat) + " -> "@
            + decimal(follows.last().2 as nat) + " [label = \""@.push(follows.last().1) + "\"]\n"@
    }
}

/// The beginning of a DOT text, for a light or a dark background.
pub open spec fn head_text(inverse: bool) -> Seq<char> {
    "digraph {\n\trankdir=LR\n\tbgcolor=transparent\n\tnode [fontname=Cantarell];\n\tedge [fontname=Cantarell];\n"@
        + (if inverse {
        "\tcolor=white\n\tnode [color=white, fontcolor=white];\n\tedge [color=white, fontcolor=white];\n"@
    } else {
        ""@
    })
}

/// The DOT text of a description with the transitions `follows`.
pub open spec fn dot_text(
    d: Descriptor,
    follows: Seq<(usize, char, usize)>,
    inverse: bool,
    policy: DoorPolicy,
) -> Seq<char> {
    head_text(inverse) + nodes_text(d, all_doors(d, follows, policy).flatten()) + clusters_text(
        all_doors(d, follows, policy),
    ) + edges_text(restrict(follows, d.states)) + "}\n"@
}

/// The character of the digit `d`.
pub fn digit_char(d: usize) -> (c: char)
    requires
        d < 10,
    ensures
        c == digit(d as nat),
{
    if d == 0 {
        '0'
    } else if d == 1 {
        '1'
    } else if d == 2 {
        '2'
    } else if d == 3 {
        '3'
    } else if d == 4 {
        '4'
    } else if d == 5 {
        '5'
    } else if d == 6 {
        '6'
    } else if d == 7 {
        '7'
    } else if d == 8 {
        '8'
    } else {
        '9'
    }
}

/// Appends the number `n` in decimal digits.
pub fn write_number(out: &mut String, n: usize)
    ensures
        final(out)@ == old(out)@ + decimal(n as nat),
    decreases n,
{
    if n < 10 {
        push_char(out, digit_char(n));
        assert(out@ =~= old(out)@ + decimal(n as nat));
    } else {
        write_number(out, n / 10);
        push_char(out, digit_char(n % 10));
        assert(out@ =~= old(out)@ + decimal(n as nat));
    }
}

/// Appends what marks a final state.
fn write_final_mark(out: &mut String, is_final: bool)
    ensures
        final(out)@ == old(out)@ + final_mark(is_final),
{
    if is_final {
        out.append(" peripheries=2");
    } else {
        out.append("");
    }
}

/// Appends what marks an initial state.
fn write_initial_mark(out: &mut String, is_initial: bool)
    ensures
        final(out)@ == old(out)@ + initial_mark(is_initial),
{
    if is_initial {
        out.append(" shape=diamond");
    } else {
        out.append("");
    }
}

/// Appends what marks a door.
fn write_door_mark(out: &mut String, door: DoorType)
    ensures
        final(out)@ == old(out)@ + door_mark(door),
{
    match door {
        DoorType::Both => out.append(" color=purple"),
        DoorType::In => out.append(" color=red"),
        DoorType::Out => out.append(" color=blue"),
        DoorType::Neither => out.append(""),
    }
}

/// Appends the text of a node.
pub fn write_node(out: &mut String, label: usize, is_final: bool, is_initial: bool, door: DoorType)
    ensures
        final(out)@ == old(out)@ + node_text(label, is_final, is_initial, door),
{
    out.append("\t");
    write_number(out, label);
    out.append(" [label = \"");
    write_number(out, label);
    out.append("\"");
    write_final_mark(out, is_final);
    write_initial_mark(out, is_initial);
    write_door_mark(out, door);
    out.append("]\n");
    assert(out@ =~= old(out)@ + node_text(label, is_final, is_initial, door));
}

/// Appends the names of the states `part`, one on a line.
pub fn write_members(out: &mut String, part: &Vec<(usize, DoorType)>)
    ensures
        final(out)@ == old(out)@ + members_text(part@),
{
    let ghost before = out@;
    let mut i: usize = 0;
    assert(part@.take(0) =~= Seq::<(usize, DoorType)>::empty());
    assert(before + members_text(part@.take(0)) =~= before);
    while i < part.len()
        invariant
            i <= part.len(),
            out@ == before + members_text(part@.take(i as int)),
        decreases part.len() - i,
    {
        proof {
            assert(part@.take(i + 1).drop_last() =~= part@.take(i as int));
            assert(part@.take(i + 1).last() == part@[i as int]);
        }
        let ghost now = out@;
        out.append("\t\t");
        write_number(out, part[i].0);
        out.append("\n");
        assert(out@ =~= before + members_text(part@.take(i + 1)));
        i = i + 1;
    }
    assert(part@.take(i as int) =~= part@);
}

/// Appends the text of the clusters of the components `doors`.
pub fn write_clusters(out: &mut String, doors: &Vec<Vec<(usize, DoorType)>>)
    ensures
        final(out)@ == old(out)@ + clusters_text(door_lists(doors@)),
{
    let ghost before = out@;
    let ghost all = door_lists(doors@);
    let mut i: usize = 0;
    assert(all.take(0) =~= Seq::<Seq<(usize, DoorType)>>::empty());
    assert(before + clusters_text(all.take(0)) =~= before);
    while i < doors.len()
        invariant
            i <= doors.len(),
            all == door_lists(doors@),
            out@ == before + clusters_text(all.take(i as int)),
        decreases doors.len() - i,
    {
        proof {
            assert(all.take(i + 1).drop_last() =~= all.take(i as int));
            assert(all.take(i + 1).last() == doors[i as int]@);
            assert(all.take(i + 1).len() == i + 1);
        }
        out.append("\tsubgraph cluster");
        write_number(out, i);
        out.append(" {\n");
        write_members(out, &doors[i]);
        out.append("\t}\n");
        assert(out@ =~= before + clusters_text(all.take(i + 1)));
        i = i + 1;
    }
    assert(all.take(i as int) =~= all);
}

/// Appends the text of the nodes of the states `doors`.
pub fn write_nodes(out: &mut String, part: &InnerAutomata, doors: &Vec<(usize, DoorType)>)
    ensures
        final(out)@ == old(out)@ + nodes_text(part@, doors@),
{
    let ghost before = out@;
    let mut i: usize = 0;
    assert(doors@.take(0) =~= Seq::<(usize, DoorType)>::empty());
    assert(before + nodes_text(part@, doors@.take(0)) =~= before);
    while i < doors.len()
        invariant
            i <= doors.len(),
            out@ == before + nodes_text(part@, doors@.take(i as int)),
        decreases doors.len() - i,
    {
        proof {
            assert(doors@.take(i + 1).drop_last() =~= doors@.take(i as int));
            assert(doors@.take(i + 1).last() == doors@[i as int]);
        }
        let label = doors[i].0;
        write_node(out, label, part.is_output(label), part.is_input(label), doors[i].1);
        assert(out@ =~= before + nodes_text(part@, doors@.take(i + 1)));
        i = i + 1;
    }
    assert(doors@.take(i as int) =~= doors@);
}

/// Appends the text of the edges of the transitions `follows`.
pub fn write_edges(out: &mut String, follows: &Vec<(usize, char, usize)>)
    ensures
        final(out)@ == old(out)@ + edges_text(follows@),
{
    let ghost before = out@;
    let mut i: usize = 0;
    assert(follows@.take(0) =~= Seq::<(usize, char, usize)>::empty());
    assert(before + edges_text(follows@.take(0)) =~= before);
    while i < follows.len()
        invariant
            i <= follows.len(),
            out@ == before + edges_text(follows@.take(i as int)),
        decreases follows.len() - i,
    {
        proof {
            assert(follows@.take(i + 1).drop_last() =~= follows@.take(i as int));
            assert(follows@.take(i + 1).last() == follows@[i as int]);
        }
        let t = follows[i];
        out.append("\t");
        write_number(out, t.0);
        out.append(" -> ");
        write_number(out, t.2);
        out.append(" [label = \"");
        push_char(out, t.1);
        out.append("\"]\n");
        assert(out@ =~= before + edges_text(follows@.take(i + 1)));
        i = i + 1;
    }
    assert(follows@.take(i as int) =~= follows@);
}

impl InnerAutomata {
    /// The DOT text of the automaton of this description with the transitions
    /// `follows`, for a dark background if `inverse`.
    pub fn to_dot(&self, follows: &Vec<(usize, char, usize)>, inverse: bool, policy: DoorPolicy) -> (text:
        String)
        requires
            self.wf(),
        ensures
            text@ == dot_text(self@, follows@, inverse, policy),
    {
        let mut out = String::from_str(
            "digraph {\n\trankdir=LR\n\tbgcolor=transparent\n\tnode [fontname=Cantarell];\n\tedge [fontname=Cantarell];\n",
        );
        if inverse {
            out.append(
                "\tcolor=white\n\tnode [color=white, fontcolor=white];\n\tedge [color=white, fontcolor=white];\n",
            );
        } else {
            out.append("");
        }
        assert(out@ =~= head_text(inverse));
        let doors = self.get_door(follows, policy);
        let flat = flatten_doors(&doors);
        write_nodes(&mut out, self, &flat);
        write_clusters(&mut out, &doors);
        let inside = restricted(follows, self.labels());
        write_edges(&mut out, &inside);
        out.append("}\n");
        out
    }
}

impl Automata {
    /// The DOT text of the automaton, for a dark background if `inverse`.
    pub fn to_dot(&self, inverse: bool, policy: DoorPolicy) -> (text: String)
        requires
            self.wf(),
        ensures
            text@ == dot_text(self@.inner, self@.follows, inverse, policy),
    {
        self.inner().to_dot(self.transitions(), inverse, policy)
    }
}

impl SubAutomata {
    /// The DOT text of the part, for a dark background if `inverse`.
    pub fn to_dot(&self, parent: &Automata, inverse: bool, policy: DoorPolicy) -> (text: String)
        requires
            parent.wf(),
        ensures
            text@ == dot_text(parent@.part(self.id()), parent@.follows, inverse, policy),
    {
        parent.part(self).to_dot(parent.transitions(), inverse, policy)
    }
}

} // verus!
