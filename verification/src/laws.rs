//! Laws that relate the operations of the library.

use vstd::prelude::*;
use vstd::utf8::encode_utf8;
use crate::parser::{parsed, ParseError};
use crate::render::rendered;
use crate::spelling::{lemma_text_spells, lettered};
use crate::accept::accepts;
use crate::automata::Model;
use crate::glushkov::is_glushkov;
use crate::language::{lemma_glushkov_shape, lemma_glushkov_words};
use crate::prop::{homogeneous, standard};
use crate::regexp::RegExp;
use crate::relation::arrow;
use crate::transform::{copied, homogenized, lemma_homogenized_words, Tag};
use crate::dfs::{
    is_permutation,
    lemma_missing_named,
    lemma_named_permutation,
    lemma_permutation_chain,
    lemma_ranks,
    graph_of,
    named,
    named_pred,
    ranks,
    search,
};
use crate::door::DoorPolicy;
use crate::extract::{lemma_states_of_components, scc_descriptors, states_of};
use crate::graph::missing;
use crate::inner::Descriptor;
use crate::prop::{
    accessible,
    coaccessible,
    entry_search,
    lemma_accessible,
    lemma_coaccessible,
    lemma_strongly_connected,
    strongly_connected,
};
use crate::relation::{flip, lemma_flip_flip};
use crate::runs::{lemma_accepts, lemma_mirror, recognizes};
use crate::scc::{components, covered, divides, lemma_components, scattered};
use crate::visit::lemma_depth_first;
use crate::walks::lemma_pictures;

verus! {

/// The mirror of the mirror of an automaton recognizes the words that the
/// automaton recognizes: it has the same states, the same initial and final
/// states, and the same transitions.
pub proof fn law_mirror_twice(d: Descriptor, follows: Seq<(usize, char, usize)>, word: Seq<char>)
    ensures
        d.mirror().mirror() == d,
        flip(flip(follows)) == follows,
        accepts(d.mirror().mirror(), flip(flip(follows)), word) == accepts(d, follows, word),
{
    lemma_flip_flip(follows);
}

/// The mirror of an automaton recognizes exactly the words of the automaton
/// read backwards.
pub proof fn law_mirror(d: Descriptor, follows: Seq<(usize, char, usize)>, word: Seq<char>)
    ensures
        accepts(d.mirror(), flip(follows), word.reverse()) == accepts(d, follows, word),
{
    lemma_mirror(d, follows, word);
}

/// A word is recognized, which is to say that reading it from the inputs
/// leaves an output in the frontier, exactly if a run on it leads from an
/// input to an output.
pub proof fn law_runs(d: Descriptor, follows: Seq<(usize, char, usize)>, word: Seq<char>)
    ensures
        accepts(d, follows, word) == recognizes(d, follows, word),
{
    lemma_accepts(d, follows, word);
}

/// The Glushkov automaton of an expression recognizes exactly the words of
/// the expression, and it is standard and homogeneous.
pub proof fn law_glushkov(made: Model, reg: RegExp<char>, word: Seq<char>)
    requires
        reg.count() < usize::MAX,
        is_glushkov(made, reg),
    ensures
        accepts(made.inner, made.follows, word) == reg.matches(word),
        standard(made.inner, made.follows),
        homogeneous(made.inner, made.follows),
{
    lemma_glushkov_words(made, reg, word);
    lemma_glushkov_shape(made, reg);
}

/// The text of an expression whose symbols are letters spells the
/// expression.
pub proof fn law_text(reg: RegExp<char>)
    requires
        lettered(reg),
    ensures
        parsed(encode_utf8(rendered(reg))) == Ok::<RegExp<char>, ParseError>(reg),
{
    lemma_text_spells(reg);
}

/// The homogeneous automaton of an automaton recognizes the words that the
/// automaton recognizes, and all the transitions that enter one of its
/// states carry the same symbol.
pub proof fn law_homogenized(
    d: Descriptor,
    follows: Seq<(usize, char, usize)>,
    couples: Seq<Tag>,
    made: Model,
    word: Seq<char>,
)
    requires
        d.wf(),
        couples.len() <= usize::MAX,
        homogenized(d, follows, couples, made),
    ensures
        accepts(made.inner, made.follows, word) == accepts(d, follows, word),
        homogeneous(made.inner, made.follows),
{
    lemma_homogenized_words(d, follows, couples, made, word);
    assert forall|p: usize, c: char, r: usize, e: char, q: usize|
        #[trigger] arrow(made.inner.states, made.follows, p, c, q) && #[trigger] arrow(
            made.inner.states,
            made.follows,
            r,
            e,
            q,
        ) implies c == e by {
        assert(copied(d.states, follows, couples, (p, c, q)));
        assert(copied(d.states, follows, couples, (r, e, q)));
    }
}

/// The strongly connected components of an automaton divide its states:
/// every state stands in one component, no state stands twice in the
/// components, so that the components hold as many states as the automaton,
/// and two states stand in the same component exactly if walks lead from each
/// of them to the other.
pub proof fn law_components(d: Descriptor, follows: Seq<(usize, char, usize)>)
    requires
        d.wf(),
        d.states.len() <= usize::MAX,
    ensures
        is_permutation(components(d.states, follows).flatten(), d.states),
        components(d.states, follows).flatten().len() == d.states.len(),
        scattered(components(d.states, follows)),
        forall|j: int|
            0 <= j < d.states.len() ==> covered(components(d.states, follows), #[trigger] d.states[j]),
        divides(d.states, follows, components(d.states, follows)),
{
    lemma_components(d.states, follows);
}

/// The parts that are made of the strongly connected components have the
/// states of the components, whatever counts as a door: together they hold
/// every state of the automaton once.
pub proof fn law_extracted_parts(d: Descriptor, follows: Seq<(usize, char, usize)>, policy: DoorPolicy)
    requires
        d.wf(),
        d.states.len() <= usize::MAX,
    ensures
        states_of(scc_descriptors(d, follows, policy)) == components(d.states, follows),
        is_permutation(states_of(scc_descriptors(d, follows, policy)).flatten(), d.states),
        states_of(scc_descriptors(d, follows, policy)).flatten().len() == d.states.len(),
        scattered(states_of(scc_descriptors(d, follows, policy))),
        forall|j: int|
            0 <= j < d.states.len() ==> covered(
                states_of(scc_descriptors(d, follows, policy)),
                #[trigger] d.states[j],
            ),
{
    lemma_states_of_components(d, follows, policy);
    lemma_components(d.states, follows);
}

/// A depth-first search in an order that names every state once discovers
/// every state once and finishes every state once, and as many states are
/// without a predecessor as the search has roots.
pub proof fn law_search(
    d: Descriptor,
    follows: Seq<(usize, char, usize)>,
    order: Seq<usize>,
    backward: bool,
)
    requires
        d.wf(),
        d.states.len() <= usize::MAX,
        is_permutation(order, d.states),
    ensures
        is_permutation(
            named(d.states, search(d.states, follows, ranks(d.states, order), backward).prefix),
            order,
        ),
        is_permutation(
            named(d.states, search(d.states, follows, ranks(d.states, order), backward).suffix),
            order,
        ),
        missing(
            named_pred(d.states, search(d.states, follows, ranks(d.states, order), backward).pred),
        ) == search(d.states, follows, ranks(d.states, order), backward).roots.len(),
{
    let states = d.states;
    let places = ranks(states, order);
    let found = search(states, follows, places, backward);
    lemma_ranks(states, order);
    lemma_pictures(states, follows, backward, places);
    lemma_depth_first(graph_of(states, follows, places, backward), places);
    lemma_named_permutation(states, found.prefix);
    lemma_named_permutation(states, found.suffix);
    lemma_permutation_chain(named(states, found.prefix), states, order);
    lemma_permutation_chain(named(states, found.suffix), states, order);
    lemma_missing_named(states, found.pred);
}

/// An automaton is strongly connected, which is to say that walks lead from
/// every state to every state, exactly if the algorithm of Kosaraju finds at
/// most one component in it.
pub proof fn law_strongly_connected(d: Descriptor, follows: Seq<(usize, char, usize)>)
    requires
        d.wf(),
        d.states.len() <= usize::MAX,
    ensures
        strongly_connected(d, follows) == (components(d.states, follows).len() <= 1),
{
    lemma_strongly_connected(d, follows);
}

/// An automaton is accessible, which is to say that walks lead to every
/// state from its first input, exactly if the search that tries the inputs
/// first has one root; and it is coaccessible exactly if its mirror is
/// accessible.
pub proof fn law_accessible(d: Descriptor, follows: Seq<(usize, char, usize)>)
    requires
        d.wf(),
        d.states.len() <= usize::MAX,
    ensures
        accessible(d, follows) == (entry_search(d, follows).roots.len() == 1),
        coaccessible(d, follows) == accessible(d.mirror(), flip(follows)),
{
    lemma_accessible(d, follows);
    lemma_coaccessible(d, follows);
}

} // verus!
