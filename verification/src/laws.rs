//! The algebra of the child order.
//!
//! The forest operations state their effect on the abstract child
//! sequence; the lemmas here state the laws that follow for combinations
//! of those operations, over the same sequences their contracts use.

use vstd::prelude::*;

use crate::forest::Tree;

verus! {

/// Popping the first child and pushing the returned tree back at the
/// front restores the original children: `pop_front` hands out exactly
/// the head tree and leaves the rest, and `push_front` of that tree puts
/// it back at the head.
pub proof fn lemma_pop_front_push_front_round_trip<T>(children: Seq<Tree<T>>)
    requires
        children.len() > 0,
    ensures
        seq![children[0]] + children.skip(1) == children,
{
    assert(seq![children[0]] + children.skip(1) =~= children);
}

/// Merging is associative with respect to the resulting child order:
/// appending B to A and then C gives the same children as appending to A
/// the result of appending C to B.  Read right to left, the same equality
/// covers `prepend`, whose result is the mirror-image concatenation.
pub proof fn lemma_append_associative<T>(a: Seq<Tree<T>>, b: Seq<Tree<T>>, c: Seq<Tree<T>>)
    ensures
        (a + b) + c == a + (b + c),
{
    assert((a + b) + c =~= a + (b + c));
}

/// Appending or prepending an empty forest leaves the child order as it
/// was.
pub proof fn lemma_merge_empty_is_no_op<T>(children: Seq<Tree<T>>, other: Seq<Tree<T>>)
    requires
        other.len() == 0,
    ensures
        children + other == children,
        other + children == children,
{
    assert(children + other =~= children);
    assert(other + children =~= children);
}

} // verus!
