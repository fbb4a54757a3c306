//! Depth-first traversal of a forest, reported as a sequence of
//! visitation events.
//!
//! The traversal is preorder-consistent: entering a node with children
//! yields `Begin`, leaving it again yields `End`, and a childless node
//! yields a single `Leaf`; a subtree's events stand between its root's
//! `Begin` and `End`.  The whole event sequence is fixed by the forest
//! value, as the spec functions here state, and [`Walk`] hands it out one
//! event at a time.

use vstd::prelude::*;

use crate::forest::lemma_forest_view_parts;
use crate::forest::lemma_node_view;
use crate::forest::nxt_pos;
use crate::forest::sib_of;
use crate::forest::Forest;
use crate::forest::Node;
use crate::forest::Tree;

verus! {

/// One abstract visitation event: the tree being entered, left, or seen
/// as a leaf.
pub enum Event<T> {
    Begin(Tree<T>),
    Leaf(Tree<T>),
    End(Tree<T>),
}

/// One concrete visitation event, referring to the visited node.
pub enum Visit<'a, T> {
    Begin(&'a Node<T>),
    Leaf(&'a Node<T>),
    End(&'a Node<T>),
}

impl<'a, T> View for Visit<'a, T> {
    type V = Event<T>;

    /// The abstract event this visit reports.
    closed spec fn view(&self) -> Event<T> {
        match self {
            Visit::Begin(n) => Event::Begin(n@),
            Visit::Leaf(n) => Event::Leaf(n@),
            Visit::End(n) => Event::End(n@),
        }
    }
}

/// The events of the depth-first walk of the subtree rooted at `n`.
pub(crate) open spec fn node_events<T>(n: Node<T>) -> Seq<Event<T>>
    decreases n, 0int,
{
    if n.sub.order@.len() == 0 {
        seq![Event::Leaf(n@)]
    } else {
        seq![Event::Begin(n@)] + forest_events_from(n.sub, 0) + seq![Event::End(n@)]
    }
}

/// The events of the depth-first walk of `f`'s children from chain
/// position `k` on.  The guard on the slot never fails on a forest the
/// library hands out; it only keeps the recursion total.
pub(crate) open spec fn forest_events_from<T>(f: Forest<T>, k: int) -> Seq<Event<T>>
    decreases f, f.order@.len() - k,
    via forest_events_from_dec::<T>
{
    if k < 0 || k >= f.order@.len() {
        Seq::empty()
    } else if !(f.order@[k] < f.arena.len() && f.arena@[f.order@[k] as int] is Some) {
        forest_events_from(f, k + 1)
    } else {
        node_events(f.node_at(f.order@[k] as int)) + forest_events_from(f, k + 1)
    }
}

#[via_fn]
proof fn forest_events_from_dec<T>(f: Forest<T>, k: int) {
    broadcast use vstd::std_specs::vec::axiom_vec_index_decreases;

    if 0 <= k < f.order@.len() {
        let i = f.order@[k] as int;
        if f.order@[k] < f.arena.len() && f.arena@[i] is Some {
            assert(decreases_to!(f => f.arena));
            assert(decreases_to!(f.arena => f.arena[i]));
            assert(decreases_to!(f.arena[i] => f.arena@[i]->0));
            assert(decreases_to!(f => f.node_at(i)));
        }
    }
}

/// The full event sequence of the depth-first walk of `f`.
pub closed spec fn events_of<T>(f: Forest<T>) -> Seq<Event<T>> {
    forest_events_from(f, 0)
}

/// The abstract events that a sequence of visits reports.
pub closed spec fn views_of<T>(vs: Seq<Visit<'_, T>>) -> Seq<Event<T>> {
    vs.map_values(|v: Visit<'_, T>| v@)
}

/// A node's walk events depend only on the tree it roots.
proof fn lemma_node_events_by_view<T>(a: Node<T>, b: Node<T>)
    requires
        a@ == b@,
    ensures
        node_events(a) == node_events(b),
{
    lemma_node_view(a);
    lemma_node_view(b);
    assert(a.sub == b.sub);
}

/// Appends the walk events of the subtree rooted at `n` to `out`.
fn collect_node<'a, T>(n: &'a Node<T>, out: &mut Vec<Visit<'a, T>>)
    ensures
        views_of(final(out)@) == views_of(old(out)@) + node_events(*n),
    decreases *n, 0int,
{
    proof {
        lemma_forest_view_parts(n.sub);
        lemma_node_view(*n);
    }
    if n.sub.is_empty() {
        out.push(Visit::Leaf(n));
        proof {
            assert(views_of(out@) =~= views_of(old(out)@) + node_events(*n));
        }
    } else {
        out.push(Visit::Begin(n));
        let ghost mid0 = out@;
        proof {
            assert(views_of(mid0) =~= views_of(old(out)@) + seq![Event::Begin(n@)]);
        }
        collect_forest(&n.sub, out);
        let ghost mid1 = out@;
        out.push(Visit::End(n));
        proof {
            assert(views_of(out@) =~= views_of(mid1) + seq![Event::End(n@)]);
            assert(views_of(out@) =~= views_of(old(out)@) + node_events(*n));
        }
    }
}

/// Appends the walk events of all of `f`'s children, in chain order, to
/// `out`.
fn collect_forest<'a, T>(f: &'a Forest<T>, out: &mut Vec<Visit<'a, T>>)
    ensures
        views_of(final(out)@) == views_of(old(out)@) + forest_events_from(*f, 0),
    decreases *f, 1int,
{
    proof {
        use_type_invariant(f);
        lemma_forest_view_parts(*f);
    }
    let ghost ord = f.order@;
    let ghost n = ord.len() as int;
    if f.is_empty() {
        proof {
            assert(forest_events_from(*f, 0) =~= Seq::<Event<T>>::empty());
            assert(views_of(out@) + Seq::<Event<T>>::empty() =~= views_of(out@));
        }
        return ;
    }
    proof {
        assert(ord[n - 1] == f.tail);
        assert(f.node_at(ord[n - 1] as int).sib == ord[nxt_pos(n, n - 1)]);
    }
    let mut cur = sib_of(&f.arena, f.tail);
    let ghost mut k: int = 0;
    loop
        invariant_except_break
            n == ord.len(),
            ord == f.order@,
            0 <= k < n,
            cur == ord[k],
            views_of(out@) + forest_events_from(*f, k) == views_of(old(out)@)
                + forest_events_from(*f, 0),
        ensures
            views_of(out@) == views_of(old(out)@) + forest_events_from(*f, 0),
        decreases n - k,
    {
        proof {
            use_type_invariant(f);
            assert(f.arena@[ord[k] as int] is Some) by {
                assert(ord.contains(ord[k]));
            }
        }
        let nd = f.arena[cur].as_ref().unwrap();
        let ghost before = out@;
        proof {
            broadcast use vstd::std_specs::vec::axiom_vec_index_decreases;

            let i = ord[k] as int;
            assert(decreases_to!(f.arena => f.arena[i]));
            assert(decreases_to!(*f => f.node_at(i)));
            assert(*nd == f.node_at(i));
        }
        collect_node(nd, out);
        proof {
            assert(forest_events_from(*f, k) == node_events(f.node_at(ord[k] as int))
                + forest_events_from(*f, k + 1));
            assert((views_of(before) + node_events(*nd)) + forest_events_from(*f, k + 1)
                =~= views_of(before) + (node_events(*nd) + forest_events_from(*f, k + 1)));
        }
        if cur == f.tail {
            proof {
                assert(k == n - 1) by {
                    if k < n - 1 {
                        assert(ord[k] != ord[n - 1]);
                    }
                }
                assert(forest_events_from(*f, n) =~= Seq::<Event<T>>::empty());
                assert(views_of(out@) + Seq::<Event<T>>::empty() =~= views_of(out@));
            }
            break ;
        }
        proof {
            use_type_invariant(f);
            assert(f.node_at(ord[k] as int).sib == ord[nxt_pos(n, k)]);
            assert(k != n - 1) by {
                assert(ord[n - 1] == f.tail);
            }
        }
        cur = nd.sib;
        proof {
            k = k + 1;
        }
    }
}

/// On a forest whose children are all leaves, the walk is one `Leaf`
/// event per child, in chain order.
proof fn lemma_flat_events<T>(f: Forest<T>, k: int)
    requires
        f.wf(),
        0 <= k <= f.order@.len(),
        forall|j: int| 0 <= j < f@.len() ==> (#[trigger] f@[j]).sub@.len() == 0,
    ensures
        forest_events_from(f, k) == f@.skip(k).map_values(|t: Tree<T>| Event::Leaf(t)),
    decreases f.order@.len() - k,
{
    lemma_forest_view_parts(f);
    let ord = f.order@;
    let n = ord.len() as int;
    if k >= n {
        assert(forest_events_from(f, k) =~= f@.skip(k).map_values(
            |t: Tree<T>| Event::Leaf(t),
        ));
    } else {
        let i = ord[k] as int;
        assert(f.arena@[i] is Some) by {
            assert(ord.contains(ord[k]));
        }
        let nd = f.node_at(i);
        lemma_node_view(nd);
        lemma_forest_view_parts(nd.sub);
        assert(nd.sub@.len() == 0) by {
            assert(f@[k].sub@.len() == 0);
        }
        assert(node_events(nd) == seq![Event::Leaf(f@[k])]);
        lemma_flat_events(f, k + 1);
        assert(forest_events_from(f, k) =~= f@.skip(k).map_values(
            |t: Tree<T>| Event::Leaf(t),
        ));
    }
}

/// A single-pass iterator over the depth-first walk events of a forest,
/// produced by [`Forest::walk`].
pub struct Walk<'a, T> {
    pub(crate) events: Vec<Visit<'a, T>>,
    pub(crate) at: usize,
}

impl<'a, T> View for Walk<'a, T> {
    type V = Seq<Event<T>>;

    /// The whole event sequence this walk reports.
    closed spec fn view(&self) -> Seq<Event<T>> {
        views_of(self.events@)
    }
}

impl<'a, T> Walk<'a, T> {
    /// How many events have been yielded so far.
    pub closed spec fn position(self) -> int {
        self.at as int
    }

    /// Yields the next visitation event, or `None` once the walk is
    /// over.
    pub fn next(&mut self) -> (r: Option<&Visit<'a, T>>)
        requires
            0 <= old(self).position() <= old(self)@.len(),
        ensures
            final(self)@ == old(self)@,
            old(self).position() == old(self)@.len() ==> r is None && final(self).position()
                == old(self).position(),
            old(self).position() < old(self)@.len() ==> (r matches Some(v) && v@ == old(self)@[old(
                self,
            ).position()]) && final(self).position() == old(self).position() + 1,
    {
        proof {
            assert(self@.len() == self.events@.len());
        }
        if self.at < self.events.len() {
            let v = &self.events[self.at];
            self.at = self.at + 1;
            Some(v)
        } else {
            None
        }
    }
}

impl<T> Forest<T> {
    /// Walks the forest depth first and returns the event sequence of
    /// the whole traversal (see [`Walk`]): `Begin` and `End` bracket
    /// each child that has children of its own, `Leaf` reports each
    /// childless one, in chain order.
    pub fn walk(&self) -> (w: Walk<'_, T>)
        ensures
            w@ == events_of(*self),
            w.position() == 0,
            (forall|k: int| 0 <= k < self@.len() ==> (#[trigger] self@[k]).sub@.len() == 0)
                ==> w@ == self@.map_values(|t: Tree<T>| Event::Leaf(t)),
    {
        proof {
            use_type_invariant(self);
            if forall|k: int| 0 <= k < self@.len() ==> (#[trigger] self@[k]).sub@.len() == 0 {
                lemma_flat_events(*self, 0);
                assert(self@.skip(0) =~= self@);
            }
        }
        let mut events: Vec<Visit<'_, T>> = Vec::new();
        proof {
            assert(views_of(events@) =~= Seq::<Event<T>>::empty());
        }
        collect_forest(self, &mut events);
        proof {
            assert(Seq::<Event<T>>::empty() + forest_events_from(*self, 0) =~= forest_events_from(
                *self,
                0,
            ));
        }
        Walk { events, at: 0 }
    }
}

} // verus!
