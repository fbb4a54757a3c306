//! The forest, its nodes, and the iterators and cursor over its children.
//!
//! A forest owns an arena (`Vec`) of node slots.  The slots that currently
//! belong to the forest's child chain are `Some`; a slot whose node has been
//! detached is `None` and is never reused.  The chain itself is circular and
//! singly linked: the forest stores only the index of its *tail* (last
//! child), the tail's sibling link points to the *head* (first child), and
//! every other sibling link points to the next child in order.  This single
//! tail reference with wrap-around is what lets pushing at either end, and
//! the chain splice of a whole-forest merge, get by on a constant number
//! of link writes.
//!
//! The ghost field `order` records the chain's indices from head to tail;
//! the type invariant ties it to the sibling links, and the abstract view of
//! a forest is the sequence of child trees read off along `order`.

use vstd::prelude::*;

verus! {

/// Index value that stands for "no node"; the arena can never grow large
/// enough for a real slot to carry this index.
pub(crate) const NIL: usize = usize::MAX;

/// The position that follows `k` on a circular chain of `n` nodes.
pub(crate) open spec fn nxt_pos(n: int, k: int) -> int {
    if k + 1 == n {
        0
    } else {
        k + 1
    }
}

/// The position that precedes `k` on a circular chain of `n` nodes.
pub(crate) open spec fn pred_pos(n: int, k: int) -> int {
    if k == 0 {
        n - 1
    } else {
        k - 1
    }
}

/// One child of a forest: a payload, the forest of the node's own children,
/// and the arena index of the next sibling in the owning forest.
pub struct Node<T> {
    pub data: T,
    pub sub: Forest<T>,
    pub(crate) sib: usize,
}

/// A tree: one root payload and the forest of the root's children.  A
/// tree's root is never threaded on a sibling chain; it joins one only by
/// being consumed by the owning forest.
pub struct Tree<T> {
    pub data: T,
    pub sub: Forest<T>,
}

/// An ordered, possibly empty sequence of sibling trees.
pub struct Forest<T> {
    pub(crate) arena: Vec<Option<Node<T>>>,
    pub(crate) tail: usize,
    pub(crate) order: Ghost<Seq<usize>>,
}

impl<T> Tree<T> {
    /// A single unattached node holding `data`, with no children.
    pub fn new(data: T) -> (t: Tree<T>)
        ensures
            t.data == data,
            t.sub@ == Seq::<Tree<T>>::empty(),
    {
        Tree { data, sub: Forest::new() }
    }
}

impl<T> Forest<T> {
    /// The node stored in slot `i`, which must be a live slot.
    pub(crate) open spec fn node_at(self, i: int) -> Node<T> {
        self.arena@[i]->0
    }

    /// Chain well-formedness: `order` lists exactly the live slots, the
    /// tail is its last entry, and each sibling link steps to the next
    /// entry, wrapping from tail back to head.
    #[verifier::type_invariant]
    pub(crate) open spec fn wf(self) -> bool {
        let ord = self.order@;
        &&& (self.tail == NIL <==> ord.len() == 0)
        &&& (ord.len() > 0 ==> self.tail == ord[ord.len() - 1])
        &&& (forall|k: int| 0 <= k < ord.len() ==> (#[trigger] ord[k]) < self.arena.len())
        &&& (forall|i: int|
            0 <= i < self.arena@.len() ==> ((#[trigger] self.arena@[i]) is Some <==> ord.contains(
                i as usize,
            )))
        &&& (forall|k: int|
            0 <= k < ord.len() ==> (#[trigger] self.node_at(ord[k] as int)).sib == ord[nxt_pos(
                ord.len() as int,
                k,
            )])
        &&& (forall|k1: int, k2: int| 0 <= k1 < k2 < ord.len() ==> ord[k1] != ord[k2])
    }

    /// Makes an empty forest.
    pub fn new() -> (f: Forest<T>)
        ensures
            f@ == Seq::<Tree<T>>::empty(),
    {
        Forest { arena: Vec::new(), tail: NIL, order: Ghost(Seq::empty()) }
    }

    /// Returns `true` iff the forest has no children.  O(1).
    pub fn is_empty(&self) -> (b: bool)
        ensures
            b == (self@.len() == 0),
    {
        proof {
            use_type_invariant(self);
        }
        self.tail == NIL
    }

    /// Adds the tree as the first child.  O(1): the new node's sibling link
    /// takes over the old head and the tail adopts the new node.
    pub fn push_front(&mut self, tree: Tree<T>)
        ensures
            final(self)@ == seq![tree] + old(self)@,
    {
        proof {
            use_type_invariant(&*self);
        }
        let mut work = Forest::new();
        core::mem::swap(self, &mut work);
        let ghost oldf = *old(self);
        let Forest { mut arena, tail, order } = work;
        if tail == NIL {
            let idx = alloc_slot(&mut arena, Node { data: tree.data, sub: tree.sub, sib: 0 });
            set_sib(&mut arena, idx, idx);
            let ghost new_ord: Seq<usize> = seq![idx];
            proof {
                let cand = Forest { arena: arena, tail: idx, order: Ghost(new_ord) };
                assert forall|i: int| 0 <= i < cand.arena@.len() implies ((#[trigger] cand.arena@[i])
                    is Some <==> new_ord.contains(i as usize)) by {
                    if i == idx {
                        assert(new_ord[0] == idx);
                    } else {
                        assert(cand.arena@[i] == oldf.arena@[i]);
                        assert(!oldf.order@.contains(i as usize));
                        if new_ord.contains(i as usize) {
                            let j = choose|j: int| 0 <= j < new_ord.len() && new_ord[j] == i as usize;
                            assert(false);
                        }
                    }
                }
                assert forall|k: int|
                    0 <= k < new_ord.len() implies (#[trigger] cand.node_at(new_ord[k] as int)).sib
                    == new_ord[nxt_pos(new_ord.len() as int, k)] by {
                    assert(k == 0);
                    assert(cand.arena@[idx as int]->0.sib == idx);
                }
                assert(cand.wf());
            }
            *self = Forest { arena, tail: idx, order: Ghost(new_ord) };
            proof {
                assert(self@ =~= seq![tree] + old(self)@);
            }
        } else {
            let head = sib_of(&arena, tail);
            let idx = alloc_slot(&mut arena, Node { data: tree.data, sub: tree.sub, sib: head });
            set_sib(&mut arena, tail, idx);
            let ghost new_ord: Seq<usize> = seq![idx] + order@;
            proof {
                let ord0 = oldf.order@;
                let n = ord0.len() as int;
                let cand = Forest { arena: arena, tail: tail, order: Ghost(new_ord) };
                assert(ord0[n - 1] == tail);
                assert(oldf.node_at(ord0[n - 1] as int).sib == ord0[nxt_pos(n, n - 1)]);
                assert(head == ord0[0]);
                assert forall|i: int| 0 <= i < cand.arena@.len() implies ((#[trigger] cand.arena@[i])
                    is Some <==> new_ord.contains(i as usize)) by {
                    if i == idx {
                        assert(new_ord[0] == idx);
                    } else {
                        assert(oldf.arena@[i] is Some <==> ord0.contains(i as usize));
                        assert(cand.arena@[i] is Some <==> oldf.arena@[i] is Some);
                        if ord0.contains(i as usize) {
                            let j = choose|j: int| 0 <= j < ord0.len() && ord0[j] == i as usize;
                            assert(new_ord[j + 1] == i as usize);
                        }
                        if new_ord.contains(i as usize) {
                            let j = choose|j: int| 0 <= j < new_ord.len() && new_ord[j] == i as usize;
                            assert(j >= 1);
                            assert(ord0[j - 1] == i as usize);
                        }
                    }
                }
                assert forall|k: int|
                    0 <= k < new_ord.len() implies (#[trigger] cand.node_at(new_ord[k] as int)).sib
                    == new_ord[nxt_pos(new_ord.len() as int, k)] by {
                    if k == 0 {
                        assert(cand.arena@[idx as int]->0.sib == head);
                        assert(new_ord[1] == ord0[0]);
                    } else if k == new_ord.len() - 1 {
                        assert(new_ord[k] == ord0[n - 1]);
                        assert(new_ord[k] == tail);
                        assert(cand.arena@[tail as int]->0.sib == idx);
                        assert(new_ord[nxt_pos(new_ord.len() as int, k)] == idx);
                    } else {
                        assert(new_ord[k] == ord0[k - 1]);
                        assert(ord0[k - 1] != tail) by {
                            assert(k - 1 < n - 1);
                        }
                        assert(ord0[k - 1] < oldf.arena@.len());
                        assert(cand.arena@[ord0[k - 1] as int] == oldf.arena@[ord0[k - 1] as int]);
                        assert(oldf.node_at(ord0[k - 1] as int).sib == ord0[nxt_pos(n, k - 1)]);
                        assert(nxt_pos(n, k - 1) == k);
                        assert(new_ord[k + 1] == ord0[k]);
                        assert(nxt_pos(new_ord.len() as int, k) == k + 1);
                    }
                }
                assert(cand.wf());
            }
            *self = Forest { arena, tail, order: Ghost(new_ord) };
            proof {
                assert(self@ =~= seq![tree] + old(self)@);
            }
        }
    }

    /// Adds the tree as the last child.  O(1): the new node takes over the
    /// old head as its sibling, the old tail adopts it, and it becomes the
    /// new tail.
    pub fn push_back(&mut self, tree: Tree<T>)
        ensures
            final(self)@ == old(self)@.push(tree),
    {
        proof {
            use_type_invariant(&*self);
        }
        let mut work = Forest::new();
        core::mem::swap(self, &mut work);
        let ghost oldf = *old(self);
        let Forest { mut arena, tail, order } = work;
        if tail == NIL {
            let idx = alloc_slot(&mut arena, Node { data: tree.data, sub: tree.sub, sib: 0 });
            set_sib(&mut arena, idx, idx);
            let ghost new_ord: Seq<usize> = seq![idx];
            proof {
                let cand = Forest { arena: arena, tail: idx, order: Ghost(new_ord) };
                assert forall|i: int| 0 <= i < cand.arena@.len() implies ((#[trigger] cand.arena@[i])
                    is Some <==> new_ord.contains(i as usize)) by {
                    if i == idx {
                        assert(new_ord[0] == idx);
                    } else {
                        assert(cand.arena@[i] == oldf.arena@[i]);
                        assert(!oldf.order@.contains(i as usize));
                        if new_ord.contains(i as usize) {
                            let j = choose|j: int| 0 <= j < new_ord.len() && new_ord[j] == i as usize;
                            assert(false);
                        }
                    }
                }
                assert forall|k: int|
                    0 <= k < new_ord.len() implies (#[trigger] cand.node_at(new_ord[k] as int)).sib
                    == new_ord[nxt_pos(new_ord.len() as int, k)] by {
                    assert(cand.arena@[idx as int]->0.sib == idx);
                }
                assert(cand.wf());
            }
            *self = Forest { arena, tail: idx, order: Ghost(new_ord) };
            proof {
                assert(self@ =~= old(self)@.push(tree));
            }
        } else {
            let head = sib_of(&arena, tail);
            let idx = alloc_slot(&mut arena, Node { data: tree.data, sub: tree.sub, sib: head });
            set_sib(&mut arena, tail, idx);
            let ghost new_ord: Seq<usize> = order@.push(idx);
            proof {
                let ord0 = oldf.order@;
                let n = ord0.len() as int;
                let cand = Forest { arena: arena, tail: idx, order: Ghost(new_ord) };
                assert(ord0[n - 1] == tail);
                assert(oldf.node_at(ord0[n - 1] as int).sib == ord0[nxt_pos(n, n - 1)]);
                assert(head == ord0[0]);
                assert forall|i: int| 0 <= i < cand.arena@.len() implies ((#[trigger] cand.arena@[i])
                    is Some <==> new_ord.contains(i as usize)) by {
                    if i == idx {
                        assert(new_ord[n] == idx);
                    } else {
                        assert(oldf.arena@[i] is Some <==> ord0.contains(i as usize));
                        assert(cand.arena@[i] is Some <==> oldf.arena@[i] is Some);
                        if ord0.contains(i as usize) {
                            let j = choose|j: int| 0 <= j < ord0.len() && ord0[j] == i as usize;
                            assert(new_ord[j] == i as usize);
                        }
                        if new_ord.contains(i as usize) {
                            let j = choose|j: int| 0 <= j < new_ord.len() && new_ord[j] == i as usize;
                            assert(j < n);
                            assert(ord0[j] == i as usize);
                        }
                    }
                }
                assert forall|k: int|
                    0 <= k < new_ord.len() implies (#[trigger] cand.node_at(new_ord[k] as int)).sib
                    == new_ord[nxt_pos(new_ord.len() as int, k)] by {
                    if k == n {
                        assert(cand.arena@[idx as int]->0.sib == head);
                        assert(new_ord[0] == ord0[0]);
                    } else if k == n - 1 {
                        assert(new_ord[k] == tail);
                        assert(cand.arena@[tail as int]->0.sib == idx);
                    } else {
                        assert(new_ord[k] == ord0[k]);
                        assert(ord0[k] != tail) by {
                            assert(k < n - 1);
                        }
                        assert(ord0[k] < oldf.arena@.len());
                        assert(cand.arena@[ord0[k] as int] == oldf.arena@[ord0[k] as int]);
                        assert(oldf.node_at(ord0[k] as int).sib == ord0[nxt_pos(n, k)]);
                        assert(nxt_pos(n, k) == k + 1);
                        assert(new_ord[k + 1] == ord0[k + 1]);
                    }
                }
                assert(cand.wf());
            }
            *self = Forest { arena, tail: idx, order: Ghost(new_ord) };
            proof {
                assert(self@ =~= old(self)@.push(tree));
            }
        }
    }

    /// Removes and returns the first child as an owned tree, or `None` if
    /// the forest is empty.  O(1): the tail adopts the old head's sibling.
    pub fn pop_front(&mut self) -> (r: Option<Tree<T>>)
        ensures
            old(self)@.len() == 0 ==> r is None && final(self)@ == old(self)@,
            old(self)@.len() > 0 ==> r == Some(old(self)@[0]) && final(self)@ == old(self)@.skip(1),
    {
        proof {
            use_type_invariant(&*self);
        }
        if self.tail == NIL {
            return None;
        }
        let mut work = Forest::new();
        core::mem::swap(self, &mut work);
        let ghost oldf = *old(self);
        let Forest { mut arena, tail, order } = work;
        let head = sib_of(&arena, tail);
        proof {
            let ord0 = oldf.order@;
            let n = ord0.len() as int;
            assert(ord0[n - 1] == tail);
            assert(oldf.node_at(ord0[n - 1] as int).sib == ord0[nxt_pos(n, n - 1)]);
            assert(head == ord0[0]);
        }
        let slot = &mut arena[head];
        let n = slot.take().unwrap();
        let Node { data, sub, sib } = n;
        if head == tail {
            proof {
                let ord0 = oldf.order@;
                assert(ord0.len() == 1) by {
                    if ord0.len() > 1 {
                        assert(ord0[0] != ord0[ord0.len() - 1]);
                    }
                }
                let cand = Forest { arena: arena, tail: NIL, order: Ghost(Seq::<usize>::empty()) };
                assert forall|i: int| 0 <= i < cand.arena@.len() implies ((#[trigger] cand.arena@[i])
                    is Some <==> Seq::<usize>::empty().contains(i as usize)) by {
                    if i != head {
                        assert(cand.arena@[i] == oldf.arena@[i]);
                        if oldf.order@.contains(i as usize) {
                            let j = choose|j: int|
                                0 <= j < oldf.order@.len() && oldf.order@[j] == i as usize;
                            assert(false);
                        }
                    }
                }
                assert(cand.wf());
            }
            *self = Forest { arena, tail: NIL, order: Ghost(Seq::empty()) };
            proof {
                assert(old(self)@[0].data == data);
                assert(old(self)@[0].sub == sub);
                assert(self@ =~= old(self)@.skip(1));
            }
            Some(Tree { data, sub })
        } else {
            let new_head = sib;
            set_sib(&mut arena, tail, new_head);
            let ghost new_ord: Seq<usize> = oldf.order@.skip(1);
            proof {
                let ord0 = oldf.order@;
                let n0 = ord0.len() as int;
                assert(n0 >= 2) by {
                    assert(ord0[0] == head);
                    assert(ord0[n0 - 1] == tail);
                }
                assert(new_head == ord0[1]) by {
                    assert(oldf.node_at(ord0[0] as int).sib == ord0[nxt_pos(n0, 0)]);
                }
                let cand = Forest { arena: arena, tail: tail, order: Ghost(new_ord) };
                assert(new_ord.len() == n0 - 1);
                assert forall|i: int| 0 <= i < cand.arena@.len() implies ((#[trigger] cand.arena@[i])
                    is Some <==> new_ord.contains(i as usize)) by {
                    if i == head {
                        if new_ord.contains(i as usize) {
                            let j = choose|j: int| 0 <= j < new_ord.len() && new_ord[j] == i as usize;
                            assert(ord0[j + 1] == head);
                            assert(ord0[0] == head);
                            assert(false);
                        }
                    } else {
                        assert(cand.arena@[i] is Some <==> oldf.arena@[i] is Some);
                        if ord0.contains(i as usize) {
                            let j = choose|j: int| 0 <= j < ord0.len() && ord0[j] == i as usize;
                            assert(j != 0);
                            assert(new_ord[j - 1] == i as usize);
                        }
                        if new_ord.contains(i as usize) {
                            let j = choose|j: int| 0 <= j < new_ord.len() && new_ord[j] == i as usize;
                            assert(ord0[j + 1] == i as usize);
                        }
                    }
                }
                assert forall|k: int|
                    0 <= k < new_ord.len() implies (#[trigger] cand.node_at(new_ord[k] as int)).sib
                    == new_ord[nxt_pos(new_ord.len() as int, k)] by {
                    assert(new_ord[k] == ord0[k + 1]);
                    if k == new_ord.len() - 1 {
                        assert(new_ord[k] == tail);
                        assert(cand.arena@[tail as int]->0.sib == new_head);
                        assert(new_ord[nxt_pos(new_ord.len() as int, k)] == ord0[1]);
                    } else {
                        assert(ord0[k + 1] != tail) by {
                            assert(k + 1 < n0 - 1);
                        }
                        assert(ord0[k + 1] != head) by {
                            assert(0 < k + 1);
                        }
                        assert(cand.arena@[ord0[k + 1] as int] == oldf.arena@[ord0[k + 1] as int]);
                        assert(oldf.node_at(ord0[k + 1] as int).sib == ord0[nxt_pos(n0, k + 1)]);
                        assert(nxt_pos(n0, k + 1) == k + 2);
                    }
                }
                assert(cand.wf());
            }
            *self = Forest { arena, tail, order: Ghost(new_ord) };
            proof {
                assert(old(self)@[0].data == data);
                assert(old(self)@[0].sub == sub);
                assert(self@ =~= old(self)@.skip(1));
            }
            Some(Tree { data, sub })
        }
    }

    /// Returns a reference to the last child's node, or `None` if the
    /// forest is empty.
    pub fn last(&self) -> (r: Option<&Node<T>>)
        ensures
            match r {
                None => self@.len() == 0,
                Some(n) => self@.len() > 0 && n@ == self@[self@.len() - 1],
            },
    {
        proof {
            use_type_invariant(self);
        }
        if self.tail == NIL {
            None
        } else {
            proof {
                let ord0 = self.order@;
                assert(ord0[ord0.len() - 1] == self.tail);
            }
            Some(self.arena[self.tail].as_ref().unwrap())
        }
    }

    /// Splices `forest`'s whole chain into this one, at the back
    /// (`at_back`) or at the front, consuming `forest`.  The splice itself
    /// is two sibling-link writes: the two cycles are joined by exchanging
    /// which tail points at which head; only the arena hand-over walks the
    /// consumed forest's slots.
    #[verifier::rlimit(60)]
    #[verifier::spinoff_prover]
    fn merge(&mut self, forest: Forest<T>, at_back: bool)
        ensures
            at_back ==> final(self)@ == old(self)@ + forest@,
            !at_back ==> final(self)@ == forest@ + old(self)@,
    {
        proof {
            use_type_invariant(&*self);
            use_type_invariant(&forest);
        }
        let ghost fsnap = forest;
        let mut work = Forest::new();
        core::mem::swap(self, &mut work);
        let ghost oldf = *old(self);
        let Forest { mut arena, tail, order } = work;
        let Forest { arena: mut farena, tail: ftail, order: _forder } = forest;
        if ftail == NIL {
            proof {
                assert(Forest { arena: arena, tail: tail, order: order } == oldf);
            }
            *self = Forest { arena, tail, order };
            proof {
                assert(fsnap@ =~= Seq::<Tree<T>>::empty());
                assert(self@ =~= old(self)@ + fsnap@);
                assert(self@ =~= fsnap@ + old(self)@);
            }
            return;
        }
        let off = arena.len();
        let ghost ford = fsnap.order@;
        let ghost m = ford.len() as int;
        proof {
            assert(ford[m - 1] == ftail);
            assert forall|i: int|
                off <= i < arena@.len() + farena@.len() && (arena@ + farena@)[i] is Some implies (
            #[trigger] (arena@ + farena@)[i])->0.sib < arena@.len() + farena@.len() - off by {
                assert((arena@ + farena@)[i] == fsnap.arena@[i - off]);
                assert(fsnap.arena@[i - off] is Some <==> ford.contains((i - off) as usize));
                let j = choose|j: int| 0 <= j < ford.len() && ford[j] == (i - off) as usize;
                assert(fsnap.node_at(ford[j] as int).sib == ford[nxt_pos(m, j)]);
            }
        }
        arena.append(&mut farena);
        shift_region(&mut arena, off);
        let ghost shifted: Seq<usize> = ford.map_values(|i: usize| (i + off) as usize);
        let total = arena.len();
        proof {
            assert(total == oldf.arena@.len() + fsnap.arena@.len());
            assert(ftail < fsnap.arena@.len());
            assert forall|k: int| 0 <= k < m implies (#[trigger] shifted[k]) == ford[k] + off by {}
        }
        let sftail = ftail + off;
        if tail == NIL {
            proof {
                let cand = Forest { arena: arena, tail: sftail, order: Ghost(shifted) };
                assert(oldf.order@.len() == 0);
                assert(shifted[m - 1] == sftail);
                assert forall|i: int| 0 <= i < cand.arena@.len() implies ((#[trigger] cand.arena@[i])
                    is Some <==> shifted.contains(i as usize)) by {
                    if i < off {
                        assert(cand.arena@[i] == oldf.arena@[i]);
                        assert(!oldf.order@.contains(i as usize));
                        if shifted.contains(i as usize) {
                            let j = choose|j: int| 0 <= j < m && shifted[j] == i as usize;
                            assert(false);
                        }
                    } else {
                        assert(cand.arena@[i] is Some <==> fsnap.arena@[i - off] is Some);
                        assert(fsnap.arena@[i - off] is Some <==> ford.contains((i - off) as usize));
                        if ford.contains((i - off) as usize) {
                            let j = choose|j: int| 0 <= j < m && ford[j] == (i - off) as usize;
                            assert(shifted[j] == i as usize);
                        }
                        if shifted.contains(i as usize) {
                            let j = choose|j: int| 0 <= j < m && shifted[j] == i as usize;
                            assert(ford[j] == (i - off) as usize);
                        }
                    }
                }
                assert forall|k: int|
                    0 <= k < shifted.len() implies (#[trigger] cand.node_at(shifted[k] as int)).sib
                    == shifted[nxt_pos(shifted.len() as int, k)] by {
                    assert(fsnap.node_at(ford[k] as int).sib == ford[nxt_pos(m, k)]);
                    assert(cand.arena@[shifted[k] as int]->0.sib == fsnap.arena@[ford[k] as int]->0.sib
                        + off);
                }
                assert forall|k1: int, k2: int| 0 <= k1 < k2 < m implies shifted[k1] != shifted[k2] by {
                    assert(ford[k1] != ford[k2]);
                }
                assert(cand.wf());
            }
            *self = Forest { arena, tail: sftail, order: Ghost(shifted) };
            proof {
                assert(self@ =~= old(self)@ + fsnap@) by {
                    assert forall|k: int| 0 <= k < m implies self@[k] == fsnap@[k] by {
                        assert(self.node_at(shifted[k] as int).data == fsnap.node_at(
                            ford[k] as int,
                        ).data);
                        assert(self.node_at(shifted[k] as int).sub == fsnap.node_at(
                            ford[k] as int,
                        ).sub);
                    }
                }
                assert(self@ =~= fsnap@ + old(self)@);
            }
        } else {
            let head = sib_of(&arena, tail);
            let fhead = sib_of(&arena, sftail);
            proof {
                let ord0 = oldf.order@;
                let n = ord0.len() as int;
                assert(ord0[n - 1] == tail);
                assert(oldf.node_at(ord0[n - 1] as int).sib == ord0[nxt_pos(n, n - 1)]);
                assert(head == ord0[0]);
                assert(fsnap.node_at(ford[m - 1] as int).sib == ford[nxt_pos(m, m - 1)]);
                assert(fhead == ford[0] + off);
                assert(fhead == shifted[0]);
            }
            set_sib(&mut arena, tail, fhead);
            set_sib(&mut arena, sftail, head);
            let new_tail = if at_back { sftail } else { tail };
            let ghost new_ord: Seq<usize> = if at_back {
                oldf.order@ + shifted
            } else {
                shifted + oldf.order@
            };
            proof {
                let ord0 = oldf.order@;
                let n = ord0.len() as int;
                let nn = new_ord.len() as int;
                let cand = Forest { arena: arena, tail: new_tail, order: Ghost(new_ord) };
                // positions of the two rewritten links inside the merged cycle
                assert(tail != sftail);
                assert forall|k: int| 0 <= k < n implies (#[trigger] ord0[k]) < off by {}
                assert forall|i: int| 0 <= i < cand.arena@.len() implies ((#[trigger] cand.arena@[i])
                    is Some <==> new_ord.contains(i as usize)) by {
                    if i < off {
                        assert(cand.arena@[i] is Some <==> oldf.arena@[i] is Some);
                        assert(oldf.arena@[i] is Some <==> ord0.contains(i as usize));
                        if ord0.contains(i as usize) {
                            let j = choose|j: int| 0 <= j < n && ord0[j] == i as usize;
                            if at_back {
                                assert(new_ord[j] == i as usize);
                            } else {
                                assert(new_ord[m + j] == i as usize);
                            }
                        }
                        if new_ord.contains(i as usize) {
                            let j = choose|j: int| 0 <= j < nn && new_ord[j] == i as usize;
                            if at_back {
                                assert(j < n);
                                assert(ord0[j] == i as usize);
                            } else {
                                assert(j >= m);
                                assert(ord0[j - m] == i as usize);
                            }
                        }
                    } else {
                        assert(cand.arena@[i] is Some <==> fsnap.arena@[i - off] is Some);
                        assert(fsnap.arena@[i - off] is Some <==> ford.contains((i - off) as usize));
                        if ford.contains((i - off) as usize) {
                            let j = choose|j: int| 0 <= j < m && ford[j] == (i - off) as usize;
                            assert(shifted[j] == i as usize);
                            if at_back {
                                assert(new_ord[n + j] == i as usize);
                            } else {
                                assert(new_ord[j] == i as usize);
                            }
                        }
                        if new_ord.contains(i as usize) {
                            let j = choose|j: int| 0 <= j < nn && new_ord[j] == i as usize;
                            if at_back {
                                assert(j >= n);
                                assert(shifted[j - n] == i as usize);
                                assert(ford[j - n] == (i - off) as usize);
                            } else {
                                assert(j < m);
                                assert(ford[j] == (i - off) as usize);
                            }
                        }
                    }
                }
                assert forall|k: int|
                    0 <= k < nn implies (#[trigger] cand.node_at(new_ord[k] as int)).sib == new_ord[nxt_pos(nn, k)] by {
                    let first = if at_back { ord0 } else { shifted };
                    let second = if at_back { shifted } else { ord0 };
                    if k < first.len() {
                        assert(new_ord[k] == first[k]);
                    } else {
                        assert(new_ord[k] == second[k - first.len()]);
                    }
                    // each entry is either an untouched old node, an untouched
                    // shifted node, or one of the two rewritten ends
                    if new_ord[k] == tail {
                        assert(cand.arena@[tail as int]->0.sib == fhead);
                        if at_back {
                            assert(ord0[n - 1] == tail);
                            assert(k == n - 1) by {
                                if k != n - 1 {
                                    if k < n {
                                        assert(ord0[k] != ord0[n - 1]);
                                    } else {
                                        assert(shifted[k - n] >= off);
                                    }
                                }
                            }
                            assert(new_ord[k + 1] == shifted[0]);
                        } else {
                            assert(k == nn - 1) by {
                                if k < m {
                                    assert(shifted[k] >= off);
                                } else if k < nn - 1 {
                                    assert(ord0[k - m] != ord0[n - 1]);
                                }
                            }
                            assert(new_ord[0] == shifted[0]);
                        }
                    } else if new_ord[k] == sftail {
                        assert(cand.arena@[sftail as int]->0.sib == head);
                        if at_back {
                            assert(k == nn - 1) by {
                                if k < n {
                                    assert(ord0[k] < off);
                                } else if k < nn - 1 {
                                    assert(ford[k - n] != ford[m - 1]);
                                }
                            }
                            assert(new_ord[0] == ord0[0]);
                        } else {
                            assert(shifted[m - 1] == sftail);
                            assert(k == m - 1) by {
                                if k != m - 1 {
                                    if k < m {
                                        assert(ford[k] != ford[m - 1]);
                                    } else {
                                        assert(ord0[k - m] < off);
                                    }
                                }
                            }
                            assert(new_ord[k + 1] == ord0[0]);
                        }
                    } else if new_ord[k] < off {
                        // untouched node of the old chain
                        let j = if at_back { k } else { k - m };
                        assert(ord0[j] == new_ord[k]);
                        assert(ord0[j] != tail);
                        assert(j != n - 1) by {
                            if j == n - 1 {
                                assert(ord0[j] == tail);
                            }
                        }
                        assert(cand.arena@[ord0[j] as int] == oldf.arena@[ord0[j] as int]);
                        assert(oldf.node_at(ord0[j] as int).sib == ord0[nxt_pos(n, j)]);
                        assert(nxt_pos(n, j) == j + 1);
                        assert(new_ord[k + 1] == ord0[j + 1]);
                        assert(nxt_pos(nn, k) == k + 1);
                    } else {
                        // untouched node of the consumed chain, shifted by off
                        let j = if at_back { k - n } else { k };
                        assert(shifted[j] == new_ord[k]);
                        assert(j != m - 1) by {
                            if j == m - 1 {
                                assert(shifted[j] == sftail);
                            }
                        }
                        assert(cand.arena@[shifted[j] as int]->0.sib == fsnap.arena@[ford[j] as int]->0.sib
                            + off);
                        assert(fsnap.node_at(ford[j] as int).sib == ford[nxt_pos(m, j)]);
                        assert(nxt_pos(m, j) == j + 1);
                        assert(cand.arena@[shifted[j] as int]->0.sib == shifted[j + 1]);
                        assert(new_ord[k + 1] == shifted[j + 1]);
                        assert(nxt_pos(nn, k) == k + 1);
                    }
                }
                assert forall|k1: int, k2: int| 0 <= k1 < k2 < nn implies new_ord[k1] != new_ord[k2]
                    by {
                    let first = if at_back { ord0 } else { shifted };
                    let second = if at_back { shifted } else { ord0 };
                    if k1 < first.len() && k2 >= first.len() {
                        assert(new_ord[k1] == first[k1]);
                        assert(new_ord[k2] == second[k2 - first.len()]);
                    } else if k1 >= first.len() {
                        assert(new_ord[k1] == second[k1 - first.len()]);
                        assert(new_ord[k2] == second[k2 - first.len()]);
                        if at_back {
                            assert(ford[k1 - n] != ford[k2 - n]);
                        }
                    } else {
                        assert(new_ord[k1] == first[k1]);
                        assert(new_ord[k2] == first[k2]);
                        if !at_back {
                            assert(ford[k1] != ford[k2]);
                        }
                    }
                }
                // the tail entry is last in the merged order
                if at_back {
                    assert(new_ord[nn - 1] == shifted[m - 1]);
                } else {
                    assert(new_ord[nn - 1] == ord0[n - 1]);
                }
                assert(cand.wf());
            }
            *self = Forest { arena, tail: new_tail, order: Ghost(new_ord) };
            proof {
                let ord0 = oldf.order@;
                let n = ord0.len() as int;
                assert forall|k: int| 0 <= k < n implies #[trigger] self.node_at(ord0[k] as int).data
                    == oldf.node_at(ord0[k] as int).data && self.node_at(ord0[k] as int).sub
                    == oldf.node_at(ord0[k] as int).sub by {
                    assert(ord0[k] < off);
                }
                assert forall|k: int| 0 <= k < m implies #[trigger] self.node_at(
                    shifted[k] as int,
                ).data == fsnap.node_at(ford[k] as int).data && self.node_at(shifted[k] as int).sub
                    == fsnap.node_at(ford[k] as int).sub by {}
                if at_back {
                    assert(self@ =~= old(self)@ + fsnap@);
                } else {
                    assert(self@ =~= fsnap@ + old(self)@);
                }
            }
        }
    }

    /// Merges `forest` at the back: its children follow this forest's, in
    /// their own order.  The argument is consumed.
    pub fn append(&mut self, forest: Forest<T>)
        ensures
            final(self)@ == old(self)@ + forest@,
    {
        self.merge(forest, true)
    }

    /// Merges `forest` at the front: its children come first, in their own
    /// order, followed by this forest's.  The argument is consumed.
    pub fn prepend(&mut self, forest: Forest<T>)
        ensures
            final(self)@ == forest@ + old(self)@,
    {
        self.merge(forest, false)
    }

    /// Produces a cursor over this forest's children (see [`OntoIter`]).
    /// The traversal will yield exactly the children present now; siblings
    /// inserted through the cursor are skipped by it.
    pub fn subtrees(&self) -> (c: OntoIter)
        ensures
            c.wf(*self),
            c.remaining() == self@.len(),
            !c.on_node(*self),
    {
        proof {
            use_type_invariant(self);
        }
        if self.tail == NIL {
            let c = OntoIter {
                curr: NIL,
                next: NIL,
                prev: NIL,
                pnext: NIL,
                mark: NIL,
                left: Ghost(Seq::empty()),
                jpos: Ghost(0),
            };
            proof {
                assert(c.left@ =~= self.order@.skip(0));
            }
            c
        } else {
            let ghost ord = self.order@;
            let ghost n = ord.len() as int;
            proof {
                assert(ord[n - 1] == self.tail);
                assert(self.node_at(ord[n - 1] as int).sib == ord[nxt_pos(n, n - 1)]);
            }
            let head = sib_of(&self.arena, self.tail);
            let c = OntoIter {
                curr: NIL,
                next: head,
                prev: self.tail,
                pnext: self.tail,
                mark: self.tail,
                left: Ghost(self.order@),
                jpos: Ghost(0),
            };
            proof {
                assert(c.left@ =~= ord.skip(0));
                assert(c.pnext == ord[pred_pos(n, 0)]);
            }
            c
        }
    }

    /// Provides a forward iterator over the forest's child nodes, head to
    /// tail (see [`Iter`]).
    pub fn children(&self) -> (it: Iter)
        ensures
            it.wf(*self),
            it.position() == 0,
    {
        proof {
            use_type_invariant(self);
        }
        if self.tail == NIL {
            Iter { cur: NIL, pos: Ghost(0) }
        } else {
            let ghost ord = self.order@;
            let ghost n = ord.len() as int;
            proof {
                assert(ord[n - 1] == self.tail);
                assert(self.node_at(ord[n - 1] as int).sib == ord[nxt_pos(n, n - 1)]);
            }
            let head = sib_of(&self.arena, self.tail);
            Iter { cur: head, pos: Ghost(0) }
        }
    }

    /// Consumes the forest into a draining iterator over its child trees,
    /// head first (see [`IntoIter`]).
    pub fn into_iter(self) -> (it: IntoIter<T>)
        ensures
            it@ == self@,
    {
        IntoIter { forest: self }
    }

    /// Provides a forward iterator over the forest's children that can
    /// rewrite each child's payload in place (see [`IterMut`]).
    pub fn children_mut(&self) -> (it: IterMut)
        ensures
            it.wf(*self),
            it.position() == 0,
    {
        proof {
            use_type_invariant(self);
        }
        if self.tail == NIL {
            IterMut { cur: NIL, pos: Ghost(0) }
        } else {
            let ghost ord = self.order@;
            let ghost n = ord.len() as int;
            proof {
                assert(ord[n - 1] == self.tail);
                assert(self.node_at(ord[n - 1] as int).sib == ord[nxt_pos(n, n - 1)]);
            }
            let head = sib_of(&self.arena, self.tail);
            IterMut { cur: head, pos: Ghost(0) }
        }
    }
}

/// Appends a fresh live slot holding `node` and returns its index.
fn alloc_slot<T>(arena: &mut Vec<Option<Node<T>>>, node: Node<T>) -> (idx: usize)
    ensures
        final(arena)@ == old(arena)@.push(Some(node)),
        idx == old(arena)@.len(),
        idx < NIL,
{
    arena.push(Some(node));
    arena.len() - 1
}

/// Adds `off` to the sibling link of every live slot at index `off` or
/// above, leaving payloads, child forests and the slots below `off` alone.
/// Used when one forest's arena is handed over to another wholesale: the
/// moved slots keep their relative links at their new positions.
fn shift_region<T>(arena: &mut Vec<Option<Node<T>>>, off: usize)
    requires
        off <= old(arena).len(),
        forall|i: int|
            off <= i < old(arena)@.len() && old(arena)@[i] is Some ==> (#[trigger] old(arena)@[i])->0.sib < old(arena)@.len() - off,
    ensures
        final(arena)@.len() == old(arena)@.len(),
        forall|i: int| 0 <= i < off ==> final(arena)@[i] == old(arena)@[i],
        forall|i: int|
            off <= i < old(arena)@.len() ==> (((#[trigger] final(arena)@[i]) is Some) == (old(arena)@[i] is Some)),
        forall|i: int|
            off <= i < old(arena)@.len() && old(arena)@[i] is Some ==> (#[trigger] final(arena)@[i])->0.sib == old(arena)@[i]->0.sib + off && final(arena)@[i]->0.data == old(arena)@[i]->0.data && final(arena)@[i]->0.sub == old(arena)@[i]->0.sub,
{
    let mut i = off;
    while i < arena.len()
        invariant
            off <= i <= arena@.len(),
            arena@.len() == old(arena)@.len(),
            forall|j: int| 0 <= j < off ==> arena@[j] == old(arena)@[j],
            forall|j: int| i <= j < arena@.len() ==> arena@[j] == old(arena)@[j],
            forall|j: int|
                off <= j < i ==> (((#[trigger] arena@[j]) is Some) == (old(arena)@[j] is Some)),
            forall|j: int|
                off <= j < i && old(arena)@[j] is Some ==> (#[trigger] arena@[j])->0.sib == old(arena)@[j]->0.sib + off && arena@[j]->0.data == old(arena)@[j]->0.data
                    && arena@[j]->0.sub == old(arena)@[j]->0.sub,
            forall|j: int|
                off <= j < arena@.len() && old(arena)@[j] is Some ==> (#[trigger] old(arena)@[j])->0.sib < arena@.len() - off,
        decreases arena@.len() - i,
    {
        let slot = &mut arena[i];
        match slot.take() {
            Some(mut n) => {
                n.sib = n.sib + off;
                *slot = Some(n);
            },
            None => {},
        }
        i = i + 1;
    }
}

/// Reads the sibling link of the node in slot `i`.
pub(crate) fn sib_of<T>(arena: &Vec<Option<Node<T>>>, i: usize) -> (s: usize)
    requires
        i < arena.len(),
        arena@[i as int] is Some,
    ensures
        s == arena@[i as int]->0.sib,
{
    arena[i].as_ref().unwrap().sib
}

/// Rewrites the sibling link of the node in slot `i`, leaving its payload
/// and child forest as they were.
fn set_sib<T>(arena: &mut Vec<Option<Node<T>>>, i: usize, s: usize)
    requires
        i < old(arena).len(),
        old(arena)@[i as int] is Some,
    ensures
        final(arena)@.len() == old(arena)@.len(),
        final(arena)@[i as int] is Some,
        final(arena)@[i as int]->0.sib == s,
        final(arena)@[i as int]->0.data == old(arena)@[i as int]->0.data,
        final(arena)@[i as int]->0.sub == old(arena)@[i as int]->0.sub,
        forall|j: int| 0 <= j < old(arena)@.len() && j != i ==> final(arena)@[j] == old(arena)@[j],
{
    let slot = &mut arena[i];
    let mut n = slot.take().unwrap();
    n.sib = s;
    *slot = Some(n);
}

impl<T> View for Node<T> {
    type V = Tree<T>;

    /// A node's abstract value: the tree it roots.
    closed spec fn view(&self) -> Tree<T> {
        Tree { data: self.data, sub: self.sub }
    }
}

impl<T> View for Forest<T> {
    type V = Seq<Tree<T>>;

    /// The forest's children as tree values, in chain order.
    closed spec fn view(&self) -> Seq<Tree<T>> {
        self.order@.map_values(
            |i: usize| Tree { data: self.arena@[i as int]->0.data, sub: self.arena@[i as int]->0.sub },
        )
    }
}

/// A cursor over a forest's children: a single forward traversal of the
/// sibling chain that can splice new siblings in, or detach the current
/// subtree, at each position.  It keeps the indices the chain itself cannot
/// give back in O(1): the node last yielded (`curr`), the node to yield
/// next (`next`), their predecessors (`prev`, `pnext`), and a fixed mark
/// (the tail at creation) whose yielding ends the traversal, so that the
/// circular chain is walked exactly once.  Siblings inserted during the
/// traversal are never yielded by it.
///
/// A cursor is bound to the forest it was created from: every method
/// requires `wf` against that forest's current state, so a well-formed use
/// mutates the forest only through this cursor while it is live.
pub struct OntoIter {
    pub(crate) curr: usize,
    pub(crate) next: usize,
    pub(crate) prev: usize,
    pub(crate) pnext: usize,
    pub(crate) mark: usize,
    pub(crate) left: Ghost<Seq<usize>>,
    pub(crate) jpos: Ghost<int>,
}

/// The handle a cursor yields for one position; it ties insertions and
/// detachment to the node the cursor is on.
pub struct Subnode {
    pub(crate) curr: usize,
}

impl Subnode {
    /// True iff this handle is the one the cursor is currently on.
    pub closed spec fn is_at(self, it: OntoIter) -> bool {
        self.curr == it.curr
    }
}

impl OntoIter {
    /// How many of the chain's nodes the traversal has still to yield.
    /// Nodes inserted through the cursor do not count: they are not
    /// yielded by this traversal.
    pub closed spec fn remaining(self) -> nat {
        self.left@.len()
    }

    /// The position, in the forest's current child sequence, of the node
    /// the cursor is on.
    pub closed spec fn position(self) -> int {
        self.jpos@
    }

    /// True iff the cursor is on a node of `f`'s chain: a node has been
    /// yielded and has not been detached.
    pub closed spec fn on_node<T>(self, f: Forest<T>) -> bool {
        self.curr != NIL && f.order@.contains(self.curr)
    }

    /// The cursor's agreement with the forest it traverses: what is left
    /// to yield is a suffix of the chain, `next`/`pnext` frame that
    /// suffix, and when the cursor is on a node, `prev` is that node's
    /// predecessor in the cycle.
    pub closed spec fn wf<T>(self, f: Forest<T>) -> bool {
        let ord = f.order@;
        let n = ord.len() as int;
        let m = self.left@.len() as int;
        &&& m <= n
        &&& self.left@ == ord.skip(n - m)
        &&& (m > 0 ==> self.next == ord[n - m] && self.mark == f.tail && self.pnext == ord[
            pred_pos(n, n - m)
        ])
        &&& if self.curr == NIL {
            m == n && (n == 0 ==> self.next == NIL)
        } else if ord.contains(self.curr) {
            &&& 0 <= self.jpos@ <= n - m - 1
            &&& ord[self.jpos@] == self.curr
            &&& self.prev == ord[pred_pos(n, self.jpos@)]
            &&& (m == 0 ==> self.curr == self.mark)
        } else {
            m == 0 ==> self.curr == self.mark
        }
    }

    /// Steps the cursor to the next not-yet-yielded node and returns a
    /// handle on it, or `None` once every node that was in the chain when
    /// the cursor was made (and was not detached first) has been yielded.
    pub fn next<T>(&mut self, f: &Forest<T>) -> (r: Option<Subnode>)
        requires
            old(self).wf(*f),
        ensures
            final(self).wf(*f),
            old(self).remaining() == 0 ==> r is None && *final(self) == *old(self),
            old(self).remaining() > 0 ==> (r matches Some(sn) && sn.is_at(*final(self)))
                && final(self).remaining() == old(self).remaining() - 1 && final(self).position()
                == f@.len() - old(self).remaining() && final(self).on_node(*f),
    {
        proof {
            use_type_invariant(f);
        }
        let ghost ord = f.order@;
        let ghost n = ord.len() as int;
        let ghost m = self.left@.len() as int;
        if self.next == NIL {
            proof {
                if m > 0 {
                    assert(ord[n - m] < f.arena@.len());
                }
            }
            return None;
        }
        if self.curr != NIL && (self.curr == self.mark || self.curr == self.next) {
            proof {
                if m > 0 {
                    assert(ord[n - 1] == f.tail);
                    if ord.contains(self.curr) {
                        assert(ord[self.jpos@] == self.curr);
                        if self.curr == self.mark {
                            assert(ord[self.jpos@] == ord[n - 1]);
                            assert(self.jpos@ < n - 1);
                        }
                        if self.curr == self.next {
                            assert(ord[self.jpos@] == ord[n - m]);
                            assert(self.jpos@ < n - m);
                        }
                    } else {
                        assert(ord.contains(ord[n - 1]));
                        assert(ord.contains(ord[n - m]));
                    }
                }
            }
            return None;
        }
        proof {
            if m == 0 {
                if self.curr == NIL {
                    assert(n == 0);
                    assert(self.next == NIL);
                }
                assert(false);
            }
            assert(ord[n - m] < f.arena@.len());
            assert(f.arena@[ord[n - m] as int] is Some) by {
                assert(ord.contains(ord[n - m]));
            }
        }
        let x = self.next;
        self.prev = self.pnext;
        self.pnext = x;
        self.curr = x;
        self.next = sib_of(&f.arena, x);
        self.left = Ghost(self.left@.skip(1));
        self.jpos = Ghost(n - m);
        proof {
            assert(f.node_at(ord[n - m] as int).sib == ord[nxt_pos(n, n - m)]);
            assert(self.left@ =~= ord.skip(n - (m - 1)));
            let m2 = m - 1;
            if m2 > 0 {
                assert(nxt_pos(n, n - m) == n - m2);
                assert(self.pnext == ord[pred_pos(n, n - m2)]);
            }
            assert(ord.contains(self.curr)) by {
                assert(ord[n - m] == self.curr);
            }
            if m2 == 0 {
                assert(self.curr == ord[n - 1]);
                assert(self.mark == f.tail);
            }
            assert(self.wf(*f));
        }
        Some(Subnode { curr: x })
    }
}

impl Subnode {
    /// Read access to the node this handle is on.
    pub fn get<'a, T>(&self, it: &OntoIter, f: &'a Forest<T>) -> (r: &'a Node<T>)
        requires
            it.wf(*f),
            it.on_node(*f),
            self.is_at(*it),
        ensures
            0 <= it.position() < f@.len(),
            r@ == f@[it.position()],
    {
        proof {
            use_type_invariant(f);
            assert(f.order@[it.jpos@] == self.curr);
        }
        f.arena[self.curr].as_ref().unwrap()
    }

    /// Swaps `data` in as the payload of the node this handle is on and
    /// returns the payload that was there.  The node's subtrees and the
    /// chain are untouched; the running traversal is unaffected.
    pub fn replace<T>(&self, it: &OntoIter, f: &mut Forest<T>, data: T) -> (r: T)
        requires
            it.wf(*old(f)),
            it.on_node(*old(f)),
            self.is_at(*it),
        ensures
            r == old(f)@[it.position()].data,
            final(f)@ == old(f)@.update(
                it.position(),
                (Tree { data: data, sub: old(f)@[it.position()].sub }),
            ),
            it.wf(*final(f)),
            it.on_node(*final(f)),
    {
        proof {
            use_type_invariant(&*f);
        }
        let ghost oldf = *old(f);
        let ghost ord = oldf.order@;
        let ghost n = ord.len() as int;
        let ghost jp = it.jpos@;
        let mut work = Forest::new();
        core::mem::swap(f, &mut work);
        let Forest { mut arena, tail, order } = work;
        proof {
            assert(ord[jp] == self.curr);
            assert(arena@[ord[jp] as int] is Some) by {
                assert(ord.contains(ord[jp]));
            }
        }
        let slot = &mut arena[self.curr];
        let mut nd = slot.take().unwrap();
        let r = nd.data;
        nd.data = data;
        *slot = Some(nd);
        proof {
            let cand = Forest { arena: arena, tail: tail, order: order };
            assert forall|i: int| 0 <= i < cand.arena@.len() implies ((#[trigger] cand.arena@[i])
                is Some <==> ord.contains(i as usize)) by {
                if i != self.curr {
                    assert(cand.arena@[i] == oldf.arena@[i]);
                }
            }
            assert forall|k: int|
                0 <= k < ord.len() implies (#[trigger] cand.node_at(ord[k] as int)).sib == ord[
                nxt_pos(n, k)] by {
                if ord[k] != self.curr {
                    assert(cand.arena@[ord[k] as int] == oldf.arena@[ord[k] as int]);
                }
                assert(oldf.node_at(ord[k] as int).sib == ord[nxt_pos(n, k)]);
            }
            assert(cand.wf());
        }
        *f = Forest { arena, tail, order };
        proof {
            assert(f@ =~= oldf@.update(jp, (Tree { data: data, sub: oldf@[jp].sub })));
            assert(f.order@.contains(it.curr)) by {
                assert(f.order@[jp] == it.curr);
            }
        }
        r
    }

    /// Splices `sib`'s root in immediately before the node this handle is
    /// on.  The inserted node is not yielded by the running traversal.  If
    /// the current node was the head, the inserted node becomes the new
    /// head; the tail never changes here.
    pub fn insert_before<T>(&self, it: &mut OntoIter, f: &mut Forest<T>, sib: Tree<T>)
        requires
            old(it).wf(*old(f)),
            old(it).on_node(*old(f)),
            self.is_at(*old(it)),
        ensures
            final(f)@ == old(f)@.insert(old(it).position(), sib),
            final(it).wf(*final(f)),
            final(it).on_node(*final(f)),
            self.is_at(*final(it)),
            final(it).remaining() == old(it).remaining(),
            final(it).position() == old(it).position() + 1,
    {
        proof {
            use_type_invariant(&*f);
        }
        let ghost oldf = *old(f);
        let ghost ord = oldf.order@;
        let ghost n = ord.len() as int;
        let ghost m = it.left@.len() as int;
        let ghost jp = it.jpos@;
        let mut work = Forest::new();
        core::mem::swap(f, &mut work);
        let Forest { mut arena, tail, order } = work;
        proof {
            assert(ord[jp] == it.curr);
            assert(ord.contains(ord[pred_pos(n, jp)]));
        }
        let idx = alloc_slot(&mut arena, Node { data: sib.data, sub: sib.sub, sib: it.curr });
        set_sib(&mut arena, it.prev, idx);
        let ghost new_ord: Seq<usize> = ord.insert(jp, idx);
        proof {
            let cand = Forest { arena: arena, tail: tail, order: Ghost(new_ord) };
            let nn = n + 1;
            assert(new_ord.len() == nn);
            assert forall|k: int| 0 <= k < nn implies #[trigger] new_ord[k] == (if k < jp {
                ord[k]
            } else if k == jp {
                idx
            } else {
                ord[k - 1]
            }) by {}
            assert(new_ord[nn - 1] == ord[n - 1]);
            assert forall|i: int| 0 <= i < cand.arena@.len() implies ((#[trigger] cand.arena@[i])
                is Some <==> new_ord.contains(i as usize)) by {
                if i == idx {
                    assert(new_ord[jp] == idx);
                } else {
                    assert(cand.arena@[i] is Some <==> oldf.arena@[i] is Some);
                    if ord.contains(i as usize) {
                        let j = choose|j: int| 0 <= j < n && ord[j] == i as usize;
                        if j < jp {
                            assert(new_ord[j] == i as usize);
                        } else {
                            assert(new_ord[j + 1] == i as usize);
                        }
                    }
                    if new_ord.contains(i as usize) {
                        let j = choose|j: int| 0 <= j < nn && new_ord[j] == i as usize;
                        if j < jp {
                            assert(ord[j] == i as usize);
                        } else {
                            assert(j != jp);
                            assert(ord[j - 1] == i as usize);
                        }
                    }
                }
            }
            let prv = it.prev;
            assert forall|k: int|
                0 <= k < nn implies (#[trigger] cand.node_at(new_ord[k] as int)).sib == new_ord[
                nxt_pos(nn, k)] by {
                if new_ord[k] == idx {
                    assert(k == jp) by {
                        if k < jp {
                            assert(ord[k] < oldf.arena@.len());
                        } else if k > jp {
                            assert(ord[k - 1] < oldf.arena@.len());
                        }
                    }
                    assert(cand.arena@[idx as int]->0.sib == it.curr);
                    assert(new_ord[nxt_pos(nn, jp)] == ord[jp]);
                } else if new_ord[k] == prv {
                    assert(cand.arena@[prv as int]->0.sib == idx);
                    if jp == 0 {
                        assert(prv == ord[n - 1]);
                        assert(k == nn - 1) by {
                            if k < jp {
                            } else if k == jp {
                            } else if k < nn - 1 {
                                assert(ord[k - 1] != ord[n - 1]);
                            }
                        }
                        assert(new_ord[nxt_pos(nn, k)] == new_ord[0]);
                        assert(new_ord[0] == idx);
                    } else {
                        assert(prv == ord[jp - 1]);
                        assert(k == jp - 1) by {
                            if k < jp && k != jp - 1 {
                                assert(ord[k] != ord[jp - 1]);
                            } else if k > jp {
                                assert(ord[k - 1] != ord[jp - 1]);
                            }
                        }
                        assert(new_ord[nxt_pos(nn, k)] == idx);
                    }
                } else {
                    let j = if k < jp {
                        k
                    } else {
                        k - 1
                    };
                    assert(new_ord[k] == ord[j]);
                    assert(ord[j] != prv);
                    assert(j != pred_pos(n, jp)) by {
                        if j == pred_pos(n, jp) {
                            assert(ord[j] == prv);
                        }
                    }
                    assert(cand.arena@[ord[j] as int] == oldf.arena@[ord[j] as int]);
                    assert(oldf.node_at(ord[j] as int).sib == ord[nxt_pos(n, j)]);
                    if j == n - 1 {
                        assert(jp != 0);
                        assert(k == nn - 1);
                        assert(ord[nxt_pos(n, j)] == ord[0]);
                        assert(new_ord[nxt_pos(nn, k)] == new_ord[0]);
                        assert(new_ord[0] == ord[0]);
                    } else {
                        assert(ord[nxt_pos(n, j)] == ord[j + 1]);
                        if j + 1 < jp {
                            assert(new_ord[k + 1] == ord[j + 1]);
                        } else {
                            assert(j + 1 > jp || j + 1 == jp);
                            if j + 1 == jp {
                                assert(k + 1 == jp);
                                assert(new_ord[jp] == idx);
                                assert(ord[j + 1] == it.curr);
                                assert(cand.arena@[ord[j] as int]->0.sib == it.curr);
                                assert(ord[j] == prv);
                                assert(false);
                            } else {
                                assert(new_ord[k + 1] == ord[j + 1]) by {
                                    assert(k + 1 > jp);
                                }
                            }
                        }
                    }
                }
            }
            assert forall|k1: int, k2: int| 0 <= k1 < k2 < nn implies new_ord[k1] != new_ord[k2] by {
                if new_ord[k1] == idx || new_ord[k2] == idx {
                } else {
                    let j1 = if k1 < jp { k1 } else { k1 - 1 };
                    let j2 = if k2 < jp { k2 } else { k2 - 1 };
                    if j1 < j2 {
                        assert(ord[j1] != ord[j2]);
                    } else {
                        assert(j1 == j2);
                        assert(k1 == jp || k2 == jp);
                        assert(new_ord[jp] == idx);
                    }
                }
            }
            assert(cand.wf());
        }
        *f = Forest { arena, tail, order: Ghost(new_ord) };
        it.prev = idx;
        it.jpos = Ghost(jp + 1);
        proof {
            assert(f@ =~= old(f)@.insert(jp, sib)) by {
                assert forall|k: int| 0 <= k < n + 1 implies f@[k] == old(f)@.insert(jp, sib)[k] by {
                    if k < jp {
                        assert(new_ord[k] == ord[k]);
                        assert(ord[k] < oldf.arena@.len());
                        assert(ord[k] != it.prev || true);
                    } else if k > jp {
                        assert(new_ord[k] == ord[k - 1]);
                        assert(ord[k - 1] < oldf.arena@.len());
                    }
                }
            }
            // the cursor still frames the same suffix of not-yet-yielded nodes
            assert(it.left@ =~= f.order@.skip(n + 1 - m)) by {
                assert forall|k: int| 0 <= k < m implies it.left@[k] == f.order@[n + 1 - m + k] by {
                    assert(it.left@[k] == ord[n - m + k]);
                    assert(n - m + k >= jp);
                    assert(new_ord[n + 1 - m + k] == ord[n - m + k]);
                }
            }
            if m > 0 {
                assert(f.order@[n + 1 - m] == ord[n - m]);
                assert(f.order@[pred_pos(n + 1, n + 1 - m)] == ord[pred_pos(n, n - m)]) by {
                    assert(n - m >= jp + 1);
                    assert(pred_pos(n, n - m) == n - m - 1);
                    assert(n - m - 1 >= jp);
                    assert(new_ord[n - m] == ord[n - m - 1]);
                }
            }
            assert(f.order@.contains(it.curr)) by {
                assert(f.order@[jp + 1] == it.curr);
            }
            assert(it.prev == f.order@[pred_pos(n + 1, jp + 1)]);
            assert(it.wf(*f));
        }
    }
}

impl Subnode {
    /// Splices `sib`'s root in immediately after the node this handle is
    /// on.  The inserted node is not yielded by the running traversal: the
    /// cursor's next step is unaffected.  If the current node was the
    /// tail, the inserted node becomes the new tail.
    pub fn insert_after<T>(&self, it: &mut OntoIter, f: &mut Forest<T>, sib: Tree<T>)
        requires
            old(it).wf(*old(f)),
            old(it).on_node(*old(f)),
            self.is_at(*old(it)),
        ensures
            final(f)@ == old(f)@.insert(old(it).position() + 1, sib),
            final(it).wf(*final(f)),
            final(it).on_node(*final(f)),
            self.is_at(*final(it)),
            final(it).remaining() == old(it).remaining(),
            final(it).position() == old(it).position(),
    {
        proof {
            use_type_invariant(&*f);
        }
        let ghost oldf = *old(f);
        let ghost ord = oldf.order@;
        let ghost n = ord.len() as int;
        let ghost m = it.left@.len() as int;
        let ghost jp = it.jpos@;
        let mut work = Forest::new();
        core::mem::swap(f, &mut work);
        let Forest { mut arena, tail, order } = work;
        proof {
            assert(ord[jp] == it.curr);
            assert(oldf.node_at(ord[jp] as int).sib == ord[nxt_pos(n, jp)]);
        }
        let csib = sib_of(&arena, it.curr);
        let idx = alloc_slot(&mut arena, Node { data: sib.data, sub: sib.sub, sib: csib });
        set_sib(&mut arena, it.curr, idx);
        let new_tail = if tail == it.curr {
            idx
        } else {
            tail
        };
        let ghost new_ord: Seq<usize> = ord.insert(jp + 1, idx);
        proof {
            let cand = Forest { arena: arena, tail: new_tail, order: Ghost(new_ord) };
            let nn = n + 1;
            let cu = it.curr;
            assert forall|k: int| 0 <= k < nn implies #[trigger] new_ord[k] == (if k < jp + 1 {
                ord[k]
            } else if k == jp + 1 {
                idx
            } else {
                ord[k - 1]
            }) by {}
            if tail == cu {
                assert(ord[jp] == ord[n - 1]);
                assert(jp == n - 1) by {
                    if jp < n - 1 {
                        assert(ord[jp] != ord[n - 1]);
                    }
                }
                assert(new_ord[nn - 1] == idx);
            } else {
                assert(jp != n - 1) by {
                    if jp == n - 1 {
                        assert(ord[jp] == tail);
                    }
                }
                assert(new_ord[nn - 1] == ord[n - 1]);
            }
            assert forall|i: int| 0 <= i < cand.arena@.len() implies ((#[trigger] cand.arena@[i])
                is Some <==> new_ord.contains(i as usize)) by {
                if i == idx {
                    assert(new_ord[jp + 1] == idx);
                } else {
                    assert(cand.arena@[i] is Some <==> oldf.arena@[i] is Some);
                    if ord.contains(i as usize) {
                        let j = choose|j: int| 0 <= j < n && ord[j] == i as usize;
                        if j < jp + 1 {
                            assert(new_ord[j] == i as usize);
                        } else {
                            assert(new_ord[j + 1] == i as usize);
                        }
                    }
                    if new_ord.contains(i as usize) {
                        let j = choose|j: int| 0 <= j < nn && new_ord[j] == i as usize;
                        if j < jp + 1 {
                            assert(ord[j] == i as usize);
                        } else {
                            assert(j != jp + 1);
                            assert(ord[j - 1] == i as usize);
                        }
                    }
                }
            }
            assert forall|k: int|
                0 <= k < nn implies (#[trigger] cand.node_at(new_ord[k] as int)).sib == new_ord[
                nxt_pos(nn, k)] by {
                if new_ord[k] == idx {
                    assert(k == jp + 1) by {
                        if k < jp + 1 {
                            assert(ord[k] < oldf.arena@.len());
                        } else if k > jp + 1 {
                            assert(ord[k - 1] < oldf.arena@.len());
                        }
                    }
                    assert(cand.arena@[idx as int]->0.sib == csib);
                    assert(csib == ord[nxt_pos(n, jp)]);
                    if jp == n - 1 {
                        assert(csib == ord[0]);
                        assert(k == nn - 1);
                        assert(new_ord[nxt_pos(nn, k)] == new_ord[0]);
                        assert(new_ord[0] == ord[0]);
                    } else {
                        assert(csib == ord[jp + 1]);
                        assert(new_ord[k + 1] == ord[jp + 1]);
                    }
                } else if new_ord[k] == cu {
                    assert(k == jp) by {
                        if k < jp + 1 && k != jp {
                            assert(ord[k] != ord[jp]);
                        } else if k > jp + 1 {
                            assert(ord[k - 1] != ord[jp]);
                        }
                    }
                    assert(cand.arena@[cu as int]->0.sib == idx);
                    assert(new_ord[jp + 1] == idx);
                } else {
                    let j = if k < jp + 1 {
                        k
                    } else {
                        k - 1
                    };
                    assert(new_ord[k] == ord[j]);
                    assert(ord[j] != cu);
                    assert(j != jp);
                    assert(cand.arena@[ord[j] as int] == oldf.arena@[ord[j] as int]);
                    assert(oldf.node_at(ord[j] as int).sib == ord[nxt_pos(n, j)]);
                    if j == n - 1 {
                        assert(jp != n - 1);
                        assert(k == nn - 1);
                        assert(ord[nxt_pos(n, j)] == ord[0]);
                        assert(new_ord[nxt_pos(nn, k)] == new_ord[0]);
                        assert(new_ord[0] == ord[0]);
                    } else {
                        assert(ord[nxt_pos(n, j)] == ord[j + 1]);
                        if j + 1 < jp + 1 {
                            assert(new_ord[k + 1] == ord[j + 1]);
                        } else {
                            assert(j + 1 != jp + 1);
                            assert(k + 1 > jp + 1);
                            assert(new_ord[k + 1] == ord[k]);
                        }
                    }
                }
            }
            assert forall|k1: int, k2: int| 0 <= k1 < k2 < nn implies new_ord[k1] != new_ord[k2] by {
                if new_ord[k1] == idx || new_ord[k2] == idx {
                } else {
                    let j1 = if k1 < jp + 1 { k1 } else { k1 - 1 };
                    let j2 = if k2 < jp + 1 { k2 } else { k2 - 1 };
                    if j1 < j2 {
                        assert(ord[j1] != ord[j2]);
                    } else {
                        assert(j1 == j2);
                        assert(k1 == jp + 1 || k2 == jp + 1);
                        assert(new_ord[jp + 1] == idx);
                    }
                }
            }
            assert(cand.wf());
        }
        *f = Forest { arena, tail: new_tail, order: Ghost(new_ord) };
        if it.pnext == it.curr {
            it.pnext = idx;
        }
        if it.prev == it.curr {
            it.prev = idx;
        }
        proof {
            assert(f@ =~= old(f)@.insert(jp + 1, sib)) by {
                assert forall|k: int|
                    0 <= k < n + 1 implies f@[k] == old(f)@.insert(jp + 1, sib)[k] by {
                    if k < jp + 1 {
                        assert(new_ord[k] == ord[k]);
                        assert(ord[k] < oldf.arena@.len());
                    } else if k > jp + 1 {
                        assert(new_ord[k] == ord[k - 1]);
                        assert(ord[k - 1] < oldf.arena@.len());
                    }
                }
            }
            assert(it.left@ =~= f.order@.skip(n + 1 - m)) by {
                assert forall|k: int| 0 <= k < m implies it.left@[k] == f.order@[n + 1 - m + k] by {
                    assert(it.left@[k] == ord[n - m + k]);
                    assert(n - m + k >= jp + 1);
                    assert(new_ord[n + 1 - m + k] == ord[n - m + k]);
                }
            }
            if m > 0 {
                assert(jp <= n - m - 1);
                assert(f.tail == oldf.tail) by {
                    assert(jp < n - 1);
                }
                assert(f.order@[n + 1 - m] == ord[n - m]) by {
                    assert(n - m >= jp + 1);
                }
                if pred_pos(n, n - m) == jp {
                    assert(old(it).pnext == it.curr);
                    assert(it.pnext == idx);
                    assert(f.order@[pred_pos(n + 1, n + 1 - m)] == idx) by {
                        assert(n - m - 1 == jp);
                        assert(pred_pos(n + 1, n + 1 - m) == n - m);
                        assert(new_ord[n - m] == idx);
                    }
                } else {
                    assert(old(it).pnext != it.curr) by {
                        assert(n - m >= 1);
                        assert(pred_pos(n, n - m) == n - m - 1);
                        if ord[n - m - 1] == ord[jp] {
                            assert(n - m - 1 == jp);
                        }
                    }
                    assert(f.order@[pred_pos(n + 1, n + 1 - m)] == ord[n - m - 1]) by {
                        assert(n - m - 1 >= jp + 1);
                        assert(new_ord[n - m] == ord[n - m - 1]);
                    }
                }
            }
            assert(f.order@.contains(it.curr)) by {
                assert(f.order@[jp] == it.curr);
            }
            assert(it.prev == f.order@[pred_pos(n + 1, jp)]) by {
                if jp == 0 {
                    if n == 1 {
                        assert(old(it).prev == ord[0]);
                        assert(new_ord[1] == idx);
                    } else {
                        assert(old(it).prev == ord[n - 1]);
                        assert(ord[n - 1] != it.curr);
                        assert(n - 1 >= jp + 1);
                        assert(new_ord[n] == ord[n - 1]);
                    }
                } else {
                    assert(old(it).prev == ord[jp - 1]);
                    assert(ord[jp - 1] != it.curr);
                    assert(new_ord[jp - 1] == ord[jp - 1]);
                }
            }
            if m == 0 {
                assert(it.curr == it.mark);
            }
            assert(it.wf(*f));
        }
    }

    /// Unlinks the node this handle is on and returns it as an owned
    /// tree.  The forest's remaining children keep their order; the
    /// traversal goes on with the node that was next.  Consumes the
    /// handle: the cursor is no longer on a node afterwards.
    pub fn depart<T>(self, it: &mut OntoIter, f: &mut Forest<T>) -> (t: Tree<T>)
        requires
            old(it).wf(*old(f)),
            old(it).on_node(*old(f)),
            self.is_at(*old(it)),
        ensures
            t == old(f)@[old(it).position()],
            final(f)@ == old(f)@.remove(old(it).position()),
            final(it).wf(*final(f)),
            !final(it).on_node(*final(f)),
            final(it).remaining() == old(it).remaining(),
    {
        proof {
            use_type_invariant(&*f);
        }
        let ghost oldf = *old(f);
        let ghost ord = oldf.order@;
        let ghost n = ord.len() as int;
        let ghost m = it.left@.len() as int;
        let ghost jp = it.jpos@;
        let mut work = Forest::new();
        core::mem::swap(f, &mut work);
        let Forest { mut arena, tail, order } = work;
        proof {
            assert(ord[jp] == it.curr);
            assert(oldf.node_at(ord[jp] as int).sib == ord[nxt_pos(n, jp)]);
            assert(ord.contains(ord[pred_pos(n, jp)]));
        }
        let cu = it.curr;
        let slot = &mut arena[cu];
        let nd = slot.take().unwrap();
        let csib = nd.sib;
        let sole = it.prev == cu;
        proof {
            if it.prev == cu {
                assert(ord[pred_pos(n, jp)] == ord[jp]);
                assert(pred_pos(n, jp) == jp);
                assert(n == 1 && jp == 0) by {
                    if jp == 0 {
                        assert(pred_pos(n, 0) == n - 1);
                    }
                }
            }
            if n == 1 {
                assert(jp == 0);
                assert(pred_pos(n, jp) == 0);
                assert(it.prev == cu);
            }
        }
        if !sole {
            set_sib(&mut arena, it.prev, csib);
        }
        let new_tail = if cu == tail {
            if sole {
                NIL
            } else {
                it.prev
            }
        } else {
            tail
        };
        let ghost new_ord: Seq<usize> = ord.remove(jp);
        proof {
            let cand = Forest { arena: arena, tail: new_tail, order: Ghost(new_ord) };
            let nn = n - 1;
            let prv = it.prev;
            assert forall|k: int| 0 <= k < nn implies #[trigger] new_ord[k] == (if k < jp {
                ord[k]
            } else {
                ord[k + 1]
            }) by {}
            assert forall|k: int| 0 <= k < nn implies new_ord[k] != cu by {
                if k < jp {
                    assert(ord[k] != ord[jp]);
                } else {
                    assert(ord[k + 1] != ord[jp]);
                }
            }
            if cu == tail {
                assert(jp == n - 1) by {
                    if jp < n - 1 {
                        assert(ord[jp] != ord[n - 1]);
                    }
                }
                if !sole {
                    assert(new_ord[nn - 1] == ord[n - 2]);
                    assert(prv == ord[n - 2]);
                }
            } else {
                assert(jp != n - 1);
                assert(new_ord[nn - 1] == ord[n - 1]);
            }
            assert forall|i: int| 0 <= i < cand.arena@.len() implies ((#[trigger] cand.arena@[i])
                is Some <==> new_ord.contains(i as usize)) by {
                if i == cu {
                    assert(!(cand.arena@[i] is Some));
                    if new_ord.contains(i as usize) {
                        let j = choose|j: int| 0 <= j < nn && new_ord[j] == i as usize;
                        assert(new_ord[j] != cu);
                        assert(false);
                    }
                } else {
                    assert(cand.arena@[i] is Some <==> oldf.arena@[i] is Some);
                    if ord.contains(i as usize) {
                        let j = choose|j: int| 0 <= j < n && ord[j] == i as usize;
                        assert(j != jp);
                        if j < jp {
                            assert(new_ord[j] == i as usize);
                        } else {
                            assert(new_ord[j - 1] == i as usize);
                        }
                    }
                    if new_ord.contains(i as usize) {
                        let j = choose|j: int| 0 <= j < nn && new_ord[j] == i as usize;
                        if j < jp {
                            assert(ord[j] == i as usize);
                        } else {
                            assert(ord[j + 1] == i as usize);
                        }
                    }
                }
            }
            assert forall|k: int|
                0 <= k < nn implies (#[trigger] cand.node_at(new_ord[k] as int)).sib == new_ord[
                nxt_pos(nn, k)] by {
                if new_ord[k] == prv {
                    assert(cand.arena@[prv as int]->0.sib == csib);
                    assert(csib == ord[nxt_pos(n, jp)]);
                    if jp == 0 {
                        assert(prv == ord[n - 1]);
                        assert(k == nn - 1) by {
                            if k < nn - 1 {
                                assert(new_ord[k] == (if k < 0 { ord[k] } else { ord[k + 1] }));
                                assert(ord[k + 1] != ord[n - 1]);
                            }
                        }
                        assert(csib == ord[1]);
                        assert(new_ord[nxt_pos(nn, k)] == new_ord[0]);
                        assert(new_ord[0] == ord[1]);
                    } else {
                        assert(prv == ord[jp - 1]);
                        assert(k == jp - 1) by {
                            if k < jp && k != jp - 1 {
                                assert(ord[k] != ord[jp - 1]);
                            } else if k >= jp {
                                assert(ord[k + 1] != ord[jp - 1]);
                            }
                        }
                        if jp == n - 1 {
                            assert(csib == ord[0]);
                            assert(k == nn - 1);
                            assert(new_ord[nxt_pos(nn, k)] == new_ord[0]);
                            assert(new_ord[0] == ord[0]);
                        } else {
                            assert(csib == ord[jp + 1]);
                            assert(new_ord[k + 1] == ord[jp + 1]);
                        }
                    }
                } else {
                    let j = if k < jp {
                        k
                    } else {
                        k + 1
                    };
                    assert(new_ord[k] == ord[j]);
                    assert(j != jp);
                    assert(j != pred_pos(n, jp)) by {
                        if j == pred_pos(n, jp) {
                            assert(ord[j] == prv);
                        }
                    }
                    assert(cand.arena@[ord[j] as int] == oldf.arena@[ord[j] as int]);
                    assert(oldf.node_at(ord[j] as int).sib == ord[nxt_pos(n, j)]);
                    if j == n - 1 {
                        assert(jp != n - 1) by {
                            if jp == n - 1 {
                                assert(pred_pos(n, jp) == n - 2 || n == 1);
                                assert(j == jp || j == pred_pos(n, jp) || n == 1);
                            }
                        }
                        assert(k == nn - 1);
                        assert(ord[nxt_pos(n, j)] == ord[0]);
                        assert(jp != 0) by {
                            if jp == 0 {
                                assert(pred_pos(n, 0) == n - 1);
                                assert(j == pred_pos(n, jp));
                            }
                        }
                        assert(new_ord[nxt_pos(nn, k)] == new_ord[0]);
                        assert(new_ord[0] == ord[0]);
                    } else {
                        assert(ord[nxt_pos(n, j)] == ord[j + 1]);
                        assert(j + 1 != jp) by {
                            if j + 1 == jp {
                                assert(j == pred_pos(n, jp));
                            }
                        }
                        if j + 1 < jp {
                            assert(new_ord[k + 1] == ord[j + 1]);
                        } else {
                            assert(new_ord[k + 1] == ord[k + 2]);
                        }
                    }
                }
            }
            assert forall|k1: int, k2: int| 0 <= k1 < k2 < nn implies new_ord[k1] != new_ord[k2] by {
                let j1 = if k1 < jp { k1 } else { k1 + 1 };
                let j2 = if k2 < jp { k2 } else { k2 + 1 };
                assert(ord[j1] != ord[j2]);
            }
            assert(cand.wf());
        }
        *f = Forest { arena, tail: new_tail, order: Ghost(new_ord) };
        if it.pnext == cu {
            it.pnext = it.prev;
        }
        proof {
            assert(f@ =~= old(f)@.remove(jp)) by {
                assert forall|k: int| 0 <= k < n - 1 implies f@[k] == old(f)@.remove(jp)[k] by {
                    if k < jp {
                        assert(new_ord[k] == ord[k]);
                        assert(ord[k] < oldf.arena@.len());
                    } else {
                        assert(new_ord[k] == ord[k + 1]);
                        assert(ord[k + 1] < oldf.arena@.len());
                    }
                }
            }
            assert(old(f)@[jp].data == nd.data && old(f)@[jp].sub == nd.sub);
            assert(it.left@ =~= f.order@.skip(n - 1 - m)) by {
                assert forall|k: int| 0 <= k < m implies it.left@[k] == f.order@[n - 1 - m + k] by {
                    assert(it.left@[k] == ord[n - m + k]);
                    assert(n - m + k > jp);
                    assert(new_ord[n - 1 - m + k] == ord[n - m + k]);
                }
            }
            if m > 0 {
                assert(jp <= n - m - 1);
                assert(f.tail == oldf.tail) by {
                    assert(jp < n - 1);
                }
                assert(f.order@[n - 1 - m] == ord[n - m]) by {
                    assert(n - m > jp);
                }
                if pred_pos(n, n - m) == jp {
                    assert(old(it).pnext == cu);
                    assert(it.pnext == old(it).prev);
                    assert(n - m - 1 == jp) by {
                        assert(n - m >= 1);
                    }
                    assert(f.order@[pred_pos(n - 1, n - 1 - m)] == it.pnext) by {
                        if jp == 0 {
                            assert(n - 1 - m == 0);
                            assert(pred_pos(n - 1, 0) == n - 2);
                            assert(old(it).prev == ord[n - 1]);
                            assert(new_ord[n - 2] == ord[n - 1]);
                        } else {
                            assert(n - 1 - m > 0);
                            assert(pred_pos(n - 1, n - 1 - m) == n - m - 2);
                            assert(old(it).prev == ord[jp - 1]);
                            assert(n - m - 2 == jp - 1);
                            assert(new_ord[jp - 1] == ord[jp - 1]);
                        }
                    }
                } else {
                    assert(old(it).pnext != cu) by {
                        assert(n - m >= 1);
                        assert(pred_pos(n, n - m) == n - m - 1);
                        if ord[n - m - 1] == ord[jp] {
                            assert(n - m - 1 == jp);
                        }
                    }
                    assert(n - m - 1 != jp);
                    assert(jp < n - m - 1);
                    assert(f.order@[pred_pos(n - 1, n - 1 - m)] == it.pnext) by {
                        assert(n - 1 - m > 0) by {
                            assert(jp >= 0);
                        }
                        assert(pred_pos(n - 1, n - 1 - m) == n - m - 2);
                        assert(new_ord[n - m - 2] == ord[n - m - 1]);
                    }
                }
            }
            assert(!f.order@.contains(cu)) by {
                if f.order@.contains(cu) {
                    let j = choose|j: int| 0 <= j < n - 1 && f.order@[j] == cu;
                    if j < jp {
                        assert(ord[j] == ord[jp]);
                    } else {
                        assert(ord[j + 1] == ord[jp]);
                    }
                }
            }
            if m == 0 {
                assert(it.curr == it.mark);
            }
            assert(it.wf(*f));
        }
        Tree { data: nd.data, sub: nd.sub }
    }
}

/// A read-only forward iterator over a forest's child nodes.  It walks
/// the sibling chain from the head and stops after the tail rather than
/// looping around the cycle.
pub struct Iter {
    pub(crate) cur: usize,
    pub(crate) pos: Ghost<int>,
}

impl Iter {
    /// How many child nodes have been yielded so far.
    pub closed spec fn position(self) -> int {
        self.pos@
    }

    /// The iterator's agreement with the forest it reads: it stands on
    /// the chain entry of its position, or past the end.
    pub closed spec fn wf<T>(self, f: Forest<T>) -> bool {
        let ord = f.order@;
        let n = ord.len() as int;
        &&& 0 <= self.pos@ <= n
        &&& (self.pos@ < n ==> self.cur == ord[self.pos@])
        &&& (self.pos@ == n ==> self.cur == NIL)
    }

    /// Yields a reference to the node at the iterator's position and
    /// steps forward, or `None` after the tail has been yielded.
    pub fn next<'a, T>(&mut self, f: &'a Forest<T>) -> (r: Option<&'a Node<T>>)
        requires
            old(self).wf(*f),
        ensures
            final(self).wf(*f),
            old(self).position() == f@.len() ==> r is None && *final(self) == *old(self),
            old(self).position() < f@.len() ==> (r matches Some(nd) && nd@ == f@[old(
                self,
            ).position()]) && final(self).position() == old(self).position() + 1,
    {
        proof {
            use_type_invariant(f);
        }
        let ghost ord = f.order@;
        let ghost n = ord.len() as int;
        if self.cur == NIL {
            proof {
                if self.pos@ < n {
                    assert(ord[self.pos@] < f.arena@.len());
                }
            }
            return None;
        }
        proof {
            assert(ord[self.pos@] < f.arena@.len());
            assert(f.arena@[ord[self.pos@] as int] is Some) by {
                assert(ord.contains(ord[self.pos@]));
            }
            assert(f.node_at(ord[self.pos@] as int).sib == ord[nxt_pos(n, self.pos@)]);
            assert(ord[n - 1] == f.tail);
        }
        let nd = f.arena[self.cur].as_ref().unwrap();
        if self.cur == f.tail {
            proof {
                assert(self.pos@ == n - 1) by {
                    if self.pos@ < n - 1 {
                        assert(ord[self.pos@] != ord[n - 1]);
                    }
                }
            }
            self.cur = NIL;
        } else {
            self.cur = nd.sib;
            proof {
                assert(self.pos@ != n - 1);
                assert(nxt_pos(n, self.pos@) == self.pos@ + 1);
            }
        }
        self.pos = Ghost(self.pos@ + 1);
        Some(nd)
    }
}

/// A draining iterator over a forest's child trees, head first; each step
/// pops the forest's first child.
pub struct IntoIter<T> {
    pub(crate) forest: Forest<T>,
}

impl<T> View for IntoIter<T> {
    type V = Seq<Tree<T>>;

    /// The child trees still to be yielded.
    closed spec fn view(&self) -> Seq<Tree<T>> {
        self.forest@
    }
}

impl<T> IntoIter<T> {
    /// Yields the first remaining child tree, or `None` when drained.
    pub fn next(&mut self) -> (r: Option<Tree<T>>)
        ensures
            old(self)@.len() == 0 ==> r is None && final(self)@ == old(self)@,
            old(self)@.len() > 0 ==> r == Some(old(self)@[0]) && final(self)@ == old(self)@.skip(1),
    {
        self.forest.pop_front()
    }
}

/// A forward iterator over a forest's children that hands out mutable
/// access to each child's payload, head to tail.  The chain itself is not
/// touched: insertion and removal are the cursor's job.
pub struct IterMut {
    pub(crate) cur: usize,
    pub(crate) pos: Ghost<int>,
}

impl IterMut {
    /// How many child nodes have been yielded so far.
    pub closed spec fn position(self) -> int {
        self.pos@
    }

    /// The iterator's agreement with the forest it walks: it stands on
    /// the chain entry of its position, or past the end.
    pub closed spec fn wf<T>(self, f: Forest<T>) -> bool {
        let ord = f.order@;
        let n = ord.len() as int;
        &&& 0 <= self.pos@ <= n
        &&& (self.pos@ < n ==> self.cur == ord[self.pos@])
        &&& (self.pos@ == n ==> self.cur == NIL)
    }

    /// True iff a child remains to be yielded.
    pub fn has_next<T>(&self, f: &Forest<T>) -> (b: bool)
        requires
            self.wf(*f),
        ensures
            b == (self.position() < f@.len()),
    {
        proof {
            use_type_invariant(f);
            if self.pos@ < f.order@.len() {
                assert(f.order@[self.pos@] < f.arena@.len());
            }
        }
        self.cur != NIL
    }

    /// Swaps `data` in as the payload of the child at the iterator's
    /// position, returns the payload that was there, and steps forward.
    /// The child's own subtrees and the chain order are untouched.
    pub fn replace<T>(&mut self, f: &mut Forest<T>, data: T) -> (r: T)
        requires
            old(self).wf(*old(f)),
            old(self).position() < old(f)@.len(),
        ensures
            r == old(f)@[old(self).position()].data,
            final(f)@ == old(f)@.update(
                old(self).position(),
                (Tree { data: data, sub: old(f)@[old(self).position()].sub }),
            ),
            final(self).wf(*final(f)),
            final(self).position() == old(self).position() + 1,
    {
        proof {
            use_type_invariant(&*f);
        }
        let ghost oldf = *old(f);
        let ghost ord = oldf.order@;
        let ghost n = ord.len() as int;
        let ghost p = self.pos@;
        let mut work = Forest::new();
        core::mem::swap(f, &mut work);
        let Forest { mut arena, tail, order } = work;
        proof {
            assert(ord[p] < arena@.len());
            assert(arena@[ord[p] as int] is Some) by {
                assert(ord.contains(ord[p]));
            }
            assert(oldf.node_at(ord[p] as int).sib == ord[nxt_pos(n, p)]);
            assert(ord[n - 1] == tail);
        }
        let cur = self.cur;
        let slot = &mut arena[cur];
        let mut nd = slot.take().unwrap();
        let r = nd.data;
        nd.data = data;
        let sb = nd.sib;
        *slot = Some(nd);
        proof {
            let cand = Forest { arena: arena, tail: tail, order: order };
            assert forall|i: int| 0 <= i < cand.arena@.len() implies ((#[trigger] cand.arena@[i])
                is Some <==> ord.contains(i as usize)) by {
                if i != cur {
                    assert(cand.arena@[i] == oldf.arena@[i]);
                }
            }
            assert forall|k: int|
                0 <= k < ord.len() implies (#[trigger] cand.node_at(ord[k] as int)).sib == ord[
                nxt_pos(n, k)] by {
                if ord[k] != cur {
                    assert(cand.arena@[ord[k] as int] == oldf.arena@[ord[k] as int]);
                }
                assert(oldf.node_at(ord[k] as int).sib == ord[nxt_pos(n, k)]);
            }
            assert(cand.wf());
        }
        *f = Forest { arena, tail, order };
        if cur == f.tail {
            proof {
                assert(p == n - 1) by {
                    if p < n - 1 {
                        assert(ord[p] != ord[n - 1]);
                    }
                }
            }
            self.cur = NIL;
        } else {
            self.cur = sb;
            proof {
                assert(p != n - 1);
                assert(nxt_pos(n, p) == p + 1);
            }
        }
        self.pos = Ghost(p + 1);
        proof {
            assert(f@ =~= oldf@.update(p, (Tree { data: data, sub: oldf@[p].sub })));
        }
        r
    }
}

impl<T> Default for Forest<T> {
    /// The empty forest.
    fn default() -> (f: Self)
        ensures
            f@ == Seq::<Tree<T>>::empty(),
    {
        Forest::new()
    }
}

/// What the forest's view is made of, stated for the other modules of
/// the crate, which cannot unfold it.
pub(crate) proof fn lemma_forest_view_parts<T>(f: Forest<T>)
    ensures
        f@.len() == f.order@.len(),
        forall|k: int|
            0 <= k < f.order@.len() ==> #[trigger] f@[k] == (Tree {
                data: f.node_at(f.order@[k] as int).data,
                sub: f.node_at(f.order@[k] as int).sub,
            }),
{
}

/// What a node's view is, stated for the other modules of the crate.
pub(crate) proof fn lemma_node_view<T>(n: Node<T>)
    ensures
        n@ == (Tree { data: n.data, sub: n.sub }),
{
}

} // verus!
