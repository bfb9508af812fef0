//! Doubly-linked splice structure over branded cells.
//!
//! Each cell of the arena carries a [`DList`] state beside its payload. Nodes
//! form rings: every linked node's successor names it as predecessor and the
//! other way round, and an unlinked node counts as its own neighbor. The one
//! mutation is [`DList::set_next`], the four-pointer splice, which inserts a
//! node as another's immediate successor and repairs the two edges it breaks.

use vstd::prelude::*;
use crate::{lnk, Link, Root};

verus! {

/// Per-node doubly-linked state: a node is either outside any ring or linked
/// into one, with an immediate successor and predecessor.
#[derive(Clone, Copy)]
pub enum DList {
    Empty,
    Linked { next: Link, prev: Link },
}

/// A cell payload for list use: the caller's data plus the embedded state.
pub struct DListNode<T> {
    pub data: T,
    pub list: DList,
}

/// The slot of `i`'s successor; an unlinked node is its own neighbor.
pub open spec fn next_of<T>(s: Seq<DListNode<T>>, i: int) -> int {
    match s[i].list {
        DList::Empty => i,
        DList::Linked { next, .. } => next.idx(),
    }
}

/// The slot of `i`'s predecessor; an unlinked node is its own neighbor.
pub open spec fn prev_of<T>(s: Seq<DListNode<T>>, i: int) -> int {
    match s[i].list {
        DList::Empty => i,
        DList::Linked { prev, .. } => prev.idx(),
    }
}

/// Ring consistency at one slot: if `i` is linked, both its edges stay inside
/// the arena under the arena's brand, lead to linked nodes, and are mirrored
/// (its successor's predecessor is `i`, its predecessor's successor is `i`).
pub open spec fn node_ok<T>(s: Seq<DListNode<T>>, b: int, i: int) -> bool {
    s[i].list matches DList::Linked { next, prev } ==> {
        &&& next.bid() == b
        &&& 0 <= next.idx() < s.len()
        &&& s[next.idx()].list is Linked
        &&& prev_of(s, next.idx()) == i
        &&& prev.bid() == b
        &&& 0 <= prev.idx() < s.len()
        &&& s[prev.idx()].list is Linked
        &&& next_of(s, prev.idx()) == i
    }
}

/// The ring invariant over the whole arena.
pub open spec fn ring_inv<T>(s: Seq<DListNode<T>>, b: int) -> bool {
    forall|i: int| 0 <= i < s.len() ==> #[trigger] node_ok(s, b, i)
}

/// First splice step: `ni` takes `xi` as successor; a formerly unlinked `ni`
/// starts as its own predecessor.
pub open spec fn splice_step1<T>(s: Seq<DListNode<T>>, b: int, ni: int, xi: int) -> Seq<
    DListNode<T>,
> {
    match s[ni].list {
        DList::Linked { next: _, prev } => s.update(
            ni,
            DListNode { data: s[ni].data, list: DList::Linked { next: lnk(xi, b), prev } },
        ),
        DList::Empty => s.update(
            ni,
            DListNode {
                data: s[ni].data,
                list: DList::Linked { next: lnk(xi, b), prev: lnk(ni, b) },
            },
        ),
    }
}

/// Second splice step: `xi` takes `ni` as predecessor; a formerly unlinked
/// `xi` starts as its own successor.
pub open spec fn splice_step2<T>(s: Seq<DListNode<T>>, b: int, ni: int, xi: int) -> Seq<
    DListNode<T>,
> {
    let s1 = splice_step1(s, b, ni, xi);
    match s1[xi].list {
        DList::Linked { next, prev: _ } => s1.update(
            xi,
            DListNode { data: s1[xi].data, list: DList::Linked { next, prev: lnk(ni, b) } },
        ),
        DList::Empty => s1.update(
            xi,
            DListNode {
                data: s1[xi].data,
                list: DList::Linked { next: lnk(xi, b), prev: lnk(ni, b) },
            },
        ),
    }
}

/// The successor edge the splice breaks: `ni`'s former successor, or `ni`
/// itself when it was unlinked.
pub open spec fn splice_old_next<T>(s: Seq<DListNode<T>>, ni: int) -> int {
    next_of(s, ni)
}

/// The predecessor edge the splice breaks: `xi`'s former predecessor (read
/// after the first step, which matters when `ni == xi`), or `xi` itself when
/// it was unlinked.
pub open spec fn splice_old_prev<T>(s: Seq<DListNode<T>>, b: int, ni: int, xi: int) -> int {
    prev_of(splice_step1(s, b, ni, xi), xi)
}

/// Third splice step, first half of the repair: the broken-off successor's
/// predecessor becomes the broken-off predecessor.
pub open spec fn splice_step3<T>(s: Seq<DListNode<T>>, b: int, ni: int, xi: int) -> Seq<
    DListNode<T>,
> {
    let s2 = splice_step2(s, b, ni, xi);
    let on = splice_old_next(s, ni);
    let op = splice_old_prev(s, b, ni, xi);
    s2.update(
        on,
        DListNode {
            data: s2[on].data,
            list: DList::Linked { next: s2[on].list->next, prev: lnk(op, b) },
        },
    )
}

/// The whole four-pointer splice: after the third step, the broken-off
/// predecessor's successor becomes the broken-off successor, closing the ring.
pub open spec fn splice<T>(s: Seq<DListNode<T>>, b: int, ni: int, xi: int) -> Seq<DListNode<T>> {
    let s3 = splice_step3(s, b, ni, xi);
    let on = splice_old_next(s, ni);
    let op = splice_old_prev(s, b, ni, xi);
    s3.update(
        op,
        DListNode {
            data: s3[op].data,
            list: DList::Linked { next: lnk(on, b), prev: s3[op].list->prev },
        },
    )
}

/// The splice leaves a consistent ring: the ring invariant survives any
/// `set_next`, whatever the two nodes' prior states, payloads are untouched,
/// and the requested edge exists both ways afterwards.
#[verifier::rlimit(100)]
#[verifier::spinoff_prover]
pub proof fn lemma_splice_preserves_ring<T>(s: Seq<DListNode<T>>, b: int, ni: int, xi: int)
    requires
        ring_inv(s, b),
        s.len() <= usize::MAX,
        0 <= ni < s.len(),
        0 <= xi < s.len(),
    ensures
        splice(s, b, ni, xi).len() == s.len(),
        ring_inv(splice(s, b, ni, xi), b),
        forall|j: int| 0 <= j < s.len() ==> splice(s, b, ni, xi)[j].data == s[j].data,
        next_of(splice(s, b, ni, xi), ni) == xi,
        prev_of(splice(s, b, ni, xi), xi) == ni,
{
    let on = splice_old_next(s, ni);
    let op = splice_old_prev(s, b, ni, xi);
    assert(node_ok(s, b, ni));
    assert(node_ok(s, b, xi));
    assert(0 <= on < s.len());
    assert(0 <= op < s.len());
    assert(node_ok(s, b, on));
    assert(node_ok(s, b, op));
    if s[ni].list is Linked {
        assert(node_ok(s, b, prev_of(s, ni)));
    }
    if s[xi].list is Linked {
        assert(node_ok(s, b, next_of(s, xi)));
        assert(node_ok(s, b, prev_of(s, xi)));
    }
    if s[on].list is Linked {
        assert(node_ok(s, b, next_of(s, on)));
        assert(node_ok(s, b, prev_of(s, on)));
    }
    if s[op].list is Linked {
        assert(node_ok(s, b, next_of(s, op)));
        assert(node_ok(s, b, prev_of(s, op)));
    }
    assert forall|j: int| 0 <= j < splice(s, b, ni, xi).len() implies node_ok(
        splice(s, b, ni, xi),
        b,
        j,
    ) by {
        assert(node_ok(s, b, j));
        if s[j].list is Linked {
            assert(node_ok(s, b, next_of(s, j)));
            assert(node_ok(s, b, prev_of(s, j)));
        }
    }
}

/// Growing the arena by an unlinked node cannot break any ring.
pub proof fn lemma_grow_ring<T>(s: Seq<DListNode<T>>, b: int, n: DListNode<T>)
    requires
        ring_inv(s, b),
        n.list is Empty,
    ensures
        ring_inv(s.push(n), b),
{
    assert forall|i: int| 0 <= i < s.push(n).len() implies node_ok(s.push(n), b, i) by {
        if i < s.len() {
            assert(node_ok(s, b, i));
        }
    }
}

/// Every node of a consistent ring, linked or not, is its successor's
/// predecessor and its predecessor's successor.
pub proof fn lemma_ring_neighbors<T>(s: Seq<DListNode<T>>, b: int, i: int)
    requires
        ring_inv(s, b),
        0 <= i < s.len(),
    ensures
        0 <= next_of(s, i) < s.len(),
        0 <= prev_of(s, i) < s.len(),
        prev_of(s, next_of(s, i)) == i,
        next_of(s, prev_of(s, i)) == i,
{
    assert(node_ok(s, b, i));
}

/// Splicing a node to itself extracts it into a singleton ring: it becomes
/// its own successor and predecessor, whatever it was part of before.
pub proof fn lemma_self_loop<T>(s: Seq<DListNode<T>>, b: int, i: int)
    requires
        ring_inv(s, b),
        s.len() <= usize::MAX,
        0 <= i < s.len(),
    ensures
        next_of(splice(s, b, i, i), i) == i,
        prev_of(splice(s, b, i, i), i) == i,
{
    lemma_splice_preserves_ring(s, b, i, i);
}

impl DList {
    /// The state of a node outside any ring.
    pub fn empty() -> (r: DList)
        ensures
            r is Empty,
    {
        DList::Empty
    }

    /// Unconditionally inserts `next` as `node`'s immediate successor and
    /// repairs the two edges this breaks, so that no stale edge is left
    /// dangling; a ring stays a ring. Splicing a node to itself leaves it a
    /// singleton ring. Finding a repair neighbor unlinked would mean the ring
    /// was mutated outside the guard discipline and would be fatal; under the
    /// ring invariant those branches are proved unreachable.
    pub fn set_next<T>(root: &mut Root<DListNode<T>>, node: Link, next: Link)
        requires
            old(root).valid(node),
            old(root).valid(next),
            ring_inv(old(root)@, old(root).brand_id()),
        ensures
            final(root).brand_id() == old(root).brand_id(),
            final(root)@ == splice(old(root)@, old(root).brand_id(), node.idx(), next.idx()),
            ring_inv(final(root)@, final(root).brand_id()),
            final(root)@.len() == old(root)@.len(),
            forall|j: int| 0 <= j < old(root)@.len() ==> final(root)@[j].data == old(
                root,
            )@[j].data,
            next_of(final(root)@, node.idx()) == next.idx(),
            prev_of(final(root)@, next.idx()) == node.idx(),
    {
        let ghost s0 = old(root)@;
        let ghost b = old(root).brand_id();
        proof {
            root.lemma_len_bound();
            assert(node_ok(s0, b, node.idx()));
            assert(node_ok(s0, b, next.idx()));
        }
        let node_list = root.read(node).list;
        let old_next: Link = match node_list {
            DList::Linked { next: on, prev: op } => {
                let w = root.write(node);
                w.list = DList::Linked { next, prev: op };
                on
            },
            DList::Empty => {
                let w = root.write(node);
                w.list = DList::Linked { next, prev: node };
                node
            },
        };
        proof {
            assert(root@ =~= splice_step1(s0, b, node.idx(), next.idx()));
        }
        let next_list = root.read(next).list;
        let old_prev: Link = match next_list {
            DList::Linked { next: nn, prev: pp } => {
                let w = root.write(next);
                w.list = DList::Linked { next: nn, prev: node };
                pp
            },
            DList::Empty => {
                let w = root.write(next);
                w.list = DList::Linked { next, prev: node };
                next
            },
        };
        proof {
            assert(root@ =~= splice_step2(s0, b, node.idx(), next.idx()));
            assert(old_next.idx() == splice_old_next(s0, node.idx()));
            assert(old_prev.idx() == splice_old_prev(s0, b, node.idx(), next.idx()));
            assert(root.valid(old_next) && root.valid(old_prev));
            assert(root@[old_next.idx()].list is Linked);
        }
        let on_list = root.read(old_next).list;
        match on_list {
            DList::Linked { next: kn, prev: _ } => {
                let w = root.write(old_next);
                w.list = DList::Linked { next: kn, prev: old_prev };
            },
            DList::Empty => {
                unreached::<()>();
            },
        };
        proof {
            assert(root@ =~= splice_step3(s0, b, node.idx(), next.idx()));
            assert(root@[old_prev.idx()].list is Linked);
        }
        let op_list = root.read(old_prev).list;
        match op_list {
            DList::Linked { next: _, prev: kp } => {
                let w = root.write(old_prev);
                w.list = DList::Linked { next: old_next, prev: kp };
            },
            DList::Empty => {
                unreached::<()>();
            },
        };
        proof {
            assert(root@ =~= splice(s0, b, node.idx(), next.idx()));
            lemma_splice_preserves_ring(s0, b, node.idx(), next.idx());
        }
    }

    /// The immediate successor of `node`; an unlinked node is its own.
    pub fn next<T>(root: &Root<DListNode<T>>, node: Link) -> (r: Link)
        requires
            root.valid(node),
            ring_inv(root@, root.brand_id()),
        ensures
            r.idx() == next_of(root@, node.idx()),
            r.bid() == root.brand_id(),
            root.valid(r),
    {
        proof {
            assert(node_ok(root@, root.brand_id(), node.idx()));
        }
        match root.read(node).list {
            DList::Empty => node,
            DList::Linked { next, .. } => next,
        }
    }

    /// The immediate predecessor of `node`; an unlinked node is its own.
    pub fn prev<T>(root: &Root<DListNode<T>>, node: Link) -> (r: Link)
        requires
            root.valid(node),
            ring_inv(root@, root.brand_id()),
        ensures
            r.idx() == prev_of(root@, node.idx()),
            r.bid() == root.brand_id(),
            root.valid(r),
    {
        proof {
            assert(node_ok(root@, root.brand_id(), node.idx()));
        }
        match root.read(node).list {
            DList::Empty => node,
            DList::Linked { prev, .. } => prev,
        }
    }
}

} // verus!
