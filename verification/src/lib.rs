//! Capability-token access control for mutually-referencing, possibly cyclic
//! records in shared storage.
//!
//! A [`Root`] is the single exclusive authority over an arena of [`Base`]
//! cells, all tagged with the root's brand. A [`Link`] is an unowned, freely
//! copyable handle to one cell; dereferencing it requires a root whose brand
//! matches, so a link minted under one scope cannot be used under another.
//! On top of this discipline, [`safe_dlist`] builds a doubly-linked splice
//! structure and [`union_find`] a disjoint-set forest.

pub mod safe_dlist;
pub mod union_find;

use vstd::prelude::*;

verus! {

/// A storage cell holding one payload. Cells live in a [`Root`]'s arena;
/// their contents are read and written only through that root.
pub struct Base<T> {
    inner: T,
}

impl<T> Base<T> {
    /// The payload the cell holds.
    pub closed spec fn view(self) -> T {
        self.inner
    }

    /// Wraps a payload in a fresh, not yet allocated cell.
    pub fn new(inner: T) -> (r: Base<T>)
        ensures
            r@ == inner,
    {
        Base { inner }
    }
}

/// An unowned reference to a cell of some root's arena: the cell's position
/// together with the (ghost) brand of the scope that minted it. Links may be
/// duplicated freely and compared by identity; they carry no access rights of
/// their own.
#[derive(Clone, Copy)]
pub struct Link {
    pub index: usize,
    pub brand: Ghost<int>,
}

impl Link {
    /// The position of the referenced cell in its arena.
    pub open spec fn idx(self) -> int {
        self.index as int
    }

    /// The brand of the scope the link was minted under.
    pub open spec fn bid(self) -> int {
        self.brand@
    }

    /// Identity comparison: two links of one brand are the same link exactly
    /// when they address the same cell.
    pub fn same_as(self, other: Link) -> (r: bool)
        ensures
            r == (self.idx() == other.idx()),
    {
        self.index == other.index
    }
}

/// The link value minted under brand `b` for slot `i`: the spec-level image
/// of every link the library hands out.
pub open spec fn lnk(i: int, b: int) -> Link {
    Link { index: i as usize, brand: Ghost::new(b) }
}

/// Token asserting process-wide exclusivity. The acquisition protocol (an
/// atomic flag that is taken at most once at a time, with fail-fast
/// termination on contention) is process state and lives with the embedding
/// program; holding the token stands for having won that acquisition.
pub struct GlobalGuard {}

/// Token asserting per-thread exclusivity. As with [`GlobalGuard`], the
/// thread-local flag and the fail-fast check on double acquisition live with
/// the embedding program.
pub struct ThreadGuard {}

/// The guard: sole authority over one brand's cells, and owner of the arena
/// that stores them. At most one root exists per brand, so holding `&mut Root`
/// proves exclusive access to every cell of the brand at once, with no
/// per-access locking.
pub struct Root<T> {
    nodes: Vec<T>,
    brand: Ghost<int>,
}

impl<T> Root<T> {
    /// The payloads of the arena's cells, in allocation order.
    pub closed spec fn view(self) -> Seq<T> {
        self.nodes@
    }

    /// The brand this root is the authority over. Each way of obtaining a
    /// root leaves its brand unconstrained, so no two independently obtained
    /// roots can be proved to share one: a link of one scope cannot be shown
    /// valid for another scope's root.
    pub closed spec fn brand_id(self) -> int {
        self.brand@
    }

    /// A link may be dereferenced through this root: it was minted under the
    /// root's brand (and so addresses a cell of this arena).
    pub open spec fn valid(self, link: Link) -> bool {
        link.bid() == self.brand_id() && link.idx() < self@.len()
    }

    /// The arena lives in one allocation, so its length is machine-bounded.
    pub proof fn lemma_len_bound(&self)
        ensures
            self@.len() <= usize::MAX,
    {
        vstd::std_specs::vec::axiom_spec_len(&self.nodes);
    }

    /// Opens a fresh access scope: mints a brand no other scope can name,
    /// hands the scope's root to `closure`, and returns its result. Nesting
    /// is permitted; an inner scope's root never validates an outer scope's
    /// links, nor the other way round.
    pub fn with<F, R>(closure: F) -> (r: R) where F: FnOnce(Root<T>) -> R
        requires
            forall|root: Root<T>| root@ == Seq::<T>::empty() ==> #[trigger] call_requires(
                closure,
                (root,),
            ),
        ensures
            exists|root: Root<T>|
                root@ == Seq::<T>::empty() && #[trigger] call_ensures(closure, (root,), r),
    {
        let root = Root { nodes: Vec::new(), brand: Ghost(arbitrary()) };
        proof {
            assert(root@ =~= Seq::<T>::empty());
        }
        closure(root)
    }

    /// The process-wide exclusive root. The token proves the caller won the
    /// one global acquisition; the root it buys is the single authority over
    /// its brand, exactly as a scoped root is.
    pub fn global(guard: GlobalGuard) -> (r: Root<T>)
        ensures
            r@ == Seq::<T>::empty(),
    {
        let GlobalGuard {  } = guard;
        Root { nodes: Vec::new(), brand: Ghost(arbitrary()) }
    }

    /// The thread-wide exclusive root, from the per-thread acquisition token.
    pub fn thread(guard: ThreadGuard) -> (r: Root<T>)
        ensures
            r@ == Seq::<T>::empty(),
    {
        let ThreadGuard {  } = guard;
        Root { nodes: Vec::new(), brand: Ghost(arbitrary()) }
    }

    /// Places a cell in the arena and mints a link to it under this root's
    /// brand. The arena only ever grows, so links never dangle while the root
    /// lives.
    pub fn make_node(&mut self, node: Base<T>) -> (l: Link)
        ensures
            final(self)@ == old(self)@.push(node@),
            final(self).brand_id() == old(self).brand_id(),
            l.idx() == old(self)@.len(),
            l.bid() == old(self).brand_id(),
            final(self).valid(l),
            forall|m: Link| old(self).valid(m) ==> final(self).valid(m),
    {
        let index = self.nodes.len();
        let link = Link { index, brand: Ghost(self.brand@) };
        self.nodes.push(node.inner);
        link
    }

    /// Read access to the cell a link addresses. A matching brand is the sole
    /// precondition: any number of aliasing links may be dereferenced through
    /// the one root.
    pub fn read(&self, link: Link) -> (r: &T)
        requires
            self.valid(link),
        ensures
            *r == self@[link.idx()],
    {
        &self.nodes[link.index]
    }

    /// Write access to the cell a link addresses, through the root's
    /// exclusive authority. Only the addressed cell changes.
    pub fn write(&mut self, link: Link) -> (r: &mut T)
        requires
            old(self).valid(link),
        ensures
            *r == old(self)@[link.idx()],
            final(self)@ == old(self)@.update(link.idx(), *final(r)),
            final(self).brand_id() == old(self).brand_id(),
    {
        &mut self.nodes[link.index]
    }
}

} // verus!
