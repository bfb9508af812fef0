//! Disjoint-set forest (union-find) over branded cells.
//!
//! Each cell holds a payload, an optional parent link and a rank. Parent links
//! form a forest: ranks strictly increase from child to parent, which rules
//! out cycles and bounds every chain. [`SetNode::find`] follows parents to the
//! representative and rewrites every visited node to point at it directly
//! (path compression); [`SetNode::union`] merges two sets by rank, attaching
//! the lower-rank root under the higher and, on a tie, attaching `y`'s root
//! under `x`'s and raising the latter's rank by one.

use vstd::prelude::*;
use crate::{lnk, Link, Root};

verus! {

/// A member of a disjoint-set forest.
pub struct SetNode<T> {
    pub data: T,
    pub parent: Option<Link>,
    pub rank: usize,
}

/// How many nodes of the forest are roots (have no parent).
pub open spec fn num_roots<T>(s: Seq<SetNode<T>>) -> nat
    decreases s.len(),
{
    if s.len() == 0 {
        0
    } else {
        num_roots(s.drop_last()) + (if s.last().parent is None {
            1nat
        } else {
            0nat
        })
    }
}

/// Forest consistency at one slot: a parent stays inside the arena under the
/// arena's brand and has strictly greater rank, and no rank can outgrow the
/// arena while roots remain (which is what lets a tied union raise a rank).
pub open spec fn uf_node_ok<T>(s: Seq<SetNode<T>>, b: int, i: int) -> bool {
    &&& (s[i].parent matches Some(p) ==> {
        &&& p.bid() == b
        &&& 0 <= p.idx() < s.len()
        &&& s[i].rank < s[p.idx()].rank
    })
    &&& s[i].rank + num_roots(s) <= s.len()
}

/// The forest invariant over the whole arena.
pub open spec fn uf_inv<T>(s: Seq<SetNode<T>>, b: int) -> bool {
    forall|i: int| 0 <= i < s.len() ==> #[trigger] uf_node_ok(s, b, i)
}

/// The representative of `i`'s set: the slot reached by following parents
/// until a node without one.
pub open spec fn root_of<T>(s: Seq<SetNode<T>>, b: int, i: int) -> int
    decreases s.len() - s[i].rank,
        when uf_inv(s, b) && 0 <= i < s.len()
{
    match s[i].parent {
        None => i,
        Some(p) => {
            proof {
                assert(uf_node_ok(s, b, i));
                assert(uf_node_ok(s, b, p.idx()));
            }
            root_of(s, b, p.idx())
        },
    }
}

/// The forest after one `find` at `i`: every node on the chain from `i` to its
/// representative now names the representative as its direct parent; nothing
/// else changes.
pub open spec fn compress<T>(s: Seq<SetNode<T>>, b: int, i: int) -> Seq<SetNode<T>>
    decreases s.len() - s[i].rank,
        when uf_inv(s, b) && 0 <= i < s.len()
{
    match s[i].parent {
        None => s,
        Some(p) => {
            proof {
                assert(uf_node_ok(s, b, i));
                assert(uf_node_ok(s, b, p.idx()));
            }
            compress(s, b, p.idx()).update(
                i,
                SetNode { data: s[i].data, parent: Some(lnk(root_of(s, b, i), b)), rank: s[i].rank },
            )
        },
    }
}

/// Appending a node moves the root count by one exactly when the node is a
/// root.
proof fn lemma_num_roots_push<T>(s: Seq<SetNode<T>>, v: SetNode<T>)
    ensures
        num_roots(s.push(v)) == num_roots(s) + (if v.parent is None {
            1nat
        } else {
            0nat
        }),
{
    assert(s.push(v).drop_last() =~= s);
    assert(s.push(v).last() == v);
}

/// Replacing one node moves the root count by the difference the replacement
/// makes at that slot.
proof fn lemma_num_roots_update<T>(s: Seq<SetNode<T>>, i: int, v: SetNode<T>)
    requires
        0 <= i < s.len(),
    ensures
        num_roots(s.update(i, v)) + (if s[i].parent is None {
            1nat
        } else {
            0nat
        }) == num_roots(s) + (if v.parent is None {
            1nat
        } else {
            0nat
        }),
    decreases s.len(),
{
    let t = s.update(i, v);
    if i == s.len() - 1 {
        assert(t.drop_last() =~= s.drop_last());
        assert(t.last() == v);
        assert(s.last() == s[i]);
    } else {
        assert(t.drop_last() =~= s.drop_last().update(i, v));
        lemma_num_roots_update(s.drop_last(), i, v);
        assert(t.last() == s.last());
        assert(s.drop_last()[i] == s[i]);
    }
}

/// A forest with a root in sight counts at least one root.
proof fn lemma_num_roots_at_least_one<T>(s: Seq<SetNode<T>>, i: int)
    requires
        0 <= i < s.len(),
        s[i].parent is None,
    ensures
        num_roots(s) >= 1,
    decreases s.len(),
{
    if i < s.len() - 1 {
        lemma_num_roots_at_least_one(s.drop_last(), i);
        assert(s.drop_last()[i] == s[i]);
    }
}

/// There are never more roots than nodes.
proof fn lemma_num_roots_le_len<T>(s: Seq<SetNode<T>>)
    ensures
        num_roots(s) <= s.len(),
    decreases s.len(),
{
    if s.len() > 0 {
        lemma_num_roots_le_len(s.drop_last());
    }
}

/// What following parents reaches: a slot of the arena that is a root, of
/// strictly greater rank than any non-root it represents.
pub proof fn lemma_root_of_props<T>(s: Seq<SetNode<T>>, b: int, i: int)
    requires
        uf_inv(s, b),
        0 <= i < s.len(),
    ensures
        0 <= root_of(s, b, i) < s.len(),
        s[root_of(s, b, i)].parent is None,
        s[i].parent is Some ==> s[i].rank < s[root_of(s, b, i)].rank,
        s[i].parent is None ==> root_of(s, b, i) == i,
    decreases s.len() - s[i].rank,
{
    assert(uf_node_ok(s, b, i));
    match s[i].parent {
        None => {},
        Some(p) => {
            assert(uf_node_ok(s, b, p.idx()));
            lemma_root_of_props(s, b, p.idx());
        },
    }
}

/// Redirecting one node's parent straight to a root moves every
/// representative that used to be the node itself over to that root, and no
/// other. Covers both path compression (the node's own representative) and a
/// union (one root redirected under another).
proof fn lemma_redirect_root_of<T>(
    s: Seq<SetNode<T>>,
    t: Seq<SetNode<T>>,
    b: int,
    i: int,
    r: int,
    j: int,
)
    requires
        uf_inv(s, b),
        uf_inv(t, b),
        t.len() == s.len(),
        s.len() <= usize::MAX,
        0 <= i < s.len(),
        0 <= r < s.len(),
        r != i,
        forall|k: int| 0 <= k < s.len() && k != i ==> t[k].parent == s[k].parent,
        t[i].parent == Some(lnk(r, b)),
        s[r].parent is None,
        s[i].parent is Some ==> root_of(s, b, i) == r,
        0 <= j < s.len(),
    ensures
        root_of(t, b, j) == if root_of(s, b, j) == i {
            r
        } else {
            root_of(s, b, j)
        },
    decreases s.len() - t[j].rank,
{
    lemma_root_of_props(s, b, j);
    assert(uf_node_ok(s, b, j));
    assert(uf_node_ok(t, b, j));
    if j == i {
        assert(t[r].parent is None);
        assert(root_of(t, b, r) == r);
    } else {
        match s[j].parent {
            None => {},
            Some(q) => {
                assert(t[j].parent == s[j].parent);
                assert(uf_node_ok(s, b, q.idx()));
                assert(uf_node_ok(t, b, q.idx()));
                lemma_redirect_root_of(s, t, b, i, r, q.idx());
            },
        }
    }
}

/// Everything one `find` guarantees about the compressed forest: sizes,
/// payloads, ranks and root-or-not are untouched, the invariant survives,
/// every representative is unchanged, and the searched node now points
/// straight at its representative — or nothing changed at all if it was one.
pub proof fn lemma_compress_props<T>(s: Seq<SetNode<T>>, b: int, i: int)
    requires
        uf_inv(s, b),
        s.len() <= usize::MAX,
        0 <= i < s.len(),
    ensures
        compress(s, b, i).len() == s.len(),
        forall|j: int| #![trigger s[j]] 0 <= j < s.len() ==> {
            &&& compress(s, b, i)[j].data == s[j].data
            &&& compress(s, b, i)[j].rank == s[j].rank
            &&& ((compress(s, b, i)[j].parent is None) <==> (s[j].parent is None))
        },
        num_roots(compress(s, b, i)) == num_roots(s),
        uf_inv(compress(s, b, i), b),
        forall|j: int| #![trigger root_of(s, b, j)] 0 <= j < s.len() ==> root_of(
            compress(s, b, i),
            b,
            j,
        ) == root_of(s, b, j),
        s[i].parent is Some ==> compress(s, b, i)[i].parent == Some(lnk(root_of(s, b, i), b)),
        s[i].parent is None ==> compress(s, b, i) == s,
    decreases s.len() - s[i].rank,
{
    assert(uf_node_ok(s, b, i));
    lemma_root_of_props(s, b, i);
    match s[i].parent {
        None => {},
        Some(p) => {
            assert(uf_node_ok(s, b, p.idx()));
            lemma_compress_props(s, b, p.idx());
            let c1 = compress(s, b, p.idx());
            let r = root_of(s, b, i);
            let v = SetNode { data: s[i].data, parent: Some(lnk(r, b)), rank: s[i].rank };
            let c = c1.update(i, v);
            assert(compress(s, b, i) == c);
            assert(c1[i].data == s[i].data && c1[i].rank == s[i].rank && c1[i].parent is Some);
            assert(c1[r].data == s[r].data && c1[r].rank == s[r].rank && c1[r].parent is None);
            assert(r != i);
            lemma_num_roots_update(c1, i, v);
            assert(num_roots(c) == num_roots(s));
            assert forall|j: int| 0 <= j < s.len() implies {
                &&& #[trigger] c[j].data == s[j].data
                &&& c[j].rank == s[j].rank
                &&& ((c[j].parent is None) <==> (s[j].parent is None))
            } by {
                assert(c1[j].data == s[j].data);
            }
            assert(uf_inv(c, b)) by {
                assert forall|k: int| 0 <= k < c.len() implies uf_node_ok(c, b, k) by {
                    assert(uf_node_ok(c1, b, k));
                    assert(uf_node_ok(s, b, k));
                    assert(uf_node_ok(s, b, r));
                    match c[k].parent {
                        None => {},
                        Some(q) => {
                            assert(c1[q.idx()].rank == c[q.idx()].rank);
                        },
                    }
                }
            }
            assert(root_of(c1, b, i) == r);
            assert forall|j: int| 0 <= j < s.len() implies #[trigger] root_of(c, b, j) == root_of(
                s,
                b,
                j,
            ) by {
                lemma_root_of_props(s, b, j);
                lemma_root_of_props(c1, b, j);
                lemma_redirect_root_of(c1, c, b, i, r, j);
            }
        },
    }
}

/// Growing the arena by a fresh singleton cannot break the forest.
pub proof fn lemma_grow_forest<T>(s: Seq<SetNode<T>>, b: int, n: SetNode<T>)
    requires
        uf_inv(s, b),
        n.parent is None,
        n.rank == 0,
    ensures
        uf_inv(s.push(n), b),
{
    lemma_num_roots_push(s, n);
    lemma_num_roots_le_len(s);
    assert forall|i: int| 0 <= i < s.push(n).len() implies uf_node_ok(s.push(n), b, i) by {
        if i < s.len() {
            assert(uf_node_ok(s, b, i));
        }
    }
}

/// Searching twice changes nothing more: the second `find` reports the same
/// representative and rewrites no parent.
pub proof fn lemma_find_idempotent<T>(s: Seq<SetNode<T>>, b: int, i: int)
    requires
        uf_inv(s, b),
        s.len() <= usize::MAX,
        0 <= i < s.len(),
    ensures
        root_of(compress(s, b, i), b, i) == root_of(s, b, i),
        compress(compress(s, b, i), b, i) == compress(s, b, i),
{
    lemma_compress_props(s, b, i);
    lemma_root_of_props(s, b, i);
    let c = compress(s, b, i);
    let r = root_of(s, b, i);
    match s[i].parent {
        None => {},
        Some(p) => {
            assert(c[i].parent == Some(lnk(r, b)));
            assert(c[r].parent is None);
            assert(root_of(c, b, i) == r);
            assert(compress(c, b, r) == c);
            assert(compress(c, b, i) == compress(c, b, r).update(
                i,
                SetNode { data: c[i].data, parent: Some(lnk(root_of(c, b, i), b)), rank: c[i].rank },
            ));
            assert(compress(c, b, i) =~= c);
        },
    }
}

/// What a union does to every representative: the two sets now share one,
/// chosen from the two old representatives by rank (`x`'s wins a tie), and
/// every other set keeps its own.
pub open spec fn union_spec<T>(s: Seq<SetNode<T>>, b: int, xi: int, yi: int) -> Seq<SetNode<T>> {
    let s2 = compress(compress(s, b, xi), b, yi);
    let xr = root_of(s, b, xi);
    let yr = root_of(s, b, yi);
    if xr == yr {
        s2
    } else if s2[xr].rank < s2[yr].rank {
        s2.update(xr, SetNode { data: s2[xr].data, parent: Some(lnk(yr, b)), rank: s2[xr].rank })
    } else if s2[yr].rank < s2[xr].rank {
        s2.update(yr, SetNode { data: s2[yr].data, parent: Some(lnk(xr, b)), rank: s2[yr].rank })
    } else {
        s2.update(yr, SetNode { data: s2[yr].data, parent: Some(lnk(xr, b)), rank: s2[yr].rank })
            .update(
            xr,
            SetNode {
                data: s2[xr].data,
                parent: s2[xr].parent,
                rank: (s2[xr].rank + 1) as usize,
            },
        )
    }
}

impl<T> SetNode<T> {
    /// A fresh singleton set: its own representative, of rank zero.
    pub fn make(data: T) -> (r: SetNode<T>)
        ensures
            r.parent is None,
            r.rank == 0,
            r.data == data,
    {
        SetNode { data, parent: None, rank: 0 }
    }

    /// Follows parent links to the representative of `x`'s set and returns a
    /// link to it; while unwinding, rewrites every visited node's parent
    /// straight to that representative (path compression). Representatives,
    /// payloads, ranks and the forest invariant are untouched.
    pub fn find(root: &mut Root<SetNode<T>>, x: Link) -> (r: Link)
        requires
            old(root).valid(x),
            uf_inv(old(root)@, old(root).brand_id()),
        ensures
            final(root).brand_id() == old(root).brand_id(),
            final(root)@ == compress(old(root)@, old(root).brand_id(), x.idx()),
            uf_inv(final(root)@, final(root).brand_id()),
            r.idx() == root_of(old(root)@, old(root).brand_id(), x.idx()),
            r.bid() == old(root).brand_id(),
            final(root).valid(r),
            old(root)@[x.idx()].parent is Some ==> final(root)@[x.idx()].parent == Some(r),
            old(root)@[x.idx()].parent is None ==> final(root)@ == old(root)@,
        decreases old(root)@.len() - old(root)@[x.idx()].rank,
    {
        let ghost s0 = old(root)@;
        let ghost b = old(root).brand_id();
        proof {
            root.lemma_len_bound();
            assert(uf_node_ok(s0, b, x.idx()));
            lemma_root_of_props(s0, b, x.idx());
            lemma_compress_props(s0, b, x.idx());
        }
        let p_opt: Option<Link> = root.read(x).parent;
        match p_opt {
            None => x,
            Some(p) => {
                proof {
                    assert(uf_node_ok(s0, b, p.idx()));
                    lemma_compress_props(s0, b, p.idx());
                }
                let r = Self::find(root, p);
                proof {
                    assert(compress(s0, b, p.idx())[x.idx()].data == s0[x.idx()].data);
                }
                let w = root.write(x);
                w.parent = Some(r);
                proof {
                    assert(root@ =~= compress(s0, b, x.idx()));
                }
                r
            },
        }
    }

    /// Merges the sets of `x` and `y`: a no-op when they already share a
    /// representative; otherwise the lower-rank representative is attached
    /// under the higher-rank one, and on a rank tie `y`'s goes under `x`'s,
    /// whose rank then rises by one.
    pub fn union(root: &mut Root<SetNode<T>>, x: Link, y: Link)
        requires
            old(root).valid(x),
            old(root).valid(y),
            uf_inv(old(root)@, old(root).brand_id()),
        ensures
            final(root).brand_id() == old(root).brand_id(),
            final(root)@.len() == old(root)@.len(),
            uf_inv(final(root)@, final(root).brand_id()),
            final(root)@ == union_spec(old(root)@, old(root).brand_id(), x.idx(), y.idx()),
            forall|j: int| 0 <= j < old(root)@.len() ==> #[trigger] final(root)@[j].data == old(
                root,
            )@[j].data,
            root_of(final(root)@, old(root).brand_id(), x.idx()) == root_of(
                final(root)@,
                old(root).brand_id(),
                y.idx(),
            ),
            forall|j: int| 0 <= j < old(root)@.len() ==> #[trigger] root_of(
                final(root)@,
                old(root).brand_id(),
                j,
            ) == {
                let xr = root_of(old(root)@, old(root).brand_id(), x.idx());
                let yr = root_of(old(root)@, old(root).brand_id(), y.idx());
                let old_root = root_of(old(root)@, old(root).brand_id(), j);
                let merged = if old(root)@[xr].rank < old(root)@[yr].rank {
                    yr
                } else {
                    xr
                };
                if old_root == xr || old_root == yr {
                    merged
                } else {
                    old_root
                }
            },
    {
        let ghost s0 = old(root)@;
        let ghost b = old(root).brand_id();
        proof {
            root.lemma_len_bound();
            lemma_compress_props(s0, b, x.idx());
            lemma_compress_props(compress(s0, b, x.idx()), b, y.idx());
            lemma_root_of_props(s0, b, x.idx());
            lemma_root_of_props(s0, b, y.idx());
        }
        let xr = Self::find(root, x);
        let yr = Self::find(root, y);
        let ghost s2 = root@;
        proof {
            assert(root_of(s2, b, x.idx()) == root_of(s0, b, x.idx()));
            assert(s2[xr.idx()].parent is None && s2[yr.idx()].parent is None);
            assert(uf_node_ok(s2, b, xr.idx()));
            assert(uf_node_ok(s2, b, yr.idx()));
            lemma_num_roots_at_least_one(s2, yr.idx());
        }
        if xr.same_as(yr) {
            return;
        }
        let rx = root.read(xr).rank;
        let ry = root.read(yr).rank;
        if rx < ry {
            let w = root.write(xr);
            w.parent = Some(yr);
            proof {
                Self::lemma_union_step(s2, b, xr.idx(), yr.idx(), root@);
            }
        } else if ry < rx {
            let w = root.write(yr);
            w.parent = Some(xr);
            proof {
                Self::lemma_union_step(s2, b, yr.idx(), xr.idx(), root@);
            }
        } else {
            let w = root.write(yr);
            w.parent = Some(xr);
            let w2 = root.write(xr);
            w2.rank = rx + 1;
            proof {
                Self::lemma_union_tie(s2, b, xr.idx(), yr.idx(), root@);
            }
        }
    }

    /// One union write with strict ranks: attaching root `lo` (of lower rank)
    /// under root `hi` keeps the forest invariant and redirects exactly `lo`'s
    /// set to `hi`.
    proof fn lemma_union_step(s: Seq<SetNode<T>>, b: int, lo: int, hi: int, t: Seq<SetNode<T>>)
        requires
            uf_inv(s, b),
            s.len() <= usize::MAX,
            0 <= lo < s.len(),
            0 <= hi < s.len(),
            lo != hi,
            s[lo].parent is None,
            s[hi].parent is None,
            s[lo].rank < s[hi].rank,
            t == s.update(
                lo,
                SetNode { data: s[lo].data, parent: Some(lnk(hi, b)), rank: s[lo].rank },
            ),
        ensures
            uf_inv(t, b),
            forall|j: int| 0 <= j < s.len() ==> #[trigger] root_of(t, b, j) == (if root_of(s, b, j)
                == lo {
                hi
            } else {
                root_of(s, b, j)
            }),
    {
        lemma_num_roots_update(
            s,
            lo,
            SetNode { data: s[lo].data, parent: Some(lnk(hi, b)), rank: s[lo].rank },
        );
        assert(uf_inv(t, b)) by {
            assert forall|k: int| 0 <= k < t.len() implies uf_node_ok(t, b, k) by {
                assert(uf_node_ok(s, b, k));
                assert(uf_node_ok(s, b, lo));
                assert(uf_node_ok(s, b, hi));
            }
        }
        assert forall|j: int| 0 <= j < s.len() implies #[trigger] root_of(t, b, j) == (if root_of(
            s,
            b,
            j,
        ) == lo {
            hi
        } else {
            root_of(s, b, j)
        }) by {
            lemma_redirect_root_of(s, t, b, lo, hi, j);
        }
    }

    /// The tied union: attaching `yr` under `xr` and raising `xr`'s rank by
    /// one keeps the forest invariant and merges exactly the two sets.
    proof fn lemma_union_tie(s: Seq<SetNode<T>>, b: int, xr: int, yr: int, t: Seq<SetNode<T>>)
        requires
            uf_inv(s, b),
            s.len() <= usize::MAX,
            0 <= xr < s.len(),
            0 <= yr < s.len(),
            xr != yr,
            s[xr].parent is None,
            s[yr].parent is None,
            s[xr].rank == s[yr].rank,
            s[xr].rank + 1 <= usize::MAX,
            t == s.update(
                yr,
                SetNode { data: s[yr].data, parent: Some(lnk(xr, b)), rank: s[yr].rank },
            ).update(
                xr,
                SetNode {
                    data: s[xr].data,
                    parent: s[xr].parent,
                    rank: (s[xr].rank + 1) as usize,
                },
            ),
        ensures
            uf_inv(t, b),
            forall|j: int| 0 <= j < s.len() ==> #[trigger] root_of(t, b, j) == (if root_of(s, b, j)
                == yr {
                xr
            } else {
                root_of(s, b, j)
            }),
    {
        let v_y = SetNode { data: s[yr].data, parent: Some(lnk(xr, b)), rank: s[yr].rank };
        lemma_num_roots_update(s, yr, v_y);
        lemma_num_roots_update(
            s.update(yr, v_y),
            xr,
            SetNode { data: s[xr].data, parent: s[xr].parent, rank: (s[xr].rank + 1) as usize },
        );
        lemma_num_roots_at_least_one(s, yr);
        assert(uf_inv(t, b)) by {
            assert forall|k: int| 0 <= k < t.len() implies uf_node_ok(t, b, k) by {
                assert(uf_node_ok(s, b, k));
                assert(uf_node_ok(s, b, xr));
                assert(uf_node_ok(s, b, yr));
            }
        }
        assert forall|j: int| 0 <= j < s.len() implies #[trigger] root_of(t, b, j) == (if root_of(
            s,
            b,
            j,
        ) == yr {
            xr
        } else {
            root_of(s, b, j)
        }) by {
            lemma_redirect_root_of(s, t, b, yr, xr, j);
        }
    }
}

} // verus!
