use vstd::prelude::*;

use crate::ataxx::state::GameState;
use crate::tree::node::{NodeModel, NodePtr};
use crate::tree::shape::{
    child_visits, first_child, in_flight, is_child_of, single_parent, tree_shape, well_linked,
};
use crate::tree::view::{subtree, subtrees};

verus! {

/// Whether a sequence of numbers below `bound` has no number twice.
pub open spec fn injective_into(s: Seq<int>, bound: int) -> bool {
    &&& forall|i: int| 0 <= i < s.len() ==> 0 <= #[trigger] s[i] < bound
    &&& forall|i: int, j: int| 0 <= i < j < s.len() ==> #[trigger] s[i] != #[trigger] s[j]
}

/// No more than `bound` different numbers lie below `bound`.
pub proof fn lemma_pigeonhole(s: Seq<int>, bound: int)
    requires
        injective_into(s, bound),
        bound >= 0,
    ensures
        s.len() <= bound,
    decreases bound,
{
    if s.len() > 0 {
        if bound == 0 {
            let x = s[0];
            assert(0 <= x < bound);
        } else if exists|p: int| 0 <= p < s.len() && s[p] == bound - 1 {
            let p = choose|p: int| 0 <= p < s.len() && s[p] == bound - 1;
            let t = Seq::new(
                (s.len() - 1) as nat,
                |i: int|
                    if i < p {
                        s[i]
                    } else {
                        s[i + 1]
                    },
            );
            assert forall|i: int| 0 <= i < t.len() implies 0 <= #[trigger] t[i] < bound - 1 by {
                if i < p {
                    assert(s[i] != s[p]);
                } else {
                    assert(s[p] != s[i + 1]);
                }
            }
            assert forall|i: int, j: int| 0 <= i < j < t.len() implies #[trigger] t[i]
                != #[trigger] t[j] by {
                let si = if i < p {
                    i
                } else {
                    i + 1
                };
                let sj = if j < p {
                    j
                } else {
                    j + 1
                };
                assert(s[si] != s[sj]);
            }
            lemma_pigeonhole(t, bound - 1);
        } else {
            assert forall|i: int| 0 <= i < s.len() implies 0 <= #[trigger] s[i] < bound - 1 by {}
            lemma_pigeonhole(s, bound - 1);
        }
    }
}

/// The node in slot `i` is still as it was copied from the node it stands
/// for.
pub open spec fn pending(old: Seq<NodeModel>, new: Seq<NodeModel>, src: Seq<int>, i: int) -> bool {
    new[i] == old[src[i]]
}

/// The node in slot `i` has its children in the new half, each standing for
/// the child of the same number of the node it stands for.
pub open spec fn finished(
    old: Seq<NodeModel>,
    new: Seq<NodeModel>,
    src: Seq<int>,
    half: bool,
    m: int,
    i: int,
) -> bool {
    let k = new[i].num_actions as int;
    let b = first_child(new, i);
    let a = first_child(old, src[i]);
    &&& new[i] == (NodeModel { actions: new[i].actions, ..old[src[i]] })
    &&& k > 0 ==> {
        &&& new[i].actions.spec_half() == half
        &&& i < b
        &&& b + k <= m
        &&& forall|j: int| 0 <= j < k ==> #[trigger] src[b + j] == a + j
    }
}

/// The children of the node in slot `p` lie before those of the node in slot
/// `q`.
pub open spec fn blocks_ordered(new: Seq<NodeModel>, p: int, q: int) -> bool {
    new[p].num_actions > 0 && new[q].num_actions > 0 ==> first_child(new, p)
        + new[p].num_actions <= first_child(new, q)
}

/// The node in slot `i` is a child of the node in slot `parent[i]`, which has
/// its children in the new half.
pub open spec fn has_parent(new: Seq<NodeModel>, parent: Seq<int>, s: int, i: int) -> bool {
    let p = parent[i];
    &&& 0 <= p < s
    &&& new[p].num_actions > 0
    &&& first_child(new, p) <= i < first_child(new, p) + new[p].num_actions
}

/// What holds while a tree is copied into the other half, when the first `m`
/// slots are filled and the nodes in the first `s` have their children there:
/// slot `i` stands for the node `src[i]` of the tree that is copied.
pub open spec fn copy_inv(
    old: Seq<NodeModel>,
    old_n: int,
    new: Seq<NodeModel>,
    half: bool,
    src: Seq<int>,
    parent: Seq<int>,
    s: int,
    m: int,
) -> bool {
    &&& 0 <= s <= m <= new.len()
    &&& 1 <= m
    &&& src.len() == m
    &&& parent.len() == m
    &&& src[0] == 0
    &&& injective_into(src, old_n)
    &&& forall|i: int| s <= i < m ==> #[trigger] pending(old, new, src, i)
    &&& forall|i: int| 0 <= i < s ==> #[trigger] finished(old, new, src, half, m, i)
    &&& forall|p: int, q: int| 0 <= p < q < s ==> #[trigger] blocks_ordered(new, p, q)
    &&& forall|i: int| 1 <= i < m ==> #[trigger] has_parent(new, parent, s, i)
}

/// The nodes after the `k` children of the node in slot `s`, which stand in
/// the old half from slot `a` on, were copied to the slots from `m` on.
pub open spec fn block_copied(
    old: Seq<NodeModel>,
    new: Seq<NodeModel>,
    half: bool,
    s: int,
    m: int,
    a: int,
    k: int,
) -> Seq<NodeModel> {
    Seq::new(
        new.len(),
        |i: int|
            if i == s {
                NodeModel { actions: NodePtr::at(half, m), ..new[s] }
            } else if m <= i < m + k {
                old[a + i - m]
            } else {
                new[i]
            },
    )
}

/// The slots that the copied nodes stand for, after the copy of a block.
pub open spec fn src_extended(src: Seq<int>, a: int, k: int) -> Seq<int> {
    Seq::new((src.len() + k) as nat, |i: int| if i < src.len() {
        src[i]
    } else {
        a + i - src.len()
    })
}

/// The parents of the copied nodes, after the copy of a block.
pub open spec fn parent_extended(parent: Seq<int>, s: int, k: int) -> Seq<int> {
    Seq::new((parent.len() + k) as nat, |i: int| if i < parent.len() {
        parent[i]
    } else {
        s
    })
}

/// With the root copied, the copy is under way.
pub proof fn lemma_copy_start(old: Seq<NodeModel>, old_n: int, new: Seq<NodeModel>, half: bool)
    requires
        0 < old_n,
        0 < new.len(),
        new[0] == old[0],
    ensures
        copy_inv(old, old_n, new, half, seq![0int], seq![-1int], 0, 1),
{
    assert(pending(old, new, seq![0int], 0));
}

/// A node without children needs no children in the new half.
pub proof fn lemma_copy_leaf(
    old: Seq<NodeModel>,
    old_n: int,
    new: Seq<NodeModel>,
    half: bool,
    src: Seq<int>,
    parent: Seq<int>,
    s: int,
    m: int,
)
    requires
        copy_inv(old, old_n, new, half, src, parent, s, m),
        s < m,
        new[s].num_actions == 0,
    ensures
        copy_inv(old, old_n, new, half, src, parent, s + 1, m),
{
    assert(pending(old, new, src, s));
    assert forall|i: int| 0 <= i < s + 1 implies #[trigger] finished(
        old,
        new,
        src,
        half,
        m,
        i,
    ) by {
        if i < s {
            assert(finished(old, new, src, half, m, i));
        }
    }
    assert forall|p: int, q: int| 0 <= p < q < s + 1 implies #[trigger] blocks_ordered(
        new,
        p,
        q,
    ) by {
        if q < s {
            assert(blocks_ordered(new, p, q));
        }
    }
    assert forall|i: int| 1 <= i < m implies #[trigger] has_parent(new, parent, s + 1, i) by {
        assert(has_parent(new, parent, s, i));
    }
}

/// The children of the node that is next to get them are not copied yet, so
/// that there is room for them.
pub proof fn lemma_copy_room(
    old: Seq<NodeModel>,
    old_half: bool,
    old_n: int,
    new: Seq<NodeModel>,
    half: bool,
    src: Seq<int>,
    parent: Seq<int>,
    s: int,
    m: int,
)
    requires
        copy_inv(old, old_n, new, half, src, parent, s, m),
        well_linked(old, old_half, old_n),
        single_parent(old, old_n),
        s < m,
        new[s].num_actions > 0,
    ensures
        injective_into(
            src_extended(src, first_child(old, src[s]), new[s].num_actions as int),
            old_n,
        ),
        m + new[s].num_actions <= old_n,
        src[s] < first_child(old, src[s]),
        first_child(old, src[s]) + new[s].num_actions <= old_n,
{
    assert(pending(old, new, src, s));
    let a = first_child(old, src[s]);
    let k = new[s].num_actions as int;
    let ext = src_extended(src, a, k);
    assert(0 <= src[s] < old_n);
    assert(old[src[s]].num_actions > 0);
    assert forall|i: int, j: int| 0 <= i < j < ext.len() implies #[trigger] ext[i]
        != #[trigger] ext[j] by {
        if j < m {
            assert(src[i] != src[j]);
        } else if i >= m {
        } else {
            // a copied node is not among the children that are not copied yet
            if ext[i] == ext[j] {
                assert(is_child_of(old, src[s], src[i]));
                if i == 0 {
                    assert(src[0] == 0);
                } else {
                    assert(has_parent(new, parent, s, i));
                    let p = parent[i];
                    assert(finished(old, new, src, half, m, p));
                    let b = first_child(new, p);
                    assert(src[b + (i - b)] == first_child(old, src[p]) + (i - b));
                    assert(old[src[p]].num_actions == new[p].num_actions);
                    assert(is_child_of(old, src[p], src[i]));
                    assert(0 <= src[p] < old_n);
                    assert(src[p] == src[s]);
                    assert(src[p] != src[s]);
                }
            }
        }
    }
    lemma_pigeonhole(ext, old_n);
}

/// With the children of the next node copied, the copy is one node further.
pub proof fn lemma_copy_block(
    old: Seq<NodeModel>,
    old_half: bool,
    old_n: int,
    new: Seq<NodeModel>,
    half: bool,
    src: Seq<int>,
    parent: Seq<int>,
    s: int,
    m: int,
)
    requires
        copy_inv(old, old_n, new, half, src, parent, s, m),
        well_linked(old, old_half, old_n),
        single_parent(old, old_n),
        s < m,
        new[s].num_actions > 0,
        m + new[s].num_actions <= new.len() <= 0x7fff_ffff,
    ensures
        copy_inv(
            old,
            old_n,
            block_copied(
                old,
                new,
                half,
                s,
                m,
                first_child(old, src[s]),
                new[s].num_actions as int,
            ),
            half,
            src_extended(src, first_child(old, src[s]), new[s].num_actions as int),
            parent_extended(parent, s, new[s].num_actions as int),
            s + 1,
            m + new[s].num_actions,
        ),
{
    let a = first_child(old, src[s]);
    let k = new[s].num_actions as int;
    let after = block_copied(old, new, half, s, m, a, k);
    let src2 = src_extended(src, a, k);
    let parent2 = parent_extended(parent, s, k);
    let m2 = m + k;
    lemma_copy_room(old, old_half, old_n, new, half, src, parent, s, m);
    NodePtr::lemma_at(half, m);
    assert(pending(old, new, src, s));
    assert(first_child(after, s) == m);
    assert forall|i: int| s + 1 <= i < m2 implies #[trigger] pending(old, after, src2, i) by {
        if i < m {
            assert(pending(old, new, src, i));
        }
    }
    assert forall|i: int| 0 <= i < s + 1 implies #[trigger] finished(
        old,
        after,
        src2,
        half,
        m2,
        i,
    ) by {
        if i < s {
            assert(finished(old, new, src, half, m, i));
            assert(after[i] == new[i]);
            let kk = new[i].num_actions as int;
            let b = first_child(new, i);
            if kk > 0 {
                assert forall|j: int| 0 <= j < kk implies #[trigger] src2[b + j] == first_child(
                    old,
                    src2[i],
                ) + j by {
                    assert(src[b + j] == first_child(old, src[i]) + j);
                }
            }
        } else {
            assert forall|j: int| 0 <= j < k implies #[trigger] src2[m + j] == a + j by {}
        }
    }
    assert forall|p: int, q: int| 0 <= p < q < s + 1 implies #[trigger] blocks_ordered(
        after,
        p,
        q,
    ) by {
        if q < s {
            assert(blocks_ordered(new, p, q));
        } else {
            assert(finished(old, new, src, half, m, p));
        }
    }
    assert forall|i: int| 1 <= i < m2 implies #[trigger] has_parent(after, parent2, s + 1, i) by {
        if i < m {
            assert(has_parent(new, parent, s, i));
            assert(after[parent[i]] == new[parent[i]]);
        }
    }
}

/// Whether some node in an earlier slot has the node in slot `i` among its
/// children.
pub open spec fn has_parent_before(nodes: Seq<NodeModel>, i: int) -> bool {
    exists|p: int| 0 <= p < i && nodes[p].num_actions > 0 && #[trigger] is_child_of(nodes, p, i)
}

/// Whether the first `n` slots hold a tree and nothing else, laid out level
/// by level: every node but the root is the child of a node before it, and
/// the children of nodes lie in the order of the nodes.
pub open spec fn compact(nodes: Seq<NodeModel>, n: int) -> bool {
    &&& forall|i: int| 1 <= i < n ==> #[trigger] has_parent_before(nodes, i)
    &&& forall|p: int, q: int| 0 <= p < q < n ==> #[trigger] blocks_ordered(nodes, p, q)
}

/// A tree that was copied whole is laid out level by level.
pub proof fn lemma_copy_compact(
    old: Seq<NodeModel>,
    old_n: int,
    new: Seq<NodeModel>,
    half: bool,
    src: Seq<int>,
    parent: Seq<int>,
    m: int,
)
    requires
        copy_inv(old, old_n, new, half, src, parent, m, m),
    ensures
        compact(new, m),
{
    assert forall|i: int| 1 <= i < m implies #[trigger] has_parent_before(new, i) by {
        assert(has_parent(new, parent, m, i));
        let p = parent[i];
        assert(finished(old, new, src, half, m, p));
        assert(is_child_of(new, p, i));
    }
}

/// The visits of a block that was copied are those of the block it was
/// copied from.
pub proof fn lemma_child_visits_moved(
    old: Seq<NodeModel>,
    new: Seq<NodeModel>,
    a: int,
    b: int,
    k: int,
)
    requires
        forall|j: int| 0 <= j < k ==> (#[trigger] new[b + j]).visits == old[a + j].visits,
    ensures
        child_visits(new, b, k) == child_visits(old, a, k),
    decreases k,
{
    if k > 0 {
        lemma_child_visits_moved(old, new, a, b, k - 1);
        assert(new[b + (k - 1)].visits == old[a + (k - 1)].visits);
    }
}

/// A tree that was copied whole has the shape of a tree.
pub proof fn lemma_copy_shape(
    old: Seq<NodeModel>,
    old_half: bool,
    old_n: int,
    new: Seq<NodeModel>,
    half: bool,
    src: Seq<int>,
    parent: Seq<int>,
    m: int,
)
    requires
        copy_inv(old, old_n, new, half, src, parent, m, m),
        tree_shape(old, old_half, old_n, Seq::<int>::empty()),
    ensures
        tree_shape(new, half, m, Seq::<int>::empty()),
{
    let empty = Seq::<int>::empty();
    assert forall|i: int| 0 <= i < m && (#[trigger] new[i]).num_actions > 0 implies {
        &&& new[i].actions.spec_half() == half
        &&& i < first_child(new, i)
        &&& first_child(new, i) + new[i].num_actions <= m
    } by {
        assert(finished(old, new, src, half, m, i));
    }
    assert forall|p: int, q: int, c: int|
        0 <= p < m && 0 <= q < m && #[trigger] is_child_of(new, p, c) && #[trigger] is_child_of(
            new,
            q,
            c,
        ) implies p == q by {
        if p < q {
            assert(blocks_ordered(new, p, q));
        } else if q < p {
            assert(blocks_ordered(new, q, p));
        }
    }
    assert forall|i: int| 0 <= i < m && (#[trigger] new[i]).num_actions > 0 implies new[i].visits
        + (if i == -1 {
        1int
    } else {
        0int
    }) >= 1 + child_visits(new, first_child(new, i), new[i].num_actions as int) by {
        assert(finished(old, new, src, half, m, i));
        let k = new[i].num_actions as int;
        let b = first_child(new, i);
        let a = first_child(old, src[i]);
        assert(0 <= src[i] < old_n);
        assert(old[src[i]].num_actions > 0);
        assert forall|j: int| 0 <= j < k implies (#[trigger] new[b + j]).visits == old[a
            + j].visits by {
            assert(finished(old, new, src, half, m, b + j));
            assert(src[b + j] == a + j);
        }
        lemma_child_visits_moved(old, new, a, b, k);
    }
    assert forall|i: int| 0 <= i < m implies (#[trigger] new[i]).in_range() && (new[i].visits == 0
        ==> new[i].state == GameState::Ongoing) by {
        assert(finished(old, new, src, half, m, i));
        assert(0 <= src[i] < old_n);
        assert(old[src[i]].in_range());
    }
    assert forall|i: int| 0 <= i < m implies (#[trigger] new[i]).threads == (if in_flight(
        empty,
        0,
        i,
    ) {
        1nat
    } else {
        0nat
    }) by {
        assert(finished(old, new, src, half, m, i));
        assert(0 <= src[i] < old_n);
        assert(!in_flight(empty, 0, src[i]));
        assert(old[src[i]].threads == 0);
        assert(!in_flight(empty, 0, i));
    }
}

/// In a tree that was copied whole, the tree below a node is the tree below
/// the node that it stands for.
pub proof fn lemma_copy_subtree(
    old: Seq<NodeModel>,
    old_half: bool,
    old_n: int,
    new: Seq<NodeModel>,
    half: bool,
    src: Seq<int>,
    parent: Seq<int>,
    m: int,
    i: int,
)
    requires
        copy_inv(old, old_n, new, half, src, parent, m, m),
        well_linked(old, old_half, old_n),
        0 <= i < m,
    ensures
        subtree(new, m, i) == subtree(old, old_n, src[i]),
    decreases m - i, 0int,
{
    assert(finished(old, new, src, half, m, i));
    assert(0 <= src[i] < old_n);
    let k = new[i].num_actions as int;
    if k > 0 {
        assert(old[src[i]].num_actions > 0);
        let b = first_child(new, i);
        let a = first_child(old, src[i]);
        assert forall|j: int| 0 <= j < k implies #[trigger] src[b + j] == a + j by {}
        lemma_copy_subtrees(old, old_half, old_n, new, half, src, parent, m, b, a, k);
    }
}

/// In a tree that was copied whole, the trees below `count` nodes in a row
/// are those below the nodes that they stand for.
pub proof fn lemma_copy_subtrees(
    old: Seq<NodeModel>,
    old_half: bool,
    old_n: int,
    new: Seq<NodeModel>,
    half: bool,
    src: Seq<int>,
    parent: Seq<int>,
    m: int,
    b: int,
    a: int,
    count: int,
)
    requires
        copy_inv(old, old_n, new, half, src, parent, m, m),
        well_linked(old, old_half, old_n),
        0 <= b,
        0 <= a,
        0 <= count,
        b + count <= m,
        a + count <= old_n,
        forall|j: int| 0 <= j < count ==> #[trigger] src[b + j] == a + j,
    ensures
        subtrees(new, m, b, count) == subtrees(old, old_n, a, count),
    decreases m - b, count + 1,
{
    if count > 0 {
        lemma_copy_subtrees(old, old_half, old_n, new, half, src, parent, m, b, a, count - 1);
        assert(src[b + (count - 1)] == a + (count - 1));
        lemma_copy_subtree(old, old_half, old_n, new, half, src, parent, m, b + count - 1);
    }
}

} // verus!
