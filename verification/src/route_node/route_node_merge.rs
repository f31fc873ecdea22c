use crate::route_node::{NodeView, RouteError, RouteNodeRc, RouteTree};
use crate::route_node::lookup::{
    ends_at_route, lemma_pattern_injective, lemma_terminal_complete, terminal,
};
use crate::route_node::model::{
    attached, carries_route, children_sorted, extend, fragment_fits, has_parameter_child, lean_at,
    linked, node_ok, node_orderly, only_parameters_follow, orderly, owned, pattern, ranked,
    ranks_of, routed_at, same_slot, similar, slot_precedes, well_formed, Ranks,
};
use crate::route_node::route_node_utility::{
    lemma_fragment_child_is_child, lemma_similar_child_from, lemma_similar_equivalence,
    lemma_slot_child_from, route_node_find_similar_child, similar_child, slot_child,
    slot_child_from,
};
use crate::route_node::traits::{
    chars_equal, lemma_slot_order_total, lemma_slot_order_transitive, slot_precedes_exec,
};
use crate::string_utility::{
    common_prefix_length, lemma_common_prefix_length, lemma_common_prefix_length_symmetric,
};
use vstd::prelude::*;
use vstd::slice::{slice_subrange, slice_to_vec};

verus! {

/// Ranks that leave room between every parent and child for one more node.
pub open spec fn spread(ranks: Ranks) -> Ranks {
    Ranks {
        depth: ranks.depth.map_values(|d: nat| 2 * d),
        height: ranks.height.map_values(|h: nat| 2 * h + 2),
    }
}

/// `new` is `old` with one more node, a leaf, listed at `position` among the children of
/// `parent`.
pub open spec fn leaf_added<K>(
    old: Seq<NodeView<K>>,
    new: Seq<NodeView<K>>,
    parent: int,
    position: int,
) -> bool {
    let leaf = old.len() as int;
    &&& 0 <= parent < old.len()
    &&& 0 <= position <= old[parent].children.len()
    &&& new.len() == old.len() + 1
    &&& new[leaf].parent == Some(parent)
    &&& new[leaf].children.len() == 0
    &&& new[parent] == NodeView {
        children: old[parent].children.insert(position, leaf),
        ..old[parent]
    }
    &&& forall|n: int| 0 <= n < old.len() && n != parent ==> #[trigger] new[n] == old[n]
}

/// The slot `(anchor, has_parameter)` belongs at `position` among the children of `parent`:
/// every child before it precedes the slot, and the slot precedes every child from there on.
pub open spec fn sorted_at<K>(
    nodes: Seq<NodeView<K>>,
    parent: int,
    position: int,
    anchor: Seq<char>,
    has_parameter: bool,
) -> bool {
    &&& forall|i: int|
        0 <= i < position ==> slot_precedes(
            nodes[#[trigger] nodes[parent].children[i]].anchor,
            nodes[nodes[parent].children[i]].has_parameter,
            anchor,
            has_parameter,
        )
    &&& forall|i: int|
        position <= i < nodes[parent].children.len() ==> slot_precedes(
            anchor,
            has_parameter,
            nodes[#[trigger] nodes[parent].children[i]].anchor,
            nodes[nodes[parent].children[i]].has_parameter,
        )
}

/// No child of `parent` is similar to the slot `(anchor, has_parameter)`.
pub open spec fn no_similar<K>(
    nodes: Seq<NodeView<K>>,
    parent: int,
    anchor: Seq<char>,
    has_parameter: bool,
) -> bool {
    forall|i: int|
        0 <= i < nodes[parent].children.len() ==> !similar(
            nodes[#[trigger] nodes[parent].children[i]].anchor,
            nodes[nodes[parent].children[i]].has_parameter,
            anchor,
            has_parameter,
        )
}

/// No child of `parent` takes the slot `(anchor, has_parameter)`.
pub open spec fn slot_free<K>(
    nodes: Seq<NodeView<K>>,
    parent: int,
    anchor: Seq<char>,
    has_parameter: bool,
) -> bool {
    forall|i: int|
        0 <= i < nodes[parent].children.len() ==> !same_slot(
            nodes[#[trigger] nodes[parent].children[i]].anchor,
            nodes[nodes[parent].children[i]].has_parameter,
            anchor,
            has_parameter,
        )
}

/// A leaf with the flag `has_parameter` below `parent` leaves a parameter without anchor
/// followed by parameters only.
pub open spec fn fits_below<K>(nodes: Seq<NodeView<K>>, parent: int, has_parameter: bool) -> bool {
    has_parameter || !(nodes[parent].has_parameter && nodes[parent].anchor.len() == 0)
}

/// A tree stays orderly when a leaf is added at its place in sibling order, below a parent
/// of which no child is similar to it or takes its slot; and well formed, if it was, where
/// the leaf is no literal behind a parameter without anchor.
proof fn lemma_leaf_added_orderly<K>(
    old: Seq<NodeView<K>>,
    new: Seq<NodeView<K>>,
    parent: int,
    position: int,
)
    requires
        orderly(old),
        leaf_added(old, new, parent, position),
        ({
            let leaf = new[old.len() as int];
            &&& sorted_at(old, parent, position, leaf.anchor, leaf.has_parameter)
            &&& no_similar(old, parent, leaf.anchor, leaf.has_parameter)
            &&& slot_free(old, parent, leaf.anchor, leaf.has_parameter)
            &&& leaf.has_parameter || leaf.anchor.len() > 0
            &&& leaf.route_key is None ==> leaf.route_parameter_names.len() == 0
        }),
    ensures
        orderly(new),
        well_formed(old) && fits_below(old, parent, new[old.len() as int].has_parameter)
            ==> well_formed(new),
{
    let leaf = old.len() as int;
    let before = old[parent].children;
    let after = new[parent].children;
    assert(after == before.insert(position, leaf));
    // links
    assert forall|n: int| 0 < n < new.len() implies attached(new, n) by {
        if n == leaf {
            assert(after[position] == leaf);
        } else {
            assert(attached(old, n));
            let q = old[n].parent->0;
            if q == parent {
                let i = choose|i: int| 0 <= i < before.len() && before[i] == n;
                if i < position {
                    assert(after[i] == n);
                } else {
                    assert(after[i + 1] == n);
                }
            }
        }
    }
    assert forall|n: int, i: int|
        0 <= n < new.len() && 0 <= i < new[n].children.len() implies owned(
        new,
        n,
        #[trigger] new[n].children[i],
    ) by {
        if n == parent {
            if i < position {
                assert(owned(old, n, before[i]));
            } else if i > position {
                assert(owned(old, n, before[i - 1]));
            }
        } else {
            assert(owned(old, n, old[n].children[i]));
        }
    }
    assert(linked(new));
    // ranks
    let ranks = ranks_of(old);
    let grown = Ranks {
        depth: spread(ranks).depth.push(2 * ranks.depth[parent] + 1),
        height: spread(ranks).height.push(0),
    };
    assert(ranked(old, ranks));
    assert forall|n: int| 0 <= n < new.len() implies (#[trigger] new[n].parent matches Some(p)
        ==> 0 <= p < new.len() ==> grown.depth[p] < grown.depth[n] && grown.height[n]
        < grown.height[p]) by {
        if n != leaf {
            assert(new[n].parent == old[n].parent);
            if n != 0 {
                assert(attached(old, n));
            }
        }
    }
    assert(ranked(new, grown));
    // nodes
    let kept = well_formed(old) && fits_below(old, parent, new[leaf].has_parameter);
    assert forall|n: int| 0 <= n < new.len() implies #[trigger] node_orderly(new, n) && (kept
        ==> only_parameters_follow(new, n)) by {
        if n == leaf {
        } else {
            assert(node_orderly(old, n));
            if kept {
                assert(node_ok(old, n));
            }
            if n == parent {
                assert forall|i: int, j: int| 0 <= i < j < after.len() implies slot_precedes(
                    new[#[trigger] after[i]].anchor,
                    new[after[i]].has_parameter,
                    new[#[trigger] after[j]].anchor,
                    new[after[j]].has_parameter,
                ) by {
                    let bi = if i < position { i } else { i - 1 };
                    let bj = if j < position { j } else { j - 1 };
                    if i != position {
                        assert(owned(old, n, before[bi]));
                    }
                    if j != position {
                        assert(owned(old, n, before[bj]));
                    }
                }
                assert forall|i: int, j: int|
                    0 <= i < after.len() && 0 <= j < after.len() && i != j implies !similar(
                    new[#[trigger] after[i]].anchor,
                    new[after[i]].has_parameter,
                    new[#[trigger] after[j]].anchor,
                    new[after[j]].has_parameter,
                ) by {
                    let bi = if i < position { i } else { i - 1 };
                    let bj = if j < position { j } else { j - 1 };
                    if i != position {
                        assert(owned(old, n, before[bi]));
                    }
                    if j != position {
                        assert(owned(old, n, before[bj]));
                    }
                }
                assert forall|i: int|
                    0 <= i < after.len() && kept && new[n].has_parameter && new[n].anchor.len()
                        == 0 implies new[#[trigger] after[i]].has_parameter by {
                    let bi = if i < position { i } else { i - 1 };
                    if i != position {
                        assert(owned(old, n, before[bi]));
                    }
                }
            } else {
                assert forall|i: int|
                    0 <= i < new[n].children.len() implies new[#[trigger] new[n].children[i]].anchor
                    == old[old[n].children[i]].anchor && new[new[n].children[i]].has_parameter
                    == old[old[n].children[i]].has_parameter by {
                    assert(owned(old, n, old[n].children[i]));
                }
            }
        }
    }
    if kept {
        assert forall|n: int| 0 <= n < new.len() implies #[trigger] node_ok(new, n) by {
            assert(node_orderly(new, n));
        }
    }
}

/// Adding a leaf takes no child from any node.
proof fn lemma_leaf_added_children<K>(
    old: Seq<NodeView<K>>,
    new: Seq<NodeView<K>>,
    parent: int,
    position: int,
)
    requires
        orderly(old),
        leaf_added(old, new, parent, position),
    ensures
        children_kept(old, new, old.len() as int),
        new[old.len() as int].has_parameter ==> has_parameter_child(new, parent),
{
    let leaf = old.len() as int;
    let before = old[parent].children;
    let after = new[parent].children;
    assert(after == before.insert(position, leaf));
    assert forall|n: int|
        0 <= n < old.len() && has_parameter_child(old, n) implies #[trigger] has_parameter_child(
        new,
        n,
    ) by {
        let i = choose|i: int|
            0 <= i < old[n].children.len() && old[#[trigger] old[n].children[i]].has_parameter;
        let child = old[n].children[i];
        assert(owned(old, n, child));
        assert(new[child].has_parameter == old[child].has_parameter);
        if n == parent {
            let j = if i < position { i } else { i + 1 };
            assert(new[n].children[j] == child);
        } else {
            assert(new[n].children[i] == child);
        }
    }
    if new[leaf].has_parameter {
        assert(new[parent].children[position] == leaf);
    }
}

/// `new` is `old` with one more node put between `parent` and its child `child`: the new
/// node takes the first `cut` characters of the child's anchor and the child's flag, the
/// child keeps the rest of its anchor, without a parameter, as the new node's only child.
pub open spec fn interposed<K>(
    old: Seq<NodeView<K>>,
    new: Seq<NodeView<K>>,
    parent: int,
    child_position: int,
    position: int,
    cut: int,
) -> bool {
    let between = old.len() as int;
    let child = old[parent].children[child_position];
    let others = old[parent].children.remove(child_position);
    &&& 0 <= parent < old.len()
    &&& 0 <= child_position < old[parent].children.len()
    &&& 0 <= position <= others.len()
    &&& 0 < cut < old[child].anchor.len()
    &&& new.len() == old.len() + 1
    &&& new[between].parent == Some(parent)
    &&& new[between].children == seq![child]
    &&& new[between].anchor == old[child].anchor.take(cut)
    &&& new[between].has_parameter == old[child].has_parameter
    &&& new[child] == NodeView {
        anchor: old[child].anchor.skip(cut),
        has_parameter: false,
        parent: Some(between),
        ..old[child]
    }
    &&& new[parent] == NodeView { children: others.insert(position, between), ..old[parent] }
    &&& forall|n: int|
        0 <= n < old.len() && n != parent && n != child ==> #[trigger] new[n] == old[n]
    &&& forall|i: int|
        0 <= i < position ==> slot_precedes(
            old[#[trigger] others[i]].anchor,
            old[others[i]].has_parameter,
            new[between].anchor,
            new[between].has_parameter,
        )
    &&& forall|i: int|
        position <= i < others.len() ==> slot_precedes(
            new[between].anchor,
            new[between].has_parameter,
            old[#[trigger] others[i]].anchor,
            old[others[i]].has_parameter,
        )
}

/// A child is a node other than its parent, and points back to it.
proof fn lemma_child_is_not_parent<K>(nodes: Seq<NodeView<K>>, parent: int, position: int)
    requires
        orderly(nodes),
        0 <= parent < nodes.len(),
        0 <= position < nodes[parent].children.len(),
    ensures
        nodes[parent].children[position] != parent,
        0 < nodes[parent].children[position] < nodes.len(),
        nodes[nodes[parent].children[position]].parent == Some(parent),
{
    let child = nodes[parent].children[position];
    assert(owned(nodes, parent, child));
    assert(ranked(nodes, ranks_of(nodes)));
    assert(nodes[child].parent == Some(parent));
}

/// A node lists no child twice.
pub proof fn lemma_children_distinct<K>(nodes: Seq<NodeView<K>>, parent: int, i: int, j: int)
    requires
        orderly(nodes),
        0 <= parent < nodes.len(),
        0 <= i < nodes[parent].children.len(),
        0 <= j < nodes[parent].children.len(),
        i != j,
    ensures
        nodes[parent].children[i] != nodes[parent].children[j],
{
    assert(node_orderly(nodes, parent));
    let a = nodes[parent].children[i];
    let b = nodes[parent].children[j];
    if a == b {
        assert(same_slot(
            nodes[a].anchor,
            nodes[a].has_parameter,
            nodes[b].anchor,
            nodes[b].has_parameter,
        ));
    }
}

/// Every entry of the parent's new child list but the new node is a child that `parent`
/// had before, other than `child`, with its slot unchanged.
proof fn lemma_interposed_sibling<K>(
    old: Seq<NodeView<K>>,
    new: Seq<NodeView<K>>,
    parent: int,
    child_position: int,
    position: int,
    cut: int,
    i: int,
) -> (k: int)
    requires
        orderly(old),
        interposed(old, new, parent, child_position, position, cut),
        0 <= i < new[parent].children.len(),
        i != position,
    ensures
        0 <= k < old[parent].children.len(),
        k != child_position,
        old[parent].children[k] == new[parent].children[i],
        old[parent].children.remove(child_position)[if i < position { i } else { i - 1 }]
            == new[parent].children[i],
        new[parent].children[i] != old[parent].children[child_position],
        new[parent].children[i] != parent,
        owned(old, parent, new[parent].children[i]),
        new[new[parent].children[i]] == old[new[parent].children[i]],
        k == ({
            let oi = if i < position { i } else { i - 1 };
            if oi < child_position { oi } else { oi + 1 }
        }),
{
    let before = old[parent].children;
    let others = before.remove(child_position);
    let oi = if i < position { i } else { i - 1 };
    let k = if oi < child_position { oi } else { oi + 1 };
    assert(new[parent].children == others.insert(position, old.len() as int));
    assert(others[oi] == before[k]);
    lemma_children_distinct(old, parent, k, child_position);
    lemma_child_is_not_parent(old, parent, k);
    assert(owned(old, parent, before[k]));
    k
}

/// A tree stays orderly, and well formed if it was, when a node is put between a parent and
/// its child, at its place in sibling order.
proof fn lemma_interposed_orderly<K>(
    old: Seq<NodeView<K>>,
    new: Seq<NodeView<K>>,
    parent: int,
    child_position: int,
    position: int,
    cut: int,
)
    requires
        orderly(old),
        interposed(old, new, parent, child_position, position, cut),
        ({
            let between = new[old.len() as int];
            between.route_key is None ==> between.route_parameter_names.len() == 0
        }),
    ensures
        orderly(new),
        well_formed(old) ==> well_formed(new),
{
    let between = old.len() as int;
    let before = old[parent].children;
    let child = before[child_position];
    let others = before.remove(child_position);
    let after = new[parent].children;
    lemma_child_is_not_parent(old, parent, child_position);
    assert(after == others.insert(position, between));
    // links
    assert forall|n: int| 0 < n < new.len() implies attached(new, n) by {
        if n == between {
            assert(after[position] == between);
        } else if n == child {
            assert(new[between].children[0] == child);
        } else {
            assert(attached(old, n));
            let q = old[n].parent->0;
            if q == parent {
                let k = choose|k: int| 0 <= k < before.len() && before[k] == n;
                let oi = if k < child_position { k } else { k - 1 };
                assert(others[oi] == n);
                if oi < position {
                    assert(after[oi] == n);
                } else {
                    assert(after[oi + 1] == n);
                }
            } else if q == child {
                assert(new[q].children == old[q].children);
            }
        }
    }
    assert forall|n: int, i: int|
        0 <= n < new.len() && 0 <= i < new[n].children.len() implies owned(
        new,
        n,
        #[trigger] new[n].children[i],
    ) by {
        if n == parent {
            if i != position {
                let k = lemma_interposed_sibling(
                        old,
                        new,
                        parent,
                        child_position,
                        position,
                        cut,
                        i,
                    );
            }
        } else if n == between {
        } else {
            let d = old[n].children[i];
            assert(owned(old, n, d));
            assert(d != child);
        }
    }
    assert(linked(new));
    // ranks
    let ranks = ranks_of(old);
    assert(ranked(old, ranks));
    let grown = Ranks {
        depth: spread(ranks).depth.push(2 * ranks.depth[parent] + 1),
        height: spread(ranks).height.push(2 * ranks.height[child] + 3),
    };
    assert forall|n: int| 0 <= n < new.len() implies (#[trigger] new[n].parent matches Some(p)
        ==> 0 <= p < new.len() ==> grown.depth[p] < grown.depth[n] && grown.height[n]
        < grown.height[p]) by {
        if n != between && n != child {
            assert(new[n].parent == old[n].parent);
            if n != 0 {
                assert(attached(old, n));
            }
        } else {
            assert(old[child].parent == Some(parent));
        }
    }
    assert(ranked(new, grown));
    // nodes
    assert(node_orderly(old, parent));
    assert(node_orderly(old, child));
    assert(similar(
        new[between].anchor,
        new[between].has_parameter,
        old[child].anchor,
        old[child].has_parameter,
    )) by {
        assert(new[between].anchor[0] == old[child].anchor[0]);
    }
    let kept = well_formed(old);
    if kept {
        assert(node_ok(old, parent));
        assert(node_ok(old, child));
    }
    assert forall|n: int| 0 <= n < new.len() implies #[trigger] node_orderly(new, n) && (kept
        ==> only_parameters_follow(new, n)) by {
        if n == between {
            assert(new[n].anchor.len() == cut);
        } else if n == parent {
            assert forall|i: int, j: int| 0 <= i < j < after.len() implies slot_precedes(
                new[#[trigger] after[i]].anchor,
                new[after[i]].has_parameter,
                new[#[trigger] after[j]].anchor,
                new[after[j]].has_parameter,
            ) by {
                if i != position {
                    let ki = lemma_interposed_sibling(
                        old,
                        new,
                        parent,
                        child_position,
                        position,
                        cut,
                        i,
                    );
                }
                if j != position {
                    let kj = lemma_interposed_sibling(
                        old,
                        new,
                        parent,
                        child_position,
                        position,
                        cut,
                        j,
                    );
                }
            }
            assert forall|i: int, j: int|
                0 <= i < after.len() && 0 <= j < after.len() && i != j implies !similar(
                new[#[trigger] after[i]].anchor,
                new[after[i]].has_parameter,
                new[#[trigger] after[j]].anchor,
                new[after[j]].has_parameter,
            ) by {
                if i != position {
                    let ki = lemma_interposed_sibling(
                        old,
                        new,
                        parent,
                        child_position,
                        position,
                        cut,
                        i,
                    );
                }
                if j != position {
                    let kj = lemma_interposed_sibling(
                        old,
                        new,
                        parent,
                        child_position,
                        position,
                        cut,
                        j,
                    );
                }
            }
            assert forall|i: int|
                0 <= i < after.len() && kept && new[n].has_parameter && new[n].anchor.len()
                    == 0 implies new[#[trigger] after[i]].has_parameter by {
                if i != position {
                    let ki = lemma_interposed_sibling(
                        old,
                        new,
                        parent,
                        child_position,
                        position,
                        cut,
                        i,
                    );
                }
            }
        } else {
            assert(node_orderly(old, n));
            if kept {
                assert(node_ok(old, n));
            }
            assert forall|i: int|
                0 <= i < new[n].children.len() implies new[#[trigger] new[n].children[i]].anchor
                == old[old[n].children[i]].anchor && new[new[n].children[i]].has_parameter
                == old[old[n].children[i]].has_parameter by {
                assert(owned(old, n, old[n].children[i]));
            }
        }
    }
    if kept {
        assert forall|n: int| 0 <= n < new.len() implies #[trigger] node_ok(new, n) by {
            assert(node_orderly(new, n));
        }
    }
}

/// Putting a node between a parent and its child takes no child from any node.
proof fn lemma_interposed_children<K>(
    old: Seq<NodeView<K>>,
    new: Seq<NodeView<K>>,
    parent: int,
    child_position: int,
    position: int,
    cut: int,
)
    requires
        orderly(old),
        interposed(old, new, parent, child_position, position, cut),
    ensures
        children_kept(old, new, old.len() as int),
        old[old[parent].children[child_position]].has_parameter ==> has_parameter_child(
            new,
            parent,
        ),
        new[parent].children.len() == old[parent].children.len(),
{
    let between = old.len() as int;
    let before = old[parent].children;
    let child = before[child_position];
    let others = before.remove(child_position);
    let after = new[parent].children;
    lemma_child_is_not_parent(old, parent, child_position);
    assert(after == others.insert(position, between));
    assert(after[position] == between);
    assert forall|n: int|
        0 <= n < old.len() && has_parameter_child(old, n) implies #[trigger] has_parameter_child(
        new,
        n,
    ) by {
        let i = choose|i: int|
            0 <= i < old[n].children.len() && old[#[trigger] old[n].children[i]].has_parameter;
        let below = old[n].children[i];
        assert(owned(old, n, below));
        if n == parent {
            if i == child_position {
                assert(new[new[n].children[position]].has_parameter);
            } else {
                let oi = if i < child_position { i } else { i - 1 };
                assert(others[oi] == below);
                let j = if oi < position { oi } else { oi + 1 };
                assert(after[j] == below);
                lemma_children_distinct(old, parent, i, child_position);
                assert(new[below].has_parameter == old[below].has_parameter);
            }
        } else {
            assert(below != child);
            assert(new[n].children[i] == below);
            assert(new[below].has_parameter == old[below].has_parameter);
        }
    }
    if old[child].has_parameter {
        assert(new[new[parent].children[position]].has_parameter);
    }
}

/// Passing a node and then a node without a parameter is passing one node that holds both
/// anchors.
pub proof fn lemma_extend_twice(
    parent_pattern: Seq<Seq<char>>,
    has_parameter: bool,
    first: Seq<char>,
    second: Seq<char>,
)
    ensures
        extend(extend(parent_pattern, has_parameter, first), false, second) == extend(
            parent_pattern,
            has_parameter,
            first + second,
        ),
{
    let once = extend(parent_pattern, has_parameter, first);
    if has_parameter || parent_pattern.len() == 0 {
        assert(once.drop_last() =~= parent_pattern);
        assert(once.last() == first);
    } else {
        assert(once.drop_last() =~= parent_pattern.drop_last());
        assert(once.last() + second =~= parent_pattern.last() + (first + second));
    }
}

/// The pattern of a node is kept when the node, its parent link and the pattern of the
/// parent are kept; it is also kept for the one node `moved` below which a new node was put
/// that took over the front of its anchor.
proof fn lemma_pattern_kept<K>(old: Seq<NodeView<K>>, new: Seq<NodeView<K>>, moved: int, n: int)
    requires
        orderly(old),
        orderly(new),
        old.len() <= new.len(),
        0 <= n < old.len(),
        forall|m: int|
            0 <= m < old.len() && m != moved ==> (#[trigger] new[m]).parent == old[m].parent
                && new[m].anchor == old[m].anchor && new[m].has_parameter
                == old[m].has_parameter,
        0 <= moved < old.len() ==> {
            let between = old.len() as int;
            &&& between < new.len()
            &&& new[moved].parent == Some(between)
            &&& new[between].parent == old[moved].parent
            &&& new[between].has_parameter == old[moved].has_parameter
            &&& !new[moved].has_parameter
            &&& new[between].anchor + new[moved].anchor == old[moved].anchor
            &&& moved != 0
        },
    ensures
        pattern(new, n) == pattern(old, n),
    decreases ranks_of(old).depth[n],
{
    assert(ranked(old, ranks_of(old)));
    if n == 0 {
        assert(new[0].parent == old[0].parent);
    } else {
        assert(attached(old, n));
        let p = old[n].parent->0;
        lemma_pattern_kept(old, new, moved, p);
        if n == moved {
            let between = old.len() as int;
            assert(attached(new, between));
            assert(pattern(new, between) == extend(
                pattern(new, p),
                new[between].has_parameter,
                new[between].anchor,
            ));
            assert(pattern(new, n) == extend(pattern(new, between), false, new[n].anchor));
            lemma_extend_twice(
                pattern(old, p),
                old[n].has_parameter,
                new[between].anchor,
                new[n].anchor,
            );
        } else {
            assert(new[n].parent == old[n].parent);
        }
    }
}

/// The route that node `n` carries is the same in `new` as in `old`.
pub open spec fn same_route<K>(old: Seq<NodeView<K>>, new: Seq<NodeView<K>>, n: int) -> bool {
    new[n].route_key == old[n].route_key && new[n].route_parameter_names
        == old[n].route_parameter_names
}

/// What `new` has of `old`: every node of `old` is still there, under its handle and with
/// its pattern.
pub open spec fn patterns_kept<K>(old: Seq<NodeView<K>>, new: Seq<NodeView<K>>) -> bool {
    &&& old.len() <= new.len()
    &&& forall|n: int| 0 <= n < old.len() ==> #[trigger] pattern(new, n) == pattern(old, n)
}

/// Apart from node `result`, every node of `old` carries in `new` the route it carried, and
/// every node that `old` had not carries none.
pub open spec fn routes_kept<K>(old: Seq<NodeView<K>>, new: Seq<NodeView<K>>, result: int) -> bool {
    forall|n: int|
        0 <= n < new.len() && n != result ==> if n < old.len() {
            same_route(old, new, n)
        } else {
            (#[trigger] new[n]).route_key is None
        }
}

/// The children that the nodes of `old` have in `new`: no node has fewer, and a node that
/// had a child with a parameter still has one. Of the nodes that `old` had not, each but
/// `result` is needed.
pub open spec fn children_kept<K>(
    old: Seq<NodeView<K>>,
    new: Seq<NodeView<K>>,
    result: int,
) -> bool {
    &&& forall|n: int|
        0 <= n < old.len() ==> (#[trigger] new[n]).children.len() >= old[n].children.len()
    &&& forall|n: int|
        0 <= n < old.len() && has_parameter_child(old, n) ==> #[trigger] has_parameter_child(
            new,
            n,
        )
    &&& forall|n: int| old.len() <= n < new.len() && n != result ==> #[trigger] lean_at(new, n)
}

/// What a merge that succeeded leaves: an orderly tree, well formed if `old` was and the
/// fragment is no literal with text behind a parameter without anchor, that keeps the nodes
/// of `old` with
/// their patterns and routes, in which `result` stands for the fragment below `parent` and
/// carries the route that was given, if one was. Where `result` is a node that `old` had, the
/// tree is as it was but for that route; where it is not, no parameter follows it yet.
pub open spec fn merged<K>(
    old: Seq<NodeView<K>>,
    new: Seq<NodeView<K>>,
    parent: int,
    anchor: Seq<char>,
    has_parameter: bool,
    route_key: Option<K>,
    route_parameter_names: Seq<Seq<char>>,
    result: int,
) -> bool {
    &&& orderly(new)
    &&& well_formed(old) && fragment_fits(old, parent, anchor, has_parameter) ==> well_formed(new)
    &&& patterns_kept(old, new)
    &&& routes_kept(old, new, result)
    &&& children_kept(old, new, result)
    &&& has_parameter ==> has_parameter_child(new, parent)
    &&& 0 <= result < new.len()
    &&& result < old.len() ==> new == joined(old, result, route_key, route_parameter_names)
    &&& result >= old.len() ==> !has_parameter_child(new, result)
    &&& pattern(new, result) == extend(pattern(old, parent), has_parameter, anchor)
    &&& match route_key {
        Some(key) => new[result].route_key == Some(key) && new[result].route_parameter_names
            == route_parameter_names,
        None => if result < old.len() {
            same_route(old, new, result)
        } else {
            new[result].route_key is None
        },
    }
}

/// The position among the children of `parent` at which a node with the slot
/// `(anchor, has_parameter)` belongs.
fn sorted_position<K>(
    tree: &RouteTree<K>,
    parent: usize,
    anchor: &[char],
    has_parameter: bool,
) -> (position: usize)
    requires
        parent < tree@.len(),
        children_sorted(tree@, parent as int),
        slot_free(tree@, parent as int, anchor@, has_parameter),
        forall|i: int|
            0 <= i < tree@[parent as int].children.len() ==> 0
                <= #[trigger] tree@[parent as int].children[i] < tree@.len(),
    ensures
        position <= tree@[parent as int].children.len(),
        sorted_at(tree@, parent as int, position as int, anchor@, has_parameter),
{
    let node = tree.node(&RouteNodeRc(parent));
    let count = node.child_count();
    let ghost children = tree@[parent as int].children;
    let mut position: usize = 0;
    let mut found = false;
    while position < count && !found
        invariant
            parent < tree@.len(),
            node@ == tree@[parent as int],
            children == tree@[parent as int].children,
            count == children.len(),
            position <= count,
            forall|i: int| 0 <= i < children.len() ==> 0 <= #[trigger] children[i] < tree@.len(),
            forall|i: int|
                0 <= i < position ==> slot_precedes(
                    tree@[#[trigger] children[i]].anchor,
                    tree@[children[i]].has_parameter,
                    anchor@,
                    has_parameter,
                ),
            found ==> position < count && !slot_precedes(
                tree@[children[position as int]].anchor,
                tree@[children[position as int]].has_parameter,
                anchor@,
                has_parameter,
            ),
        decreases count - position, if found { 0int } else { 1int },
    {
        let child_rc = node.child(position);
        assert(0 <= children[position as int] < tree@.len());
        let child = tree.node(&child_rc);
        if slot_precedes_exec(
            child.anchor().as_slice(),
            child.has_parameter(),
            anchor,
            has_parameter,
        ) {
            position += 1;
        } else {
            found = true;
        }
    }
    proof {
        assert forall|i: int| position <= i < children.len() implies slot_precedes(
            anchor@,
            has_parameter,
            tree@[#[trigger] children[i]].anchor,
            tree@[children[i]].has_parameter,
        ) by {
            let first = children[position as int];
            let other = children[i];
            lemma_slot_order_total(
                tree@[first].anchor,
                tree@[first].has_parameter,
                anchor@,
                has_parameter,
            );
            assert(!same_slot(
                tree@[children[position as int]].anchor,
                tree@[children[position as int]].has_parameter,
                anchor@,
                has_parameter,
            ));
            if i > position {
                lemma_slot_order_transitive(
                    anchor@,
                    has_parameter,
                    tree@[first].anchor,
                    tree@[first].has_parameter,
                    tree@[other].anchor,
                    tree@[other].has_parameter,
                );
            }
        }
    }
    position
}

/// The names that a node stores: those given if it carries a route, none if it does not.
pub open spec fn stored<K>(route_key: Option<K>, route_parameter_names: Seq<Seq<char>>) -> Seq<
    Seq<char>,
> {
    if route_key is Some {
        route_parameter_names
    } else {
        Seq::empty()
    }
}

/// `new` is `old` with one more node, a leaf for the fragment `(anchor, has_parameter)` with
/// the route given, listed at its place in sibling order among the children of `parent`.
pub open spec fn leaf_for<K>(
    old: Seq<NodeView<K>>,
    new: Seq<NodeView<K>>,
    parent: int,
    anchor: Seq<char>,
    has_parameter: bool,
    route_key: Option<K>,
    route_parameter_names: Seq<Seq<char>>,
) -> bool {
    let leaf = new[old.len() as int];
    &&& leaf.anchor == anchor
    &&& leaf.has_parameter == has_parameter
    &&& leaf.route_key == route_key
    &&& leaf.route_parameter_names == stored(route_key, route_parameter_names)
    &&& exists|position: int|
        leaf_added(old, new, parent, position) && sorted_at(
            old,
            parent,
            position,
            anchor,
            has_parameter,
        )
}

/// `new` is `old` with one more node, with the route given, put between `parent` and its
/// child `child`, at its place in sibling order: the new node takes the first `cut`
/// characters of the child's anchor and the child's flag, the child keeps the rest of its
/// anchor, without a parameter, as the new node's only child.
pub open spec fn put_between<K>(
    old: Seq<NodeView<K>>,
    new: Seq<NodeView<K>>,
    parent: int,
    child: int,
    cut: int,
    route_key: Option<K>,
    route_parameter_names: Seq<Seq<char>>,
) -> bool {
    let between = new[old.len() as int];
    &&& between.route_key == route_key
    &&& between.route_parameter_names == stored(route_key, route_parameter_names)
    &&& exists|child_position: int, position: int|
        #[trigger] interposed(old, new, parent, child_position, position, cut)
            && old[parent].children[child_position] == child
}

/// The names that a node stores: those given if it carries a route, none if it does not.
fn stored_names<K>(route_key: &Option<K>, route_parameter_names: Vec<String>) -> (names: Vec<
    String,
>)
    ensures
        names.deep_view() == stored(*route_key, route_parameter_names.deep_view()),
{
    if route_key.is_some() {
        route_parameter_names
    } else {
        let names: Vec<String> = Vec::new();
        assert(names.deep_view() =~= Seq::<Seq<char>>::empty());
        names
    }
}

/// Creates a node for the fragment and lists it among the children of `parent_node_rc`, where
/// no child is similar to the fragment or takes its slot.
pub fn route_node_merge_new<K>(
    tree: &mut RouteTree<K>,
    parent_node_rc: &RouteNodeRc,
    anchor: &[char],
    has_parameter: bool,
    route_key: Option<K>,
    route_parameter_names: Vec<String>,
) -> (node: RouteNodeRc)
    requires
        orderly(old(tree)@),
        old(tree).has(*parent_node_rc),
        no_similar(old(tree)@, parent_node_rc@, anchor@, has_parameter),
        slot_free(old(tree)@, parent_node_rc@, anchor@, has_parameter),
        has_parameter || anchor@.len() > 0,
    ensures
        merged(
            old(tree)@,
            final(tree)@,
            parent_node_rc@,
            anchor@,
            has_parameter,
            route_key,
            route_parameter_names.deep_view(),
            node@,
        ),
        node@ == old(tree)@.len(),
        leaf_for(
            old(tree)@,
            final(tree)@,
            parent_node_rc@,
            anchor@,
            has_parameter,
            route_key,
            route_parameter_names.deep_view(),
        ),
{
    let parent = parent_node_rc.0;
    proof {
        assert(node_orderly(tree@, parent as int));
        assert forall|i: int| 0 <= i < tree@[parent as int].children.len() implies 0
            <= #[trigger] tree@[parent as int].children[i] < tree@.len() by {
            assert(owned(tree@, parent as int, tree@[parent as int].children[i]));
        }
    }
    let position = sorted_position(tree, parent, anchor, has_parameter);
    let names = stored_names(&route_key, route_parameter_names);
    let leaf = tree.push_node(
        slice_to_vec(anchor),
        has_parameter,
        route_key,
        names,
        Vec::new(),
        Some(parent),
    );
    tree.insert_child(parent, position, leaf);
    proof {
        let before = old(tree)@;
        let after = tree@;
        assert(after[leaf as int].children =~= Seq::<int>::empty());
        assert(leaf_added(before, after, parent as int, position as int));
        assert(sorted_at(before, parent as int, position as int, anchor@, has_parameter));
        lemma_leaf_added_orderly(before, after, parent as int, position as int);
        lemma_leaf_added_children(before, after, parent as int, position as int);
        assert forall|n: int| 0 <= n < before.len() implies #[trigger] pattern(after, n)
            == pattern(before, n) by {
            lemma_pattern_kept(before, after, -1, n);
        }
        assert(attached(after, leaf as int));
        assert(pattern(after, parent as int) == pattern(before, parent as int));
        assert(routes_kept(before, after, leaf as int));
    }
    RouteNodeRc(leaf)
}

/// What the route of `node` is after a route was joined to it: the route given, if one was
/// given; else the route it had.
pub open spec fn joined<K>(
    old: Seq<NodeView<K>>,
    node: int,
    route_key: Option<K>,
    route_parameter_names: Seq<Seq<char>>,
) -> Seq<NodeView<K>> {
    if route_key is Some {
        old.update(node, NodeView { route_key, route_parameter_names, ..old[node] })
    } else {
        old
    }
}

/// A tree stays well formed, with every pattern, when a node is given a route.
proof fn lemma_joined<K>(
    old: Seq<NodeView<K>>,
    node: int,
    route_key: Option<K>,
    route_parameter_names: Seq<Seq<char>>,
)
    requires
        orderly(old),
        0 <= node < old.len(),
    ensures
        orderly(joined(old, node, route_key, route_parameter_names)),
        well_formed(old) ==> well_formed(joined(old, node, route_key, route_parameter_names)),
        patterns_kept(old, joined(old, node, route_key, route_parameter_names)),
        children_kept(old, joined(old, node, route_key, route_parameter_names), node),
{
    let new = joined(old, node, route_key, route_parameter_names);
    assert(new.len() == old.len());
    assert forall|n: int|
        0 <= n < old.len() && has_parameter_child(old, n) implies #[trigger] has_parameter_child(
        new,
        n,
    ) by {
        let i = choose|i: int|
            0 <= i < old[n].children.len() && old[#[trigger] old[n].children[i]].has_parameter;
        assert(owned(old, n, old[n].children[i]));
        assert(new[new[n].children[i]].has_parameter);
    }
    assert forall|n: int| 0 <= n < new.len() implies new[n].parent == old[n].parent
        && new[n].children == old[n].children && new[n].anchor == old[n].anchor
        && new[n].has_parameter == old[n].has_parameter by {}
    assert forall|n: int| 0 < n < new.len() implies attached(new, n) by {
        assert(attached(old, n));
    }
    assert forall|n: int, i: int|
        0 <= n < new.len() && 0 <= i < new[n].children.len() implies owned(
        new,
        n,
        #[trigger] new[n].children[i],
    ) by {
        assert(owned(old, n, old[n].children[i]));
    }
    assert(ranked(old, ranks_of(old)));
    assert(ranked(new, ranks_of(old)));
    assert forall|n: int| 0 <= n < new.len() implies #[trigger] node_orderly(new, n) && (
    well_formed(old) ==> only_parameters_follow(new, n)) by {
        assert(node_orderly(old, n));
        if well_formed(old) {
            assert(node_ok(old, n));
        }
        assert forall|i: int|
            0 <= i < new[n].children.len() implies new[#[trigger] new[n].children[i]].anchor
            == old[old[n].children[i]].anchor && new[new[n].children[i]].has_parameter
            == old[old[n].children[i]].has_parameter by {
            assert(owned(old, n, old[n].children[i]));
        }
    }
    if well_formed(old) {
        assert forall|n: int| 0 <= n < new.len() implies #[trigger] node_ok(new, n) by {
            assert(node_orderly(new, n));
        }
    }
    assert forall|n: int| 0 <= n < old.len() implies #[trigger] pattern(new, n) == pattern(
        old,
        n,
    ) by {
        lemma_pattern_kept(old, new, -1, n);
    }
}

/// The fragment is already represented by `child_node_rc`: gives that node, after it took
/// the route if one was given. A route for a node that carries one is refused.
pub fn route_node_merge_join<K>(
    tree: &mut RouteTree<K>,
    child_node_rc: &RouteNodeRc,
    route_key: Option<K>,
    route_parameter_names: Vec<String>,
) -> (joined_node: Result<RouteNodeRc, RouteError>)
    requires
        orderly(old(tree)@),
        old(tree).has(*child_node_rc),
    ensures
        joined_node is Err <==> route_key is Some && old(tree)@[child_node_rc@].route_key is Some,
        match joined_node {
            Ok(node) => node == *child_node_rc && final(tree)@ == joined(
                old(tree)@,
                child_node_rc@,
                route_key,
                route_parameter_names.deep_view(),
            ),
            Err(error) => error == RouteError::AmbiguousRoute && final(tree)@ == old(tree)@,
        },
        orderly(final(tree)@),
        well_formed(old(tree)@) ==> well_formed(final(tree)@),
        patterns_kept(old(tree)@, final(tree)@),
        children_kept(old(tree)@, final(tree)@, child_node_rc@),
{
    proof {
        lemma_joined(tree@, child_node_rc@, route_key, route_parameter_names.deep_view());
        lemma_joined(tree@, child_node_rc@, None, route_parameter_names.deep_view());
    }
    if route_key.is_some() {
        if tree.node(child_node_rc).route_key().is_some() {
            return Err(RouteError::AmbiguousRoute);
        }
        tree.set_route(child_node_rc.0, route_key, route_parameter_names);
    }
    Ok(*child_node_rc)
}

/// The position at which `parent` lists its child `child`.
fn position_of_child<K>(tree: &RouteTree<K>, parent: usize, child: usize) -> (position: usize)
    requires
        parent < tree@.len(),
        tree@[parent as int].children.contains(child as int),
    ensures
        position < tree@[parent as int].children.len(),
        tree@[parent as int].children[position as int] == child,
{
    let node = tree.node(&RouteNodeRc(parent));
    let ghost listed = choose|i: int|
        0 <= i < node@.children.len() && node@.children[i] == child as int;
    let count = node.child_count();
    let mut position: usize = 0;
    while node.child(position).0 != child
        invariant
            0 <= position <= listed < node@.children.len(),
            node@.children.len() == count,
            node@.children[listed] == child as int,
        decreases listed - position,
    {
        position += 1;
    }
    position
}

/// Puts a new node between `parent_node_rc` and its child `child_node_rc`. The new node
/// takes the first `cut` characters of the child's anchor, the child's flag and the route
/// given; the child keeps the rest of its anchor, without a parameter.
fn interpose<K>(
    tree: &mut RouteTree<K>,
    parent_node_rc: &RouteNodeRc,
    child_node_rc: &RouteNodeRc,
    cut: usize,
    route_key: Option<K>,
    route_parameter_names: Vec<String>,
) -> (between: RouteNodeRc)
    requires
        orderly(old(tree)@),
        old(tree).has(*parent_node_rc),
        old(tree).has(*child_node_rc),
        old(tree)@[child_node_rc@].parent == Some(parent_node_rc@),
        0 < cut < old(tree)@[child_node_rc@].anchor.len(),
    ensures
        orderly(final(tree)@),
        well_formed(old(tree)@) ==> well_formed(final(tree)@),
        final(tree)@.len() == old(tree)@.len() + 1,
        between@ == old(tree)@.len(),
        patterns_kept(old(tree)@, final(tree)@),
        routes_kept(old(tree)@, final(tree)@, between@),
        final(tree)@[between@].route_key == route_key,
        final(tree)@[between@].route_parameter_names == (if route_key is Some {
            route_parameter_names.deep_view()
        } else {
            Seq::<Seq<char>>::empty()
        }),
        pattern(final(tree)@, between@) == extend(
            pattern(old(tree)@, parent_node_rc@),
            old(tree)@[child_node_rc@].has_parameter,
            old(tree)@[child_node_rc@].anchor.take(cut as int),
        ),
        final(tree)@[between@].children == seq![child_node_rc@],
        final(tree)@[between@].anchor == old(tree)@[child_node_rc@].anchor.take(cut as int),
        final(tree)@[between@].has_parameter == old(tree)@[child_node_rc@].has_parameter,
        final(tree)@[child_node_rc@].anchor == old(tree)@[child_node_rc@].anchor.skip(cut as int),
        !final(tree)@[child_node_rc@].has_parameter,
        children_kept(old(tree)@, final(tree)@, between@),
        old(tree)@[child_node_rc@].has_parameter ==> has_parameter_child(
            final(tree)@,
            parent_node_rc@,
        ),
        put_between(
            old(tree)@,
            final(tree)@,
            parent_node_rc@,
            child_node_rc@,
            cut as int,
            route_key,
            route_parameter_names.deep_view(),
        ),
{
    let parent = parent_node_rc.0;
    let child = child_node_rc.0;
    let ghost before = tree@;
    proof {
        assert(child != 0);
        assert(attached(before, child as int));
    }
    let child_position = position_of_child(tree, parent, child);
    let child_node = tree.node(child_node_rc);
    let has_parameter = child_node.has_parameter();
    let child_anchor = child_node.anchor().as_slice();
    let front = slice_to_vec(slice_subrange(child_anchor, 0, cut));
    let rest = slice_to_vec(slice_subrange(child_anchor, cut, child_anchor.len()));
    tree.remove_child(parent, child_position);
    let ghost others = before[parent as int].children.remove(child_position as int);
    proof {
        assert(node_orderly(before, parent as int));
        assert(tree@[parent as int].children == others);
        assert(similar(front@, has_parameter, before[child as int].anchor, has_parameter)) by {
            assert(front@[0] == before[child as int].anchor[0]);
        }
        assert forall|i: int| 0 <= i < others.len() implies 0 <= #[trigger] others[i] < tree@.len()
            && tree@[others[i]].anchor == before[others[i]].anchor && tree@[others[i]].has_parameter
            == before[others[i]].has_parameter && !similar(
            before[others[i]].anchor,
            before[others[i]].has_parameter,
            front@,
            has_parameter,
        ) && !same_slot(
            before[others[i]].anchor,
            before[others[i]].has_parameter,
            front@,
            has_parameter,
        ) by {
            let k = if i < child_position { i } else { i + 1 };
            assert(others[i] == before[parent as int].children[k]);
            assert(owned(before, parent as int, before[parent as int].children[k]));
            lemma_similar_equivalence(
                before[others[i]].anchor,
                before[others[i]].has_parameter,
                front@,
                has_parameter,
                before[child as int].anchor,
                has_parameter,
            );
        }
        assert forall|i: int, j: int| 0 <= i < j < others.len() implies slot_precedes(
            tree@[#[trigger] others[i]].anchor,
            tree@[others[i]].has_parameter,
            tree@[#[trigger] others[j]].anchor,
            tree@[others[j]].has_parameter,
        ) by {
            let ki = if i < child_position { i } else { i + 1 };
            let kj = if j < child_position { j } else { j + 1 };
            assert(others[i] == before[parent as int].children[ki]);
            assert(others[j] == before[parent as int].children[kj]);
        }
    }
    let position = sorted_position(tree, parent, front.as_slice(), has_parameter);
    let names = stored_names(&route_key, route_parameter_names);
    let mut children: Vec<usize> = Vec::new();
    children.push(child);
    let between = tree.push_node(front, has_parameter, route_key, names, children, Some(parent));
    tree.insert_child(parent, position, between);
    tree.set_slot(child, rest, false);
    tree.set_parent(child, between);
    proof {
        let after = tree@;
        lemma_child_is_not_parent(before, parent as int, child_position as int);
        assert(after[between as int].children =~= seq![child as int]);
        assert(after[child as int] == NodeView {
            anchor: before[child as int].anchor.skip(cut as int),
            has_parameter: false,
            parent: Some(between as int),
            ..before[child as int]
        });
        assert(interposed(
            before,
            after,
            parent as int,
            child_position as int,
            position as int,
            cut as int,
        ));
        lemma_interposed_orderly(
            before,
            after,
            parent as int,
            child_position as int,
            position as int,
            cut as int,
        );
        lemma_interposed_children(
            before,
            after,
            parent as int,
            child_position as int,
            position as int,
            cut as int,
        );
        assert(after[between as int].anchor + after[child as int].anchor
            =~= before[child as int].anchor);
        assert forall|n: int| 0 <= n < before.len() implies #[trigger] pattern(after, n)
            == pattern(before, n) by {
            lemma_pattern_kept(before, after, child as int, n);
        }
        assert(attached(after, between as int));
        assert(pattern(after, parent as int) == pattern(before, parent as int));
        assert(pattern(after, between as int) == extend(
            pattern(before, parent as int),
            has_parameter,
            front@,
        ));
        assert(routes_kept(before, after, between as int));
    }
    RouteNodeRc(between)
}

/// `child` and `length` are what the search for a similar child gives for the fragment
/// below `parent`: the first child, in sibling order, with the flag of the fragment and an
/// anchor that shares a prefix with `anchor`, and the length of that prefix, which is not 0;
/// or no child, where none is similar.
pub open spec fn found_similar<K>(
    nodes: Seq<NodeView<K>>,
    parent: int,
    anchor: Seq<char>,
    has_parameter: bool,
    child: Option<int>,
    length: int,
) -> bool {
    &&& child == similar_child(nodes, parent, anchor, has_parameter)
    &&& child matches Some(c) ==> length == common_prefix_length(anchor, nodes[c].anchor)
}

/// What a merge makes of the tree, case by case. With a similar child: the fragment joins
/// the child where their anchors are the same; goes on below the child, with the rest of its
/// anchor as a literal, where the child's anchor is the front of its own; is put between
/// parent and child where its anchor is the front of the child's; and else parts from the
/// child at a new node for what their anchors share, below which it gets a leaf. With no
/// similar child: a literal fragment without text joins the parent, a parameter without
/// anchor joins the child that takes that very slot, and any other fragment gets a leaf.
pub open spec fn merged_as<K>(
    old: Seq<NodeView<K>>,
    new: Seq<NodeView<K>>,
    parent: int,
    anchor: Seq<char>,
    has_parameter: bool,
    route_key: Option<K>,
    route_parameter_names: Seq<Seq<char>>,
    result: int,
) -> bool
    decreases anchor.len(),
{
    match similar_child(old, parent, anchor, has_parameter) {
        Some(child) => {
            let length = common_prefix_length(anchor, old[child].anchor) as int;
            if length == anchor.len() && length == old[child].anchor.len() {
                result == child && new == joined(old, child, route_key, route_parameter_names)
            } else if length == old[child].anchor.len() {
                0 < length < anchor.len() && merged_as(
                    old,
                    new,
                    child,
                    anchor.skip(length),
                    false,
                    route_key,
                    route_parameter_names,
                    result,
                )
            } else if length == anchor.len() {
                result == old.len() && put_between(
                    old,
                    new,
                    parent,
                    child,
                    length,
                    route_key,
                    route_parameter_names,
                )
            } else {
                result == old.len() + 1 && exists|between: Seq<NodeView<K>>|
                    #[trigger] put_between(
                        old,
                        between,
                        parent,
                        child,
                        length,
                        None,
                        Seq::empty(),
                    ) && leaf_for(
                        between,
                        new,
                        old.len() as int,
                        anchor.skip(length),
                        false,
                        route_key,
                        route_parameter_names,
                    )
            }
        },
        None => if anchor.len() == 0 && !has_parameter {
            result == parent && new == joined(old, parent, route_key, route_parameter_names)
        } else if anchor.len() == 0 && slot_child(old, parent, anchor, has_parameter) is Some {
            result == slot_child(old, parent, anchor, has_parameter)->0 && new == joined(
                old,
                result,
                route_key,
                route_parameter_names,
            )
        } else {
            result == old.len() && leaf_for(
                old,
                new,
                parent,
                anchor,
                has_parameter,
                route_key,
                route_parameter_names,
            )
        },
    }
}

/// A literal fragment without text adds nothing to a pattern.
pub proof fn lemma_extend_by_nothing(parent_pattern: Seq<Seq<char>>)
    requires
        parent_pattern.len() > 0,
    ensures
        extend(parent_pattern, false, Seq::<char>::empty()) == parent_pattern,
{
    assert(parent_pattern.last() + Seq::<char>::empty() =~= parent_pattern.last());
    assert(parent_pattern.drop_last().push(parent_pattern.last()) =~= parent_pattern);
}

/// What the similar child of a fragment is: a child of `parent`, with the flag of the
/// fragment, whose anchor shares `length` characters with that of the fragment, at least one
/// unless both anchors are empty.
proof fn lemma_found_similar<K>(
    nodes: Seq<NodeView<K>>,
    parent: int,
    anchor: Seq<char>,
    has_parameter: bool,
    child: int,
    length: int,
)
    requires
        orderly(nodes),
        0 <= parent < nodes.len(),
        found_similar(nodes, parent, anchor, has_parameter, Some(child), length),
    ensures
        0 < child < nodes.len(),
        child != parent,
        nodes[child].parent == Some(parent),
        nodes[child].has_parameter == has_parameter,
        pattern(nodes, child) == extend(
            pattern(nodes, parent),
            has_parameter,
            nodes[child].anchor,
        ),
        0 <= length <= anchor.len(),
        length <= nodes[child].anchor.len(),
        anchor.take(length) == nodes[child].anchor.take(length),
        length == anchor.len() || length == nodes[child].anchor.len() || anchor[length]
            != nodes[child].anchor[length],
        length > 0,
        has_parameter ==> has_parameter_child(nodes, parent),
{
    lemma_similar_child_from(nodes, parent, anchor, has_parameter, 0);
    let i = choose|i: int|
        0 <= i < nodes[parent].children.len() && #[trigger] nodes[parent].children[i] == child
            && similar(nodes[child].anchor, nodes[child].has_parameter, anchor, has_parameter);
    if has_parameter {
        assert(nodes[nodes[parent].children[i]].has_parameter);
    }
    lemma_child_is_not_parent(nodes, parent, i);
    lemma_common_prefix_length(anchor, nodes[child].anchor);
    lemma_common_prefix_length_symmetric(anchor, nodes[child].anchor);
}

/// A node with the pattern `pieces` carries a route exactly if some node with that pattern
/// does: no other node has the pattern.
proof fn lemma_carried_at<K>(nodes: Seq<NodeView<K>>, n: int)
    requires
        well_formed(nodes),
        0 <= n < nodes.len(),
    ensures
        carries_route(nodes, pattern(nodes, n)) <==> nodes[n].route_key is Some,
{
    if nodes[n].route_key is Some {
        assert(routed_at(nodes, n, pattern(nodes, n)));
    }
    if carries_route(nodes, pattern(nodes, n)) {
        let m = choose|m: int| routed_at(nodes, m, pattern(nodes, n));
        lemma_pattern_injective(nodes, m, n);
    }
}

/// Where a fragment does not end at a node of the tree, no node has the pattern of the
/// fragment, and so none carries a route for it.
proof fn lemma_not_carried<K>(
    nodes: Seq<NodeView<K>>,
    parent: int,
    anchor: Seq<char>,
    has_parameter: bool,
)
    requires
        well_formed(nodes),
        0 <= parent < nodes.len(),
        fragment_fits(nodes, parent, anchor, has_parameter),
        terminal(nodes, parent, anchor, has_parameter) is None,
    ensures
        !carries_route(nodes, extend(pattern(nodes, parent), has_parameter, anchor)),
{
    let target = extend(pattern(nodes, parent), has_parameter, anchor);
    if carries_route(nodes, target) {
        let m = choose|m: int| routed_at(nodes, m, target);
        lemma_terminal_complete(nodes, parent, anchor, has_parameter, m);
    }
}

/// Merges the fragment `(anchor, has_parameter)` into the tree below `parent_node_rc` and
/// gives the node that stands for it. `child_node_rc` and `common_prefix_length` are what
/// `route_node_find_similar_child` gave for the fragment.
///
/// With a similar child the fragment joins it, goes on below it, takes its place above it or
/// parts from it at a new node between the two, as their anchors stand to each other. With
/// none, a literal fragment without text ends at the parent itself, a parameter without
/// anchor joins the child that takes that very slot, and any other fragment gets a leaf of
/// its own.
///
/// With a route key the node takes the route; if it carries one already, the merge is
/// refused and the tree is left as it was.
pub fn route_node_merge<K>(
    tree: &mut RouteTree<K>,
    parent_node_rc: &RouteNodeRc,
    child_node_rc: Option<&RouteNodeRc>,
    anchor: &[char],
    has_parameter: bool,
    route_key: Option<K>,
    route_parameter_names: Vec<String>,
    common_prefix_length: usize,
) -> (merged_node: Result<RouteNodeRc, RouteError>)
    requires
        orderly(old(tree)@),
        old(tree).has(*parent_node_rc),
        found_similar(
            old(tree)@,
            parent_node_rc@,
            anchor@,
            has_parameter,
            match child_node_rc {
                Some(child) => Some(child@),
                None => None,
            },
            common_prefix_length as int,
        ),
    ensures
        match merged_node {
            Ok(node) => merged(
                old(tree)@,
                final(tree)@,
                parent_node_rc@,
                anchor@,
                has_parameter,
                route_key,
                route_parameter_names.deep_view(),
                node@,
            ),
            Err(error) => error == RouteError::AmbiguousRoute && final(tree)@ == old(tree)@,
        },
        merged_node matches Ok(node) ==> merged_as(
            old(tree)@,
            final(tree)@,
            parent_node_rc@,
            anchor@,
            has_parameter,
            route_key,
            route_parameter_names.deep_view(),
            node@,
        ),
        merged_node is Err <==> route_key is Some && ends_at_route(
            old(tree)@,
            parent_node_rc@,
            anchor@,
            has_parameter,
        ),
        well_formed(old(tree)@) && fragment_fits(
            old(tree)@,
            parent_node_rc@,
            anchor@,
            has_parameter,
        ) ==> (merged_node is Err <==> route_key is Some && carries_route(
            old(tree)@,
            extend(pattern(old(tree)@, parent_node_rc@), has_parameter, anchor@),
        )),
        merged_node is Err && has_parameter ==> has_parameter_child(old(tree)@, parent_node_rc@),
    decreases anchor@.len(), 1int,
{
    let ghost before = tree@;
    let ghost target = extend(pattern(before, parent_node_rc@), has_parameter, anchor@);
    match child_node_rc {
        Some(child_node_rc) => {
            proof {
                lemma_found_similar(
                    before,
                    parent_node_rc@,
                    anchor@,
                    has_parameter,
                    child_node_rc@,
                    common_prefix_length as int,
                );
            }
            let child_anchor_length = tree.node(child_node_rc).anchor().len();
            if common_prefix_length == child_anchor_length && common_prefix_length
                == anchor.len() {
                assert(anchor@ =~= before[child_node_rc@].anchor) by {
                    assert(anchor@.take(common_prefix_length as int) =~= anchor@);
                    assert(before[child_node_rc@].anchor.take(common_prefix_length as int)
                        =~= before[child_node_rc@].anchor);
                }
                let joined_node = route_node_merge_join(
                    tree,
                    child_node_rc,
                    route_key,
                    route_parameter_names,
                );
                proof {
                    if joined_node is Ok {
                        assert(pattern(tree@, child_node_rc@) == pattern(before, child_node_rc@));
                    }
                    if well_formed(before) {
                        lemma_carried_at(before, child_node_rc@);
                    }
                }
                joined_node
            } else if common_prefix_length == child_anchor_length {
                route_node_merge_add_to_child(
                    tree,
                    parent_node_rc,
                    child_node_rc,
                    anchor,
                    has_parameter,
                    route_key,
                    route_parameter_names,
                    common_prefix_length,
                )
            } else if common_prefix_length == anchor.len() {
                proof {
                    assert(!before[child_node_rc@].anchor.is_prefix_of(anchor@));
                    if well_formed(before) && fragment_fits(
                        before,
                        parent_node_rc@,
                        anchor@,
                        has_parameter,
                    ) {
                        lemma_not_carried(before, parent_node_rc@, anchor@, has_parameter);
                    }
                }
                Ok(
                    route_node_merge_add_to_new(
                        tree,
                        parent_node_rc,
                        child_node_rc,
                        anchor,
                        has_parameter,
                        route_key,
                        route_parameter_names,
                        common_prefix_length,
                    ),
                )
            } else {
                proof {
                    assert(!before[child_node_rc@].anchor.is_prefix_of(anchor@)) by {
                        if before[child_node_rc@].anchor.is_prefix_of(anchor@) {
                            assert(before[child_node_rc@].anchor[common_prefix_length as int]
                                == anchor@[common_prefix_length as int]);
                        }
                    }
                    if well_formed(before) && fragment_fits(
                        before,
                        parent_node_rc@,
                        anchor@,
                        has_parameter,
                    ) {
                        lemma_not_carried(before, parent_node_rc@, anchor@, has_parameter);
                    }
                }
                Ok(
                    route_node_merge_intermediate(
                        tree,
                        parent_node_rc,
                        child_node_rc,
                        anchor,
                        has_parameter,
                        route_key,
                        route_parameter_names,
                        common_prefix_length,
                    ),
                )
            }
        },
        None => {
            if !has_parameter && anchor.len() == 0 {
                proof {
                    assert(anchor@ =~= Seq::<char>::empty());
                    lemma_pattern_has_pieces(before, parent_node_rc@);
                    lemma_extend_by_nothing(pattern(before, parent_node_rc@));
                }
                let joined_node = route_node_merge_join(
                    tree,
                    parent_node_rc,
                    route_key,
                    route_parameter_names,
                );
                proof {
                    if joined_node is Ok {
                        assert(pattern(tree@, parent_node_rc@) == pattern(before, parent_node_rc@));
                    }
                    if well_formed(before) {
                        lemma_carried_at(before, parent_node_rc@);
                    }
                }
                joined_node
            } else {
                let same_slot_rc = if anchor.len() == 0 {
                    find_slot_child(tree, parent_node_rc, anchor, has_parameter)
                } else {
                    None
                };
                match same_slot_rc {
                    Some(same_slot_rc) => {
                        proof {
                            lemma_fragment_child_is_child(
                                before,
                                parent_node_rc@,
                                anchor@,
                                has_parameter,
                            );
                            assert(before[same_slot_rc@].anchor =~= anchor@);
                            let position = choose|i: int|
                                0 <= i < before[parent_node_rc@].children.len()
                                    && before[parent_node_rc@].children[i] == same_slot_rc@;
                            let listed = before[parent_node_rc@].children[position];
                            assert(before[listed].has_parameter);
                        }
                        let joined_node = route_node_merge_join(
                            tree,
                            &same_slot_rc,
                            route_key,
                            route_parameter_names,
                        );
                        proof {
                            if joined_node is Ok {
                                assert(pattern(tree@, same_slot_rc@) == pattern(
                                    before,
                                    same_slot_rc@,
                                ));
                            }
                            if well_formed(before) {
                                lemma_carried_at(before, same_slot_rc@);
                            }
                        }
                        joined_node
                    },
                    None => {
                        proof {
                            lemma_similar_child_from(
                                before,
                                parent_node_rc@,
                                anchor@,
                                has_parameter,
                                0,
                            );
                            lemma_slot_child_from(
                                before,
                                parent_node_rc@,
                                anchor@,
                                has_parameter,
                                0,
                            );
                            assert(slot_free(before, parent_node_rc@, anchor@, has_parameter)) by {
                                let children = before[parent_node_rc@].children;
                                assert forall|i: int| 0 <= i < children.len() implies !same_slot(
                                    before[#[trigger] children[i]].anchor,
                                    before[children[i]].has_parameter,
                                    anchor@,
                                    has_parameter,
                                ) by {
                                    lemma_similar_equivalence(
                                        anchor@,
                                        has_parameter,
                                        anchor@,
                                        has_parameter,
                                        anchor@,
                                        has_parameter,
                                    );
                                }
                            }
                            if well_formed(before) && fragment_fits(
                                before,
                                parent_node_rc@,
                                anchor@,
                                has_parameter,
                            ) {
                                lemma_not_carried(before, parent_node_rc@, anchor@, has_parameter);
                            }
                        }
                        Ok(
                            route_node_merge_new(
                                tree,
                                parent_node_rc,
                                anchor,
                                has_parameter,
                                route_key,
                                route_parameter_names,
                            ),
                        )
                    },
                }
            }
        },
    }
}

/// Looks among the children of `parent_node_rc` for the one that takes the very slot
/// `(anchor, has_parameter)`.
fn find_slot_child<K>(
    tree: &RouteTree<K>,
    parent_node_rc: &RouteNodeRc,
    anchor: &[char],
    has_parameter: bool,
) -> (found: Option<RouteNodeRc>)
    requires
        orderly(tree@),
        tree.has(*parent_node_rc),
    ensures
        match found {
            Some(child) => slot_child(tree@, parent_node_rc@, anchor@, has_parameter) == Some(
                child@,
            ),
            None => slot_child(tree@, parent_node_rc@, anchor@, has_parameter) is None,
        },
{
    let parent = tree.node(parent_node_rc);
    let count = parent.child_count();
    let mut position: usize = 0;
    while position < count
        invariant
            orderly(tree@),
            tree.has(*parent_node_rc),
            parent@ == tree@[parent_node_rc@],
            count == parent@.children.len(),
            position <= count,
            slot_child(tree@, parent_node_rc@, anchor@, has_parameter) == slot_child_from(
                tree@,
                parent_node_rc@,
                anchor@,
                has_parameter,
                position as int,
            ),
        decreases count - position,
    {
        let child_rc = parent.child(position);
        assert(owned(tree@, parent_node_rc@, tree@[parent_node_rc@].children[position as int]));
        let child = tree.node(&child_rc);
        if child.has_parameter() == has_parameter && chars_equal(
            child.anchor().as_slice(),
            anchor,
        ) {
            return Some(child_rc);
        }
        position += 1;
    }
    None
}

/// The pattern of a node has at least one piece.
pub proof fn lemma_pattern_has_pieces<K>(nodes: Seq<NodeView<K>>, n: int)
    requires
        orderly(nodes),
        0 <= n < nodes.len(),
    ensures
        pattern(nodes, n).len() > 0,
{
}

/// The anchor of `child_node_rc` is the front of the fragment's anchor: merges what is left
/// of the fragment, as a literal, below that child.
pub fn route_node_merge_add_to_child<K>(
    tree: &mut RouteTree<K>,
    parent_node_rc: &RouteNodeRc,
    child_node_rc: &RouteNodeRc,
    anchor: &[char],
    has_parameter: bool,
    route_key: Option<K>,
    route_parameter_names: Vec<String>,
    common_prefix_length: usize,
) -> (merged_node: Result<RouteNodeRc, RouteError>)
    requires
        orderly(old(tree)@),
        old(tree).has(*parent_node_rc),
        found_similar(
            old(tree)@,
            parent_node_rc@,
            anchor@,
            has_parameter,
            Some(child_node_rc@),
            common_prefix_length as int,
        ),
        common_prefix_length == old(tree)@[child_node_rc@].anchor.len(),
        common_prefix_length < anchor@.len(),
    ensures
        match merged_node {
            Ok(node) => merged(
                old(tree)@,
                final(tree)@,
                parent_node_rc@,
                anchor@,
                has_parameter,
                route_key,
                route_parameter_names.deep_view(),
                node@,
            ),
            Err(error) => error == RouteError::AmbiguousRoute && final(tree)@ == old(tree)@,
        },
        merged_node matches Ok(node) ==> merged_as(
            old(tree)@,
            final(tree)@,
            parent_node_rc@,
            anchor@,
            has_parameter,
            route_key,
            route_parameter_names.deep_view(),
            node@,
        ),
        merged_node is Err <==> route_key is Some && ends_at_route(
            old(tree)@,
            parent_node_rc@,
            anchor@,
            has_parameter,
        ),
        well_formed(old(tree)@) && fragment_fits(
            old(tree)@,
            parent_node_rc@,
            anchor@,
            has_parameter,
        ) ==> (merged_node is Err <==> route_key is Some && carries_route(
            old(tree)@,
            extend(pattern(old(tree)@, parent_node_rc@), has_parameter, anchor@),
        )),
        merged_node is Err && has_parameter ==> has_parameter_child(old(tree)@, parent_node_rc@),
    decreases anchor@.len(), 0int,
{
    let ghost before = tree@;
    proof {
        lemma_found_similar(
            before,
            parent_node_rc@,
            anchor@,
            has_parameter,
            child_node_rc@,
            common_prefix_length as int,
        );
    }
    let rest = slice_subrange(anchor, common_prefix_length, anchor.len());
    let (common_prefix_length_similar, child_node_rc_similar) = route_node_find_similar_child(
        tree,
        child_node_rc,
        rest,
        false,
    );
    let merged_node = route_node_merge(
        tree,
        child_node_rc,
        child_node_rc_similar.as_ref(),
        rest,
        false,
        route_key,
        route_parameter_names,
        common_prefix_length_similar,
    );
    proof {
        {
            lemma_extend_twice(
                pattern(before, parent_node_rc@),
                has_parameter,
                before[child_node_rc@].anchor,
                rest@,
            );
            assert(before[child_node_rc@].anchor + rest@ =~= anchor@) by {
                assert(before[child_node_rc@].anchor.take(common_prefix_length as int)
                    =~= before[child_node_rc@].anchor);
                assert(anchor@.take(common_prefix_length as int) + rest@ =~= anchor@);
            }
        }
    }
    merged_node
}

/// The fragment's anchor is the front of the anchor of `child_node_rc`: puts a new node for
/// the fragment in the child's place, and the child, with the rest of its anchor, below it.
pub fn route_node_merge_add_to_new<K>(
    tree: &mut RouteTree<K>,
    parent_node_rc: &RouteNodeRc,
    child_node_rc: &RouteNodeRc,
    anchor: &[char],
    has_parameter: bool,
    route_key: Option<K>,
    route_parameter_names: Vec<String>,
    common_prefix_length: usize,
) -> (node: RouteNodeRc)
    requires
        orderly(old(tree)@),
        old(tree).has(*parent_node_rc),
        found_similar(
            old(tree)@,
            parent_node_rc@,
            anchor@,
            has_parameter,
            Some(child_node_rc@),
            common_prefix_length as int,
        ),
        common_prefix_length == anchor@.len(),
        common_prefix_length < old(tree)@[child_node_rc@].anchor.len(),
    ensures
        merged(
            old(tree)@,
            final(tree)@,
            parent_node_rc@,
            anchor@,
            has_parameter,
            route_key,
            route_parameter_names.deep_view(),
            node@,
        ),
        node@ == old(tree)@.len(),
        put_between(
            old(tree)@,
            final(tree)@,
            parent_node_rc@,
            child_node_rc@,
            common_prefix_length as int,
            route_key,
            route_parameter_names.deep_view(),
        ),
{
    proof {
        lemma_found_similar(
            tree@,
            parent_node_rc@,
            anchor@,
            has_parameter,
            child_node_rc@,
            common_prefix_length as int,
        );
        assert(anchor@.take(common_prefix_length as int) =~= anchor@);
    }
    interpose(
        tree,
        parent_node_rc,
        child_node_rc,
        common_prefix_length,
        route_key,
        route_parameter_names,
    )
}

/// The fragment and `child_node_rc` share the front of their anchors and then part: puts a
/// node for the shared front in the child's place, and below it the child and a new node for
/// the fragment, each with the rest of its anchor.
pub fn route_node_merge_intermediate<K>(
    tree: &mut RouteTree<K>,
    parent_node_rc: &RouteNodeRc,
    child_node_rc: &RouteNodeRc,
    anchor: &[char],
    has_parameter: bool,
    route_key: Option<K>,
    route_parameter_names: Vec<String>,
    common_prefix_length: usize,
) -> (node: RouteNodeRc)
    requires
        orderly(old(tree)@),
        old(tree).has(*parent_node_rc),
        found_similar(
            old(tree)@,
            parent_node_rc@,
            anchor@,
            has_parameter,
            Some(child_node_rc@),
            common_prefix_length as int,
        ),
        common_prefix_length < anchor@.len(),
        common_prefix_length < old(tree)@[child_node_rc@].anchor.len(),
    ensures
        merged(
            old(tree)@,
            final(tree)@,
            parent_node_rc@,
            anchor@,
            has_parameter,
            route_key,
            route_parameter_names.deep_view(),
            node@,
        ),
        node@ == old(tree)@.len() + 1,
        exists|between: Seq<NodeView<K>>|
            #[trigger] put_between(
                old(tree)@,
                between,
                parent_node_rc@,
                child_node_rc@,
                common_prefix_length as int,
                None,
                Seq::empty(),
            ) && leaf_for(
                between,
                final(tree)@,
                old(tree)@.len() as int,
                anchor@.skip(common_prefix_length as int),
                false,
                route_key,
                route_parameter_names.deep_view(),
            ),
{
    let ghost before = tree@;
    proof {
        lemma_found_similar(
            before,
            parent_node_rc@,
            anchor@,
            has_parameter,
            child_node_rc@,
            common_prefix_length as int,
        );
    }
    let no_names: Vec<String> = Vec::new();
    let ghost none = no_names.deep_view();
    let intermediate_node_rc = interpose(
        tree,
        parent_node_rc,
        child_node_rc,
        common_prefix_length,
        None,
        no_names,
    );
    let ghost between = tree@;
    proof {
        assert(stored(None::<K>, none) == stored(None::<K>, Seq::empty()));
        assert(put_between(
            before,
            between,
            parent_node_rc@,
            child_node_rc@,
            common_prefix_length as int,
            None,
            Seq::empty(),
        ));
    }
    let rest = slice_subrange(anchor, common_prefix_length, anchor.len());
    proof {
        assert(between[intermediate_node_rc@].children[0] == child_node_rc@);
        assert(!similar(
            between[child_node_rc@].anchor,
            between[child_node_rc@].has_parameter,
            rest@,
            false,
        )) by {
            assert(between[child_node_rc@].anchor[0]
                == before[child_node_rc@].anchor[common_prefix_length as int]);
            assert(rest@[0] == anchor@[common_prefix_length as int]);
        }
    }
    let node = route_node_merge_new(
        tree,
        &intermediate_node_rc,
        rest,
        false,
        route_key,
        route_parameter_names,
    );
    proof {
        let after = tree@;
        lemma_extend_twice(
            pattern(before, parent_node_rc@),
            has_parameter,
            anchor@.take(common_prefix_length as int),
            rest@,
        );
        assert(anchor@.take(common_prefix_length as int) + rest@ =~= anchor@);
        assert forall|n: int| 0 <= n < before.len() implies #[trigger] pattern(after, n)
            == pattern(before, n) by {
            assert(pattern(between, n) == pattern(before, n));
        }
        assert(routes_kept(before, after, node@)) by {
            assert forall|n: int| 0 <= n < after.len() && n != node@ implies if n < before.len() {
                same_route(before, after, n)
            } else {
                (#[trigger] after[n]).route_key is None
            } by {
                assert(same_route(between, after, n));
            }
        }
        assert(rest@ == anchor@.skip(common_prefix_length as int));
        assert(leaf_for(
            between,
            after,
            before.len() as int,
            anchor@.skip(common_prefix_length as int),
            false,
            route_key,
            route_parameter_names.deep_view(),
        ));
    }
    node
}

} // verus!
