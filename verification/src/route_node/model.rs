use crate::route_node::NodeView;
use crate::string_utility::common_prefix_length;
use vstd::prelude::*;

verus! {

/// Two ranks for every node: `depth` grows from a parent to its children, `height` shrinks.
/// Their existence says that following parent links, or child links, always comes to an end.
pub ghost struct Ranks {
    pub depth: Seq<nat>,
    pub height: Seq<nat>,
}

/// Lexicographic order on character sequences.
pub open spec fn lex_less(a: Seq<char>, b: Seq<char>) -> bool
    decreases a.len(),
{
    if b.len() == 0 {
        false
    } else if a.len() == 0 {
        true
    } else if a[0] != b[0] {
        a[0] < b[0]
    } else {
        lex_less(a.drop_first(), b.drop_first())
    }
}

/// The order in which siblings are kept and tried: the longer anchor first; among anchors of
/// one length the node without a parameter first; then the anchors in lexicographic order.
pub open spec fn slot_precedes(a: Seq<char>, pa: bool, b: Seq<char>, pb: bool) -> bool {
    if a.len() != b.len() {
        a.len() > b.len()
    } else if pa != pb {
        !pa
    } else {
        lex_less(a, b)
    }
}

/// Two slots are similar when they carry the same parameter flag and their anchors share a
/// common prefix that is not empty.
pub open spec fn similar(a: Seq<char>, pa: bool, b: Seq<char>, pb: bool) -> bool {
    pa == pb && common_prefix_length(a, b) > 0
}

/// Two slots are the same when they carry the same parameter flag and the same anchor.
pub open spec fn same_slot(a: Seq<char>, pa: bool, b: Seq<char>, pb: bool) -> bool {
    pa == pb && a == b
}

/// Node `n` has a parent, which lists it among its children.
pub open spec fn attached<K>(nodes: Seq<NodeView<K>>, n: int) -> bool {
    nodes[n].parent matches Some(p) && 0 <= p < nodes.len() && nodes[p].children.contains(n)
}

/// Node `c` is a node other than the root whose parent is `n`.
pub open spec fn owned<K>(nodes: Seq<NodeView<K>>, n: int, c: int) -> bool {
    0 < c < nodes.len() && nodes[c].parent == Some(n)
}

/// Parent links and child lists describe one tree shape: the root has no parent, every other
/// node is listed among the children of its parent, and every listed child points back.
pub open spec fn linked<K>(nodes: Seq<NodeView<K>>) -> bool {
    &&& nodes.len() > 0
    &&& nodes[0].parent is None
    &&& forall|n: int| 0 < n < nodes.len() ==> attached(nodes, n)
    &&& forall|n: int, i: int|
        0 <= n < nodes.len() && 0 <= i < nodes[n].children.len() ==> owned(
            nodes,
            n,
            #[trigger] nodes[n].children[i],
        )
}

/// The ranks fit the tree: every node is deeper than its parent and less high.
pub open spec fn ranked<K>(nodes: Seq<NodeView<K>>, ranks: Ranks) -> bool {
    &&& ranks.depth.len() == nodes.len()
    &&& ranks.height.len() == nodes.len()
    &&& forall|n: int|
        0 <= n < nodes.len() ==> (#[trigger] nodes[n].parent matches Some(p) ==> 0 <= p
            < nodes.len() ==> ranks.depth[p] < ranks.depth[n] && ranks.height[n]
            < ranks.height[p])
}

/// No node is its own ancestor.
pub open spec fn acyclic<K>(nodes: Seq<NodeView<K>>) -> bool {
    exists|ranks: Ranks| ranked(nodes, ranks)
}

/// Ranks that fit the tree, where there are any.
pub open spec fn ranks_of<K>(nodes: Seq<NodeView<K>>) -> Ranks {
    choose|ranks: Ranks| ranked(nodes, ranks)
}

/// The nodes make a tree.
pub open spec fn tree_shaped<K>(nodes: Seq<NodeView<K>>) -> bool {
    linked(nodes) && acyclic(nodes)
}

/// The children of `n` stand in sibling order.
pub open spec fn children_sorted<K>(nodes: Seq<NodeView<K>>, n: int) -> bool {
    forall|i: int, j: int|
        0 <= i < j < nodes[n].children.len() ==> slot_precedes(
            nodes[#[trigger] nodes[n].children[i]].anchor,
            nodes[nodes[n].children[i]].has_parameter,
            nodes[#[trigger] nodes[n].children[j]].anchor,
            nodes[nodes[n].children[j]].has_parameter,
        )
}

/// No two children of `n` are similar: siblings with the same flag share no prefix that is
/// not empty.
pub open spec fn children_disjoint<K>(nodes: Seq<NodeView<K>>, n: int) -> bool {
    forall|i: int, j: int|
        0 <= i < nodes[n].children.len() && 0 <= j < nodes[n].children.len() && i != j
            ==> !similar(
            nodes[#[trigger] nodes[n].children[i]].anchor,
            nodes[nodes[n].children[i]].has_parameter,
            nodes[#[trigger] nodes[n].children[j]].anchor,
            nodes[nodes[n].children[j]].has_parameter,
        )
}

/// No two children of `n` take the same slot.
pub open spec fn children_distinct<K>(nodes: Seq<NodeView<K>>, n: int) -> bool {
    forall|i: int, j: int|
        0 <= i < nodes[n].children.len() && 0 <= j < nodes[n].children.len() && i != j
            ==> !same_slot(
            nodes[#[trigger] nodes[n].children[i]].anchor,
            nodes[nodes[n].children[i]].has_parameter,
            nodes[#[trigger] nodes[n].children[j]].anchor,
            nodes[nodes[n].children[j]].has_parameter,
        )
}

/// What holds of each node by itself, whatever fragments were merged: its children stand in
/// sibling order, no two of them are similar and no two take the same slot; the root has no
/// parameter and no anchor; another node without a parameter has an anchor; and a node
/// without a route has no parameter names.
pub open spec fn node_orderly<K>(nodes: Seq<NodeView<K>>, n: int) -> bool {
    &&& children_sorted(nodes, n)
    &&& children_disjoint(nodes, n)
    &&& children_distinct(nodes, n)
    &&& (n == 0 ==> !nodes[n].has_parameter && nodes[n].anchor.len() == 0)
    &&& (n != 0 && !nodes[n].has_parameter ==> nodes[n].anchor.len() > 0)
    &&& (nodes[n].route_key is None ==> nodes[n].route_parameter_names.len() == 0)
}

/// A parameter without an anchor is followed by parameters only: literal text behind a
/// parameter is the anchor of that parameter.
pub open spec fn only_parameters_follow<K>(nodes: Seq<NodeView<K>>, n: int) -> bool {
    nodes[n].has_parameter && nodes[n].anchor.len() == 0 ==> forall|i: int|
        0 <= i < nodes[n].children.len() ==> nodes[#[trigger] nodes[n].children[i]].has_parameter
}

/// What holds of each node of a tree that templates were inserted into.
pub open spec fn node_ok<K>(nodes: Seq<NodeView<K>>, n: int) -> bool {
    node_orderly(nodes, n) && only_parameters_follow(nodes, n)
}

/// What holds of a tree whatever fragments were merged into it: the nodes make a tree, and
/// each is orderly.
pub open spec fn orderly<K>(nodes: Seq<NodeView<K>>) -> bool {
    &&& tree_shaped(nodes)
    &&& forall|n: int|
        #![trigger node_orderly(nodes, n)]
        #![trigger node_ok(nodes, n)]
        0 <= n < nodes.len() ==> node_orderly(nodes, n)
}

/// The invariant of a route tree: it is orderly, and in it a parameter without an anchor is
/// followed by parameters only.
pub open spec fn well_formed<K>(nodes: Seq<NodeView<K>>) -> bool {
    &&& tree_shaped(nodes)
    &&& forall|n: int|
        #![trigger node_ok(nodes, n)]
        #![trigger node_orderly(nodes, n)]
        0 <= n < nodes.len() ==> node_ok(nodes, n)
}

/// Siblings with the same flag share no prefix: the anchors of two children of a node, of
/// which both or neither have a parameter, have no first character in common.
pub proof fn lemma_siblings_share_no_prefix<K>(nodes: Seq<NodeView<K>>, n: int, i: int, j: int)
    requires
        orderly(nodes),
        0 <= n < nodes.len(),
        0 <= i < nodes[n].children.len(),
        0 <= j < nodes[n].children.len(),
        i != j,
        nodes[nodes[n].children[i]].has_parameter == nodes[nodes[n].children[j]].has_parameter,
    ensures
        common_prefix_length(
            nodes[nodes[n].children[i]].anchor,
            nodes[nodes[n].children[j]].anchor,
        ) == 0,
        nodes[nodes[n].children[i]].anchor.len() > 0 || nodes[nodes[n].children[j]].anchor.len()
            > 0,
{
    assert(node_orderly(nodes, n));
    let first = nodes[nodes[n].children[i]].anchor;
    let second = nodes[nodes[n].children[j]].anchor;
    if first.len() == 0 && second.len() == 0 {
        assert(first =~= second);
    }
}

/// The pattern that `parent_pattern` becomes when one more node is passed: a node with a
/// parameter opens a new literal piece, a node without one lengthens the last piece.
pub open spec fn extend(
    parent_pattern: Seq<Seq<char>>,
    has_parameter: bool,
    anchor: Seq<char>,
) -> Seq<Seq<char>> {
    if has_parameter || parent_pattern.len() == 0 {
        parent_pattern.push(anchor)
    } else {
        parent_pattern.drop_last().push(parent_pattern.last() + anchor)
    }
}

/// The literal pieces of the template that ends at node `n`, in template order: the text
/// before the first parameter, then the text after each parameter.
pub open spec fn pattern<K>(nodes: Seq<NodeView<K>>, n: int) -> Seq<Seq<char>>
    decreases ranks_of(nodes).depth[n],
{
    if acyclic(nodes) && 0 <= n < nodes.len() {
        match nodes[n].parent {
            Some(p) if 0 <= p < nodes.len() => extend(
                pattern(nodes, p),
                nodes[n].has_parameter,
                nodes[n].anchor,
            ),
            _ => seq![nodes[n].anchor],
        }
    } else {
        seq![]
    }
}

/// A fragment may be merged below `parent`: a literal fragment that is not empty does not
/// follow a parameter whose anchor is empty.
pub open spec fn fragment_fits<K>(
    nodes: Seq<NodeView<K>>,
    parent: int,
    anchor: Seq<char>,
    has_parameter: bool,
) -> bool {
    has_parameter || anchor.len() == 0 || !(nodes[parent].has_parameter
        && nodes[parent].anchor.len() == 0)
}

/// Node `n` carries a route and has the pattern `pieces`.
pub open spec fn routed_at<K>(nodes: Seq<NodeView<K>>, n: int, pieces: Seq<Seq<char>>) -> bool {
    0 <= n < nodes.len() && nodes[n].route_key is Some && pattern(nodes, n) == pieces
}

/// The tree holds a route for the pattern `pieces`: a template with these literal pieces
/// ends at a node that carries a route.
pub open spec fn carries_route<K>(nodes: Seq<NodeView<K>>, pieces: Seq<Seq<char>>) -> bool {
    exists|n: int| routed_at(nodes, n, pieces)
}

/// Every node that carries a route has one parameter name for each parameter of its
/// pattern.
pub open spec fn names_fit<K>(nodes: Seq<NodeView<K>>) -> bool {
    forall|n: int|
        0 <= n < nodes.len() && (#[trigger] nodes[n]).route_key is Some
            ==> nodes[n].route_parameter_names.len() + 1 == pattern(nodes, n).len()
}

/// Node `n` has a child with a parameter.
pub open spec fn has_parameter_child<K>(nodes: Seq<NodeView<K>>, n: int) -> bool {
    exists|i: int|
        0 <= i < nodes[n].children.len() && nodes[#[trigger] nodes[n].children[i]].has_parameter
}

/// Node `n` is needed: a template ends at it, or a parameter follows it, or templates part
/// at it.
pub open spec fn lean_at<K>(nodes: Seq<NodeView<K>>, n: int) -> bool {
    nodes[n].route_key is Some || has_parameter_child(nodes, n) || nodes[n].children.len() >= 2
}

/// The tree holds no node but the root that is not needed.
pub open spec fn lean<K>(nodes: Seq<NodeView<K>>) -> bool {
    forall|n: int| 0 < n < nodes.len() ==> #[trigger] lean_at(nodes, n)
}

/// The path that a pattern stands for once each parameter has a value: the literal pieces
/// with the values between them. There is one value less than there are pieces.
pub open spec fn interleave(pieces: Seq<Seq<char>>, values: Seq<Seq<char>>) -> Seq<char>
    decreases pieces.len(),
{
    if pieces.len() == 0 {
        Seq::empty()
    } else if pieces.len() == 1 {
        pieces[0]
    } else {
        interleave(pieces.drop_last(), values.drop_last()) + values.last() + pieces.last()
    }
}

/// Passing a node without a parameter appends its anchor to the path.
pub proof fn lemma_interleave_literal(
    pieces: Seq<Seq<char>>,
    values: Seq<Seq<char>>,
    anchor: Seq<char>,
)
    requires
        pieces.len() > 0,
    ensures
        interleave(extend(pieces, false, anchor), values) == interleave(pieces, values) + anchor,
{
    let longer = extend(pieces, false, anchor);
    assert(longer.drop_last() =~= pieces.drop_last());
    if pieces.len() > 1 {
        assert(interleave(pieces.drop_last(), values.drop_last()) + values.last() + (pieces.last()
            + anchor) =~= interleave(pieces.drop_last(), values.drop_last()) + values.last()
            + pieces.last() + anchor);
    }
}

/// Passing a node with a parameter appends the value of the parameter and the node's anchor
/// to the path.
pub proof fn lemma_interleave_parameter(
    pieces: Seq<Seq<char>>,
    values: Seq<Seq<char>>,
    value: Seq<char>,
    anchor: Seq<char>,
)
    requires
        pieces.len() > 0,
    ensures
        interleave(extend(pieces, true, anchor), values.push(value)) == interleave(pieces, values)
            + value + anchor,
{
    assert(pieces.push(anchor).drop_last() =~= pieces);
    assert(values.push(value).drop_last() =~= values);
}

} // verus!
