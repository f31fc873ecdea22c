use crate::route_node::NodeView;
use crate::route_node::model::{
    attached, extend, fragment_fits, node_ok, pattern, ranked, ranks_of, similar, well_formed,
};
use crate::route_node::route_node_utility::{
    fragment_child, lemma_fragment_child_is_child, lemma_fragment_child_unique,
    similar_child_from,
};
use vstd::prelude::*;

verus! {

/// The node at which the fragment `(anchor, has_parameter)` ends below `parent`, if the tree
/// holds the fragment already. An empty literal fragment ends at `parent` itself. Else the
/// fragment goes on by a child of `parent`, the similar child or, for a fragment without
/// text, the child that takes its very slot: it ends there if the child has the fragment's
/// anchor, and goes on below the child with the rest of its anchor, as a literal, if the
/// child's anchor is the front of it.
pub open spec fn terminal<K>(
    nodes: Seq<NodeView<K>>,
    parent: int,
    anchor: Seq<char>,
    has_parameter: bool,
) -> Option<int>
    decreases anchor.len(),
{
    if !has_parameter && anchor.len() == 0 {
        Some(parent)
    } else {
        match fragment_child(nodes, parent, anchor, has_parameter) {
            None => None,
            Some(child) => if nodes[child].anchor == anchor {
                Some(child)
            } else if nodes[child].anchor.len() > 0 && nodes[child].anchor.is_prefix_of(anchor) {
                terminal(nodes, child, anchor.skip(nodes[child].anchor.len() as int), false)
            } else {
                None
            },
        }
    }
}

/// The fragment `(anchor, has_parameter)` ends, below `parent`, at a node that carries a
/// route.
pub open spec fn ends_at_route<K>(
    nodes: Seq<NodeView<K>>,
    parent: int,
    anchor: Seq<char>,
    has_parameter: bool,
) -> bool {
    terminal(nodes, parent, anchor, has_parameter) matches Some(end) && nodes[end].route_key
        is Some
}

/// The node that has the pattern `pieces`, found from the root: the first piece is a literal
/// fragment below the root, and each further piece follows a parameter below the node at
/// which the pieces before it end.
pub open spec fn locate<K>(nodes: Seq<NodeView<K>>, pieces: Seq<Seq<char>>) -> Option<int>
    decreases pieces.len(),
{
    if pieces.len() == 0 {
        None
    } else if pieces.len() == 1 {
        terminal(nodes, 0, pieces[0], false)
    } else {
        match locate(nodes, pieces.drop_last()) {
            Some(before) => terminal(nodes, before, pieces.last(), true),
            None => None,
        }
    }
}

/// Whether a slot is similar to a fragment depends on the flag of the fragment and on the
/// first character of its anchor alone.
proof fn lemma_similar_by_first(
    a: Seq<char>,
    pa: bool,
    first: Seq<char>,
    second: Seq<char>,
    has_parameter: bool,
)
    requires
        first.len() > 0,
        second.len() > 0,
        first[0] == second[0],
    ensures
        similar(a, pa, first, has_parameter) == similar(a, pa, second, has_parameter),
{
}

/// The similar child of a fragment depends on the flag of the fragment and on the first
/// character of its anchor alone.
proof fn lemma_similar_child_by_first<K>(
    nodes: Seq<NodeView<K>>,
    parent: int,
    first: Seq<char>,
    second: Seq<char>,
    has_parameter: bool,
    from: int,
)
    requires
        first.len() > 0,
        second.len() > 0,
        first[0] == second[0],
    ensures
        similar_child_from(nodes, parent, first, has_parameter, from) == similar_child_from(
            nodes,
            parent,
            second,
            has_parameter,
            from,
        ),
    decreases nodes[parent].children.len() - from,
{
    if 0 <= from < nodes[parent].children.len() {
        let child = nodes[parent].children[from];
        lemma_similar_by_first(
            nodes[child].anchor,
            nodes[child].has_parameter,
            first,
            second,
            has_parameter,
        );
        lemma_similar_child_by_first(nodes, parent, first, second, has_parameter, from + 1);
    }
}

/// The child by which a fragment with text goes on depends on the flag of the fragment and
/// on the first character of its anchor alone.
proof fn lemma_fragment_child_by_first<K>(
    nodes: Seq<NodeView<K>>,
    parent: int,
    first: Seq<char>,
    second: Seq<char>,
    has_parameter: bool,
)
    requires
        first.len() > 0,
        second.len() > 0,
        first[0] == second[0],
    ensures
        fragment_child(nodes, parent, first, has_parameter) == fragment_child(
            nodes,
            parent,
            second,
            has_parameter,
        ),
{
    lemma_similar_child_by_first(nodes, parent, first, second, has_parameter, 0);
}

/// A fragment that the tree holds ends at a node of the tree.
pub proof fn lemma_terminal_is_node<K>(
    nodes: Seq<NodeView<K>>,
    parent: int,
    anchor: Seq<char>,
    has_parameter: bool,
)
    requires
        well_formed(nodes),
        0 <= parent < nodes.len(),
        terminal(nodes, parent, anchor, has_parameter) is Some,
    ensures
        0 <= terminal(nodes, parent, anchor, has_parameter)->0 < nodes.len(),
    decreases anchor.len(),
{
    if !has_parameter && anchor.len() == 0 {
    } else {
        lemma_fragment_child_is_child(nodes, parent, anchor, has_parameter);
        let child = fragment_child(nodes, parent, anchor, has_parameter)->0;
        if nodes[child].anchor != anchor {
            lemma_terminal_is_node(
                nodes,
                child,
                anchor.skip(nodes[child].anchor.len() as int),
                false,
            );
        }
    }
}

/// The slot of a child, as a fragment below its parent, ends at that child.
pub proof fn lemma_terminal_of_child<K>(nodes: Seq<NodeView<K>>, child: int)
    requires
        well_formed(nodes),
        0 < child < nodes.len(),
    ensures
        terminal(
            nodes,
            nodes[child].parent->0,
            nodes[child].anchor,
            nodes[child].has_parameter,
        ) == Some(child),
{
    assert(attached(nodes, child));
    assert(node_ok(nodes, child));
    let parent = nodes[child].parent->0;
    let i = choose|i: int|
        0 <= i < nodes[parent].children.len() && nodes[parent].children[i] == child;
    lemma_fragment_child_unique(nodes, parent, nodes[child].anchor, nodes[child].has_parameter, i);
}

/// Where a fragment ends at node `end`, the fragment with more literal text behind it ends
/// where that text, as a literal fragment, ends below `end`.
pub proof fn lemma_terminal_extended<K>(
    nodes: Seq<NodeView<K>>,
    parent: int,
    anchor: Seq<char>,
    has_parameter: bool,
    more: Seq<char>,
)
    requires
        well_formed(nodes),
        0 <= parent < nodes.len(),
        terminal(nodes, parent, anchor, has_parameter) is Some,
        ({
            let end = terminal(nodes, parent, anchor, has_parameter)->0;
            more.len() == 0 || !(nodes[end].has_parameter && nodes[end].anchor.len() == 0)
        }),
    ensures
        terminal(nodes, parent, anchor + more, has_parameter) == terminal(
            nodes,
            terminal(nodes, parent, anchor, has_parameter)->0,
            more,
            false,
        ),
    decreases anchor.len(),
{
    let end = terminal(nodes, parent, anchor, has_parameter)->0;
    if !has_parameter && anchor.len() == 0 {
        assert(anchor + more =~= more);
    } else {
        lemma_fragment_child_is_child(nodes, parent, anchor, has_parameter);
        let child = fragment_child(nodes, parent, anchor, has_parameter)->0;
        let child_anchor = nodes[child].anchor;
        if more.len() == 0 {
            assert(anchor + more =~= anchor);
            lemma_terminal_is_node(nodes, parent, anchor, has_parameter);
        } else if child_anchor == anchor {
            // the fragment ends at the child, whose anchor is not empty
            assert(anchor.len() > 0);
            lemma_fragment_child_by_first(nodes, parent, anchor, anchor + more, has_parameter);
            assert((anchor + more).skip(anchor.len() as int) =~= more);
            assert(child_anchor != anchor + more);
        } else {
            let rest = anchor.skip(child_anchor.len() as int);
            lemma_fragment_child_by_first(nodes, parent, anchor, anchor + more, has_parameter);
            assert((anchor + more).skip(child_anchor.len() as int) =~= rest + more);
            assert(child_anchor != anchor + more);
            lemma_terminal_extended(nodes, child, rest, false, more);
        }
    }
}

/// The pattern of a node leads to that node.
pub proof fn lemma_locate_pattern<K>(nodes: Seq<NodeView<K>>, n: int)
    requires
        well_formed(nodes),
        0 <= n < nodes.len(),
    ensures
        locate(nodes, pattern(nodes, n)) == Some(n),
    decreases ranks_of(nodes).depth[n],
{
    assert(node_ok(nodes, n));
    assert(ranked(nodes, ranks_of(nodes)));
    if n == 0 {
    } else {
        assert(attached(nodes, n));
        let parent = nodes[n].parent->0;
        let above = pattern(nodes, parent);
        let anchor = nodes[n].anchor;
        lemma_locate_pattern(nodes, parent);
        lemma_terminal_of_child(nodes, n);
        assert(node_ok(nodes, parent));
        if nodes[n].has_parameter {
            assert(above.push(anchor).drop_last() =~= above);
        } else {
            let i = choose|i: int|
                0 <= i < nodes[parent].children.len() && nodes[parent].children[i] == n;
            assert(!nodes[nodes[parent].children[i]].has_parameter);
            let start = if above.len() == 1 {
                0
            } else {
                locate(nodes, above.drop_last())->0
            };
            assert(pattern(nodes, n).drop_last() =~= above.drop_last());
            if above.len() > 1 {
                lemma_locate_is_node(nodes, above.drop_last());
            }
            lemma_terminal_extended(nodes, start, above.last(), above.len() > 1, anchor);
        }
    }
}

/// Where pieces lead to a node, it is a node of the tree.
pub proof fn lemma_locate_is_node<K>(nodes: Seq<NodeView<K>>, pieces: Seq<Seq<char>>)
    requires
        well_formed(nodes),
        locate(nodes, pieces) is Some,
    ensures
        0 <= locate(nodes, pieces)->0 < nodes.len(),
    decreases pieces.len(),
{
    if pieces.len() == 1 {
        lemma_terminal_is_node(nodes, 0, pieces[0], false);
    } else {
        lemma_locate_is_node(nodes, pieces.drop_last());
        lemma_terminal_is_node(nodes, locate(nodes, pieces.drop_last())->0, pieces.last(), true);
    }
}

/// No two nodes of a tree have the same pattern.
pub proof fn lemma_pattern_injective<K>(nodes: Seq<NodeView<K>>, first: int, second: int)
    requires
        well_formed(nodes),
        0 <= first < nodes.len(),
        0 <= second < nodes.len(),
        pattern(nodes, first) == pattern(nodes, second),
    ensures
        first == second,
{
    lemma_locate_pattern(nodes, first);
    lemma_locate_pattern(nodes, second);
}

/// A fragment below `parent` ends at the node that has the pattern of `parent` extended by
/// the fragment.
pub proof fn lemma_terminal_is_located<K>(
    nodes: Seq<NodeView<K>>,
    parent: int,
    anchor: Seq<char>,
    has_parameter: bool,
)
    requires
        well_formed(nodes),
        0 <= parent < nodes.len(),
        fragment_fits(nodes, parent, anchor, has_parameter),
    ensures
        terminal(nodes, parent, anchor, has_parameter) == locate(
            nodes,
            extend(pattern(nodes, parent), has_parameter, anchor),
        ),
{
    let above = pattern(nodes, parent);
    lemma_locate_pattern(nodes, parent);
    if has_parameter {
        assert(above.push(anchor).drop_last() =~= above);
    } else {
        let start = if above.len() == 1 {
            0
        } else {
            locate(nodes, above.drop_last())->0
        };
        assert(extend(above, false, anchor).drop_last() =~= above.drop_last());
        if above.len() > 1 {
            lemma_locate_is_node(nodes, above.drop_last());
        }
        lemma_terminal_extended(nodes, start, above.last(), above.len() > 1, anchor);
    }
}

/// The node that has the pattern of `parent` extended by a fragment is where the fragment
/// ends below `parent`.
pub proof fn lemma_terminal_complete<K>(
    nodes: Seq<NodeView<K>>,
    parent: int,
    anchor: Seq<char>,
    has_parameter: bool,
    end: int,
)
    requires
        well_formed(nodes),
        0 <= parent < nodes.len(),
        0 <= end < nodes.len(),
        fragment_fits(nodes, parent, anchor, has_parameter),
        pattern(nodes, end) == extend(pattern(nodes, parent), has_parameter, anchor),
    ensures
        terminal(nodes, parent, anchor, has_parameter) == Some(end),
{
    lemma_terminal_is_located(nodes, parent, anchor, has_parameter);
    lemma_locate_pattern(nodes, end);
}

} // verus!
