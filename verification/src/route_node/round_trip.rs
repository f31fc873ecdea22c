use crate::route_node::NodeView;
use crate::route_node::model::{
    attached, interleave, lemma_interleave_literal, lemma_interleave_parameter, node_orderly, owned,
    pattern, ranked, ranks_of, orderly,
};
use crate::route_node::route_node_merge::{lemma_children_distinct, lemma_pattern_has_pieces};
use crate::route_node::route_node_rc::{
    lemma_match_gives_path_back, lemma_node_takes, match_children, match_node, node_takes,
};
use vstd::prelude::*;

verus! {

/// The values that node `n` captures of `values`: the last, if it has a parameter.
pub open spec fn own_values<K>(nodes: Seq<NodeView<K>>, n: int, values: Seq<Seq<char>>) -> Seq<
    Seq<char>,
> {
    if nodes[n].has_parameter {
        seq![values.last()]
    } else {
        Seq::empty()
    }
}

/// The values for the parameters in front of node `n`: all of `values` but the one that `n`
/// captures.
pub open spec fn values_above<K>(nodes: Seq<NodeView<K>>, n: int, values: Seq<Seq<char>>) -> Seq<
    Seq<char>,
> {
    if nodes[n].has_parameter {
        values.drop_last()
    } else {
        values
    }
}

/// What of a path is left for node `n` when `rest` is left behind it: its value, if it has
/// a parameter, its anchor and `rest`.
pub open spec fn text_from<K>(
    nodes: Seq<NodeView<K>>,
    n: int,
    values: Seq<Seq<char>>,
    rest: Seq<char>,
) -> Seq<char> {
    if nodes[n].has_parameter {
        values.last() + nodes[n].anchor + rest
    } else {
        nodes[n].anchor + rest
    }
}

/// No child that is tried before node `n` matches `text`.
pub open spec fn none_before<K>(
    nodes: Seq<NodeView<K>>,
    n: int,
    text: Seq<char>,
    maximum: nat,
) -> bool {
    let siblings = nodes[nodes[n].parent->0].children;
    forall|i: int, k: int|
        #![trigger siblings[i], siblings[k]]
        0 <= i < k < siblings.len() && siblings[k] == n ==> match_node(
            nodes,
            siblings[i],
            text,
            maximum,
        ) is None
}

/// The path of the route that ends at `n`, with `values` for its parameters and `rest`
/// behind it, is taken along the nodes of the route: on the way from the root to `n` each
/// node takes its value and its anchor from what is left of the path, and no child that is
/// tried before it matches what is left.
pub open spec fn taken_along<K>(
    nodes: Seq<NodeView<K>>,
    n: int,
    values: Seq<Seq<char>>,
    rest: Seq<char>,
    maximum: nat,
) -> bool
    decreases ranks_of(nodes).depth[n],
{
    if !(orderly(nodes) && 0 <= n < nodes.len()) {
        false
    } else if n == 0 {
        values.len() == 0
    } else {
        let text = text_from(nodes, n, values, rest);
        &&& nodes[n].parent matches Some(parent)
        &&& 0 <= parent < nodes.len()
        &&& nodes[n].has_parameter ==> values.len() > 0
        &&& node_takes(nodes[n], text, maximum) == Some((own_values(nodes, n, values), rest))
        &&& none_before(nodes, n, text, maximum)
        &&& taken_along(nodes, parent, values_above(nodes, n, values), text, maximum)
    }
}

/// What a node that took its part of a path makes of the rest: the match of the first child
/// that matches it, or, if none does, its own route where nothing is left.
pub open spec fn match_below<K>(
    nodes: Seq<NodeView<K>>,
    n: int,
    rest: Seq<char>,
    maximum: nat,
) -> Option<(int, Seq<Seq<char>>)> {
    match match_children(nodes, n, 0, rest, maximum) {
        Some(found) => Some(found),
        None => if rest.len() == 0 && nodes[n].route_key is Some {
            Some((n, Seq::empty()))
        } else {
            None
        },
    }
}

/// Children that do not match are passed over.
proof fn lemma_match_children_skip<K>(
    nodes: Seq<NodeView<K>>,
    n: int,
    from: int,
    position: int,
    text: Seq<char>,
    maximum: nat,
)
    requires
        orderly(nodes),
        0 <= n < nodes.len(),
        0 <= from <= position < nodes[n].children.len(),
        forall|i: int|
            from <= i < position ==> match_node(
                nodes,
                #[trigger] nodes[n].children[i],
                text,
                maximum,
            ) is None,
    ensures
        match_children(nodes, n, from, text, maximum) == match_children(
            nodes,
            n,
            position,
            text,
            maximum,
        ),
    decreases position - from,
{
    if from < position {
        assert(match_node(nodes, nodes[n].children[from], text, maximum) is None);
        lemma_match_children_skip(nodes, n, from + 1, position, text, maximum);
    }
}

/// A path that is taken along the nodes of a route down to node `n` matches what `n` makes
/// of the rest, with the values of the route in front.
pub proof fn lemma_taken_along_matches<K>(
    nodes: Seq<NodeView<K>>,
    n: int,
    values: Seq<Seq<char>>,
    rest: Seq<char>,
    maximum: nat,
)
    requires
        taken_along(nodes, n, values, rest, maximum),
        match_below(nodes, n, rest, maximum) is Some,
    ensures
        values.len() + 1 == pattern(nodes, n).len(),
        match_node(nodes, 0, interleave(pattern(nodes, n), values) + rest, maximum) == (match
            match_below(nodes, n, rest, maximum) {
            Some((end, more)) => Some((end, values + more)),
            None => None,
        }),
    decreases ranks_of(nodes).depth[n],
{
    let (end, more) = match_below(nodes, n, rest, maximum)->0;
    assert(node_orderly(nodes, n));
    assert(ranked(nodes, ranks_of(nodes)));
    if n == 0 {
        assert(nodes[0].anchor =~= Seq::<char>::empty());
        assert(pattern(nodes, 0) =~= seq![Seq::<char>::empty()]);
        assert(interleave(pattern(nodes, 0), values) + rest =~= rest);
        assert(nodes[0].anchor.is_prefix_of(rest));
        assert(rest.skip(0) =~= rest);
        assert(Seq::<Seq<char>>::empty() + more =~= more);
        assert(values + more =~= more);
    } else {
        assert(attached(nodes, n));
        let parent = nodes[n].parent->0;
        let text = text_from(nodes, n, values, rest);
        let own = own_values(nodes, n, values);
        let above = values_above(nodes, n, values);
        let position = choose|k: int|
            0 <= k < nodes[parent].children.len() && nodes[parent].children[k] == n;
        // the node itself matches its text, with what it makes of the rest
        assert(match_node(nodes, n, text, maximum) == Some((end, own + more))) by {
            if match_children(nodes, n, 0, rest, maximum) is None {
                assert(own + more =~= own);
            }
        }
        // and so do the children of the parent, as the ones before it do not
        assert forall|i: int| 0 <= i < position implies match_node(
            nodes,
            #[trigger] nodes[parent].children[i],
            text,
            maximum,
        ) is None by {}
        lemma_match_children_skip(nodes, parent, 0, position, text, maximum);
        assert(match_below(nodes, parent, text, maximum) == Some((end, own + more)));
        lemma_taken_along_matches(nodes, parent, above, text, maximum);
        lemma_pattern_has_pieces(nodes, parent);
        if nodes[n].has_parameter {
            assert(values =~= above.push(values.last()));
            lemma_interleave_parameter(
                pattern(nodes, parent),
                above,
                values.last(),
                nodes[n].anchor,
            );
            assert(interleave(pattern(nodes, parent), above) + text =~= interleave(
                pattern(nodes, n),
                values,
            ) + rest);
            assert(above + (own + more) =~= values + more);
        } else {
            lemma_interleave_literal(pattern(nodes, parent), above, nodes[n].anchor);
            assert(interleave(pattern(nodes, parent), above) + text =~= interleave(
                pattern(nodes, n),
                values,
            ) + rest);
            assert(above + (own + more) =~= values + more);
        }
    }
}

/// No child of a node matches the empty path.
proof fn lemma_no_child_matches_nothing<K>(nodes: Seq<NodeView<K>>, n: int, from: int, maximum: nat)
    requires
        orderly(nodes),
        0 <= n < nodes.len(),
        0 <= from,
    ensures
        match_children(nodes, n, from, Seq::empty(), maximum) is None,
    decreases nodes[n].children.len() - from,
{
    if from < nodes[n].children.len() {
        let child = nodes[n].children[from];
        assert(owned(nodes, n, child));
        assert(node_orderly(nodes, child));
        assert(node_takes(nodes[child], Seq::<char>::empty(), maximum) is None);
        assert(match_node(nodes, child, Seq::<char>::empty(), maximum) is None);
        lemma_no_child_matches_nothing(nodes, n, from + 1, maximum);
    }
}

/// The path of a route matches the route, with the values it was made with, when it is
/// taken along the nodes of the route.
pub proof fn lemma_path_of_route_matches<K>(
    nodes: Seq<NodeView<K>>,
    leaf: int,
    values: Seq<Seq<char>>,
    maximum: nat,
)
    requires
        taken_along(nodes, leaf, values, Seq::empty(), maximum),
        nodes[leaf].route_key is Some,
    ensures
        match_node(nodes, 0, interleave(pattern(nodes, leaf), values), maximum) == Some(
            (leaf, values),
        ),
{
    lemma_no_child_matches_nothing(nodes, leaf, 0, maximum);
    lemma_taken_along_matches(nodes, leaf, values, Seq::empty(), maximum);
    assert(interleave(pattern(nodes, leaf), values) + Seq::<char>::empty() =~= interleave(
        pattern(nodes, leaf),
        values,
    ));
    assert(values + Seq::<Seq<char>>::empty() =~= values);
}

/// What holds of a path that is left for node `n`: it was taken along the nodes in front
/// of `n`, and no child that is tried before `n` matches it.
pub open spec fn left_for<K>(
    nodes: Seq<NodeView<K>>,
    n: int,
    values: Seq<Seq<char>>,
    text: Seq<char>,
    maximum: nat,
) -> bool {
    if n == 0 {
        values.len() == 0
    } else {
        &&& nodes[n].parent matches Some(parent)
        &&& 0 <= parent < nodes.len()
        &&& none_before(nodes, n, text, maximum)
        &&& taken_along(nodes, parent, values, text, maximum)
    }
}

/// A path that node `n` matches, of what was left for it, is taken along the nodes of the
/// route that it matches.
pub proof fn lemma_match_is_taken_along<K>(
    nodes: Seq<NodeView<K>>,
    n: int,
    values: Seq<Seq<char>>,
    text: Seq<char>,
    maximum: nat,
)
    requires
        orderly(nodes),
        0 <= n < nodes.len(),
        left_for(nodes, n, values, text, maximum),
        match_node(nodes, n, text, maximum) is Some,
    ensures
        match_node(nodes, n, text, maximum) matches Some((end, more)) && taken_along(
            nodes,
            end,
            values + more,
            Seq::empty(),
            maximum,
        ),
    decreases ranks_of(nodes).height[n], nodes[n].children.len() + 1,
{
    let (own, rest) = node_takes(nodes[n], text, maximum)->0;
    let here = values + own;
    lemma_node_takes(nodes[n], text, maximum);
    assert(node_orderly(nodes, n));
    assert(taken_along(nodes, n, here, rest, maximum)) by {
        if n == 0 {
            assert(here =~= values);
        } else {
            if nodes[n].has_parameter {
                assert(here.last() == own[0]);
                assert(own_values(nodes, n, here) =~= own);
                assert(values_above(nodes, n, here) =~= values);
            } else {
                assert(own =~= Seq::<Seq<char>>::empty());
                assert(here =~= values);
            }
            assert(text_from(nodes, n, here, rest) =~= text);
        }
    }
    if match_children(nodes, n, 0, rest, maximum) is Some {
        lemma_match_by_child_is_taken_along(nodes, n, 0, here, rest, maximum);
        let (end, more) = match_children(nodes, n, 0, rest, maximum)->0;
        assert(values + (own + more) =~= here + more);
    } else {
        assert(rest =~= Seq::<char>::empty());
    }
}

proof fn lemma_match_by_child_is_taken_along<K>(
    nodes: Seq<NodeView<K>>,
    n: int,
    from: int,
    values: Seq<Seq<char>>,
    rest: Seq<char>,
    maximum: nat,
)
    requires
        orderly(nodes),
        0 <= n < nodes.len(),
        0 <= from,
        taken_along(nodes, n, values, rest, maximum),
        forall|i: int|
            0 <= i < from && i < nodes[n].children.len() ==> match_node(
                nodes,
                #[trigger] nodes[n].children[i],
                rest,
                maximum,
            ) is None,
        match_children(nodes, n, from, rest, maximum) is Some,
    ensures
        match_children(nodes, n, from, rest, maximum) matches Some((end, more)) && taken_along(
            nodes,
            end,
            values + more,
            Seq::empty(),
            maximum,
        ),
    decreases ranks_of(nodes).height[n], nodes[n].children.len() - from,
{
    let child = nodes[n].children[from];
    assert(owned(nodes, n, child));
    assert(ranked(nodes, ranks_of(nodes)));
    if match_node(nodes, child, rest, maximum) is Some {
        assert(none_before(nodes, child, rest, maximum)) by {
            assert forall|i: int, k: int|
                #![trigger nodes[n].children[i], nodes[n].children[k]]
                0 <= i < k < nodes[n].children.len() && nodes[n].children[k]
                    == child implies match_node(nodes, nodes[n].children[i], rest, maximum)
                is None by {
                if k != from {
                    lemma_children_distinct(nodes, n, k, from);
                }
            }
        }
        lemma_match_is_taken_along(nodes, child, values, rest, maximum);
    } else {
        lemma_match_by_child_is_taken_along(nodes, n, from + 1, values, rest, maximum);
    }
}

/// A path matches a route with values exactly when it is the path of the route with those
/// values and is taken along the nodes of the route.
pub proof fn lemma_match_exactly_when_taken_along<K>(
    nodes: Seq<NodeView<K>>,
    path: Seq<char>,
    leaf: int,
    values: Seq<Seq<char>>,
    maximum: nat,
)
    requires
        orderly(nodes),
    ensures
        match_node(nodes, 0, path, maximum) == Some((leaf, values)) <==> 0 <= leaf < nodes.len()
            && nodes[leaf].route_key is Some && path == interleave(pattern(nodes, leaf), values)
            && taken_along(nodes, leaf, values, Seq::empty(), maximum),
{
    if match_node(nodes, 0, path, maximum) == Some((leaf, values)) {
        lemma_match_gives_path_back(nodes, path, maximum);
        lemma_match_is_taken_along(nodes, 0, Seq::empty(), path, maximum);
        assert(Seq::<Seq<char>>::empty() + values =~= values);
    }
    if 0 <= leaf < nodes.len() && nodes[leaf].route_key is Some && path == interleave(
        pattern(nodes, leaf),
        values,
    ) && taken_along(nodes, leaf, values, Seq::empty(), maximum) {
        lemma_path_of_route_matches(nodes, leaf, values, maximum);
    }
}

} // verus!
