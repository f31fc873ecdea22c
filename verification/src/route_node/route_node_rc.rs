use crate::route_node::{NodeView, RouteError, RouteNode, RouteNodeRc, RouteTree};
use crate::route_node::model::{
    attached, carries_route, extend, has_parameter_child, interleave, lean, lean_at, names_fit,
    lemma_interleave_literal, lemma_interleave_parameter, node_orderly, orderly, owned, pattern,
    ranked, ranks_of, routed_at, tree_shaped, well_formed,
};
use crate::route_node::route_node_merge::{
    children_kept, lemma_pattern_has_pieces, patterns_kept, route_node_merge, routes_kept,
    same_route,
};
use crate::route_node::route_node_utility::route_node_find_similar_child;
use crate::string_utility::{
    chars_of, chars_of_each, copy_strings, find_in_window, first_occurrence,
    lemma_first_occurrence_from, occurs_at, starts_with, string_of, strings_of, texts,
};
use crate::template::placeholder_matches;
use crate::template::template_pairs::{pairs_view, parse_template_pairs, template_pairs};
use regex::Regex;
use vstd::prelude::*;
use vstd::slice::{slice_subrange, slice_to_vec};

verus! {

/// How much of a path of `path_length` characters is searched for an anchor of
/// `anchor_length` characters: room for a value of at most `maximum` characters and the
/// anchor behind it.
pub open spec fn search_window(path_length: nat, anchor_length: nat, maximum: nat) -> nat {
    if maximum + anchor_length < path_length {
        maximum + anchor_length
    } else {
        path_length
    }
}

/// What a node takes from the front of `path`: the parameter value it captures, if it has a
/// parameter, and then its anchor. Gives the captured values, none or one, and what is left
/// of the path; `None` where the node does not match.
pub open spec fn node_takes<K>(node: NodeView<K>, path: Seq<char>, maximum: nat) -> Option<
    (Seq<Seq<char>>, Seq<char>),
> {
    if node.has_parameter {
        if path.len() == 0 {
            None
        } else if node.anchor.len() == 0 {
            Some((seq![path], Seq::empty()))
        } else {
            match first_occurrence(
                path.take(search_window(path.len(), node.anchor.len(), maximum) as int),
                node.anchor,
            ) {
                Some(at) => Some((seq![path.take(at)], path.skip(at + node.anchor.len()))),
                None => None,
            }
        }
    } else {
        if node.anchor.is_prefix_of(path) {
            Some((Seq::empty(), path.skip(node.anchor.len() as int)))
        } else {
            None
        }
    }
}

/// The route that `path` matches below and at node `n`: the node at which the match ends and
/// the parameter values captured on the way, in the order of the path. A node first takes
/// its own part of the path; then its children are tried in sibling order on what is left,
/// and the first that matches decides; if none does, the node itself matches where nothing is
/// left of the path and it carries a route.
pub open spec fn match_node<K>(
    nodes: Seq<NodeView<K>>,
    n: int,
    path: Seq<char>,
    maximum: nat,
) -> Option<(int, Seq<Seq<char>>)>
    decreases ranks_of(nodes).height[n], nodes[n].children.len() + 1,
{
    if tree_shaped(nodes) && 0 <= n < nodes.len() {
        match node_takes(nodes[n], path, maximum) {
            None => None,
            Some((values, rest)) => match match_children(nodes, n, 0, rest, maximum) {
                Some((end, more)) => Some((end, values + more)),
                None => if rest.len() == 0 && nodes[n].route_key is Some {
                    Some((n, values))
                } else {
                    None
                },
            },
        }
    } else {
        None
    }
}

/// The match of `path` by the first child of `n`, from position `from` on, that matches it.
pub open spec fn match_children<K>(
    nodes: Seq<NodeView<K>>,
    n: int,
    from: int,
    path: Seq<char>,
    maximum: nat,
) -> Option<(int, Seq<Seq<char>>)>
    decreases ranks_of(nodes).height[n], nodes[n].children.len() - from,
{
    if tree_shaped(nodes) && 0 <= n < nodes.len() && 0 <= from < nodes[n].children.len() {
        match match_node(nodes, nodes[n].children[from], path, maximum) {
            Some(found) => Some(found),
            None => match_children(nodes, n, from + 1, path, maximum),
        }
    } else {
        None
    }
}

/// What `node` takes from the front of `path`: the values it captures and the position at
/// which the rest of the path begins.
fn node_takes_exec<K>(node: &RouteNode<K>, path: &[char], maximum: usize) -> (taken: Option<
    (Vec<Vec<char>>, usize),
>)
    ensures
        match node_takes(node@, path@, maximum as nat) {
            Some((values, rest)) => taken matches Some((captured, position)) && texts(captured@)
                == values && position <= path@.len() && path@.skip(position as int) == rest,
            None => taken is None,
        },
{
    let anchor = node.anchor().as_slice();
    let mut captured: Vec<Vec<char>> = Vec::new();
    if node.has_parameter() {
        if path.len() == 0 {
            return None;
        }
        if anchor.len() == 0 {
            captured.push(slice_to_vec(path));
            proof {
                assert(texts(captured@) =~= seq![path@]);
                assert(path@.skip(path@.len() as int) =~= Seq::<char>::empty());
            }
            return Some((captured, path.len()));
        }
        let window = if anchor.len() >= path.len() {
            path.len()
        } else if maximum >= path.len() - anchor.len() {
            path.len()
        } else {
            maximum + anchor.len()
        };
        match find_in_window(path, anchor, window) {
            Some(at) => {
                captured.push(slice_to_vec(slice_subrange(path, 0, at)));
                proof {
                    assert(texts(captured@) =~= seq![path@.take(at as int)]);
                }
                Some((captured, at + anchor.len()))
            },
            None => None,
        }
    } else {
        if !starts_with(path, anchor) {
            return None;
        }
        proof {
            assert(texts(captured@) =~= Seq::<Seq<char>>::empty());
        }
        Some((captured, anchor.len()))
    }
}

/// A match as mathematical values.
pub open spec fn found_view(found: Option<(usize, Vec<Vec<char>>)>) -> Option<
    (int, Seq<Seq<char>>),
> {
    match found {
        Some((end, values)) => Some((end as int, texts(values@))),
        None => None,
    }
}

/// Matches `path` below and at node `n`.
#[verifier::loop_isolation(false)]
fn match_node_exec<K>(
    tree: &RouteTree<K>,
    n: usize,
    path: &[char],
    maximum: usize,
) -> (found: Option<(usize, Vec<Vec<char>>)>)
    requires
        orderly(tree@),
        n < tree@.len(),
    ensures
        found_view(found) == match_node(tree@, n as int, path@, maximum as nat),
    decreases ranks_of(tree@).height[n as int], tree@[n as int].children.len() + 1,
{
    let node = tree.node(&RouteNodeRc(n));
    match node_takes_exec(node, path, maximum) {
        None => None,
        Some((values, position)) => {
            let rest = slice_subrange(path, position, path.len());
            let count = node.child_count();
            let mut tried: usize = 0;
            while tried < count
                invariant
                    orderly(tree@),
                    n < tree@.len(),
                    node@ == tree@[n as int],
                    count == node@.children.len(),
                    tried <= count,
                    match_children(tree@, n as int, 0, rest@, maximum as nat) == match_children(
                        tree@,
                        n as int,
                        tried as int,
                        rest@,
                        maximum as nat,
                    ),
                decreases count - tried,
            {
                let child = node.child(tried);
                proof {
                    assert(owned(tree@, n as int, tree@[n as int].children[tried as int]));
                    assert(ranked(tree@, ranks_of(tree@)));
                }
                match match_node_exec(tree, child.0, rest, maximum) {
                    Some((end, more)) => {
                        let mut all = values;
                        let mut more = more;
                        proof {
                            assert(texts(all@ + more@) =~= texts(all@) + texts(more@));
                        }
                        all.append(&mut more);
                        return Some((end, all));
                    },
                    None => {},
                }
                tried += 1;
            }
            if rest.len() == 0 && node.route_key().is_some() {
                Some((n, values))
            } else {
                None
            }
        },
    }
}

/// Fragments are those of a template when there is at least one, the first names no
/// parameter and each of the others names one.
pub open spec fn is_template(fragments: Seq<(Seq<char>, Option<Seq<char>>)>) -> bool {
    &&& fragments.len() > 0
    &&& forall|i: int|
        0 <= i < fragments.len() ==> ((#[trigger] fragments[i]).1 is None <==> i == 0)
}

/// The pattern reached from the pattern `start` by passing one node for each fragment.
pub open spec fn grafted(
    start: Seq<Seq<char>>,
    fragments: Seq<(Seq<char>, Option<Seq<char>>)>,
) -> Seq<Seq<char>>
    decreases fragments.len(),
{
    if fragments.len() == 0 {
        start
    } else {
        extend(
            grafted(start, fragments.drop_last()),
            fragments.last().1 is Some,
            fragments.last().0,
        )
    }
}

/// The parameter names that the fragments carry, in their order.
pub open spec fn parameter_names(fragments: Seq<(Seq<char>, Option<Seq<char>>)>) -> Seq<
    Seq<char>,
>
    decreases fragments.len(),
{
    if fragments.len() == 0 {
        Seq::empty()
    } else {
        match fragments.last().1 {
            Some(name) => parameter_names(fragments.drop_last()).push(name),
            None => parameter_names(fragments.drop_last()),
        }
    }
}

/// The parameter names that `pairs` carry, in their order.
fn names_of(pairs: &Vec<(String, Option<String>)>) -> (names: Vec<String>)
    ensures
        names.deep_view() == parameter_names(pairs_view(pairs@)),
{
    let mut names: Vec<String> = Vec::new();
    let mut i: usize = 0;
    assert(pairs_view(pairs@).take(0) =~= Seq::empty());
    assert(names.deep_view() =~= Seq::<Seq<char>>::empty());
    while i < pairs.len()
        invariant
            i <= pairs@.len(),
            names.deep_view() == parameter_names(pairs_view(pairs@).take(i as int)),
        decreases pairs@.len() - i,
    {
        let ghost before = names.deep_view();
        proof {
            assert(pairs_view(pairs@).take(i + 1).drop_last() =~= pairs_view(pairs@).take(
                i as int,
            ));
        }
        match &pairs[i].1 {
            Some(name) => {
                names.push(name.clone());
                assert(names.deep_view() =~= before.push(name@));
            },
            None => {},
        }
        i += 1;
    }
    assert(pairs_view(pairs@).take(pairs@.len() as int) =~= pairs_view(pairs@));
    names
}

/// The pattern of a template that was inserted below the root has one piece more than the
/// template has parameter names.
pub proof fn lemma_names_fit_pattern(
    start: Seq<Seq<char>>,
    fragments: Seq<(Seq<char>, Option<Seq<char>>)>,
)
    requires
        start.len() > 0,
    ensures
        grafted(start, fragments).len() == start.len() + parameter_names(fragments).len(),
    decreases fragments.len(),
{
    if fragments.len() > 0 {
        lemma_names_fit_pattern(start, fragments.drop_last());
    }
}

/// What an insertion that succeeded leaves: a well-formed tree that keeps the nodes of `old`
/// with their patterns and routes, in which `leaf` has the pattern `target` and carries the
/// route.
pub open spec fn inserted<K>(
    old: Seq<NodeView<K>>,
    new: Seq<NodeView<K>>,
    target: Seq<Seq<char>>,
    route_key: K,
    route_parameter_names: Seq<Seq<char>>,
    leaf: int,
) -> bool {
    &&& well_formed(new)
    &&& patterns_kept(old, new)
    &&& routes_kept(old, new, leaf)
    &&& lean(old) ==> lean(new)
    &&& names_fit(old) && route_parameter_names.len() + 1 == target.len() ==> names_fit(new)
    &&& 0 <= leaf < new.len()
    &&& pattern(new, leaf) == target
    &&& new[leaf].route_key == Some(route_key)
    &&& new[leaf].route_parameter_names == route_parameter_names
}

/// Every route has a name for each parameter after an insertion, if every route had before
/// and the route that was inserted has.
proof fn lemma_names_fit_kept<K>(
    old: Seq<NodeView<K>>,
    new: Seq<NodeView<K>>,
    target: Seq<Seq<char>>,
    route_parameter_names: Seq<Seq<char>>,
    leaf: int,
)
    requires
        patterns_kept(old, new),
        routes_kept(old, new, leaf),
        0 <= leaf < new.len(),
        pattern(new, leaf) == target,
        new[leaf].route_parameter_names == route_parameter_names,
        names_fit(old),
        route_parameter_names.len() + 1 == target.len(),
    ensures
        names_fit(new),
{
    assert forall|n: int|
        0 <= n < new.len() && (#[trigger] new[n]).route_key
            is Some implies new[n].route_parameter_names.len() + 1 == pattern(new, n).len() by {
        if n != leaf {
            assert(n < old.len());
            assert(same_route(old, new, n));
            assert(pattern(new, n) == pattern(old, n));
            assert(old[n].route_key is Some);
        }
    }
}

/// A node that is needed stays needed where it keeps its route and its children.
proof fn lemma_lean_kept<K>(old: Seq<NodeView<K>>, new: Seq<NodeView<K>>, n: int, result: int)
    requires
        children_kept(old, new, result),
        routes_kept(old, new, result),
        0 <= n < old.len(),
        old.len() <= new.len(),
        n != result || new[n].route_key is Some || old[n].route_key is None,
        lean_at(old, n),
    ensures
        lean_at(new, n),
{
    if n != result {
        assert(same_route(old, new, n));
    }
    assert(new[n].children.len() >= old[n].children.len());
}

/// What is kept over two steps is kept over both.
proof fn lemma_kept_twice<K>(
    old: Seq<NodeView<K>>,
    middle: Seq<NodeView<K>>,
    new: Seq<NodeView<K>>,
    result: int,
)
    requires
        patterns_kept(old, middle),
        routes_kept(old, middle, -1),
        patterns_kept(middle, new),
        routes_kept(middle, new, result),
    ensures
        patterns_kept(old, new),
        routes_kept(old, new, result),
{
    assert forall|n: int| 0 <= n < old.len() implies #[trigger] pattern(new, n) == pattern(
        old,
        n,
    ) by {
        assert(pattern(middle, n) == pattern(old, n));
    }
    assert forall|n: int| 0 <= n < new.len() && n != result implies if n < old.len() {
        same_route(old, new, n)
    } else {
        (#[trigger] new[n]).route_key is None
    } by {
        if n < middle.len() {
            assert(same_route(middle, new, n));
            if n >= old.len() {
                assert(middle[n].route_key is None);
            } else {
                assert(same_route(old, middle, n));
            }
        }
    }
}

/// A tree that keeps the nodes of `old` with their patterns and routes, and holds no other
/// route, holds a route for a pattern exactly if `old` does.
proof fn lemma_carries_route_kept<K>(
    old: Seq<NodeView<K>>,
    new: Seq<NodeView<K>>,
    pieces: Seq<Seq<char>>,
)
    requires
        patterns_kept(old, new),
        routes_kept(old, new, -1),
    ensures
        carries_route(new, pieces) == carries_route(old, pieces),
{
    if carries_route(old, pieces) {
        let m = choose|m: int| routed_at(old, m, pieces);
        assert(pattern(new, m) == pattern(old, m));
        assert(same_route(old, new, m));
        assert(routed_at(new, m, pieces));
    }
    if carries_route(new, pieces) {
        let m = choose|m: int| routed_at(new, m, pieces);
        if m < old.len() {
            assert(pattern(new, m) == pattern(old, m));
            assert(same_route(old, new, m));
            assert(routed_at(old, m, pieces));
        } else {
            assert(new[m].route_key is None);
        }
    }
}

/// A template that was inserted is in the tree: the tree holds a route for its pattern, so
/// that the template is refused when it is inserted again, whatever the key.
pub proof fn lemma_inserted_is_carried<K>(
    old: Seq<NodeView<K>>,
    new: Seq<NodeView<K>>,
    start: int,
    fragments: Seq<(Seq<char>, Option<Seq<char>>)>,
    route_key: K,
    leaf: int,
)
    requires
        0 <= start < old.len(),
        inserted(
            old,
            new,
            grafted(pattern(old, start), fragments),
            route_key,
            parameter_names(fragments),
            leaf,
        ),
    ensures
        carries_route(new, grafted(pattern(new, start), fragments)),
{
    assert(pattern(new, start) == pattern(old, start));
    assert(routed_at(new, leaf, grafted(pattern(new, start), fragments)));
}

/// The values that the route ending at `n` uses of `values`, of which the first `remaining`
/// are still to be used: the last of those, one for each of its parameters.
pub open spec fn values_used<K>(
    nodes: Seq<NodeView<K>>,
    n: int,
    values: Seq<Seq<char>>,
    remaining: int,
) -> Seq<Seq<char>> {
    values.subrange(remaining - (pattern(nodes, n).len() - 1), remaining)
}

/// The path from the root to node `n`, with the last of the first `remaining` values for its
/// parameters; `None` where those are too few.
fn path_to<K>(
    tree: &RouteTree<K>,
    n: usize,
    values: &Vec<Vec<char>>,
    remaining: usize,
) -> (path: Option<Vec<char>>)
    requires
        orderly(tree@),
        n < tree@.len(),
        remaining <= values@.len(),
    ensures
        path is None <==> remaining < pattern(tree@, n as int).len() - 1,
        path matches Some(text) ==> text@ == interleave(
            pattern(tree@, n as int),
            values_used(tree@, n as int, texts(values@), remaining as int),
        ),
    decreases ranks_of(tree@).depth[n as int],
{
    let node = tree.node(&RouteNodeRc(n));
    let ghost all = texts(values@);
    proof {
        assert(node_orderly(tree@, n as int));
        assert(ranked(tree@, ranks_of(tree@)));
        if n != 0 {
            assert(attached(tree@, n as int));
            lemma_pattern_has_pieces(tree@, tree@[n as int].parent->0);
        }
    }
    let left = if node.has_parameter() {
        if remaining == 0 {
            return None;
        }
        remaining - 1
    } else {
        remaining
    };
    let mut text = match node.parent() {
        Some(parent) => {
            match path_to(tree, parent.0, values, left) {
                Some(text) => text,
                None => {
                    return None;
                },
            }
        },
        None => Vec::new(),
    };
    let ghost before = text@;
    if node.has_parameter() {
        let value = &values[left];
        let mut i: usize = 0;
        while i < value.len()
            invariant
                i <= value@.len(),
                text@ == before + value@.take(i as int),
            decreases value@.len() - i,
        {
            text.push(value[i]);
            proof {
                assert(value@.take(i + 1) =~= value@.take(i as int).push(value@[i as int]));
            }
            i += 1;
        }
        proof {
            assert(value@.take(value@.len() as int) =~= value@);
        }
    }
    let ghost middle = text@;
    let anchor = node.anchor();
    let mut i: usize = 0;
    while i < anchor.len()
        invariant
            i <= anchor@.len(),
            text@ == middle + anchor@.take(i as int),
        decreases anchor@.len() - i,
    {
        text.push(anchor[i]);
        proof {
            assert(anchor@.take(i + 1) =~= anchor@.take(i as int).push(anchor@[i as int]));
        }
        i += 1;
    }
    proof {
        assert(anchor@.take(anchor@.len() as int) =~= anchor@);
        let pieces = pattern(tree@, n as int);
        match tree@[n as int].parent {
            Some(p) => {
                let above = pattern(tree@, p);
                let used_above = values_used(tree@, p, all, left as int);
                assert(before == interleave(above, used_above));
                if tree@[n as int].has_parameter {
                    assert(pieces == above.push(anchor@));
                    assert(values_used(tree@, n as int, all, remaining as int) =~= used_above.push(
                        all[left as int],
                    ));
                    lemma_interleave_parameter(above, used_above, all[left as int], anchor@);
                } else {
                    assert(values_used(tree@, n as int, all, remaining as int) =~= used_above);
                    lemma_interleave_literal(above, used_above, anchor@);
                }
            },
            None => {
                assert(n == 0);
                assert(text@ =~= anchor@);
            },
        }
    }
    Some(text)
}

impl RouteNodeRc {
    /// Inserts below this node the template that has the fragments `pairs`, for the route
    /// `route_key`, and gives the node at which the template ends. A template that ends at a
    /// node which carries a route already is refused, and the tree is left as it was.
    pub fn insert_pairs<K: Copy>(
        &self,
        tree: &mut RouteTree<K>,
        route_key: K,
        pairs: &Vec<(String, Option<String>)>,
    ) -> (leaf: Result<RouteNodeRc, RouteError>)
        requires
            old(tree).wf(),
            old(tree).has(*self),
            is_template(pairs_view(pairs@)),
            !(old(tree)@[self@].has_parameter && old(tree)@[self@].anchor.len() == 0),
        ensures
            match leaf {
                Ok(leaf) => inserted(
                    old(tree)@,
                    final(tree)@,
                    grafted(pattern(old(tree)@, self@), pairs_view(pairs@)),
                    route_key,
                    parameter_names(pairs_view(pairs@)),
                    leaf@,
                ),
                Err(error) => error == RouteError::AmbiguousRoute && final(tree)@ == old(tree)@,
            },
            leaf is Err <==> carries_route(
                old(tree)@,
                grafted(pattern(old(tree)@, self@), pairs_view(pairs@)),
            ),
            names_fit(old(tree)@) && pattern(old(tree)@, self@).len() == 1 ==> names_fit(
                final(tree)@,
            ),
    {
        let ghost before = tree@;
        let ghost fragments = pairs_view(pairs@);
        let route_parameter_names = names_of(pairs);
        let mut node_current_rc = *self;
        let mut index: usize = 0;
        proof {
            assert(fragments.take(0) =~= Seq::empty());
            assert(routes_kept(before, tree@, -1));
        }
        while index < pairs.len()
            invariant
                index <= pairs@.len(),
                before == old(tree)@,
                fragments == pairs_view(pairs@),
                is_template(fragments),
                route_parameter_names.deep_view() == parameter_names(fragments),
                well_formed(before),
                tree.wf(),
                tree.has(node_current_rc),
                before.len() > self@,
                patterns_kept(before, tree@),
                index < pairs@.len() ==> routes_kept(before, tree@, -1),
                index == pairs@.len() ==> !carries_route(
                    before,
                    grafted(pattern(before, self@), fragments),
                ),
                index == pairs@.len() ==> routes_kept(before, tree@, node_current_rc@)
                    && tree@[node_current_rc@].route_key == Some(route_key)
                    && tree@[node_current_rc@].route_parameter_names == parameter_names(fragments),
                pattern(tree@, node_current_rc@) == grafted(
                    pattern(before, self@),
                    fragments.take(index as int),
                ),
                index == 0 ==> node_current_rc == *self && tree@ == before,
                !(before[self@].has_parameter && before[self@].anchor.len() == 0),
                lean(before) ==> forall|n: int|
                    0 < n < tree@.len() && n != node_current_rc@ ==> #[trigger] lean_at(tree@, n),
                lean(before) && index == pairs@.len() ==> lean(tree@),
                index < pairs@.len() ==> tree@ == before || (node_current_rc@ >= before.len()
                    && !has_parameter_child(tree@, node_current_rc@)),
            decreases pairs@.len() - index,
        {
            let ghost middle = tree@;
            let anchor = chars_of(pairs[index].0.as_str());
            let has_parameter = pairs[index].1.is_some();
            let last = index == pairs.len() - 1;
            let key = if last {
                Some(route_key)
            } else {
                None
            };
            proof {
                assert(fragments[index as int].0 == anchor@);
                assert(fragments[index as int].1 is Some == has_parameter);
                assert(fragments.take(index + 1).drop_last() =~= fragments.take(index as int));
                assert(fragments.take(index + 1).last() == fragments[index as int]);
                if last {
                    assert(fragments.take(index + 1) =~= fragments);
                }
                lemma_carries_route_kept(
                    before,
                    middle,
                    grafted(pattern(before, self@), fragments.take(index + 1)),
                );
            }
            let (common_prefix_length, child_node_rc) = route_node_find_similar_child(
                tree,
                &node_current_rc,
                anchor.as_slice(),
                has_parameter,
            );
            let merged_node = route_node_merge(
                tree,
                &node_current_rc,
                child_node_rc.as_ref(),
                anchor.as_slice(),
                has_parameter,
                key,
                copy_strings(&route_parameter_names),
                common_prefix_length,
            );
            proof {
                if lean(before) {
                    let after = tree@;
                    let current = node_current_rc@;
                    if merged_node is Err {
                        if has_parameter {
                            assert(lean_at(middle, current));
                        }
                        assert forall|n: int| 0 < n < middle.len() implies #[trigger] lean_at(
                            middle,
                            n,
                        ) by {}
                    } else {
                        let node = merged_node->Ok_0@;
                        assert forall|n: int|
                            0 < n < after.len() && (n != node || last) implies #[trigger] lean_at(
                            after,
                            n,
                        ) by {
                            if n >= middle.len() {
                            } else if n == current && has_parameter {
                            } else if n == node {
                            } else {
                                assert(lean_at(middle, n));
                                lemma_lean_kept(middle, after, n, node);
                            }
                        }
                    }
                }
            }
            proof {
                if merged_node is Ok && !last {
                    let node = merged_node->Ok_0@;
                    let current = node_current_rc@;
                    if node < middle.len() && middle != before {
                        assert(has_parameter);
                        let below = tree@[current].children;
                        let i = choose|i: int|
                            0 <= i < below.len() && tree@[#[trigger] below[i]].has_parameter;
                        assert(middle[middle[current].children[i]].has_parameter);
                    }
                }
            }
            match merged_node {
                Ok(node) => {
                    proof {
                        lemma_kept_twice(before, middle, tree@, node@);
                        if !last {
                            let after = tree@;
                            assert forall|n: int| 0 <= n < after.len() implies if n
                                < before.len() {
                                same_route(before, after, n)
                            } else {
                                (#[trigger] after[n]).route_key is None
                            } by {
                                if n == node@ && n < middle.len() {
                                    assert(same_route(middle, after, n));
                                    if n < before.len() {
                                        assert(same_route(before, middle, n));
                                    } else {
                                        assert(middle[n].route_key is None);
                                    }
                                }
                            }
                        }
                    }
                    node_current_rc = node;
                },
                Err(error) => {
                    return Err(error);
                },
            }
            index += 1;
        }
        proof {
            assert(fragments.take(pairs@.len() as int) =~= fragments);
            let target = grafted(pattern(before, self@), fragments);
            let names = parameter_names(fragments);
            lemma_pattern_has_pieces(before, self@);
            lemma_names_fit_pattern(pattern(before, self@), fragments);
            if names_fit(before) && names.len() + 1 == target.len() {
                lemma_names_fit_kept(before, tree@, target, names, node_current_rc@);
            }
        }
        Ok(node_current_rc)
    }

    /// Inserts below this node the template `template`, for the route `route_key`, and gives
    /// the node at which the template ends. `parameter_placeholder_re` is the pattern of a
    /// placeholder. A template that ends at a node which carries a route already is refused,
    /// and the tree is left as it was.
    pub fn insert<K: Copy>(
        &self,
        tree: &mut RouteTree<K>,
        route_key: K,
        template: &str,
        parameter_placeholder_re: &Regex,
    ) -> (leaf: Result<RouteNodeRc, RouteError>)
        requires
            old(tree).wf(),
            old(tree).has(*self),
            !(old(tree)@[self@].has_parameter && old(tree)@[self@].anchor.len() == 0),
        ensures
            match leaf {
                Ok(leaf) => inserted(
                    old(tree)@,
                    final(tree)@,
                    grafted(
                        pattern(old(tree)@, self@),
                        template_pairs(
                            template@,
                            placeholder_matches(*parameter_placeholder_re, template@),
                        ),
                    ),
                    route_key,
                    parameter_names(
                        template_pairs(
                            template@,
                            placeholder_matches(*parameter_placeholder_re, template@),
                        ),
                    ),
                    leaf@,
                ),
                Err(error) => error == RouteError::AmbiguousRoute && final(tree)@ == old(tree)@,
            },
            leaf is Err <==> carries_route(
                old(tree)@,
                grafted(
                    pattern(old(tree)@, self@),
                    template_pairs(
                        template@,
                        placeholder_matches(*parameter_placeholder_re, template@),
                    ),
                ),
            ),
            names_fit(old(tree)@) && pattern(old(tree)@, self@).len() == 1 ==> names_fit(
                final(tree)@,
            ),
    {
        let template_pairs = parse_template_pairs(template, parameter_placeholder_re);
        let ghost fragments = template_pairs.pairs();
        let pairs = template_pairs.collect();
        proof {
            assert(fragments.skip(0) =~= fragments);
        }
        self.insert_pairs(tree, route_key, &pairs)
    }

    /// The path of the route that ends at this node, with `parameter_values` for its
    /// parameters, in template order. Where more values are given than the route has
    /// parameters the last of them are used; where fewer are given there is no path.
    pub fn stringify<K>(&self, tree: &RouteTree<K>, parameter_values: Vec<String>) -> (path: Result<
        String,
        RouteError,
    >)
        requires
            orderly(tree@),
            tree.has(*self),
        ensures
            path is Err <==> parameter_values@.len() < pattern(tree@, self@).len() - 1,
            path matches Err(error) ==> error == RouteError::MissingParameterValue,
            path matches Ok(text) ==> text@ == interleave(
                pattern(tree@, self@),
                values_used(
                    tree@,
                    self@,
                    parameter_values.deep_view(),
                    parameter_values@.len() as int,
                ),
            ),
    {
        let values = chars_of_each(&parameter_values);
        assert(values@.len() == texts(values@).len() && parameter_values.deep_view().len()
            == parameter_values@.len());
        match path_to(tree, self.0, &values, values.len()) {
            Some(text) => Ok(string_of(text.as_slice())),
            None => Err(RouteError::MissingParameterValue),
        }
    }

    /// Matches `path` against the templates below this node. Gives the key of the route that
    /// matches, the names of its parameters and the values captured for them, in template
    /// order; or no key, no names and no values where no route matches. A parameter value in
    /// front of an anchor is looked for among the first `maximum_parameter_value_length`
    /// characters and the anchor behind them.
    pub fn parse<K: Copy>(
        &self,
        tree: &RouteTree<K>,
        path: &str,
        maximum_parameter_value_length: usize,
    ) -> (parsed: (Option<K>, Vec<String>, Vec<String>))
        requires
            orderly(tree@),
            tree.has(*self),
        ensures
            match match_node(tree@, self@, path@, maximum_parameter_value_length as nat) {
                Some((end, values)) => 0 <= end < tree@.len() && parsed.0 == tree@[end].route_key
                    && parsed.0 is Some && parsed.1.deep_view() == tree@[end].route_parameter_names
                    && parsed.2.deep_view() == values,
                None => parsed.0 is None && parsed.1@.len() == 0 && parsed.2@.len() == 0,
            },
            names_fit(tree@) && pattern(tree@, self@).len() == 1 ==> parsed.1@.len()
                == parsed.2@.len(),
    {
        let chars = chars_of(path);
        match match_node_exec(tree, self.0, chars.as_slice(), maximum_parameter_value_length) {
            Some((end, values)) => {
                proof {
                    lemma_match_ends_at_route(
                        tree@,
                        self@,
                        path@,
                        maximum_parameter_value_length as nat,
                    );
                    if pattern(tree@, self@).len() == 1 {
                        assert(node_orderly(tree@, self@));
                        if self@ != 0 {
                            assert(attached(tree@, self@));
                            lemma_pattern_has_pieces(tree@, tree@[self@].parent->0);
                        }
                        lemma_match_node_interleaves(
                            tree@,
                            self@,
                            path@,
                            maximum_parameter_value_length as nat,
                            Seq::empty(),
                        );
                        assert(Seq::<Seq<char>>::empty() + texts(values@) =~= texts(values@));
                    }
                }
                let node = tree.node(&RouteNodeRc(end));
                (*node.route_key(), copy_strings(node.route_parameter_names()), strings_of(&values))
            },
            None => (None, Vec::new(), Vec::new()),
        }
    }
}

/// The pattern in front of node `n`: that of its parent; for the root, none.
pub open spec fn pattern_above<K>(nodes: Seq<NodeView<K>>, n: int) -> Seq<Seq<char>> {
    match nodes[n].parent {
        Some(parent) => pattern(nodes, parent),
        None => Seq::empty(),
    }
}

/// What a node takes from a path is the front of the path: the value it captures, then its
/// anchor, and the rest is what is left. A value in front of an anchor that is not empty has
/// at most `maximum` characters.
pub proof fn lemma_node_takes<K>(node: NodeView<K>, path: Seq<char>, maximum: nat)
    requires
        node_takes(node, path, maximum) is Some,
    ensures
        ({
            let (values, rest) = node_takes(node, path, maximum)->0;
            &&& values.len() == (if node.has_parameter {
                1nat
            } else {
                0nat
            })
            &&& node.has_parameter ==> values[0] + node.anchor + rest == path
            &&& !node.has_parameter ==> node.anchor + rest == path
            &&& node.has_parameter && node.anchor.len() > 0 ==> values[0].len() <= maximum
        }),
{
    let (values, rest) = node_takes(node, path, maximum)->0;
    if node.has_parameter {
        if node.anchor.len() == 0 {
            assert(values[0] + node.anchor + rest =~= path);
        } else {
            let window = path.take(search_window(path.len(), node.anchor.len(), maximum) as int);
            lemma_first_occurrence_from(window, node.anchor, 0);
            let at = first_occurrence(window, node.anchor)->0;
            assert(occurs_at(window, node.anchor, at));
            assert(window.subrange(at, at + node.anchor.len()) =~= path.subrange(
                at,
                at + node.anchor.len(),
            ));
            assert(values[0] + node.anchor + rest =~= path);
        }
    } else {
        assert(node.anchor + rest =~= path);
    }
}

/// A parameter in front of an anchor is looked for in the search window alone: where the
/// path fills the window, what follows the path has no part in what the node captures.
pub proof fn lemma_capture_ignores_the_rest<K>(
    node: NodeView<K>,
    path: Seq<char>,
    more: Seq<char>,
    maximum: nat,
)
    requires
        node.has_parameter,
        node.anchor.len() > 0,
        path.len() >= maximum + node.anchor.len(),
    ensures
        match node_takes(node, path, maximum) {
            Some((values, rest)) => node_takes(node, path + more, maximum) == Some(
                (values, rest + more),
            ),
            None => node_takes(node, path + more, maximum) is None,
        },
{
    let window = search_window(path.len(), node.anchor.len(), maximum) as int;
    assert((path + more).take(window) =~= path.take(window));
    if node_takes(node, path, maximum) is Some {
        let at = first_occurrence(path.take(window), node.anchor)->0;
        lemma_first_occurrence_from(path.take(window), node.anchor, 0);
        assert((path + more).take(at) =~= path.take(at));
        assert((path + more).skip(at + node.anchor.len()) =~= path.skip(at + node.anchor.len())
            + more);
    }
}

/// A match below node `n` takes the path apart along the pattern of the node at which it
/// ends: with `values_above` for the parameters in front of `n`, the pattern of that node
/// and the values, those captured behind the others, make what stands in front of `n`
/// followed by the path.
pub proof fn lemma_match_node_interleaves<K>(
    nodes: Seq<NodeView<K>>,
    n: int,
    path: Seq<char>,
    maximum: nat,
    values_above: Seq<Seq<char>>,
)
    requires
        orderly(nodes),
        0 <= n < nodes.len(),
        match_node(nodes, n, path, maximum) is Some,
        values_above.len() + 1 == pattern_above(nodes, n).len() || (n == 0 && values_above.len()
            == 0),
    ensures
        ({
            let (end, values) = match_node(nodes, n, path, maximum)->0;
            &&& 0 <= end < nodes.len()
            &&& (values_above + values).len() + 1 == pattern(nodes, end).len()
            &&& interleave(pattern(nodes, end), values_above + values) == interleave(
                pattern_above(nodes, n),
                values_above,
            ) + path
        }),
    decreases ranks_of(nodes).height[n], nodes[n].children.len() + 1,
{
    let (taken, rest) = node_takes(nodes[n], path, maximum)->0;
    let above = pattern_above(nodes, n);
    let here = values_above + taken;
    lemma_node_takes(nodes[n], path, maximum);
    assert(node_orderly(nodes, n));
    // the node itself
    assert(here.len() + 1 == pattern(nodes, n).len() && interleave(pattern(nodes, n), here) + rest
        == interleave(above, values_above) + path) by {
        if n == 0 {
            assert(here =~= values_above);
            assert(nodes[n].anchor + rest =~= Seq::<char>::empty() + path);
        } else {
            assert(attached(nodes, n));
            lemma_pattern_has_pieces(nodes, nodes[n].parent->0);
            if nodes[n].has_parameter {
                assert(here =~= values_above.push(taken[0]));
                lemma_interleave_parameter(above, values_above, taken[0], nodes[n].anchor);
                assert(interleave(above, values_above) + taken[0] + nodes[n].anchor + rest
                    =~= interleave(above, values_above) + (taken[0] + nodes[n].anchor + rest));
            } else {
                assert(here =~= values_above);
                lemma_interleave_literal(above, values_above, nodes[n].anchor);
                assert(interleave(above, values_above) + nodes[n].anchor + rest =~= interleave(
                    above,
                    values_above,
                ) + (nodes[n].anchor + rest));
            }
        }
    }
    if match_children(nodes, n, 0, rest, maximum) is Some {
        lemma_match_children_interleave(nodes, n, 0, rest, maximum, here);
        let (end, more) = match_children(nodes, n, 0, rest, maximum)->0;
        assert(values_above + (taken + more) =~= here + more);
    } else {
        assert(interleave(pattern(nodes, n), here) + rest =~= interleave(pattern(nodes, n), here));
    }
}

/// A match by a child of `n` takes the path apart along the pattern of the node at which
/// it ends.
proof fn lemma_match_children_interleave<K>(
    nodes: Seq<NodeView<K>>,
    n: int,
    from: int,
    path: Seq<char>,
    maximum: nat,
    values_above: Seq<Seq<char>>,
)
    requires
        orderly(nodes),
        0 <= n < nodes.len(),
        match_children(nodes, n, from, path, maximum) is Some,
        values_above.len() + 1 == pattern(nodes, n).len(),
    ensures
        ({
            let (end, values) = match_children(nodes, n, from, path, maximum)->0;
            &&& 0 <= end < nodes.len()
            &&& (values_above + values).len() + 1 == pattern(nodes, end).len()
            &&& interleave(pattern(nodes, end), values_above + values) == interleave(
                pattern(nodes, n),
                values_above,
            ) + path
        }),
    decreases ranks_of(nodes).height[n], nodes[n].children.len() - from,
{
    let child = nodes[n].children[from];
    assert(owned(nodes, n, child));
    assert(ranked(nodes, ranks_of(nodes)));
    if match_node(nodes, child, path, maximum) is Some {
        lemma_match_node_interleaves(nodes, child, path, maximum, values_above);
    } else {
        lemma_match_children_interleave(nodes, n, from + 1, path, maximum, values_above);
    }
}

/// A path that matches is the path of the route it matches: the pattern of the node at which
/// the match ends, with the captured values for its parameters, one for each, gives the path
/// back.
pub proof fn lemma_match_gives_path_back<K>(nodes: Seq<NodeView<K>>, path: Seq<char>, maximum: nat)
    requires
        orderly(nodes),
        match_node(nodes, 0, path, maximum) is Some,
    ensures
        ({
            let (end, values) = match_node(nodes, 0, path, maximum)->0;
            &&& 0 <= end < nodes.len()
            &&& nodes[end].route_key is Some
            &&& values.len() + 1 == pattern(nodes, end).len()
            &&& interleave(pattern(nodes, end), values) == path
        }),
{
    let (end, values) = match_node(nodes, 0, path, maximum)->0;
    lemma_match_node_interleaves(nodes, 0, path, maximum, Seq::empty());
    lemma_match_ends_at_route(nodes, 0, path, maximum);
    assert(Seq::<Seq<char>>::empty() + values =~= values);
    assert(interleave(Seq::<Seq<char>>::empty(), Seq::<Seq<char>>::empty()) + path =~= path);
}

/// A match ends at a node of the tree that carries a route.
pub proof fn lemma_match_ends_at_route<K>(
    nodes: Seq<NodeView<K>>,
    n: int,
    path: Seq<char>,
    maximum: nat,
)
    requires
        match_node(nodes, n, path, maximum) is Some,
    ensures
        match_node(nodes, n, path, maximum) matches Some((end, _)) && 0 <= end < nodes.len()
            && nodes[end].route_key is Some,
    decreases ranks_of(nodes).height[n], nodes[n].children.len() + 1,
{
    let (values, rest) = node_takes(nodes[n], path, maximum)->0;
    if match_children(nodes, n, 0, rest, maximum) is Some {
        lemma_match_children_end_at_route(nodes, n, 0, rest, maximum);
    }
}

/// A match by a child of `n` ends at a node of the tree that carries a route.
proof fn lemma_match_children_end_at_route<K>(
    nodes: Seq<NodeView<K>>,
    n: int,
    from: int,
    path: Seq<char>,
    maximum: nat,
)
    requires
        match_children(nodes, n, from, path, maximum) is Some,
    ensures
        match_children(nodes, n, from, path, maximum) matches Some((end, _)) && 0 <= end
            < nodes.len() && nodes[end].route_key is Some,
    decreases ranks_of(nodes).height[n], nodes[n].children.len() - from,
{
    assert(owned(nodes, n, nodes[n].children[from]));
    assert(ranked(nodes, ranks_of(nodes)));
    if match_node(nodes, nodes[n].children[from], path, maximum) is Some {
        lemma_match_ends_at_route(nodes, nodes[n].children[from], path, maximum);
    } else {
        lemma_match_children_end_at_route(nodes, n, from + 1, path, maximum);
    }
}

} // verus!
