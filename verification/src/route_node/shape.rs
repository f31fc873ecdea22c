use crate::route_node::NodeView;
use crate::route_node::lookup::{lemma_terminal_extended, lemma_terminal_of_child, terminal};
use crate::route_node::model::{
    attached, carries_route, extend, has_parameter_child, lean, lean_at, node_ok, orderly, owned,
    pattern, ranked, ranks_of, routed_at, similar, slot_precedes, tree_shaped, well_formed,
};
use crate::route_node::route_node_merge::{lemma_pattern_has_pieces, same_route};
use crate::route_node::route_node_rc::{inserted, match_children, match_node, node_takes};
use crate::route_node::route_node_utility::{
    fragment_child, lemma_fragment_child_is_child, lemma_fragment_child_unique,
};
use crate::route_node::traits::lemma_slot_order_total;
use vstd::prelude::*;

verus! {

/// The characters of a text as symbols of a word.
pub open spec fn literal(text: Seq<char>) -> Seq<Option<char>> {
    text.map_values(|c: char| Some(c))
}

/// What passing a node adds to a word: the mark of a parameter, if the node has one, and
/// the characters of its anchor.
pub open spec fn label(anchor: Seq<char>, has_parameter: bool) -> Seq<Option<char>> {
    if has_parameter {
        seq![None] + literal(anchor)
    } else {
        literal(anchor)
    }
}

/// A pattern as one word: its pieces, with the mark of a parameter, `None`, between them.
pub open spec fn word_of(pieces: Seq<Seq<char>>) -> Seq<Option<char>>
    decreases pieces.len(),
{
    if pieces.len() == 0 {
        Seq::empty()
    } else if pieces.len() == 1 {
        literal(pieces[0])
    } else {
        word_of(pieces.drop_last()) + seq![None] + literal(pieces.last())
    }
}

/// The word of the template that ends at node `n`.
pub open spec fn word<K>(nodes: Seq<NodeView<K>>, n: int) -> Seq<Option<char>> {
    word_of(pattern(nodes, n))
}

/// The symbols of two texts in a row are the symbols of the first and then of the second.
pub proof fn lemma_literal_concat(first: Seq<char>, second: Seq<char>)
    ensures
        literal(first + second) == literal(first) + literal(second),
{
    assert(literal(first + second) =~= literal(first) + literal(second));
}

/// Passing a node appends its label to the word.
pub proof fn lemma_word_of_extend(pieces: Seq<Seq<char>>, has_parameter: bool, anchor: Seq<char>)
    requires
        pieces.len() > 0,
    ensures
        word_of(extend(pieces, has_parameter, anchor)) == word_of(pieces) + label(
            anchor,
            has_parameter,
        ),
{
    let longer = extend(pieces, has_parameter, anchor);
    if has_parameter {
        assert(longer.drop_last() =~= pieces);
        assert(word_of(pieces) + seq![None] + literal(anchor) =~= word_of(pieces) + (seq![None]
            + literal(anchor)));
    } else {
        lemma_literal_concat(pieces.last(), anchor);
        if pieces.len() == 1 {
        } else {
            assert(longer.drop_last() =~= pieces.drop_last());
            assert(word_of(pieces.drop_last()) + seq![None] + (literal(pieces.last()) + literal(
                anchor,
            )) =~= word_of(pieces.drop_last()) + seq![None] + literal(pieces.last()) + literal(
                anchor,
            ));
        }
    }
}

/// The word of a node is the word of its parent and then its own label; the word of the
/// root is empty.
pub proof fn lemma_word_step<K>(nodes: Seq<NodeView<K>>, n: int)
    requires
        well_formed(nodes),
        0 <= n < nodes.len(),
    ensures
        n == 0 ==> word(nodes, n) == Seq::<Option<char>>::empty(),
        n != 0 ==> word(nodes, n) == word(nodes, nodes[n].parent->0) + label(
            nodes[n].anchor,
            nodes[n].has_parameter,
        ),
{
    assert(node_ok(nodes, n));
    if n == 0 {
        assert(word(nodes, n) =~= Seq::<Option<char>>::empty());
    } else {
        assert(attached(nodes, n));
        lemma_pattern_has_pieces(nodes, nodes[n].parent->0);
        lemma_word_of_extend(
            pattern(nodes, nodes[n].parent->0),
            nodes[n].has_parameter,
            nodes[n].anchor,
        );
    }
}

/// The characters at the front of a word, up to the first mark of a parameter.
pub open spec fn literal_front(rest: Seq<Option<char>>) -> Seq<char>
    decreases rest.len(),
{
    if rest.len() == 0 {
        Seq::empty()
    } else {
        match rest[0] {
            Some(c) => seq![c] + literal_front(rest.drop_first()),
            None => Seq::empty(),
        }
    }
}

/// Whether a word begins with the mark of a parameter.
pub open spec fn front_flag(rest: Seq<Option<char>>) -> bool {
    rest.len() > 0 && rest[0] is None
}

/// The anchor of the fragment at the front of a word.
pub open spec fn front_anchor(rest: Seq<Option<char>>) -> Seq<char> {
    if front_flag(rest) {
        literal_front(rest.drop_first())
    } else {
        literal_front(rest)
    }
}

/// What is left of a word behind the fragment at its front.
pub open spec fn after_front(rest: Seq<Option<char>>) -> Seq<Option<char>> {
    rest.skip(
        (if front_flag(rest) {
            1int
        } else {
            0int
        }) + front_anchor(rest).len(),
    )
}

/// The characters at the front of a word are the front of the word, and what follows them
/// is the mark of a parameter or the end.
pub proof fn lemma_literal_front(rest: Seq<Option<char>>)
    ensures
        literal_front(rest).len() <= rest.len(),
        literal(literal_front(rest)) == rest.take(literal_front(rest).len() as int),
        literal_front(rest).len() < rest.len() ==> rest[literal_front(rest).len() as int] is None,
    decreases rest.len(),
{
    if rest.len() > 0 && rest[0] is Some {
        lemma_literal_front(rest.drop_first());
        let tail = literal_front(rest.drop_first());
        let front = literal(seq![rest[0]->0] + tail);
        assert forall|i: int| 0 <= i < front.len() implies front[i] == rest[i] by {
            if i > 0 {
                assert(literal(tail)[i - 1] == rest.drop_first().take(tail.len() as int)[i - 1]);
            }
        }
        assert(front =~= rest.take(tail.len() as int + 1));
    } else {
        assert(literal(literal_front(rest)) =~= rest.take(0));
    }
}

/// The characters at the front of a text followed by a word are the text and the characters
/// at the front of the word.
pub proof fn lemma_literal_front_concat(text: Seq<char>, rest: Seq<Option<char>>)
    ensures
        literal_front(literal(text) + rest) == text + literal_front(rest),
    decreases text.len(),
{
    let whole = literal(text) + rest;
    if text.len() == 0 {
        assert(whole =~= rest);
        assert(text + literal_front(rest) =~= literal_front(rest));
    } else {
        assert(whole.drop_first() =~= literal(text.drop_first()) + rest);
        lemma_literal_front_concat(text.drop_first(), rest);
        assert(seq![text[0]] + (text.drop_first() + literal_front(rest)) =~= text + literal_front(
            rest,
        ));
    }
}

/// The fragment at the front of a label followed by a word.
pub proof fn lemma_front_of_label(anchor: Seq<char>, has_parameter: bool, rest: Seq<Option<char>>)
    requires
        has_parameter || anchor.len() > 0,
    ensures
        front_flag(label(anchor, has_parameter) + rest) == has_parameter,
        front_anchor(label(anchor, has_parameter) + rest) == anchor + literal_front(rest),
        after_front(label(anchor, has_parameter) + rest) == rest.skip(
            literal_front(rest).len() as int,
        ),
{
    let whole = label(anchor, has_parameter) + rest;
    lemma_literal_front(rest);
    if has_parameter {
        assert(whole.drop_first() =~= literal(anchor) + rest);
        lemma_literal_front_concat(anchor, rest);
        assert(whole.skip(1 + (anchor + literal_front(rest)).len() as int) =~= rest.skip(
            literal_front(rest).len() as int,
        ));
    } else {
        lemma_literal_front_concat(anchor, rest);
        assert(whole.skip((anchor + literal_front(rest)).len() as int) =~= rest.skip(
            literal_front(rest).len() as int,
        ));
    }
}

/// The node reached from node `n` along the word `rest`: fragment by fragment, each to the
/// node at which it ends.
pub open spec fn descend<K>(nodes: Seq<NodeView<K>>, n: int, rest: Seq<Option<char>>) -> Option<
    int,
>
    decreases rest.len(),
    via descend_decreases::<K>
{
    if rest.len() == 0 {
        Some(n)
    } else {
        match terminal(nodes, n, front_anchor(rest), front_flag(rest)) {
            Some(end) => descend(nodes, end, after_front(rest)),
            None => None,
        }
    }
}

/// What is left behind the fragment at the front of a word is shorter than the word.
#[via_fn]
proof fn descend_decreases<K>(nodes: Seq<NodeView<K>>, n: int, rest: Seq<Option<char>>) {
    if rest.len() > 0 {
        lemma_literal_front(rest);
        lemma_literal_front(rest.drop_first());
        if !front_flag(rest) {
            assert(literal_front(rest).len() > 0);
        }
    }
}

/// A word is the fragment at its front and what is left behind it.
pub proof fn lemma_front_and_rest(rest: Seq<Option<char>>)
    ensures
        label(front_anchor(rest), front_flag(rest)) + after_front(rest) == rest,
        rest.len() > 0 ==> after_front(rest).len() < rest.len(),
        after_front(rest).len() > 0 ==> after_front(rest)[0] is None,
        front_flag(rest) || front_anchor(rest).len() > 0 || rest.len() == 0,
{
    if front_flag(rest) {
        lemma_literal_front(rest.drop_first());
        let front = front_anchor(rest);
        assert(seq![None] + rest.drop_first().take(front.len() as int) + rest.skip(
            1 + front.len() as int,
        ) =~= rest);
    } else {
        lemma_literal_front(rest);
        assert(rest.take(front_anchor(rest).len() as int) + rest.skip(
            front_anchor(rest).len() as int,
        ) =~= rest);
    }
}

/// No node of the tree is a parameter without anchor that is followed by literal text.
pub open spec fn may_follow<K>(nodes: Seq<NodeView<K>>, n: int, rest: Seq<Option<char>>) -> bool {
    literal_front(rest).len() == 0 || !(nodes[n].has_parameter && nodes[n].anchor.len() == 0)
}

/// A word that begins with the label of a child leads through that child.
pub proof fn lemma_descend_through_child<K>(
    nodes: Seq<NodeView<K>>,
    child: int,
    rest: Seq<Option<char>>,
)
    requires
        well_formed(nodes),
        0 < child < nodes.len(),
        may_follow(nodes, child, rest),
    ensures
        descend(
            nodes,
            nodes[child].parent->0,
            label(nodes[child].anchor, nodes[child].has_parameter) + rest,
        ) == descend(nodes, child, rest),
{
    let parent = nodes[child].parent->0;
    let anchor = nodes[child].anchor;
    let has_parameter = nodes[child].has_parameter;
    let more = literal_front(rest);
    assert(attached(nodes, child));
    assert(node_ok(nodes, child));
    lemma_front_of_label(anchor, has_parameter, rest);
    lemma_terminal_of_child(nodes, child);
    lemma_terminal_extended(nodes, parent, anchor, has_parameter, more);
    lemma_literal_front(rest);
    if rest.len() == 0 || rest[0] is None {
        assert(rest.skip(0) =~= rest);
    } else {
    }
}

/// The word of a node leads from the root to the node, and a longer word leads on from
/// there.
pub proof fn lemma_descend_from_root<K>(nodes: Seq<NodeView<K>>, n: int, rest: Seq<Option<char>>)
    requires
        well_formed(nodes),
        0 <= n < nodes.len(),
        may_follow(nodes, n, rest),
    ensures
        descend(nodes, 0, word(nodes, n) + rest) == descend(nodes, n, rest),
    decreases ranks_of(nodes).depth[n],
{
    lemma_word_step(nodes, n);
    assert(ranked(nodes, ranks_of(nodes)));
    if n == 0 {
        assert(word(nodes, n) + rest =~= rest);
    } else {
        assert(attached(nodes, n));
        assert(node_ok(nodes, n));
        let parent = nodes[n].parent->0;
        let own = label(nodes[n].anchor, nodes[n].has_parameter);
        assert(word(nodes, n) + rest =~= word(nodes, parent) + (own + rest));
        assert(may_follow(nodes, parent, own + rest)) by {
            if nodes[n].has_parameter {
                assert((own + rest)[0] is None);
            } else {
                assert(node_ok(nodes, parent));
                let i = choose|i: int|
                    0 <= i < nodes[parent].children.len() && nodes[parent].children[i] == n;
                assert(!nodes[nodes[parent].children[i]].has_parameter);
            }
        }
        lemma_descend_from_root(nodes, parent, own + rest);
        lemma_descend_through_child(nodes, n, rest);
    }
}

/// The node at which a fragment ends has the word of the node below which it was looked
/// for, and then the label of the fragment.
pub proof fn lemma_terminal_word<K>(
    nodes: Seq<NodeView<K>>,
    parent: int,
    anchor: Seq<char>,
    has_parameter: bool,
)
    requires
        well_formed(nodes),
        0 <= parent < nodes.len(),
        terminal(nodes, parent, anchor, has_parameter) is Some,
    ensures
        0 <= terminal(nodes, parent, anchor, has_parameter)->0 < nodes.len(),
        word(nodes, terminal(nodes, parent, anchor, has_parameter)->0) == word(nodes, parent)
            + label(anchor, has_parameter),
    decreases anchor.len(),
{
    if !has_parameter && anchor.len() == 0 {
        assert(word(nodes, parent) + label(anchor, has_parameter) =~= word(nodes, parent));
    } else {
        lemma_fragment_child_is_child(nodes, parent, anchor, has_parameter);
        let child = fragment_child(nodes, parent, anchor, has_parameter)->0;
        lemma_word_step(nodes, child);
        if nodes[child].anchor != anchor {
            let rest = anchor.skip(nodes[child].anchor.len() as int);
            lemma_terminal_word(nodes, child, rest, false);
            assert(nodes[child].anchor + rest =~= anchor);
            lemma_literal_concat(nodes[child].anchor, rest);
            assert(word(nodes, parent) + label(nodes[child].anchor, has_parameter) + label(
                rest,
                false,
            ) =~= word(nodes, parent) + label(anchor, has_parameter));
        }
    }
}

/// Where a word leads from a node to a node, that node has the word of the first and then
/// the word that led to it.
pub proof fn lemma_descend_word<K>(nodes: Seq<NodeView<K>>, n: int, rest: Seq<Option<char>>)
    requires
        well_formed(nodes),
        0 <= n < nodes.len(),
        descend(nodes, n, rest) is Some,
    ensures
        0 <= descend(nodes, n, rest)->0 < nodes.len(),
        word(nodes, descend(nodes, n, rest)->0) == word(nodes, n) + rest,
    decreases rest.len(),
{
    if rest.len() == 0 {
        assert(word(nodes, n) + rest =~= word(nodes, n));
    } else {
        lemma_front_and_rest(rest);
        lemma_terminal_word(nodes, n, front_anchor(rest), front_flag(rest));
        let end = terminal(nodes, n, front_anchor(rest), front_flag(rest))->0;
        lemma_descend_word(nodes, end, after_front(rest));
        assert(word(nodes, n) + label(front_anchor(rest), front_flag(rest)) + after_front(rest)
            =~= word(nodes, n) + (label(front_anchor(rest), front_flag(rest)) + after_front(
            rest,
        )));
    }
}

/// The word of a node leads from the root to it, and to no other node.
pub proof fn lemma_descend_to_node<K>(nodes: Seq<NodeView<K>>, n: int)
    requires
        well_formed(nodes),
        0 <= n < nodes.len(),
    ensures
        descend(nodes, 0, word(nodes, n)) == Some(n),
{
    lemma_descend_from_root(nodes, n, Seq::empty());
    assert(word(nodes, n) + Seq::<Option<char>>::empty() =~= word(nodes, n));
}

/// The shape of a tree below a node: what the node holds and the shapes below its
/// children, in sibling order. The places that nodes have in the tree's store play no part.
pub ghost struct Shape<K> {
    pub anchor: Seq<char>,
    pub has_parameter: bool,
    pub route_key: Option<K>,
    pub route_parameter_names: Seq<Seq<char>>,
    pub children: Seq<Shape<K>>,
}

/// The shape of the tree below node `n`.
pub open spec fn shape_of<K>(nodes: Seq<NodeView<K>>, n: int) -> Shape<K>
    decreases ranks_of(nodes).height[n], nodes[n].children.len() + 1,
{
    Shape {
        anchor: nodes[n].anchor,
        has_parameter: nodes[n].has_parameter,
        route_key: nodes[n].route_key,
        route_parameter_names: nodes[n].route_parameter_names,
        children: shapes_from(nodes, n, 0),
    }
}

/// The shapes below the children of `n`, from position `from` on.
pub open spec fn shapes_from<K>(nodes: Seq<NodeView<K>>, n: int, from: int) -> Seq<Shape<K>>
    decreases ranks_of(nodes).height[n], nodes[n].children.len() - from,
{
    if tree_shaped(nodes) && 0 <= n < nodes.len() && 0 <= from < nodes[n].children.len() {
        seq![shape_of(nodes, nodes[n].children[from])] + shapes_from(nodes, n, from + 1)
    } else {
        Seq::empty()
    }
}

/// The route that a tree holds for a word: the key and the parameter names of the node to
/// which the word leads, if it leads to one that carries a route.
pub open spec fn route_at<K>(nodes: Seq<NodeView<K>>, template: Seq<Option<char>>) -> Option<
    (K, Seq<Seq<char>>),
> {
    match descend(nodes, 0, template) {
        Some(end) => match nodes[end].route_key {
            Some(key) => Some((key, nodes[end].route_parameter_names)),
            None => None,
        },
        None => None,
    }
}

/// Two trees hold the same routes.
pub open spec fn same_routes<K>(first: Seq<NodeView<K>>, second: Seq<NodeView<K>>) -> bool {
    forall|template: Seq<Option<char>>| #[trigger]
        route_at(first, template) == route_at(second, template)
}

/// Below every node that is needed a template ends: a word leads from the node to a node
/// that carries a route.
pub proof fn lemma_route_below<K>(nodes: Seq<NodeView<K>>, n: int) -> (rest: Seq<Option<char>>)
    requires
        well_formed(nodes),
        lean(nodes),
        0 < n < nodes.len(),
    ensures
        descend(nodes, n, rest) is Some,
        0 <= descend(nodes, n, rest)->0 < nodes.len(),
        nodes[descend(nodes, n, rest)->0].route_key is Some,
        may_follow(nodes, n, rest),
    decreases ranks_of(nodes).height[n],
{
    assert(lean_at(nodes, n));
    assert(node_ok(nodes, n));
    assert(ranked(nodes, ranks_of(nodes)));
    if nodes[n].route_key is Some {
        Seq::empty()
    } else {
        let below = nodes[n].children;
        let i = if has_parameter_child(nodes, n) {
            choose|i: int| 0 <= i < below.len() && nodes[#[trigger] below[i]].has_parameter
        } else {
            0
        };
        let child = nodes[n].children[i];
        assert(owned(nodes, n, child));
        let below = lemma_route_below(nodes, child);
        lemma_descend_through_child(nodes, child, below);
        let rest = label(nodes[child].anchor, nodes[child].has_parameter) + below;
        assert(node_ok(nodes, child));
        assert(may_follow(nodes, n, rest)) by {
            if nodes[child].has_parameter {
                assert(rest[0] is None);
            }
        }
        rest
    }
}

/// Where two trees hold the same routes and a word leads, from a node of the first, to a
/// node that carries a route, the word leads on from the node of the second tree that has
/// the same word.
proof fn lemma_route_leads_on<K>(
    first: Seq<NodeView<K>>,
    second: Seq<NodeView<K>>,
    n_first: int,
    n_second: int,
    rest: Seq<Option<char>>,
)
    requires
        well_formed(first),
        well_formed(second),
        same_routes(first, second) || same_routes(second, first),
        0 <= n_first < first.len(),
        0 <= n_second < second.len(),
        word(first, n_first) == word(second, n_second),
        descend(first, n_first, rest) is Some,
        first[descend(first, n_first, rest)->0].route_key is Some,
        may_follow(first, n_first, rest),
        may_follow(second, n_second, rest),
    ensures
        descend(second, n_second, rest) is Some,
{
    let template = word(first, n_first) + rest;
    lemma_descend_from_root(first, n_first, rest);
    lemma_descend_from_root(second, n_second, rest);
    assert(route_at(first, template) is Some);
    assert(route_at(first, template) == route_at(second, template));
}

/// The place at which a node is listed among the children of its parent.
proof fn lemma_child_position<K>(nodes: Seq<NodeView<K>>, child: int) -> (position: int)
    requires
        well_formed(nodes),
        0 < child < nodes.len(),
    ensures
        nodes[child].parent is Some,
        0 <= nodes[child].parent->0 < nodes.len(),
        0 <= position < nodes[nodes[child].parent->0].children.len(),
        nodes[nodes[child].parent->0].children[position] == child,
{
    assert(attached(nodes, child));
    let parent = nodes[child].parent->0;
    choose|i: int| 0 <= i < nodes[parent].children.len() && nodes[parent].children[i] == child
}

/// A word may follow the parent of a child when it begins with the label of the child.
proof fn lemma_label_may_follow<K>(nodes: Seq<NodeView<K>>, child: int, rest: Seq<Option<char>>)
    requires
        well_formed(nodes),
        0 < child < nodes.len(),
    ensures
        may_follow(
            nodes,
            nodes[child].parent->0,
            label(nodes[child].anchor, nodes[child].has_parameter) + rest,
        ),
{
    let position = lemma_child_position(nodes, child);
    let parent = nodes[child].parent->0;
    assert(node_ok(nodes, parent));
    let whole = label(nodes[child].anchor, nodes[child].has_parameter) + rest;
    if nodes[child].has_parameter {
        assert(whole[0] is None);
    } else {
        assert(!nodes[nodes[parent].children[position]].has_parameter);
    }
}

/// A child in the second tree whose anchor is the front of the anchor of a child in the
/// first, below nodes with the same word: a word that leads on from the second child to a
/// route goes on with the character that follows the front in the first child's anchor.
proof fn lemma_goes_on_with<K>(
    first: Seq<NodeView<K>>,
    second: Seq<NodeView<K>>,
    child_first: int,
    child_second: int,
    rest: Seq<Option<char>>,
)
    requires
        well_formed(first),
        well_formed(second),
        same_routes(first, second) || same_routes(second, first),
        0 < child_first < first.len(),
        0 < child_second < second.len(),
        word(first, first[child_first].parent->0) == word(second, second[child_second].parent->0),
        first[child_first].has_parameter == second[child_second].has_parameter,
        second[child_second].anchor.len() > 0,
        second[child_second].anchor.len() < first[child_first].anchor.len(),
        second[child_second].anchor.is_prefix_of(first[child_first].anchor),
        descend(second, child_second, rest) is Some,
        second[descend(second, child_second, rest)->0].route_key is Some,
        may_follow(second, child_second, rest),
    ensures
        literal_front(rest).len() > 0,
        literal_front(rest)[0]
            == first[child_first].anchor[second[child_second].anchor.len() as int],
{
    let position_first = lemma_child_position(first, child_first);
    let position_second = lemma_child_position(second, child_second);
    let n_first = first[child_first].parent->0;
    let n_second = second[child_second].parent->0;
    let long = first[child_first].anchor;
    let short = second[child_second].anchor;
    let has_parameter = first[child_first].has_parameter;
    let whole = label(short, has_parameter) + rest;
    lemma_descend_through_child(second, child_second, rest);
    lemma_label_may_follow(second, child_second, rest);
    assert(may_follow(first, n_first, whole)) by {
        assert(node_ok(first, n_first));
        if has_parameter {
            assert(whole[0] is None);
        } else {
            assert(!first[first[n_first].children[position_first]].has_parameter);
        }
    }
    lemma_route_leads_on(second, first, n_second, n_first, whole);
    lemma_front_of_label(short, has_parameter, rest);
    let sought = short + literal_front(rest);
    assert(terminal(first, n_first, sought, has_parameter) is Some);
    assert(long[0] == short[0]);
    assert(sought[0] == short[0]);
    lemma_fragment_child_unique(first, n_first, sought, has_parameter, position_first);
    assert(long == sought || long.is_prefix_of(sought));
    assert(sought[short.len() as int] == long[short.len() as int]);
}

/// A child in the second tree, of a tree that is lean, whose anchor is the front of the
/// anchor of a child in the first, below nodes with the same word, has that same anchor.
proof fn lemma_front_is_whole<K>(
    first: Seq<NodeView<K>>,
    second: Seq<NodeView<K>>,
    child_first: int,
    child_second: int,
)
    requires
        well_formed(first),
        well_formed(second),
        lean(second),
        same_routes(first, second) || same_routes(second, first),
        0 < child_first < first.len(),
        0 < child_second < second.len(),
        word(first, first[child_first].parent->0) == word(second, second[child_second].parent->0),
        first[child_first].has_parameter == second[child_second].has_parameter,
        second[child_second].anchor.len() > 0,
        second[child_second].anchor.is_prefix_of(first[child_first].anchor),
    ensures
        second[child_second].anchor == first[child_first].anchor,
{
    let long = first[child_first].anchor;
    let short = second[child_second].anchor;
    if short.len() < long.len() {
        assert(lean_at(second, child_second));
        assert(node_ok(second, child_second));
        if second[child_second].route_key is Some {
            lemma_goes_on_with(first, second, child_first, child_second, Seq::empty());
        } else if has_parameter_child(second, child_second) {
            let children = second[child_second].children;
            let i = choose|i: int|
                0 <= i < children.len() && second[#[trigger] children[i]].has_parameter;
            let below = second[child_second].children[i];
            assert(owned(second, child_second, below));
            let rest = lemma_route_below(second, below);
            lemma_descend_through_child(second, below, rest);
            let whole = label(second[below].anchor, true) + rest;
            assert(whole[0] is None);
            lemma_goes_on_with(first, second, child_first, child_second, whole);
        } else {
            let one = second[child_second].children[0];
            let other = second[child_second].children[1];
            assert(owned(second, child_second, one));
            assert(owned(second, child_second, other));
            assert(node_ok(second, one));
            assert(node_ok(second, other));
            let rest_one = lemma_route_below(second, one);
            let rest_other = lemma_route_below(second, other);
            lemma_descend_through_child(second, one, rest_one);
            lemma_descend_through_child(second, other, rest_other);
            lemma_label_may_follow(second, one, rest_one);
            lemma_label_may_follow(second, other, rest_other);
            lemma_front_of_label(second[one].anchor, false, rest_one);
            lemma_front_of_label(second[other].anchor, false, rest_other);
            let whole_one = label(second[one].anchor, false) + rest_one;
            let whole_other = label(second[other].anchor, false) + rest_other;
            lemma_goes_on_with(first, second, child_first, child_second, whole_one);
            lemma_goes_on_with(first, second, child_first, child_second, whole_other);
            assert(literal_front(whole_one)[0] == second[one].anchor[0]);
            assert(literal_front(whole_other)[0] == second[other].anchor[0]);
            assert(similar(second[one].anchor, false, second[other].anchor, false));
        }
    }
    assert(short =~= long);
}

/// Under nodes with the same word and slot, in two lean trees that hold the same routes,
/// every child in the first tree has a twin in the second: a child with the same slot.
proof fn lemma_child_has_twin<K>(
    first: Seq<NodeView<K>>,
    second: Seq<NodeView<K>>,
    n_first: int,
    n_second: int,
    position: int,
) -> (twin: int)
    requires
        well_formed(first),
        well_formed(second),
        lean(first),
        lean(second),
        same_routes(first, second) || same_routes(second, first),
        0 <= n_first < first.len(),
        0 <= n_second < second.len(),
        word(first, n_first) == word(second, n_second),
        first[n_first].anchor == second[n_second].anchor,
        first[n_first].has_parameter == second[n_second].has_parameter,
        0 <= position < first[n_first].children.len(),
    ensures
        0 <= twin < second[n_second].children.len(),
        second[second[n_second].children[twin]].anchor
            == first[first[n_first].children[position]].anchor,
        second[second[n_second].children[twin]].has_parameter
            == first[first[n_first].children[position]].has_parameter,
{
    let child = first[n_first].children[position];
    assert(owned(first, n_first, child));
    assert(node_ok(first, child));
    let anchor = first[child].anchor;
    let has_parameter = first[child].has_parameter;
    let below = lemma_route_below(first, child);
    let whole = label(anchor, has_parameter) + below;
    lemma_descend_through_child(first, child, below);
    lemma_label_may_follow(first, child, below);
    lemma_route_leads_on(first, second, n_first, n_second, whole);
    lemma_front_of_label(anchor, has_parameter, below);
    let sought = anchor + literal_front(below);
    assert(terminal(second, n_second, sought, has_parameter) is Some);
    lemma_fragment_child_is_child(second, n_second, sought, has_parameter);
    let found = fragment_child(second, n_second, sought, has_parameter)->0;
    let twin = choose|i: int|
        0 <= i < second[n_second].children.len() && second[n_second].children[i] == found;
    let other = second[found].anchor;
    assert(other == sought || (other.len() > 0 && other.is_prefix_of(sought)));
    if anchor.len() == 0 {
        assert(sought =~= literal_front(below));
        assert(other =~= anchor);
    } else {
        assert(sought[0] == anchor[0]);
        assert(other.len() > 0);
        if other.len() < anchor.len() {
            assert(other.is_prefix_of(anchor)) by {
                assert(other =~= anchor.subrange(0, other.len() as int));
            }
            lemma_front_is_whole(first, second, child, found);
        } else if anchor.len() < other.len() {
            assert(anchor.is_prefix_of(other)) by {
                assert(anchor =~= other.subrange(0, anchor.len() as int));
            }
            lemma_front_is_whole(second, first, found, child);
        } else {
            assert(other =~= anchor);
        }
    }
    twin
}

/// The slot of the child at a position.
pub open spec fn child_slot<K>(nodes: Seq<NodeView<K>>, n: int, position: int) -> (
    Seq<char>,
    bool,
) {
    (nodes[nodes[n].children[position]].anchor, nodes[nodes[n].children[position]].has_parameter)
}

/// Two lists of slots in sibling order that hold the same slots hold them at the same
/// places.
proof fn lemma_sorted_slots_equal(first: Seq<(Seq<char>, bool)>, second: Seq<(Seq<char>, bool)>)
    requires
        forall|i: int, j: int|
            0 <= i < j < first.len() ==> slot_precedes(
                (#[trigger] first[i]).0,
                first[i].1,
                (#[trigger] first[j]).0,
                first[j].1,
            ),
        forall|i: int, j: int|
            0 <= i < j < second.len() ==> slot_precedes(
                (#[trigger] second[i]).0,
                second[i].1,
                (#[trigger] second[j]).0,
                second[j].1,
            ),
        forall|i: int| 0 <= i < first.len() ==> second.contains(#[trigger] first[i]),
        forall|j: int| 0 <= j < second.len() ==> first.contains(#[trigger] second[j]),
    ensures
        first == second,
    decreases first.len(),
{
    if first.len() == 0 {
        if second.len() > 0 {
            assert(first.contains(second[0]));
        }
        assert(first =~= second);
    } else {
        assert(second.contains(first[0]));
        let j = choose|j: int| 0 <= j < second.len() && second[j] == first[0];
        assert(first.contains(second[0]));
        let i = choose|i: int| 0 <= i < first.len() && first[i] == second[0];
        lemma_slot_order_total(first[0].0, first[0].1, second[0].0, second[0].1);
        if j > 0 {
            assert(slot_precedes(second[0].0, second[0].1, second[j].0, second[j].1));
            if i > 0 {
                assert(slot_precedes(first[0].0, first[0].1, first[i].0, first[i].1));
            }
        }
        assert(first[0] == second[0]);
        let first_rest = first.drop_first();
        let second_rest = second.drop_first();
        assert forall|k: int| 0 <= k < first_rest.len() implies second_rest.contains(
            #[trigger] first_rest[k],
        ) by {
            assert(first_rest[k] == first[k + 1]);
            assert(second.contains(first[k + 1]));
            let m = choose|m: int| 0 <= m < second.len() && second[m] == first[k + 1];
            assert(slot_precedes(first[0].0, first[0].1, first[k + 1].0, first[k + 1].1));
            lemma_slot_order_total(first[0].0, first[0].1, first[k + 1].0, first[k + 1].1);
            assert(m > 0);
            assert(second_rest[m - 1] == second[m]);
        }
        assert forall|k: int| 0 <= k < second_rest.len() implies first_rest.contains(
            #[trigger] second_rest[k],
        ) by {
            assert(second_rest[k] == second[k + 1]);
            assert(first.contains(second[k + 1]));
            let m = choose|m: int| 0 <= m < first.len() && first[m] == second[k + 1];
            assert(slot_precedes(second[0].0, second[0].1, second[k + 1].0, second[k + 1].1));
            lemma_slot_order_total(second[0].0, second[0].1, second[k + 1].0, second[k + 1].1);
            assert(m > 0);
            assert(first_rest[m - 1] == first[m]);
        }
        assert forall|p: int, q: int| 0 <= p < q < first_rest.len() implies slot_precedes(
            (#[trigger] first_rest[p]).0,
            first_rest[p].1,
            (#[trigger] first_rest[q]).0,
            first_rest[q].1,
        ) by {
            assert(first_rest[p] == first[p + 1] && first_rest[q] == first[q + 1]);
        }
        assert forall|p: int, q: int| 0 <= p < q < second_rest.len() implies slot_precedes(
            (#[trigger] second_rest[p]).0,
            second_rest[p].1,
            (#[trigger] second_rest[q]).0,
            second_rest[q].1,
        ) by {
            assert(second_rest[p] == second[p + 1] && second_rest[q] == second[q + 1]);
        }
        lemma_sorted_slots_equal(first_rest, second_rest);
        assert(first =~= seq![first[0]] + first_rest);
        assert(second =~= seq![second[0]] + second_rest);
    }
}

/// The slots of the children of a node, in sibling order.
pub open spec fn child_slots<K>(nodes: Seq<NodeView<K>>, n: int) -> Seq<(Seq<char>, bool)> {
    Seq::new(nodes[n].children.len(), |position: int| child_slot(nodes, n, position))
}

/// Nodes with the same word and slot, in two lean trees that hold the same routes, have
/// children with the same slots, in the same order.
proof fn lemma_same_child_slots<K>(
    first: Seq<NodeView<K>>,
    second: Seq<NodeView<K>>,
    n_first: int,
    n_second: int,
)
    requires
        well_formed(first),
        well_formed(second),
        lean(first),
        lean(second),
        same_routes(first, second),
        0 <= n_first < first.len(),
        0 <= n_second < second.len(),
        word(first, n_first) == word(second, n_second),
        first[n_first].anchor == second[n_second].anchor,
        first[n_first].has_parameter == second[n_second].has_parameter,
    ensures
        child_slots(first, n_first) == child_slots(second, n_second),
{
    let slots_first = child_slots(first, n_first);
    let slots_second = child_slots(second, n_second);
    assert(node_ok(first, n_first));
    assert(node_ok(second, n_second));
    assert forall|i: int| 0 <= i < slots_first.len() implies slots_second.contains(
        #[trigger] slots_first[i],
    ) by {
        let twin = lemma_child_has_twin(first, second, n_first, n_second, i);
        assert(slots_second[twin] == slots_first[i]);
    }
    assert forall|j: int| 0 <= j < slots_second.len() implies slots_first.contains(
        #[trigger] slots_second[j],
    ) by {
        let twin = lemma_child_has_twin(second, first, n_second, n_first, j);
        assert(slots_first[twin] == slots_second[j]);
    }
    assert forall|i: int, j: int| 0 <= i < j < slots_first.len() implies slot_precedes(
        (#[trigger] slots_first[i]).0,
        slots_first[i].1,
        (#[trigger] slots_first[j]).0,
        slots_first[j].1,
    ) by {
        let a = first[n_first].children[i];
        let b = first[n_first].children[j];
    }
    assert forall|i: int, j: int| 0 <= i < j < slots_second.len() implies slot_precedes(
        (#[trigger] slots_second[i]).0,
        slots_second[i].1,
        (#[trigger] slots_second[j]).0,
        slots_second[j].1,
    ) by {
        let a = second[n_second].children[i];
        let b = second[n_second].children[j];
    }
    lemma_sorted_slots_equal(slots_first, slots_second);
}

/// Two lean trees that hold the same routes have the same shape below nodes that have the
/// same word and slot.
pub proof fn lemma_same_shape_below<K>(
    first: Seq<NodeView<K>>,
    second: Seq<NodeView<K>>,
    n_first: int,
    n_second: int,
)
    requires
        well_formed(first),
        well_formed(second),
        lean(first),
        lean(second),
        same_routes(first, second),
        0 <= n_first < first.len(),
        0 <= n_second < second.len(),
        word(first, n_first) == word(second, n_second),
        first[n_first].anchor == second[n_second].anchor,
        first[n_first].has_parameter == second[n_second].has_parameter,
    ensures
        shape_of(first, n_first) == shape_of(second, n_second),
    decreases ranks_of(first).height[n_first], first[n_first].children.len() + 1,
{
    let template = word(first, n_first);
    lemma_descend_to_node(first, n_first);
    lemma_descend_to_node(second, n_second);
    assert(route_at(first, template) == route_at(second, template));
    assert(node_ok(first, n_first));
    assert(node_ok(second, n_second));
    assert(first[n_first].route_parameter_names =~= second[n_second].route_parameter_names);
    lemma_same_child_slots(first, second, n_first, n_second);
    assert(child_slots(first, n_first).len() == child_slots(second, n_second).len());
    lemma_same_shapes_from(first, second, n_first, n_second, 0);
}

/// Two lean trees that hold the same routes have the same shapes below the children, from a
/// position on, of nodes that have the same word and children with the same slots.
proof fn lemma_same_shapes_from<K>(
    first: Seq<NodeView<K>>,
    second: Seq<NodeView<K>>,
    n_first: int,
    n_second: int,
    from: int,
)
    requires
        well_formed(first),
        well_formed(second),
        lean(first),
        lean(second),
        same_routes(first, second),
        0 <= n_first < first.len(),
        0 <= n_second < second.len(),
        word(first, n_first) == word(second, n_second),
        child_slots(first, n_first) == child_slots(second, n_second),
        0 <= from,
    ensures
        shapes_from(first, n_first, from) == shapes_from(second, n_second, from),
    decreases ranks_of(first).height[n_first], first[n_first].children.len() - from,
{
    assert(child_slots(first, n_first).len() == first[n_first].children.len());
    assert(child_slots(second, n_second).len() == second[n_second].children.len());
    if from < first[n_first].children.len() {
        let child_first = first[n_first].children[from];
        let child_second = second[n_second].children[from];
        assert(owned(first, n_first, child_first));
        assert(owned(second, n_second, child_second));
        assert(ranked(first, ranks_of(first)));
        assert(child_slots(first, n_first)[from] == child_slots(second, n_second)[from]);
        lemma_word_step(first, child_first);
        lemma_word_step(second, child_second);
        lemma_same_shape_below(first, second, child_first, child_second);
        lemma_same_shapes_from(first, second, n_first, n_second, from + 1);
    }
}

/// Two lean trees that hold the same routes have the same shape.
pub proof fn lemma_same_routes_same_shape<K>(first: Seq<NodeView<K>>, second: Seq<NodeView<K>>)
    requires
        well_formed(first),
        well_formed(second),
        lean(first),
        lean(second),
        same_routes(first, second),
    ensures
        shape_of(first, 0) == shape_of(second, 0),
{
    lemma_word_step(first, 0);
    lemma_word_step(second, 0);
    assert(node_ok(first, 0));
    assert(node_ok(second, 0));
    assert(first[0].anchor =~= second[0].anchor);
    lemma_same_shape_below(first, second, 0, 0);
}

/// A pattern can be read from its word: patterns with the same word are the same.
pub proof fn lemma_word_of_injective(first: Seq<Seq<char>>, second: Seq<Seq<char>>)
    requires
        first.len() > 0,
        second.len() > 0,
        word_of(first) == word_of(second),
    ensures
        first == second,
    decreases first.len(),
{
    let whole = word_of(first);
    if first.len() == 1 && second.len() == 1 {
        assert forall|i: int| 0 <= i < first[0].len() implies first[0][i] == second[0][i] by {
            assert(literal(first[0])[i] == literal(second[0])[i]);
        }
        assert(first[0].len() == literal(first[0]).len());
        assert(second[0].len() == literal(second[0]).len());
        assert(first[0] =~= second[0]);
        assert(first =~= second);
    } else if first.len() == 1 {
        let at = word_of(second.drop_last()).len() as int;
        assert(word_of(second).len() == at + 1 + second.last().len());
        assert(word_of(second)[at] is None);
        assert(literal(first[0]).len() == word_of(second).len());
        assert(literal(first[0])[at] == Some(first[0][at]));
    } else if second.len() == 1 {
        let at = word_of(first.drop_last()).len() as int;
        assert(word_of(first).len() == at + 1 + first.last().len());
        assert(word_of(first)[at] is None);
        assert(literal(second[0]).len() == word_of(first).len());
        assert(literal(second[0])[at] == Some(second[0][at]));
    } else {
        let front_first = word_of(first.drop_last());
        let front_second = word_of(second.drop_last());
        let last_first = first.last();
        let last_second = second.last();
        assert(whole.len() == front_first.len() + 1 + last_first.len());
        assert(whole.len() == front_second.len() + 1 + last_second.len());
        if last_first.len() < last_second.len() {
            let at = front_first.len() as int;
            assert(word_of(first)[at] is None);
            assert(word_of(second)[at] == literal(last_second)[at - front_second.len() - 1]);
        } else if last_second.len() < last_first.len() {
            let at = front_second.len() as int;
            assert(word_of(second)[at] is None);
            assert(word_of(first)[at] == literal(last_first)[at - front_first.len() - 1]);
        } else {
            assert forall|i: int| 0 <= i < last_first.len() implies last_first[i]
                == last_second[i] by {
                assert(word_of(first)[front_first.len() + 1 + i] == literal(last_first)[i]);
                assert(word_of(second)[front_second.len() + 1 + i] == literal(last_second)[i]);
            }
            assert(last_first =~= last_second);
            assert forall|i: int| 0 <= i < front_first.len() implies front_first[i]
                == front_second[i] by {
                assert(word_of(first)[i] == front_first[i]);
                assert(word_of(second)[i] == front_second[i]);
            }
            assert(front_first =~= front_second);
            lemma_word_of_injective(first.drop_last(), second.drop_last());
            assert(first =~= first.drop_last().push(last_first));
            assert(second =~= second.drop_last().push(last_second));
        }
    }
}

/// The route that a tree holds for the word of a pattern is the route of the node that has
/// the pattern.
pub proof fn lemma_route_at_pattern<K>(nodes: Seq<NodeView<K>>, pieces: Seq<Seq<char>>)
    requires
        well_formed(nodes),
        pieces.len() > 0,
    ensures
        route_at(nodes, word_of(pieces)) is Some <==> carries_route(nodes, pieces),
{
    let template = word_of(pieces);
    if route_at(nodes, template) is Some {
        let end = descend(nodes, 0, template)->0;
        lemma_descend_word(nodes, 0, template);
        lemma_word_step(nodes, 0);
        assert(word(nodes, 0) + template =~= template);
        lemma_pattern_has_pieces(nodes, end);
        lemma_word_of_injective(pattern(nodes, end), pieces);
        assert(routed_at(nodes, end, pieces));
    }
    if carries_route(nodes, pieces) {
        let end = choose|end: int| routed_at(nodes, end, pieces);
        lemma_descend_to_node(nodes, end);
    }
}

/// The routes of a tree after an insertion: the route that was inserted for the word of its
/// template, and for every other word the route that the tree held before.
pub proof fn lemma_routes_after_insertion<K>(
    old: Seq<NodeView<K>>,
    new: Seq<NodeView<K>>,
    target: Seq<Seq<char>>,
    route_key: K,
    route_parameter_names: Seq<Seq<char>>,
    leaf: int,
    template: Seq<Option<char>>,
)
    requires
        well_formed(old),
        inserted(old, new, target, route_key, route_parameter_names, leaf),
    ensures
        route_at(new, template) == (if template == word_of(target) {
            Some((route_key, route_parameter_names))
        } else {
            route_at(old, template)
        }),
{
    lemma_descend_to_node(new, leaf);
    lemma_word_step(new, 0);
    if descend(old, 0, template) is Some {
        let kept = descend(old, 0, template)->0;
        lemma_descend_word(old, 0, template);
        lemma_word_step(old, 0);
        assert(word(old, 0) + template =~= template);
        assert(pattern(new, kept) == pattern(old, kept));
        lemma_descend_to_node(new, kept);
        if kept != leaf {
            assert(same_route(old, new, kept));
        }
    }
    if descend(new, 0, template) is Some {
        let end = descend(new, 0, template)->0;
        lemma_descend_word(new, 0, template);
        assert(word(new, 0) + template =~= template);
        if end != leaf {
            if end < old.len() {
                assert(pattern(new, end) == pattern(old, end));
                lemma_descend_to_node(old, end);
                assert(same_route(old, new, end));
            } else {
                assert(new[end].route_key is None);
            }
        }
    }
}

/// A route to insert: the pattern of its template, its key and its parameter names.
pub ghost struct RouteEntry<K> {
    pub pieces: Seq<Seq<char>>,
    pub route_key: K,
    pub route_parameter_names: Seq<Seq<char>>,
}

/// `new` is `old` after the route `entry` was inserted and not refused.
pub open spec fn insertion<K>(
    old: Seq<NodeView<K>>,
    new: Seq<NodeView<K>>,
    entry: RouteEntry<K>,
) -> bool {
    !carries_route(old, entry.pieces) && exists|leaf: int|
        inserted(old, new, entry.pieces, entry.route_key, entry.route_parameter_names, leaf)
}

/// `trees` are the trees that come of inserting the routes `entries`, one after the other,
/// none refused: each the tree before the insertion of the entry at its place, and the last
/// the tree after them all.
pub open spec fn grown<K>(trees: Seq<Seq<NodeView<K>>>, entries: Seq<RouteEntry<K>>) -> bool {
    &&& trees.len() == entries.len() + 1
    &&& forall|i: int|
        0 <= i < entries.len() ==> insertion(#[trigger] trees[i], trees[i + 1], entries[i])
}

/// The route for a word after routes were inserted into a tree: that of the last entry with
/// the word, or the route that the tree held.
pub open spec fn routes_over<K>(
    start: Seq<NodeView<K>>,
    entries: Seq<RouteEntry<K>>,
    template: Seq<Option<char>>,
) -> Option<(K, Seq<Seq<char>>)>
    decreases entries.len(),
{
    if entries.len() == 0 {
        route_at(start, template)
    } else if template == word_of(entries.last().pieces) {
        Some((entries.last().route_key, entries.last().route_parameter_names))
    } else {
        routes_over(start, entries.drop_last(), template)
    }
}

/// The trees that come of insertions into a lean tree are well formed and lean, and hold
/// the routes that were inserted over those of the first tree. Each route went where no
/// route was.
proof fn lemma_grown<K>(trees: Seq<Seq<NodeView<K>>>, entries: Seq<RouteEntry<K>>, count: int)
    requires
        grown(trees, entries),
        well_formed(trees[0]),
        lean(trees[0]),
        0 <= count <= entries.len(),
    ensures
        well_formed(trees[count]),
        lean(trees[count]),
        forall|template: Seq<Option<char>>| #[trigger]
            route_at(trees[count], template) == routes_over(
                trees[0],
                entries.take(count),
                template,
            ),
        count < entries.len() ==> entries[count].pieces.len() > 0 && routes_over(
            trees[0],
            entries.take(count),
            word_of(entries[count].pieces),
        ) is None,
    decreases count,
{
    if count == 0 {
        assert(entries.take(0) =~= Seq::empty());
    } else {
        lemma_grown(trees, entries, count - 1);
        let old = trees[count - 1];
        let new = trees[count];
        let entry = entries[count - 1];
        assert(insertion(trees[count - 1], trees[count - 1 + 1], entries[count - 1]));
        let leaf = choose|leaf: int|
            inserted(old, new, entry.pieces, entry.route_key, entry.route_parameter_names, leaf);
        assert(entries.take(count).drop_last() =~= entries.take(count - 1));
        assert(entries.take(count).last() == entry);
        assert forall|template: Seq<Option<char>>| #[trigger]
            route_at(new, template) == routes_over(trees[0], entries.take(count), template) by {
            lemma_routes_after_insertion(
                old,
                new,
                entry.pieces,
                entry.route_key,
                entry.route_parameter_names,
                leaf,
                template,
            );
            assert(route_at(old, template) == routes_over(
                trees[0],
                entries.take(count - 1),
                template,
            ));
        }
    }
    if count < entries.len() {
        assert(insertion(trees[count], trees[count + 1], entries[count]));
        let entry = entries[count];
        let here = trees[count];
        let next = trees[count + 1];
        let leaf = choose|leaf: int|
            inserted(
                here,
                next,
                entry.pieces,
                entry.route_key,
                entry.route_parameter_names,
                leaf,
            );
        lemma_pattern_has_pieces(next, leaf);
        lemma_route_at_pattern(trees[count], entry.pieces);
        assert(route_at(trees[count], word_of(entry.pieces)) == routes_over(
            trees[0],
            entries.take(count),
            word_of(entry.pieces),
        ));
    }
}

/// Entries of which each went where no route was: no entry has the word of an earlier one
/// or of a route of the first tree.
pub open spec fn all_new<K>(start: Seq<NodeView<K>>, entries: Seq<RouteEntry<K>>) -> bool {
    forall|i: int|
        0 <= i < entries.len() ==> routes_over(
            start,
            entries.take(i),
            word_of((#[trigger] entries[i]).pieces),
        ) is None
}

/// The routes after insertions that each went where no route was: the route of the entry
/// that has the word, if one has it.
proof fn lemma_routes_over_entry<K>(
    start: Seq<NodeView<K>>,
    entries: Seq<RouteEntry<K>>,
    template: Seq<Option<char>>,
    position: int,
)
    requires
        all_new(start, entries),
        0 <= position < entries.len(),
        word_of(entries[position].pieces) == template,
    ensures
        routes_over(start, entries, template) == Some(
            (entries[position].route_key, entries[position].route_parameter_names),
        ),
    decreases entries.len(),
{
    let last = entries.len() - 1;
    if position == last {
    } else {
        let before = entries.drop_last();
        assert(before =~= entries.take(last));
        assert forall|i: int| 0 <= i < before.len() implies routes_over(
            start,
            before.take(i),
            word_of((#[trigger] before[i]).pieces),
        ) is None by {
            assert(before.take(i) =~= entries.take(i));
            assert(before[i] == entries[i]);
        }
        lemma_routes_over_entry(start, before, template, position);
        assert(routes_over(start, entries.take(last), word_of(entries[last].pieces)) is None);
    }
}

/// The routes after insertions for a word that no entry has: the route that the first tree
/// held.
proof fn lemma_routes_over_none<K>(
    start: Seq<NodeView<K>>,
    entries: Seq<RouteEntry<K>>,
    template: Seq<Option<char>>,
)
    requires
        forall|i: int|
            0 <= i < entries.len() ==> word_of((#[trigger] entries[i]).pieces) != template,
    ensures
        routes_over(start, entries, template) == route_at(start, template),
    decreases entries.len(),
{
    if entries.len() > 0 {
        let before = entries.drop_last();
        assert forall|i: int| 0 <= i < before.len() implies word_of((#[trigger] before[i]).pieces)
            != template by {
            assert(before[i] == entries[i]);
        }
        lemma_routes_over_none(start, before, template);
        assert(entries.last() == entries[entries.len() - 1]);
    }
}

/// Trees that come of inserting the same routes into the same lean tree, in whatever order,
/// have the same shape: the same nodes with the same anchors, flags, keys and names, and the
/// same children in the same order.
pub proof fn lemma_insertion_order<K>(
    first_trees: Seq<Seq<NodeView<K>>>,
    first_entries: Seq<RouteEntry<K>>,
    second_trees: Seq<Seq<NodeView<K>>>,
    second_entries: Seq<RouteEntry<K>>,
)
    requires
        grown(first_trees, first_entries),
        grown(second_trees, second_entries),
        first_trees[0] == second_trees[0],
        well_formed(first_trees[0]),
        lean(first_trees[0]),
        forall|entry: RouteEntry<K>|
            first_entries.contains(entry) <==> second_entries.contains(entry),
    ensures
        shape_of(first_trees.last(), 0) == shape_of(second_trees.last(), 0),
{
    let start = first_trees[0];
    let first = first_trees.last();
    let second = second_trees.last();
    lemma_grown(first_trees, first_entries, first_entries.len() as int);
    lemma_grown(second_trees, second_entries, second_entries.len() as int);
    assert(first_entries.take(first_entries.len() as int) =~= first_entries);
    assert(second_entries.take(second_entries.len() as int) =~= second_entries);
    assert forall|i: int| 0 <= i < first_entries.len() implies routes_over(
        start,
        first_entries.take(i),
        word_of((#[trigger] first_entries[i]).pieces),
    ) is None by {
        lemma_grown(first_trees, first_entries, i);
    }
    assert forall|i: int| 0 <= i < second_entries.len() implies routes_over(
        start,
        second_entries.take(i),
        word_of((#[trigger] second_entries[i]).pieces),
    ) is None by {
        lemma_grown(second_trees, second_entries, i);
    }
    assert forall|template: Seq<Option<char>>| #[trigger]
        route_at(first, template) == route_at(second, template) by {
        if exists|i: int|
            0 <= i < first_entries.len() && word_of((#[trigger] first_entries[i]).pieces)
                == template {
            let i = choose|i: int|
                0 <= i < first_entries.len() && word_of((#[trigger] first_entries[i]).pieces)
                    == template;
            assert(first_entries.contains(first_entries[i]));
            let j = choose|j: int|
                0 <= j < second_entries.len() && second_entries[j] == first_entries[i];
            lemma_routes_over_entry(start, first_entries, template, i);
            lemma_routes_over_entry(start, second_entries, template, j);
        } else {
            assert forall|j: int| 0 <= j < second_entries.len() implies word_of(
                (#[trigger] second_entries[j]).pieces,
            ) != template by {
                assert(second_entries.contains(second_entries[j]));
                let i = choose|i: int|
                    0 <= i < first_entries.len() && first_entries[i] == second_entries[j];
                assert(word_of(first_entries[i].pieces) != template);
            }
            lemma_routes_over_none(start, first_entries, template);
            lemma_routes_over_none(start, second_entries, template);
        }
    }
    lemma_same_routes_same_shape(first, second);
}

/// A match as the caller sees it: the key and the parameter names of the node at which it
/// ends, and the values captured.
pub open spec fn route_of<K>(
    nodes: Seq<NodeView<K>>,
    found: Option<(int, Seq<Seq<char>>)>,
) -> Option<(Option<K>, Seq<Seq<char>>, Seq<Seq<char>>)> {
    match found {
        Some((end, values)) => Some(
            (nodes[end].route_key, nodes[end].route_parameter_names, values),
        ),
        None => None,
    }
}

/// The shapes below the children of a node, from a position on: one for each child, each
/// the shape below that child.
proof fn lemma_shapes_from<K>(nodes: Seq<NodeView<K>>, n: int, from: int)
    requires
        orderly(nodes),
        0 <= n < nodes.len(),
        0 <= from <= nodes[n].children.len(),
    ensures
        shapes_from(nodes, n, from).len() == nodes[n].children.len() - from,
        from < nodes[n].children.len() ==> shapes_from(nodes, n, from)[0] == shape_of(
            nodes,
            nodes[n].children[from],
        ) && shapes_from(nodes, n, from).drop_first() == shapes_from(nodes, n, from + 1),
    decreases nodes[n].children.len() - from,
{
    if from < nodes[n].children.len() {
        lemma_shapes_from(nodes, n, from + 1);
        assert(shapes_from(nodes, n, from).drop_first() =~= shapes_from(nodes, n, from + 1));
    }
}

/// Nodes below which two trees have the same shape match every path alike: both match it or
/// neither does, and a match gives the same key, the same names and the same values.
pub proof fn lemma_same_shape_same_match<K>(
    first: Seq<NodeView<K>>,
    second: Seq<NodeView<K>>,
    n_first: int,
    n_second: int,
    path: Seq<char>,
    maximum: nat,
)
    requires
        orderly(first),
        orderly(second),
        0 <= n_first < first.len(),
        0 <= n_second < second.len(),
        shape_of(first, n_first) == shape_of(second, n_second),
    ensures
        route_of(first, match_node(first, n_first, path, maximum)) == route_of(
            second,
            match_node(second, n_second, path, maximum),
        ),
    decreases ranks_of(first).height[n_first], first[n_first].children.len() + 1,
{
    assert(first[n_first].anchor == second[n_second].anchor);
    assert(first[n_first].has_parameter == second[n_second].has_parameter);
    assert(node_takes(first[n_first], path, maximum) == node_takes(
        second[n_second],
        path,
        maximum,
    ));
    if node_takes(first[n_first], path, maximum) is Some {
        let (values, rest) = node_takes(first[n_first], path, maximum)->0;
        assert(shapes_from(first, n_first, 0) == shapes_from(second, n_second, 0));
        lemma_same_shape_same_match_below(first, second, n_first, n_second, 0, rest, maximum);
    }
}

proof fn lemma_same_shape_same_match_below<K>(
    first: Seq<NodeView<K>>,
    second: Seq<NodeView<K>>,
    n_first: int,
    n_second: int,
    from: int,
    path: Seq<char>,
    maximum: nat,
)
    requires
        orderly(first),
        orderly(second),
        0 <= n_first < first.len(),
        0 <= n_second < second.len(),
        0 <= from <= first[n_first].children.len(),
        from <= second[n_second].children.len(),
        shapes_from(first, n_first, from) == shapes_from(second, n_second, from),
    ensures
        route_of(first, match_children(first, n_first, from, path, maximum)) == route_of(
            second,
            match_children(second, n_second, from, path, maximum),
        ),
    decreases ranks_of(first).height[n_first], first[n_first].children.len() - from,
{
    lemma_shapes_from(first, n_first, from);
    lemma_shapes_from(second, n_second, from);
    if from < first[n_first].children.len() {
        let child_first = first[n_first].children[from];
        let child_second = second[n_second].children[from];
        assert(owned(first, n_first, child_first));
        assert(owned(second, n_second, child_second));
        assert(ranked(first, ranks_of(first)));
        lemma_same_shape_same_match(first, second, child_first, child_second, path, maximum);
        lemma_same_shape_same_match_below(
            first,
            second,
            n_first,
            n_second,
            from + 1,
            path,
            maximum,
        );
    }
}

/// Trees that come of inserting the same routes into the same lean tree, in whatever order,
/// match every path alike.
pub proof fn lemma_insertion_order_matches<K>(
    first_trees: Seq<Seq<NodeView<K>>>,
    first_entries: Seq<RouteEntry<K>>,
    second_trees: Seq<Seq<NodeView<K>>>,
    second_entries: Seq<RouteEntry<K>>,
    path: Seq<char>,
    maximum: nat,
)
    requires
        grown(first_trees, first_entries),
        grown(second_trees, second_entries),
        first_trees[0] == second_trees[0],
        well_formed(first_trees[0]),
        lean(first_trees[0]),
        forall|entry: RouteEntry<K>|
            first_entries.contains(entry) <==> second_entries.contains(entry),
    ensures
        route_of(first_trees.last(), match_node(first_trees.last(), 0, path, maximum))
            == route_of(second_trees.last(), match_node(second_trees.last(), 0, path, maximum)),
{
    lemma_insertion_order(first_trees, first_entries, second_trees, second_entries);
    lemma_grown(first_trees, first_entries, first_entries.len() as int);
    lemma_grown(second_trees, second_entries, second_entries.len() as int);
    lemma_same_shape_same_match(first_trees.last(), second_trees.last(), 0, 0, path, maximum);
}

} // verus!
