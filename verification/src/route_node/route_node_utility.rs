use crate::route_node::{NodeView, RouteNodeRc, RouteTree};
use crate::route_node::model::{node_orderly, orderly, owned, same_slot, similar};
use crate::string_utility::{
    common_prefix_length, find_common_prefix_length, lemma_common_prefix_length_symmetric,
};
use vstd::prelude::*;

verus! {

/// The first child of `parent`, from position `from` on, that is similar to the slot
/// `(anchor, has_parameter)`.
pub open spec fn similar_child_from<K>(
    nodes: Seq<NodeView<K>>,
    parent: int,
    anchor: Seq<char>,
    has_parameter: bool,
    from: int,
) -> Option<int>
    decreases nodes[parent].children.len() - from,
{
    if from < 0 || from >= nodes[parent].children.len() {
        None
    } else {
        let child = nodes[parent].children[from];
        if similar(nodes[child].anchor, nodes[child].has_parameter, anchor, has_parameter) {
            Some(child)
        } else {
            similar_child_from(nodes, parent, anchor, has_parameter, from + 1)
        }
    }
}

/// The first child of `parent`, in sibling order, that is similar to the slot
/// `(anchor, has_parameter)`.
pub open spec fn similar_child<K>(
    nodes: Seq<NodeView<K>>,
    parent: int,
    anchor: Seq<char>,
    has_parameter: bool,
) -> Option<int> {
    similar_child_from(nodes, parent, anchor, has_parameter, 0)
}

/// Similarity is symmetric and transitive, and holds of a slot and itself where the anchor
/// is not empty.
pub proof fn lemma_similar_equivalence(
    a: Seq<char>,
    pa: bool,
    b: Seq<char>,
    pb: bool,
    c: Seq<char>,
    pc: bool,
)
    ensures
        similar(a, pa, a, pa) == (a.len() > 0),
        similar(a, pa, b, pb) == similar(b, pb, a, pa),
        similar(a, pa, b, pb) && similar(b, pb, c, pc) ==> similar(a, pa, c, pc),
        similar(a, pa, b, pb) == (pa == pb && a.len() > 0 && b.len() > 0 && a[0] == b[0]),
{
}

/// What `similar_child_from` finds is a child at or after `from` that is similar to the
/// slot, and when it finds none no child from there on is.
pub proof fn lemma_similar_child_from<K>(
    nodes: Seq<NodeView<K>>,
    parent: int,
    anchor: Seq<char>,
    has_parameter: bool,
    from: int,
)
    requires
        0 <= from,
    ensures
        match similar_child_from(nodes, parent, anchor, has_parameter, from) {
            Some(child) => exists|i: int|
                from <= i < nodes[parent].children.len() && #[trigger] nodes[parent].children[i]
                    == child && similar(
                    nodes[child].anchor,
                    nodes[child].has_parameter,
                    anchor,
                    has_parameter,
                ),
            None => forall|i: int|
                from <= i < nodes[parent].children.len() ==> !similar(
                    nodes[#[trigger] nodes[parent].children[i]].anchor,
                    nodes[nodes[parent].children[i]].has_parameter,
                    anchor,
                    has_parameter,
                ),
        },
    decreases nodes[parent].children.len() - from,
{
    if from < nodes[parent].children.len() {
        let child = nodes[parent].children[from];
        if !similar(nodes[child].anchor, nodes[child].has_parameter, anchor, has_parameter) {
            lemma_similar_child_from(nodes, parent, anchor, has_parameter, from + 1);
        }
    }
}

/// In an orderly tree a child that is similar to a slot is the one that
/// `similar_child` finds for it.
pub proof fn lemma_similar_child_unique<K>(
    nodes: Seq<NodeView<K>>,
    parent: int,
    anchor: Seq<char>,
    has_parameter: bool,
    position: int,
)
    requires
        orderly(nodes),
        0 <= parent < nodes.len(),
        0 <= position < nodes[parent].children.len(),
        similar(
            nodes[nodes[parent].children[position]].anchor,
            nodes[nodes[parent].children[position]].has_parameter,
            anchor,
            has_parameter,
        ),
    ensures
        similar_child(nodes, parent, anchor, has_parameter) == Some(
            nodes[parent].children[position],
        ),
{
    lemma_similar_child_from(nodes, parent, anchor, has_parameter, 0);
    let found = similar_child(nodes, parent, anchor, has_parameter)->0;
    let i = choose|i: int|
        0 <= i < nodes[parent].children.len() && #[trigger] nodes[parent].children[i] == found
            && similar(nodes[found].anchor, nodes[found].has_parameter, anchor, has_parameter);
    let child = nodes[parent].children[position];
    assert(node_orderly(nodes, parent));
    if i != position {
        lemma_similar_equivalence(
            nodes[found].anchor,
            nodes[found].has_parameter,
            anchor,
            has_parameter,
            nodes[child].anchor,
            nodes[child].has_parameter,
        );
        lemma_similar_equivalence(
            nodes[child].anchor,
            nodes[child].has_parameter,
            anchor,
            has_parameter,
            anchor,
            has_parameter,
        );
        assert(similar(
            nodes[found].anchor,
            nodes[found].has_parameter,
            nodes[child].anchor,
            nodes[child].has_parameter,
        ));
    }
}

/// The first child of `parent`, from position `from` on, that takes the very slot
/// `(anchor, has_parameter)`.
pub open spec fn slot_child_from<K>(
    nodes: Seq<NodeView<K>>,
    parent: int,
    anchor: Seq<char>,
    has_parameter: bool,
    from: int,
) -> Option<int>
    decreases nodes[parent].children.len() - from,
{
    if from < 0 || from >= nodes[parent].children.len() {
        None
    } else {
        let child = nodes[parent].children[from];
        if same_slot(nodes[child].anchor, nodes[child].has_parameter, anchor, has_parameter) {
            Some(child)
        } else {
            slot_child_from(nodes, parent, anchor, has_parameter, from + 1)
        }
    }
}

/// The child of `parent` that takes the very slot `(anchor, has_parameter)`.
pub open spec fn slot_child<K>(
    nodes: Seq<NodeView<K>>,
    parent: int,
    anchor: Seq<char>,
    has_parameter: bool,
) -> Option<int> {
    slot_child_from(nodes, parent, anchor, has_parameter, 0)
}

/// What `slot_child_from` finds is a child at or after `from` that takes the slot, and
/// when it finds none no child from there on does.
pub proof fn lemma_slot_child_from<K>(
    nodes: Seq<NodeView<K>>,
    parent: int,
    anchor: Seq<char>,
    has_parameter: bool,
    from: int,
)
    requires
        0 <= from,
    ensures
        match slot_child_from(nodes, parent, anchor, has_parameter, from) {
            Some(child) => exists|i: int|
                from <= i < nodes[parent].children.len() && #[trigger] nodes[parent].children[i]
                    == child && same_slot(
                    nodes[child].anchor,
                    nodes[child].has_parameter,
                    anchor,
                    has_parameter,
                ),
            None => forall|i: int|
                from <= i < nodes[parent].children.len() ==> !same_slot(
                    nodes[#[trigger] nodes[parent].children[i]].anchor,
                    nodes[nodes[parent].children[i]].has_parameter,
                    anchor,
                    has_parameter,
                ),
        },
    decreases nodes[parent].children.len() - from,
{
    if from < nodes[parent].children.len() {
        let child = nodes[parent].children[from];
        if !same_slot(nodes[child].anchor, nodes[child].has_parameter, anchor, has_parameter) {
            lemma_slot_child_from(nodes, parent, anchor, has_parameter, from + 1);
        }
    }
}

/// In an orderly tree a child that takes a slot is the one that `slot_child` finds
/// for it.
pub proof fn lemma_slot_child_unique<K>(
    nodes: Seq<NodeView<K>>,
    parent: int,
    position: int,
)
    requires
        orderly(nodes),
        0 <= parent < nodes.len(),
        0 <= position < nodes[parent].children.len(),
    ensures
        slot_child(
            nodes,
            parent,
            nodes[nodes[parent].children[position]].anchor,
            nodes[nodes[parent].children[position]].has_parameter,
        ) == Some(nodes[parent].children[position]),
{
    let child = nodes[parent].children[position];
    let anchor = nodes[child].anchor;
    let has_parameter = nodes[child].has_parameter;
    lemma_slot_child_from(nodes, parent, anchor, has_parameter, 0);
    assert(node_orderly(nodes, parent));
    assert(same_slot(nodes[child].anchor, nodes[child].has_parameter, anchor, has_parameter));
    let found = slot_child(nodes, parent, anchor, has_parameter)->0;
    let i = choose|i: int|
        0 <= i < nodes[parent].children.len() && #[trigger] nodes[parent].children[i] == found
            && same_slot(nodes[found].anchor, nodes[found].has_parameter, anchor, has_parameter);
    if i != position {
        assert(same_slot(
            nodes[nodes[parent].children[i]].anchor,
            nodes[nodes[parent].children[i]].has_parameter,
            nodes[nodes[parent].children[position]].anchor,
            nodes[nodes[parent].children[position]].has_parameter,
        ));
    }
}

/// The child by which a fragment goes on below `parent`: for a fragment with text the
/// similar child, for one without text the child that takes its very slot.
pub open spec fn fragment_child<K>(
    nodes: Seq<NodeView<K>>,
    parent: int,
    anchor: Seq<char>,
    has_parameter: bool,
) -> Option<int> {
    if anchor.len() == 0 {
        slot_child(nodes, parent, anchor, has_parameter)
    } else {
        similar_child(nodes, parent, anchor, has_parameter)
    }
}

/// The child by which a fragment goes on is a child of `parent` with the flag of the
/// fragment; its anchor begins as that of the fragment does, or both are empty.
pub proof fn lemma_fragment_child_is_child<K>(
    nodes: Seq<NodeView<K>>,
    parent: int,
    anchor: Seq<char>,
    has_parameter: bool,
)
    requires
        orderly(nodes),
        0 <= parent < nodes.len(),
        fragment_child(nodes, parent, anchor, has_parameter) is Some,
    ensures
        ({
            let child = fragment_child(nodes, parent, anchor, has_parameter)->0;
            &&& 0 < child < nodes.len()
            &&& nodes[child].parent == Some(parent)
            &&& nodes[parent].children.contains(child)
            &&& nodes[child].has_parameter == has_parameter
            &&& anchor.len() == 0 ==> nodes[child].anchor.len() == 0
            &&& anchor.len() > 0 ==> nodes[child].anchor.len() > 0 && nodes[child].anchor[0]
                == anchor[0]
        }),
{
    let child = fragment_child(nodes, parent, anchor, has_parameter)->0;
    if anchor.len() == 0 {
        lemma_slot_child_from(nodes, parent, anchor, has_parameter, 0);
        let i = choose|i: int|
            0 <= i < nodes[parent].children.len() && #[trigger] nodes[parent].children[i]
                == child && same_slot(
                nodes[child].anchor,
                nodes[child].has_parameter,
                anchor,
                has_parameter,
            );
        assert(owned(nodes, parent, nodes[parent].children[i]));
    } else {
        lemma_similar_child_from(nodes, parent, anchor, has_parameter, 0);
        let i = choose|i: int|
            0 <= i < nodes[parent].children.len() && #[trigger] nodes[parent].children[i]
                == child && similar(
                nodes[child].anchor,
                nodes[child].has_parameter,
                anchor,
                has_parameter,
            );
        assert(owned(nodes, parent, nodes[parent].children[i]));
    }
}

/// A child with the flag of a fragment whose anchor begins as that of the fragment does,
/// or is empty as that of the fragment is, is the child by which the fragment goes on.
pub proof fn lemma_fragment_child_unique<K>(
    nodes: Seq<NodeView<K>>,
    parent: int,
    anchor: Seq<char>,
    has_parameter: bool,
    position: int,
)
    requires
        orderly(nodes),
        0 <= parent < nodes.len(),
        0 <= position < nodes[parent].children.len(),
        nodes[nodes[parent].children[position]].has_parameter == has_parameter,
        if anchor.len() == 0 {
            nodes[nodes[parent].children[position]].anchor.len() == 0
        } else {
            nodes[nodes[parent].children[position]].anchor.len() > 0
                && nodes[nodes[parent].children[position]].anchor[0] == anchor[0]
        },
    ensures
        fragment_child(nodes, parent, anchor, has_parameter) == Some(
            nodes[parent].children[position],
        ),
{
    if anchor.len() == 0 {
        assert(nodes[nodes[parent].children[position]].anchor =~= anchor);
        lemma_slot_child_unique(nodes, parent, position);
    } else {
        lemma_similar_child_unique(nodes, parent, anchor, has_parameter, position);
    }
}

/// Looks among the children of `parent_node` for the first, in sibling order, that is
/// similar to the fragment `(anchor, has_parameter)`: that has the flag of the fragment and
/// an anchor that shares a prefix with `anchor`. Gives it with the length of that prefix,
/// which is not 0; or 0 and no child where no child is similar.
pub fn route_node_find_similar_child<K>(
    tree: &RouteTree<K>,
    parent_node: &RouteNodeRc,
    anchor: &[char],
    has_parameter: bool,
) -> (found: (usize, Option<RouteNodeRc>))
    requires
        orderly(tree@),
        tree.has(*parent_node),
    ensures
        found.1 is Some <==> similar_child(tree@, parent_node@, anchor@, has_parameter) is Some,
        found.1 matches Some(child) ==> similar_child(
            tree@,
            parent_node@,
            anchor@,
            has_parameter,
        ) == Some(child@) && found.0 == common_prefix_length(anchor@, tree@[child@].anchor),
        found.1 matches Some(child) ==> found.0 > 0 && tree@[parent_node@].children.contains(
            child@,
        ) && tree@[child@].has_parameter == has_parameter,
        found.1 is None ==> found.0 == 0,
        found.1 is None <==> forall|i: int|
            0 <= i < tree@[parent_node@].children.len() ==> !similar(
                tree@[#[trigger] tree@[parent_node@].children[i]].anchor,
                tree@[tree@[parent_node@].children[i]].has_parameter,
                anchor@,
                has_parameter,
            ),
        anchor@.len() == 0 ==> found.1 is None,
{
    proof {
        lemma_similar_child_from(tree@, parent_node@, anchor@, has_parameter, 0);
    }
    let parent = tree.node(parent_node);
    let count = parent.child_count();
    let mut position: usize = 0;
    while position < count
        invariant
            orderly(tree@),
            tree.has(*parent_node),
            parent@ == tree@[parent_node@],
            count == parent@.children.len(),
            position <= count,
            similar_child(tree@, parent_node@, anchor@, has_parameter) == similar_child_from(
                tree@,
                parent_node@,
                anchor@,
                has_parameter,
                position as int,
            ),
        decreases count - position,
    {
        let child_rc = parent.child(position);
        assert(owned(tree@, parent_node@, tree@[parent_node@].children[position as int]));
        let child = tree.node(&child_rc);
        if child.has_parameter() == has_parameter {
            let common_prefix_length = find_common_prefix_length(anchor, child.anchor().as_slice());
            proof {
                lemma_common_prefix_length_symmetric(anchor@, child@.anchor);
            }
            if common_prefix_length > 0 {
                return (common_prefix_length, Some(child_rc));
            }
        }
        position += 1;
    }
    (0, None)
}

} // verus!
