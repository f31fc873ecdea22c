pub mod lookup;
pub mod model;
pub mod round_trip;
pub mod route_node_merge;
pub mod route_node_rc;
pub mod route_node_utility;
pub mod shape;
pub mod traits;

use crate::route_node::model::{lean, names_fit, node_ok, ranked, well_formed, Ranks};
use crate::string_utility::chars_of;
use vstd::prelude::*;

verus! {

/// What a node of the tree holds, as mathematical values.
pub ghost struct NodeView<K> {
    pub route_key: Option<K>,
    pub route_parameter_names: Seq<Seq<char>>,
    pub anchor: Seq<char>,
    pub has_parameter: bool,
    pub children: Seq<int>,
    pub parent: Option<int>,
}

/// Why an operation on a route tree was refused.
#[derive(Debug, Clone, Copy, PartialEq, Eq, Structural)]
pub enum RouteError {
    /// The template ends at a node that already carries a route key.
    AmbiguousRoute,
    /// Fewer parameter values were given than the route has parameters.
    MissingParameterValue,
}

/// An owning handle to a node of a `RouteTree`.
#[derive(Debug, Clone, Copy, PartialEq, Eq, Structural)]
pub struct RouteNodeRc(pub usize);

/// A back reference to a node of a `RouteTree`, as a child holds it to its parent.
#[derive(Debug, Clone, Copy, PartialEq, Eq, Structural)]
pub struct RouteNodeWeak(pub usize);

impl View for RouteNodeRc {
    type V = int;

    open spec fn view(&self) -> int {
        self.0 as int
    }
}

impl View for RouteNodeWeak {
    type V = int;

    open spec fn view(&self) -> int {
        self.0 as int
    }
}

impl From<&RouteNodeRc> for RouteNodeWeak {
    /// The back reference to the node of a handle.
    fn from(value: &RouteNodeRc) -> (weak: Self) {
        RouteNodeWeak(value.0)
    }
}

impl vstd::std_specs::convert::FromSpecImpl<&RouteNodeRc> for RouteNodeWeak {
    open spec fn obeys_from_spec() -> bool {
        true
    }

    open spec fn from_spec(value: &RouteNodeRc) -> Self {
        RouteNodeWeak(value.0)
    }
}

impl From<&RouteNodeWeak> for RouteNodeRc {
    /// The handle to the node of a back reference. A node stays in its tree, so the back
    /// reference always leads to it.
    fn from(value: &RouteNodeWeak) -> (node: Self) {
        RouteNodeRc(value.0)
    }
}

impl vstd::std_specs::convert::FromSpecImpl<&RouteNodeWeak> for RouteNodeRc {
    open spec fn obeys_from_spec() -> bool {
        true
    }

    open spec fn from_spec(value: &RouteNodeWeak) -> Self {
        RouteNodeRc(value.0)
    }
}

/// One node of a route tree.
#[derive(Debug)]
pub struct RouteNode<K> {
    /// The route's key, if a template ends here.
    pub route_key: Option<K>,
    /// The parameter names of the template that ends here, in template order.
    pub route_parameter_names: Vec<String>,
    /// The literal text that follows the parameter value, if any, of this node.
    anchor: Vec<char>,
    /// Whether a parameter value precedes the anchor.
    has_parameter: bool,
    /// The children, in sibling order.
    children: Vec<usize>,
    /// The parent; `None` for the root only.
    parent: Option<usize>,
}

/// A position in the tree's store as a mathematical value.
pub open spec fn index_view(index: Option<usize>) -> Option<int> {
    match index {
        Some(i) => Some(i as int),
        None => None,
    }
}

impl<K> View for RouteNode<K> {
    type V = NodeView<K>;

    closed spec fn view(&self) -> NodeView<K> {
        NodeView {
            route_key: self.route_key,
            route_parameter_names: self.route_parameter_names.deep_view(),
            anchor: self.anchor@,
            has_parameter: self.has_parameter,
            children: self.children@.map_values(|c: usize| c as int),
            parent: index_view(self.parent),
        }
    }
}

impl<K> RouteNode<K> {
    /// A node by itself, outside any tree, with the slot `(anchor, has_parameter)`.
    pub fn new(anchor: &str, has_parameter: bool, route_key: Option<K>) -> (node: Self)
        ensures
            node@.anchor == anchor@,
            node@.has_parameter == has_parameter,
            node@.route_key == route_key,
            node@.route_parameter_names.len() == 0,
            node@.children.len() == 0,
            node@.parent is None,
    {
        RouteNode {
            route_key,
            route_parameter_names: Vec::new(),
            anchor: chars_of(anchor),
            has_parameter,
            children: Vec::new(),
            parent: None,
        }
    }

    /// The literal text of the node.
    pub fn anchor(&self) -> (anchor: &Vec<char>)
        ensures
            anchor@ == self@.anchor,
    {
        &self.anchor
    }

    /// Whether a parameter value precedes the anchor.
    pub fn has_parameter(&self) -> (has_parameter: bool)
        ensures
            has_parameter == self@.has_parameter,
    {
        self.has_parameter
    }

    /// The key of the route that ends at the node, if one does.
    pub fn route_key(&self) -> (route_key: &Option<K>)
        ensures
            *route_key == self@.route_key,
    {
        &self.route_key
    }

    /// The parameter names of the route that ends at the node.
    pub fn route_parameter_names(&self) -> (names: &Vec<String>)
        ensures
            names.deep_view() == self@.route_parameter_names,
    {
        &self.route_parameter_names
    }

    /// How many children the node has.
    pub fn child_count(&self) -> (count: usize)
        ensures
            count == self@.children.len(),
    {
        self.children.len()
    }

    /// The child at `position` in sibling order.
    pub fn child(&self, position: usize) -> (child: RouteNodeRc)
        requires
            position < self@.children.len(),
        ensures
            child@ == self@.children[position as int],
    {
        RouteNodeRc(self.children[position])
    }

    /// The parent of the node; `None` for the root.
    pub fn parent(&self) -> (parent: Option<RouteNodeWeak>)
        ensures
            parent is Some <==> self@.parent is Some,
            parent matches Some(p) ==> self@.parent == Some(p@),
    {
        match self.parent {
            Some(p) => Some(RouteNodeWeak(p)),
            None => None,
        }
    }
}

/// A route tree: every node of it, the root first. Handles are positions in it, and a node
/// keeps its handle for as long as the tree lives.
pub struct RouteTree<K> {
    nodes: Vec<RouteNode<K>>,
}

impl<K> View for RouteTree<K> {
    type V = Seq<NodeView<K>>;

    closed spec fn view(&self) -> Seq<NodeView<K>> {
        self.nodes@.map_values(|n: RouteNode<K>| n@)
    }
}

/// The tree that holds the root alone: a node without anchor, parameter, route, children
/// or parent.
pub open spec fn root_alone<K>() -> Seq<NodeView<K>> {
    seq![
        NodeView {
            route_key: None,
            route_parameter_names: Seq::empty(),
            anchor: Seq::empty(),
            has_parameter: false,
            children: Seq::empty(),
            parent: None,
        },
    ]
}

/// The tree that holds the root alone is well formed, and holds no node that is not needed.
pub proof fn lemma_root_alone<K>()
    ensures
        well_formed(root_alone::<K>()),
        lean(root_alone::<K>()),
        names_fit(root_alone::<K>()),
{
    let nodes = root_alone::<K>();
    assert(ranked(nodes, Ranks { depth: seq![0nat], height: seq![0nat] }));
    assert(node_ok(nodes, 0));
}

impl<K> Default for RouteNode<K> {
    /// The root's node: no anchor, no parameter, no route.
    fn default() -> (node: Self)
        ensures
            node@.anchor.len() == 0,
            !node@.has_parameter,
            node@.route_key is None,
            node@.route_parameter_names.len() == 0,
            node@.children.len() == 0,
            node@.parent is None,
    {
        RouteNode {
            route_key: None,
            route_parameter_names: Vec::new(),
            anchor: Vec::new(),
            has_parameter: false,
            children: Vec::new(),
            parent: None,
        }
    }
}

impl<K> Default for RouteTree<K> {
    /// A tree that holds the root alone.
    fn default() -> (tree: Self)
        ensures
            tree.wf(),
            tree@.len() == 1,
            tree@[0].route_key is None,
            tree@[0].children.len() == 0,
    {
        RouteTree::new()
    }
}

impl<K> RouteTree<K> {
    /// The invariant of the tree.
    pub open spec fn wf(&self) -> bool {
        well_formed(self@)
    }

    /// Whether `node` is a handle into this tree.
    pub open spec fn has(&self, node: RouteNodeRc) -> bool {
        node@ < self@.len()
    }

    /// A tree that holds the root alone.
    pub fn new() -> (tree: Self)
        ensures
            tree.wf(),
            lean(tree@),
            names_fit(tree@),
            tree@ == root_alone::<K>(),
    {
        let mut nodes: Vec<RouteNode<K>> = Vec::new();
        nodes.push(
            RouteNode {
                route_key: None,
                route_parameter_names: Vec::new(),
                anchor: Vec::new(),
                has_parameter: false,
                children: Vec::new(),
                parent: None,
            },
        );
        let tree = RouteTree { nodes };
        proof {
            lemma_root_alone::<K>();
            assert(tree@[0].route_parameter_names =~= Seq::<Seq<char>>::empty());
            assert(tree@[0].anchor =~= Seq::<char>::empty());
            assert(tree@[0].children =~= Seq::<int>::empty());
            assert(tree@ =~= root_alone::<K>());
        }
        tree
    }

    /// How many nodes the tree holds.
    pub fn len(&self) -> (len: usize)
        ensures
            len == self@.len(),
    {
        self.nodes.len()
    }

    /// The root of the tree.
    pub fn root(&self) -> (root: RouteNodeRc)
        ensures
            root@ == 0,
    {
        RouteNodeRc(0)
    }

    /// The node that `node` is the handle of.
    pub fn node(&self, node: &RouteNodeRc) -> (found: &RouteNode<K>)
        requires
            self.has(*node),
        ensures
            found@ == self@[node@],
    {
        &self.nodes[node.0]
    }

    /// Adds a node to the store, at the end.
    pub(crate) fn push_node(
        &mut self,
        anchor: Vec<char>,
        has_parameter: bool,
        route_key: Option<K>,
        route_parameter_names: Vec<String>,
        children: Vec<usize>,
        parent: Option<usize>,
    ) -> (index: usize)
        ensures
            index == old(self)@.len(),
            final(self)@ == old(self)@.push(
                NodeView {
                    route_key,
                    route_parameter_names: route_parameter_names.deep_view(),
                    anchor: anchor@,
                    has_parameter,
                    children: children@.map_values(|c: usize| c as int),
                    parent: index_view(parent),
                },
            ),
    {
        let index = self.nodes.len();
        self.nodes.push(
            RouteNode { route_key, route_parameter_names, anchor, has_parameter, children, parent },
        );
        assert(self@ =~= old(self)@.push(
            NodeView {
                route_key,
                route_parameter_names: route_parameter_names.deep_view(),
                anchor: anchor@,
                has_parameter,
                children: children@.map_values(|c: usize| c as int),
                parent: index_view(parent),
            },
        ));
        index
    }

    /// Gives node `n` a route.
    pub(crate) fn set_route(
        &mut self,
        n: usize,
        route_key: Option<K>,
        route_parameter_names: Vec<String>,
    )
        requires
            n < old(self)@.len(),
        ensures
            final(self)@ == old(self)@.update(
                n as int,
                NodeView {
                    route_key,
                    route_parameter_names: route_parameter_names.deep_view(),
                    ..old(self)@[n as int]
                },
            ),
    {
        self.nodes[n].route_key = route_key;
        self.nodes[n].route_parameter_names = route_parameter_names;
        assert(self@ =~= old(self)@.update(
            n as int,
            NodeView {
                route_key,
                route_parameter_names: route_parameter_names.deep_view(),
                ..old(self)@[n as int]
            },
        ));
    }

    /// Gives node `n` the parent `parent`.
    pub(crate) fn set_parent(&mut self, n: usize, parent: usize)
        requires
            n < old(self)@.len(),
        ensures
            final(self)@ == old(self)@.update(
                n as int,
                NodeView { parent: Some(parent as int), ..old(self)@[n as int] },
            ),
    {
        self.nodes[n].parent = Some(parent);
        assert(self@ =~= old(self)@.update(
            n as int,
            NodeView { parent: Some(parent as int), ..old(self)@[n as int] },
        ));
    }

    /// Gives node `n` another anchor and flag.
    pub(crate) fn set_slot(&mut self, n: usize, anchor: Vec<char>, has_parameter: bool)
        requires
            n < old(self)@.len(),
        ensures
            final(self)@ == old(self)@.update(
                n as int,
                NodeView { anchor: anchor@, has_parameter, ..old(self)@[n as int] },
            ),
    {
        self.nodes[n].anchor = anchor;
        self.nodes[n].has_parameter = has_parameter;
        assert(self@ =~= old(self)@.update(
            n as int,
            NodeView { anchor: anchor@, has_parameter, ..old(self)@[n as int] },
        ));
    }

    /// Lists `child` at `position` among the children of node `n`.
    pub(crate) fn insert_child(&mut self, n: usize, position: usize, child: usize)
        requires
            n < old(self)@.len(),
            position <= old(self)@[n as int].children.len(),
        ensures
            final(self)@ == old(self)@.update(
                n as int,
                NodeView {
                    children: old(self)@[n as int].children.insert(position as int, child as int),
                    ..old(self)@[n as int]
                },
            ),
    {
        self.nodes[n].children.insert(position, child);
        assert(self.nodes[n as int]@.children =~= old(self)@[n as int].children.insert(
            position as int,
            child as int,
        ));
        assert(self@ =~= old(self)@.update(
            n as int,
            NodeView {
                children: old(self)@[n as int].children.insert(position as int, child as int),
                ..old(self)@[n as int]
            },
        ));
    }

    /// Takes the child at `position` off the list of children of node `n`.
    pub(crate) fn remove_child(&mut self, n: usize, position: usize)
        requires
            n < old(self)@.len(),
            position < old(self)@[n as int].children.len(),
        ensures
            final(self)@ == old(self)@.update(
                n as int,
                NodeView {
                    children: old(self)@[n as int].children.remove(position as int),
                    ..old(self)@[n as int]
                },
            ),
    {
        self.nodes[n].children.remove(position);
        assert(self.nodes[n as int]@.children =~= old(self)@[n as int].children.remove(
            position as int,
        ));
        assert(self@ =~= old(self)@.update(
            n as int,
            NodeView {
                children: old(self)@[n as int].children.remove(position as int),
                ..old(self)@[n as int]
            },
        ));
    }
}

} // verus!
