use goodrouter::route_node::route_node_merge::{route_node_merge, route_node_merge_join};
use goodrouter::route_node::route_node_utility::route_node_find_similar_child;
use goodrouter::route_node::{RouteError, RouteNode, RouteNodeRc, RouteNodeWeak, RouteTree};
use goodrouter::string_utility::find_common_prefix_length;
use goodrouter::template::template_placeholder_regex;
use itertools::Itertools;

fn ordering_nodes<'a>() -> Vec<RouteNode<&'a i32>> {
    vec![
        RouteNode::new("aa", false, None),
        RouteNode::new("xx", false, Some(&1)),
        RouteNode::new("aa", true, None),
        RouteNode::new("x", false, None),
    ]
}

fn sorted_nodes<'a, 'n>(nodes: &'n [RouteNode<&'a i32>]) -> Vec<&'n RouteNode<&'a i32>> {
    let mut sorted: Vec<_> = nodes.iter().collect();
    sorted.sort_by(|a, b| a.partial_cmp(b).unwrap());
    sorted
}

#[test]
fn route_node_route_ordering() {
    let nodes = ordering_nodes();

    let nodes_expected = nodes.iter();
    let nodes_actual = sorted_nodes(&nodes);

    assert_eq!(nodes_actual, nodes_expected.collect::<Vec<_>>());
}

#[test]
fn mod_route_ordering() {
    let nodes = ordering_nodes();

    let nodes_expected: Vec<_> = nodes.iter().collect();
    let nodes_actual = sorted_nodes(&nodes);

    assert_eq!(nodes_actual, nodes_expected);
}

#[test]
fn traits_route_ordering() {
    let nodes = ordering_nodes();

    let nodes_expected = nodes.iter();
    let nodes_actual = sorted_nodes(&nodes);

    assert_eq!(nodes_actual, nodes_expected.collect::<Vec<_>>());
}

#[test]
fn nodes_in_any_order_sort_alike() {
    let nodes = ordering_nodes();

    let nodes_expected: Vec<_> = nodes.iter().collect();
    let mut shuffled: Vec<_> = nodes.iter().rev().collect();
    shuffled.sort_by(|a, b| a.partial_cmp(b).unwrap());

    assert_eq!(shuffled, nodes_expected);
    assert!(nodes[0] == RouteNode::new("aa", false, Some(&7)));
    assert!(nodes[0] != nodes[2]);
}

#[test]
fn route_node_permutations() {
    let route_configs = ["/a", "/b/{x}", "/b/{x}/", "/b/{x}/c", "/b/{y}/d"];
    let re = template_placeholder_regex();

    let mut node_root_previous: Option<RouteTree<&str>> = None;

    for route_configs in route_configs.iter().permutations(route_configs.len()) {
        let mut tree = RouteTree::new();
        let node_root_rc = tree.root();

        for template in route_configs {
            node_root_rc.insert(&mut tree, *template, template, &re).unwrap();
        }

        assert_eq!(tree.node(&node_root_rc).child_count(), 1);

        if let Some(previous) = node_root_previous {
            assert_eq!(tree.node(&node_root_rc), previous.node(&previous.root()));
        }

        node_root_previous = Some(tree);
    }
}

fn texts(values: &[&str]) -> Vec<String> {
    values.iter().map(|value| value.to_string()).collect()
}

#[test]
fn literal_route_is_preferred_to_parameter() {
    let re = template_placeholder_regex();
    let mut tree = RouteTree::new();
    let root = tree.root();
    root.insert(&mut tree, "A", "/product/all", &re).unwrap();
    root.insert(&mut tree, "B", "/product/{id}", &re).unwrap();

    assert_eq!(root.parse(&tree, "/product/all", 20), (Some("A"), texts(&[]), texts(&[])));
    assert_eq!(root.parse(&tree, "/product/7", 20), (Some("B"), texts(&["id"]), texts(&["7"])));
    assert_eq!(root.parse(&tree, "/nope", 20), (None, texts(&[]), texts(&[])));
}

#[test]
fn parameter_routes_with_different_tails() {
    let re = template_placeholder_regex();
    let mut tree = RouteTree::new();
    let root = tree.root();
    root.insert(&mut tree, 'A', "/a", &re).unwrap();
    root.insert(&mut tree, 'B', "/b/{x}", &re).unwrap();
    root.insert(&mut tree, 'C', "/b/{y}/c", &re).unwrap();
    root.insert(&mut tree, 'D', "/b/{z}/d", &re).unwrap();

    assert_eq!(root.parse(&tree, "/b/123", 20), (Some('B'), texts(&["x"]), texts(&["123"])));
    assert_eq!(root.parse(&tree, "/b/9/c", 20), (Some('C'), texts(&["y"]), texts(&["9"])));
}

#[test]
fn empty_anchor_takes_the_rest_of_the_path() {
    let re = template_placeholder_regex();
    let mut tree = RouteTree::new();
    let root = tree.root();
    let x = root.insert(&mut tree, 'X', "/c/{x}", &re).unwrap();
    root.insert(&mut tree, 'Y', "/c/{y}/{z}/", &re).unwrap();

    assert_eq!(root.parse(&tree, "/c/3/4", 20), (Some('X'), texts(&["x"]), texts(&["3/4"])));
    assert_eq!(
        root.parse(&tree, "/c/3/4/", 20),
        (Some('Y'), texts(&["y", "z"]), texts(&["3", "4"]))
    );
    assert_eq!(x.stringify(&tree, texts(&["3%2F4"])), Ok("/c/3%2F4".to_string()));
}

#[test]
fn second_route_for_a_template_is_ambiguous() {
    let re = template_placeholder_regex();
    let mut tree = RouteTree::new();
    let root = tree.root();
    root.insert(&mut tree, 1, "/product/{id}", &re).unwrap();

    assert_eq!(
        root.insert(&mut tree, 2, "/product/{name}", &re),
        Err(RouteError::AmbiguousRoute)
    );
    assert_eq!(root.parse(&tree, "/product/7", 20), (Some(1), texts(&["id"]), texts(&["7"])));
}

#[test]
fn stringify_needs_a_value_for_each_parameter() {
    let re = template_placeholder_regex();
    let mut tree = RouteTree::new();
    let root = tree.root();
    let leaf = root.insert(&mut tree, 1, "/a/{x}/{y}", &re).unwrap();

    assert_eq!(leaf.stringify(&tree, texts(&["1"])), Err(RouteError::MissingParameterValue));
    assert_eq!(leaf.stringify(&tree, texts(&["1", "2"])), Ok("/a/1/2".to_string()));
    assert_eq!(leaf.stringify(&tree, texts(&["0", "1", "2"])), Ok("/a/1/2".to_string()));
}

#[test]
fn similar_child_shares_a_prefix() {
    let re = template_placeholder_regex();
    let mut tree = RouteTree::new();
    let root = tree.root();
    root.insert(&mut tree, 1, "/abc", &re).unwrap();

    let anchor: Vec<char> = "/abd".chars().collect();
    let (length, child) = route_node_find_similar_child(&tree, &root, &anchor, false);
    assert_eq!(length, 3);
    assert_eq!(child, Some(tree.node(&root).child(0)));

    let other: Vec<char> = "x".chars().collect();
    assert_eq!(route_node_find_similar_child(&tree, &root, &other, false), (0, None));
    assert_eq!(route_node_find_similar_child(&tree, &root, &anchor, true), (0, None));
}

#[test]
fn parameter_search_is_bounded() {
    let re = template_placeholder_regex();
    let mut tree = RouteTree::new();
    let root = tree.root();
    root.insert(&mut tree, 1, "/a/{x}/b", &re).unwrap();

    assert_eq!(root.parse(&tree, "/a/1234/b", 4), (Some(1), texts(&["x"]), texts(&["1234"])));
    assert_eq!(root.parse(&tree, "/a/12345/b", 4), (None, texts(&[]), texts(&[])));
}

#[test]
fn split_keeps_leaf_handles() {
    let re = template_placeholder_regex();
    let mut tree = RouteTree::new();
    let root = tree.root();
    let long = root.insert(&mut tree, 1, "/abc/def", &re).unwrap();
    let short = root.insert(&mut tree, 2, "/abc", &re).unwrap();
    let other = root.insert(&mut tree, 3, "/abx", &re).unwrap();

    assert_eq!(long.stringify(&tree, texts(&[])), Ok("/abc/def".to_string()));
    assert_eq!(short.stringify(&tree, texts(&[])), Ok("/abc".to_string()));
    assert_eq!(other.stringify(&tree, texts(&[])), Ok("/abx".to_string()));
    assert_eq!(root.parse(&tree, "/abc/def", 20).0, Some(1));
    assert_eq!(root.parse(&tree, "/abc", 20).0, Some(2));
    assert_eq!(root.parse(&tree, "/abx", 20).0, Some(3));
    assert_eq!(root.parse(&tree, "/ab", 20).0, None);
}

#[derive(Debug, PartialEq)]
struct Shape {
    anchor: String,
    has_parameter: bool,
    route_key: Option<&'static str>,
    route_parameter_names: Vec<String>,
    children: Vec<Shape>,
}

fn shape_below(tree: &RouteTree<&'static str>, node: &RouteNodeRc) -> Shape {
    let found = tree.node(node);
    Shape {
        anchor: found.anchor().iter().collect(),
        has_parameter: found.has_parameter(),
        route_key: *found.route_key(),
        route_parameter_names: found.route_parameter_names().clone(),
        children: (0..found.child_count())
            .map(|position| shape_below(tree, &found.child(position)))
            .collect(),
    }
}

fn leaf(anchor: &str, has_parameter: bool, key: &'static str, names: &[&str]) -> Shape {
    Shape {
        anchor: anchor.to_string(),
        has_parameter,
        route_key: Some(key),
        route_parameter_names: texts(names),
        children: vec![],
    }
}

fn branch(anchor: &str, has_parameter: bool, children: Vec<Shape>) -> Shape {
    Shape {
        anchor: anchor.to_string(),
        has_parameter,
        route_key: None,
        route_parameter_names: vec![],
        children,
    }
}

#[test]
fn insertion_order_does_not_change_the_shape() {
    let templates = ["/a", "/b/{x}", "/b/{x}/", "/b/{x}/c", "/b/{y}/d", "{z}", "/ab"];
    let re = template_placeholder_regex();
    let mut previous: Option<Shape> = None;

    for order in templates.iter().permutations(templates.len()) {
        let mut tree = RouteTree::new();
        let root = tree.root();
        for template in order {
            root.insert(&mut tree, *template, template, &re).unwrap();
        }
        let shape = shape_below(&tree, &root);
        if let Some(previous) = &previous {
            assert_eq!(&shape, previous);
        }
        previous = Some(shape);
    }
}

#[test]
fn shape_after_a_split() {
    let re = template_placeholder_regex();
    let mut tree = RouteTree::new();
    let root = tree.root();
    root.insert(&mut tree, "detail", "/product/{id}", &re).unwrap();
    root.insert(&mut tree, "all", "/product/all", &re).unwrap();
    root.insert(&mut tree, "prices", "/prices", &re).unwrap();

    assert_eq!(
        shape_below(&tree, &root),
        branch(
            "",
            false,
            vec![branch(
                "/pr",
                false,
                vec![
                    branch(
                        "oduct/",
                        false,
                        vec![leaf("all", false, "all", &[]), leaf("", true, "detail", &["id"])]
                    ),
                    leaf("ices", false, "prices", &[]),
                ]
            )]
        )
    );
}

#[test]
fn same_flag_siblings_share_no_prefix() {
    let templates = ["/a", "/ab", "/abc/{x}", "/b/{x}", "/b/{x}/c", "/b/{y}/d", "{z}/e", "x{y}"];
    let re = template_placeholder_regex();
    let mut tree = RouteTree::new();
    let root = tree.root();

    for template in templates {
        root.insert(&mut tree, template, template, &re).unwrap();

        for index in 0..tree.len() {
            let node = tree.node(&RouteNodeRc(index));
            for i in 0..node.child_count() {
                for j in 0..node.child_count() {
                    let first = tree.node(&node.child(i));
                    let second = tree.node(&node.child(j));
                    if i != j && first.has_parameter() == second.has_parameter() {
                        assert_eq!(
                            find_common_prefix_length(first.anchor(), second.anchor()),
                            0
                        );
                    }
                    if i < j {
                        assert!(first < second);
                    }
                }
            }
        }
    }
}

#[test]
fn path_of_a_route_matches_the_route() {
    let templates = ["/a", "/b/{x}", "/b/{x}/c", "/d/{x}/{y}/e", "/f{x}"];
    let re = template_placeholder_regex();
    let mut tree = RouteTree::new();
    let root = tree.root();
    let leaves: Vec<RouteNodeRc> = templates
        .iter()
        .map(|template| root.insert(&mut tree, *template, template, &re).unwrap())
        .collect();

    for (template, leaf) in templates.iter().zip(leaves.iter()) {
        let names = tree.node(leaf).route_parameter_names().clone();
        let values: Vec<String> = (0..names.len()).map(|i| format!("p{}", i)).collect();
        let path = leaf.stringify(&tree, values.clone()).unwrap();

        assert_eq!(root.parse(&tree, &path, 20), (Some(*template), names, values));
    }
}

#[test]
fn matched_path_is_the_path_of_the_route() {
    let re = template_placeholder_regex();
    let mut tree = RouteTree::new();
    let root = tree.root();
    let first = root.insert(&mut tree, 1, "/a/{x}/b/{y}", &re).unwrap();
    let second = root.insert(&mut tree, 2, "/a/{x}/c", &re).unwrap();

    for path in ["/a/1/b/2", "/a//b/2", "/a/b/b/b/b", "/a/x/c", "/a/c/c"] {
        let (route_key, _, values) = root.parse(&tree, path, 20);
        let leaf = match route_key {
            Some(1) => first,
            Some(2) => second,
            _ => panic!("no route for {}", path),
        };
        assert_eq!(leaf.stringify(&tree, values), Ok(path.to_string()));
    }
}

#[test]
fn template_that_begins_with_a_parameter() {
    let re = template_placeholder_regex();
    let mut tree = RouteTree::new();
    let root = tree.root();
    let first = root.insert(&mut tree, 1, "{x}", &re).unwrap();
    let second = root.insert(&mut tree, 2, "{y}/a", &re).unwrap();

    assert_eq!(root.insert(&mut tree, 3, "{z}/a", &re), Err(RouteError::AmbiguousRoute));
    assert_eq!(root.parse(&tree, "5/a", 20), (Some(2), texts(&["y"]), texts(&["5"])));
    assert_eq!(root.parse(&tree, "5/b", 20), (Some(1), texts(&["x"]), texts(&["5/b"])));
    assert_eq!(first.stringify(&tree, texts(&["5"])), Ok("5".to_string()));
    assert_eq!(second.stringify(&tree, texts(&["5"])), Ok("5/a".to_string()));
}

#[test]
fn empty_template_ends_at_the_root() {
    let re = template_placeholder_regex();
    let mut tree = RouteTree::new();
    let root = tree.root();

    assert_eq!(root.parse(&tree, "", 20), (None, texts(&[]), texts(&[])));
    assert_eq!(root.insert(&mut tree, 1, "", &re), Ok(root));
    assert_eq!(root.parse(&tree, "", 20), (Some(1), texts(&[]), texts(&[])));
    assert_eq!(root.parse(&tree, "a", 20), (None, texts(&[]), texts(&[])));
    assert_eq!(root.stringify(&tree, texts(&[])), Ok("".to_string()));
    assert_eq!(root.insert(&mut tree, 2, "", &re), Err(RouteError::AmbiguousRoute));
}

#[test]
fn refused_insertion_leaves_the_tree_as_it_was() {
    let re = template_placeholder_regex();
    let mut tree = RouteTree::new();
    let root = tree.root();
    root.insert(&mut tree, "a", "/a/{x}/b", &re).unwrap();
    let nodes_before = tree.len();
    let shape_before = shape_below(&tree, &root);

    assert_eq!(
        root.insert(&mut tree, "b", "/a/{y}/b", &re),
        Err(RouteError::AmbiguousRoute)
    );
    assert_eq!(tree.len(), nodes_before);
    assert_eq!(shape_below(&tree, &root), shape_before);
}

#[test]
fn anchors_of_several_bytes_are_split_between_characters() {
    let re = template_placeholder_regex();
    let mut tree = RouteTree::new();
    let root = tree.root();
    let first = root.insert(&mut tree, 1, "/é", &re).unwrap();
    let second = root.insert(&mut tree, 2, "/è/{x}", &re).unwrap();

    assert_eq!(root.parse(&tree, "/é", 20), (Some(1), texts(&[]), texts(&[])));
    assert_eq!(root.parse(&tree, "/è/ü", 20), (Some(2), texts(&["x"]), texts(&["ü"])));
    assert_eq!(first.stringify(&tree, texts(&[])), Ok("/é".to_string()));
    assert_eq!(second.stringify(&tree, texts(&["ü"])), Ok("/è/ü".to_string()));
}

#[test]
fn empty_path_gives_a_parameter_no_value() {
    let re = template_placeholder_regex();
    let mut tree = RouteTree::new();
    let root = tree.root();
    root.insert(&mut tree, 1, "/a/{x}", &re).unwrap();

    assert_eq!(root.parse(&tree, "/a/", 20), (None, texts(&[]), texts(&[])));
    assert_eq!(root.parse(&tree, "/a/b", 20), (Some(1), texts(&["x"]), texts(&["b"])));
}

#[test]
fn handles_convert_into_each_other() {
    let node = RouteNodeRc(3);
    let weak = RouteNodeWeak::from(&node);
    assert_eq!(weak, RouteNodeWeak(3));
    assert_eq!(RouteNodeRc::from(&weak), node);
}

#[test]
fn parent_and_children_are_linked() {
    let re = template_placeholder_regex();
    let mut tree = RouteTree::new();
    let root = tree.root();
    let leaf = root.insert(&mut tree, 1, "/a", &re).unwrap();

    assert_eq!(tree.node(&root).parent(), None);
    assert_eq!(tree.node(&leaf).parent().map(|parent| RouteNodeRc::from(&parent)), Some(root));
    assert_eq!(tree.node(&root).child(0), leaf);
    assert_eq!(RouteTree::<u8>::default().len(), 1);
    assert_eq!(RouteNode::<u8>::default(), RouteNode::new("", false, None));
}

#[test]
fn fragment_without_anchor_has_no_similar_child() {
    let re = template_placeholder_regex();
    let mut tree = RouteTree::new();
    let root = tree.root();
    let leaf = root.insert(&mut tree, 1, "/c/{x}", &re).unwrap();
    let parent = RouteNodeRc::from(&tree.node(&leaf).parent().unwrap());

    assert_eq!(tree.node(&leaf).anchor().len(), 0);
    assert_eq!(route_node_find_similar_child(&tree, &parent, &[], true), (0, None));
    assert_eq!(route_node_find_similar_child(&tree, &parent, &[], false), (0, None));
    assert_eq!(route_node_find_similar_child(&tree, &root, &[], false), (0, None));

    let nodes_before = tree.len();
    assert_eq!(root.insert(&mut tree, 2, "/c/{y}", &re), Err(RouteError::AmbiguousRoute));
    assert_eq!(tree.len(), nodes_before);
    assert_eq!(root.insert(&mut tree, 3, "/c/{y}{z}", &re).map(|leaf| leaf.0), Ok(nodes_before));
    assert_eq!(tree.node(&leaf).child_count(), 1);
}

#[test]
fn similar_child_has_a_common_prefix() {
    let re = template_placeholder_regex();
    let mut tree = RouteTree::new();
    let root = tree.root();
    for template in ["/a/{x}", "/a/{x}/b", "/a/{x}/c", "/ab", "/b"] {
        root.insert(&mut tree, template, template, &re).unwrap();
    }

    for index in 0..tree.len() {
        let node = RouteNodeRc(index);
        for anchor in ["", "/", "/a", "a", "b", "/c", "x"] {
            for has_parameter in [false, true] {
                let chars: Vec<char> = anchor.chars().collect();
                let (length, child) =
                    route_node_find_similar_child(&tree, &node, &chars, has_parameter);
                match child {
                    Some(child) => {
                        let found = tree.node(&child);
                        assert!(length > 0);
                        assert_eq!(found.has_parameter(), has_parameter);
                        assert_eq!(length, find_common_prefix_length(&chars, found.anchor()));
                    }
                    None => {
                        assert_eq!(length, 0);
                        for position in 0..tree.node(&node).child_count() {
                            let other = tree.node(&tree.node(&node).child(position));
                            assert!(
                                other.has_parameter() != has_parameter
                                    || find_common_prefix_length(&chars, other.anchor()) == 0
                            );
                        }
                    }
                }
            }
        }
    }
}

#[test]
fn route_has_a_name_for_each_value() {
    let re = template_placeholder_regex();
    let mut tree = RouteTree::new();
    let root = tree.root();
    for template in ["/a/{x}", "/a/{x}/b/{y}", "{z}", "/c"] {
        root.insert(&mut tree, template, template, &re).unwrap();
    }

    for path in ["/a/1", "/a/1/b/2", "zzz", "/c", "/a/1/b/"] {
        let (route_key, names, values) = root.parse(&tree, path, 20);
        assert!(route_key.is_some());
        assert_eq!(names.len(), values.len());
    }
}

#[test]
fn join_refuses_a_second_route() {
    let re = template_placeholder_regex();
    let mut tree = RouteTree::new();
    let root = tree.root();
    let leaf = root.insert(&mut tree, 1, "/a", &re).unwrap();

    assert_eq!(route_node_merge_join(&mut tree, &leaf, None, vec![]), Ok(leaf));
    assert_eq!(
        route_node_merge_join(&mut tree, &leaf, Some(2), vec![]),
        Err(RouteError::AmbiguousRoute)
    );
    assert_eq!(tree.node(&leaf).route_key(), &Some(1));
    assert_eq!(route_node_merge_join(&mut tree, &root, Some(3), texts(&["n"])), Ok(root));
    assert_eq!(tree.node(&root).route_key(), &Some(3));
    assert_eq!(tree.node(&root).route_parameter_names(), &texts(&["n"]));
}

#[test]
fn merge_parts_fragments_that_share_a_prefix() {
    let mut tree: RouteTree<u8> = RouteTree::new();
    let root = tree.root();
    let mut merge = |tree: &mut RouteTree<u8>, parent: &RouteNodeRc, text: &str, flag, key| {
        let anchor: Vec<char> = text.chars().collect();
        let (length, child) = route_node_find_similar_child(tree, parent, &anchor, flag);
        route_node_merge(tree, parent, child.as_ref(), &anchor, flag, key, vec![], length)
    };

    let abc = merge(&mut tree, &root, "abc", false, Some(1)).unwrap();
    let abd = merge(&mut tree, &root, "abd", false, Some(2)).unwrap();
    let ab = merge(&mut tree, &root, "ab", false, Some(3)).unwrap();
    let a = merge(&mut tree, &root, "a", false, Some(4)).unwrap();
    let empty = merge(&mut tree, &root, "", false, None).unwrap();
    let parameter = merge(&mut tree, &a, "", true, Some(5)).unwrap();
    let same = merge(&mut tree, &a, "", true, None).unwrap();
    let below = merge(&mut tree, &parameter, "x", false, Some(6)).unwrap();

    assert_eq!(empty, root);
    assert_eq!(same, parameter);
    assert_eq!(merge(&mut tree, &a, "", true, Some(7)), Err(RouteError::AmbiguousRoute));
    assert_eq!(merge(&mut tree, &root, "abc", false, Some(7)), Err(RouteError::AmbiguousRoute));
    for (node, path) in [(abc, "abc"), (abd, "abd"), (ab, "ab"), (a, "a")] {
        assert_eq!(node.stringify(&tree, texts(&[])), Ok(path.to_string()));
    }
    assert_eq!(below.stringify(&tree, texts(&["v"])), Ok("avx".to_string()));
    assert_eq!(tree.node(&root).child_count(), 1);
    assert_eq!(tree.node(&a).child_count(), 2);
    assert_eq!(tree.node(&ab).child_count(), 2);

    for index in 0..tree.len() {
        let node = tree.node(&RouteNodeRc(index));
        for i in 0..node.child_count() {
            for j in (i + 1)..node.child_count() {
                let first = tree.node(&node.child(i));
                let second = tree.node(&node.child(j));
                assert!(first < second);
                if first.has_parameter() == second.has_parameter() {
                    assert_eq!(find_common_prefix_length(first.anchor(), second.anchor()), 0);
                }
            }
        }
    }
}
