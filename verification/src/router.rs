use crate::route_node::{
    lemma_root_alone, root_alone, NodeView, RouteError, RouteNodeRc, RouteTree,
};
use crate::route_node::model::{
    carries_route, interleave, lean, names_fit, node_ok, pattern, routed_at, well_formed,
};
use crate::route_node::route_node_merge::same_route;
use crate::route_node::route_node_rc::{
    grafted, inserted, lemma_match_gives_path_back, match_node, parameter_names,
};
use crate::route_node::shape::{
    grown, insertion, lemma_insertion_order, lemma_same_shape_same_match, route_of, shape_of,
    RouteEntry,
};
use crate::template::{
    compiled, placeholder_matches, template_placeholder_regex, TEMPLATE_PLACEHOLDER_PATTERN,
};
use crate::template::template_pairs::template_pairs;
use regex::Regex;
use std::collections::HashMap;
use std::hash::Hash;
use vstd::prelude::*;
use vstd::std_specs::hash::obeys_key_model;
use vstd::utf8::{decode_utf8, encode_utf8, encode_utf8_decode_utf8};

verus! {

broadcast use vstd::std_specs::hash::group_hash_axioms;

/// The bytes that percent-encoding leaves as they are: digits, letters and `-`, `.`, `_`, `~`.
pub open spec fn is_unreserved(byte: u8) -> bool {
    (0x30 <= byte <= 0x39) || (0x41 <= byte <= 0x5a) || (0x61 <= byte <= 0x7a) || byte == 0x2d
        || byte == 0x2e || byte == 0x5f || byte == 0x7e
}

/// The upper-case hexadecimal digit for a number below sixteen.
pub open spec fn hex_digit(digit: u8) -> u8 {
    if digit < 10 {
        (0x30 + digit) as u8
    } else {
        (0x41 - 10 + digit) as u8
    }
}

/// Percent-encoding: each byte that is not unreserved becomes `%` and its two hexadecimal
/// digits.
pub open spec fn percent_encoded(bytes: Seq<u8>) -> Seq<u8>
    decreases bytes.len(),
{
    if bytes.len() == 0 {
        Seq::empty()
    } else if is_unreserved(bytes[0]) {
        seq![bytes[0]] + percent_encoded(bytes.drop_first())
    } else {
        seq![0x25u8, hex_digit(bytes[0] >> 4), hex_digit(bytes[0] & 15)] + percent_encoded(
            bytes.drop_first(),
        )
    }
}

/// A parameter value as it stands in a path: percent-encoded.
pub open spec fn encoded_text(value: Seq<char>) -> Seq<char> {
    decode_utf8(percent_encoded(encode_utf8(value)))
}

/// What `urlencoding::decode` makes of a text; `None` where it gives an error.
pub uninterp spec fn percent_decoded(value: Seq<char>) -> Option<Seq<char>>;

/// A parameter value as it is handed out: decoded, or as it stands in the path where it
/// cannot be decoded.
pub open spec fn decoded_text(value: Seq<char>) -> Seq<char> {
    match percent_decoded(value) {
        Some(decoded) => decoded,
        None => value,
    }
}

/// Calls `urlencoding::encode`, which percent-encodes every byte of the text but digits,
/// letters and `-`, `.`, `_`, `~`, with upper-case hexadecimal digits.
#[verifier::external_body]
fn encode_text(value: &str) -> (encoded: String)
    ensures
        encode_utf8(encoded@) == percent_encoded(encode_utf8(value@)),
{
    urlencoding::encode(value).into_owned()
}

/// Calls `urlencoding::decode` and gives what it decoded, or `None` where it gave an error.
/// Believed of it: that it makes the same of the same text each time; and that it undoes
/// percent-encoding, as it copies every byte but `%` and makes of `%` and two hexadecimal
/// digits the byte that they stand for.
#[verifier::external_body]
fn decode_text(value: &str) -> (decoded: Option<String>)
    ensures
        match decoded {
            Some(decoded) => percent_decoded(value@) == Some(decoded@),
            None => percent_decoded(value@) is None,
        },
        match decoded {
            Some(decoded) => forall|plain: Seq<char>|
                value@ == #[trigger] encoded_text(plain) ==> decoded@ == plain,
            None => forall|plain: Seq<char>| value@ != #[trigger] encoded_text(plain),
        },
{
    urlencoding::decode(value).ok().map(|decoded| decoded.into_owned())
}

/// Encodes a parameter value for a path.
pub fn parameter_encoder(value: &str) -> (encoded: String)
    ensures
        encoded@ == encoded_text(value@),
{
    let encoded = encode_text(value);
    proof {
        encode_utf8_decode_utf8(encoded@);
    }
    encoded
}

/// Decodes a parameter value from a path; a value that cannot be decoded stays as it is.
/// An encoded value gives the value back.
pub fn parameter_decoder(value: &str) -> (decoded: String)
    ensures
        decoded@ == decoded_text(value@),
        forall|plain: Seq<char>| value@ == #[trigger] encoded_text(plain) ==> decoded@ == plain,
{
    match decode_text(value) {
        Some(decoded) => decoded,
        None => value.to_owned(),
    }
}

/// Parameters as mathematical values: names with their values.
pub open spec fn parameters_view(parameters: Seq<(String, String)>) -> Seq<(Seq<char>, Seq<char>)> {
    parameters.map_values(|parameter: (String, String)| (parameter.0@, parameter.1@))
}

/// The value that parameters give for each name: that of the last parameter with the name.
pub open spec fn parameters_map(parameters: Seq<(Seq<char>, Seq<char>)>) -> Map<
    Seq<char>,
    Seq<char>,
>
    decreases parameters.len(),
{
    if parameters.len() == 0 {
        Map::empty()
    } else {
        parameters_map(parameters.drop_last()).insert(parameters.last().0, parameters.last().1)
    }
}

/// The parameters of a match: each name of the route with the value captured for it,
/// decoded, in template order.
pub open spec fn named_values(names: Seq<Seq<char>>, values: Seq<Seq<char>>) -> Seq<
    (Seq<char>, Seq<char>),
> {
    Seq::new(
        if names.len() < values.len() {
            names.len()
        } else {
            values.len()
        },
        |i: int| (names[i], decoded_text(values[i])),
    )
}

/// `made` is what the function `change` may make of a text with the characters `raw`.
pub open spec fn made_by<F: Fn(&str) -> String>(change: F, raw: Seq<char>, made: String) -> bool {
    exists|text: &str| text@ == raw && call_ensures(change, (text,), made)
}

/// The value of the last of `parameters` that has the name `name`.
fn find_parameter<'a>(parameters: &'a Vec<(String, String)>, name: &String) -> (value: Option<
    &'a String,
>)
    ensures
        match value {
            Some(value) => parameters_map(parameters_view(parameters@)).contains_key(name@)
                && parameters_map(parameters_view(parameters@))[name@] == value@,
            None => !parameters_map(parameters_view(parameters@)).contains_key(name@),
        },
{
    let ghost all = parameters_view(parameters@);
    let mut left: usize = parameters.len();
    assert(all.take(left as int) =~= all);
    while left > 0
        invariant
            left <= parameters@.len(),
            all == parameters_view(parameters@),
            parameters_map(all).contains_key(name@) == parameters_map(
                all.take(left as int),
            ).contains_key(name@),
            parameters_map(all).contains_key(name@) ==> parameters_map(all)[name@]
                == parameters_map(all.take(left as int))[name@],
        decreases left,
    {
        proof {
            assert(all.take(left as int).drop_last() =~= all.take(left - 1));
            assert(all.take(left as int).last() == all[left - 1]);
        }
        left -= 1;
        if parameters[left].0 == *name {
            return Some(&parameters[left].1);
        }
    }
    None
}

/// How a router came to be: the trees it went through, the first that of a new router, and
/// the routes that were inserted, each into the tree at its place.
pub ghost struct History<K> {
    pub trees: Seq<Seq<NodeView<K>>>,
    pub entries: Seq<RouteEntry<K>>,
}

/// A router: templates, each bound to a route key, against which paths are matched and
/// from which paths are made.
pub struct Router<K> {
    tree: RouteTree<K>,
    leaf_nodes_rc: HashMap<K, RouteNodeRc>,
    maximum_parameter_value_length: usize,
    parameter_placeholder_re: Regex,
    history: Ghost<History<K>>,
}

impl<K: Eq + Hash + Copy> Router<K> {
    /// The tree of the router.
    pub closed spec fn tree(&self) -> Seq<NodeView<K>> {
        self.tree@
    }

    /// The node at which the template of each route key ends.
    pub closed spec fn leaves(&self) -> Map<K, int> {
        self.leaf_nodes_rc@.map_values(|leaf: RouteNodeRc| leaf@)
    }

    /// How long a parameter value in front of an anchor may be.
    pub closed spec fn maximum(&self) -> nat {
        self.maximum_parameter_value_length as nat
    }

    /// The pattern of a placeholder.
    pub closed spec fn placeholder(&self) -> Regex {
        self.parameter_placeholder_re
    }

    /// The routes that were inserted, in the order of their insertion: of each the pattern
    /// of its template, its key and its parameter names.
    pub closed spec fn inserted_routes(&self) -> Seq<RouteEntry<K>> {
        self.history@.entries
    }

    /// The tree of the router came of inserting its routes, one after the other and none
    /// refused, into the tree of a new router.
    pub closed spec fn came_of_insertions(&self) -> bool {
        &&& grown(self.history@.trees, self.history@.entries)
        &&& self.history@.trees[0] == root_alone::<K>()
        &&& self.history@.trees.last() == self.tree@
    }

    /// The invariant of the router: its tree came of the insertions of its routes, is well
    /// formed and holds no node that is not needed, every route has one name for each of
    /// its parameters, and each route key leads to a node of the tree that carries the key.
    pub open spec fn wf(&self) -> bool {
        &&& obeys_key_model::<K>()
        &&& self.came_of_insertions()
        &&& well_formed(self.tree())
        &&& lean(self.tree())
        &&& names_fit(self.tree())
        &&& forall|key: K| #[trigger]
            self.leaves().contains_key(key) ==> {
                let leaf = self.leaves()[key];
                &&& 0 <= leaf < self.tree().len()
                &&& self.tree()[leaf].route_key == Some(key)
            }
    }

    /// The pattern of `template` as this router reads it: the literal pieces of the
    /// template, from the root on.
    pub open spec fn template_pattern(&self, template: Seq<char>) -> Seq<Seq<char>> {
        grafted(
            seq![Seq::<char>::empty()],
            template_pairs(template, placeholder_matches(self.placeholder(), template)),
        )
    }

    /// The parameter names of `template` as this router reads it.
    pub open spec fn template_names(&self, template: Seq<char>) -> Seq<Seq<char>> {
        parameter_names(template_pairs(template, placeholder_matches(self.placeholder(), template)))
    }

    /// A router without routes, for parameter values of at most 20 characters, with
    /// placeholders written as a name in braces, `TEMPLATE_PLACEHOLDER_PATTERN`.
    pub fn new() -> (router: Self)
        requires
            obeys_key_model::<K>(),
        ensures
            router.wf(),
            router.tree().len() == 1,
            router.tree()[0].route_key is None,
            router.leaves() == Map::<K, int>::empty(),
            router.maximum() == 20,
            router.placeholder() == compiled(TEMPLATE_PLACEHOLDER_PATTERN@),
            router.inserted_routes() == Seq::<RouteEntry<K>>::empty(),
    {
        let tree = RouteTree::new();
        let router = Router {
            tree,
            leaf_nodes_rc: HashMap::new(),
            maximum_parameter_value_length: 20,
            parameter_placeholder_re: template_placeholder_regex(),
            history: Ghost(History { trees: seq![root_alone::<K>()], entries: Seq::empty() }),
        };
        assert(router.leaves() =~= Map::<K, int>::empty());
        router
    }

    /// Sets how long a parameter value in front of an anchor may be.
    pub fn set_maximum_parameter_value_length(&mut self, value: usize) -> (router: &mut Self)
        ensures
            router.maximum() == value,
            router.tree() == old(self).tree(),
            router.leaves() == old(self).leaves(),
            router.placeholder() == old(self).placeholder(),
            router.inserted_routes() == old(self).inserted_routes(),
            old(self).wf() ==> router.wf(),
            *final(self) == *final(router),
    {
        self.maximum_parameter_value_length = value;
        self
    }

    /// Sets the pattern of a placeholder, for the templates inserted from now on.
    pub fn set_parameter_placeholder_re(&mut self, value: Regex) -> (router: &mut Self)
        ensures
            router.placeholder() == value,
            router.tree() == old(self).tree(),
            router.leaves() == old(self).leaves(),
            router.maximum() == old(self).maximum(),
            router.inserted_routes() == old(self).inserted_routes(),
            old(self).wf() ==> router.wf(),
            *final(self) == *final(router),
    {
        self.parameter_placeholder_re = value;
        self
    }

    /// Binds `template` to `route_key`. A template that ends where a route ends already is
    /// refused.
    pub fn insert_route(&mut self, route_key: K, template: &str) -> (inserted_route: Result<
        &mut Self,
        RouteError,
    >)
        requires
            old(self).wf(),
        ensures
            inserted_route is Err <==> carries_route(
                old(self).tree(),
                old(self).template_pattern(template@),
            ),
            match inserted_route {
                Ok(router) => {
                    &&& *final(self) == *final(router)
                    &&& router.wf()
                    &&& router.maximum() == old(self).maximum()
                    &&& router.placeholder() == old(self).placeholder()
                    &&& router.leaves().contains_key(route_key)
                    &&& router.leaves() == old(self).leaves().insert(
                        route_key,
                        router.leaves()[route_key],
                    )
                    &&& inserted(
                        old(self).tree(),
                        router.tree(),
                        old(self).template_pattern(template@),
                        route_key,
                        old(self).template_names(template@),
                        router.leaves()[route_key],
                    )
                    &&& router.inserted_routes() == old(self).inserted_routes().push(
                        RouteEntry {
                            pieces: old(self).template_pattern(template@),
                            route_key,
                            route_parameter_names: old(self).template_names(template@),
                        },
                    )
                },
                Err(error) => {
                    &&& error == RouteError::AmbiguousRoute
                    &&& final(self).wf()
                    &&& final(self).tree() == old(self).tree()
                    &&& final(self).leaves() == old(self).leaves()
                    &&& final(self).maximum() == old(self).maximum()
                    &&& final(self).placeholder() == old(self).placeholder()
                    &&& final(self).inserted_routes() == old(self).inserted_routes()
                },
            },
    {
        let ghost before = self.tree@;
        let ghost target = self.template_pattern(template@);
        let ghost names = self.template_names(template@);
        let root = self.tree.root();
        proof {
            assert(node_ok(before, 0));
            assert(before[0].anchor =~= Seq::<char>::empty());
            assert(pattern(before, 0) =~= seq![Seq::<char>::empty()]);
        }
        match root.insert(&mut self.tree, route_key, template, &self.parameter_placeholder_re) {
            Ok(leaf_node_rc) => {
                self.leaf_nodes_rc.insert(route_key, leaf_node_rc);
                let ghost entry = RouteEntry {
                    pieces: target,
                    route_key,
                    route_parameter_names: names,
                };
                let ghost earlier = self.history@;
                let ghost later = History {
                    trees: earlier.trees.push(self.tree@),
                    entries: earlier.entries.push(entry),
                };
                proof {
                    assert(inserted(
                        before,
                        self.tree@,
                        target,
                        route_key,
                        names,
                        leaf_node_rc@,
                    ));
                    assert(!carries_route(before, target));
                    assert(entry.pieces == target && entry.route_key == route_key
                        && entry.route_parameter_names == names);
                    assert(insertion(before, self.tree@, entry));
                    assert forall|i: int| 0 <= i < later.entries.len() implies insertion(
                        #[trigger] later.trees[i],
                        later.trees[i + 1],
                        later.entries[i],
                    ) by {
                        if i < earlier.entries.len() {
                            assert(insertion(
                                earlier.trees[i],
                                earlier.trees[i + 1],
                                earlier.entries[i],
                            ));
                        }
                    }
                }
                self.history = Ghost(later);
                proof {
                    let after = self.tree@;
                    assert(self.leaves() =~= old(self).leaves().insert(route_key, leaf_node_rc@));
                    assert forall|key: K| #[trigger]
                        self.leaves().contains_key(key) implies {
                        let leaf = self.leaves()[key];
                        &&& 0 <= leaf < after.len()
                        &&& after[leaf].route_key == Some(key)
                    } by {
                        if key != route_key {
                            assert(old(self).leaves().contains_key(key));
                            let leaf = old(self).leaves()[key];
                            assert(pattern(after, leaf) == pattern(before, leaf));
                            if leaf == leaf_node_rc@ {
                                assert(routed_at(before, leaf, target));
                            }
                            assert(same_route(before, after, leaf));
                        }
                    }
                }
                Ok(self)
            },
            Err(error) => Err(error),
        }
    }

    /// Matches `path` against the routes, with `decoder` as the decoder of parameter values.
    /// Gives the key of the route that matches and its parameters, each name with what the
    /// decoder made of the value, in template order; or no key and no parameters where no
    /// route matches.
    pub fn parse_route_with<D: Fn(&str) -> String>(&self, path: &str, decoder: D) -> (parsed: (
        Option<K>,
        Vec<(String, String)>,
    ))
        requires
            self.wf(),
            forall|text: &str| call_requires(decoder, (text,)),
        ensures
            match match_node(self.tree(), 0, path@, self.maximum()) {
                Some((end, values)) => {
                    let names = self.tree()[end].route_parameter_names;
                    &&& parsed.0 == self.tree()[end].route_key
                    &&& parsed.0 is Some
                    &&& parsed.1@.len() == (if names.len() < values.len() {
                        names.len()
                    } else {
                        values.len()
                    })
                    &&& forall|i: int|
                        0 <= i < parsed.1@.len() ==> (#[trigger] parsed.1@[i]).0@ == names[i]
                            && made_by(decoder, values[i], parsed.1@[i].1)
                },
                None => parsed.0 is None && parsed.1@.len() == 0,
            },
    {
        let (route_key, parameter_names, parameter_values) = self.tree.root().parse(
            &self.tree,
            path,
            self.maximum_parameter_value_length,
        );
        let mut parameters: Vec<(String, String)> = Vec::new();
        if route_key.is_some() {
            let ghost names = parameter_names.deep_view();
            let ghost values = parameter_values.deep_view();
            let mut i: usize = 0;
            while i < parameter_names.len() && i < parameter_values.len()
                invariant
                    names == parameter_names.deep_view(),
                    values == parameter_values.deep_view(),
                    forall|text: &str| call_requires(decoder, (text,)),
                    i <= names.len(),
                    i <= values.len(),
                    parameters@.len() == i,
                    forall|j: int|
                        0 <= j < i ==> (#[trigger] parameters@[j]).0@ == names[j] && made_by(
                            decoder,
                            values[j],
                            parameters@[j].1,
                        ),
                decreases names.len() - i,
            {
                let name = parameter_names[i].clone();
                let raw = parameter_values[i].as_str();
                let value = decoder(raw);
                proof {
                    assert(names[i as int] == parameter_names@[i as int]@);
                    assert(values[i as int] == parameter_values@[i as int]@);
                    assert(made_by(decoder, values[i as int], value));
                }
                parameters.push((name, value));
                i += 1;
            }
        }
        (route_key, parameters)
    }

    /// Matches `path` against the routes. Gives the key of the route that matches and its
    /// parameters, each name with the decoded value, in template order; or no key and no
    /// parameters where no route matches. There is a parameter for each value captured, and
    /// a value that stands encoded in the path is given as it was before it was encoded.
    pub fn parse_route(&self, path: &str) -> (parsed: (Option<K>, Vec<(String, String)>))
        requires
            self.wf(),
        ensures
            match match_node(self.tree(), 0, path@, self.maximum()) {
                Some((end, values)) => parsed.0 == self.tree()[end].route_key && parsed.0 is Some
                    && parameters_view(parsed.1@) == named_values(
                    self.tree()[end].route_parameter_names,
                    values,
                ) && parsed.1@.len() == values.len() && forall|i: int, plain: Seq<char>|
                    0 <= i < values.len() && #[trigger] values[i] == #[trigger] encoded_text(
                        plain,
                    ) ==> parsed.1@[i].1@ == plain,
                None => parsed.0 is None && parsed.1@.len() == 0,
            },
    {
        let parsed = self.parse_route_with(path, parameter_decoder);
        proof {
            match match_node(self.tree(), 0, path@, self.maximum()) {
                Some((end, values)) => {
                    assert(parameters_view(parsed.1@) =~= named_values(
                        self.tree()[end].route_parameter_names,
                        values,
                    ));
                    lemma_match_gives_path_back(self.tree(), path@, self.maximum());
                    assert forall|i: int, plain: Seq<char>|
                        0 <= i < values.len() && #[trigger] values[i] == #[trigger] encoded_text(
                            plain,
                        ) implies parsed.1@[i].1@ == plain by {
                        assert(made_by(parameter_decoder, values[i], parsed.1@[i].1));
                    }
                },
                None => {},
            }
        }
        parsed
    }

    /// The path of the route `route_key` with `route_parameters` for its parameters, each
    /// value as `encoder` encodes it; no path where the router has no such route. Of
    /// parameters with one name the last counts. A parameter of the route without a value is
    /// an error.
    #[verifier::loop_isolation(false)]
    pub fn stringify_route_with<E: Fn(&str) -> String>(
        &self,
        route_key: K,
        route_parameters: &Vec<(String, String)>,
        encoder: E,
    ) -> (path: Result<Option<String>, RouteError>)
        requires
            self.wf(),
            forall|text: &str| call_requires(encoder, (text,)),
        ensures
            !self.leaves().contains_key(route_key) ==> path == Ok::<Option<String>, RouteError>(
                None,
            ),
            self.leaves().contains_key(route_key) ==> ({
                let leaf = self.leaves()[route_key];
                let names = self.tree()[leaf].route_parameter_names;
                let given = parameters_map(parameters_view(route_parameters@));
                &&& path is Err <==> exists|i: int|
                    0 <= i < names.len() && !given.contains_key(#[trigger] names[i])
                &&& path matches Err(error) ==> error == RouteError::MissingParameterValue
                &&& path matches Ok(text) ==> text matches Some(text) && exists|
                    encoded: Seq<String>,
                |
                    {
                        &&& encoded.len() == names.len()
                        &&& forall|i: int|
                            0 <= i < names.len() ==> made_by(
                                encoder,
                                given[names[i]],
                                #[trigger] encoded[i],
                            )
                        &&& text@ == interleave(
                            pattern(self.tree(), leaf),
                            encoded.map_values(|value: String| value@),
                        )
                    }
            }),
    {
        match self.leaf_nodes_rc.get(&route_key) {
            Some(node_rc) => {
                let ghost leaf = self.leaves()[route_key];
                assert(self.leaves().contains_key(route_key) && leaf == node_rc@);
                let names = self.tree.node(node_rc).route_parameter_names();
                let ghost given = parameters_map(parameters_view(route_parameters@));
                let ghost wanted = self.tree()[leaf].route_parameter_names;
                let mut parameter_values: Vec<String> = Vec::new();
                let mut i: usize = 0;
                while i < names.len()
                    invariant
                        i <= names@.len(),
                        wanted == names.deep_view(),
                        given == parameters_map(parameters_view(route_parameters@)),
                        parameter_values@.len() == i,
                        forall|j: int|
                            0 <= j < i ==> given.contains_key(#[trigger] wanted[j]),
                        forall|j: int|
                            0 <= j < i ==> made_by(
                                encoder,
                                given[wanted[j]],
                                #[trigger] parameter_values@[j],
                            ),
                    decreases names@.len() - i,
                {
                    proof {
                        assert(wanted[i as int] == names@[i as int]@);
                    }
                    match find_parameter(route_parameters, &names[i]) {
                        Some(value) => {
                            let raw = value.as_str();
                            let encoded = encoder(raw);
                            proof {
                                assert(made_by(encoder, given[wanted[i as int]], encoded));
                            }
                            parameter_values.push(encoded);
                        },
                        None => {
                            return Err(RouteError::MissingParameterValue);
                        },
                    }
                    i += 1;
                }
                let ghost encoded = parameter_values@;
                proof {
                    assert(parameter_values.deep_view() =~= encoded.map_values(
                        |value: String| value@,
                    ));
                    assert(parameter_values.deep_view().subrange(
                        0,
                        parameter_values@.len() as int,
                    ) =~= parameter_values.deep_view());
                }
                match node_rc.stringify(&self.tree, parameter_values) {
                    Ok(text) => Ok(Some(text)),
                    Err(error) => Err(error),
                }
            },
            None => Ok(None),
        }
    }

    /// The path of the route `route_key` with `route_parameters` for its parameters, each
    /// value percent-encoded; no path where the router has no such route. Of parameters
    /// with one name the last counts. A parameter of the route without a value is an error.
    pub fn stringify_route(
        &self,
        route_key: K,
        route_parameters: &Vec<(String, String)>,
    ) -> (path: Result<Option<String>, RouteError>)
        requires
            self.wf(),
        ensures
            !self.leaves().contains_key(route_key) ==> path == Ok::<Option<String>, RouteError>(
                None,
            ),
            self.leaves().contains_key(route_key) ==> ({
                let leaf = self.leaves()[route_key];
                let names = self.tree()[leaf].route_parameter_names;
                let given = parameters_map(parameters_view(route_parameters@));
                &&& path is Err <==> exists|i: int|
                    0 <= i < names.len() && !given.contains_key(#[trigger] names[i])
                &&& path matches Err(error) ==> error == RouteError::MissingParameterValue
                &&& path matches Ok(text) ==> text matches Some(text) && text@ == interleave(
                    pattern(self.tree(), leaf),
                    Seq::new(names.len(), |i: int| encoded_text(given[names[i]])),
                )
            }),
    {
        let path = self.stringify_route_with(route_key, route_parameters, parameter_encoder);
        proof {
            if self.leaves().contains_key(route_key) && path is Ok {
                let leaf = self.leaves()[route_key];
                let names = self.tree()[leaf].route_parameter_names;
                let given = parameters_map(parameters_view(route_parameters@));
                let text = path->Ok_0->0;
                let encoded = choose|encoded: Seq<String>|
                    {
                        &&& encoded.len() == names.len()
                        &&& forall|i: int|
                            0 <= i < names.len() ==> made_by(
                                parameter_encoder,
                                given[names[i]],
                                #[trigger] encoded[i],
                            )
                        &&& text@ == interleave(
                            pattern(self.tree(), leaf),
                            encoded.map_values(|value: String| value@),
                        )
                    };
                assert forall|i: int| 0 <= i < names.len() implies (#[trigger] encoded[i])@
                    == encoded_text(given[names[i]]) by {
                    assert(made_by(parameter_encoder, given[names[i]], encoded[i]));
                }
                assert(encoded.map_values(|value: String| value@) =~= Seq::new(
                    names.len(),
                    |i: int| encoded_text(given[names[i]]),
                ));
            }
        }
        path
    }

    /// Routers into which the same routes were inserted, in whatever order, hold trees of
    /// the same shape, and match every path alike.
    pub proof fn lemma_same_routes_in_any_order(
        first: Self,
        second: Self,
        path: Seq<char>,
        maximum: nat,
    )
        requires
            first.wf(),
            second.wf(),
            forall|entry: RouteEntry<K>|
                first.inserted_routes().contains(entry) <==> second.inserted_routes().contains(
                    entry,
                ),
        ensures
            shape_of(first.tree(), 0) == shape_of(second.tree(), 0),
            route_of(first.tree(), match_node(first.tree(), 0, path, maximum)) == route_of(
                second.tree(),
                match_node(second.tree(), 0, path, maximum),
            ),
    {
        lemma_root_alone::<K>();
        assert(first.inserted_routes() == first.history@.entries);
        assert(second.inserted_routes() == second.history@.entries);
        assert forall|entry: RouteEntry<K>|
            first.history@.entries.contains(entry) <==> second.history@.entries.contains(
                entry,
            ) by {
            assert(first.inserted_routes().contains(entry) <==> second.inserted_routes().contains(
                entry,
            ));
        }
        lemma_insertion_order(
            first.history@.trees,
            first.history@.entries,
            second.history@.trees,
            second.history@.entries,
        );
        lemma_same_shape_same_match(first.tree(), second.tree(), 0, 0, path, maximum);
    }
}

} // verus!
