use goodrouter::route_node::RouteError;
use goodrouter::router::{parameter_decoder, parameter_encoder, Router};
use std::collections::HashMap;

fn parameters(pairs: &[(&str, &str)]) -> Vec<(String, String)> {
    pairs
        .iter()
        .map(|(name, value)| (name.to_string(), value.to_string()))
        .collect()
}

fn as_map(parameters: &[(String, String)]) -> HashMap<&str, &str> {
    parameters
        .iter()
        .map(|(name, value)| (name.as_str(), value.as_str()))
        .collect()
}

#[test]
fn readme() {
    let mut router = Router::new();

    router
        .insert_route("all-products", "/product/all")
        .unwrap()
        .insert_route("product-detail", "/product/{id}")
        .unwrap();

    // And now we can parse routes!

    {
        let (route_key, route_parameters) = router.parse_route("/not-found");
        assert_eq!(route_key, None);
        assert_eq!(as_map(&route_parameters), Default::default());
    }

    {
        let (route_key, route_parameters) = router.parse_route("/product/all");
        assert_eq!(route_key, Some("all-products"));
        assert_eq!(as_map(&route_parameters), Default::default());
    }

    {
        let (route_key, route_parameters) = router.parse_route("/product/1");
        assert_eq!(route_key, Some("product-detail"));
        assert_eq!(
            as_map(&route_parameters),
            vec![("id", "1")].into_iter().collect()
        );
    }

    // And we can stringify routes

    {
        let route_parameters = parameters(&[]);
        let path = router.stringify_route("all-products", &route_parameters);
        assert_eq!(path.unwrap().unwrap(), "/product/all".to_owned());
    }

    {
        let route_parameters = parameters(&[("id", "2")]);
        let path = router.stringify_route("product-detail", &route_parameters);
        assert_eq!(path.unwrap().unwrap(), "/product/2".to_owned());
    }
}

#[test]
fn router_1() {
    #[derive(Debug, PartialEq, Eq, Hash)]
    enum Route {
        A,
        B,
        C,
        D,
    }

    let mut router = Router::new();
    router
        .insert_route(&Route::A, "/a")
        .unwrap()
        .insert_route(&Route::B, "/b/{x}")
        .unwrap()
        .insert_route(&Route::C, "/b/{y}/c")
        .unwrap()
        .insert_route(&Route::D, "/b/{z}/d")
        .unwrap();

    let (route_key, route_parameters) = router.parse_route("/a");
    assert_eq!(route_key.unwrap(), &Route::A);
    assert_eq!(as_map(&route_parameters), vec![].into_iter().collect());

    let (route_key, route_parameters) = router.parse_route("/b/123");
    assert_eq!(route_key.unwrap(), &Route::B);
    assert_eq!(
        as_map(&route_parameters),
        vec![("x", "123")].into_iter().collect(),
    );

    let (route_key, route_parameters) = router.parse_route("/b/456/c");
    assert_eq!(route_key.unwrap(), &Route::C);
    assert_eq!(
        as_map(&route_parameters),
        vec![("y", "456")].into_iter().collect(),
    );

    let (route_key, route_parameters) = router.parse_route("/b/789/d");
    assert_eq!(route_key.unwrap(), &Route::D);
    assert_eq!(
        as_map(&route_parameters),
        vec![("z", "789")].into_iter().collect(),
    );
}

#[test]
fn router_2() {
    let mut router = Router::new();

    router
        .insert_route("aa", "a/{a}/a")
        .unwrap()
        .insert_route("a", "a")
        .unwrap()
        .insert_route("one", "/a")
        .unwrap()
        .insert_route("two", "/a/{x}/{y}")
        .unwrap()
        .insert_route("three", "/c/{x}")
        .unwrap()
        .insert_route("four", "/c/{y}/{z}/")
        .unwrap();

    let (route_key, _route_parameters) = router.parse_route("/a");
    assert_eq!(route_key.unwrap(), "one");

    let (route_key, route_parameters) = router.parse_route("/a/1/2");
    assert_eq!(route_key.unwrap(), "two");
    assert_eq!(
        as_map(&route_parameters),
        vec![("x", "1"), ("y", "2"),].into_iter().collect(),
    );

    let route_key = "two";
    let route_parameters = parameters(&[("x", "1"), ("y", "2")]);
    let path = router
        .stringify_route(route_key, &route_parameters)
        .unwrap()
        .unwrap();
    assert_eq!(path, "/a/1/2");

    let (route_key, route_parameters) = router.parse_route("/c/3");
    assert_eq!(route_key.unwrap(), "three");
    assert_eq!(
        as_map(&route_parameters),
        vec![("x", "3"),].into_iter().collect(),
    );

    let (route_key, route_parameters) = router.parse_route("/c/3/4");
    assert_eq!(route_key.unwrap(), "three");
    assert_eq!(
        as_map(&route_parameters),
        vec![("x", "3/4"),].into_iter().collect(),
    );

    let route_key = "three";
    let route_parameters = parameters(&[("x", "3/4")]);
    let path = router
        .stringify_route(route_key, &route_parameters)
        .unwrap()
        .unwrap();
    assert_eq!(path, "/c/3%2F4");

    let (route_key, route_parameters) = router.parse_route("/c/3/4/");
    assert_eq!(route_key.unwrap(), "four");
    assert_eq!(
        as_map(&route_parameters),
        vec![("y", "3"), ("z", "4"),].into_iter().collect(),
    );
}

#[test]
fn parameter_values_are_encoded_and_decoded() {
    assert_eq!(parameter_encoder("3/4"), "3%2F4");
    assert_eq!(parameter_encoder("a-b_c.d~e"), "a-b_c.d~e");
    assert_eq!(parameter_encoder("é"), "%C3%A9");
    assert_eq!(parameter_decoder("3%2F4"), "3/4");
    assert_eq!(parameter_decoder("%C3%A9"), "é");
    assert_eq!(parameter_decoder("%FF"), "%FF");
    assert_eq!(parameter_decoder("plain"), "plain");
}

#[test]
fn parsed_values_are_decoded() {
    let mut router = Router::new();
    router.insert_route(1, "/c/{x}").unwrap();

    let (route_key, route_parameters) = router.parse_route("/c/3%2F4");
    assert_eq!(route_key, Some(1));
    assert_eq!(route_parameters, parameters(&[("x", "3/4")]));
}

#[test]
fn route_without_key_has_no_path() {
    let mut router = Router::new();
    router.insert_route(1, "/c/{x}").unwrap();

    assert_eq!(router.stringify_route(2, &parameters(&[("x", "1")])), Ok(None));
}

#[test]
fn route_without_value_for_a_parameter_is_an_error() {
    let mut router = Router::new();
    router.insert_route(1, "/c/{x}/{y}").unwrap();

    assert_eq!(
        router.stringify_route(1, &parameters(&[("x", "1")])),
        Err(RouteError::MissingParameterValue)
    );
    assert_eq!(
        router.stringify_route(1, &parameters(&[("y", "2"), ("x", "0"), ("x", "1")])),
        Ok(Some("/c/1/2".to_string()))
    );
}

#[test]
fn second_route_for_a_template_is_refused() {
    let mut router = Router::new();
    router.insert_route(1, "/c/{x}").unwrap();

    assert_eq!(router.insert_route(2, "/c/{y}").err(), Some(RouteError::AmbiguousRoute));
    assert_eq!(router.insert_route(1, "/c/{x}").err(), Some(RouteError::AmbiguousRoute));
    assert_eq!(router.parse_route("/c/7"), (Some(1), parameters(&[("x", "7")])));
}

#[test]
fn maximum_parameter_value_length_is_applied() {
    let mut router = Router::new();
    router.insert_route(1, "/a/{x}/b").unwrap();

    assert_eq!(router.parse_route("/a/123456789012345678901/b").0, None);
    router.set_maximum_parameter_value_length(21);
    assert_eq!(router.parse_route("/a/123456789012345678901/b").0, Some(1));
}

#[test]
fn placeholder_pattern_can_be_replaced() {
    let mut router = Router::new();
    router
        .set_parameter_placeholder_re(regex::Regex::new(":([a-z]+)").unwrap())
        .set_maximum_parameter_value_length(5)
        .insert_route(1, "/a/:x/b")
        .unwrap();

    assert_eq!(router.parse_route("/a/7/b"), (Some(1), parameters(&[("x", "7")])));
}

#[test]
fn encoder_and_decoder_can_be_given() {
    let mut router = Router::new();
    router.insert_route(1, "/c/{x}/{y}").unwrap();

    let (route_key, route_parameters) =
        router.parse_route_with("/c/ab/cd", |value: &str| value.to_uppercase());
    assert_eq!(route_key, Some(1));
    assert_eq!(route_parameters, parameters(&[("x", "AB"), ("y", "CD")]));

    let path = router.stringify_route_with(
        1,
        &parameters(&[("x", "a/b"), ("y", "c")]),
        |value: &str| value.replace('/', "-"),
    );
    assert_eq!(path, Ok(Some("/c/a-b/c".to_string())));
    assert_eq!(
        router.stringify_route_with(1, &parameters(&[("x", "a")]), |value: &str| value.to_string()),
        Err(RouteError::MissingParameterValue)
    );
}

#[test]
fn encoded_value_decodes_to_the_value() {
    for value in ["", "plain", "3/4", "a b+c", "100%", "%41", "é ü/ß", "~-_.", "%zz%"] {
        assert_eq!(parameter_decoder(&parameter_encoder(value)), value);
    }

    let mut router = Router::new();
    router.insert_route(1, "/c/{x}/{y}").unwrap();
    let path = router
        .stringify_route(1, &parameters(&[("x", "3/4"), ("y", "100%")]))
        .unwrap()
        .unwrap();
    assert_eq!(path, "/c/3%2F4/100%25");
    assert_eq!(
        router.parse_route(&path),
        (Some(1), parameters(&[("x", "3/4"), ("y", "100%")]))
    );
}

#[test]
fn placeholder_pattern_is_a_name_in_braces() {
    assert_eq!(goodrouter::template::TEMPLATE_PLACEHOLDER_PATTERN, r"\{(.*?)\}");
    assert_eq!(
        goodrouter::template::template_placeholder_regex().as_str(),
        goodrouter::template::TEMPLATE_PLACEHOLDER_PATTERN
    );
}

#[test]
fn routers_with_the_same_routes_match_alike() {
    let routes = [(1, "/a"), (2, "/b/{x}"), (3, "/b/{x}/c"), (4, "/ab/{y}"), (5, "{z}")];
    let paths = ["/a", "/b/1", "/b/1/c", "/ab/2", "zz", "/b/", "", "/b/1/c/d"];

    let mut forward = Router::new();
    for (key, template) in routes {
        forward.insert_route(key, template).unwrap();
    }
    let mut backward = Router::new();
    for (key, template) in routes.iter().rev() {
        backward.insert_route(*key, template).unwrap();
    }

    for path in paths {
        assert_eq!(forward.parse_route(path), backward.parse_route(path));
    }
}
