use goodrouter::template::template_pairs::parse_template_pairs;
use goodrouter::template::template_parts::parse_template_parts;
use goodrouter::template::template_placeholder_regex;

fn all_parts(template: &str) -> Vec<String> {
    let re = template_placeholder_regex();
    let mut parts = parse_template_parts(template, &re);
    let mut all = Vec::new();
    while let Some(part) = parts.next() {
        all.push(part);
    }
    all
}

fn all_pairs(template: &str) -> Vec<(String, Option<String>)> {
    let re = template_placeholder_regex();
    parse_template_pairs(template, &re).collect()
}

fn pair(anchor: &str, name: Option<&str>) -> (String, Option<String>) {
    (anchor.to_string(), name.map(|name| name.to_string()))
}

#[test]
fn parse_template_parts_test() {
    let parts = all_parts("/a/{b}/{c}");

    assert_eq!(parts, vec!["/a/", "b", "/", "c", ""]);

    let parts = all_parts("/a/{b}/{c}/");

    assert_eq!(parts, vec!["/a/", "b", "/", "c", "/"]);

    let parts = all_parts("");

    assert_eq!(parts, vec![""])
}

#[test]
fn parse_template_pairs_test() {
    let pairs = all_pairs("/a/{b}/{c}");

    assert_eq!(
        pairs,
        vec![pair("/a/", None), pair("/", Some("b")), pair("", Some("c"))]
    );

    let pairs = all_pairs("/a/{b}/{c}/");

    assert_eq!(
        pairs,
        vec![pair("/a/", None), pair("/", Some("b")), pair("/", Some("c"))]
    );

    let pairs = all_pairs("");

    assert_eq!(pairs, vec![pair("", None)])
}

#[test]
fn template_without_placeholder_is_one_pair() {
    assert_eq!(all_pairs("/plain/text"), vec![pair("/plain/text", None)]);
}

#[test]
fn template_pairs_hand_out_one_by_one() {
    let re = template_placeholder_regex();
    let mut pairs = parse_template_pairs("{a}{b}", &re);

    assert_eq!(pairs.next(), Some(pair("", None)));
    assert_eq!(pairs.next(), Some(pair("", Some("a"))));
    assert_eq!(pairs.next(), Some(pair("", Some("b"))));
    assert_eq!(pairs.next(), None);
    assert_eq!(pairs.next(), None);
}

#[test]
fn template_parts_keep_characters_of_several_bytes() {
    assert_eq!(all_parts("/é/{ü}/ß"), vec!["/é/", "ü", "/ß"]);
}
