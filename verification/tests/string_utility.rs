use goodrouter::string_utility::find_common_prefix_length;

#[test]
fn common_prefix_length_test() {
    assert_eq!(
        find_common_prefix_length(
            &String::from("ab").chars().collect::<Vec<_>>(),
            &String::from("abc").chars().collect::<Vec<_>>()
        ),
        2
    );

    assert_eq!(
        find_common_prefix_length(
            &String::from("abc").chars().collect::<Vec<_>>(),
            &String::from("abc").chars().collect::<Vec<_>>()
        ),
        3
    );

    assert_eq!(
        find_common_prefix_length(
            &String::from("bc").chars().collect::<Vec<_>>(),
            &String::from("abc").chars().collect::<Vec<_>>()
        ),
        0,
    );
}

#[test]
fn string_utility_common_prefix_length_test() {
    let ab: Vec<char> = String::from("ab").chars().collect();
    let abc: Vec<char> = String::from("abc").chars().collect();
    let bc: Vec<char> = String::from("bc").chars().collect();

    assert_eq!(find_common_prefix_length(&ab, &abc), 2);
    assert_eq!(find_common_prefix_length(&abc, &abc), 3);
    assert_eq!(find_common_prefix_length(&bc, &abc), 0);
}

#[test]
fn common_prefix_length_of_empty_sequences() {
    let empty: Vec<char> = Vec::new();
    let abc: Vec<char> = "abc".chars().collect();

    assert_eq!(find_common_prefix_length(&empty, &abc), 0);
    assert_eq!(find_common_prefix_length(&abc, &empty), 0);
    assert_eq!(find_common_prefix_length(&empty, &empty), 0);
}
