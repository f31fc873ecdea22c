use vstd::prelude::*;

verus! {

/// `String::push` appends one character to the end of the string.
pub assume_specification[ String::push ](text: &mut String, character: char)
    ensures
        final(text)@ == old(text)@.push(character),
;

/// The characters of `text`.
pub fn chars_of(text: &str) -> (chars: Vec<char>)
    ensures
        chars@ == text@,
{
    let mut chars: Vec<char> = Vec::new();
    for character in it: text.chars()
        invariant
            it.seq() == text@,
            chars@ == it.seq().take(it.index()),
    {
        chars.push(character);
    }
    chars
}

/// The string that holds `chars`.
pub fn string_of(chars: &[char]) -> (text: String)
    ensures
        text@ == chars@,
{
    let mut text = String::new();
    let mut i: usize = 0;
    while i < chars.len()
        invariant
            i <= chars@.len(),
            text@ == chars@.take(i as int),
        decreases chars@.len() - i,
    {
        text.push(chars[i]);
        proof {
            assert(chars@.take(i + 1) =~= chars@.take(i as int).push(chars@[i as int]));
        }
        i += 1;
    }
    text
}

/// The texts that a list of character vectors holds.
pub open spec fn texts(values: Seq<Vec<char>>) -> Seq<Seq<char>> {
    values.map_values(|value: Vec<char>| value@)
}

/// The strings that hold the values of `values`, each in its place.
pub fn strings_of(values: &Vec<Vec<char>>) -> (strings: Vec<String>)
    ensures
        strings.deep_view() == texts(values@),
{
    let mut strings: Vec<String> = Vec::new();
    let mut i: usize = 0;
    while i < values.len()
        invariant
            i <= values@.len(),
            strings@.len() == i,
            forall|j: int| 0 <= j < i ==> strings@[j]@ == values@[j]@,
        decreases values@.len() - i,
    {
        strings.push(string_of(values[i].as_slice()));
        i += 1;
    }
    assert(strings.deep_view() =~= texts(values@));
    strings
}

/// The characters of each of `strings`, each in its place.
pub fn chars_of_each(strings: &Vec<String>) -> (values: Vec<Vec<char>>)
    ensures
        texts(values@) == strings.deep_view(),
{
    let mut values: Vec<Vec<char>> = Vec::new();
    let mut i: usize = 0;
    while i < strings.len()
        invariant
            i <= strings@.len(),
            values@.len() == i,
            forall|j: int| 0 <= j < i ==> values@[j]@ == strings@[j]@,
        decreases strings@.len() - i,
    {
        values.push(chars_of(strings[i].as_str()));
        i += 1;
    }
    assert(texts(values@) =~= strings.deep_view());
    values
}

/// A copy of `strings`.
pub fn copy_strings(strings: &Vec<String>) -> (copy: Vec<String>)
    ensures
        copy.deep_view() == strings.deep_view(),
{
    let mut copy: Vec<String> = Vec::new();
    let mut i: usize = 0;
    while i < strings.len()
        invariant
            i <= strings@.len(),
            copy@.len() == i,
            forall|j: int| 0 <= j < i ==> copy@[j]@ == strings@[j]@,
        decreases strings@.len() - i,
    {
        copy.push(strings[i].clone());
        i += 1;
    }
    assert(copy.deep_view() =~= strings.deep_view());
    copy
}

/// Number of leading positions at which `left` and `right` hold the same character.
pub open spec fn common_prefix_length(left: Seq<char>, right: Seq<char>) -> nat
    decreases left.len(),
{
    if left.len() > 0 && right.len() > 0 && left[0] == right[0] {
        1 + common_prefix_length(left.drop_first(), right.drop_first())
    } else {
        0
    }
}

/// The common prefix length is the one index `n` up to which both sequences agree
/// and at which one of them ends or the two differ.
pub proof fn lemma_common_prefix_length(left: Seq<char>, right: Seq<char>)
    ensures
        common_prefix_length(left, right) <= left.len(),
        common_prefix_length(left, right) <= right.len(),
        left.subrange(0, common_prefix_length(left, right) as int) == right.subrange(
            0,
            common_prefix_length(left, right) as int,
        ),
        common_prefix_length(left, right) == left.len() || common_prefix_length(left, right)
            == right.len() || left[common_prefix_length(left, right) as int]
            != right[common_prefix_length(left, right) as int],
    decreases left.len(),
{
    if left.len() > 0 && right.len() > 0 && left[0] == right[0] {
        let l = left.drop_first();
        let r = right.drop_first();
        lemma_common_prefix_length(l, r);
        let n = common_prefix_length(l, r) as int;
        assert(left.subrange(0, n + 1) =~= seq![left[0]] + l.subrange(0, n));
        assert(right.subrange(0, n + 1) =~= seq![right[0]] + r.subrange(0, n));
    } else {
        assert(left.subrange(0, 0) =~= right.subrange(0, 0));
    }
}

/// Any index up to which both sequences agree, and at which one of them ends or the two
/// differ, is the common prefix length.
pub proof fn lemma_common_prefix_length_unique(left: Seq<char>, right: Seq<char>, n: int)
    requires
        0 <= n <= left.len(),
        n <= right.len(),
        forall|i: int| 0 <= i < n ==> left[i] == right[i],
        n == left.len() || n == right.len() || left[n] != right[n],
    ensures
        common_prefix_length(left, right) == n,
    decreases left.len(),
{
    if n > 0 {
        let l = left.drop_first();
        let r = right.drop_first();
        assert(left[0] == right[0]);
        assert forall|i: int| 0 <= i < n - 1 implies l[i] == r[i] by {
            assert(left[i + 1] == right[i + 1]);
        }
        lemma_common_prefix_length_unique(l, r, n - 1);
    }
}

/// The common prefix length of two sequences does not depend on their order.
pub proof fn lemma_common_prefix_length_symmetric(left: Seq<char>, right: Seq<char>)
    ensures
        common_prefix_length(left, right) == common_prefix_length(right, left),
    decreases left.len(),
{
    if left.len() > 0 && right.len() > 0 && left[0] == right[0] {
        lemma_common_prefix_length_symmetric(left.drop_first(), right.drop_first());
    }
}

/// Length of the longest common prefix of two character slices.
pub fn find_common_prefix_length(chars_left: &[char], chars_right: &[char]) -> (length: usize)
    ensures
        length == common_prefix_length(chars_left@, chars_right@),
{
    let common_length = if chars_left.len() < chars_right.len() {
        chars_left.len()
    } else {
        chars_right.len()
    };
    let mut index: usize = 0;
    while index < common_length && chars_left[index] == chars_right[index]
        invariant
            index <= common_length,
            common_length <= chars_left@.len(),
            common_length <= chars_right@.len(),
            forall|i: int| 0 <= i < index ==> chars_left@[i] == chars_right@[i],
        decreases common_length - index,
    {
        index += 1;
    }
    proof {
        lemma_common_prefix_length_unique(chars_left@, chars_right@, index as int);
    }
    index
}

/// Whether `needle` stands in `haystack` at position `at`.
pub open spec fn occurs_at(haystack: Seq<char>, needle: Seq<char>, at: int) -> bool {
    0 <= at && at + needle.len() <= haystack.len() && haystack.subrange(at, at + needle.len())
        == needle
}

/// The first position, from `from` on, at which `needle` stands in `haystack`.
pub open spec fn first_occurrence_from(haystack: Seq<char>, needle: Seq<char>, from: int) -> Option<
    int,
>
    decreases haystack.len() + 1 - from,
{
    if from < 0 || from + needle.len() > haystack.len() {
        None
    } else if occurs_at(haystack, needle, from) {
        Some(from)
    } else {
        first_occurrence_from(haystack, needle, from + 1)
    }
}

/// The first position at which `needle` stands in `haystack`.
pub open spec fn first_occurrence(haystack: Seq<char>, needle: Seq<char>) -> Option<int> {
    first_occurrence_from(haystack, needle, 0)
}

/// What `first_occurrence_from` gives is an occurrence before which, from `from` on, there
/// is none; and it gives one wherever there is one.
pub proof fn lemma_first_occurrence_from(haystack: Seq<char>, needle: Seq<char>, from: int)
    requires
        0 <= from,
    ensures
        match first_occurrence_from(haystack, needle, from) {
            Some(at) => from <= at && occurs_at(haystack, needle, at) && forall|i: int|
                from <= i < at ==> !occurs_at(haystack, needle, i),
            None => forall|i: int| from <= i ==> !occurs_at(haystack, needle, i),
        },
    decreases haystack.len() + 1 - from,
{
    if from + needle.len() <= haystack.len() && !occurs_at(haystack, needle, from) {
        lemma_first_occurrence_from(haystack, needle, from + 1);
    }
}

/// Whether `needle` stands in `haystack` at position `at`.
pub fn occurs_at_exec(haystack: &[char], needle: &[char], at: usize) -> (occurs: bool)
    requires
        at + needle@.len() <= haystack@.len(),
    ensures
        occurs == occurs_at(haystack@, needle@, at as int),
{
    let length = haystack.len();
    let mut i: usize = 0;
    while i < needle.len() && haystack[at + i] == needle[i]
        invariant
            i <= needle@.len(),
            at + needle@.len() <= haystack@.len(),
            haystack@.len() == length,
            forall|j: int| 0 <= j < i ==> haystack@[at + j] == needle@[j],
        decreases needle@.len() - i,
    {
        i += 1;
    }
    proof {
        let window = haystack@.subrange(at as int, at + needle@.len());
        if i == needle@.len() {
            assert(window =~= needle@);
        } else {
            assert(window[i as int] != needle@[i as int]);
        }
    }
    i == needle.len()
}

/// Whether `path` begins with `prefix`.
pub fn starts_with(path: &[char], prefix: &[char]) -> (starts: bool)
    ensures
        starts == prefix@.is_prefix_of(path@),
{
    if prefix.len() > path.len() {
        return false;
    }
    let occurs = occurs_at_exec(path, prefix, 0);
    proof {
        assert(occurs_at(path@, prefix@, 0) == prefix@.is_prefix_of(path@)) by {
            if prefix@.is_prefix_of(path@) {
                assert(path@.subrange(0, prefix@.len() as int) =~= prefix@);
            }
        }
    }
    occurs
}

/// Looks for `needle` in the first `window` characters of `haystack` and gives the first
/// position at which it stands there. No character of `haystack` from position `window` on
/// is read, and none bears on the result.
pub fn find_in_window(haystack: &[char], needle: &[char], window: usize) -> (found: Option<usize>)
    requires
        window <= haystack@.len(),
    ensures
        match found {
            Some(at) => first_occurrence(haystack@.take(window as int), needle@) == Some(
                at as int,
            ) && at + needle@.len() <= window,
            None => first_occurrence(haystack@.take(window as int), needle@) is None,
        },
{
    let bounded = vstd::slice::slice_subrange(haystack, 0, window);
    if needle.len() > window {
        return None;
    }
    let last = window - needle.len();
    let mut at: usize = 0;
    loop
        invariant
            at <= last,
            last + needle@.len() == window,
            window == bounded@.len(),
            bounded@ == haystack@.take(window as int),
            first_occurrence(bounded@, needle@) == first_occurrence_from(
                bounded@,
                needle@,
                at as int,
            ),
        decreases last - at,
    {
        if occurs_at_exec(bounded, needle, at) {
            return Some(at);
        }
        if at == last {
            assert(first_occurrence_from(bounded@, needle@, at + 1) is None);
            return None;
        }
        at += 1;
    }
}

} // verus!
