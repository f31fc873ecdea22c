pub mod template_pairs;
pub mod template_parts;

use regex::Regex;
use vstd::prelude::*;
use vstd::utf8::{encode_utf8, is_char_boundary};

verus! {

/// `regex::Regex`, a compiled pattern. Nothing inside it is seen here.
#[verifier::external_type_specification]
#[verifier::external_body]
pub struct ExRegex(Regex);

/// One placeholder found in a template: the byte range that the whole placeholder takes in
/// the template, and the text of the first capture group, the name, where that group took
/// part in the match.
pub struct Placeholder {
    pub start: usize,
    pub end: usize,
    pub name: Option<String>,
}

/// A placeholder as mathematical values.
pub ghost struct PlaceholderView {
    pub start: int,
    pub end: int,
    pub name: Option<Seq<char>>,
}

impl View for Placeholder {
    type V = PlaceholderView;

    open spec fn view(&self) -> PlaceholderView {
        PlaceholderView {
            start: self.start as int,
            end: self.end as int,
            name: match self.name {
                Some(name) => Some(name@),
                None => None,
            },
        }
    }
}

/// Placeholders as mathematical values.
pub open spec fn placeholders_view(placeholders: Seq<Placeholder>) -> Seq<PlaceholderView> {
    placeholders.map_values(|placeholder: Placeholder| placeholder@)
}

/// The placeholders lie in the template one after the other: each is a range of the
/// template's bytes that begins and ends between characters, and ends before the next begins.
pub open spec fn well_placed(template: Seq<char>, placeholders: Seq<PlaceholderView>) -> bool {
    &&& forall|i: int|
        0 <= i < placeholders.len() ==> 0 <= (#[trigger] placeholders[i]).start
            <= placeholders[i].end <= encode_utf8(template).len() && is_char_boundary(
            encode_utf8(template),
            placeholders[i].start,
        ) && is_char_boundary(encode_utf8(template), placeholders[i].end)
    &&& forall|i: int, j: int|
        0 <= i < j < placeholders.len() ==> (#[trigger] placeholders[i]).end
            <= (#[trigger] placeholders[j]).start
}

/// The matches of `re` in `template`, as `Regex::captures_iter` yields them.
pub uninterp spec fn placeholder_matches(re: Regex, template: Seq<char>) -> Seq<PlaceholderView>;

/// Calls `Regex::captures_iter` and gives, for each match in turn, the byte offsets of the
/// whole match and the text of capture group 1. Believed of it: that the same pattern finds
/// the same matches in the same text; and, as the documentation of `captures_iter` and of
/// `Match` says, that the matches come in the order of the text and do not overlap, and that
/// their offsets lie within the text, the start not behind the end, on character boundaries.
#[verifier::external_body]
pub(crate) fn find_placeholders(re: &Regex, template: &str) -> (found: Vec<Placeholder>)
    ensures
        placeholders_view(found@) == placeholder_matches(*re, template@),
        well_placed(template@, placeholders_view(found@)),
{
    re.captures_iter(template).map(
        |captures|
            Placeholder {
                start: captures.get(0).unwrap().start(),
                end: captures.get(0).unwrap().end(),
                name: captures.get(1).map(|name| name.as_str().to_string()),
            },
    ).collect()
}

/// The pattern of a placeholder: a name in braces.
pub const TEMPLATE_PLACEHOLDER_PATTERN: &'static str = r"\{(.*?)\}";

/// What `Regex::new` makes of the text of a pattern.
pub uninterp spec fn compiled(pattern: Seq<char>) -> Regex;

/// Calls `Regex::new` on the pattern of a placeholder, which is a valid pattern. Believed of
/// it: that it makes the same of the same text each time.
#[verifier::external_body]
fn compile_placeholder_pattern(pattern: &str) -> (re: Regex)
    requires
        pattern@ == TEMPLATE_PLACEHOLDER_PATTERN@,
    ensures
        re == compiled(pattern@),
{
    Regex::new(pattern).unwrap()
}

/// The compiled pattern of a placeholder: a name in braces.
pub fn template_placeholder_regex() -> (re: Regex)
    ensures
        re == compiled(TEMPLATE_PLACEHOLDER_PATTERN@),
{
    compile_placeholder_pattern(TEMPLATE_PLACEHOLDER_PATTERN)
}

} // verus!
