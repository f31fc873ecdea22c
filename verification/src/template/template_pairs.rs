use crate::template::{placeholder_matches, PlaceholderView};
use crate::template::template_parts::{
    literal_before, name_of, parse_template_parts, template_parts, TemplateParts,
};
use regex::Regex;
use vstd::prelude::*;

verus! {

/// The fragments of a template: the literal text in front of the first placeholder alone,
/// then for each placeholder its name with the literal text that follows it.
pub open spec fn template_pairs(template: Seq<char>, placeholders: Seq<PlaceholderView>) -> Seq<
    (Seq<char>, Option<Seq<char>>),
> {
    Seq::new(
        placeholders.len() + 1,
        |i: int|
            (
                literal_before(template, placeholders, i),
                if i == 0 {
                    None
                } else {
                    Some(name_of(placeholders[i - 1]))
                },
            ),
    )
}

/// The fragments that parts make: the first part alone, then each name with the literal
/// text behind it.
pub open spec fn pairs_of_parts(parts: Seq<Seq<char>>) -> Seq<(Seq<char>, Option<Seq<char>>)> {
    Seq::new(
        ((parts.len() + 1) / 2) as nat,
        |i: int|
            (
                parts[2 * i],
                if i == 0 {
                    None
                } else {
                    Some(parts[2 * i - 1])
                },
            ),
    )
}

/// The parts of a template make its fragments.
pub proof fn lemma_pairs_of_template_parts(template: Seq<char>, placeholders: Seq<PlaceholderView>)
    ensures
        pairs_of_parts(template_parts(template, placeholders)) == template_pairs(
            template,
            placeholders,
        ),
{
    assert(pairs_of_parts(template_parts(template, placeholders)) =~= template_pairs(
        template,
        placeholders,
    ));
}

/// A fragment as mathematical values.
pub open spec fn pair_view(pair: (String, Option<String>)) -> (Seq<char>, Option<Seq<char>>) {
    (
        pair.0@,
        match pair.1 {
            Some(name) => Some(name@),
            None => None,
        },
    )
}

/// Fragments as mathematical values: each the literal text and, for all but the first, the
/// name of the parameter in front of it.
pub open spec fn pairs_view(pairs: Seq<(String, Option<String>)>) -> Seq<
    (Seq<char>, Option<Seq<char>>),
> {
    pairs.map_values(|pair: (String, Option<String>)| pair_view(pair))
}

/// The fragments of a template, handed out one by one.
pub struct TemplatePairs {
    parts: TemplateParts,
    index: usize,
    is_finished: bool,
}

impl TemplatePairs {
    /// Every fragment, handed out or not.
    pub closed spec fn pairs(&self) -> Seq<(Seq<char>, Option<Seq<char>>)> {
        pairs_of_parts(self.parts.parts())
    }

    /// How many fragments were handed out.
    pub closed spec fn position(&self) -> int {
        self.index as int
    }

    /// The invariant: the parts are handed out in step with the fragments.
    pub closed spec fn wf(&self) -> bool {
        &&& self.parts.wf()
        &&& self.parts.parts().len() % 2 == 1
        &&& self.parts.position() == (if self.index == 0 {
            0
        } else {
            2 * self.index - 1
        })
        &&& self.parts.position() <= self.parts.parts().len()
        &&& self.is_finished ==> self.parts.position() == self.parts.parts().len()
    }

    /// The fragments that `parts` make, none of which was handed out.
    pub fn new(parts: TemplateParts) -> (pairs: Self)
        requires
            parts.wf(),
            parts.position() == 0,
            parts.parts().len() % 2 == 1,
        ensures
            pairs.wf(),
            pairs.position() == 0,
            pairs.pairs() == pairs_of_parts(parts.parts()),
    {
        TemplatePairs { parts, index: 0, is_finished: false }
    }

    /// The next fragment, if any is left.
    pub fn next(&mut self) -> (pair: Option<(String, Option<String>)>)
        requires
            old(self).wf(),
        ensures
            final(self).wf(),
            final(self).pairs() == old(self).pairs(),
            match pair {
                Some(pair) => old(self).position() < old(self).pairs().len() && pair_view(pair)
                    == old(self).pairs()[old(self).position()] && final(self).position()
                    == old(self).position() + 1,
                None => old(self).position() == old(self).pairs().len() && final(self).position()
                    == old(self).position(),
            },
    {
        if self.is_finished {
            return None;
        }
        let result = match self.parts.next() {
            Some(part) => {
                if self.index == 0 {
                    Some((part, None))
                } else {
                    match self.parts.next() {
                        Some(anchor) => Some((anchor, Some(part))),
                        None => None,
                    }
                }
            },
            None => None,
        };
        if result.is_none() {
            self.is_finished = true;
        } else {
            self.index += 1;
        }
        result
    }

    /// The fragments that are left, in their order.
    pub fn collect(self) -> (pairs: Vec<(String, Option<String>)>)
        requires
            self.wf(),
        ensures
            pairs_view(pairs@) == self.pairs().skip(self.position()),
    {
        let mut rest = self;
        let mut pairs: Vec<(String, Option<String>)> = Vec::new();
        loop
            invariant
                rest.wf(),
                rest.pairs() == self.pairs(),
                self.position() <= rest.position() <= rest.pairs().len(),
                pairs@.len() == rest.position() - self.position(),
                forall|i: int|
                    0 <= i < pairs@.len() ==> pair_view(#[trigger] pairs@[i])
                        == self.pairs()[self.position() + i],
            decreases rest.pairs().len() - rest.position(),
        {
            match rest.next() {
                Some(pair) => {
                    pairs.push(pair);
                },
                None => {
                    assert(pairs_view(pairs@) =~= self.pairs().skip(self.position()));
                    return pairs;
                },
            }
        }
    }
}

/// The fragments of `template`, with `re` as the pattern of a placeholder.
pub fn parse_template_pairs(template: &str, re: &Regex) -> (pairs: TemplatePairs)
    ensures
        pairs.wf(),
        pairs.position() == 0,
        pairs.pairs() == template_pairs(template@, placeholder_matches(*re, template@)),
{
    let parts = parse_template_parts(template, re);
    proof {
        lemma_pairs_of_template_parts(template@, placeholder_matches(*re, template@));
    }
    TemplatePairs::new(parts)
}

} // verus!
