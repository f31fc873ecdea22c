use crate::template::{
    find_placeholders, placeholder_matches, placeholders_view, well_placed, Placeholder,
    PlaceholderView,
};
use regex::Regex;
use vstd::prelude::*;
use vstd::string::StringSliceAdditionalSpecFns;
use vstd::utf8::{
    decode_utf8, encode_utf8, encode_utf8_decode_utf8, encode_utf8_valid_utf8, is_char_boundary,
    is_char_boundary_iff_not_is_continuation_byte, is_char_boundary_start_end_of_seq,
    valid_utf8_split,
};

verus! {

/// The text of `template` from byte `from` up to byte `to`.
pub open spec fn text_between(template: Seq<char>, from: int, to: int) -> Seq<char> {
    decode_utf8(encode_utf8(template).subrange(from, to))
}

/// The literal text in front of placeholder `i`; for `i` the number of placeholders, the
/// text behind the last.
pub open spec fn literal_before(
    template: Seq<char>,
    placeholders: Seq<PlaceholderView>,
    i: int,
) -> Seq<char> {
    text_between(
        template,
        if i == 0 {
            0
        } else {
            placeholders[i - 1].end
        },
        if i == placeholders.len() {
            encode_utf8(template).len() as int
        } else {
            placeholders[i].start
        },
    )
}

/// The name of a placeholder; empty where the name group took no part in the match.
pub open spec fn name_of(placeholder: PlaceholderView) -> Seq<char> {
    match placeholder.name {
        Some(name) => name,
        None => Seq::empty(),
    }
}

/// The parts of a template: literal text and parameter names in turn, from the literal text
/// in front of the first placeholder to the literal text behind the last.
pub open spec fn template_parts(template: Seq<char>, placeholders: Seq<PlaceholderView>) -> Seq<
    Seq<char>,
> {
    Seq::new(
        2 * placeholders.len() + 1,
        |k: int|
            if k % 2 == 0 {
                literal_before(template, placeholders, k / 2)
            } else {
                name_of(placeholders[k / 2])
            },
    )
}

/// The text of `template` from byte `from` up to byte `to`.
fn text_between_exec(template: &str, from: usize, to: usize) -> (text: String)
    requires
        from <= to <= encode_utf8(template@).len(),
        is_char_boundary(encode_utf8(template@), from as int),
        is_char_boundary(encode_utf8(template@), to as int),
    ensures
        text@ == text_between(template@, from as int, to as int),
{
    let ghost bytes = encode_utf8(template@);
    proof {
        encode_utf8_valid_utf8(template@);
        valid_utf8_split(bytes, to as int);
        let front = bytes.subrange(0, to as int);
        if from < to {
            is_char_boundary_iff_not_is_continuation_byte(bytes, from as int);
            is_char_boundary_iff_not_is_continuation_byte(front, from as int);
        } else {
            is_char_boundary_start_end_of_seq(front);
        }
    }
    let (front, _) = template.split_at(to);
    let (_, piece) = front.split_at(from);
    proof {
        assert(piece.spec_bytes() =~= bytes.subrange(from as int, to as int));
        encode_utf8_decode_utf8(piece@);
    }
    piece.to_owned()
}

/// The parts of a template, handed out one by one.
pub struct TemplateParts {
    parts: Vec<String>,
    index: usize,
}

impl TemplateParts {
    /// Every part, handed out or not.
    pub closed spec fn parts(&self) -> Seq<Seq<char>> {
        self.parts.deep_view()
    }

    /// How many parts were handed out.
    pub closed spec fn position(&self) -> int {
        self.index as int
    }

    /// The invariant: no more parts were handed out than there are.
    pub closed spec fn wf(&self) -> bool {
        self.index <= self.parts@.len()
    }

    /// The parts of `template`, in which `placeholders` were found.
    pub fn new(template: &str, placeholders: &Vec<Placeholder>) -> (parts: Self)
        requires
            well_placed(template@, placeholders_view(placeholders@)),
        ensures
            parts.wf(),
            parts.position() == 0,
            parts.parts() == template_parts(template@, placeholders_view(placeholders@)),
    {
        let ghost found = placeholders_view(placeholders@);
        let ghost expected = template_parts(template@, found);
        let mut parts: Vec<String> = Vec::new();
        let mut part_offset: usize = 0;
        let mut i: usize = 0;
        proof {
            encode_utf8_valid_utf8(template@);
            is_char_boundary_start_end_of_seq(encode_utf8(template@));
        }
        while i < placeholders.len()
            invariant
                i <= placeholders@.len(),
                found == placeholders_view(placeholders@),
                expected == template_parts(template@, found),
                well_placed(template@, found),
                parts@.len() == 2 * i,
                forall|k: int| 0 <= k < 2 * i ==> parts@[k]@ == expected[k],
                part_offset == (if i == 0 {
                    0
                } else {
                    found[i - 1].end
                }),
                part_offset <= encode_utf8(template@).len(),
                is_char_boundary(encode_utf8(template@), part_offset as int),
            decreases placeholders@.len() - i,
        {
            let placeholder = &placeholders[i];
            proof {
                assert(found[i as int] == placeholder@);
                if i > 0 {
                    assert(found[i - 1].end <= found[i as int].start);
                }
            }
            let literal = text_between_exec(template, part_offset, placeholder.start);
            let name = match &placeholder.name {
                Some(name) => name.clone(),
                None => String::new(),
            };
            proof {
                assert(literal@ == expected[2 * i]);
                assert(name@ == expected[2 * i + 1]);
            }
            parts.push(literal);
            parts.push(name);
            part_offset = placeholder.end;
            i += 1;
        }
        proof {
            encode_utf8_valid_utf8(template@);
            is_char_boundary_start_end_of_seq(encode_utf8(template@));
        }
        let literal = text_between_exec(template, part_offset, template.as_bytes().len());
        proof {
            assert(literal@ == expected[2 * i]);
        }
        parts.push(literal);
        assert(parts.deep_view() =~= expected);
        TemplateParts { parts, index: 0 }
    }

    /// The next part, if any is left.
    pub fn next(&mut self) -> (part: Option<String>)
        requires
            old(self).wf(),
        ensures
            final(self).wf(),
            final(self).parts() == old(self).parts(),
            final(self).position() <= final(self).parts().len() <= usize::MAX,
            match part {
                Some(part) => old(self).position() < old(self).parts().len() && part@
                    == old(self).parts()[old(self).position()] && final(self).position()
                    == old(self).position() + 1,
                None => old(self).position() == old(self).parts().len() && final(self).position()
                    == old(self).position(),
            },
    {
        assert(self.parts.deep_view().len() == self.parts@.len());
        if self.index < self.parts.len() {
            let part = self.parts[self.index].clone();
            self.index += 1;
            Some(part)
        } else {
            None
        }
    }
}

/// The parts of `template`: the literal text and the parameter names in turn, with `re` as
/// the pattern of a placeholder.
pub fn parse_template_parts(template: &str, re: &Regex) -> (parts: TemplateParts)
    ensures
        parts.wf(),
        parts.position() == 0,
        parts.parts() == template_parts(template@, placeholder_matches(*re, template@)),
{
    let placeholders = find_placeholders(re, template);
    TemplateParts::new(template, &placeholders)
}

} // verus!
