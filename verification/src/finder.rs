//! Finding the enums in a text, with the `regex` crate.

use crate::spans::{spans_marked, EnumSpan};
use vstd::prelude::*;

verus! {

/// The enums that stand in `text`, in the order of the text: the successive
/// matches, none overlapping another, of the pattern
/// `enum\s+(\w+)\s+\{([^}]+)\}`, as the `regex` crate finds them. The first
/// group of the pattern is the enum's name, the second its body.
pub uninterp spec fn enum_spans(text: Seq<char>) -> Seq<EnumSpan>;

/// Finds the enums in `text` with the `regex` crate: the pattern is compiled
/// by `Regex::new`, the matches come from `Regex::captures_iter`, and the
/// positions of each match and of its two groups from `Captures::get`,
/// `Match::start` and `Match::end`.
///
/// Nothing here is proved. The contract gives the spans that come back a
/// name, and claims of them what `regex` documents of every match and of
/// every group of one: it starts no later than it ends, both positions are
/// byte offsets into the text that fall between two characters, and a match
/// starts no earlier than the match before it has ended. It claims too that
/// every match has the shape that the pattern gives it, as far as
/// `marks_enum` states it: `\s+` stands for one or more characters of white
/// space, `[^}]+` for one or more characters other than `}`, and a group for
/// what its inside has matched. Of `\w+` it claims only that it has matched
/// one character or more. The pattern is well formed, and both of its groups
/// take part in every match.
#[verifier::external_body]
pub(crate) fn find_enum_spans(text: &str) -> (found: Vec<EnumSpan>)
    ensures
        found@ == enum_spans(text@),
        spans_marked(text@, found@),
{
    let pattern = regex::Regex::new(r"enum\s+(\w+)\s+\{([^}]+)\}").unwrap();
    let mut found = Vec::new();
    for groups in pattern.captures_iter(text) {
        let (whole, name, body) =
            (groups.get(0).unwrap(), groups.get(1).unwrap(), groups.get(2).unwrap());
        found.push(EnumSpan {
            start: whole.start(),
            end: whole.end(),
            name_start: name.start(),
            name_end: name.end(),
            body_start: body.start(),
            body_end: body.end(),
        });
    }
    found
}

} // verus!
