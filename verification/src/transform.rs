//! The rewrite of one text.

use crate::finder::{enum_spans, find_enum_spans};
use crate::second_pass::{has_keyword, lemma_no_keyword_no_spans};
use crate::spans::{holds_enum, marks_enum, rewrite_spans, rewritten, span_fits, spans_marked};
use vstd::prelude::*;

verus! {

/// Rewrites every enum in `contents` and tells whether there was one.
///
/// The text that comes back is `contents` with each enum replaced by the
/// declarations that stand for it, and everything else as it was. Where
/// `contents` holds no enum it comes back unchanged, with `false`; it holds
/// none where the word `enum` does not stand in it.
///
/// Which stretches of `contents` are taken for enums is for the pattern to
/// say, and stands here under the name `enum_spans`. Each of them has the
/// shape that `marks_enum` describes.
pub fn transform_enums(contents: &str) -> (out: (String, bool))
    ensures
        out.0@ == rewritten(contents@, enum_spans(contents@)),
        out.1 == (enum_spans(contents@).len() > 0),
        !out.1 ==> out.0@ == contents@,
        out.1 ==> holds_enum(contents@),
        !has_keyword(contents@) ==> !out.1,
        spans_marked(contents@, enum_spans(contents@)),
{
    let spans = find_enum_spans(contents);
    proof {
        if !has_keyword(contents@) {
            lemma_no_keyword_no_spans(contents@, spans@);
        }
        if spans@.len() > 0 {
            assert(span_fits(contents@, spans@[0]) && marks_enum(contents@, spans@[0]));
        }
    }
    let text = rewrite_spans(contents, &spans);
    (text, spans.len() > 0)
}

} // verus!
