//! Where the enums stand in a text, and the rewrite of a text whose enums
//! have been found.

use crate::entries::{entries, rendered, rewrite_enum};
use crate::text::all_space;
use vstd::prelude::*;
use vstd::string::{StringExecFns, StringSliceAdditionalSpecFns};
use vstd::utf8::{
    decode_utf8, decode_utf8_split, encode_utf8, encode_utf8_decode_utf8, encode_utf8_valid_utf8,
    is_char_boundary, is_char_boundary_iff_not_is_continuation_byte,
    is_char_boundary_start_end_of_seq, valid_utf8, valid_utf8_split,
};

verus! {

/// Where one enum stands in a text: the whole of it, its name and its body,
/// each from a first byte up to, not including, a last one. The positions
/// count the bytes of the text's UTF-8 form.
#[derive(Clone, Copy, Debug, PartialEq, Eq)]
pub struct EnumSpan {
    pub start: usize,
    pub end: usize,
    pub name_start: usize,
    pub name_end: usize,
    pub body_start: usize,
    pub body_end: usize,
}

/// Whether the bytes `from..to` of `text` are a piece of it: a range that
/// cuts no character in two.
pub open spec fn is_piece(text: Seq<char>, from: int, to: int) -> bool {
    &&& 0 <= from <= to <= encode_utf8(text).len()
    &&& is_char_boundary(encode_utf8(text), from)
    &&& is_char_boundary(encode_utf8(text), to)
}

/// The characters that the bytes `from..to` of `text` spell.
pub open spec fn piece(text: Seq<char>, from: int, to: int) -> Seq<char> {
    decode_utf8(encode_utf8(text).subrange(from, to))
}

/// Whether the three ranges of `span` are pieces of `text`.
pub open spec fn span_fits(text: Seq<char>, span: EnumSpan) -> bool {
    &&& is_piece(text, span.start as int, span.end as int)
    &&& is_piece(text, span.name_start as int, span.name_end as int)
    &&& is_piece(text, span.body_start as int, span.body_end as int)
}

/// Whether `spans` can be rewritten in `text`: each of them fits, and each
/// begins where the one before it has ended, or later.
pub open spec fn spans_fit(text: Seq<char>, spans: Seq<EnumSpan>) -> bool {
    &&& forall|i: int| 0 <= i < spans.len() ==> span_fits(text, #[trigger] spans[i])
    &&& forall|i: int| 0 < i < spans.len() ==> spans[i - 1].end <= (#[trigger] spans[i]).start
}

/// Where the text before span `k` begins that belongs to no span: at the end
/// of the span before it, or at the start of the text.
pub open spec fn gap_start(spans: Seq<EnumSpan>, k: int) -> int {
    if k <= 0 {
        0
    } else {
        spans[k - 1].end as int
    }
}

/// Where the text before span `k` ends that belongs to no span: at the
/// start of span `k`, or at the end of the text where `k` counts the spans.
pub open spec fn gap_end(text: Seq<char>, spans: Seq<EnumSpan>, k: int) -> int {
    if k < spans.len() {
        spans[k].start as int
    } else {
        encode_utf8(text).len() as int
    }
}

/// The text before span `k` that belongs to no span. Where `k` counts the
/// spans, it is the text behind the last of them.
pub open spec fn gap(text: Seq<char>, spans: Seq<EnumSpan>, k: int) -> Seq<char> {
    piece(text, gap_start(spans, k), gap_end(text, spans, k))
}

/// The name of the enum that `span` marks.
pub open spec fn name_of(text: Seq<char>, span: EnumSpan) -> Seq<char> {
    piece(text, span.name_start as int, span.name_end as int)
}

/// The body of the enum that `span` marks.
pub open spec fn body_of(text: Seq<char>, span: EnumSpan) -> Seq<char> {
    piece(text, span.body_start as int, span.body_end as int)
}

/// The text of an enum: the word `enum`, white space, the name, white
/// space, and the body between braces.
pub open spec fn enum_text(
    lead: Seq<char>,
    name: Seq<char>,
    mid: Seq<char>,
    body: Seq<char>,
) -> Seq<char> {
    "enum"@ + lead + name + mid + "{"@ + body + "}"@
}

/// Whether `span` marks an enum in `text`: what it marks is the text of an
/// enum with the name and the body of the span, with at least one character
/// of white space behind the word `enum` and behind the name. Neither the
/// name nor the body is empty, and the body ends before the first closing
/// brace.
pub open spec fn marks_enum(text: Seq<char>, span: EnumSpan) -> bool {
    let name = name_of(text, span);
    let body = body_of(text, span);
    &&& name.len() > 0
    &&& body.len() > 0
    &&& !body.contains('}')
    &&& exists|lead: Seq<char>, mid: Seq<char>|
        lead.len() > 0 && all_space(lead) && mid.len() > 0 && all_space(mid) && piece(
            text,
            span.start as int,
            span.end as int,
        ) == #[trigger] enum_text(lead, name, mid, body)
}

/// Whether an enum stands somewhere in `text`.
pub open spec fn holds_enum(text: Seq<char>) -> bool {
    exists|span: EnumSpan| span_fits(text, span) && #[trigger] marks_enum(text, span)
}

/// Whether `spans` mark enums in `text`, one after the other: they can be
/// rewritten in it, and each of them marks an enum.
pub open spec fn spans_marked(text: Seq<char>, spans: Seq<EnumSpan>) -> bool {
    &&& spans_fit(text, spans)
    &&& forall|i: int| 0 <= i < spans.len() ==> marks_enum(text, #[trigger] spans[i])
}

/// What stands in place of `span` after the rewrite.
pub open spec fn replacement(text: Seq<char>, span: EnumSpan) -> Seq<char> {
    rendered(name_of(text, span), body_of(text, span))
}

/// The rewrite of `text` up to the end of its first `k` spans: before each
/// of them the text that belongs to no span, as it was, and then what stands
/// in place of the span.
pub open spec fn rewritten_upto(text: Seq<char>, spans: Seq<EnumSpan>, k: nat) -> Seq<char>
    decreases k,
{
    if k == 0 {
        Seq::empty()
    } else {
        rewritten_upto(text, spans, (k - 1) as nat) + gap(text, spans, k - 1) + replacement(
            text,
            spans[k - 1],
        )
    }
}

/// The rewrite of `text`: every span replaced, and all text outside the
/// spans as it was.
pub open spec fn rewritten(text: Seq<char>, spans: Seq<EnumSpan>) -> Seq<char> {
    rewritten_upto(text, spans, spans.len()) + gap(text, spans, spans.len() as int)
}

/// The text up to the end of its first `k` spans, put together from the same
/// pieces as the rewrite, but with each span standing for itself.
pub open spec fn kept_upto(text: Seq<char>, spans: Seq<EnumSpan>, k: nat) -> Seq<char>
    decreases k,
{
    if k == 0 {
        Seq::empty()
    } else {
        kept_upto(text, spans, (k - 1) as nat) + gap(text, spans, k - 1) + piece(
            text,
            spans[k - 1].start as int,
            spans[k - 1].end as int,
        )
    }
}

/// A piece that ends at `to` is also a piece of the text up to `to`.
proof fn lemma_boundary_in_prefix(bytes: Seq<u8>, from: int, to: int)
    requires
        valid_utf8(bytes),
        0 <= from <= to <= bytes.len(),
        is_char_boundary(bytes, from),
        is_char_boundary(bytes, to),
    ensures
        valid_utf8(bytes.subrange(0, to)),
        is_char_boundary(bytes.subrange(0, to), from),
{
    let prefix = bytes.subrange(0, to);
    valid_utf8_split(bytes, to);
    if from == to {
        is_char_boundary_start_end_of_seq(prefix);
    } else {
        is_char_boundary_iff_not_is_continuation_byte(bytes, from);
        is_char_boundary_iff_not_is_continuation_byte(prefix, from);
    }
}

/// A piece of a piece is a piece.
proof fn lemma_boundary_in_piece(bytes: Seq<u8>, from: int, at: int, to: int)
    requires
        valid_utf8(bytes),
        0 <= from <= at <= to <= bytes.len(),
        is_char_boundary(bytes, from),
        is_char_boundary(bytes, at),
        is_char_boundary(bytes, to),
    ensures
        valid_utf8(bytes.subrange(from, to)),
        is_char_boundary(bytes.subrange(from, to), at - from),
{
    let upto = bytes.subrange(0, to);
    let part = bytes.subrange(from, to);
    lemma_boundary_in_prefix(bytes, from, to);
    valid_utf8_split(upto, from);
    assert(upto.subrange(from, upto.len() as int) == part);
    if at == to {
        is_char_boundary_start_end_of_seq(part);
    } else if at > from {
        is_char_boundary_iff_not_is_continuation_byte(bytes, at);
        is_char_boundary_iff_not_is_continuation_byte(part, at - from);
    }
}

/// Two pieces that meet make one piece.
pub proof fn lemma_pieces_meet(text: Seq<char>, from: int, at: int, to: int)
    requires
        is_piece(text, from, at),
        is_piece(text, at, to),
    ensures
        is_piece(text, from, to),
        piece(text, from, at) + piece(text, at, to) == piece(text, from, to),
{
    let bytes = encode_utf8(text);
    let part = bytes.subrange(from, to);
    encode_utf8_valid_utf8(text);
    lemma_boundary_in_piece(bytes, from, at, to);
    decode_utf8_split(part, at - from);
    assert(part.subrange(0, at - from) == bytes.subrange(from, at));
    assert(part.subrange(at - from, part.len() as int) == bytes.subrange(at, to));
}

/// Up to the end of span `k`, the spans and the text between them make up
/// the text.
proof fn lemma_kept_upto(text: Seq<char>, spans: Seq<EnumSpan>, k: nat)
    requires
        spans_fit(text, spans),
        k <= spans.len(),
    ensures
        is_piece(text, 0, gap_start(spans, k as int)),
        kept_upto(text, spans, k) == piece(text, 0, gap_start(spans, k as int)),
    decreases k,
{
    let bytes = encode_utf8(text);
    encode_utf8_valid_utf8(text);
    if k == 0 {
        assert(bytes.subrange(0, 0) == Seq::<u8>::empty());
    } else {
        let span = spans[k - 1];
        let from = gap_start(spans, k - 1);
        lemma_kept_upto(text, spans, (k - 1) as nat);
        assert(span_fits(text, span));
        if k > 1 {
            assert(spans[k - 2].end <= spans[k - 1].start);
        }
        lemma_pieces_meet(text, 0, from, span.start as int);
        lemma_pieces_meet(text, 0, span.start as int, span.end as int);
    }
}

/// The spans and the text between them make up the whole text, each byte
/// once: what the rewrite keeps is all the text that belongs to no span.
pub proof fn lemma_spans_and_gaps_make_text(text: Seq<char>, spans: Seq<EnumSpan>)
    requires
        spans_fit(text, spans),
    ensures
        kept_upto(text, spans, spans.len()) + gap(text, spans, spans.len() as int) == text,
{
    let bytes = encode_utf8(text);
    encode_utf8_valid_utf8(text);
    is_char_boundary_start_end_of_seq(bytes);
    lemma_kept_upto(text, spans, spans.len());
    let last = gap_start(spans, spans.len() as int);
    if spans.len() > 0 {
        assert(span_fits(text, spans[spans.len() - 1]));
    }
    lemma_pieces_meet(text, 0, last, bytes.len() as int);
    assert(bytes.subrange(0, bytes.len() as int) == bytes);
    encode_utf8_decode_utf8(text);
}

/// Whether span `k` of one text and span `k` of another mark the same enum
/// after the same text: the text before them that belongs to no span is the
/// same, and so are the names and the entries of the bodies.
pub open spec fn same_enum_at(
    text: Seq<char>,
    spans: Seq<EnumSpan>,
    other_text: Seq<char>,
    other_spans: Seq<EnumSpan>,
    k: int,
) -> bool {
    &&& gap(text, spans, k) == gap(other_text, other_spans, k)
    &&& name_of(text, spans[k]) == name_of(other_text, other_spans[k])
    &&& entries(body_of(text, spans[k])) == entries(body_of(other_text, other_spans[k]))
}

/// The rewrite depends on the text outside the spans, on the names and on
/// the entries of the bodies, and on nothing else: two texts that agree in
/// these are rewritten to the same text. So what leaves the entries of a
/// body as they are, such as a comma behind the last entry or white space
/// around an entry, leaves the rewrite of the whole text as it is.
pub proof fn lemma_same_enums_same_rewrite(
    text: Seq<char>,
    spans: Seq<EnumSpan>,
    other_text: Seq<char>,
    other_spans: Seq<EnumSpan>,
)
    requires
        spans.len() == other_spans.len(),
        forall|k: int|
            0 <= k < spans.len() ==> #[trigger] same_enum_at(
                text,
                spans,
                other_text,
                other_spans,
                k,
            ),
        gap(text, spans, spans.len() as int) == gap(
            other_text,
            other_spans,
            other_spans.len() as int,
        ),
    ensures
        rewritten(text, spans) == rewritten(other_text, other_spans),
{
    lemma_same_enums_upto(text, spans, other_text, other_spans, spans.len());
}

/// Up to the end of span `k`, two texts that agree in what the rewrite
/// depends on are rewritten to the same text.
proof fn lemma_same_enums_upto(
    text: Seq<char>,
    spans: Seq<EnumSpan>,
    other_text: Seq<char>,
    other_spans: Seq<EnumSpan>,
    k: nat,
)
    requires
        k <= spans.len() == other_spans.len(),
        forall|i: int|
            0 <= i < spans.len() ==> #[trigger] same_enum_at(
                text,
                spans,
                other_text,
                other_spans,
                i,
            ),
    ensures
        rewritten_upto(text, spans, k) == rewritten_upto(other_text, other_spans, k),
    decreases k,
{
    if k > 0 {
        lemma_same_enums_upto(text, spans, other_text, other_spans, (k - 1) as nat);
        assert(same_enum_at(text, spans, other_text, other_spans, k - 1));
    }
}

/// A text without spans is rewritten to itself.
pub proof fn lemma_rewritten_without_spans(text: Seq<char>, spans: Seq<EnumSpan>)
    requires
        spans.len() == 0,
    ensures
        rewritten(text, spans) == text,
{
    let bytes = encode_utf8(text);
    assert(bytes.subrange(0, bytes.len() as int) == bytes);
    encode_utf8_decode_utf8(text);
}

/// The piece `from..to` of `text`.
pub fn slice<'a>(text: &'a str, from: usize, to: usize) -> (part: &'a str)
    requires
        is_piece(text@, from as int, to as int),
    ensures
        part@ == piece(text@, from as int, to as int),
{
    proof {
        encode_utf8_valid_utf8(text@);
        lemma_boundary_in_prefix(encode_utf8(text@), from as int, to as int);
    }
    let (head, _) = text.split_at(to);
    let (_, part) = head.split_at(from);
    proof {
        encode_utf8_decode_utf8(part@);
        assert(part.spec_bytes() == encode_utf8(text@).subrange(from as int, to as int));
    }
    part
}

/// Tells whether the bytes `from..to` of `text` are a piece of it.
pub fn check_piece(text: &str, from: usize, to: usize) -> (ok: bool)
    ensures
        ok == is_piece(text@, from as int, to as int),
{
    proof {
        encode_utf8_valid_utf8(text@);
    }
    from <= to && text.is_char_boundary(from) && text.is_char_boundary(to)
}

/// Tells whether `spans` can be rewritten in `text`.
pub fn check_spans(text: &str, spans: &Vec<EnumSpan>) -> (ok: bool)
    ensures
        ok == spans_fit(text@, spans@),
{
    let mut i: usize = 0;
    while i < spans.len()
        invariant
            i <= spans.len(),
            forall|j: int| 0 <= j < i ==> span_fits(text@, #[trigger] spans@[j]),
            forall|j: int| 0 < j < i ==> spans@[j - 1].end <= (#[trigger] spans@[j]).start,
        decreases spans.len() - i,
    {
        let span = spans[i];
        let fits = check_piece(text, span.start, span.end) && check_piece(
            text,
            span.name_start,
            span.name_end,
        ) && check_piece(text, span.body_start, span.body_end);
        if !fits {
            return false;
        }
        if i > 0 && spans[i - 1].end > span.start {
            return false;
        }
        i += 1;
    }
    true
}

/// Rewrites `text`: each of `spans` is replaced by the declarations that
/// stand for the enum that it marks, and the text outside the spans is kept
/// as it is.
pub fn rewrite_spans(text: &str, spans: &Vec<EnumSpan>) -> (out: String)
    requires
        spans_fit(text@, spans@),
    ensures
        out@ == rewritten(text@, spans@),
        spans@.len() == 0 ==> out@ == text@,
{
    let size = text.as_bytes().len();
    let mut out = String::new();
    let mut from: usize = 0;
    let mut k: usize = 0;
    proof {
        encode_utf8_valid_utf8(text@);
        is_char_boundary_start_end_of_seq(encode_utf8(text@));
    }
    while k < spans.len()
        invariant
            k <= spans.len(),
            spans_fit(text@, spans@),
            from == gap_start(spans@, k as int),
            out@ == rewritten_upto(text@, spans@, k as nat),
        decreases spans.len() - k,
    {
        let span = spans[k];
        proof {
            encode_utf8_valid_utf8(text@);
            assert(span_fits(text@, span));
            if k > 0 {
                assert(span_fits(text@, spans@[k - 1]));
                assert(spans@[k - 1].end <= spans@[k as int].start);
            }
        }
        out.append(slice(text, from, span.start));
        let name = slice(text, span.name_start, span.name_end);
        let body = slice(text, span.body_start, span.body_end);
        let block = rewrite_enum(name, body);
        out.append(block.as_str());
        from = span.end;
        k += 1;
    }
    assert(k > 0 ==> span_fits(text@, spans@[k - 1]));
    out.append(slice(text, from, size));
    proof {
        if spans@.len() == 0 {
            lemma_rewritten_without_spans(text@, spans@);
        }
    }
    out
}

} // verus!
