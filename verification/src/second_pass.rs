//! What a second rewrite finds in a text that has been rewritten.

use crate::entries::{
    declaration, entries, entries_among, entry_of, lemma_entries_among_push, line_of, lines_of,
    Entry,
};
use crate::spans::{
    body_of, enum_text, gap, lemma_pieces_meet, marks_enum, lemma_rewritten_without_spans, name_of, piece,
    replacement, rewritten, rewritten_upto, span_fits, spans_marked, EnumSpan,
};
use crate::text::{
    fields, first_at, has_part, joined, lemma_first_at, lemma_has_part_in_range,
    lemma_has_part_of_two, occurs_at, trim_end, trim_start, trimmed,
};
use vstd::prelude::*;
use vstd::utf8::{
    encode_utf8, encode_utf8_decode_utf8, encode_utf8_valid_utf8,
    is_char_boundary_start_end_of_seq,
};

verus! {

/// Whether the word `enum` stands somewhere in `text`.
pub open spec fn has_keyword(text: Seq<char>) -> bool {
    has_part(text, "enum"@)
}

/// Whether `text` ends with a letter that the word `enum` goes on from.
spec fn ends_open(text: Seq<char>) -> bool {
    text.len() > 0 && (text.last() == 'e' || text.last() == 'n' || text.last() == 'u')
}

/// Whether `text` begins with a letter that the word `enum` goes on with.
spec fn starts_open(text: Seq<char>) -> bool {
    text.len() > 0 && (text.first() == 'n' || text.first() == 'u' || text.first() == 'm')
}

/// Whether `text` holds no `enum` and none can begin in it and end behind
/// it.
spec fn sealed(text: Seq<char>) -> bool {
    !has_keyword(text) && !ends_open(text)
}

/// Whether `text` can stand between any two texts without an `enum` coming
/// about that neither of them holds.
spec fn fixed(text: Seq<char>) -> bool {
    text.len() > 0 && !has_keyword(text) && !starts_open(text) && !ends_open(text)
}

/// Two texts in a row hold no `enum` where neither holds one and none can
/// stand across the place where they meet.
proof fn lemma_keyword_of_two(a: Seq<char>, b: Seq<char>)
    requires
        !has_keyword(a),
        !has_keyword(b),
        !ends_open(a) || !starts_open(b),
    ensures
        !has_keyword(a + b),
{
    reveal_strlit("enum");
    if has_keyword(a + b) {
        lemma_has_part_of_two(a, b, "enum"@);
    }
}

/// A text in which no `e` is followed by `n` holds no `enum`.
proof fn lemma_no_keyword(text: Seq<char>)
    requires
        forall|i: int|
            0 <= i < text.len() - 1 ==> !(#[trigger] text[i] == 'e' && text[i + 1] == 'n'),
    ensures
        !has_keyword(text),
{
    reveal_strlit("enum");
    if has_keyword(text) {
        let at = choose|at: int| occurs_at(text, "enum"@, at);
        let found = text.subrange(at, at + 4);
        assert(found[0] == 'e' && found[1] == 'n');
        assert(text[at] == 'e' && text[at + 1] == 'n');
    }
}

/// The texts that the declarations are made of, but for the name, the keys
/// and the values, are fixed.
proof fn lemma_fixed_texts()
    ensures
        fixed("const "@),
        fixed(" = {\n  "@),
        fixed(": "@),
        fixed(","@),
        fixed("\n  "@),
        fixed("\n} as const;\n\nexport type "@),
        fixed(" = (typeof "@),
        fixed(")[keyof typeof "@),
        fixed("];"@),
{
    reveal_strlit("const ");
    reveal_strlit(" = {\n  ");
    reveal_strlit(": ");
    reveal_strlit(",");
    reveal_strlit("\n  ");
    reveal_strlit("\n} as const;\n\nexport type ");
    reveal_strlit(" = (typeof ");
    reveal_strlit(")[keyof typeof ");
    reveal_strlit("];");
    lemma_no_keyword("const "@);
    lemma_no_keyword(" = {\n  "@);
    lemma_no_keyword(": "@);
    lemma_no_keyword(","@);
    lemma_no_keyword("\n  "@);
    lemma_no_keyword("\n} as const;\n\nexport type "@);
    lemma_no_keyword(" = (typeof "@);
    lemma_no_keyword(")[keyof typeof "@);
    lemma_no_keyword("];"@);
}

/// A fixed text behind a text that holds no `enum` gives a sealed text.
proof fn lemma_add_fixed(a: Seq<char>, f: Seq<char>)
    requires
        !has_keyword(a),
        fixed(f),
    ensures
        sealed(a + f),
{
    lemma_keyword_of_two(a, f);
    assert((a + f).last() == f.last());
}

/// A text that holds no `enum` behind a sealed text gives a text that holds
/// none.
proof fn lemma_add_free(a: Seq<char>, v: Seq<char>)
    requires
        sealed(a),
        !has_keyword(v),
    ensures
        !has_keyword(a + v),
{
    lemma_keyword_of_two(a, v);
}

/// A stretch of a text that holds no `enum` holds none.
proof fn lemma_range_plain(text: Seq<char>, from: int, to: int)
    requires
        !has_keyword(text),
        0 <= from <= to <= text.len(),
    ensures
        !has_keyword(text.subrange(from, to)),
{
    if has_keyword(text.subrange(from, to)) {
        lemma_has_part_in_range(text, from, to, "enum"@);
    }
}

/// Trimming a text that holds no `enum` at its start leaves one that holds
/// none.
proof fn lemma_trim_start_plain(text: Seq<char>)
    requires
        !has_keyword(text),
    ensures
        !has_keyword(trim_start(text)),
    decreases text.len(),
{
    if text.len() > 0 {
        lemma_range_plain(text, 1, text.len() as int);
        lemma_trim_start_plain(text.drop_first());
    }
}

/// Trimming a text that holds no `enum` at its end leaves one that holds
/// none.
proof fn lemma_trim_end_plain(text: Seq<char>)
    requires
        !has_keyword(text),
    ensures
        !has_keyword(trim_end(text)),
    decreases text.len(),
{
    if text.len() > 0 {
        lemma_range_plain(text, 0, text.len() - 1);
        lemma_trim_end_plain(text.drop_last());
    }
}

/// Trimming a text that holds no `enum` leaves one that holds none.
proof fn lemma_trimmed_plain(text: Seq<char>)
    requires
        !has_keyword(text),
    ensures
        !has_keyword(trimmed(text)),
{
    lemma_trim_start_plain(text);
    lemma_trim_end_plain(trim_start(text));
}

/// The fields of a text that holds no `enum` hold none.
proof fn lemma_fields_plain(text: Seq<char>, sep: char)
    requires
        !has_keyword(text),
    ensures
        forall|i: int|
            0 <= i < fields(text, sep).len() ==> !has_keyword(#[trigger] fields(text, sep)[i]),
    decreases text.len(),
{
    let cut = first_at(text, sep);
    lemma_first_at(text, sep);
    if cut < text.len() {
        let rest = text.skip(cut + 1);
        lemma_range_plain(text, 0, cut);
        lemma_range_plain(text, cut + 1, text.len() as int);
        lemma_fields_plain(rest, sep);
        assert forall|i: int| 0 <= i < fields(text, sep).len() implies !has_keyword(
            #[trigger] fields(text, sep)[i],
        ) by {
            if i > 0 {
                assert(fields(text, sep)[i] == fields(rest, sep)[i - 1]);
            }
        }
    }
}

/// Whether no key and no value of `list` holds an `enum`.
spec fn entries_plain(list: Seq<Entry>) -> bool {
    forall|i: int|
        0 <= i < list.len() ==> !has_keyword((#[trigger] list[i]).key) && !has_keyword(
            list[i].value,
        )
}

/// The entry that a text without `enum` spells has none in its key and none
/// in its value.
proof fn lemma_entry_plain(item: Seq<char>)
    requires
        !has_keyword(item),
    ensures
        !has_keyword(entry_of(item).key),
        !has_keyword(entry_of(item).value),
{
    let cut = first_at(item, '=');
    lemma_first_at(item, '=');
    lemma_range_plain(item, 0, cut);
    lemma_trimmed_plain(item.take(cut));
    if cut < item.len() {
        lemma_range_plain(item, cut + 1, item.len() as int);
        lemma_trimmed_plain(item.skip(cut + 1));
    } else {
        lemma_range_plain(item, 0, 0);
        assert(item.subrange(0, 0) == Seq::<char>::empty());
    }
}

/// Items that hold no `enum` spell entries that hold none.
proof fn lemma_entries_among_plain(items: Seq<Seq<char>>)
    requires
        forall|i: int| 0 <= i < items.len() ==> !has_keyword(#[trigger] items[i]),
    ensures
        entries_plain(entries_among(items)),
    decreases items.len(),
{
    if items.len() == 0 {
        assert(entries_among(items).len() == 0);
    } else {
        let front = items.drop_last();
        let last = items.last();
        assert forall|i: int| 0 <= i < front.len() implies !has_keyword(#[trigger] front[i]) by {
            assert(front[i] == items[i]);
        }
        lemma_entries_among_plain(front);
        lemma_entries_among_push(front, last);
        assert(front.push(last) == items);
        lemma_trimmed_plain(last);
        lemma_entry_plain(trimmed(last));
    }
}

/// The line of an entry that holds no `enum` is sealed.
proof fn lemma_line_sealed(entry: Entry)
    requires
        !has_keyword(entry.key),
        !has_keyword(entry.value),
    ensures
        sealed(line_of(entry)),
{
    lemma_fixed_texts();
    lemma_add_fixed(entry.key, ": "@);
    lemma_add_free(entry.key + ": "@, entry.value);
    lemma_add_fixed(entry.key + ": "@ + entry.value, ","@);
}

/// Sealed lines make a sealed block.
proof fn lemma_block_sealed(lines: Seq<Seq<char>>)
    requires
        forall|i: int| 0 <= i < lines.len() ==> sealed(#[trigger] lines[i]),
    ensures
        sealed(joined(lines, "\n  "@)),
    decreases lines.len(),
{
    reveal_strlit("enum");
    if lines.len() == 0 {
    } else if lines.len() == 1 {
    } else {
        let front = lines.drop_last();
        assert forall|i: int| 0 <= i < front.len() implies sealed(#[trigger] front[i]) by {
            assert(front[i] == lines[i]);
        }
        lemma_block_sealed(front);
        lemma_fixed_texts();
        lemma_add_fixed(joined(front, "\n  "@), "\n  "@);
        lemma_add_free(joined(front, "\n  "@) + "\n  "@, lines.last());
        let whole = joined(front, "\n  "@) + "\n  "@ + lines.last();
        if lines.last().len() > 0 {
            assert(whole.last() == lines.last().last());
        } else {
            assert(whole == joined(front, "\n  "@) + "\n  "@);
        }
    }
}

/// The declarations for a name and entries that hold no `enum` hold none, do
/// not begin in the middle of one and are sealed.
proof fn lemma_declaration_sealed(name: Seq<char>, list: Seq<Entry>)
    requires
        !has_keyword(name),
        entries_plain(list),
    ensures
        sealed(declaration(name, list)),
        !starts_open(declaration(name, list)),
        declaration(name, list).len() > 0,
{
    let lines = lines_of(list);
    let block = joined(lines, "\n  "@);
    assert forall|i: int| 0 <= i < lines.len() implies sealed(#[trigger] lines[i]) by {
        lemma_line_sealed(list[i]);
    }
    lemma_block_sealed(lines);
    lemma_fixed_texts();
    let t1 = "const "@;
    let t2 = t1 + name;
    let t3 = t2 + " = {\n  "@;
    let t4 = t3 + block;
    let t5 = t4 + "\n} as const;\n\nexport type "@;
    let t6 = t5 + name;
    let t7 = t6 + " = (typeof "@;
    let t8 = t7 + name;
    let t9 = t8 + ")[keyof typeof "@;
    let t10 = t9 + name;
    let t11 = t10 + "];"@;
    lemma_add_free(t1, name);
    lemma_add_fixed(t2, " = {\n  "@);
    lemma_add_free(t3, block);
    lemma_add_fixed(t4, "\n} as const;\n\nexport type "@);
    lemma_add_free(t5, name);
    lemma_add_fixed(t6, " = (typeof "@);
    lemma_add_free(t7, name);
    lemma_add_fixed(t8, ")[keyof typeof "@);
    lemma_add_free(t9, name);
    lemma_add_fixed(t10, "];"@);
    assert(t11 == declaration(name, list));
    assert(t11.first() == t1.first());
}

/// Whether the word `enum` stands in `text` only where an enum begins: it
/// stands neither in the text outside the spans, nor in a name, nor in a
/// body.
pub open spec fn keyword_only_leads(text: Seq<char>, spans: Seq<EnumSpan>) -> bool {
    &&& forall|k: int| 0 <= k <= spans.len() ==> !has_keyword(#[trigger] gap(text, spans, k))
    &&& forall|k: int|
        0 <= k < spans.len() ==> !has_keyword(name_of(text, #[trigger] spans[k])) && !has_keyword(
            body_of(text, spans[k]),
        )
}

/// Up to the end of span `k`, the rewrite of a text in which `enum` only
/// leads is sealed.
proof fn lemma_rewritten_upto_sealed(text: Seq<char>, spans: Seq<EnumSpan>, k: nat)
    requires
        k <= spans.len(),
        keyword_only_leads(text, spans),
    ensures
        sealed(rewritten_upto(text, spans, k)),
    decreases k,
{
    reveal_strlit("enum");
    if k > 0 {
        let before = rewritten_upto(text, spans, (k - 1) as nat);
        let span = spans[k - 1];
        let block = replacement(text, span);
        lemma_rewritten_upto_sealed(text, spans, (k - 1) as nat);
        assert(!has_keyword(gap(text, spans, k - 1)));
        lemma_add_free(before, gap(text, spans, k - 1));
        assert(!has_keyword(name_of(text, span)));
        lemma_fields_plain(body_of(text, span), ',');
        lemma_entries_among_plain(fields(body_of(text, span), ','));
        lemma_declaration_sealed(name_of(text, span), entries(body_of(text, span)));
        lemma_keyword_of_two(before + gap(text, spans, k - 1), block);
        assert((before + gap(text, spans, k - 1) + block).last() == block.last());
    }
}

/// The rewrite takes the word `enum` out of a text in which it only leads
/// the enums: the rewritten text does not hold it.
pub proof fn lemma_rewrite_takes_keyword_out(text: Seq<char>, spans: Seq<EnumSpan>)
    requires
        keyword_only_leads(text, spans),
    ensures
        !has_keyword(rewritten(text, spans)),
{
    lemma_rewritten_upto_sealed(text, spans, spans.len());
    assert(!has_keyword(gap(text, spans, spans.len() as int)));
    lemma_add_free(rewritten_upto(text, spans, spans.len()), gap(text, spans, spans.len() as int));
}

/// No enum is marked in a text that does not hold the word `enum`.
pub proof fn lemma_no_keyword_no_spans(text: Seq<char>, spans: Seq<EnumSpan>)
    requires
        spans_marked(text, spans),
        !has_keyword(text),
    ensures
        spans.len() == 0,
{
    if spans.len() > 0 {
        let span = spans[0];
        let bytes = encode_utf8(text);
        let size = bytes.len() as int;
        let head = piece(text, 0, span.start as int);
        let marked = piece(text, span.start as int, span.end as int);
        let tail = piece(text, span.end as int, size);
        assert(span_fits(text, span));
        assert(marks_enum(text, span));
        let (lead, mid) = choose|lead: Seq<char>, mid: Seq<char>|
            marked == #[trigger] enum_text(lead, name_of(text, span), mid, body_of(text, span));
        encode_utf8_valid_utf8(text);
        is_char_boundary_start_end_of_seq(bytes);
        lemma_pieces_meet(text, 0, span.start as int, span.end as int);
        lemma_pieces_meet(text, 0, span.end as int, size);
        assert(bytes.subrange(0, size) == bytes);
        encode_utf8_decode_utf8(text);
        assert(text == head + marked + tail);
        reveal_strlit("enum");
        assert(marked.subrange(0, 4) == "enum"@);
        assert(text.subrange(head.len() as int, head.len() as int + 4) == "enum"@);
        assert(occurs_at(text, "enum"@, head.len() as int));
    }
}

/// A second rewrite finds nothing to do in a text from which the first has
/// taken every `enum`.
///
/// `text` is a text in which the word `enum` stands only where one of
/// `spans` begins, and `again` are spans that mark enums in the rewrite of
/// `text`. There are none, so the rewrite of the rewritten text is that text
/// itself.
pub proof fn lemma_second_pass_finds_nothing(
    text: Seq<char>,
    spans: Seq<EnumSpan>,
    again: Seq<EnumSpan>,
)
    requires
        keyword_only_leads(text, spans),
        spans_marked(rewritten(text, spans), again),
    ensures
        again.len() == 0,
        rewritten(rewritten(text, spans), again) == rewritten(text, spans),
{
    lemma_rewrite_takes_keyword_out(text, spans);
    lemma_no_keyword_no_spans(rewritten(text, spans), again);
    lemma_rewritten_without_spans(rewritten(text, spans), again);
}

} // verus!
