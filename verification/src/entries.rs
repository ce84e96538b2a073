//! The entries of an enum body, and the declarations that stand for an enum.

use crate::text::{
    all_space, collect_range, fields, find_char, first_at, is_space, joined, lemma_fields_of_joined,
    lemma_fields_of_one, lemma_fields_of_two, lemma_first_at_is, lemma_joined_layout,
    lemma_start_in_joined_ascends, lemma_trimmed_padding, lemma_trimmed_spaces, start_in_joined,
    to_chars, trim_range, trimmed,
};
use vstd::prelude::*;
use vstd::string::StringExecFns;

verus! {

/// One entry of an enum body: the text before its first `=` and the text
/// after it, each without the white space around it.
pub struct Entry {
    pub key: Seq<char>,
    pub value: Seq<char>,
}

/// One entry of an enum body, as the parser hands it out. An entry that has
/// no `=` has an empty value.
#[derive(Debug, PartialEq, Eq)]
pub struct EnumEntry {
    pub key: String,
    pub value: String,
}

impl View for EnumEntry {
    type V = Entry;

    open spec fn view(&self) -> Entry {
        Entry { key: self.key@, value: self.value@ }
    }
}

/// What a list of parsed entries stands for.
pub open spec fn entry_views(list: Seq<EnumEntry>) -> Seq<Entry> {
    list.map_values(|e: EnumEntry| e@)
}

/// The entry that the text `item` spells: it is cut at its first `=`.
pub open spec fn entry_of(item: Seq<char>) -> Entry {
    let cut = first_at(item, '=');
    Entry {
        key: trimmed(item.take(cut)),
        value: if cut < item.len() {
            trimmed(item.skip(cut + 1))
        } else {
            Seq::empty()
        },
    }
}

/// Each of `items` without the white space around it.
pub open spec fn trimmed_all(items: Seq<Seq<char>>) -> Seq<Seq<char>> {
    items.map_values(|item: Seq<char>| trimmed(item))
}

/// Those of `items` that are not empty, in their order.
pub open spec fn non_empty(items: Seq<Seq<char>>) -> Seq<Seq<char>> {
    items.filter(|item: Seq<char>| item.len() > 0)
}

/// The entry that each of `items` spells.
pub open spec fn entries_of(items: Seq<Seq<char>>) -> Seq<Entry> {
    items.map_values(|item: Seq<char>| entry_of(item))
}

/// The entries that comma-separated `items` spell: blank items spell none.
pub open spec fn entries_among(items: Seq<Seq<char>>) -> Seq<Entry> {
    entries_of(non_empty(trimmed_all(items)))
}

/// The entries of an enum body, in the order in which the body lists them.
/// The body is cut at its commas; a piece that holds nothing but white space
/// is no entry.
pub open spec fn entries(body: Seq<char>) -> Seq<Entry> {
    entries_among(fields(body, ','))
}

/// The line that declares one entry.
pub open spec fn line_of(entry: Entry) -> Seq<char> {
    entry.key + ": "@ + entry.value + ","@
}

/// The line of each entry of `list`.
pub open spec fn lines_of(list: Seq<Entry>) -> Seq<Seq<char>> {
    list.map_values(|entry: Entry| line_of(entry))
}

/// The declarations that stand for an enum called `name` with the entries
/// `list`: a constant object with one line for each entry, in the order of
/// `list`, and a type of the same name for the values of that object.
pub open spec fn declaration(name: Seq<char>, list: Seq<Entry>) -> Seq<char> {
    "const "@ + name + " = {\n  "@ + joined(lines_of(list), "\n  "@)
        + "\n} as const;\n\nexport type "@ + name + " = (typeof "@ + name + ")[keyof typeof "@
        + name + "];"@
}

/// What an enum called `name` with the body `body` is rewritten to.
pub open spec fn rendered(name: Seq<char>, body: Seq<char>) -> Seq<char> {
    declaration(name, entries(body))
}

/// Adding one item at the end adds its entry at the end, if it spells one.
pub proof fn lemma_entries_among_push(items: Seq<Seq<char>>, item: Seq<char>)
    ensures
        entries_among(items.push(item)) == if trimmed(item).len() > 0 {
            entries_among(items).push(entry_of(trimmed(item)))
        } else {
            entries_among(items)
        },
{
    let more = items.push(item);
    assert(trimmed_all(more) == trimmed_all(items).push(trimmed(item)));
    let t = trimmed_all(items);
    assert(t.push(trimmed(item)).drop_last() == t);
    reveal_with_fuel(Seq::filter, 2);
    if trimmed(item).len() > 0 {
        assert(non_empty(t.push(trimmed(item))) == non_empty(t).push(trimmed(item)));
        assert(entries_of(non_empty(t).push(trimmed(item))) == entries_of(non_empty(t)).push(
            entry_of(trimmed(item)),
        ));
    } else {
        assert(non_empty(t.push(trimmed(item))) == non_empty(t));
    }
}

/// Where the line of entry `i` begins in the declarations for `name` and
/// `list`.
pub open spec fn line_start(name: Seq<char>, list: Seq<Entry>, i: int) -> int {
    ("const "@ + name + " = {\n  "@).len() + start_in_joined(lines_of(list), "\n  "@, i)
}

/// The declarations list the entries in the order of `list`: the line of
/// each entry stands where `line_start` says, and the line of a later entry
/// begins behind the line of an earlier one.
pub proof fn lemma_declaration_lists_in_order(name: Seq<char>, list: Seq<Entry>)
    ensures
        forall|i: int|
            0 <= i < list.len() ==> {
                let at = #[trigger] line_start(name, list, i);
                &&& 0 <= at
                &&& at + line_of(list[i]).len() <= declaration(name, list).len()
                &&& declaration(name, list).subrange(at, at + line_of(list[i]).len()) == line_of(
                    list[i],
                )
            },
        forall|i: int, j: int|
            0 <= i < j < list.len() ==> line_start(name, list, i) + line_of(list[i]).len()
                <= line_start(name, list, j),
{
    let head = "const "@ + name + " = {\n  "@;
    let lines = lines_of(list);
    let block = joined(lines, "\n  "@);
    let whole = declaration(name, list);
    if list.len() > 0 {
        lemma_joined_layout(lines, "\n  "@);
    }
    assert forall|i: int| 0 <= i < list.len() implies {
        let at = #[trigger] line_start(name, list, i);
        &&& 0 <= at
        &&& at + line_of(list[i]).len() <= whole.len()
        &&& whole.subrange(at, at + line_of(list[i]).len()) == line_of(list[i])
    } by {
        let there = start_in_joined(lines, "\n  "@, i);
        assert(lines[i] == line_of(list[i]));
        assert(block.subrange(there, there + lines[i].len()) == lines[i]);
        assert(whole.subrange(head.len() + there, head.len() + there + lines[i].len())
            == block.subrange(there, there + lines[i].len()));
    }
    assert forall|i: int, j: int| 0 <= i < j < list.len() implies line_start(name, list, i)
        + line_of(list[i]).len() <= line_start(name, list, j) by {
        lemma_start_in_joined_ascends(lines, "\n  "@, i, j);
        assert(lines[i] == line_of(list[i]));
    }
}

/// Items of which none is blank spell one entry each.
pub proof fn lemma_entries_among_filled(items: Seq<Seq<char>>)
    requires
        forall|i: int| 0 <= i < items.len() ==> trimmed(#[trigger] items[i]).len() > 0,
    ensures
        entries_among(items) == entries_of(trimmed_all(items)),
    decreases items.len(),
{
    if items.len() == 0 {
        assert(trimmed_all(items) == Seq::<Seq<char>>::empty());
        assert(non_empty(trimmed_all(items)) == Seq::<Seq<char>>::empty());
    } else {
        let front = items.drop_last();
        assert forall|i: int| 0 <= i < front.len() implies trimmed(#[trigger] front[i]).len()
            > 0 by {
            assert(front[i] == items[i]);
        }
        lemma_entries_among_filled(front);
        lemma_entries_among_push(front, items.last());
        assert(front.push(items.last()) == items);
        assert(entries_of(trimmed_all(front)).push(entry_of(trimmed(items.last())))
            == entries_of(trimmed_all(items)));
    }
}

/// The entries of a body come in the order in which the body lists them.
///
/// A body that is made of `items` with a comma between each two, none of
/// them blank, has as many entries as there are items, and entry `i` is the
/// one that item `i` spells. The enum is rewritten to the declarations for
/// these entries, which `lemma_declaration_lists_in_order` shows to hold
/// their lines in that order.
pub proof fn lemma_entries_keep_order(name: Seq<char>, items: Seq<Seq<char>>)
    requires
        items.len() > 0,
        forall|i: int| 0 <= i < items.len() ==> !(#[trigger] items[i]).contains(','),
        forall|i: int| 0 <= i < items.len() ==> trimmed(#[trigger] items[i]).len() > 0,
    ensures
        entries(joined(items, seq![','])).len() == items.len(),
        forall|i: int|
            0 <= i < items.len() ==> (#[trigger] entries(joined(items, seq![',']))[i])
                == entry_of(trimmed(items[i])),
        rendered(name, joined(items, seq![','])) == declaration(
            name,
            entries_of(trimmed_all(items)),
        ),
{
    let body = joined(items, seq![',']);
    lemma_fields_of_joined(items, ',');
    lemma_entries_among_filled(items);
    let list = entries(body);
    assert(list == entries_of(trimmed_all(items)));
}

/// A comma behind the last entry changes nothing, nor does white space
/// behind that comma: the body has the same entries, and the enum is
/// rewritten to the same text.
pub proof fn lemma_trailing_comma(name: Seq<char>, body: Seq<char>, tail: Seq<char>)
    requires
        all_space(tail),
    ensures
        entries(body + seq![','] + tail) == entries(body),
        rendered(name, body + seq![','] + tail) == rendered(name, body),
{
    lemma_fields_of_two(body, ',', tail);
    assert(!tail.contains(',')) by {
        if tail.contains(',') {
            let i = choose|i: int| 0 <= i < tail.len() && tail[i] == ',';
            assert(is_space(tail[i]));
        }
    }
    lemma_fields_of_one(tail, ',');
    assert(fields(body, ',') + seq![tail] == fields(body, ',').push(tail));
    lemma_trimmed_spaces(tail);
    lemma_entries_among_push(fields(body, ','), tail);
}

/// White space around the items of a body changes nothing.
///
/// `items` are the items of one body, and `padded` those of another: item
/// for item the same text, with white space put before and behind it. The
/// two bodies have the same entries and are rewritten to the same text.
pub proof fn lemma_padding_ignored(
    name: Seq<char>,
    items: Seq<Seq<char>>,
    before: Seq<Seq<char>>,
    after: Seq<Seq<char>>,
    padded: Seq<Seq<char>>,
)
    requires
        items.len() > 0,
        items.len() == before.len() == after.len() == padded.len(),
        forall|i: int| 0 <= i < items.len() ==> !(#[trigger] items[i]).contains(','),
        forall|i: int| 0 <= i < items.len() ==> all_space(#[trigger] before[i]),
        forall|i: int| 0 <= i < items.len() ==> all_space(#[trigger] after[i]),
        forall|i: int|
            0 <= i < items.len() ==> (#[trigger] padded[i]) == before[i] + items[i] + after[i],
    ensures
        entries(joined(padded, seq![','])) == entries(joined(items, seq![','])),
        rendered(name, joined(padded, seq![','])) == rendered(name, joined(items, seq![','])),
{
    assert forall|i: int| 0 <= i < padded.len() implies !(#[trigger] padded[i]).contains(
        ',',
    ) by {
        let p = padded[i];
        if p.contains(',') {
            let k = choose|k: int| 0 <= k < p.len() && p[k] == ',';
            if k < before[i].len() {
                assert(is_space(before[i][k]));
            } else if k < before[i].len() + items[i].len() {
                assert(items[i].contains(items[i][k - before[i].len()]));
            } else {
                assert(is_space(after[i][k - before[i].len() - items[i].len()]));
            }
        }
    }
    lemma_fields_of_joined(padded, ',');
    lemma_fields_of_joined(items, ',');
    assert forall|i: int| 0 <= i < items.len() implies trimmed(padded[i]) == trimmed(
        items[i],
    ) by {
        lemma_trimmed_padding(before[i], items[i], after[i]);
    }
    assert(trimmed_all(padded) == trimmed_all(items));
}

/// White space around a key and around a value changes nothing: the entry
/// has the key and the value without it.
pub proof fn lemma_entry_padding(
    key: Seq<char>,
    value: Seq<char>,
    before_key: Seq<char>,
    after_key: Seq<char>,
    before_value: Seq<char>,
    after_value: Seq<char>,
)
    requires
        !key.contains('='),
        all_space(before_key),
        all_space(after_key),
        all_space(before_value),
        all_space(after_value),
    ensures
        entry_of(
            before_key + key + after_key + seq!['='] + (before_value + value + after_value),
        ) == (Entry { key: trimmed(key), value: trimmed(value) }),
{
    let left = before_key + key + after_key;
    let right = before_value + value + after_value;
    let item = left + seq!['='] + right;
    assert forall|j: int| 0 <= j < left.len() implies left[j] != '=' by {
        if j < before_key.len() {
            assert(is_space(before_key[j]));
        } else if j < before_key.len() + key.len() {
            assert(key.contains(key[j - before_key.len()]));
        } else {
            assert(is_space(after_key[j - before_key.len() - key.len()]));
        }
    }
    assert forall|j: int| 0 <= j < left.len() implies item[j] != '=' by {
        assert(item[j] == left[j]);
    }
    assert(item[left.len() as int] == '=');
    lemma_first_at_is(item, '=', left.len() as int);
    assert(item.take(left.len() as int) == left);
    assert(item.skip(left.len() as int + 1) == right);
    lemma_trimmed_padding(before_key, key, after_key);
    lemma_trimmed_padding(before_value, value, after_value);
}

/// Parses the body of an enum, the text between its braces, into its
/// entries.
pub fn parse_entries(body: &str) -> (list: Vec<EnumEntry>)
    ensures
        entry_views(list@) == entries(body@),
{
    let chars = to_chars(body);
    let n = chars.len();
    let mut list: Vec<EnumEntry> = Vec::new();
    let mut start: usize = 0;
    let mut more = true;
    let ghost done: Seq<Seq<char>> = Seq::empty();
    assert(chars@.subrange(0, n as int) == chars@);
    assert(entry_views(list@) == entries_among(done));
    while more
        invariant
            n == chars.len(),
            start <= n,
            more ==> done + fields(chars@.subrange(start as int, n as int), ',') == fields(
                chars@,
                ',',
            ),
            !more ==> done == fields(chars@, ','),
            entry_views(list@) == entries_among(done),
        decreases (n - start) + (if more { 1int } else { 0int }),
    {
        let cut = find_char(&chars, start, n, ',');
        let ghost rest = chars@.subrange(start as int, n as int);
        let ghost field = chars@.subrange(start as int, cut as int);
        let (a, b) = trim_range(&chars, start, cut);
        proof {
            assert(rest.take(cut - start) == field);
            lemma_entries_among_push(done, field);
            if cut < n {
                assert(rest.skip(cut - start + 1) == chars@.subrange(cut + 1, n as int));
                assert(done.push(field) + fields(chars@.subrange(cut + 1, n as int), ',') == done
                    + fields(rest, ','));
            } else {
                assert(done.push(field) == done + fields(rest, ','));
            }
        }
        if a < b {
            let ghost item = chars@.subrange(a as int, b as int);
            let eq = find_char(&chars, a, b, '=');
            let (ka, kb) = trim_range(&chars, a, eq);
            let key = collect_range(&chars, ka, kb);
            let mut value = String::new();
            if eq < b {
                let (va, vb) = trim_range(&chars, eq + 1, b);
                value = collect_range(&chars, va, vb);
            }
            let entry = EnumEntry { key, value };
            proof {
                assert(item.take(eq - a) == chars@.subrange(a as int, eq as int));
                if eq < b {
                    assert(item.skip(eq - a + 1) == chars@.subrange(eq + 1, b as int));
                }
                assert(entry@ == entry_of(item));
                assert(entry_views(list@.push(entry)) == entry_views(list@).push(entry@));
            }
            list.push(entry);
        }
        proof {
            done = done.push(field);
        }
        if cut < n {
            start = cut + 1;
        } else {
            more = false;
        }
    }
    list
}

/// Writes the declarations that stand for an enum called `name` with the
/// entries `list`.
pub fn render_declaration(name: &str, list: &Vec<EnumEntry>) -> (out: String)
    ensures
        out@ == declaration(name@, entry_views(list@)),
{
    let mut out = String::new();
    out.append("const ");
    out.append(name);
    out.append(" = {\n  ");
    let ghost head = out@;
    let ghost lines = lines_of(entry_views(list@));
    let mut i: usize = 0;
    assert(out@ == head + joined(lines.take(0), "\n  "@));
    while i < list.len()
        invariant
            i <= list.len(),
            lines == lines_of(entry_views(list@)),
            out@ == head + joined(lines.take(i as int), "\n  "@),
        decreases list.len() - i,
    {
        let ghost before = out@;
        if i > 0 {
            out.append("\n  ");
        }
        out.append(list[i].key.as_str());
        out.append(": ");
        out.append(list[i].value.as_str());
        out.append(",");
        proof {
            let upto = lines.take(i + 1);
            assert(upto.drop_last() == lines.take(i as int));
            assert(upto.last() == line_of(list@[i as int]@));
            if i > 0 {
                assert(out@ == before + "\n  "@ + line_of(list@[i as int]@));
                assert(out@ == head + joined(upto, "\n  "@));
            } else {
                assert(before == head);
                assert(out@ == before + line_of(list@[i as int]@));
            }
        }
        i += 1;
    }
    assert(lines.take(i as int) == lines);
    out.append("\n} as const;\n\nexport type ");
    out.append(name);
    out.append(" = (typeof ");
    out.append(name);
    out.append(")[keyof typeof ");
    out.append(name);
    out.append("];");
    out
}

/// Rewrites one enum: `name` is its name and `body` the text between its
/// braces.
pub fn rewrite_enum(name: &str, body: &str) -> (out: String)
    ensures
        out@ == rendered(name@, body@),
{
    let list = parse_entries(body);
    render_declaration(name, &list)
}

} // verus!
