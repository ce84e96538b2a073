//! Texts as sequences of characters: white space and trimming, cutting a
//! text at a separator, and joining parts with one.

use vstd::prelude::*;

verus! {

/// Whether `c` is white space: a character with the Unicode property
/// `White_Space`.
pub open spec fn is_space(c: char) -> bool {
    let n = c as u32;
    ||| 0x09 <= n <= 0x0D
    ||| n == 0x20
    ||| n == 0x85
    ||| n == 0xA0
    ||| n == 0x1680
    ||| 0x2000 <= n <= 0x200A
    ||| n == 0x2028
    ||| n == 0x2029
    ||| n == 0x202F
    ||| n == 0x205F
    ||| n == 0x3000
}

/// Whether every character of `s` is white space.
pub open spec fn all_space(s: Seq<char>) -> bool {
    forall|i: int| 0 <= i < s.len() ==> is_space(#[trigger] s[i])
}

/// `s` without the white space it begins with.
pub open spec fn trim_start(s: Seq<char>) -> Seq<char>
    decreases s.len(),
{
    if s.len() > 0 && is_space(s.first()) {
        trim_start(s.drop_first())
    } else {
        s
    }
}

/// `s` without the white space it ends with.
pub open spec fn trim_end(s: Seq<char>) -> Seq<char>
    decreases s.len(),
{
    if s.len() > 0 && is_space(s.last()) {
        trim_end(s.drop_last())
    } else {
        s
    }
}

/// `s` without the white space at either end.
pub open spec fn trimmed(s: Seq<char>) -> Seq<char> {
    trim_end(trim_start(s))
}

/// The index of the first `c` in `s`, or the length of `s` where it holds none.
pub open spec fn first_at(s: Seq<char>, c: char) -> int
    decreases s.len(),
{
    if s.len() == 0 || s.first() == c {
        0
    } else {
        1 + first_at(s.drop_first(), c)
    }
}

/// The pieces of `s` between the occurrences of `sep`, in order. There is one
/// piece more than `s` holds separators, and a piece may be empty.
pub open spec fn fields(s: Seq<char>, sep: char) -> Seq<Seq<char>>
    decreases s.len(),
{
    let cut = first_at(s, sep);
    if 0 <= cut < s.len() {
        seq![s.take(cut)] + fields(s.skip(cut + 1), sep)
    } else {
        seq![s]
    }
}

/// The `parts` in order, with `sep` between each two neighbours.
pub open spec fn joined(parts: Seq<Seq<char>>, sep: Seq<char>) -> Seq<char>
    decreases parts.len(),
{
    if parts.len() == 0 {
        Seq::empty()
    } else if parts.len() == 1 {
        parts[0]
    } else {
        joined(parts.drop_last(), sep) + sep + parts.last()
    }
}

/// Whether `part` stands in `text` at position `at`.
pub open spec fn occurs_at(text: Seq<char>, part: Seq<char>, at: int) -> bool {
    &&& 0 <= at
    &&& at + part.len() <= text.len()
    &&& text.subrange(at, at + part.len()) == part
}

/// Whether `part` stands somewhere in `text`.
pub open spec fn has_part(text: Seq<char>, part: Seq<char>) -> bool {
    exists|at: int| occurs_at(text, part, at)
}

/// What stands in a stretch of a text stands in the text.
pub proof fn lemma_has_part_in_range(text: Seq<char>, from: int, to: int, part: Seq<char>)
    requires
        0 <= from <= to <= text.len(),
        has_part(text.subrange(from, to), part),
    ensures
        has_part(text, part),
{
    let stretch = text.subrange(from, to);
    let at = choose|at: int| occurs_at(stretch, part, at);
    assert(text.subrange(from + at, from + at + part.len()) == stretch.subrange(
        at,
        at + part.len(),
    ));
    assert(occurs_at(text, part, from + at));
}

/// What stands in two texts in a row stands in the first, or in the second,
/// or across the place where they meet: then the first text ends with one
/// character of it and the second begins with the next.
pub proof fn lemma_has_part_of_two(a: Seq<char>, b: Seq<char>, part: Seq<char>)
    requires
        has_part(a + b, part),
    ensures
        has_part(a, part) || has_part(b, part) || (a.len() > 0 && b.len() > 0 && exists|i: int|
            0 < i < part.len() && a.last() == part[i - 1] && b.first() == #[trigger] part[i]),
{
    let whole = a + b;
    let at = choose|at: int| occurs_at(whole, part, at);
    let found = whole.subrange(at, at + part.len());
    if at + part.len() <= a.len() {
        assert(a.subrange(at, at + part.len()) == found);
        assert(occurs_at(a, part, at));
    } else if at >= a.len() {
        assert(b.subrange(at - a.len(), at - a.len() + part.len()) == found);
        assert(occurs_at(b, part, at - a.len()));
    } else {
        let i = a.len() - at;
        assert(found[i - 1] == a.last());
        assert(found[i] == b.first());
        assert(0 < i < part.len() && a.last() == part[i - 1] && b.first() == part[i]);
    }
}

/// `first_at` is the one position before which no `c` stands and at which
/// one does, unless it is the end.
pub proof fn lemma_first_at(s: Seq<char>, c: char)
    ensures
        0 <= first_at(s, c) <= s.len(),
        first_at(s, c) < s.len() ==> s[first_at(s, c)] == c,
        forall|j: int| 0 <= j < first_at(s, c) ==> s[j] != c,
    decreases s.len(),
{
    if s.len() == 0 || s.first() == c {
    } else {
        let rest = s.drop_first();
        lemma_first_at(rest, c);
        assert forall|j: int| 0 <= j < first_at(s, c) implies s[j] != c by {
            if j > 0 {
                assert(s[j] == rest[j - 1]);
            }
        }
    }
}

/// A position with the two properties of `lemma_first_at` is `first_at`.
pub proof fn lemma_first_at_is(s: Seq<char>, c: char, k: int)
    requires
        0 <= k <= s.len(),
        k < s.len() ==> s[k] == c,
        forall|j: int| 0 <= j < k ==> s[j] != c,
    ensures
        first_at(s, c) == k,
    decreases s.len(),
{
    if s.len() == 0 || s.first() == c {
    } else {
        let rest = s.drop_first();
        assert forall|j: int| 0 <= j < k - 1 implies rest[j] != c by {
            assert(rest[j] == s[j + 1]);
        }
        lemma_first_at_is(rest, c, k - 1);
    }
}

/// White space in front of a text does not change what `trim_start` leaves.
pub proof fn lemma_trim_start_spaces(spaces: Seq<char>, s: Seq<char>)
    requires
        all_space(spaces),
    ensures
        trim_start(spaces + s) == trim_start(s),
    decreases spaces.len(),
{
    if spaces.len() == 0 {
        assert(spaces + s == s);
    } else {
        let whole = spaces + s;
        assert(whole.first() == spaces[0]);
        assert(whole.drop_first() == spaces.drop_first() + s);
        assert forall|i: int| 0 <= i < spaces.drop_first().len() implies is_space(
            #[trigger] spaces.drop_first()[i],
        ) by {
            assert(spaces.drop_first()[i] == spaces[i + 1]);
        }
        lemma_trim_start_spaces(spaces.drop_first(), s);
    }
}

/// White space behind a text does not change what `trim_end` leaves.
pub proof fn lemma_trim_end_spaces(s: Seq<char>, spaces: Seq<char>)
    requires
        all_space(spaces),
    ensures
        trim_end(s + spaces) == trim_end(s),
    decreases spaces.len(),
{
    if spaces.len() == 0 {
        assert(s + spaces == s);
    } else {
        let whole = s + spaces;
        assert(whole.last() == spaces.last());
        assert(whole.drop_last() == s + spaces.drop_last());
        assert forall|i: int| 0 <= i < spaces.drop_last().len() implies is_space(
            #[trigger] spaces.drop_last()[i],
        ) by {
            assert(spaces.drop_last()[i] == spaces[i]);
        }
        lemma_trim_end_spaces(s, spaces.drop_last());
    }
}

/// `trim_start` of two texts in a row: where the first is more than white
/// space, the second is left alone.
pub proof fn lemma_trim_start_of_two(s: Seq<char>, t: Seq<char>)
    ensures
        trim_start(s + t) == if trim_start(s).len() > 0 {
            trim_start(s) + t
        } else {
            trim_start(t)
        },
    decreases s.len(),
{
    if s.len() == 0 {
        assert(s + t == t);
    } else {
        let whole = s + t;
        assert(whole.first() == s.first());
        assert(whole.drop_first() == s.drop_first() + t);
        if is_space(s.first()) {
            lemma_trim_start_of_two(s.drop_first(), t);
        }
    }
}

/// White space around a text does not change what `trimmed` leaves.
pub proof fn lemma_trimmed_padding(before: Seq<char>, s: Seq<char>, after: Seq<char>)
    requires
        all_space(before),
        all_space(after),
    ensures
        trimmed(before + s + after) == trimmed(s),
{
    assert(before + s + after == before + (s + after));
    lemma_trim_start_spaces(before, s + after);
    lemma_trim_start_of_two(s, after);
    if trim_start(s).len() > 0 {
        lemma_trim_end_spaces(trim_start(s), after);
    } else {
        lemma_trim_start_spaces(after, Seq::empty());
        assert(after + Seq::<char>::empty() == after);
    }
}

/// A text made of white space is trimmed to nothing.
pub proof fn lemma_trimmed_spaces(spaces: Seq<char>)
    requires
        all_space(spaces),
    ensures
        trimmed(spaces) == Seq::<char>::empty(),
{
    lemma_trimmed_padding(spaces, Seq::empty(), Seq::empty());
    assert(spaces + Seq::<char>::empty() + Seq::<char>::empty() == spaces);
}

/// A text that holds no `sep` is one field.
pub proof fn lemma_fields_of_one(s: Seq<char>, sep: char)
    requires
        !s.contains(sep),
    ensures
        fields(s, sep) == seq![s],
{
    lemma_first_at(s, sep);
    if first_at(s, sep) < s.len() {
        assert(s.contains(s[first_at(s, sep)]));
    }
}

/// The fields of two texts with a separator between them are the fields of
/// the first and then those of the second.
pub proof fn lemma_fields_of_two(a: Seq<char>, sep: char, b: Seq<char>)
    ensures
        fields(a + seq![sep] + b, sep) == fields(a, sep) + fields(b, sep),
    decreases a.len(),
{
    let whole = a + seq![sep] + b;
    let cut = first_at(a, sep);
    lemma_first_at(a, sep);
    assert(whole[cut] == sep);
    assert forall|j: int| 0 <= j < cut implies whole[j] != sep by {
        assert(whole[j] == a[j]);
    }
    lemma_first_at_is(whole, sep, cut);
    if cut < a.len() {
        assert(whole.take(cut) == a.take(cut));
        assert(whole.skip(cut + 1) == a.skip(cut + 1) + seq![sep] + b);
        lemma_fields_of_two(a.skip(cut + 1), sep, b);
        assert(seq![a.take(cut)] + (fields(a.skip(cut + 1), sep) + fields(b, sep)) == seq![
            a.take(cut),
        ] + fields(a.skip(cut + 1), sep) + fields(b, sep));
    } else {
        assert(whole.take(cut) == a);
        assert(whole.skip(cut + 1) == b);
    }
}

/// Cutting what was joined gives the parts back, where no part holds the
/// separator.
pub proof fn lemma_fields_of_joined(parts: Seq<Seq<char>>, sep: char)
    requires
        parts.len() > 0,
        forall|i: int| 0 <= i < parts.len() ==> !(#[trigger] parts[i]).contains(sep),
    ensures
        fields(joined(parts, seq![sep]), sep) == parts,
    decreases parts.len(),
{
    if parts.len() == 1 {
        lemma_fields_of_one(parts[0], sep);
    } else {
        let front = parts.drop_last();
        assert forall|i: int| 0 <= i < front.len() implies !(#[trigger] front[i]).contains(
            sep,
        ) by {
            assert(front[i] == parts[i]);
        }
        lemma_fields_of_joined(front, sep);
        lemma_fields_of_two(joined(front, seq![sep]), sep, parts.last());
        lemma_fields_of_one(parts.last(), sep);
        assert(front + seq![parts.last()] == parts);
    }
}

/// Where part `i` begins in what `joined` makes of `parts`.
pub open spec fn start_in_joined(parts: Seq<Seq<char>>, sep: Seq<char>, i: int) -> int
    decreases i,
{
    if i <= 0 {
        0
    } else {
        start_in_joined(parts, sep, i - 1) + parts[i - 1].len() + sep.len()
    }
}

/// Where a part begins depends on the parts before it alone.
pub proof fn lemma_start_in_joined_front(
    parts: Seq<Seq<char>>,
    front: Seq<Seq<char>>,
    sep: Seq<char>,
    i: int,
)
    requires
        0 <= i <= front.len() <= parts.len(),
        forall|k: int| 0 <= k < front.len() ==> front[k] == parts[k],
    ensures
        start_in_joined(front, sep, i) == start_in_joined(parts, sep, i),
    decreases i,
{
    if i > 0 {
        lemma_start_in_joined_front(parts, front, sep, i - 1);
    }
}

/// A later part begins behind an earlier one and the separator that follows
/// it.
pub proof fn lemma_start_in_joined_ascends(
    parts: Seq<Seq<char>>,
    sep: Seq<char>,
    i: int,
    j: int,
)
    requires
        0 <= i < j,
    ensures
        start_in_joined(parts, sep, i) + parts[i].len() + sep.len() <= start_in_joined(
            parts,
            sep,
            j,
        ),
    decreases j,
{
    if i < j - 1 {
        lemma_start_in_joined_ascends(parts, sep, i, j - 1);
    }
}

/// What `joined` makes of `parts` holds each part where `start_in_joined`
/// says, and ends with the last.
pub proof fn lemma_joined_layout(parts: Seq<Seq<char>>, sep: Seq<char>)
    requires
        parts.len() > 0,
    ensures
        joined(parts, sep).len() == start_in_joined(parts, sep, parts.len() - 1)
            + parts.last().len(),
        forall|i: int|
            0 <= i < parts.len() ==> {
                let at = #[trigger] start_in_joined(parts, sep, i);
                &&& 0 <= at
                &&& at + parts[i].len() <= joined(parts, sep).len()
                &&& joined(parts, sep).subrange(at, at + parts[i].len()) == parts[i]
            },
    decreases parts.len(),
{
    let whole = joined(parts, sep);
    if parts.len() == 1 {
        assert(whole.subrange(0, whole.len() as int) == whole);
        assert forall|i: int| 0 <= i < parts.len() implies {
            let at = #[trigger] start_in_joined(parts, sep, i);
            &&& 0 <= at
            &&& at + parts[i].len() <= whole.len()
            &&& whole.subrange(at, at + parts[i].len()) == parts[i]
        } by {
            assert(i == 0);
        }
    } else {
        let front = parts.drop_last();
        let n = parts.len() - 1;
        lemma_joined_layout(front, sep);
        lemma_start_in_joined_front(parts, front, sep, n - 1);
        assert(front.last() == parts[n - 1]);
        assert(start_in_joined(parts, sep, n) == joined(front, sep).len() + sep.len());
        assert forall|i: int| 0 <= i < parts.len() implies {
            let at = #[trigger] start_in_joined(parts, sep, i);
            &&& 0 <= at
            &&& at + parts[i].len() <= whole.len()
            &&& whole.subrange(at, at + parts[i].len()) == parts[i]
        } by {
            let at = start_in_joined(parts, sep, i);
            if i < n {
                lemma_start_in_joined_front(parts, front, sep, i);
                let there = start_in_joined(front, sep, i);
                assert(front[i] == parts[i]);
                assert(joined(front, sep).subrange(there, there + front[i].len()) == front[i]);
                assert(whole.subrange(at, at + parts[i].len()) == joined(front, sep).subrange(
                    at,
                    at + parts[i].len(),
                ));
            } else {
                assert(whole.subrange(at, at + parts[i].len()) == parts[i]);
            }
        }
    }
}

/// `String::push` of the standard library: the string afterwards is the string
/// before with `ch` added at its end. This is not proved.
pub assume_specification[ String::push ](s: &mut String, ch: char)
    ensures
        final(s)@ == old(s)@.push(ch),
;

/// Tells whether `c` is white space.
pub fn is_white_space(c: char) -> (yes: bool)
    ensures
        yes == is_space(c),
{
    let n: u32 = c as u32;
    (0x09 <= n && n <= 0x0D) || n == 0x20 || n == 0x85 || n == 0xA0 || n == 0x1680 || (0x2000 <= n
        && n <= 0x200A) || n == 0x2028 || n == 0x2029 || n == 0x202F || n == 0x205F || n == 0x3000
}

/// The characters of `s`, in order.
pub fn to_chars(s: &str) -> (chars: Vec<char>)
    ensures
        chars@ == s@,
{
    let mut chars: Vec<char> = Vec::new();
    for c in it: s.chars()
        invariant
            chars@ == it.seq().take(it.index() as int),
            it.seq() == s@,
    {
        chars.push(c);
    }
    chars
}

/// The bounds of `chars[lo..hi]` without the white space at either end.
pub fn trim_range(chars: &Vec<char>, lo: usize, hi: usize) -> (bounds: (usize, usize))
    requires
        lo <= hi <= chars.len(),
    ensures
        lo <= bounds.0 <= bounds.1 <= hi,
        chars@.subrange(bounds.0 as int, bounds.1 as int) == trimmed(
            chars@.subrange(lo as int, hi as int),
        ),
{
    let mut a: usize = lo;
    while a < hi && is_white_space(chars[a])
        invariant
            lo <= a <= hi <= chars.len(),
            trim_start(chars@.subrange(a as int, hi as int)) == trim_start(
                chars@.subrange(lo as int, hi as int),
            ),
        decreases hi - a,
    {
        assert(chars@.subrange(a as int, hi as int).drop_first() == chars@.subrange(
            a + 1,
            hi as int,
        ));
        a += 1;
    }
    let mut b: usize = hi;
    while b > a && is_white_space(chars[b - 1])
        invariant
            a <= b <= hi <= chars.len(),
            trim_end(chars@.subrange(a as int, b as int)) == trim_end(
                chars@.subrange(a as int, hi as int),
            ),
        decreases b - a,
    {
        assert(chars@.subrange(a as int, b as int).drop_last() == chars@.subrange(
            a as int,
            b - 1,
        ));
        b -= 1;
    }
    (a, b)
}

/// The position of the first `c` in `chars[lo..hi]`, or `hi` where there is none.
pub fn find_char(chars: &Vec<char>, lo: usize, hi: usize, c: char) -> (at: usize)
    requires
        lo <= hi <= chars.len(),
    ensures
        lo <= at <= hi,
        at - lo == first_at(chars@.subrange(lo as int, hi as int), c),
{
    let mut at: usize = lo;
    while at < hi && chars[at] != c
        invariant
            lo <= at <= hi <= chars.len(),
            forall|j: int| lo <= j < at ==> chars@[j] != c,
        decreases hi - at,
    {
        at += 1;
    }
    proof {
        lemma_first_at_is(chars@.subrange(lo as int, hi as int), c, at - lo);
    }
    at
}

/// The text `chars[lo..hi]` as a string.
pub fn collect_range(chars: &Vec<char>, lo: usize, hi: usize) -> (s: String)
    requires
        lo <= hi <= chars.len(),
    ensures
        s@ == chars@.subrange(lo as int, hi as int),
{
    let mut s = String::new();
    let mut i: usize = lo;
    while i < hi
        invariant
            lo <= i <= hi <= chars.len(),
            s@ == chars@.subrange(lo as int, i as int),
        decreases hi - i,
    {
        s.push(chars[i]);
        i += 1;
        assert(s@ == chars@.subrange(lo as int, i as int));
    }
    s
}

} // verus!
