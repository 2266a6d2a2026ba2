//! Text as sequences of characters: the few string operations the rest of the
//! library is built from, each with the function it computes.

use vstd::prelude::*;

verus! {

broadcast use vstd::string::group_string_axioms;

/// Appends one character to a `String`: `String::push` of the standard
/// library leaves the string as it was, with the character added at its end.
pub assume_specification[ String::push ](s: &mut String, c: char)
    ensures
        final(s)@ == old(s)@.push(c),
;

/// The texts that a sequence of strings holds.
pub open spec fn views(items: Seq<String>) -> Seq<Seq<char>> {
    items.map_values(|s: String| s@)
}

/// The characters of a string.
pub fn chars(s: &str) -> (out: Vec<char>)
    ensures
        out@ == s@,
{
    let mut out: Vec<char> = Vec::new();
    for c in it: s.chars()
        invariant
            it.seq() == s@,
            out@ == it.seq().take(it.index() as int),
    {
        out.push(c);
    }
    out
}

/// The string made of `chars[from..to]`.
pub fn slice(chars: &Vec<char>, from: usize, to: usize) -> (out: String)
    requires
        from <= to <= chars.len(),
    ensures
        out@ == chars@.subrange(from as int, to as int),
{
    let mut out = String::new();
    let mut i: usize = from;
    while i < to
        invariant
            from <= i <= to <= chars.len(),
            out@ == chars@.subrange(from as int, i as int),
        decreases to - i,
    {
        out.push(chars[i]);
        i += 1;
    }
    out
}

/// Whether two strings hold the same text.
pub fn same(a: &str, b: &str) -> (r: bool)
    ensures
        r == (a@ == b@),
{
    let mut left = a.chars();
    let mut right = b.chars();
    let ghost mut i: int = 0;
    loop
        invariant
            0 <= i <= a@.len(),
            i <= b@.len(),
            vstd::std_specs::iter::IteratorSpec::obeys_prophetic_iter_laws(&left),
            vstd::std_specs::iter::IteratorSpec::obeys_prophetic_iter_laws(&right),
            vstd::std_specs::iter::IteratorSpec::remaining(&left) == a@.skip(i),
            vstd::std_specs::iter::IteratorSpec::remaining(&right) == b@.skip(i),
            a@.take(i) == b@.take(i),
        decreases a@.len() - i,
    {
        match (left.next(), right.next()) {
            (Some(x), Some(y)) => {
                if x != y {
                    assert(a@[i] != b@[i]);
                    return false;
                }
                assert(a@.take(i + 1) == a@.take(i).push(x));
                assert(b@.take(i + 1) == b@.take(i).push(y));
                proof {
                    i = i + 1;
                }
            },
            (None, None) => {
                assert(a@.take(i) == a@);
                assert(b@.take(i) == b@);
                return true;
            },
            _ => {
                return false;
            },
        }
    }
}

/// The same strings over again.
pub fn copies(items: &Vec<String>) -> (out: Vec<String>)
    ensures
        out@ == items@,
{
    let mut out: Vec<String> = Vec::new();
    let mut i: usize = 0;
    while i < items.len()
        invariant
            i <= items.len(),
            out@ == items@.take(i as int),
        decreases items.len() - i,
    {
        out.push(items[i].clone());
        i += 1;
        assert(items@.take(i as int) == items@.take(i - 1).push(items@[i - 1]));
    }
    assert(items@.take(i as int) == items@);
    out
}

/// Whether `items` holds a string of the given text.
pub fn holds(items: &Vec<String>, wanted: &str) -> (r: bool)
    ensures
        r == views(items@).contains(wanted@),
{
    let mut i: usize = 0;
    while i < items.len()
        invariant
            i <= items.len(),
            forall|k: int| 0 <= k < i ==> items@[k]@ != wanted@,
        decreases items.len() - i,
    {
        if same(&items[i], wanted) {
            assert(views(items@)[i as int] == wanted@);
            return true;
        }
        i += 1;
    }
    assert(!views(items@).contains(wanted@)) by {
        if views(items@).contains(wanted@) {
            let k = choose|k: int| 0 <= k < views(items@).len() && views(items@)[k] == wanted@;
            assert(items@[k]@ == wanted@);
        }
    }
    false
}

/// The texts one after the other, with `separator` between each two.
pub open spec fn joined(parts: Seq<Seq<char>>, separator: Seq<char>) -> Seq<char>
    decreases parts.len(),
{
    if parts.len() == 0 {
        Seq::empty()
    } else if parts.len() == 1 {
        parts[0]
    } else {
        joined(parts.drop_last(), separator) + separator + parts.last()
    }
}

/// Joins strings with a separator.
pub fn join(parts: &Vec<String>, separator: &str) -> (out: String)
    ensures
        out@ == joined(views(parts@), separator@),
{
    let mut out = String::new();
    let mut i: usize = 0;
    while i < parts.len()
        invariant
            i <= parts.len(),
            out@ == joined(views(parts@).take(i as int), separator@),
        decreases parts.len() - i,
    {
        let ghost done = views(parts@).take(i as int);
        let ghost next = views(parts@).take(i + 1);
        assert(next.drop_last() == done);
        if i > 0 {
            out.append(separator);
        }
        out.append(&parts[i]);
        assert(Seq::<char>::empty() + parts@[i as int]@ == parts@[i as int]@);
        i += 1;
    }
    assert(views(parts@).take(i as int) == views(parts@));
    out
}

/// The pieces of a text between the separators: always one more than there
/// are separators.
pub open spec fn split(text: Seq<char>, separator: char) -> Seq<Seq<char>>
    decreases text.len(),
{
    if text.len() == 0 {
        seq![Seq::empty()]
    } else {
        let before = split(text.drop_last(), separator);
        if text.last() == separator {
            before.push(Seq::empty())
        } else {
            before.drop_last().push(before.last().push(text.last()))
        }
    }
}

/// A text has at least one piece.
pub proof fn lemma_split_some(text: Seq<char>, separator: char)
    ensures
        split(text, separator).len() > 0,
    decreases text.len(),
{
    if text.len() > 0 {
        lemma_split_some(text.drop_last(), separator);
    }
}

/// Splits a text at every separator.
pub fn split_at(text: &Vec<char>, separator: char) -> (out: Vec<String>)
    ensures
        views(out@) == split(text@, separator),
{
    let mut out: Vec<String> = Vec::new();
    let mut piece = String::new();
    let mut i: usize = 0;
    assert(views(out@).push(piece@) == split(text@.take(0), separator));
    while i < text.len()
        invariant
            i <= text.len(),
            views(out@).push(piece@) == split(text@.take(i as int), separator),
        decreases text.len() - i,
    {
        let ghost seen = text@.take(i as int);
        let ghost more = text@.take(i + 1);
        assert(more.drop_last() == seen);
        assert(split(seen, separator).drop_last() == views(out@));
        let ghost before = out@;
        if text[i] == separator {
            out.push(piece);
            assert(views(out@) == views(before).push(piece@));
            piece = String::new();
        } else {
            piece.push(text[i]);
        }
        i += 1;
    }
    assert(text@.take(i as int) == text@);
    let ghost before = out@;
    out.push(piece);
    assert(views(out@) == views(before).push(piece@));
    out
}

/// The texts of `parts` that are not empty, in order.
pub open spec fn nonempty(parts: Seq<Seq<char>>) -> Seq<Seq<char>> {
    parts.filter(|part: Seq<char>| part.len() > 0)
}

/// Keeps the strings that are not empty.
pub fn keep_nonempty(parts: Vec<String>) -> (out: Vec<String>)
    ensures
        views(out@) == nonempty(views(parts@)),
{
    let mut out: Vec<String> = Vec::new();
    let mut i: usize = 0;
    assert(nonempty(views(parts@).take(0)) == Seq::<Seq<char>>::empty()) by {
        reveal(Seq::filter);
    }
    while i < parts.len()
        invariant
            i <= parts.len(),
            views(out@) == nonempty(views(parts@).take(i as int)),
        decreases parts.len() - i,
    {
        let ghost more = views(parts@).take(i + 1);
        assert(more.drop_last() == views(parts@).take(i as int));
        let ghost before = out@;
        proof {
            reveal(Seq::filter);
        }
        if !parts[i].as_str().is_empty() {
            out.push(parts[i].clone());
            assert(views(out@) == views(before).push(parts@[i as int]@));
        }
        i += 1;
    }
    assert(views(parts@).take(i as int) == views(parts@));
    out
}

/// The non-empty pieces of a path between its slashes.
pub open spec fn segments(path: Seq<char>) -> Seq<Seq<char>> {
    nonempty(split(path, '/'))
}

/// The non-empty pieces of a path between its slashes.
pub fn segments_of(path: &str) -> (out: Vec<String>)
    ensures
        views(out@) == segments(path@),
{
    keep_nonempty(split_at(&chars(path), '/'))
}

/// The text with every backslash turned into a slash.
pub open spec fn slashed(path: Seq<char>) -> Seq<char> {
    path.map_values(
        |c: char|
            if c == '\\' {
                '/'
            } else {
                c
            },
    )
}

/// Turns every backslash into a slash.
pub fn with_slashes(path: &str) -> (out: String)
    ensures
        out@ == slashed(path@),
{
    with_each(path, '\\', '/')
}

/// Replaces one character by another throughout.
pub fn with_each(text: &str, from: char, to: char) -> (out: String)
    ensures
        out@ == text@.map_values(
            |c: char|
                if c == from {
                    to
                } else {
                    c
                },
        ),
{
    let text = chars(text);
    let mut out = String::new();
    let mut i: usize = 0;
    while i < text.len()
        invariant
            i <= text.len(),
            out@.len() == i,
            forall|k: int|
                0 <= k < i ==> out@[k] == (if text@[k] == from {
                    to
                } else {
                    text@[k]
                }),
        decreases text.len() - i,
    {
        if text[i] == from {
            out.push(to);
        } else {
            out.push(text[i]);
        }
        i += 1;
    }
    out
}

/// Whether the first characters of a text are `prefix`.
pub open spec fn has_prefix(text: Seq<char>, prefix: Seq<char>) -> bool {
    prefix.len() <= text.len() && text.take(prefix.len() as int) == prefix
}

/// Whether the first characters of a text are `prefix`.
pub fn starts_with(text: &Vec<char>, prefix: &Vec<char>) -> (r: bool)
    ensures
        r == has_prefix(text@, prefix@),
{
    assert(text@.skip(0) == text@);
    found_at(text, 0, prefix)
}

/// Whether `pattern` stands in `text` at the position `at`.
pub fn found_at(text: &Vec<char>, at: usize, pattern: &Vec<char>) -> (r: bool)
    requires
        at <= text.len(),
    ensures
        r == has_prefix(text@.skip(at as int), pattern@),
{
    if pattern.len() > text.len() - at {
        return false;
    }
    let mut i: usize = 0;
    while i < pattern.len()
        invariant
            i <= pattern.len() <= text.len() - at,
            forall|k: int| 0 <= k < i ==> text@[at + k] == pattern@[k],
        decreases pattern.len() - i,
    {
        if text[at + i] != pattern[i] {
            assert(text@.skip(at as int).take(pattern@.len() as int)[i as int] != pattern@[i as int]);
            return false;
        }
        i += 1;
    }
    assert(text@.skip(at as int).take(pattern@.len() as int) == pattern@);
    true
}

/// Whether `pattern` stands somewhere in `text`.
pub open spec fn occurs(text: Seq<char>, pattern: Seq<char>) -> bool {
    exists|at: int| 0 <= at <= text.len() && #[trigger] has_prefix(text.skip(at), pattern)
}

/// Whether `pattern` stands somewhere in `text`.
pub fn contains(text: &str, pattern: &str) -> (r: bool)
    ensures
        r == occurs(text@, pattern@),
{
    let haystack = chars(text);
    let needle = chars(pattern);
    let mut at: usize = 0;
    loop
        invariant
            haystack@ == text@,
            needle@ == pattern@,
            at <= haystack.len(),
            forall|k: int| 0 <= k < at ==> !#[trigger] has_prefix(text@.skip(k), pattern@),
        decreases haystack.len() - at,
    {
        if found_at(&haystack, at, &needle) {
            return true;
        }
        if at == haystack.len() {
            return false;
        }
        at += 1;
    }
}

/// The text with every occurrence of `pattern`, taken from the left without
/// overlap, replaced by `with`.
pub open spec fn replaced(text: Seq<char>, pattern: Seq<char>, with: Seq<char>) -> Seq<char>
    decreases text.len(),
{
    if pattern.len() == 0 || text.len() == 0 {
        text
    } else if has_prefix(text, pattern) {
        with + replaced(text.skip(pattern.len() as int), pattern, with)
    } else {
        seq![text[0]] + replaced(text.skip(1), pattern, with)
    }
}

/// Replaces every occurrence of a non-empty pattern.
pub fn replace(text: &str, pattern: &str, with: &str) -> (out: String)
    requires
        pattern@.len() > 0,
    ensures
        out@ == replaced(text@, pattern@, with@),
{
    let text = chars(text);
    let pattern = chars(pattern);
    let mut out = String::new();
    let mut at: usize = 0;
    assert(text@.skip(0) == text@);
    assert(Seq::<char>::empty() + replaced(text@, pattern@, with@) == replaced(
        text@,
        pattern@,
        with@,
    ));
    while at < text.len()
        invariant
            at <= text.len(),
            pattern@.len() > 0,
            out@ + replaced(text@.skip(at as int), pattern@, with@) == replaced(
                text@,
                pattern@,
                with@,
            ),
        decreases text.len() - at,
    {
        let ghost rest = text@.skip(at as int);
        let ghost before = out@;
        if found_at(&text, at, &pattern) {
            out.append(with);
            assert(rest.skip(pattern@.len() as int) == text@.skip(at + pattern@.len()));
            at += pattern.len();
            assert(before + (with@ + replaced(text@.skip(at as int), pattern@, with@)) == out@
                + replaced(text@.skip(at as int), pattern@, with@));
        } else {
            out.push(text[at]);
            assert(rest.skip(1) == text@.skip(at + 1));
            at += 1;
            assert(before + (seq![rest[0]] + replaced(text@.skip(at as int), pattern@, with@))
                == out@ + replaced(text@.skip(at as int), pattern@, with@));
        }
    }
    assert(text@.skip(at as int) == Seq::<char>::empty());
    assert(out@ + Seq::<char>::empty() == out@);
    out
}

/// `width` spaces.
pub open spec fn spaces(width: int) -> Seq<char> {
    repeated(' ', width)
}

/// One character over and over.
pub open spec fn repeated(c: char, count: int) -> Seq<char> {
    Seq::new(
        (if count < 0 {
            0
        } else {
            count
        }) as nat,
        |i: int| c,
    )
}

/// Repeats one character.
pub fn repeat(c: char, count: usize) -> (out: String)
    ensures
        out@ == repeated(c, count as int),
{
    let mut out = String::new();
    let mut i: usize = 0;
    while i < count
        invariant
            i <= count,
            out@ == repeated(c, i as int),
        decreases count - i,
    {
        out.push(c);
        i += 1;
    }
    out
}

/// A cell of a column: the text, then the spaces that fill it up to `width`.
/// A longer text is not cut.
pub open spec fn left_aligned(text: Seq<char>, width: int) -> Seq<char> {
    text + spaces(width - text.len())
}

/// A cell of a column: the spaces that fill it up to `width`, then the text.
pub open spec fn right_aligned(text: Seq<char>, width: int) -> Seq<char> {
    spaces(width - text.len()) + text
}

/// How many spaces bring a text up to `width`.
fn fill(text: &str, width: usize) -> (out: String)
    ensures
        out@ == spaces(width - text@.len()),
{
    let length: usize = text.unicode_len();
    if length < width {
        repeat(' ', width - length)
    } else {
        repeat(' ', 0)
    }
}

/// Fills a cell up with spaces on the right.
pub fn align_left(text: &str, width: usize) -> (out: String)
    ensures
        out@ == left_aligned(text@, width as int),
{
    let mut out = text.to_owned();
    out.append(&fill(text, width));
    out
}

/// Fills a cell up with spaces on the left.
pub fn align_right(text: &str, width: usize) -> (out: String)
    ensures
        out@ == right_aligned(text@, width as int),
{
    let mut out = fill(text, width);
    out.append(text);
    out
}

/// The decimal digit of a number below ten.
pub open spec fn digit(n: nat) -> char {
    (48 + n) as char
}

/// The decimal notation of a number.
pub open spec fn decimal(n: nat) -> Seq<char>
    decreases n,
{
    if n < 10 {
        seq![digit(n)]
    } else {
        decimal(n / 10).push(digit(n % 10))
    }
}

/// Writes a number in decimal.
pub fn number(n: u64) -> (out: String)
    ensures
        out@ == decimal(n as nat),
    decreases n,
{
    let mut out = if n < 10 {
        String::new()
    } else {
        number(n / 10)
    };
    let c = match n % 10 {
        0 => '0',
        1 => '1',
        2 => '2',
        3 => '3',
        4 => '4',
        5 => '5',
        6 => '6',
        7 => '7',
        8 => '8',
        _ => '9',
    };
    out.push(c);
    assert(c == digit((n % 10) as nat));
    out
}

/// The lexicographic order of texts, by code point: what comes first, when the
/// texts are told apart by their first difference.
pub open spec fn before(a: Seq<char>, b: Seq<char>) -> bool
    decreases a.len(),
{
    if b.len() == 0 {
        false
    } else if a.len() == 0 {
        true
    } else if a[0] == b[0] {
        before(a.skip(1), b.skip(1))
    } else {
        a[0] < b[0]
    }
}

/// No text comes before itself.
pub proof fn lemma_before_irreflexive(a: Seq<char>)
    ensures
        !before(a, a),
    decreases a.len(),
{
    if a.len() > 0 {
        lemma_before_irreflexive(a.skip(1));
    }
}

/// The order of texts is transitive.
pub proof fn lemma_before_transitive(a: Seq<char>, b: Seq<char>, c: Seq<char>)
    requires
        before(a, b),
        before(b, c),
    ensures
        before(a, c),
    decreases a.len(),
{
    if a.len() > 0 && b.len() > 0 && c.len() > 0 && a[0] == b[0] && b[0] == c[0] {
        lemma_before_transitive(a.skip(1), b.skip(1), c.skip(1));
    }
}

/// Of two different texts one comes before the other.
pub proof fn lemma_before_total(a: Seq<char>, b: Seq<char>)
    ensures
        a == b || before(a, b) || before(b, a),
    decreases a.len(),
{
    if a.len() == 0 && b.len() == 0 {
        assert(a == b);
    } else if a.len() > 0 && b.len() > 0 && a[0] == b[0] {
        lemma_before_total(a.skip(1), b.skip(1));
        if a.skip(1) == b.skip(1) {
            assert(a == seq![a[0]] + a.skip(1));
            assert(b == seq![b[0]] + b.skip(1));
        }
    }
}

/// Whether `a` comes before `b`.
pub fn comes_before(a: &str, b: &str) -> (r: bool)
    ensures
        r == before(a@, b@),
{
    let mut left = a.chars();
    let mut right = b.chars();
    let ghost mut i: int = 0;
    assert(a@.skip(0) == a@);
    assert(b@.skip(0) == b@);
    loop
        invariant
            0 <= i <= a@.len(),
            i <= b@.len(),
            vstd::std_specs::iter::IteratorSpec::obeys_prophetic_iter_laws(&left),
            vstd::std_specs::iter::IteratorSpec::obeys_prophetic_iter_laws(&right),
            vstd::std_specs::iter::IteratorSpec::remaining(&left) == a@.skip(i),
            vstd::std_specs::iter::IteratorSpec::remaining(&right) == b@.skip(i),
            before(a@, b@) == before(a@.skip(i), b@.skip(i)),
        decreases a@.len() - i,
    {
        match (left.next(), right.next()) {
            (Some(x), Some(y)) => {
                if x != y {
                    return x < y;
                }
                assert(a@.skip(i).skip(1) == a@.skip(i + 1));
                assert(b@.skip(i).skip(1) == b@.skip(i + 1));
                proof {
                    i = i + 1;
                }
            },
            (None, Some(_)) => {
                return true;
            },
            _ => {
                return false;
            },
        }
    }
}

/// The text without one carriage return at its end, if it has one there.
pub open spec fn without_return(line: Seq<char>) -> Seq<char> {
    if line.len() > 0 && line.last() == '\r' {
        line.drop_last()
    } else {
        line
    }
}

/// The lines of a text. A line ends at a line feed, or at a carriage return
/// followed by one; what follows the last line feed is a line if it is not
/// empty.
pub open spec fn lines(text: Seq<char>) -> Seq<Seq<char>> {
    let pieces = split(text, '\n');
    let ended = pieces.drop_last().map_values(|line: Seq<char>| without_return(line));
    if pieces.last().len() == 0 {
        ended
    } else {
        ended.push(pieces.last())
    }
}

/// Splits a text into its lines.
pub fn lines_of(text: &str) -> (out: Vec<String>)
    ensures
        views(out@) == lines(text@),
{
    let pieces = split_at(&chars(text), '\n');
    proof {
        lemma_split_some(text@, '\n');
    }
    let last: usize = pieces.len() - 1;
    let ghost texts = split(text@, '\n');
    let ghost ended = texts.drop_last().map_values(|line: Seq<char>| without_return(line));
    let mut out: Vec<String> = Vec::new();
    let mut i: usize = 0;
    while i < last
        invariant
            i <= last,
            last == pieces.len() - 1,
            views(pieces@) == texts,
            ended == texts.drop_last().map_values(|line: Seq<char>| without_return(line)),
            views(out@) == ended.take(i as int),
        decreases last - i,
    {
        let line = chars(&pieces[i]);
        let length: usize = line.len();
        let end: usize = if length > 0 && line[length - 1] == '\r' {
            length - 1
        } else {
            length
        };
        let ghost before = out@;
        assert(texts[i as int] == line@);
        assert(line@.subrange(0, end as int) == without_return(line@));
        out.push(slice(&line, 0, end));
        assert(views(out@) == views(before).push(without_return(line@)));
        i += 1;
        assert(ended.take(i as int) == ended.take(i - 1).push(ended[i - 1]));
    }
    assert(ended.take(i as int) == ended);
    assert(texts.last() == pieces@[last as int]@);
    if !pieces[last].as_str().is_empty() {
        let ghost before = out@;
        out.push(pieces[last].clone());
        assert(views(out@) == views(before).push(texts.last()));
    }
    out
}

/// The characters that Unicode calls white space.
pub open spec fn is_white(c: char) -> bool {
    ||| '\t' <= c <= '\r'
    ||| c == ' '
    ||| c == '\u{85}'
    ||| c == '\u{a0}'
    ||| c == '\u{1680}'
    ||| '\u{2000}' <= c <= '\u{200a}'
    ||| c == '\u{2028}'
    ||| c == '\u{2029}'
    ||| c == '\u{202f}'
    ||| c == '\u{205f}'
    ||| c == '\u{3000}'
}

/// Whether Unicode calls a character white space.
pub fn white(c: char) -> (r: bool)
    ensures
        r == is_white(c),
{
    ('\t' <= c && c <= '\r') || c == ' ' || c == '\u{85}' || c == '\u{a0}' || c == '\u{1680}' || (
    '\u{2000}' <= c && c <= '\u{200a}') || c == '\u{2028}' || c == '\u{2029}' || c == '\u{202f}'
        || c == '\u{205f}' || c == '\u{3000}'
}

/// The words of a text: its non-empty pieces between white space.
pub open spec fn words(text: Seq<char>) -> Seq<Seq<char>> {
    nonempty(
        split(
            text.map_values(
                |c: char|
                    if is_white(c) {
                        ' '
                    } else {
                        c
                    },
            ),
            ' ',
        ),
    )
}

/// Splits a text into its words.
pub fn words_of(text: &str) -> (out: Vec<String>)
    ensures
        views(out@) == words(text@),
{
    let text = chars(text);
    let mut spaced: Vec<char> = Vec::new();
    let mut i: usize = 0;
    while i < text.len()
        invariant
            i <= text.len(),
            spaced@.len() == i,
            forall|k: int|
                0 <= k < i ==> spaced@[k] == (if is_white(text@[k]) {
                    ' '
                } else {
                    text@[k]
                }),
        decreases text.len() - i,
    {
        if white(text[i]) {
            spaced.push(' ');
        } else {
            spaced.push(text[i]);
        }
        i += 1;
    }
    assert(spaced@ == text@.map_values(
        |c: char|
            if is_white(c) {
                ' '
            } else {
                c
            },
    ));
    keep_nonempty(split_at(&spaced, ' '))
}

/// Whether a character is a decimal digit.
pub open spec fn is_digit(c: char) -> bool {
    '0' <= c <= '9'
}

/// Whether a text is made of decimal digits.
pub open spec fn all_digits(text: Seq<char>) -> bool {
    forall|i: int| 0 <= i < text.len() ==> is_digit(#[trigger] text[i])
}

/// The number that a row of decimal digits stands for.
pub open spec fn digits_value(digits: Seq<char>) -> nat
    decreases digits.len(),
{
    if digits.len() == 0 {
        0
    } else {
        digits_value(digits.drop_last()) * 10 + (digits.last() as int - '0' as int) as nat
    }
}

/// The number that a text writes down in decimal: at least one digit and
/// nothing else, but for a plus sign that may stand in front.
pub open spec fn parsed(text: Seq<char>) -> Option<nat> {
    let digits = if has_prefix(text, seq!['+']) {
        text.skip(1)
    } else {
        text
    };
    if digits.len() > 0 && all_digits(digits) {
        Some(digits_value(digits))
    } else {
        None
    }
}

/// A longer row of digits does not stand for a smaller number.
proof fn lemma_digits_grow(digits: Seq<char>, n: int)
    requires
        0 <= n <= digits.len(),
        all_digits(digits),
    ensures
        digits_value(digits.take(n)) <= digits_value(digits),
    decreases digits.len(),
{
    if n < digits.len() {
        lemma_digits_grow(digits.drop_last(), n);
        assert(digits.drop_last().take(n) == digits.take(n));
    } else {
        assert(digits.take(n) == digits);
    }
}

/// Reads a decimal number no larger than `limit`.
pub fn parse(text: &str, limit: u64) -> (out: Option<u64>)
    ensures
        out == (match parsed(text@) {
            Some(n) if n <= limit => Some(n as u64),
            _ => None,
        }),
{
    let all = chars(text);
    let start: usize = if all.len() > 0 && all[0] == '+' {
        1
    } else {
        0
    };
    proof {
        let plus = seq!['+'];
        if all@.len() > 0 {
            assert(all@.take(1) == seq![all@[0]]);
            assert(all@.take(1)[0] == all@[0]);
        }
        assert(has_prefix(all@, plus) == (start == 1));
    }
    let ghost digits = if start == 1 {
        all@.skip(1)
    } else {
        all@
    };
    assert(digits == all@.skip(start as int));
    if all.len() == start {
        return None;
    }
    let mut value: u64 = 0;
    let mut i: usize = start;
    while i < all.len()
        invariant
            start <= i <= all.len(),
            all@ == text@,
            start < all.len(),
            digits == all@.skip(start as int),
            parsed(text@) == (if all_digits(digits) {
                Some(digits_value(digits))
            } else {
                None::<nat>
            }),
            forall|k: int| 0 <= k < i - start ==> is_digit(#[trigger] digits[k]),
            value == digits_value(digits.take(i - start)),
            value <= limit,
        decreases all.len() - i,
    {
        let c = all[i];
        assert(digits[i - start] == c);
        if c < '0' || '9' < c {
            assert(!is_digit(digits[i - start]));
            return None;
        }
        let d: u64 = (c as u32 - '0' as u32) as u64;
        let ghost more = digits.take(i + 1 - start);
        assert(more.drop_last() == digits.take(i - start));
        assert(digits_value(more) == value * 10 + d);
        if d > limit || value > (limit - d) / 10 {
            proof {
                if all_digits(digits) {
                    lemma_digits_grow(digits, i + 1 - start);
                }
            }
            return None;
        }
        value = value * 10 + d;
        i += 1;
    }
    assert(digits.take(i - start) == digits);
    Some(value)
}

/// The text without the white space at its end.
pub open spec fn trimmed_end(text: Seq<char>) -> Seq<char>
    decreases text.len(),
{
    if text.len() > 0 && is_white(text.last()) {
        trimmed_end(text.drop_last())
    } else {
        text
    }
}

/// Drops the white space at the end of a text.
pub fn trim_end(text: &str) -> (out: String)
    ensures
        out@ == trimmed_end(text@),
{
    let all = chars(text);
    let mut end: usize = all.len();
    assert(all@.take(end as int) == all@);
    while end > 0 && white(all[end - 1])
        invariant
            end <= all.len(),
            trimmed_end(all@.take(end as int)) == trimmed_end(all@),
        decreases end,
    {
        assert(all@.take(end as int).drop_last() == all@.take(end - 1));
        end -= 1;
    }
    slice(&all, 0, end)
}

/// The text with a carriage return before every line feed.
pub open spec fn with_returns(text: Seq<char>) -> Seq<char>
    decreases text.len(),
{
    if text.len() == 0 {
        Seq::empty()
    } else if text.last() == '\n' {
        with_returns(text.drop_last()).push('\r').push('\n')
    } else {
        with_returns(text.drop_last()).push(text.last())
    }
}

proof fn lemma_split_returns(text: Seq<char>)
    requires
        !text.contains('\r'),
    ensures
        split(text, '\n').len() > 0,
        split(with_returns(text), '\n').len() == split(text, '\n').len(),
        split(with_returns(text), '\n').last() == split(text, '\n').last(),
        forall|i: int|
            0 <= i < split(text, '\n').len() - 1 ==> (#[trigger] split(
                with_returns(text),
                '\n',
            )[i]) == split(text, '\n')[i].push('\r'),
        forall|i: int|
            0 <= i < split(text, '\n').len() ==> !(#[trigger] split(text, '\n')[i]).contains('\r'),
    decreases text.len(),
{
    if text.len() > 0 {
        let rest = text.drop_last();
        let c = text.last();
        assert(text[text.len() - 1] == c);
        assert forall|x: char| rest.contains(x) implies text.contains(x) by {
            let k = choose|k: int| 0 <= k < rest.len() && rest[k] == x;
            assert(text[k] == x);
        }
        lemma_split_returns(rest);
        let marked = with_returns(rest);
        let before = split(rest, '\n');
        let after = split(marked, '\n');
        let all = split(text, '\n');
        let whole = split(with_returns(text), '\n');
        if c == '\n' {
            let ended = marked.push('\r');
            assert(ended.drop_last() == marked);
            assert(with_returns(text).drop_last() == ended);
            assert(split(ended, '\n') == after.drop_last().push(after.last().push('\r')));
            assert(whole == split(ended, '\n').push(Seq::empty()));
            assert(all == before.push(Seq::empty()));
        } else {
            assert(with_returns(text).drop_last() == marked);
            assert(whole == after.drop_last().push(after.last().push(c)));
            assert(all == before.drop_last().push(before.last().push(c)));
            assert forall|i: int| 0 <= i < all.len() implies !(#[trigger] all[i]).contains('\r') by {
                if i == all.len() - 1 {
                    let last = before.last();
                    assert(!before[before.len() - 1].contains('\r'));
                    if all[i].contains('\r') {
                        let k = choose|k: int| 0 <= k < all[i].len() && all[i][k] == '\r';
                        assert(k < last.len() ==> last[k] == '\r');
                        assert(text.contains(c));
                    }
                } else {
                    assert(all[i] == before[i]);
                }
            }
        }
    } else {
        assert(with_returns(text) == text);
        assert(!Seq::<char>::empty().contains('\r'));
    }
}

/// How lines end makes no difference: a carriage return before every line feed
/// leaves the lines of a text as they are.
pub proof fn law_line_endings_make_no_difference(text: Seq<char>)
    requires
        !text.contains('\r'),
    ensures
        lines(with_returns(text)) == lines(text),
{
    lemma_split_returns(text);
    let plain = split(text, '\n');
    let marked = split(with_returns(text), '\n');
    let ended = plain.drop_last().map_values(|line: Seq<char>| without_return(line));
    let closed = marked.drop_last().map_values(|line: Seq<char>| without_return(line));
    assert forall|i: int| 0 <= i < ended.len() implies ended[i] == closed[i] by {
        assert(!plain[i].contains('\r'));
        if plain[i].len() > 0 {
            assert(plain[i].contains(plain[i].last()));
        }
        assert(marked[i] == plain[i].push('\r'));
        assert(plain[i].push('\r').drop_last() == plain[i]);
    }
    assert(ended == closed);
}

/// Whether a text is made of whole lines: it is empty, or ends in a line feed.
pub open spec fn whole_lines(text: Seq<char>) -> bool {
    text.len() == 0 || text.last() == '\n'
}

/// What follows a separator is split by itself.
pub proof fn lemma_split_after(a: Seq<char>, b: Seq<char>, separator: char)
    requires
        a.len() == 0 || a.last() == separator,
    ensures
        split(a, separator).last() == Seq::<char>::empty(),
        split(a + b, separator) == split(a, separator).drop_last() + split(b, separator),
    decreases b.len(),
{
    lemma_split_some(a, separator);
    lemma_split_some(b, separator);
    if b.len() == 0 {
        assert(a + b == a);
        assert(split(a, separator) == split(a, separator).drop_last() + split(b, separator));
    } else {
        lemma_split_after(a, b.drop_last(), separator);
        lemma_split_some(b.drop_last(), separator);
        assert((a + b).drop_last() == a + b.drop_last());
        assert(split(a + b, separator) == split(a, separator).drop_last() + split(b, separator));
    }
}

/// A text without a separator is one piece.
proof fn lemma_split_one(text: Seq<char>, separator: char)
    requires
        !text.contains(separator),
    ensures
        split(text, separator) == seq![text],
    decreases text.len(),
{
    if text.len() == 0 {
        assert(text == Seq::<char>::empty());
    } else {
        let rest = text.drop_last();
        if rest.contains(separator) {
            let i = choose|i: int| 0 <= i < rest.len() && rest[i] == separator;
            assert(text[i] == separator);
        }
        assert(text.contains(text.last()));
        lemma_split_one(rest, separator);
        assert(rest.push(text.last()) == text);
        assert(split(text, separator) == seq![text]);
    }
}

/// Splitting undoes joining: texts that hold no separator come back.
pub proof fn law_splitting_undoes_joining(parts: Seq<Seq<char>>, separator: char)
    requires
        parts.len() > 0,
        forall|i: int| 0 <= i < parts.len() ==> !(#[trigger] parts[i]).contains(separator),
    ensures
        split(joined(parts, seq![separator]), separator) == parts,
    decreases parts.len(),
{
    let last = parts.last();
    assert(!parts[parts.len() - 1].contains(separator));
    lemma_split_one(last, separator);
    if parts.len() == 1 {
        assert(parts == seq![last]);
    } else {
        let rest = parts.drop_last();
        assert forall|i: int| 0 <= i < rest.len() implies !(#[trigger] rest[i]).contains(
            separator,
        ) by {
            assert(rest[i] == parts[i]);
        }
        law_splitting_undoes_joining(rest, separator);
        let before = joined(rest, seq![separator]);
        let ended = before.push(separator);
        assert(before + seq![separator] == ended);
        assert(ended.drop_last() == before);
        lemma_split_after(ended, last, separator);
        assert(split(ended, separator).drop_last() == rest);
        assert(rest + seq![last] == parts);
    }
}

/// The lines of a text that follows whole lines are added to theirs.
pub proof fn law_lines_follow_whole_lines(a: Seq<char>, b: Seq<char>)
    requires
        whole_lines(a),
    ensures
        lines(a + b) == lines(a) + lines(b),
{
    lemma_split_some(a, '\n');
    lemma_split_some(b, '\n');
    lemma_split_after(a, b, '\n');
    let before = split(a, '\n');
    let after = split(b, '\n');
    assert((before.drop_last() + after).drop_last() == before.drop_last() + after.drop_last());
    let bare = |line: Seq<char>| without_return(line);
    assert((before.drop_last() + after.drop_last()).map_values(bare)
        == before.drop_last().map_values(bare) + after.drop_last().map_values(bare));
    assert(lines(a + b) == lines(a) + lines(b));
}

/// A separator separates: what stands before it and what stands after it are split
/// each by itself. A text that holds none is one piece.
pub proof fn law_a_separator_separates(a: Seq<char>, b: Seq<char>, separator: char)
    ensures
        split(a.push(separator) + b, separator) == split(a, separator) + split(b, separator),
        !a.contains(separator) ==> split(a, separator) == seq![a],
{
    let ended = a.push(separator);
    lemma_split_after(ended, b, separator);
    assert(ended.drop_last() == a);
    assert(split(ended, separator).drop_last() == split(a, separator));
    if !a.contains(separator) {
        lemma_split_one(a, separator);
    }
}

/// The texts that are not empty are kept, all of them and in order, and no others.
pub proof fn law_only_empty_texts_are_dropped(a: Seq<Seq<char>>, text: Seq<char>)
    ensures
        nonempty(Seq::<Seq<char>>::empty()) == Seq::<Seq<char>>::empty(),
        text.len() > 0 ==> nonempty(a.push(text)) == nonempty(a).push(text),
        text.len() == 0 ==> nonempty(a.push(text)) == nonempty(a),
{
    reveal(Seq::filter);
    a.lemma_filter_push(text, |part: Seq<char>| part.len() > 0);
    assert(nonempty(a.push(text)) == a.push(text).filter(|part: Seq<char>| part.len() > 0));
    assert(nonempty(a) == a.filter(|part: Seq<char>| part.len() > 0));
}

proof fn lemma_nonempty_add(a: Seq<Seq<char>>, b: Seq<Seq<char>>)
    ensures
        nonempty(a + b) == nonempty(a) + nonempty(b),
{
    Seq::filter_distributes_over_add(a, b, |part: Seq<char>| part.len() > 0);
    assert(nonempty(a + b) == (a + b).filter(|part: Seq<char>| part.len() > 0));
    assert(nonempty(a) == a.filter(|part: Seq<char>| part.len() > 0));
    assert(nonempty(b) == b.filter(|part: Seq<char>| part.len() > 0));
}

/// The segments of a path are those before a slash and those after it; a text
/// without a slash is one segment, unless it is empty.
pub proof fn law_segments_stand_between_slashes(a: Seq<char>, b: Seq<char>)
    ensures
        segments(a.push('/') + b) == segments(a) + segments(b),
        !a.contains('/') && a.len() > 0 ==> segments(a) == seq![a],
        a.len() == 0 ==> segments(a) == Seq::<Seq<char>>::empty(),
{
    law_a_separator_separates(a, b, '/');
    lemma_nonempty_add(split(a, '/'), split(b, '/'));
    if !a.contains('/') {
        let none = Seq::<Seq<char>>::empty();
        law_only_empty_texts_are_dropped(none, a);
        assert(none.push(a) == seq![a]);
    }
}

/// The segments that a path is joined from come back, and so they do behind a
/// slash and with a slash at the end.
pub proof fn law_segments_undo_joining(parts: Seq<Seq<char>>)
    requires
        forall|i: int|
            0 <= i < parts.len() ==> (#[trigger] parts[i]).len() > 0 && !parts[i].contains('/'),
    ensures
        segments(joined(parts, seq!['/'])) == parts,
    decreases parts.len(),
{
    if parts.len() == 0 {
        law_segments_stand_between_slashes(Seq::empty(), Seq::empty());
    } else {
        let last = parts[parts.len() - 1];
        assert(last.len() > 0 && !last.contains('/'));
        law_segments_stand_between_slashes(last, Seq::empty());
        if parts.len() == 1 {
            assert(parts == seq![last]);
        } else {
            let rest = parts.drop_last();
            assert forall|i: int| 0 <= i < rest.len() implies (#[trigger] rest[i]).len() > 0
                && !rest[i].contains('/') by {
                assert(rest[i] == parts[i]);
            }
            law_segments_undo_joining(rest);
            let before = joined(rest, seq!['/']);
            law_segments_stand_between_slashes(before, last);
            assert(before + seq!['/'] + last == before.push('/') + last);
            assert(rest + seq![last] == parts);
        }
    }
}

/// Only backslashes are turned into slashes.
pub proof fn law_only_backslashes_turn(path: Seq<char>, i: int)
    requires
        0 <= i < path.len(),
    ensures
        slashed(path).len() == path.len(),
        path[i] == '\\' ==> slashed(path)[i] == '/',
        path[i] != '\\' ==> slashed(path)[i] == path[i],
{
}

/// Texts that are joined stand one after the other, with the separator between
/// what stands before and what stands after.
pub proof fn law_joined_texts_follow_each_other(
    a: Seq<Seq<char>>,
    b: Seq<Seq<char>>,
    text: Seq<char>,
    separator: Seq<char>,
)
    requires
        a.len() > 0,
        b.len() > 0,
    ensures
        joined(Seq::<Seq<char>>::empty(), separator) == Seq::<char>::empty(),
        joined(seq![text], separator) == text,
        joined(a + b, separator) == joined(a, separator) + separator + joined(b, separator),
    decreases b.len(),
{
    assert((a + b).drop_last() == a + b.drop_last());
    assert((a + b).last() == b.last());
    if b.len() == 1 {
        assert(a + b.drop_last() == a);
        assert(joined(b, separator) == b.last());
    } else {
        law_joined_texts_follow_each_other(a, b.drop_last(), text, separator);
        let x = joined(a, separator);
        let y = joined(b.drop_last(), separator);
        assert((x + separator + y) + separator + b.last() == x + separator + (y + separator
            + b.last()));
    }
}

/// A text occurs wherever it stands, and only there.
pub proof fn law_what_stands_in_a_text_occurs(a: Seq<char>, pattern: Seq<char>, b: Seq<char>)
    ensures
        occurs(a + pattern + b, pattern),
        occurs(a, pattern) ==> exists|x: Seq<char>, y: Seq<char>|
            #[trigger] (x + pattern + y) == a,
{
    let whole = a + pattern + b;
    assert(whole.skip(a.len() as int).take(pattern.len() as int) == pattern);
    assert(has_prefix(whole.skip(a.len() as int), pattern));
    if occurs(a, pattern) {
        let at = choose|at: int| 0 <= at <= a.len() && #[trigger] has_prefix(a.skip(at), pattern);
        let x = a.take(at);
        let y = a.skip(at + pattern.len());
        assert(a.skip(at).take(pattern.len() as int) == pattern);
        assert(a == x + a.skip(at));
        assert(a.skip(at) == a.skip(at).take(pattern.len() as int) + a.skip(at).skip(
            pattern.len() as int,
        ));
        assert(a.skip(at).skip(pattern.len() as int) == y);
        assert(x + pattern + y == a);
    }
}

/// A text in which the pattern does not occur stays as it is. The first occurrence
/// is replaced, and what follows it is replaced by itself.
pub proof fn law_the_first_occurrence_is_replaced(
    a: Seq<char>,
    pattern: Seq<char>,
    b: Seq<char>,
    with: Seq<char>,
)
    requires
        pattern.len() > 0,
        !occurs(a + pattern.drop_last(), pattern),
    ensures
        replaced(a + pattern + b, pattern, with) == a + with + replaced(b, pattern, with),
        replaced(a, pattern, with) == a,
    decreases a.len(),
{
    let whole = a + pattern + b;
    if a.len() == 0 {
        assert(whole.take(pattern.len() as int) == pattern);
        assert(whole.skip(pattern.len() as int) == b);
        assert(a + with == with);
    } else {
        let rest = a.skip(1);
        let start = a + pattern.drop_last();
        assert forall|at: int| 0 <= at <= (rest + pattern.drop_last()).len() implies !(
        #[trigger] has_prefix((rest + pattern.drop_last()).skip(at), pattern)) by {
            assert((rest + pattern.drop_last()).skip(at) == start.skip(at + 1));
            assert(!has_prefix(start.skip(at + 1), pattern));
        }
        law_the_first_occurrence_is_replaced(rest, pattern, b, with);
        if has_prefix(whole, pattern) {
            assert(start.skip(0).take(pattern.len() as int) == whole.take(pattern.len() as int));
            assert(has_prefix(start.skip(0), pattern));
        }
        if has_prefix(a, pattern) {
            assert(start.skip(0).take(pattern.len() as int) == a.take(pattern.len() as int));
            assert(has_prefix(start.skip(0), pattern));
        }
        assert(whole.skip(1) == rest + pattern + b);
        assert(whole[0] == a[0]);
        assert(seq![a[0]] + (rest + with + replaced(b, pattern, with)) == a + with + replaced(
            b,
            pattern,
            with,
        ));
        assert(seq![a[0]] + rest == a);
    }
}

/// A cell holds its text whole, is filled up with spaces only, and is as wide as
/// its column, or as its text where that is wider.
pub proof fn law_a_cell_holds_its_text(text: Seq<char>, width: int, i: int)
    ensures
        left_aligned(text, width).take(text.len() as int) == text,
        text.len() <= i < left_aligned(text, width).len() ==> left_aligned(text, width)[i] == ' ',
        right_aligned(text, width).skip(right_aligned(text, width).len() - text.len()) == text,
        0 <= i < right_aligned(text, width).len() - text.len() ==> right_aligned(text, width)[i]
            == ' ',
        text.len() <= width ==> left_aligned(text, width).len() == width && right_aligned(
            text,
            width,
        ).len() == width,
        text.len() > width ==> left_aligned(text, width) == text && right_aligned(text, width)
            == text,
{
    assert(left_aligned(text, width).take(text.len() as int) == text);
    assert(right_aligned(text, width).skip(right_aligned(text, width).len() - text.len()) == text);
    if text.len() > width {
        assert(left_aligned(text, width) == text);
        assert(right_aligned(text, width) == text);
    }
}

proof fn lemma_decimal_digits(n: nat)
    ensures
        decimal(n).len() > 0,
        all_digits(decimal(n)),
        digits_value(decimal(n)) == n,
        n > 0 ==> decimal(n)[0] != '0',
    decreases n,
{
    if n < 10 {
        let c = digit(n);
        assert(c as int == 48 + n);
        assert('0' as int == 48 && '9' as int == 57);
        assert(is_digit(c));
        assert(decimal(n).drop_last() == Seq::<char>::empty());
        assert(digits_value(decimal(n).drop_last()) == 0);
        assert(decimal(n).last() == c);
    } else {
        let m = n / 10;
        let c = digit(n % 10);
        lemma_decimal_digits(m);
        assert(c as int == 48 + n % 10);
        assert('0' as int == 48 && '9' as int == 57);
        assert(is_digit(c));
        let before = decimal(m);
        assert(decimal(n) == before.push(c));
        assert(decimal(n).drop_last() == before);
        assert forall|i: int| 0 <= i < decimal(n).len() implies is_digit(
            #[trigger] decimal(n)[i],
        ) by {
            if i < before.len() {
                assert(decimal(n)[i] == before[i]);
            }
        }
        assert(decimal(n)[0] == before[0]);
    }
}

/// Reading undoes writing: the decimal notation of a number is digits that stand
/// for it, with no zero in front, and a plus sign in front makes no difference.
pub proof fn law_reading_undoes_writing(n: nat)
    ensures
        parsed(decimal(n)) == Some(n),
        parsed(seq!['+'] + decimal(n)) == Some(n),
        n > 0 ==> decimal(n)[0] != '0',
        n < 10 ==> decimal(n).len() == 1 && decimal(n)[0] as int == 48 + n,
{
    lemma_decimal_digits(n);
    let plain = decimal(n);
    let signed = seq!['+'] + plain;
    assert(is_digit(plain[0]));
    assert(!has_prefix(plain, seq!['+'])) by {
        if has_prefix(plain, seq!['+']) {
            assert(plain.take(1)[0] == seq!['+'][0]);
            assert('0' as int == 48 && '+' as int == 43);
        }
    }
    assert(signed.take(1) == seq!['+']);
    assert(signed.skip(1) == plain);
    if n < 10 {
        assert(digit(n) as int == 48 + n);
    }
}

/// One digit more makes ten times as much, and the digit.
pub proof fn law_a_digit_more_is_ten_times_as_much(text: Seq<char>, n: nat, d: nat)
    requires
        parsed(text) == Some(n),
        d < 10,
    ensures
        parsed(text.push((48 + d) as char)) == Some((10 * n + d) as nat),
{
    let c = (48 + d) as char;
    assert(c as int == 48 + d);
    assert('0' as int == 48 && '9' as int == 57);
    assert(is_digit(c));
    let more = text.push(c);
    let digits = if has_prefix(text, seq!['+']) {
        text.skip(1)
    } else {
        text
    };
    assert(has_prefix(more, seq!['+']) == has_prefix(text, seq!['+'])) by {
        assert(text.len() > 0);
        assert(more.take(1) == text.take(1));
    }
    let longer = if has_prefix(more, seq!['+']) {
        more.skip(1)
    } else {
        more
    };
    assert(longer == digits.push(c));
    assert(longer.drop_last() == digits);
    assert forall|i: int| 0 <= i < longer.len() implies is_digit(#[trigger] longer[i]) by {
        if i < digits.len() {
            assert(longer[i] == digits[i]);
        }
    }
}

/// Only digits are a number: a text with anything else in it, but for a plus sign
/// in front, is none, and neither is a text without a digit.
pub proof fn law_only_digits_are_a_number(text: Seq<char>, i: int)
    requires
        text.len() == 0 || (0 <= i < text.len() && !(48 <= text[i] as int <= 57) && !(i == 0
            && text[i] == '+')) || text == seq!['+'],
    ensures
        parsed(text) is None,
{
    assert('0' as int == 48 && '9' as int == 57);
    if text == seq!['+'] {
        assert(text.take(1) == seq!['+']);
        assert(text.skip(1).len() == 0);
    } else if text.len() > 0 {
        assert(!is_digit(text[i]));
        if has_prefix(text, seq!['+']) {
            assert(text.take(1)[0] == seq!['+'][0]);
            if i > 0 {
                assert(text.skip(1)[i - 1] == text[i]);
            }
        }
    }
}

/// Of two texts the first difference decides, by code point, and where one is the
/// start of the other the shorter comes first.
pub proof fn law_the_first_difference_decides(
    start: Seq<char>,
    x: char,
    a: Seq<char>,
    y: char,
    b: Seq<char>,
)
    requires
        (x as int) < (y as int),
    ensures
        before(start.push(x) + a, start.push(y) + b),
        !before(start.push(y) + b, start.push(x) + a),
        before(start, start.push(x) + a),
        !before(start.push(x) + a, start),
    decreases start.len(),
{
    let p = start.push(x) + a;
    let q = start.push(y) + b;
    if start.len() > 0 {
        law_the_first_difference_decides(start.skip(1), x, a, y, b);
        assert(p.skip(1) == start.skip(1).push(x) + a);
        assert(q.skip(1) == start.skip(1).push(y) + b);
        assert(p[0] == start[0] && q[0] == start[0]);
    } else {
        assert(p[0] == x && q[0] == y);
    }
}

/// A line ends at a line feed, with or without a carriage return before it, and at
/// the end of the text.
pub proof fn law_a_line_ends_at_a_line_feed(line: Seq<char>, rest: Seq<char>)
    requires
        !line.contains('\n'),
    ensures
        line.len() == 0 || line.last() != '\r' ==> lines(line.push('\n') + rest) == seq![line]
            + lines(rest),
        lines(line.push('\r').push('\n') + rest) == seq![line] + lines(rest),
        line.len() > 0 ==> lines(line) == seq![line],
        lines(Seq::<char>::empty()) == Seq::<Seq<char>>::empty(),
{
    lemma_one_line(line);
    law_lines_follow_whole_lines(line.push('\n'), rest);
    let returned = line.push('\r');
    assert(!returned.contains('\n')) by {
        if returned.contains('\n') {
            let i = choose|i: int| 0 <= i < returned.len() && returned[i] == '\n';
            assert(line[i] == '\n');
        }
    }
    lemma_one_line(returned);
    law_lines_follow_whole_lines(returned.push('\n'), rest);
    assert(returned.drop_last() == line);
    lemma_split_one(line, '\n');
    assert(seq![line].drop_last().map_values(|l: Seq<char>| without_return(l)) == Seq::<
        Seq<char>,
    >::empty());
    let none = Seq::<char>::empty();
    lemma_split_one(none, '\n');
    assert(seq![none].drop_last().map_values(|l: Seq<char>| without_return(l)) == Seq::<
        Seq<char>,
    >::empty());
}

proof fn lemma_one_line(line: Seq<char>)
    requires
        !line.contains('\n'),
    ensures
        lines(line.push('\n')) == seq![without_return(line)],
{
    let none = Seq::<char>::empty();
    law_a_separator_separates(line, none, '\n');
    lemma_split_one(none, '\n');
    assert(line.push('\n') + none == line.push('\n'));
    let pieces = split(line.push('\n'), '\n');
    assert(pieces == seq![line, none]);
    assert(pieces.drop_last() == seq![line]);
    assert(seq![line].map_values(|l: Seq<char>| without_return(l)) == seq![without_return(line)]);
}

/// White space of any kind separates words, and nothing else does: a text without
/// any is one word, unless it is empty.
pub proof fn law_words_stand_between_white_space(a: Seq<char>, c: char, b: Seq<char>)
    requires
        is_white(c),
    ensures
        words(a.push(c) + b) == words(a) + words(b),
        a.len() > 0 && (forall|i: int| 0 <= i < a.len() ==> !is_white(#[trigger] a[i])) ==> words(a)
            == seq![a],
        words(Seq::<char>::empty()) == Seq::<Seq<char>>::empty(),
{
    let spaced = |c: char|
        if is_white(c) {
            ' '
        } else {
            c
        };
    let x = a.map_values(spaced);
    let y = b.map_values(spaced);
    assert((a.push(c) + b).map_values(spaced) == x.push(' ') + y);
    law_a_separator_separates(x, y, ' ');
    lemma_nonempty_add(split(x, ' '), split(y, ' '));
    if forall|i: int| 0 <= i < a.len() ==> !is_white(#[trigger] a[i]) {
        assert(x == a);
        if a.contains(' ') {
            let i = choose|i: int| 0 <= i < a.len() && a[i] == ' ';
            assert(is_white(a[i]));
        }
        lemma_split_one(a, ' ');
        let none = Seq::<Seq<char>>::empty();
        law_only_empty_texts_are_dropped(none, a);
        assert(none.push(a) == seq![a]);
    }
    let none = Seq::<char>::empty();
    assert(none.map_values(spaced) == none);
    lemma_split_one(none, ' ');
    law_only_empty_texts_are_dropped(Seq::empty(), none);
    assert(Seq::<Seq<char>>::empty().push(none) == seq![none]);
}

/// White space is the tabulator, what ends a line or a page, the space, and what
/// Unicode has besides: the next line, and the spaces and separators of other widths
/// and scripts. Nothing else is.
pub proof fn law_white_space_is_blank(c: char)
    ensures
        is_white(c) <==> {
            let n = c as int;
            9 <= n <= 13 || n == 32 || n == 133 || n == 160 || n == 5760 || 8192 <= n <= 8202 || n
                == 8232 || n == 8233 || n == 8239 || n == 8287 || n == 12288
        },
{
}

/// What is trimmed at the end is white space, and all of it.
pub proof fn law_only_white_space_is_trimmed(text: Seq<char>, i: int)
    ensures
        trimmed_end(text).len() <= text.len(),
        trimmed_end(text) == text.take(trimmed_end(text).len() as int),
        trimmed_end(text).len() <= i < text.len() ==> is_white(text[i]),
        trimmed_end(text).len() > 0 ==> !is_white(trimmed_end(text).last()),
    decreases text.len(),
{
    if text.len() > 0 && is_white(text.last()) {
        let rest = text.drop_last();
        law_only_white_space_is_trimmed(rest, i);
        let n = trimmed_end(rest).len() as int;
        assert(rest.take(n) == text.take(n));
        if n <= i < rest.len() {
            assert(text[i] == rest[i]);
        }
    } else {
        assert(text.take(text.len() as int) == text);
    }
}

/// A text starts with another exactly if it is that one and something behind it.
pub proof fn law_a_text_starts_with_its_start(a: Seq<char>, b: Seq<char>, text: Seq<char>)
    ensures
        has_prefix(a + b, a),
        has_prefix(text, a) ==> text == a + text.skip(a.len() as int),
{
    assert((a + b).take(a.len() as int) == a);
    if has_prefix(text, a) {
        assert(text == text.take(a.len() as int) + text.skip(a.len() as int));
    }
}

} // verus!
