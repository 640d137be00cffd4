//! Texts as sequences of lines.

use vstd::prelude::*;
use vstd::std_specs::iter::IteratorSpec;

verus! {

broadcast use vstd::string::group_string_axioms;

/// The position of the first line feed at or behind `from`; the length of the
/// text where there is none.
pub open spec fn line_end(text: Seq<char>, from: int) -> int
    decreases text.len() - from,
{
    if from >= text.len() {
        text.len() as int
    } else if text[from] == '\n' {
        from
    } else {
        line_end(text, from + 1)
    }
}

/// A line ends at or behind the position where it starts, inside the text, at a
/// line feed or at the end of the text, and holds no line feed.
pub proof fn lemma_line_end(text: Seq<char>, from: int)
    requires
        0 <= from <= text.len(),
    ensures
        from <= line_end(text, from) <= text.len(),
        line_end(text, from) < text.len() ==> text[line_end(text, from)] == '\n',
        forall|i: int| from <= i < line_end(text, from) ==> text[i] != '\n',
    decreases text.len() - from,
{
    if from < text.len() && text[from] != '\n' {
        lemma_line_end(text, from + 1);
    }
}

/// The lines of the text from position `from` on.
pub open spec fn lines_from(text: Seq<char>, from: int) -> Seq<Seq<char>>
    decreases text.len() + 1 - from,
{
    if from < 0 || from >= text.len() {
        seq![]
    } else {
        let end = line_end(text, from);
        proof {
            lemma_line_end(text, from);
        }
        seq![text.subrange(from, end)] + lines_from(text, end + 1)
    }
}

/// The lines of a text. A line ends at a line feed, which is not part of it; a
/// text that ends with a line feed has no further, empty line behind it.
pub open spec fn lines(text: Seq<char>) -> Seq<Seq<char>> {
    lines_from(text, 0)
}

/// The text made of the given lines, each followed by a line feed.
pub open spec fn join_lines(lines: Seq<Seq<char>>) -> Seq<char>
    decreases lines.len(),
{
    if lines.len() == 0 {
        seq![]
    } else {
        lines[0] + seq!['\n'] + join_lines(lines.drop_first())
    }
}

/// Whether the text holds no line feed.
pub open spec fn one_line(text: Seq<char>) -> bool {
    forall|i: int| 0 <= i < text.len() ==> #[trigger] text[i] != '\n'
}

/// Adding a line at the end of a list of lines adds it, with its line feed, at
/// the end of their text.
pub proof fn lemma_join_push(lines: Seq<Seq<char>>, line: Seq<char>)
    ensures
        join_lines(lines.push(line)) == join_lines(lines) + line + seq!['\n'],
    decreases lines.len(),
{
    let longer = lines.push(line);
    if lines.len() == 0 {
        assert(longer.drop_first() =~= Seq::<Seq<char>>::empty());
        assert(join_lines(longer.drop_first()) =~= Seq::<char>::empty());
        assert(join_lines(lines) =~= Seq::<char>::empty());
        assert(longer[0] == line);
        assert(join_lines(longer) =~= join_lines(lines) + line + seq!['\n']);
    } else {
        assert(longer.drop_first() =~= lines.drop_first().push(line));
        lemma_join_push(lines.drop_first(), line);
        assert(join_lines(longer) =~= join_lines(lines) + line + seq!['\n']);
    }
}

/// The text of the first `k + 1` lines is that of the first `k` lines followed
/// by line `k` and a line feed.
pub proof fn lemma_join_take(ls: Seq<Seq<char>>, k: int)
    requires
        0 <= k < ls.len(),
    ensures
        join_lines(ls.take(k + 1)) == join_lines(ls.take(k)) + ls[k] + seq!['\n'],
{
    assert(ls.take(k + 1) =~= ls.take(k).push(ls[k]));
    lemma_join_push(ls.take(k), ls[k]);
}

/// The end of a line does not depend on what stands before the line.
proof fn lemma_line_end_shift(head: Seq<char>, tail: Seq<char>, from: int)
    requires
        0 <= from <= tail.len(),
    ensures
        line_end(head + tail, head.len() + from) == head.len() + line_end(tail, from),
    decreases tail.len() - from,
{
    let text = head + tail;
    if from < tail.len() {
        assert(text[head.len() + from] == tail[from]);
        if tail[from] != '\n' {
            lemma_line_end_shift(head, tail, from + 1);
        }
    }
}

/// The lines behind a position do not depend on what stands before it.
proof fn lemma_lines_shift(head: Seq<char>, tail: Seq<char>, from: int)
    requires
        0 <= from,
    ensures
        lines_from(head + tail, head.len() + from) == lines_from(tail, from),
    decreases tail.len() + 1 - from,
{
    let text = head + tail;
    if from < tail.len() {
        lemma_line_end(tail, from);
        lemma_line_end_shift(head, tail, from);
        let end = line_end(tail, from);
        assert(line_end(text, head.len() + from) == head.len() + end);
        assert(text.subrange(head.len() + from, head.len() + end) =~= tail.subrange(from, end));
        lemma_lines_shift(head, tail, end + 1);
        assert(lines_from(text, head.len() + from) =~= seq![
            text.subrange(head.len() + from, head.len() + end),
        ] + lines_from(text, head.len() + end + 1));
    }
}

/// The lines of the text made of lines are those lines, as long as none of
/// them holds a line feed.
pub proof fn lemma_lines_of_joined(ls: Seq<Seq<char>>)
    requires
        forall|i: int| 0 <= i < ls.len() ==> one_line(#[trigger] ls[i]),
    ensures
        lines(join_lines(ls)) == ls,
    decreases ls.len(),
{
    if ls.len() > 0 {
        let first = ls[0];
        let rest = ls.drop_first();
        let head = first + seq!['\n'];
        let tail = join_lines(rest);
        let text = join_lines(ls);
        assert(text =~= head + tail);
        assert forall|i: int| 0 <= i < rest.len() implies one_line(#[trigger] rest[i]) by {
            assert(rest[i] == ls[i + 1]);
        }
        lemma_lines_of_joined(rest);
        // The first line ends at the line feed behind `first`.
        lemma_first_line(first, tail);
        lemma_lines_shift(head, tail, 0);
        assert(lines(text) =~= seq![first] + lines(tail));
        assert(seq![first] + rest =~= ls);
    }
}

/// In a text that starts with a line and its line feed, that line is the first.
proof fn lemma_first_line(first: Seq<char>, tail: Seq<char>)
    requires
        one_line(first),
    ensures
        line_end(first + seq!['\n'] + tail, 0) == first.len(),
        (first + seq!['\n'] + tail).subrange(0, first.len() as int) == first,
{
    let text = first + seq!['\n'] + tail;
    lemma_scan_line(text, first.len() as int, 0);
    assert(text.subrange(0, first.len() as int) =~= first);
}

proof fn lemma_scan_line(text: Seq<char>, end: int, from: int)
    requires
        0 <= from <= end < text.len(),
        text[end] == '\n',
        forall|i: int| from <= i < end ==> text[i] != '\n',
    ensures
        line_end(text, from) == end,
    decreases end - from,
{
    if from < end {
        lemma_scan_line(text, end, from + 1);
    }
}

/// No line of a text holds a line feed.
pub proof fn lemma_lines_one_line(text: Seq<char>, from: int)
    requires
        0 <= from,
    ensures
        forall|i: int|
            0 <= i < lines_from(text, from).len() ==> one_line(#[trigger] lines_from(text, from)[i]),
    decreases text.len() + 1 - from,
{
    if from < text.len() {
        lemma_line_end(text, from);
        let end = line_end(text, from);
        lemma_lines_one_line(text, end + 1);
        let first = text.subrange(from, end);
        assert(one_line(first));
        assert forall|i: int| 0 <= i < lines_from(text, from).len() implies one_line(
            #[trigger] lines_from(text, from)[i],
        ) by {
            if i > 0 {
                assert(lines_from(text, from)[i] == lines_from(text, end + 1)[i - 1]);
            }
        }
    }
}

/// The bounds of a line: the position at which it starts and the position
/// behind its last character.
#[derive(Clone, Copy, Debug, PartialEq, Eq, Structural)]
pub struct LineBounds {
    pub start: usize,
    pub end: usize,
}

/// The texts between the given bounds.
pub open spec fn cut(text: Seq<char>, bounds: Seq<LineBounds>) -> Seq<Seq<char>> {
    Seq::new(
        bounds.len(),
        |i: int| text.subrange(bounds[i].start as int, bounds[i].end as int),
    )
}

/// Finds the lines of a text.
pub fn split_lines(chars: &Vec<char>) -> (bounds: Vec<LineBounds>)
    ensures
        cut(chars@, bounds@) == lines(chars@),
        forall|i: int|
            0 <= i < bounds@.len() ==> (#[trigger] bounds@[i]).start <= bounds@[i].end
                <= chars@.len(),
{
    let n: usize = chars.len();
    let mut bounds: Vec<LineBounds> = Vec::new();
    let mut from: usize = 0;
    proof {
        assert(cut(chars@, bounds@) + lines_from(chars@, 0) =~= lines(chars@));
    }
    while from < n
        invariant
            n == chars@.len(),
            from <= n,
            cut(chars@, bounds@) + lines_from(chars@, from as int) == lines(chars@),
            forall|i: int|
                0 <= i < bounds@.len() ==> (#[trigger] bounds@[i]).start <= bounds@[i].end
                    <= chars@.len(),
        decreases n - from,
    {
        let mut end: usize = from;
        while end < n && chars[end] != '\n'
            invariant
                from <= end <= n,
                n == chars@.len(),
                line_end(chars@, end as int) == line_end(chars@, from as int),
            decreases n - end,
        {
            end = end + 1;
        }
        proof {
            let before = cut(chars@, bounds@);
            let line = chars@.subrange(from as int, end as int);
            assert(line_end(chars@, from as int) == end);
            assert(cut(chars@, bounds@.push(LineBounds { start: from, end })) =~= before.push(line));
            assert(before.push(line) + lines_from(chars@, end + 1) =~= before + lines_from(
                chars@,
                from as int,
            ));
            assert(end == n ==> lines_from(chars@, end + 1) =~= lines_from(chars@, n as int));
        }
        bounds.push(LineBounds { start: from, end });
        from = if end < n {
            end + 1
        } else {
            n
        };
    }
    proof {
        assert(cut(chars@, bounds@) + lines_from(chars@, from as int) =~= cut(chars@, bounds@));
    }
    bounds
}

/// The characters of a text, in a vector.
pub fn chars_of(text: &str) -> (chars: Vec<char>)
    ensures
        chars@ == text@,
{
    let mut chars: Vec<char> = Vec::new();
    let mut rest = text.chars();
    loop
        invariant
            chars@ + rest.remaining() == text@,
            rest.obeys_prophetic_iter_laws(),
            rest.decrease() is Some,
        decreases rest.decrease()->0,
    {
        match rest.next() {
            Some(c) => {
                chars.push(c);
                assert(chars@ + rest.remaining() =~= text@);
            },
            None => {
                assert(chars@ =~= text@);
                return chars;
            },
        }
    }
}

/// Whether the text holds no line feed.
pub fn is_one_line(text: &str) -> (plain: bool)
    ensures
        plain == one_line(text@),
{
    let chars = chars_of(text);
    let mut i: usize = 0;
    while i < chars.len()
        invariant
            i <= chars@.len(),
            chars@ == text@,
            forall|j: int| 0 <= j < i ==> #[trigger] text@[j] != '\n',
        decreases chars@.len() - i,
    {
        if chars[i] == '\n' {
            return false;
        }
        i = i + 1;
    }
    true
}

} // verus!
