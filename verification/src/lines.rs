//! The lines of a text.

use crate::csv::texts;
use crate::text::{chars_of, string_of};
use vstd::prelude::*;
use vstd::slice::slice_subrange;

verus! {

/// Lines, each with a line break after it.
pub open spec fn lines_text(lines: Seq<Seq<char>>) -> Seq<char>
    decreases lines.len(),
{
    if lines.len() == 0 {
        Seq::empty()
    } else {
        lines_text(lines.drop_last()) + lines.last() + seq!['\n']
    }
}

/// Whether the first line break of a text stands at `at`.
pub open spec fn is_first_break(text: Seq<char>, at: int) -> bool {
    &&& 0 <= at < text.len()
    &&& text[at] == '\n'
    &&& forall|j: int| 0 <= j < at ==> text[j] != '\n'
}

/// The place of the first line break, or the end of the text if there is none.
pub open spec fn first_break(text: Seq<char>) -> int {
    if text.contains('\n') {
        choose|at: int| is_first_break(text, at)
    } else {
        text.len() as int
    }
}

/// A line without the carriage return that it may end with.
pub open spec fn without_return(line: Seq<char>) -> Seq<char> {
    if line.len() > 0 && line.last() == '\r' {
        line.drop_last()
    } else {
        line
    }
}

/// The lines of a text: each ends with a line break, which may have a carriage return before it,
/// or with the text.
pub open spec fn lines_of(text: Seq<char>) -> Seq<Seq<char>>
    decreases text.len(),
{
    let at = first_break(text);
    if text.len() == 0 {
        Seq::empty()
    } else if 0 <= at < text.len() {
        seq![without_return(text.take(at))] + lines_of(text.skip(at + 1))
    } else {
        seq![text]
    }
}

/// The first line of a text, and what follows it.
proof fn lemma_lines_step(text: Seq<char>, at: int)
    requires
        is_first_break(text, at),
    ensures
        lines_of(text) == seq![without_return(text.take(at))] + lines_of(text.skip(at + 1)),
{
    assert(text.contains(text[at]));
    let k = first_break(text);
    assert(is_first_break(text, k));
    if k < at {
        assert(text[k] != '\n');
    }
    if at < k {
        assert(text[at] != '\n');
    }
}

/// Splits a text into its lines.
pub fn split_lines(text: &str) -> (lines: Vec<String>)
    ensures
        texts(lines@) == lines_of(text@),
{
    let chars: Vec<char> = chars_of(text);
    let mut lines: Vec<String> = Vec::new();
    let mut from: usize = 0;
    let mut at: usize = 0;
    assert(chars@.skip(0) =~= chars@);
    assert(texts(lines@) + lines_of(chars@) =~= lines_of(text@));
    while at < chars.len()
        invariant
            from <= at <= chars@.len(),
            forall|j: int| from <= j < at ==> #[trigger] chars@[j] != '\n',
            texts(lines@) + lines_of(chars@.skip(from as int)) == lines_of(text@),
        decreases chars.len() - at,
    {
        if chars[at] == '\n' {
            let ghost rest = chars@.skip(from as int);
            let ghost k = at - from;
            assert(is_first_break(rest, k));
            proof {
                lemma_lines_step(rest, k);
            }
            let end: usize = if from < at && chars[at - 1] == '\r' {
                at - 1
            } else {
                at
            };
            let line: String = string_of(slice_subrange(chars.as_slice(), from, end));
            assert(line@ =~= without_return(rest.take(k)));
            assert(rest.skip(k + 1) =~= chars@.skip(at + 1));
            let ghost before = lines@;
            lines.push(line);
            assert(texts(lines@) =~= texts(before).push(line@));
            assert(texts(before) + (seq![line@] + lines_of(chars@.skip(at + 1))) =~= texts(lines@)
                + lines_of(chars@.skip(at + 1)));
            from = at + 1;
        }
        at = at + 1;
    }
    let ghost rest = chars@.skip(from as int);
    assert(!rest.contains('\n'));
    if from < chars.len() {
        let line: String = string_of(slice_subrange(chars.as_slice(), from, chars.len()));
        assert(line@ =~= rest);
        let ghost before = lines@;
        lines.push(line);
        assert(texts(lines@) =~= texts(before) + seq![line@]);
    } else {
        assert(texts(lines@) + Seq::<Seq<char>>::empty() =~= texts(lines@));
    }
    lines
}

/// Takes the first line off a text.
proof fn lemma_first_line(lines: Seq<Seq<char>>)
    requires
        lines.len() > 0,
    ensures
        lines_text(lines) == lines[0] + seq!['\n'] + lines_text(lines.drop_first()),
    decreases lines.len(),
{
    let rest = lines.drop_first();
    if lines.len() == 1 {
        reveal_with_fuel(lines_text, 2);
        assert(lines.drop_last() =~= Seq::empty());
        assert(lines_text(lines) =~= lines[0] + seq!['\n'] + lines_text(rest));
    } else {
        lemma_first_line(lines.drop_last());
        assert(lines.drop_last().drop_first() =~= rest.drop_last());
        assert(lines_text(lines) =~= lines[0] + seq!['\n'] + lines_text(rest));
    }
}

/// Whether a text is a line: it has no line break, and does not end with a carriage return.
pub open spec fn is_line(line: Seq<char>) -> bool {
    !line.contains('\n') && !(line.len() > 0 && line.last() == '\r')
}

/// Lines that were written read back.
pub proof fn law_lines_read_back(lines: Seq<Seq<char>>)
    requires
        forall|i: int| 0 <= i < lines.len() ==> is_line(#[trigger] lines[i]),
    ensures
        lines_of(lines_text(lines)) == lines,
    decreases lines.len(),
{
    if lines.len() > 0 {
        let rest = lines.drop_first();
        assert forall|i: int| 0 <= i < rest.len() implies is_line(#[trigger] rest[i]) by {
            assert(is_line(lines[i + 1]));
        }
        law_lines_read_back(rest);
        lemma_first_line(lines);
        let text = lines_text(lines);
        let line = lines[0];
        let at = line.len() as int;
        assert(is_line(line));
        assert forall|j: int| 0 <= j < at implies text[j] != '\n' by {
            assert(line.contains(line[j]));
        }
        assert(text[at] == '\n');
        lemma_lines_step(text, at);
        assert(text.take(at) =~= line);
        assert(text.skip(at + 1) =~= lines_text(rest));
        assert(lines =~= seq![line] + rest);
    } else {
        assert(lines_of(lines_text(lines)) =~= lines);
    }
}

/// A line ends with a line break, with or without a carriage return before it, or with the text; no
/// other character ends it.
pub proof fn law_lines_split(line: Seq<char>, rest: Seq<char>)
    requires
        !line.contains('\n'),
    ensures
        lines_of(Seq::empty()) == Seq::<Seq<char>>::empty(),
        line.len() > 0 ==> lines_of(line) == seq![line],
        !(line.len() > 0 && line.last() == '\r') ==> lines_of(line + seq!['\n'] + rest)
            == seq![line] + lines_of(rest),
        lines_of(line + seq!['\r', '\n'] + rest) == seq![line] + lines_of(rest),
{
    let plain = line + seq!['\n'] + rest;
    let at = line.len() as int;
    assert forall|j: int| 0 <= j < at implies line[j] != '\n' by {
        assert(line.contains(line[j]));
    }
    assert(plain[at] == '\n');
    assert(is_first_break(plain, at));
    lemma_lines_step(plain, at);
    assert(plain.take(at) =~= line);
    assert(plain.skip(at + 1) =~= rest);
    let marked = line + seq!['\r', '\n'] + rest;
    assert(marked[at] == '\r' && marked[at + 1] == '\n');
    assert(is_first_break(marked, at + 1));
    lemma_lines_step(marked, at + 1);
    assert(marked.take(at + 1) =~= line.push('\r'));
    assert(line.push('\r').drop_last() =~= line);
    assert(marked.skip(at + 2) =~= rest);
}

/// Lines that follow others come after them, and a line has a line break after it.
pub proof fn law_lines_joined(a: Seq<Seq<char>>, b: Seq<Seq<char>>, line: Seq<char>)
    ensures
        lines_text(a + b) == lines_text(a) + lines_text(b),
        lines_text(seq![line]) == line + seq!['\n'],
        lines_text(Seq::empty()) == Seq::<char>::empty(),
    decreases b.len(),
{
    reveal_with_fuel(lines_text, 2);
    assert(seq![line].drop_last() =~= Seq::empty());
    assert(lines_text(seq![line]) =~= line + seq!['\n']);
    if b.len() == 0 {
        assert(a + b =~= a);
        assert(lines_text(a) + lines_text(b) =~= lines_text(a));
    } else {
        law_lines_joined(a, b.drop_last(), line);
        assert((a + b).drop_last() =~= a + b.drop_last());
        assert(lines_text(a + b) =~= lines_text(a) + lines_text(b));
    }
}

} // verus!
