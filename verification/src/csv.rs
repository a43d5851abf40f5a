//! Lines of comma-separated values.

use crate::text::{chars_of, string_of};
use vstd::prelude::*;
use vstd::slice::slice_subrange;

verus! {

/// Whether a field has to be quoted: it holds a comma, a quote or a line break.
pub open spec fn needs_quotes(s: Seq<char>) -> bool {
    s.contains(',') || s.contains('"') || s.contains('\n')
}

/// With each quote doubled.
pub open spec fn doubled(s: Seq<char>) -> Seq<char>
    decreases s.len(),
{
    if s.len() == 0 {
        Seq::empty()
    } else if s[0] == '"' {
        seq!['"', '"'] + doubled(s.drop_first())
    } else {
        seq![s[0]] + doubled(s.drop_first())
    }
}

/// A field as it is written in a line.
pub open spec fn escaped(s: Seq<char>) -> Seq<char> {
    if needs_quotes(s) {
        seq!['"'] + doubled(s) + seq!['"']
    } else {
        s
    }
}

/// Doubling the quotes of some characters and one more.
proof fn lemma_doubled_push(s: Seq<char>, c: char)
    ensures
        doubled(s.push(c)) == doubled(s) + if c == '"' {
            seq!['"', '"']
        } else {
            seq![c]
        },
    decreases s.len(),
{
    let all = s.push(c);
    if s.len() == 0 {
        assert(all.drop_first() =~= s);
        assert(doubled(all) =~= doubled(s) + if c == '"' {
            seq!['"', '"']
        } else {
            seq![c]
        });
    } else {
        assert(all.drop_first() =~= s.drop_first().push(c));
        lemma_doubled_push(s.drop_first(), c);
        assert(doubled(all) =~= doubled(s) + if c == '"' {
            seq!['"', '"']
        } else {
            seq![c]
        });
    }
}

/// Whether a character occurs.
fn has_char(chars: &Vec<char>, c: char) -> (r: bool)
    ensures
        r == chars@.contains(c),
{
    let mut i: usize = 0;
    while i < chars.len()
        invariant
            i <= chars.len(),
            forall|j: int| 0 <= j < i ==> chars@[j] != c,
        decreases chars.len() - i,
    {
        if chars[i] == c {
            assert(chars@[i as int] == c);
            return true;
        }
        i = i + 1;
    }
    false
}

/// Writes a field: in quotes, with the quotes in it doubled, where it has to be quoted.
pub fn csv_escape(s: &str) -> (r: String)
    ensures
        r@ == escaped(s@),
{
    let chars: Vec<char> = chars_of(s);
    if !has_char(&chars, ',') && !has_char(&chars, '"') && !has_char(&chars, '\n') {
        return s.to_owned();
    }
    let mut r: String = String::new();
    r.push('"');
    let mut i: usize = 0;
    while i < chars.len()
        invariant
            i <= chars.len(),
            r@ == seq!['"'] + doubled(chars@.take(i as int)),
        decreases chars.len() - i,
    {
        let c: char = chars[i];
        proof {
            lemma_doubled_push(chars@.take(i as int), c);
            assert(chars@.take(i + 1) =~= chars@.take(i as int).push(c));
        }
        if c == '"' {
            r.push('"');
        }
        r.push(c);
        i = i + 1;
    }
    r.push('"');
    assert(chars@.take(i as int) =~= chars@);
    assert(r@ =~= escaped(s@));
    r
}

/// The fields of a line from some place on: `in_quotes` tells whether that place is within quotes,
/// and `current` is what was read of the field there.
pub open spec fn csv_scan(line: Seq<char>, in_quotes: bool, current: Seq<char>) -> Seq<Seq<char>>
    decreases line.len(),
{
    if line.len() == 0 {
        seq![current]
    } else {
        let c = line[0];
        let rest = line.drop_first();
        if in_quotes && c == '"' && rest.len() > 0 && rest[0] == '"' {
            csv_scan(rest.drop_first(), true, current.push('"'))
        } else if c == '"' {
            csv_scan(rest, !in_quotes, current)
        } else if !in_quotes && c == ',' {
            seq![current] + csv_scan(rest, false, Seq::empty())
        } else {
            csv_scan(rest, in_quotes, current.push(c))
        }
    }
}

/// The fields of a line. Commas separate them. Within quotes a comma belongs to the field, and a
/// doubled quote is a quote; other quotes are left out.
pub open spec fn csv_fields(line: Seq<char>) -> Seq<Seq<char>> {
    csv_scan(line, false, Seq::empty())
}

/// A list of strings, by content.
pub open spec fn texts(strings: Seq<String>) -> Seq<Seq<char>> {
    strings.map_values(|s: String| s@)
}

/// Reads the fields of a line.
pub fn parse_csv_line(line: &str) -> (fields: Vec<String>)
    ensures
        texts(fields@) == csv_fields(line@),
{
    let chars: Vec<char> = chars_of(line);
    let mut fields: Vec<String> = Vec::new();
    let mut current: String = String::new();
    let mut in_quotes: bool = false;
    let mut i: usize = 0;
    assert(chars@.skip(0) =~= chars@);
    assert(texts(fields@) + csv_fields(line@) =~= csv_fields(line@));
    while i < chars.len()
        invariant
            i <= chars.len(),
            texts(fields@) + csv_scan(chars@.skip(i as int), in_quotes, current@) == csv_fields(
                line@,
            ),
        decreases chars.len() - i,
    {
        let c: char = chars[i];
        let ghost before = texts(fields@);
        let ghost left = chars@.skip(i as int);
        assert(left[0] == c);
        assert(left.drop_first() =~= chars@.skip(i + 1));
        if in_quotes && c == '"' && i + 1 < chars.len() && chars[i + 1] == '"' {
            assert(left.drop_first().drop_first() =~= chars@.skip(i + 2));
            assert(left.drop_first()[0] == '"');
            current.push('"');
            i = i + 1;
        } else if c == '"' {
            assert(i + 1 < chars.len() ==> left.drop_first()[0] == chars@[i + 1]);
            in_quotes = !in_quotes;
        } else if !in_quotes && c == ',' {
            let ghost old_fields = fields@;
            let ghost done = current@;
            fields.push(current);
            assert(texts(fields@) =~= texts(old_fields).push(done));
            current = String::new();
            assert(current@ =~= Seq::empty());
            assert(before + (seq![done] + csv_scan(chars@.skip(i + 1), false, Seq::empty()))
                =~= texts(fields@) + csv_scan(chars@.skip(i + 1), false, Seq::empty()));
        } else {
            current.push(c);
        }
        i = i + 1;
    }
    let ghost old_fields = fields@;
    let ghost done = current@;
    fields.push(current);
    assert(texts(fields@) =~= texts(old_fields).push(done));
    assert(texts(old_fields) + seq![done] =~= texts(old_fields).push(done));
    fields
}

/// The fields of a line as they are written, with commas between them.
pub open spec fn csv_row(fields: Seq<Seq<char>>) -> Seq<char>
    decreases fields.len(),
{
    if fields.len() == 0 {
        Seq::empty()
    } else if fields.len() == 1 {
        escaped(fields[0])
    } else {
        escaped(fields[0]) + (seq![','] + csv_row(fields.drop_first()))
    }
}

/// A field without commas and quotes is read as it is.
proof fn lemma_scan_plain(s: Seq<char>, tail: Seq<char>, current: Seq<char>)
    requires
        !s.contains(','),
        !s.contains('"'),
    ensures
        csv_scan(s + tail, false, current) == csv_scan(tail, false, current + s),
    decreases s.len(),
{
    if s.len() == 0 {
        assert(s + tail =~= tail);
        assert(current + s =~= current);
    } else {
        let rest = s.drop_first();
        assert(s[0] != ',' && s[0] != '"') by {
            assert(s.contains(s[0]));
        }
        assert forall|c: char| rest.contains(c) implies s.contains(c) by {
            let i = choose|i: int| 0 <= i < rest.len() && rest[i] == c;
            assert(s[i + 1] == c);
        }
        assert((s + tail).drop_first() =~= rest + tail);
        lemma_scan_plain(rest, tail, current.push(s[0]));
        assert(current.push(s[0]) + rest =~= current + s);
    }
}

/// What stands in quotes, with its quotes doubled, is read as it was.
proof fn lemma_scan_quoted(s: Seq<char>, tail: Seq<char>, current: Seq<char>)
    requires
        tail.len() > 0 ==> tail[0] != '"',
    ensures
        csv_scan(doubled(s) + (seq!['"'] + tail), true, current) == csv_scan(
            tail,
            false,
            current + s,
        ),
    decreases s.len(),
{
    let line = doubled(s) + (seq!['"'] + tail);
    if s.len() == 0 {
        assert(line =~= seq!['"'] + tail);
        assert(line.drop_first() =~= tail);
        assert(current + s =~= current);
    } else {
        let rest = s.drop_first();
        let more = doubled(rest) + (seq!['"'] + tail);
        lemma_scan_quoted(rest, tail, current.push(s[0]));
        assert(current.push(s[0]) + rest =~= current + s);
        if s[0] == '"' {
            assert(line =~= seq!['"', '"'] + more);
            assert(line.drop_first()[0] == '"');
            assert(line.drop_first().drop_first() =~= more);
        } else {
            assert(line =~= seq![s[0]] + more);
            assert(line.drop_first() =~= more);
        }
    }
}

/// A written field is read as it was, where a comma or the end of the line follows it.
proof fn lemma_scan_escaped(s: Seq<char>, tail: Seq<char>)
    requires
        tail.len() > 0 ==> tail[0] != '"',
    ensures
        csv_scan(escaped(s) + tail, false, Seq::empty()) == csv_scan(tail, false, s),
{
    let none = Seq::<char>::empty();
    assert(none + s =~= s);
    if needs_quotes(s) {
        let line = escaped(s) + tail;
        assert(line.drop_first() =~= doubled(s) + (seq!['"'] + tail));
        lemma_scan_quoted(s, tail, none);
    } else {
        lemma_scan_plain(s, tail, none);
    }
}

/// Fields that were written in a line are read back as they were.
pub proof fn law_csv_reads_back(fields: Seq<Seq<char>>)
    requires
        fields.len() > 0,
    ensures
        csv_fields(csv_row(fields)) == fields,
    decreases fields.len(),
{
    let none = Seq::<char>::empty();
    if fields.len() == 1 {
        lemma_scan_escaped(fields[0], none);
        assert(escaped(fields[0]) + none =~= escaped(fields[0]));
        assert(fields =~= seq![fields[0]]);
    } else {
        let others = fields.drop_first();
        let tail = seq![','] + csv_row(others);
        law_csv_reads_back(others);
        lemma_scan_escaped(fields[0], tail);
        assert(tail.drop_first() =~= csv_row(others));
        assert(fields =~= seq![fields[0]] + others);
    }
}

/// The place of the first comma.
pub open spec fn is_first_comma(line: Seq<char>, at: int) -> bool {
    &&& 0 <= at < line.len()
    &&& line[at] == ','
    &&& forall|j: int| 0 <= j < at ==> line[j] != ','
}

/// The place of the first comma, or the end of the line if there is none.
pub open spec fn first_comma(line: Seq<char>) -> int {
    if line.contains(',') {
        choose|at: int| is_first_comma(line, at)
    } else {
        line.len() as int
    }
}

/// The parts of a line between commas, at most `n` of them; the last one is all that is left.
pub open spec fn split_line(line: Seq<char>, n: nat) -> Seq<Seq<char>>
    decreases n,
{
    if n == 0 {
        Seq::empty()
    } else if n == 1 || !line.contains(',') {
        seq![line]
    } else {
        seq![line.take(first_comma(line))] + split_line(
            line.skip(first_comma(line) + 1),
            (n - 1) as nat,
        )
    }
}

/// Splits a line at its commas into at most `n` parts, without regard to quotes.
pub fn split_commas(line: &str, n: usize) -> (parts: Vec<String>)
    ensures
        texts(parts@) == split_line(line@, n as nat),
{
    let chars: Vec<char> = chars_of(line);
    let mut parts: Vec<String> = Vec::new();
    if n == 0 {
        assert(texts(parts@) =~= Seq::empty());
        return parts;
    }
    let mut from: usize = 0;
    let mut left: usize = n;
    assert(chars@.skip(0) =~= chars@);
    assert(texts(parts@) + split_line(chars@, n as nat) =~= split_line(line@, n as nat));
    while left > 1
        invariant_except_break
            1 <= left,
            from <= chars@.len(),
            texts(parts@) + split_line(chars@.skip(from as int), left as nat) == split_line(
                line@,
                n as nat,
            ),
        ensures
            from <= chars@.len(),
            texts(parts@) + seq![chars@.skip(from as int)] == split_line(line@, n as nat),
        decreases left,
    {
        let ghost rest = chars@.skip(from as int);
        let mut at: usize = from;
        while at < chars.len() && chars[at] != ','
            invariant
                from <= at <= chars@.len(),
                rest == chars@.skip(from as int),
                forall|j: int| 0 <= j < at - from ==> rest[j] != ',',
            decreases chars.len() - at,
        {
            at = at + 1;
        }
        if at == chars.len() {
            assert(!rest.contains(','));
            break;
        }
        let ghost k = at - from;
        assert(rest[k] == ',');
        assert(is_first_comma(rest, k));
        proof {
            let c = first_comma(rest);
            assert(is_first_comma(rest, c));
            assert(c == k);
        }
        let part: String = string_of(slice_subrange(chars.as_slice(), from, at));
        assert(part@ =~= rest.take(k));
        assert(rest.skip(k + 1) =~= chars@.skip(at + 1));
        let ghost before = parts@;
        parts.push(part);
        assert(texts(parts@) =~= texts(before).push(part@));
        assert(texts(before) + (seq![part@] + split_line(chars@.skip(at + 1), (left - 1) as nat))
            =~= texts(parts@) + split_line(chars@.skip(at + 1), (left - 1) as nat));
        from = at + 1;
        left = left - 1;
    }
    let last: String = string_of(slice_subrange(chars.as_slice(), from, chars.len()));
    assert(last@ =~= chars@.skip(from as int));
    let ghost before = parts@;
    parts.push(last);
    assert(texts(parts@) =~= texts(before) + seq![last@]);
    parts
}

/// A text without comma, quote and line break is written as it is. Any other is put in quotes. In
/// quotes a text is written part by part, a quote as two quotes and any other character as it is.
pub proof fn law_escaped(s: Seq<char>, a: Seq<char>, b: Seq<char>, c: char)
    ensures
        !s.contains(',') && !s.contains('"') && !s.contains('\n') ==> escaped(s) == s,
        s.contains(',') || s.contains('"') || s.contains('\n') ==> escaped(s) == seq!['"']
            + doubled(s) + seq!['"'],
        doubled(a + b) == doubled(a) + doubled(b),
        doubled(seq!['"']) == seq!['"', '"'],
        c != '"' ==> doubled(seq![c]) == seq![c],
        doubled(Seq::empty()) == Seq::<char>::empty(),
    decreases a.len(),
{
    reveal_with_fuel(doubled, 2);
    assert(seq![c].drop_first() =~= Seq::empty());
    assert(doubled(seq![c]) =~= if c == '"' {
        seq!['"', '"']
    } else {
        seq![c]
    });
    assert(seq!['"'].drop_first() =~= Seq::empty());
    assert(doubled(seq!['"']) =~= seq!['"', '"']);
    if a.len() == 0 {
        assert(a + b =~= b);
        assert(doubled(a) + doubled(b) =~= doubled(b));
    } else {
        law_escaped(s, a.drop_first(), b, c);
        assert((a + b).drop_first() =~= a.drop_first() + b);
        assert(doubled(a + b) =~= doubled(a) + doubled(b));
    }
}

/// Whether the end of a line is within quotes: it has an odd number of them.
pub open spec fn ends_in_quotes(line: Seq<char>) -> bool {
    line.filter(|c: char| c == '"').len() % 2 == 1
}

/// The fields of a line with one more character. Within quotes, and for any character but a comma
/// and a quote, the character is added to the last field; outside of quotes a comma starts a new
/// field. A quote is left out, unless it comes right after one that ended a quoted part: then it is
/// added to the last field.
pub open spec fn fields_with(line: Seq<char>, fields: Seq<Seq<char>>, c: char) -> Seq<Seq<char>> {
    let longer = fields.drop_last().push(fields.last().push(c));
    if c == '"' {
        if line.len() > 0 && line.last() == '"' && !ends_in_quotes(line) {
            longer
        } else {
            fields
        }
    } else if c == ',' && !ends_in_quotes(line) {
        fields.push(Seq::empty())
    } else {
        longer
    }
}

/// Whether the end of a line is within quotes, where its start is or is not.
spec fn turned(line: Seq<char>, in_quotes: bool) -> bool {
    if in_quotes {
        !ends_in_quotes(line)
    } else {
        ends_in_quotes(line)
    }
}

/// The quotes of a line without its first character.
proof fn lemma_turned_step(line: Seq<char>, in_quotes: bool)
    requires
        line.len() > 0,
    ensures
        turned(line, in_quotes) == turned(line.drop_first(), if line[0] == '"' {
            !in_quotes
        } else {
            in_quotes
        }),
    decreases line.len(),
{
    let quote = |c: char| c == '"';
    let rest = line.drop_first();
    assert(line =~= seq![line[0]] + rest);
    Seq::filter_distributes_over_add(seq![line[0]], rest, quote);
    reveal_with_fuel(Seq::filter, 2);
    assert(seq![line[0]].drop_last() =~= Seq::empty());
    assert(seq![line[0]].filter(quote).len() == if line[0] == '"' {
        1nat
    } else {
        0
    });
    assert(line.filter(quote).len() == seq![line[0]].filter(quote).len() + rest.filter(
        quote,
    ).len());
}

/// Scanning with one more character at the end.
proof fn lemma_scan_push(line: Seq<char>, in_quotes: bool, current: Seq<char>, c: char)
    ensures
        ({
            let fields = csv_scan(line, in_quotes, current);
            let longer = fields.drop_last().push(fields.last().push(c));
            let within = turned(line, in_quotes);
            &&& fields.len() > 0
            &&& csv_scan(line.push(c), in_quotes, current) == if c == '"' {
                if line.len() > 0 && line.last() == '"' && !within {
                    longer
                } else {
                    fields
                }
            } else if c == ',' && !within {
                fields.push(Seq::empty())
            } else {
                longer
            }
        }),
    decreases line.len(),
{
    reveal_with_fuel(csv_scan, 2);
    let all = line.push(c);
    if line.len() == 0 {
        assert(line =~= Seq::empty());
        assert(line.filter(|c: char| c == '"').len() == 0) by {
            reveal(Seq::filter);
        }
        assert(all.drop_first() =~= Seq::empty());
        assert(all[0] == c);
        let fields = seq![current];
        assert(fields.drop_last() =~= Seq::empty());
        assert(csv_scan(all, in_quotes, current) =~= if c == '"' {
            fields
        } else if c == ',' && !in_quotes {
            fields.push(Seq::empty())
        } else {
            fields.drop_last().push(fields.last().push(c))
        });
    } else {
        let first = line[0];
        let rest = line.drop_first();
        assert(all.drop_first() =~= rest.push(c));
        lemma_turned_step(line, in_quotes);
        if in_quotes && first == '"' && rest.len() > 0 && rest[0] == '"' {
            let more = rest.drop_first();
            assert(rest.push(c).drop_first() =~= more.push(c));
            assert(rest.push(c)[0] == '"');
            lemma_turned_step(rest, !in_quotes);
            lemma_scan_push(more, true, current.push('"'), c);
            if more.len() > 0 {
                assert(more.last() == line.last());
            } else {
                assert(line.last() == '"');
                assert(turned(more, true)) by {
                    reveal(Seq::filter);
                }
            }
        } else if in_quotes && first == '"' && rest.len() == 0 && c == '"' {
            assert(rest.push(c)[0] == '"');
            assert(rest.push(c).drop_first() =~= Seq::empty());
            assert(!turned(rest, false)) by {
                reveal(Seq::filter);
            }
            assert(seq![current].drop_last() =~= Seq::empty());
            assert(csv_scan(all, in_quotes, current) =~= seq![current.push('"')]);
        } else if first == '"' {
            lemma_scan_push(rest, !in_quotes, current, c);
            if rest.len() > 0 {
                assert(rest.push(c)[0] == rest[0]);
                assert(rest.last() == line.last());
            } else {
                assert(turned(rest, !in_quotes) == !in_quotes) by {
                    reveal(Seq::filter);
                }
            }
        } else if !in_quotes && first == ',' {
            lemma_scan_push(rest, false, Seq::empty(), c);
            let others = csv_scan(rest, false, Seq::empty());
            let fields = seq![current] + others;
            assert(fields.drop_last() =~= seq![current] + others.drop_last());
            assert(fields.last() == others.last());
            if rest.len() > 0 {
                assert(rest.last() == line.last());
            }
            assert(seq![current] + others.push(Seq::empty()) =~= fields.push(Seq::empty()));
            assert(seq![current] + others.drop_last().push(others.last().push(c))
                =~= fields.drop_last().push(fields.last().push(c)));
        } else {
            lemma_scan_push(rest, in_quotes, current.push(first), c);
            if rest.len() > 0 {
                assert(rest.last() == line.last());
            }
        }
    }
}

/// An empty line has one empty field, and what one more character at the end of a line does to its
/// fields depends only on the quotes before it.
pub proof fn law_csv_step(line: Seq<char>, c: char)
    ensures
        csv_fields(Seq::empty()) == seq![Seq::<char>::empty()],
        csv_fields(line).len() > 0,
        csv_fields(line.push(c)) == fields_with(line, csv_fields(line), c),
{
    lemma_scan_push(line, false, Seq::empty(), c);
}

/// A line is split at its first comma, and on from there, until there are enough parts or no more
/// commas.
pub proof fn law_split_line(first: Seq<char>, rest: Seq<char>, n: nat)
    requires
        !first.contains(','),
    ensures
        split_line(rest, 0) == Seq::<Seq<char>>::empty(),
        split_line(rest, 1) == seq![rest],
        n > 0 ==> split_line(first, n) == seq![first],
        n > 1 ==> split_line(first + seq![','] + rest, n) == seq![first] + split_line(
            rest,
            (n - 1) as nat,
        ),
{
    let line = first + seq![','] + rest;
    let k = first.len() as int;
    assert(line[k] == ',');
    assert forall|j: int| 0 <= j < k implies line[j] != ',' by {
        assert(first.contains(first[j]));
    }
    assert(is_first_comma(line, k));
    let c = first_comma(line);
    assert(is_first_comma(line, c));
    assert(c == k) by {
        if c < k {
            assert(line[c] != ',');
        }
    }
    assert(line.take(k) =~= first);
    assert(line.skip(k + 1) =~= rest);
}

/// The contents of strings are their own.
pub proof fn law_texts(strings: Seq<String>, i: int)
    requires
        0 <= i < strings.len(),
    ensures
        texts(strings).len() == strings.len(),
        texts(strings)[i] == strings[i]@,
{
}

/// Fields that follow others come after them and a comma, and a field alone is written as a field:
/// nothing else is in a line.
pub proof fn law_fields_joined(a: Seq<Seq<char>>, b: Seq<Seq<char>>, field: Seq<char>)
    ensures
        a.len() > 0 && b.len() > 0 ==> csv_row(a + b) == csv_row(a) + seq![','] + csv_row(b),
        csv_row(seq![field]) == escaped(field),
    decreases a.len(),
{
    if a.len() > 0 && b.len() > 0 {
        assert((a + b).drop_first() =~= a.drop_first() + b);
        if a.len() == 1 {
            assert(a.drop_first() + b =~= b);
            assert(csv_row(a + b) =~= csv_row(a) + seq![','] + csv_row(b));
        } else {
            law_fields_joined(a.drop_first(), b, field);
            assert(csv_row(a + b) =~= csv_row(a) + seq![','] + csv_row(b));
        }
    }
}

} // verus!
