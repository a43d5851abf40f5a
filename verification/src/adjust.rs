//! Adjustments to a dictionary, read from lines of comma-separated values: costs of words, and
//! patches of the connection matrix. The first line is a heading.

use crate::csv::{law_split_line, split_commas, split_line, texts};
use crate::text::{
    chars_of, i16_of, parse_i16, parse_u16, parse_u32, string_of, trim, trimmed, u16_of, u32_of,
};
use std::collections::HashMap;
use vstd::prelude::*;

verus! {

broadcast use vstd::std_specs::hash::group_hash_axioms;

/// The word number and the cost in a line: the first and the fifth of its parts. There are none
/// where one of them is missing or is not such a number.
pub open spec fn cost_row(line: Seq<char>) -> Option<(u32, i16)> {
    let parts = split_line(line, 6);
    if parts.len() >= 5 && u32_of(parts[0]) is Some && i16_of(parts[4]) is Some {
        Some((u32_of(parts[0])->0 as u32, i16_of(parts[4])->0 as i16))
    } else {
        None
    }
}

/// The costs of words. Of two lines for a word the last one counts.
pub open spec fn cost_map(lines: Seq<Seq<char>>) -> Map<u32, i16>
    decreases lines.len(),
{
    if lines.len() <= 1 {
        Map::empty()
    } else {
        let before = cost_map(lines.drop_last());
        match cost_row(lines.last()) {
            Some((word_id, cost)) => before.insert(word_id, cost),
            None => before,
        }
    }
}

/// The word number and the cost in a line.
fn read_cost_row(line: &str) -> (r: Option<(u32, i16)>)
    ensures
        r == cost_row(line@),
{
    let parts: Vec<String> = split_commas(line, 6);
    let ghost views = split_line(line@, 6);
    assert(parts@.len() == views.len());
    if parts.len() < 5 {
        return None;
    }
    assert(views[0] == parts@[0]@ && views[4] == parts@[4]@);
    match (parse_u32(parts[0].as_str()), parse_i16(parts[4].as_str())) {
        (Some(word_id), Some(cost)) => Some((word_id, cost)),
        _ => None,
    }
}

/// Reads the costs of words.
pub fn load_cost_csv(lines: &Vec<String>) -> (costs: HashMap<u32, i16>)
    ensures
        costs@ == cost_map(texts(lines@)),
{
    let ghost views = texts(lines@);
    let mut costs: HashMap<u32, i16> = HashMap::new();
    let mut i: usize = 0;
    while i < lines.len()
        invariant
            i <= lines.len(),
            views == texts(lines@),
            costs@ == cost_map(views.take(i as int)),
        decreases lines.len() - i,
    {
        assert(views.take(i + 1).drop_last() =~= views.take(i as int));
        assert(views.take(i + 1).last() == lines@[i as int]@);
        if i > 0 {
            if let Some((word_id, cost)) = read_cost_row(lines[i].as_str()) {
                let _ = costs.insert(word_id, cost);
            }
        }
        i = i + 1;
    }
    assert(views.take(i as int) =~= views);
    costs
}

/// The key of a patch: its right number times 65536, plus its left number.
pub open spec fn patch_key(left: int, right: int) -> u32 {
    (right * 0x1_0000 + left) as u32
}

/// The key and the change in a line: the left and the right number are its first two parts, the
/// change is the third one. There are none where one of them is missing or is not such a number.
pub open spec fn patch_row(line: Seq<char>) -> Option<(u32, i16)> {
    let parts = split_line(line, 4);
    if parts.len() >= 3 && u16_of(parts[0]) is Some && u16_of(parts[1]) is Some && i16_of(
        trimmed(parts[2]),
    ) is Some {
        Some(
            (
                patch_key(u16_of(parts[0])->0, u16_of(parts[1])->0),
                i16_of(trimmed(parts[2]))->0 as i16,
            ),
        )
    } else {
        None
    }
}

/// The patches of the matrix. Of two lines for a pair the last one counts.
pub open spec fn patch_map(lines: Seq<Seq<char>>) -> Map<u32, i16>
    decreases lines.len(),
{
    if lines.len() <= 1 {
        Map::empty()
    } else {
        let before = patch_map(lines.drop_last());
        match patch_row(lines.last()) {
            Some((key, delta)) => before.insert(key, delta),
            None => before,
        }
    }
}

/// The key and the change in a line.
fn read_patch_row(line: &str) -> (r: Option<(u32, i16)>)
    ensures
        r == patch_row(line@),
{
    let parts: Vec<String> = split_commas(line, 4);
    let ghost views = split_line(line@, 4);
    assert(parts@.len() == views.len());
    if parts.len() < 3 {
        return None;
    }
    assert(views[0] == parts@[0]@ && views[1] == parts@[1]@ && views[2] == parts@[2]@);
    let delta_chars: Vec<char> = chars_of(parts[2].as_str());
    let delta_text: String = string_of(trim(delta_chars.as_slice()).as_slice());
    match (
        parse_u16(parts[0].as_str()),
        parse_u16(parts[1].as_str()),
        parse_i16(delta_text.as_str()),
    ) {
        (Some(left), Some(right), Some(delta)) => Some(
            (right as u32 * 0x1_0000 + left as u32, delta),
        ),
        _ => None,
    }
}

/// Reads the patches of the matrix.
pub fn load_matrix_patches(lines: &Vec<String>) -> (patches: HashMap<u32, i16>)
    ensures
        patches@ == patch_map(texts(lines@)),
{
    let ghost views = texts(lines@);
    let mut patches: HashMap<u32, i16> = HashMap::new();
    let mut i: usize = 0;
    while i < lines.len()
        invariant
            i <= lines.len(),
            views == texts(lines@),
            patches@ == patch_map(views.take(i as int)),
        decreases lines.len() - i,
    {
        assert(views.take(i + 1).drop_last() =~= views.take(i as int));
        assert(views.take(i + 1).last() == lines@[i as int]@);
        if i > 0 {
            if let Some((key, delta)) = read_patch_row(lines[i].as_str()) {
                let _ = patches.insert(key, delta);
            }
        }
        i = i + 1;
    }
    assert(views.take(i as int) =~= views);
    patches
}

/// Fields with commas between them.
pub open spec fn with_commas(fields: Seq<Seq<char>>) -> Seq<char>
    decreases fields.len(),
{
    if fields.len() == 0 {
        Seq::empty()
    } else if fields.len() == 1 {
        fields[0]
    } else {
        fields[0] + seq![','] + with_commas(fields.drop_first())
    }
}

/// Fields without commas are the parts of their line; past the last part asked for, what is left
/// stays together.
proof fn lemma_split_fields(fields: Seq<Seq<char>>, n: nat)
    requires
        fields.len() > 0,
        n > 0,
        forall|i: int|
            0 <= i < fields.len() && i + 1 < n ==> !(#[trigger] fields[i]).contains(','),
    ensures
        ({
            let parts = split_line(with_commas(fields), n);
            &&& fields.len() < n ==> parts == fields
            &&& fields.len() >= n ==> parts.len() == n
            &&& forall|i: int|
                0 <= i < fields.len() && i + 1 < n ==> #[trigger] parts[i] == fields[i]
        }),
    decreases fields.len(),
{
    let rest = fields.drop_first();
    if n == 1 {
        law_split_line(Seq::empty(), with_commas(fields), 1);
    } else if fields.len() == 1 {
        assert(!fields[0].contains(','));
        law_split_line(fields[0], Seq::empty(), n);
        assert(seq![fields[0]] =~= fields);
    } else {
        assert(!fields[0].contains(','));
        assert forall|i: int| 0 <= i < rest.len() && i + 1 < n - 1 implies !(
        #[trigger] rest[i]).contains(',') by {
            assert(rest[i] == fields[i + 1]);
        }
        lemma_split_fields(rest, (n - 1) as nat);
        law_split_line(fields[0], with_commas(rest), n);
        let parts = split_line(with_commas(fields), n);
        let others = split_line(with_commas(rest), (n - 1) as nat);
        assert(parts == seq![fields[0]] + others);
        assert(seq![fields[0]] + rest =~= fields);
        assert forall|i: int| 0 <= i < fields.len() && i + 1 < n implies #[trigger] parts[i]
            == fields[i] by {
            if i > 0 {
                assert(others[i - 1] == rest[i - 1]);
            }
        }
    }
}

/// A line gives the word numbered by its first field the cost in its fifth one, whatever the fields
/// between them are and whatever follows. A line with fewer fields, or where one of the two is not
/// such a number, gives none.
pub proof fn law_cost_row(fields: Seq<Seq<char>>)
    requires
        fields.len() > 0,
        forall|i: int| 0 <= i < fields.len() ==> i < 5 ==> !(#[trigger] fields[i]).contains(','),
    ensures
        ({
            let row = cost_row(with_commas(fields));
            &&& fields.len() < 5 ==> row is None
            &&& fields.len() >= 5 ==> (row is Some <==> u32_of(fields[0]) is Some && i16_of(
                fields[4],
            ) is Some)
            &&& row is Some ==> (row->0).0 == u32_of(fields[0])->0
            &&& row is Some ==> (row->0).1 == i16_of(fields[4])->0
        }),
{
    lemma_split_fields(fields, 6);
    if fields.len() >= 5 {
        let parts = split_line(with_commas(fields), 6);
        assert(parts[0] == fields[0] && parts[4] == fields[4]);
    }
}

/// Of the lines after the heading, the last one that gives a word a cost counts.
pub proof fn law_cost_of_word(lines: Seq<Seq<char>>, i: int)
    requires
        1 <= i < lines.len(),
        cost_row(lines[i]) is Some,
        forall|j: int|
            i < j < lines.len() && cost_row(#[trigger] lines[j]) is Some ==> (cost_row(
                lines[j],
            )->0).0 != (cost_row(lines[i])->0).0,
    ensures
        cost_map(lines).contains_key((cost_row(lines[i])->0).0),
        cost_map(lines)[(cost_row(lines[i])->0).0] == (cost_row(lines[i])->0).1,
    decreases lines.len(),
{
    if i < lines.len() - 1 {
        let rest = lines.drop_last();
        assert forall|j: int| i < j < rest.len() && cost_row(#[trigger] rest[j]) is Some implies (
        cost_row(rest[j])->0).0 != (cost_row(rest[i])->0).0 by {
            assert(rest[j] == lines[j]);
        }
        law_cost_of_word(rest, i);
        assert(lines[lines.len() - 1] == lines.last());
    }
}

/// A word that no line after the heading gives a cost has none.
pub proof fn law_no_cost(lines: Seq<Seq<char>>, word: u32)
    requires
        forall|i: int|
            1 <= i < lines.len() && cost_row(#[trigger] lines[i]) is Some ==> (cost_row(
                lines[i],
            )->0).0 != word,
    ensures
        !cost_map(lines).contains_key(word),
    decreases lines.len(),
{
    if lines.len() > 1 {
        let rest = lines.drop_last();
        assert forall|i: int| 1 <= i < rest.len() && cost_row(#[trigger] rest[i]) is Some implies (
        cost_row(rest[i])->0).0 != word by {
            assert(rest[i] == lines[i]);
        }
        law_no_cost(rest, word);
        assert(lines[lines.len() - 1] == lines.last());
    }
}

/// A line gives the pair of the left number in its first field and the right number in its second
/// one the change in its third one, which may have white space around it. The key of the pair is
/// the right number times 65536 plus the left one. A line with fewer fields, or where one of them
/// is not such a number, gives none.
pub proof fn law_patch_row(fields: Seq<Seq<char>>)
    requires
        fields.len() > 0,
        forall|i: int| 0 <= i < fields.len() ==> i < 3 ==> !(#[trigger] fields[i]).contains(','),
    ensures
        ({
            let row = patch_row(with_commas(fields));
            &&& fields.len() < 3 ==> row is None
            &&& fields.len() >= 3 ==> (row is Some <==> u16_of(fields[0]) is Some && u16_of(
                fields[1],
            ) is Some && i16_of(trimmed(fields[2])) is Some)
            &&& row is Some ==> (row->0).0 == 65536 * u16_of(fields[1])->0 + u16_of(fields[0])->0
            &&& row is Some ==> (row->0).1 == i16_of(trimmed(fields[2]))->0
        }),
{
    lemma_split_fields(fields, 4);
    if fields.len() >= 3 {
        let parts = split_line(with_commas(fields), 4);
        assert(parts[0] == fields[0] && parts[1] == fields[1] && parts[2] == fields[2]);
    }
}

/// Of the lines after the heading, the last one that gives a pair a change counts.
pub proof fn law_patch_of_pair(lines: Seq<Seq<char>>, i: int)
    requires
        1 <= i < lines.len(),
        patch_row(lines[i]) is Some,
        forall|j: int|
            i < j < lines.len() && patch_row(#[trigger] lines[j]) is Some ==> (patch_row(
                lines[j],
            )->0).0 != (patch_row(lines[i])->0).0,
    ensures
        patch_map(lines).contains_key((patch_row(lines[i])->0).0),
        patch_map(lines)[(patch_row(lines[i])->0).0] == (patch_row(lines[i])->0).1,
    decreases lines.len(),
{
    if i < lines.len() - 1 {
        let rest = lines.drop_last();
        assert forall|j: int| i < j < rest.len() && patch_row(#[trigger] rest[j]) is Some implies (
        patch_row(rest[j])->0).0 != (patch_row(rest[i])->0).0 by {
            assert(rest[j] == lines[j]);
        }
        law_patch_of_pair(rest, i);
        assert(lines[lines.len() - 1] == lines.last());
    }
}

/// A pair that no line after the heading gives a change has none.
pub proof fn law_no_patch(lines: Seq<Seq<char>>, key: u32)
    requires
        forall|i: int|
            1 <= i < lines.len() && patch_row(#[trigger] lines[i]) is Some ==> (patch_row(
                lines[i],
            )->0).0 != key,
    ensures
        !patch_map(lines).contains_key(key),
    decreases lines.len(),
{
    if lines.len() > 1 {
        let rest = lines.drop_last();
        assert forall|i: int| 1 <= i < rest.len() && patch_row(#[trigger] rest[i]) is Some implies (
        patch_row(rest[i])->0).0 != key by {
            assert(rest[i] == lines[i]);
        }
        law_no_patch(rest, key);
        assert(lines[lines.len() - 1] == lines.last());
    }
}

} // verus!
