//! The parameters of a kana-kanji conversion dictionary, read from JSON text.

use crate::kkc::KkcParams;
use crate::text::{
    chars_of, i16_of, is_digit, is_white, law_trimmed, law_white, parse_i16, string_of, trim,
    trimmed,
};
use vstd::prelude::*;
use vstd::slice::slice_subrange;

verus! {

/// The compound boost where none is given.
pub const DEFAULT_ALPHA: i16 = 500;

/// The identity penalty where none is given.
pub const DEFAULT_BETA: i16 = 12000;

/// Whether `pattern` stands in `s` at `at`.
pub open spec fn occurs_at(s: Seq<char>, pattern: Seq<char>, at: int) -> bool {
    0 <= at && at + pattern.len() <= s.len() && s.subrange(at, at + pattern.len()) == pattern
}

/// Whether `pattern` stands in `s` at `at` and nowhere before.
pub open spec fn first_occurs_at(s: Seq<char>, pattern: Seq<char>, at: int) -> bool {
    occurs_at(s, pattern, at) && forall|j: int| 0 <= j < at ==> !occurs_at(s, pattern, j)
}

/// What follows the first occurrence of `pattern` in `s`.
pub open spec fn after_first(s: Seq<char>, pattern: Seq<char>) -> Option<Seq<char>> {
    if exists|at: int| first_occurs_at(s, pattern, at) {
        let at = choose|at: int| first_occurs_at(s, pattern, at);
        Some(s.skip(at + pattern.len()))
    } else {
        None
    }
}

/// Whether a character belongs to a number.
pub open spec fn is_number_char(c: char) -> bool {
    is_digit(c) || c == '-'
}

/// The characters at the start that belong to a number.
pub open spec fn number_part(s: Seq<char>) -> Seq<char>
    decreases s.len(),
{
    if s.len() == 0 || !is_number_char(s[0]) {
        Seq::empty()
    } else {
        seq![s[0]] + number_part(s.drop_first())
    }
}

/// The number that follows the first occurrence of a key in quotes: after the next colon and white
/// space, as far as digits and minus signs go. There is none where the key or the colon is
/// missing, or what stands there is not a signed 16-bit number.
pub open spec fn json_i16(json: Seq<char>, key: Seq<char>) -> Option<int> {
    match after_first(json, seq!['"'] + key + seq!['"']) {
        None => None,
        Some(after_key) => match after_first(after_key, seq![':']) {
            None => None,
            Some(value) => i16_of(number_part(trimmed(value))),
        },
    }
}

/// Whether `pattern` stands in `s` at `at`.
fn matches_at(s: &Vec<char>, pattern: &Vec<char>, at: usize) -> (r: bool)
    requires
        at + pattern@.len() <= s.len(),
    ensures
        r == occurs_at(s@, pattern@, at as int),
{
    let mut i: usize = 0;
    while i < pattern.len()
        invariant
            i <= pattern@.len(),
            at + pattern@.len() <= s.len(),
            forall|j: int| 0 <= j < i ==> s@[at + j] == pattern@[j],
        decreases pattern.len() - i,
    {
        if s[at + i] != pattern[i] {
            proof {
                if occurs_at(s@, pattern@, at as int) {
                    assert(s@.subrange(at as int, at + pattern@.len())[i as int]
                        == pattern@[i as int]);
                }
            }
            return false;
        }
        i = i + 1;
    }
    assert(s@.subrange(at as int, at + pattern@.len()) =~= pattern@);
    true
}

/// What follows the first occurrence of `pattern` in `s`.
fn find_after(s: &Vec<char>, pattern: &Vec<char>) -> (r: Option<Vec<char>>)
    ensures
        r is Some <==> after_first(s@, pattern@) is Some,
        r matches Some(rest) ==> rest@ == after_first(s@, pattern@)->0,
{
    let mut at: usize = 0;
    while at <= s.len() && pattern.len() <= s.len() - at
        invariant
            at <= s@.len() + 1,
            forall|j: int| 0 <= j < at ==> !occurs_at(s@, pattern@, j),
        decreases s@.len() + 1 - at,
    {
        if matches_at(s, pattern, at) {
            proof {
                assert(first_occurs_at(s@, pattern@, at as int));
                let chosen = choose|chosen: int| first_occurs_at(s@, pattern@, chosen);
                assert(first_occurs_at(s@, pattern@, chosen));
                assert(chosen == at);
            }
            let from: usize = at + pattern.len();
            let rest: Vec<char> = vstd::slice::slice_to_vec(
                slice_subrange(s.as_slice(), from, s.len()),
            );
            assert(rest@ =~= s@.skip(from as int));
            return Some(rest);
        }
        if at == s.len() {
            assert forall|j: int| !first_occurs_at(s@, pattern@, j) by {}
            return None;
        }
        at = at + 1;
    }
    assert forall|j: int| !first_occurs_at(s@, pattern@, j) by {}
    None
}

/// The characters at the start that belong to a number.
fn read_number_part(s: &Vec<char>) -> (r: Vec<char>)
    ensures
        r@ == number_part(s@),
{
    let mut r: Vec<char> = Vec::new();
    let mut i: usize = 0;
    assert(s@.skip(0) =~= s@);
    assert(r@ + number_part(s@) =~= number_part(s@));
    while i < s.len() && (('0' <= s[i] && s[i] <= '9') || s[i] == '-')
        invariant
            i <= s@.len(),
            r@ + number_part(s@.skip(i as int)) == number_part(s@),
        decreases s.len() - i,
    {
        let ghost rest = s@.skip(i as int);
        assert(rest.drop_first() =~= s@.skip(i + 1));
        let ghost before = r@;
        r.push(s[i]);
        assert(before + (seq![s@[i as int]] + number_part(s@.skip(i + 1))) =~= r@ + number_part(
            s@.skip(i + 1),
        ));
        i = i + 1;
    }
    assert(number_part(s@.skip(i as int)) =~= Seq::empty());
    assert(r@ + Seq::<char>::empty() =~= r@);
    r
}

/// Finds the number that a key is given in JSON text.
pub fn extract_json_i16(json: &str, key: &str) -> (r: Option<i16>)
    ensures
        r is Some <==> json_i16(json@, key@) is Some,
        r matches Some(n) ==> n == json_i16(json@, key@)->0,
{
    let text: Vec<char> = chars_of(json);
    let mut pattern: Vec<char> = Vec::new();
    pattern.push('"');
    let mut key_chars: Vec<char> = chars_of(key);
    pattern.append(&mut key_chars);
    pattern.push('"');
    assert(pattern@ =~= seq!['"'] + key@ + seq!['"']);
    let after_key: Vec<char> = match find_after(&text, &pattern) {
        None => return None,
        Some(rest) => rest,
    };
    let mut colon: Vec<char> = Vec::new();
    colon.push(':');
    assert(colon@ =~= seq![':']);
    let value: Vec<char> = match find_after(&after_key, &colon) {
        None => return None,
        Some(rest) => rest,
    };
    let digits: Vec<char> = read_number_part(&trim(value.as_slice()));
    parse_i16(string_of(digits.as_slice()).as_str())
}

/// The number that a key is given, or another one where it is given none.
pub open spec fn json_i16_or(json: Seq<char>, key: Seq<char>, default: i16) -> int {
    match json_i16(json, key) {
        Some(n) => n,
        None => default as int,
    }
}

/// Reads the parameters.
pub fn parse_params(content: &str) -> (params: KkcParams)
    ensures
        params.alpha == json_i16_or(content@, "alpha"@, DEFAULT_ALPHA),
        params.beta == json_i16_or(content@, "beta"@, DEFAULT_BETA),
        json_i16(content@, "alpha"@) matches Some(n) ==> params.alpha == n,
        json_i16(content@, "alpha"@) is None ==> params.alpha == 500,
        json_i16(content@, "beta"@) matches Some(n) ==> params.beta == n,
        json_i16(content@, "beta"@) is None ==> params.beta == 12000,
{
    let alpha: i16 = match extract_json_i16(content, "alpha") {
        Some(n) => n,
        None => DEFAULT_ALPHA,
    };
    let beta: i16 = match extract_json_i16(content, "beta") {
        Some(n) => n,
        None => DEFAULT_BETA,
    };
    KkcParams { alpha, beta }
}

/// The first occurrence is found, and what follows it is left.
proof fn lemma_after_first(before: Seq<char>, pattern: Seq<char>, after: Seq<char>)
    requires
        forall|j: int|
            0 <= j < before.len() ==> !occurs_at(before + pattern + after, pattern, j),
    ensures
        after_first(before + pattern + after, pattern) == Some(after),
{
    let s = before + pattern + after;
    let at = before.len() as int;
    assert(s.subrange(at, at + pattern.len()) =~= pattern);
    assert(first_occurs_at(s, pattern, at));
    let chosen = choose|chosen: int| first_occurs_at(s, pattern, chosen);
    assert(first_occurs_at(s, pattern, chosen));
    assert(chosen == at) by {
        if at < chosen {
            assert(!occurs_at(s, pattern, at));
        }
        if chosen < at {
            assert(!occurs_at(s, pattern, chosen));
        }
    }
    assert(s.skip(at + pattern.len()) =~= after);
}

/// A number is read from the start on as far as digits and minus signs go.
pub proof fn law_number_part(number: Seq<char>, rest: Seq<char>)
    requires
        forall|i: int|
            0 <= i < number.len() ==> ('0' <= #[trigger] number[i] <= '9' || number[i] == '-'),
        rest.len() > 0 ==> !('0' <= rest[0] <= '9' || rest[0] == '-'),
    ensures
        number_part(number + rest) == number,
    decreases number.len(),
{
    let s = number + rest;
    if number.len() == 0 {
        assert(s =~= rest);
        assert(number_part(s) =~= number);
    } else {
        let others = number.drop_first();
        assert forall|i: int| 0 <= i < others.len() implies ('0' <= #[trigger] others[i] <= '9'
            || others[i] == '-') by {
            assert(others[i] == number[i + 1]);
        }
        law_number_part(others, rest);
        assert(number[0] == s[0]);
        assert(s.drop_first() =~= others + rest);
        assert(number_part(s) =~= number);
    }
}

/// A number is read past the white space before it.
proof fn lemma_number_after_space(space: Seq<char>, number: Seq<char>, rest: Seq<char>)
    requires
        forall|i: int| 0 <= i < space.len() ==> is_white(#[trigger] space[i]),
        number.len() == 0 && rest.len() > 0 ==> !is_white(rest[0]),
        forall|i: int|
            0 <= i < number.len() ==> ('0' <= #[trigger] number[i] <= '9' || number[i] == '-'),
        rest.len() > 0 ==> !('0' <= rest[0] <= '9' || rest[0] == '-'),
    ensures
        number_part(trimmed(space + number + rest)) == number,
{
    let value = space + number + rest;
    let (a, b) = law_trimmed(value);
    let n = space.len() as int;
    if number.len() == 0 {
        assert(number =~= Seq::empty());
        if a < b {
            if a < n {
                assert(space[a] == value[a]);
            }
            if n < a {
                assert(value[n] == rest[0]);
                assert(is_white(value[n]));
            }
            assert(value.subrange(a, b)[0] == rest[0]);
        }
        assert(number_part(value.subrange(a, b)) =~= number);
    } else {
        assert(value[n] == number[0]);
        law_white(number[0]);
        assert(a == n) by {
            if a < n {
                assert(space[a] == value[a]);
                if a < b {
                    assert(!is_white(value[a]));
                } else {
                    assert(is_white(value[n]));
                }
            }
            if n < a {
                assert(is_white(value[n]));
            }
        }
        let end = n + number.len();
        law_white(number[number.len() - 1]);
        assert(value[end - 1] == number[number.len() - 1]);
        assert(end <= b) by {
            if b < end {
                assert(is_white(value[end - 1]));
            }
        }
        let left = value.subrange(end, b);
        assert(value.subrange(a, b) =~= number + left);
        if left.len() > 0 {
            assert(left[0] == rest[0]);
        }
        law_number_part(number, left);
    }
}

/// The number that a key is given stands, white space aside, after the first colon that follows the
/// first occurrence of the key in quotes. Where something else stands there, there is none.
pub proof fn law_json_number(
    before: Seq<char>,
    key: Seq<char>,
    between: Seq<char>,
    space: Seq<char>,
    number: Seq<char>,
    rest: Seq<char>,
)
    requires
        ({
            let pattern = seq!['"'] + key + seq!['"'];
            let json = before + pattern + between + seq![':'] + space + number + rest;
            forall|j: int|
                0 <= j < before.len() ==> #[trigger] json.subrange(j, j + pattern.len()) != pattern
        }),
        !between.contains(':'),
        forall|i: int| 0 <= i < space.len() ==> is_white(#[trigger] space[i]),
        number.len() == 0 && rest.len() > 0 ==> !is_white(rest[0]),
        forall|i: int|
            0 <= i < number.len() ==> ('0' <= #[trigger] number[i] <= '9' || number[i] == '-'),
        rest.len() > 0 ==> !('0' <= rest[0] <= '9' || rest[0] == '-'),
    ensures
        ({
            let json = before + (seq!['"'] + key + seq!['"']) + between + seq![':'] + space + number
                + rest;
            json_i16(json, key) == i16_of(number)
        }),
{
    let pattern = seq!['"'] + key + seq!['"'];
    let colon = seq![':'];
    let value = space + number + rest;
    let after_key = between + colon + value;
    let json = before + pattern + between + colon + space + number + rest;
    assert(json =~= before + pattern + after_key);
    assert forall|j: int| 0 <= j < before.len() implies !occurs_at(
        before + pattern + after_key,
        pattern,
        j,
    ) by {
        assert(json.subrange(j, j + pattern.len()) != pattern);
    }
    lemma_after_first(before, pattern, after_key);
    assert forall|j: int| 0 <= j < between.len() implies !occurs_at(after_key, colon, j) by {
        assert(between.contains(between[j]));
        if occurs_at(after_key, colon, j) {
            assert(after_key.subrange(j, j + 1)[0] == ':');
            assert(after_key[j] == between[j]);
        }
    }
    lemma_after_first(between, colon, value);
    lemma_number_after_space(space, number, rest);
}

/// A key that does not occur in quotes, or that no colon follows, is given no number.
pub proof fn law_json_missing(json: Seq<char>, key: Seq<char>)
    requires
        ({
            let pattern = seq!['"'] + key + seq!['"'];
            forall|j: int, k: int|
                0 <= j && j + pattern.len() <= k < json.len() && #[trigger] json.subrange(
                    j,
                    j + pattern.len(),
                ) == pattern ==> #[trigger] json[k] != ':'
        }),
    ensures
        json_i16(json, key) is None,
{
    let pattern = seq!['"'] + key + seq!['"'];
    let colon = seq![':'];
    if after_first(json, pattern) is Some {
        let at = choose|at: int| first_occurs_at(json, pattern, at);
        let after_key = json.skip(at + pattern.len());
        assert(after_first(json, pattern) == Some(after_key));
        if after_first(after_key, colon) is Some {
            let c = choose|c: int| first_occurs_at(after_key, colon, c);
            assert(after_key.subrange(c, c + 1)[0] == ':');
            let k = at + pattern.len() + c;
            assert(json[k] == after_key[c]);
            assert(json.subrange(at, at + pattern.len()) == pattern);
        }
    }
}

} // verus!
