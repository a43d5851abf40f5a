//! Katakana and hiragana.

use crate::text::chars_of;
use vstd::prelude::*;

verus! {

/// `char::from_u32` gives the character with a code point, and nothing for a number that is no
/// character's code point: a surrogate, or one past the last code point.
pub assume_specification[ char::from_u32 ](n: u32) -> (c: Option<char>)
    ensures
        c is Some <==> n < 0xD800 || 0xE000 <= n <= 0x10FFFF,
        c matches Some(c) ==> c as int == n,
;

/// The hiragana character of a katakana character from U+30A1 to U+30F6, which stands 0x60 code
/// points before it; any other character itself.
pub open spec fn hiragana(c: char) -> char {
    if 0x30A1 <= c as int <= 0x30F6 {
        (c as int - 0x60) as char
    } else {
        c
    }
}

/// A text with each katakana character replaced by its hiragana.
pub open spec fn in_hiragana(text: Seq<char>) -> Seq<char> {
    text.map_values(|c: char| hiragana(c))
}

/// Converts katakana to hiragana. Other characters are kept.
pub fn katakana_to_hiragana(s: &str) -> (r: String)
    ensures
        r@ == in_hiragana(s@),
{
    let chars: Vec<char> = chars_of(s);
    let mut r: String = String::new();
    let mut i: usize = 0;
    while i < chars.len()
        invariant
            chars@ == s@,
            i <= chars.len(),
            r@ == in_hiragana(s@.take(i as int)),
        decreases chars.len() - i,
    {
        let c: char = chars[i];
        let code: u32 = c as u32;
        let h: char = if 0x30A1 <= code && code <= 0x30F6 {
            match char::from_u32(code - 0x60) {
                Some(h) => h,
                None => c,
            }
        } else {
            c
        };
        r.push(h);
        assert(s@.take(i + 1) =~= s@.take(i as int).push(c));
        assert(in_hiragana(s@.take(i + 1)) =~= in_hiragana(s@.take(i as int)).push(h));
        i = i + 1;
    }
    assert(s@.take(i as int) =~= s@);
    r
}

/// Converting to hiragana keeps the number of characters, and converting again changes nothing.
pub proof fn law_in_hiragana_settles(text: Seq<char>)
    ensures
        in_hiragana(text).len() == text.len(),
        in_hiragana(in_hiragana(text)) == in_hiragana(text),
{
    assert(in_hiragana(in_hiragana(text)) =~= in_hiragana(text));
}

/// The katakana from U+30A1 to U+30F6 become the hiragana 96 code points before them, and nothing
/// else changes.
pub proof fn law_hiragana(text: Seq<char>, i: int)
    requires
        0 <= i < text.len(),
    ensures
        in_hiragana(text).len() == text.len(),
        '\u{30A1}' <= text[i] <= '\u{30F6}' ==> in_hiragana(text)[i] as int == text[i] as int - 96,
        !('\u{30A1}' <= text[i] <= '\u{30F6}') ==> in_hiragana(text)[i] == text[i],
{
}

} // verus!
