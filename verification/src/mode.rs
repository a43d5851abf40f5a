//! How finely text is split into words.

use crate::text::chars_of;
use vstd::prelude::*;

verus! {

/// The granularity of the words: shortest units, middle units, or named entities.
#[derive(Clone, Copy, Debug, PartialEq, Eq, Structural)]
pub enum Mode {
    A,
    B,
    C,
}

/// The granularity that a letter stands for, in either case. Named entities are the default.
pub open spec fn mode_of(s: Seq<char>) -> Mode {
    if s.len() == 1 && (s[0] == 'A' || s[0] == 'a') {
        Mode::A
    } else if s.len() == 1 && (s[0] == 'B' || s[0] == 'b') {
        Mode::B
    } else {
        Mode::C
    }
}

/// Reads a granularity.
pub fn parse_mode(s: &str) -> (mode: Mode)
    ensures
        mode == mode_of(s@),
{
    let chars: Vec<char> = chars_of(s);
    if chars.len() != 1 {
        Mode::C
    } else if chars[0] == 'A' || chars[0] == 'a' {
        Mode::A
    } else if chars[0] == 'B' || chars[0] == 'b' {
        Mode::B
    } else {
        Mode::C
    }
}

/// The letters A and B stand for shortest and middle units, in either case, and everything else for
/// named entities.
pub proof fn law_mode(s: Seq<char>)
    ensures
        mode_of(s) == Mode::A <==> s == "A"@ || s == "a"@,
        mode_of(s) == Mode::B <==> s == "B"@ || s == "b"@,
        s != "A"@ && s != "a"@ && s != "B"@ && s != "b"@ ==> mode_of(s) == Mode::C,
{
    reveal_strlit("A");
    reveal_strlit("a");
    reveal_strlit("B");
    reveal_strlit("b");
    assert(s == "A"@ <==> s.len() == 1 && s[0] == 'A') by {
        if s.len() == 1 && s[0] == 'A' {
            assert(s =~= "A"@);
        }
    }
    assert(s == "a"@ <==> s.len() == 1 && s[0] == 'a') by {
        if s.len() == 1 && s[0] == 'a' {
            assert(s =~= "a"@);
        }
    }
    assert(s == "B"@ <==> s.len() == 1 && s[0] == 'B') by {
        if s.len() == 1 && s[0] == 'B' {
            assert(s =~= "B"@);
        }
    }
    assert(s == "b"@ <==> s.len() == 1 && s[0] == 'b') by {
        if s.len() == 1 && s[0] == 'b' {
            assert(s =~= "b"@);
        }
    }
}

} // verus!
