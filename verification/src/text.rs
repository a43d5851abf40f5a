//! Characters, decimal integers and white space.

use vstd::prelude::*;

verus! {

/// `String::push` appends one character.
pub assume_specification[ String::push ](s: &mut String, c: char)
    ensures
        final(s)@ == old(s)@.push(c),
;

/// The characters of a string.
pub fn chars_of(s: &str) -> (v: Vec<char>)
    ensures
        v@ == s@,
{
    let mut v: Vec<char> = Vec::new();
    for c in it: s.chars()
        invariant
            it.seq() == s@,
            v@ == s@.take(it.index() as int),
    {
        v.push(c);
    }
    v
}

/// Appends characters to a string.
pub fn push_chars(out: &mut String, chars: &[char])
    ensures
        final(out)@ == old(out)@ + chars@,
{
    let ghost before = out@;
    let mut i: usize = 0;
    while i < chars.len()
        invariant
            i <= chars.len(),
            out@ == before + chars@.take(i as int),
        decreases chars.len() - i,
    {
        out.push(chars[i]);
        assert(chars@.take(i + 1) =~= chars@.take(i as int).push(chars@[i as int]));
        i = i + 1;
    }
    assert(chars@.take(i as int) =~= chars@);
}

/// The string of a run of characters.
pub fn string_of(chars: &[char]) -> (s: String)
    ensures
        s@ == chars@,
{
    let mut s: String = String::new();
    push_chars(&mut s, chars);
    s
}

/// Appends a string to a string.
pub fn push_text(out: &mut String, text: &str)
    ensures
        final(out)@ == old(out)@ + text@,
{
    let chars: Vec<char> = chars_of(text);
    push_chars(out, chars.as_slice());
}

/// Whether two strings are the same.
pub fn same_text(a: &str, b: &str) -> (r: bool)
    ensures
        r == (a@ == b@),
{
    let x: Vec<char> = chars_of(a);
    let y: Vec<char> = chars_of(b);
    if x.len() != y.len() {
        return false;
    }
    let mut i: usize = 0;
    while i < x.len()
        invariant
            i <= x.len(),
            x.len() == y.len(),
            x@ == a@,
            y@ == b@,
            forall|j: int| 0 <= j < i ==> x@[j] == y@[j],
        decreases x.len() - i,
    {
        if x[i] != y[i] {
            return false;
        }
        i = i + 1;
    }
    assert(x@ =~= y@);
    true
}

/// Whether a character is a decimal digit.
pub open spec fn is_digit(c: char) -> bool {
    '0' <= c <= '9'
}

/// Whether there are only decimal digits.
pub open spec fn all_digits(s: Seq<char>) -> bool {
    forall|i: int| 0 <= i < s.len() ==> is_digit(#[trigger] s[i])
}

/// The number that decimal digits stand for.
pub open spec fn digits_value(s: Seq<char>) -> int
    decreases s.len(),
{
    if s.len() == 0 {
        0
    } else {
        10 * digits_value(s.drop_last()) + (s.last() as int - '0' as int)
    }
}

/// The number that is written as one or more decimal digits.
pub open spec fn natural(s: Seq<char>) -> Option<int> {
    if s.len() > 0 && all_digits(s) {
        Some(digits_value(s))
    } else {
        None
    }
}

/// The number that is written as decimal digits, after an optional sign. A minus sign is accepted
/// only where negative numbers are.
pub open spec fn number(s: Seq<char>, signed: bool) -> Option<int> {
    if s.len() > 0 && s[0] == '+' {
        natural(s.skip(1))
    } else if s.len() > 0 && s[0] == '-' && signed {
        match natural(s.skip(1)) {
            Some(n) => Some(-n),
            None => None,
        }
    } else {
        natural(s)
    }
}

/// A number, if it is within the given range.
pub open spec fn within(n: Option<int>, low: int, high: int) -> Option<int> {
    match n {
        Some(n) => if low <= n <= high {
            Some(n)
        } else {
            None
        },
        None => None,
    }
}

/// The signed 16-bit number that is written.
pub open spec fn i16_of(s: Seq<char>) -> Option<int> {
    within(number(s, true), i16::MIN as int, i16::MAX as int)
}

/// The unsigned 16-bit number that is written.
pub open spec fn u16_of(s: Seq<char>) -> Option<int> {
    within(number(s, false), 0, u16::MAX as int)
}

/// The unsigned 32-bit number that is written.
pub open spec fn u32_of(s: Seq<char>) -> Option<int> {
    within(number(s, false), 0, u32::MAX as int)
}

/// Digits never stand for less than nothing.
proof fn lemma_digits_value_not_negative(s: Seq<char>)
    requires
        all_digits(s),
    ensures
        digits_value(s) >= 0,
    decreases s.len(),
{
    if s.len() > 0 {
        assert(is_digit(s[s.len() - 1]));
        assert forall|i: int| 0 <= i < s.drop_last().len() implies is_digit(
            #[trigger] s.drop_last()[i],
        ) by {
            assert(is_digit(s[i]));
        }
        lemma_digits_value_not_negative(s.drop_last());
    }
}

/// Reads decimal digits from `from` on, at least one. A number greater than 10^11 is not computed:
/// the result is then just above that.
fn read_natural(chars: &Vec<char>, from: usize) -> (r: Option<i64>)
    requires
        from <= chars@.len(),
    ensures
        r is Some <==> natural(chars@.skip(from as int)) is Some,
        r matches Some(n) ==> {
            let exact = natural(chars@.skip(from as int))->0;
            0 <= n <= 100_000_000_000 && n == exact || n == 100_000_000_001 && exact
                > 100_000_000_000
        },
{
    let ghost s = chars@.skip(from as int);
    if from == chars.len() {
        return None;
    }
    let mut n: i64 = 0;
    let mut i: usize = from;
    assert(s.take(0) =~= Seq::<char>::empty());
    while i < chars.len()
        invariant
            from <= i <= chars@.len(),
            s == chars@.skip(from as int),
            all_digits(s.take(i - from)),
            0 <= n <= 100_000_000_001,
            n <= 100_000_000_000 ==> n == digits_value(s.take(i - from)),
            n == 100_000_000_001 ==> digits_value(s.take(i - from)) > 100_000_000_000,
        decreases chars.len() - i,
    {
        let c: char = chars[i];
        let ghost k = i - from;
        assert(s[k] == c);
        assert(s.take(k + 1) =~= s.take(k).push(c));
        assert(s.take(k + 1).drop_last() =~= s.take(k));
        if c < '0' || c > '9' {
            assert(!is_digit(s[k]));
            return None;
        }
        proof {
            lemma_digits_value_not_negative(s.take(k));
        }
        if n <= 100_000_000_000 {
            n = 10 * n + (c as i64 - '0' as i64);
            if n > 100_000_000_000 {
                n = 100_000_000_001;
            }
        }
        assert forall|j: int| 0 <= j < s.take(k + 1).len() implies is_digit(
            #[trigger] s.take(k + 1)[j],
        ) by {
            if j < k {
                assert(is_digit(s.take(k)[j]));
            }
        }
        i = i + 1;
    }
    assert(s.take(i - from) =~= s);
    Some(n)
}

/// Reads a decimal integer after an optional sign, if it is within the given range.
fn read_number(s: &str, signed: bool, low: i64, high: i64) -> (r: Option<i64>)
    requires
        -100_000_000_000 <= low,
        high <= 100_000_000_000,
    ensures
        r is Some <==> within(number(s@, signed), low as int, high as int) is Some,
        r matches Some(n) ==> n == within(number(s@, signed), low as int, high as int)->0,
{
    let chars: Vec<char> = chars_of(s);
    assert(chars@.skip(0) =~= chars@);
    let plus: bool = chars.len() > 0 && chars[0] == '+';
    let minus: bool = chars.len() > 0 && chars[0] == '-' && signed;
    let from: usize = if plus || minus {
        1
    } else {
        0
    };
    match read_natural(&chars, from) {
        None => None,
        Some(n) => {
            let value: i64 = if minus {
                -n
            } else {
                n
            };
            if low <= value && value <= high {
                Some(value)
            } else {
                None
            }
        },
    }
}

/// Reads a signed 16-bit decimal integer.
pub fn parse_i16(s: &str) -> (r: Option<i16>)
    ensures
        r is Some <==> i16_of(s@) is Some,
        r matches Some(n) ==> n == i16_of(s@)->0,
{
    match read_number(s, true, -0x8000, 0x7FFF) {
        None => None,
        Some(n) => Some(n as i16),
    }
}

/// Reads an unsigned 16-bit decimal integer.
pub fn parse_u16(s: &str) -> (r: Option<u16>)
    ensures
        r is Some <==> u16_of(s@) is Some,
        r matches Some(n) ==> n == u16_of(s@)->0,
{
    match read_number(s, false, 0, 0xFFFF) {
        None => None,
        Some(n) => Some(n as u16),
    }
}

/// Reads an unsigned 32-bit decimal integer.
pub fn parse_u32(s: &str) -> (r: Option<u32>)
    ensures
        r is Some <==> u32_of(s@) is Some,
        r matches Some(n) ==> n == u32_of(s@)->0,
{
    match read_number(s, false, 0, 0xFFFF_FFFF) {
        None => None,
        Some(n) => Some(n as u32),
    }
}

/// The decimal digits of a number that is not negative.
pub open spec fn decimal_digits(n: int) -> Seq<char>
    decreases n,
{
    if n < 10 {
        seq![('0' as int + n) as char]
    } else {
        decimal_digits(n / 10).push(('0' as int + n % 10) as char)
    }
}

/// A number in decimal.
pub open spec fn decimal(n: int) -> Seq<char> {
    if n < 0 {
        seq!['-'] + decimal_digits(-n)
    } else {
        decimal_digits(n)
    }
}

/// The character of a decimal digit.
fn digit_char(d: u64) -> (c: char)
    requires
        d < 10,
    ensures
        c == ('0' as int + d) as char,
{
    if d == 0 {
        '0'
    } else if d == 1 {
        '1'
    } else if d == 2 {
        '2'
    } else if d == 3 {
        '3'
    } else if d == 4 {
        '4'
    } else if d == 5 {
        '5'
    } else if d == 6 {
        '6'
    } else if d == 7 {
        '7'
    } else if d == 8 {
        '8'
    } else {
        '9'
    }
}

/// Appends a number that is not negative in decimal.
pub fn push_natural(out: &mut String, n: u64)
    ensures
        final(out)@ == old(out)@ + decimal(n as int),
    decreases n,
{
    if n >= 10 {
        push_natural(out, n / 10);
    }
    out.push(digit_char(n % 10));
    assert(out@ =~= old(out)@ + decimal(n as int));
}

/// Appends a number in decimal.
pub fn push_integer(out: &mut String, n: i16)
    ensures
        final(out)@ == old(out)@ + decimal(n as int),
{
    if n < 0 {
        out.push('-');
        push_natural(out, (-(n as i64)) as u64);
    } else {
        push_natural(out, n as u64);
    }
    assert(out@ =~= old(out)@ + decimal(n as int));
}

/// The decimal digits of a number are digits and stand for it.
proof fn lemma_decimal_digits(n: int)
    requires
        n >= 0,
    ensures
        natural(decimal_digits(n)) == Some(n),
    decreases n,
{
    let s = decimal_digits(n);
    if n < 10 {
        assert(s.drop_last() =~= Seq::<char>::empty());
        assert(digits_value(s.drop_last()) == 0);
    } else {
        lemma_decimal_digits(n / 10);
        let high = decimal_digits(n / 10);
        assert(s.drop_last() =~= high);
        assert forall|i: int| 0 <= i < s.len() implies is_digit(#[trigger] s[i]) by {
            if i < high.len() {
                assert(is_digit(high[i]));
            }
        }
    }
}

/// A number that was written in decimal reads back, with a sign if it is negative.
pub proof fn law_decimal_reads_back(n: int)
    ensures
        number(decimal(n), true) == Some(n),
        n >= 0 ==> number(decimal(n), false) == Some(n),
        decimal(n).len() > 0,
        forall|i: int|
            0 <= i < decimal(n).len() ==> is_digit(#[trigger] decimal(n)[i]) || decimal(n)[i]
                == '-',
{
    if n < 0 {
        lemma_decimal_digits(-n);
        assert(decimal(n).skip(1) =~= decimal_digits(-n));
        assert forall|i: int| 0 <= i < decimal(n).len() implies is_digit(#[trigger] decimal(n)[i])
            || decimal(n)[i] == '-' by {
            if i > 0 {
                assert(is_digit(decimal_digits(-n)[i - 1]));
            }
        }
    } else {
        lemma_decimal_digits(n);
        assert(is_digit(decimal(n)[0]));
    }
}

/// Whether a character is white space.
pub open spec fn is_white(c: char) -> bool {
    let n = c as int;
    ||| 0x9 <= n <= 0xD
    ||| n == 0x20
    ||| n == 0x85
    ||| n == 0xA0
    ||| n == 0x1680
    ||| 0x2000 <= n <= 0x200A
    ||| n == 0x2028
    ||| n == 0x2029
    ||| n == 0x202F
    ||| n == 0x205F
    ||| n == 0x3000
}

/// Whether a character is white space.
pub fn is_white_space(c: char) -> (r: bool)
    ensures
        r == is_white(c),
{
    let n: u32 = c as u32;
    0x9 <= n && n <= 0xD || n == 0x20 || n == 0x85 || n == 0xA0 || n == 0x1680 || 0x2000 <= n && n
        <= 0x200A || n == 0x2028 || n == 0x2029 || n == 0x202F || n == 0x205F || n == 0x3000
}

/// Without the white space at the start.
pub open spec fn trim_start(s: Seq<char>) -> Seq<char>
    decreases s.len(),
{
    if s.len() > 0 && is_white(s[0]) {
        trim_start(s.drop_first())
    } else {
        s
    }
}

/// Without the white space at the end.
pub open spec fn trim_end(s: Seq<char>) -> Seq<char>
    decreases s.len(),
{
    if s.len() > 0 && is_white(s.last()) {
        trim_end(s.drop_last())
    } else {
        s
    }
}

/// Without the white space at the start and at the end.
pub open spec fn trimmed(s: Seq<char>) -> Seq<char> {
    trim_end(trim_start(s))
}

/// Removes the white space at the start and at the end.
pub fn trim(chars: &[char]) -> (r: Vec<char>)
    ensures
        r@ == trimmed(chars@),
{
    let mut from: usize = 0;
    assert(chars@.skip(0) =~= chars@);
    while from < chars.len() && is_white_space(chars[from])
        invariant
            from <= chars.len(),
            trim_start(chars@.skip(from as int)) == trim_start(chars@),
        decreases chars.len() - from,
    {
        assert(chars@.skip(from as int).drop_first() =~= chars@.skip(from + 1));
        from = from + 1;
    }
    let ghost s = chars@.skip(from as int);
    assert(trim_start(chars@) == s);
    let mut to: usize = chars.len();
    assert(chars@.subrange(from as int, to as int) =~= s);
    while from < to && is_white_space(chars[to - 1])
        invariant
            from <= to <= chars.len(),
            trim_end(chars@.subrange(from as int, to as int)) == trim_end(s),
        decreases to,
    {
        assert(chars@.subrange(from as int, to as int).drop_last() =~= chars@.subrange(
            from as int,
            to - 1,
        ));
        to = to - 1;
    }
    let ghost kept = chars@.subrange(from as int, to as int);
    assert(trim_end(kept) == kept);
    vstd::slice::slice_to_vec(vstd::slice::slice_subrange(chars, from, to))
}

/// Digits are read from the left, each one more weighing a tenth of the one before it. Nothing, and
/// anything with another character in it, is no number.
pub proof fn law_natural(s: Seq<char>, c: char)
    ensures
        natural(Seq::empty()) is None,
        '0' <= c <= '9' ==> natural(seq![c]) == Some(c as int - 48),
        !('0' <= c <= '9') ==> natural(s.push(c)) is None && natural(seq![c] + s) is None,
        '0' <= c <= '9' && s.len() > 0 ==> (natural(s.push(c)) is Some <==> natural(s) is Some),
        '0' <= c <= '9' && natural(s) is Some ==> natural(s.push(c)) == Some(
            10 * natural(s)->0 + (c as int - 48),
        ),
{
    reveal_with_fuel(digits_value, 2);
    let more = s.push(c);
    assert(more.drop_last() =~= s);
    assert(more[s.len() as int] == c);
    assert((seq![c] + s)[0] == c);
    assert(seq![c].drop_last() =~= Seq::empty());
    if all_digits(more) {
        assert forall|i: int| 0 <= i < s.len() implies is_digit(#[trigger] s[i]) by {
            assert(is_digit(more[i]));
        }
    }
}

/// A number may have a plus sign before it. A minus sign makes a number negative where such numbers
/// are accepted, and is refused elsewhere. A second sign is refused.
pub proof fn law_signed(s: Seq<char>)
    ensures
        number(seq!['+'] + s, true) == natural(s),
        number(seq!['+'] + s, false) == natural(s),
        number(seq!['-'] + s, true) is Some <==> natural(s) is Some,
        natural(s) is Some ==> number(seq!['-'] + s, true) == Some(-natural(s)->0),
        number(seq!['-'] + s, false) is None,
        natural(s) is Some ==> number(s, true) == natural(s) && number(s, false) == natural(s),
        s.len() > 0 && s[0] != '+' && s[0] != '-' ==> number(s, true) == natural(s) && number(
            s,
            false,
        ) == natural(s),
        s.len() == 0 ==> number(s, true) is None && number(s, false) is None,
{
    assert((seq!['+'] + s).skip(1) =~= s);
    assert((seq!['-'] + s).skip(1) =~= s);
    assert((seq!['-'] + s)[0] == '-');
    if s.len() > 0 && natural(s) is Some {
        assert(is_digit(s[0]));
    }
}

/// Numbers are accepted exactly within their range.
pub proof fn law_number_ranges(s: Seq<char>, n: int)
    ensures
        i16_of(s) == Some(n) <==> number(s, true) == Some(n) && -32768 <= n <= 32767,
        u16_of(s) == Some(n) <==> number(s, false) == Some(n) && 0 <= n <= 65535,
        u32_of(s) == Some(n) <==> number(s, false) == Some(n) && 0 <= n <= 4294967295,
{
}

/// A number is written without needless characters: with a minus sign only where it is negative,
/// and without zeros before it.
pub proof fn law_decimal_shortest(n: int)
    ensures
        n < 0 ==> decimal(n) == seq!['-'] + decimal(-n),
        n >= 0 ==> forall|i: int|
            0 <= i < decimal(n).len() ==> '0' <= #[trigger] decimal(n)[i] <= '9',
        n > 0 ==> decimal(n)[0] != '0',
        n == 0 ==> decimal(n) == seq!['0'],
    decreases if n < 0 { -n } else { n },
{
    if n >= 0 {
        lemma_decimal_digits(n);
        assert forall|i: int| 0 <= i < decimal(n).len() implies '0' <= #[trigger] decimal(n)[i]
            <= '9' by {
            assert(is_digit(decimal(n)[i]));
        }
        if n >= 10 {
            law_decimal_shortest(n / 10);
            lemma_decimal_digits(n / 10);
            assert(decimal(n)[0] == decimal(n / 10)[0]);
        }
    }
}

/// White space is what Unicode calls so.
pub proof fn law_white(c: char)
    ensures
        is_white(c) <==> c == '\t' || c == '\n' || c == '\u{B}' || c == '\u{C}' || c == '\r' || c
            == ' ' || c == '\u{85}' || c == '\u{A0}' || c == '\u{1680}' || c == '\u{2000}' || c
            == '\u{2001}' || c == '\u{2002}' || c == '\u{2003}' || c == '\u{2004}' || c
            == '\u{2005}' || c == '\u{2006}' || c == '\u{2007}' || c == '\u{2008}' || c
            == '\u{2009}' || c == '\u{200A}' || c == '\u{2028}' || c == '\u{2029}' || c
            == '\u{202F}' || c == '\u{205F}' || c == '\u{3000}',
{
}

/// Trimming takes white space off both ends, and all of it.
pub proof fn law_trimmed(s: Seq<char>) -> (r: (int, int))
    ensures
        0 <= r.0 <= r.1 <= s.len(),
        trimmed(s) == s.subrange(r.0, r.1),
        forall|i: int| 0 <= i < r.0 ==> is_white(#[trigger] s[i]),
        forall|i: int| r.1 <= i < s.len() ==> is_white(#[trigger] s[i]),
        r.0 < r.1 ==> !is_white(s[r.0]) && !is_white(s[r.1 - 1]),
{
    let a = lemma_trim_start(s);
    let t = s.skip(a);
    let b = lemma_trim_end(t);
    assert(trimmed(s) =~= s.subrange(a, a + b));
    assert forall|i: int| a + b <= i < s.len() implies is_white(#[trigger] s[i]) by {
        assert(is_white(t[i - a]));
    }
    if b > 0 {
        assert(t[0] == s[a]);
        assert(t[b - 1] == s[a + b - 1]);
    }
    (a, a + b)
}

/// Where trimming at the start ends.
proof fn lemma_trim_start(s: Seq<char>) -> (a: int)
    ensures
        0 <= a <= s.len(),
        trim_start(s) == s.skip(a),
        forall|i: int| 0 <= i < a ==> is_white(#[trigger] s[i]),
        a < s.len() ==> !is_white(s[a]),
    decreases s.len(),
{
    if s.len() > 0 && is_white(s[0]) {
        let rest = s.drop_first();
        let a = lemma_trim_start(rest);
        assert(rest.skip(a) =~= s.skip(a + 1));
        assert forall|i: int| 0 <= i < a + 1 implies is_white(#[trigger] s[i]) by {
            if i > 0 {
                assert(is_white(rest[i - 1]));
            }
        }
        a + 1
    } else {
        assert(s.skip(0) =~= s);
        0
    }
}

/// Where trimming at the end starts.
proof fn lemma_trim_end(s: Seq<char>) -> (b: int)
    ensures
        0 <= b <= s.len(),
        trim_end(s) == s.take(b),
        forall|i: int| b <= i < s.len() ==> is_white(#[trigger] s[i]),
        b > 0 ==> !is_white(s[b - 1]),
    decreases s.len(),
{
    if s.len() > 0 && is_white(s.last()) {
        let rest = s.drop_last();
        let b = lemma_trim_end(rest);
        assert(rest.take(b) =~= s.take(b));
        assert forall|i: int| b <= i < s.len() implies is_white(#[trigger] s[i]) by {
            if i < s.len() - 1 {
                assert(is_white(rest[i]));
            }
        }
        b
    } else {
        assert(s.take(s.len() as int) =~= s);
        s.len() as int
    }
}

} // verus!
