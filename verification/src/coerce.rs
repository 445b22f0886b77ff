//! The reading of a leaf's text as a value of a primitive type.
//!
//! A boolean is `true` or `false`. An integer is a sign, which may be
//! missing, and at least one decimal digit, with nothing around them; a type
//! without negative values takes no minus sign, not even in front of zero.

use vstd::prelude::*;
use vstd::string::StringSliceAdditionalSpecFns;

verus! {

/// Whether `c` is a decimal digit.
pub open spec fn is_digit(c: char) -> bool {
    48 <= c as u32 <= 57
}

/// Whether `s` is a decimal numeral: one digit or more, and nothing else.
pub open spec fn is_numeral(s: Seq<char>) -> bool {
    s.len() > 0 && forall|i: int| 0 <= i < s.len() ==> is_digit(#[trigger] s[i])
}

/// The number that the digits of `s` denote.
pub open spec fn numeral_value(s: Seq<char>) -> nat
    decreases s.len(),
{
    if s.len() == 0 {
        0
    } else {
        numeral_value(s.drop_last()) * 10 + (s.last() as u32 - 48) as nat
    }
}

/// The integer that `s` denotes, if it denotes one: a numeral, with `+` or
/// `-` in front of it or neither.
pub open spec fn integer_of(s: Seq<char>) -> Option<int> {
    if s.len() > 0 && (s[0] == '-' || s[0] == '+') {
        if !is_numeral(s.skip(1)) {
            None
        } else if s[0] == '-' {
            Some(-(numeral_value(s.skip(1)) as int))
        } else {
            Some(numeral_value(s.skip(1)) as int)
        }
    } else if is_numeral(s) {
        Some(numeral_value(s) as int)
    } else {
        None
    }
}

/// The value of the given text as an `i64`: that of the integer it denotes,
/// if it denotes one and the type has it.
pub open spec fn i64_of(s: Seq<char>) -> Option<i64> {
    match integer_of(s) {
        Some(value) => if i64::MIN <= value <= i64::MAX {
            Some(value as i64)
        } else {
            None
        },
        None => None,
    }
}

/// The value of the given text as a `u64`: that of the integer it denotes, if
/// it denotes one without a minus sign and the type has it.
pub open spec fn u64_of(s: Seq<char>) -> Option<u64> {
    match integer_of(s) {
        Some(value) => if s[0] != '-' && value <= u64::MAX {
            Some(value as u64)
        } else {
            None
        },
        None => None,
    }
}

/// The value of the given text as a `bool`.
pub open spec fn bool_of(s: Seq<char>) -> Option<bool> {
    if s == seq!['t', 'r', 'u', 'e'] {
        Some(true)
    } else if s == seq!['f', 'a', 'l', 's', 'e'] {
        Some(false)
    } else {
        None
    }
}

/// Reads the digits of `bytes` from `from` on as a number up to `limit`.
/// `None` where there is no digit, where something else stands among the
/// digits, and where the number is above the limit.
fn digits(bytes: &[u8], from: usize, limit: u64, Ghost(s): Ghost<Seq<char>>) -> (value: Option<
    u64,
>)
    requires
        from <= bytes@.len(),
        s.len() == bytes@.len() - from,
        forall|i: int| 0 <= i < s.len() ==> #[trigger] s[i] as u32 == bytes@[from + i] as u32,
    ensures
        match value {
            Some(v) => is_numeral(s) && numeral_value(s) == v && v <= limit,
            None => !is_numeral(s) || numeral_value(s) > limit,
        },
{
    if from == bytes.len() {
        return None;
    }
    let mut value: u64 = 0;
    let mut i: usize = from;
    let mut fits = true;
    assert(s.take(0) =~= Seq::<char>::empty());
    while i < bytes.len()
        invariant
            from <= i <= bytes@.len(),
            s.len() == bytes@.len() - from,
            forall|j: int| 0 <= j < s.len() ==> #[trigger] s[j] as u32 == bytes@[from + j] as u32,
            forall|j: int| 0 <= j < i - from ==> is_digit(#[trigger] s[j]),
            fits ==> value == numeral_value(s.take(i - from)) && value <= limit,
            !fits ==> numeral_value(s.take(i - from)) > limit,
        decreases bytes@.len() - i,
    {
        let byte = bytes[i];
        if byte < 0x30 || byte > 0x39 {
            assert(!is_digit(s[i - from]));
            return None;
        }
        let d = (byte - 0x30) as u64;
        proof {
            let k = i - from;
            assert(is_digit(s[k]));
            assert(s.take(k + 1).drop_last() =~= s.take(k));
            assert(s.take(k + 1).last() == s[k]);
            assert(numeral_value(s.take(k + 1)) == numeral_value(s.take(k)) * 10 + d);
        }
        if fits && d <= limit && value <= (limit - d) / 10 {
            value = value * 10 + d;
        } else {
            fits = false;
        }
        i += 1;
    }
    proof {
        assert(s.take(s.len() as int) =~= s);
    }
    if fits {
        Some(value)
    } else {
        None
    }
}

/// The value of `text` as a `u64`.
pub fn parse_u64(text: &str) -> (value: Option<u64>)
    ensures
        value == u64_of(text@),
{
    if !text.is_ascii() {
        proof {
            lemma_not_ascii(text@);
        }
        return None;
    }
    let bytes = text.as_bytes();
    proof {
        lemma_ascii_bytes(text);
    }
    if bytes.len() == 0 {
        return None;
    }
    proof {
        lemma_sign(text@[0]);
    }
    let from: usize = if bytes[0] == 0x2b {
        1
    } else {
        0
    };
    let ghost s = text@.skip(from as int);
    proof {
        if from == 0 && text@[0] == '-' {
            assert(!is_digit(text@[0]));
        }
        if from == 0 {
            assert(s =~= text@);
        }
    }
    digits(bytes, from, u64::MAX, Ghost(s))
}

/// The value of `text` as an `i64`.
pub fn parse_i64(text: &str) -> (value: Option<i64>)
    ensures
        value == i64_of(text@),
{
    if !text.is_ascii() {
        proof {
            lemma_not_ascii(text@);
        }
        return None;
    }
    let bytes = text.as_bytes();
    proof {
        lemma_ascii_bytes(text);
    }
    if bytes.len() == 0 {
        return None;
    }
    proof {
        lemma_sign(text@[0]);
    }
    if bytes[0] == 0x2d {
        let ghost s = text@.skip(1);
        match digits(bytes, 1, 0x8000_0000_0000_0000, Ghost(s)) {
            None => None,
            Some(magnitude) => if magnitude == 0x8000_0000_0000_0000 {
                Some(i64::MIN)
            } else {
                Some(-(magnitude as i64))
            },
        }
    } else {
        let from: usize = if bytes[0] == 0x2b {
            1
        } else {
            0
        };
        let ghost s = text@.skip(from as int);
        proof {
            if from == 0 {
                assert(s =~= text@);
            }
        }
        match digits(bytes, from, 0x7fff_ffff_ffff_ffff, Ghost(s)) {
            None => None,
            Some(magnitude) => Some(magnitude as i64),
        }
    }
}

/// The value of `text` as a `bool`.
pub fn parse_bool(text: &str) -> (value: Option<bool>)
    ensures
        value == bool_of(text@),
{
    proof {
        reveal_strlit("true");
        reveal_strlit("false");
        assert("true"@ =~= seq!['t', 'r', 'u', 'e']);
        assert("false"@ =~= seq!['f', 'a', 'l', 's', 'e']);
    }
    if crate::text::same_text(text, "true") {
        Some(true)
    } else if crate::text::same_text(text, "false") {
        Some(false)
    } else {
        None
    }
}

/// The characters of ASCII are those with a number below 128.
proof fn lemma_char_number(c: char)
    ensures
        '\0' <= c <= '\u{7f}' <==> c as u32 <= 0x7f,
{
}

/// The signs by their numbers.
proof fn lemma_sign(c: char)
    ensures
        c == '+' <==> c as u32 == 0x2b,
        c == '-' <==> c as u32 == 0x2d,
{
    if c as u32 == 0x2b {
        vstd::utf8::char_u32_cast(c, 0x2b);
    }
    if c as u32 == 0x2d {
        vstd::utf8::char_u32_cast(c, 0x2d);
    }
}

/// The bytes of ASCII text are its characters.
proof fn lemma_ascii_bytes(text: &str)
    requires
        vstd::string::is_ascii(text),
    ensures
        text.spec_bytes().len() == text@.len(),
        forall|i: int|
            0 <= i < text@.len() ==> #[trigger] text@[i] as u32 == text.spec_bytes()[i] as u32,
{
    vstd::string::is_ascii_spec_bytes(text);
    assert forall|i: int| 0 <= i < text@.len() implies #[trigger] text@[i] as u32
        == text.spec_bytes()[i] as u32 by {
        lemma_char_number(text@[i]);
    }
}

/// Text with a character beyond ASCII denotes no integer.
proof fn lemma_not_ascii(s: Seq<char>)
    requires
        !vstd::utf8::is_ascii_chars(s),
    ensures
        integer_of(s) is None,
{
    let i = choose|i: int| 0 <= i < s.len() && !('\0' <= #[trigger] s[i] <= '\u{7f}');
    assert(0 <= i < s.len() && !('\0' <= s[i] <= '\u{7f}'));
    lemma_char_number(s[i]);
    assert(!is_digit(s[i]));
    lemma_sign(s[0]);
    if i > 0 {
        assert(s.skip(1)[i - 1] == s[i]);
    }
}

} // verus!
