//! ANSI terminal color handling.

use vstd::prelude::*;

use crate::text::str_eq;

verus! {

/// The palette index of a named ANSI color, if the name is known.
pub open spec fn named_color(s: Seq<char>) -> Option<u8> {
    if s == "black"@ {
        Some(0u8)
    } else if s == "red"@ {
        Some(1u8)
    } else if s == "green"@ {
        Some(2u8)
    } else if s == "yellow"@ {
        Some(3u8)
    } else if s == "blue"@ {
        Some(4u8)
    } else if s == "magenta"@ {
        Some(5u8)
    } else if s == "cyan"@ {
        Some(6u8)
    } else if s == "white"@ {
        Some(7u8)
    } else if s == "bright_black"@ {
        Some(8u8)
    } else if s == "bright_red"@ {
        Some(9u8)
    } else if s == "bright_green"@ {
        Some(10u8)
    } else if s == "bright_yellow"@ {
        Some(11u8)
    } else if s == "bright_blue"@ {
        Some(12u8)
    } else if s == "bright_magenta"@ {
        Some(13u8)
    } else if s == "bright_cyan"@ {
        Some(14u8)
    } else if s == "bright_white"@ {
        Some(15u8)
    } else {
        None
    }
}

/// Whether `c` is a decimal digit.
pub open spec fn is_digit(c: char) -> bool {
    '0' <= c && c <= '9'
}

/// The numeric value of a digit character.
pub open spec fn digit_val(c: char) -> int {
    c as int - '0' as int
}

/// The value of a non-empty, all-digit sequence, read left to right.
pub open spec fn digits_val(s: Seq<char>) -> int
    decreases s.len(),
{
    if s.len() == 0 {
        0
    } else {
        digits_val(s.drop_last()) * 10 + digit_val(s.last())
    }
}

/// Whether every character of `s` is a decimal digit.
pub open spec fn all_digits(s: Seq<char>) -> bool {
    forall|i: int| 0 <= i < s.len() ==> is_digit(s[i])
}

/// The result of parsing `s` as a `u8` the way `str::parse::<u8>` does:
/// an optional `+` sign, then one or more digits, with a value at most 255.
pub open spec fn spec_parse_u8(s: Seq<char>) -> Option<u8> {
    let t = if s.len() > 0 && s[0] == '+' {
        s.skip(1)
    } else {
        s
    };
    if t.len() > 0 && all_digits(t) && digits_val(t) <= 255 {
        Some(digits_val(t) as u8)
    } else {
        None
    }
}

proof fn lemma_digits_val_bounds(s: Seq<char>)
    requires
        all_digits(s),
    ensures
        digits_val(s) >= 0,
        s.len() > 0 ==> digits_val(s) >= digits_val(s.drop_last()),
    decreases s.len(),
{
    if s.len() > 0 {
        assert(all_digits(s.drop_last()));
        lemma_digits_val_bounds(s.drop_last());
    }
}

/// Parses an unsigned decimal `u8`, with an optional leading `+` sign,
/// exactly as `str::parse::<u8>` accepts it.
pub fn parse_u8(s: &str) -> (r: Option<u8>)
    ensures
        r == spec_parse_u8(s@),
{
    let len = s.unicode_len();
    let start: usize = if len > 0 && s.get_char(0) == '+' {
        1
    } else {
        0
    };
    let ghost t = if s@.len() > 0 && s@[0] == '+' {
        s@.skip(1)
    } else {
        s@
    };
    proof {
        assert(t =~= s@.subrange(start as int, len as int));
    }
    if len == start {
        return None;
    }
    let mut i: usize = start;
    let mut acc: u32 = 0;
    while i < len
        invariant
            start <= i <= len,
            acc <= 255,
            all_digits(s@.subrange(start as int, i as int)),
            acc == digits_val(s@.subrange(start as int, i as int)),
        decreases len - i,
    {
        let c = s.get_char(i);
        if !('0' <= c && c <= '9') {
            proof {
                assert(t[i - start] == c);
            }
            return None;
        }
        let d: u32 = (c as u32) - ('0' as u32);
        acc = acc * 10 + d;
        proof {
            assert(s@.subrange(start as int, i + 1).drop_last() =~= s@.subrange(
                start as int,
                i as int,
            ));
        }
        i += 1;
        if acc > 255 {
            proof {
                let p = s@.subrange(start as int, i as int);
                assert(p =~= t.subrange(0, p.len() as int));
                if all_digits(t) {
                    lemma_digits_prefix_monotone(t, p);
                }
            }
            return None;
        }
    }
    proof {
        assert(s@.subrange(start as int, len as int) =~= t);
    }
    Some(acc as u8)
}

/// A non-empty digit prefix never exceeds the value of the whole digit string.
proof fn lemma_digits_prefix_monotone(s: Seq<char>, p: Seq<char>)
    requires
        p.len() <= s.len(),
        p =~= s.subrange(0, p.len() as int),
        all_digits(s),
    ensures
        digits_val(p) <= digits_val(s),
    decreases s.len(),
{
    if p.len() < s.len() {
        assert(all_digits(s.drop_last()));
        assert(p =~= s.drop_last().subrange(0, p.len() as int));
        lemma_digits_prefix_monotone(s.drop_last(), p);
        lemma_digits_val_bounds(s);
    } else {
        assert(p =~= s);
    }
}

/// What `to_terminal_color` returns: a named color's index, else the
/// numeric value of the string, else no color.
pub open spec fn spec_terminal_color(s: Seq<char>) -> Option<u8> {
    match named_color(s) {
        Some(c) => Some(c),
        None => spec_parse_u8(s),
    }
}

/// Converts a color name to the index in the 256-color palette.
pub fn to_terminal_color(color: &str) -> (r: Result<u8, String>)
    ensures
        match r {
            Ok(c) => spec_terminal_color(color@) == Some(c),
            Err(m) => spec_terminal_color(color@) is None && m@ == "Color "@ + color@
                + " not found"@,
        },
{
    if str_eq(color, "black") {
        return Ok(0);
    }
    if str_eq(color, "red") {
        return Ok(1);
    }
    if str_eq(color, "green") {
        return Ok(2);
    }
    if str_eq(color, "yellow") {
        return Ok(3);
    }
    if str_eq(color, "blue") {
        return Ok(4);
    }
    if str_eq(color, "magenta") {
        return Ok(5);
    }
    if str_eq(color, "cyan") {
        return Ok(6);
    }
    if str_eq(color, "white") {
        return Ok(7);
    }
    if str_eq(color, "bright_black") {
        return Ok(8);
    }
    if str_eq(color, "bright_red") {
        return Ok(9);
    }
    if str_eq(color, "bright_green") {
        return Ok(10);
    }
    if str_eq(color, "bright_yellow") {
        return Ok(11);
    }
    if str_eq(color, "bright_blue") {
        return Ok(12);
    }
    if str_eq(color, "bright_magenta") {
        return Ok(13);
    }
    if str_eq(color, "bright_cyan") {
        return Ok(14);
    }
    if str_eq(color, "bright_white") {
        return Ok(15);
    }
    match parse_u8(color) {
        Some(v) => Ok(v),
        None => {
            let mut m = String::from_str("Color ");
            m.append(color);
            m.append(" not found");
            Err(m)
        },
    }
}

} // verus!
