use crate::text::{chars_of, is_ascii_digit};
use vstd::prelude::*;

verus! {

/// The kinds of failure of integer parsing (`std::num::IntErrorKind`).
#[derive(Clone, Copy, PartialEq, Eq, Debug)]
pub enum IntError {
    Empty,
    InvalidDigit,
    PosOverflow,
    NegOverflow,
}

pub open spec fn digit_value(c: char) -> int {
    (c as int) - ('0' as int)
}

/// Reads the digits of `d` onto `acc`, as `from_str` on an integer type with
/// bounds `lo` and `hi` does, checking each character before the bounds.
pub open spec fn scan_int(d: Seq<char>, acc: int, pos: bool, lo: int, hi: int) -> Result<int, IntError>
    decreases d.len(),
{
    if d.len() == 0 {
        Ok(acc)
    } else if !is_ascii_digit(d[0]) {
        Err(IntError::InvalidDigit)
    } else {
        let n = if pos {
            acc * 10 + digit_value(d[0])
        } else {
            acc * 10 - digit_value(d[0])
        };
        if pos && n > hi {
            Err(IntError::PosOverflow)
        } else if !pos && n < lo {
            Err(IntError::NegOverflow)
        } else {
            scan_int(d.drop_first(), n, pos, lo, hi)
        }
    }
}

/// What `from_str` answers for an integer type with bounds `lo` and `hi`;
/// a leading `-` is a sign only for a `signed` type.
pub open spec fn parse_int(s: Seq<char>, lo: int, hi: int, signed: bool) -> Result<int, IntError> {
    if s.len() == 0 {
        Err(IntError::Empty)
    } else if (s[0] == '+' || s[0] == '-') && s.len() == 1 {
        Err(IntError::InvalidDigit)
    } else if s[0] == '+' {
        scan_int(s.drop_first(), 0, true, lo, hi)
    } else if s[0] == '-' && signed {
        scan_int(s.drop_first(), 0, false, lo, hi)
    } else {
        scan_int(s, 0, true, lo, hi)
    }
}

/// Parses an integer within `lo..=hi` from decimal text.
pub fn parse_integer(s: &str, lo: i64, hi: i64, signed: bool) -> (r: Result<i64, IntError>)
    requires
        -100000000000000000 <= lo <= 0 < hi <= 100000000000000000,
    ensures
        match parse_int(s@, lo as int, hi as int, signed) {
            Ok(v) => r is Ok && r->Ok_0 as int == v,
            Err(e) => r == Err::<i64, IntError>(e),
        },
        r matches Ok(v) ==> lo <= v <= hi,
{
    let cs = chars_of(s);
    if cs.len() == 0 {
        return Err(IntError::Empty);
    }
    if (cs[0] == '+' || cs[0] == '-') && cs.len() == 1 {
        return Err(IntError::InvalidDigit);
    }
    let mut pos = true;
    let mut i: usize = 0;
    if cs[0] == '+' {
        i = 1;
    } else if cs[0] == '-' && signed {
        i = 1;
        pos = false;
    }
    assert(parse_int(s@, lo as int, hi as int, signed) == scan_int(cs@.skip(i as int), 0, pos, lo as int, hi as int)) by {
        assert(cs@.skip(1) =~= cs@.drop_first());
        assert(cs@.skip(0) =~= cs@);
    }
    let mut acc: i64 = 0;
    while i < cs.len()
        invariant
            i <= cs.len(),
            lo <= acc <= hi,
            pos ==> acc >= 0,
            !pos ==> acc <= 0,
            -100000000000000000 <= lo <= 0 < hi <= 100000000000000000,
            parse_int(s@, lo as int, hi as int, signed) == scan_int(cs@.skip(i as int), acc as int, pos, lo as int, hi as int),
        decreases cs.len() - i,
    {
        let c = cs[i];
        assert(cs@.skip(i as int)[0] == c);
        assert(cs@.skip(i as int).drop_first() =~= cs@.skip(i + 1));
        if !('0' <= c && c <= '9') {
            return Err(IntError::InvalidDigit);
        }
        let d = (c as u32 - '0' as u32) as i64;
        assert(d == digit_value(c));
        let n = if pos {
            acc * 10 + d
        } else {
            acc * 10 - d
        };
        if pos && n > hi {
            return Err(IntError::PosOverflow);
        }
        if !pos && n < lo {
            return Err(IntError::NegOverflow);
        }
        acc = n;
        i = i + 1;
    }
    assert(cs@.skip(i as int) =~= Seq::<char>::empty());
    Ok(acc)
}

/// The message that `ParseIntError` displays for each kind.
pub open spec fn int_error_message(e: IntError) -> Seq<char> {
    match e {
        IntError::Empty => "cannot parse integer from empty string"@,
        IntError::InvalidDigit => "invalid digit found in string"@,
        IntError::PosOverflow => "number too large to fit in target type"@,
        IntError::NegOverflow => "number too small to fit in target type"@,
    }
}

pub fn int_error_string(e: IntError) -> (r: String)
    ensures
        r@ == int_error_message(e),
{
    match e {
        IntError::Empty => "cannot parse integer from empty string".to_owned(),
        IntError::InvalidDigit => "invalid digit found in string".to_owned(),
        IntError::PosOverflow => "number too large to fit in target type".to_owned(),
        IntError::NegOverflow => "number too small to fit in target type".to_owned(),
    }
}

/// `u8::from_str`.
pub fn parse_u8(s: &str) -> (r: Result<u8, IntError>)
    ensures
        match parse_int(s@, 0, 255, false) {
            Ok(v) => r is Ok && r->Ok_0 as int == v,
            Err(e) => r == Err::<u8, IntError>(e),
        },
{
    match parse_integer(s, 0, 255, false) {
        Ok(v) => Ok(v as u8),
        Err(e) => Err(e),
    }
}

/// `i16::from_str`.
pub fn parse_i16(s: &str) -> (r: Result<i16, IntError>)
    ensures
        match parse_int(s@, -32768, 32767, true) {
            Ok(v) => r is Ok && r->Ok_0 as int == v,
            Err(e) => r == Err::<i16, IntError>(e),
        },
{
    match parse_integer(s, -32768, 32767, true) {
        Ok(v) => Ok(v as i16),
        Err(e) => Err(e),
    }
}

/// What `bool::from_str` answers.
pub open spec fn parse_bool_spec(s: Seq<char>) -> Option<bool> {
    if s == "true"@ {
        Some(true)
    } else if s == "false"@ {
        Some(false)
    } else {
        None
    }
}

/// `bool::from_str`; `None` stands for its error, which displays as
/// "provided string was not `true` or `false`".
pub fn parse_bool(s: &str) -> (r: Option<bool>)
    ensures
        r == parse_bool_spec(s@),
{
    if crate::text::str_eq(s, "true") {
        Some(true)
    } else if crate::text::str_eq(s, "false") {
        Some(false)
    } else {
        None
    }
}

/// The number of bytes that UTF-8 takes for a character.
pub open spec fn utf8_width(c: char) -> int {
    if (c as u32) < 0x80 {
        1
    } else if (c as u32) < 0x800 {
        2
    } else if (c as u32) < 0x10000 {
        3
    } else {
        4
    }
}

/// The number of bytes that UTF-8 takes for a character sequence (`str::len`).
pub open spec fn utf8_len(s: Seq<char>) -> int
    decreases s.len(),
{
    if s.len() == 0 {
        0
    } else {
        utf8_len(s.drop_last()) + utf8_width(s.last())
    }
}

/// The byte length of a string, capped so that it fits: the answer is exact
/// up to `cap`, and `cap` itself stands for any length beyond.
pub fn byte_len_capped(s: &str, cap: usize) -> (r: usize)
    requires
        cap <= 1000000,
    ensures
        r == if utf8_len(s@) < cap { utf8_len(s@) } else { cap as int },
{
    let cs = chars_of(s);
    let mut n: usize = 0;
    let mut i: usize = 0;
    assert(cs@.take(0) =~= Seq::<char>::empty());
    while i < cs.len()
        invariant
            i <= cs.len(),
            cs@ == s@,
            cap <= 1000000,
            n == if utf8_len(cs@.take(i as int)) < cap { utf8_len(cs@.take(i as int)) } else { cap as int },
        decreases cs.len() - i,
    {
        let c = cs[i];
        let w: usize = if (c as u32) < 0x80 {
            1
        } else if (c as u32) < 0x800 {
            2
        } else if (c as u32) < 0x10000 {
            3
        } else {
            4
        };
        assert(cs@.take(i + 1).drop_last() =~= cs@.take(i as int));
        assert(utf8_len(cs@.take(i + 1)) == utf8_len(cs@.take(i as int)) + w);
        if n + w >= cap {
            n = cap;
        } else {
            n = n + w;
        }
        i = i + 1;
    }
    assert(cs@.take(cs.len() as int) =~= cs@);
    n
}

} // verus!
