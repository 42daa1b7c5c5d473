//! Points in time: reading them from text, and bringing their texts into one shape.

use crate::text::{append, contains_char};
use chrono::format::ParseErrorKind;
use vstd::prelude::*;
use vstd::utf8::{
    encode_utf8, encode_utf8_valid_utf8, is_ascii_chars, is_ascii_chars_encode_utf8,
    is_char_boundary, is_char_boundary_iff_not_is_continuation_byte,
    is_char_boundary_start_end_of_seq,
};

verus! {

/// Why a text is no point in time.
#[derive(Clone, Copy, Debug, PartialEq, Eq, Structural)]
pub enum TimeError {
    OutOfRange,
    Impossible,
    NotEnough,
    Invalid,
    TooShort,
    TooLong,
    BadFormat,
    Other,
}

// ---------------------------------------------------------------------------
// Trusted: the crate `chrono`
// ---------------------------------------------------------------------------

/// What `DateTime::parse_from_str` reads from a text in a format: the milliseconds since the
/// start of 1970 in UTC that `DateTime::timestamp_millis` gives for it, or the kind of the error.
pub uninterp spec fn time_millis(text: Seq<char>, format: Seq<char>) -> Result<i64, TimeError>;

/// `DateTime::parse_from_str` with `DateTime::timestamp_millis` and `ParseError::kind`: the point
/// in time that a text states, which depends on the text and the format alone.
#[verifier::external_body]
fn parse_time(text: &str, format: &str) -> (r: Result<i64, TimeError>)
    ensures
        r == time_millis(text@, format@),
{
    match chrono::DateTime::parse_from_str(text, format) {
        Ok(time) => Ok(time.timestamp_millis()),
        Err(error) => Err(match error.kind() {
            ParseErrorKind::OutOfRange => TimeError::OutOfRange,
            ParseErrorKind::Impossible => TimeError::Impossible,
            ParseErrorKind::NotEnough => TimeError::NotEnough,
            ParseErrorKind::Invalid => TimeError::Invalid,
            ParseErrorKind::TooShort => TimeError::TooShort,
            ParseErrorKind::TooLong => TimeError::TooLong,
            ParseErrorKind::BadFormat => TimeError::BadFormat,
            _ => TimeError::Other,
        }),
    }
}

/// The point in time that a text states in a format, in milliseconds since the start of 1970 in
/// UTC.
pub fn read_time(text: &str, format: &str) -> (r: Result<i64, TimeError>)
    ensures
        r == time_millis(text@, format@),
{
    parse_time(text, format)
}

// ---------------------------------------------------------------------------
// Offsets
// ---------------------------------------------------------------------------

/// The text ends in an offset of whole hours: a sign, then two bytes.
pub open spec fn has_hour_offset(s: Seq<char>) -> bool {
    let b = encode_utf8(s);
    b.len() >= 3 && (b[b.len() - 3] == 0x2b || b[b.len() - 3] == 0x2d)
}

/// A minus sign stands in the text at or after byte 10, which is behind the date.
pub open spec fn has_late_minus(s: Seq<char>) -> bool {
    exists|k: int| 10 <= k < encode_utf8(s).len() && encode_utf8(s)[k] == 0x2d
}

/// The text can be cut at byte 10 wherever that is needed to see whether it has an offset.
pub open spec fn can_normalize(s: Seq<char>) -> bool {
    has_hour_offset(s) || s.contains('+') || vstd::utf8::is_char_boundary(encode_utf8(s), 10)
}

/// The text with an offset of four digits: one of whole hours is filled up, a missing one is
/// taken as none.
pub open spec fn normalized(s: Seq<char>) -> Seq<char> {
    if has_hour_offset(s) {
        s + "00"@
    } else if !s.contains('+') && !has_late_minus(s) {
        s + " +0000"@
    } else {
        s
    }
}

/// The text can be cut at byte 10 wherever that is needed to see whether it has an offset.
pub fn is_normalizable(s: &str) -> (r: bool)
    ensures
        r == can_normalize(s@),
{
    let b = s.as_bytes();
    let n = b.len();
    if n >= 3 && (b[n - 3] == 0x2b || b[n - 3] == 0x2d) {
        return true;
    }
    if contains_char(s, '+') {
        return true;
    }
    s.is_char_boundary(10)
}

/// The text with an offset of four digits.
pub fn normalize_offset(s: &str) -> (r: String)
    requires
        can_normalize(s@),
    ensures
        r@ == normalized(s@),
{
    let b = s.as_bytes();
    let n = b.len();
    if n >= 3 && (b[n - 3] == 0x2b || b[n - 3] == 0x2d) {
        return append(s, "00");
    }
    if contains_char(s, '+') {
        return s.to_owned();
    }
    let mut k: usize = 10;
    while k < n
        invariant
            n == b@.len(),
            b@ == encode_utf8(s@),
            10 <= k,
            !has_hour_offset(s@),
            forall|j: int| 10 <= j < k && j < n ==> b@[j] != 0x2d,
        decreases n - k,
    {
        if b[k] == 0x2d {
            assert(has_late_minus(s@));
            return s.to_owned();
        }
        k += 1;
    }
    append(s, " +0000")
}

// ---------------------------------------------------------------------------
// Laws
// ---------------------------------------------------------------------------

/// The text of a time in ASCII is brought into shape by its characters: behind a sign and two more
/// characters at its end two zeros are put; where there is neither a plus sign nor a minus sign from
/// the eleventh character on, an offset of nothing is put; any other text stays as it is.
pub proof fn law_offset_filled_up(s: Seq<char>)
    requires
        is_ascii_chars(s),
    ensures
        ({
            let n = s.len();
            let hours = n >= 3 && (s[n - 3] == '+' || s[n - 3] == '-');
            let offset = s.contains('+') || exists|k: int| 10 <= k < n && s[k] == '-';
            &&& hours ==> normalized(s) == s + "00"@
            &&& !hours && !offset ==> normalized(s) == s + " +0000"@
            &&& !hours && offset ==> normalized(s) == s
        }),
{
    is_ascii_chars_encode_utf8(s);
    let b = encode_utf8(s);
    let n = s.len() as int;
    assert forall|i: int| 0 <= i < n implies (#[trigger] b[i] == 0x2b <==> s[i] == '+') && (b[i]
        == 0x2d <==> s[i] == '-') by {
        assert(s[i] as u8 == b[i]);
        assert(is_ascii_chars(s));
        assert(s[i] as nat <= 127);
    }
    if has_late_minus(s) {
        let k = choose|k: int| 10 <= k < b.len() && b[k] == 0x2d;
        assert(s[k] == '-');
    }
    if exists|k: int| 10 <= k < n && s[k] == '-' {
        let k = choose|k: int| 10 <= k < n && s[k] == '-';
        assert(b[k] == 0x2d);
    }
}

/// What is put behind the text of a time leaves the text itself as it is.
pub proof fn law_time_kept(s: Seq<char>)
    ensures
        s.is_prefix_of(normalized(s)),
        normalized(s).len() <= s.len() + 6,
{
    reveal_strlit("00");
    reveal_strlit(" +0000");
    assert(normalized(s).subrange(0, s.len() as int) == s);
}

/// The text of a time in ASCII can be brought into shape exactly when it has ten characters or more,
/// or a plus sign, or a sign ahead of its last two characters.
pub proof fn law_shape_possible(s: Seq<char>)
    requires
        is_ascii_chars(s),
    ensures
        can_normalize(s) <==> s.len() >= 10 || s.contains('+') || (s.len() >= 3 && (s[s.len() - 3]
            == '+' || s[s.len() - 3] == '-')),
{
    is_ascii_chars_encode_utf8(s);
    encode_utf8_valid_utf8(s);
    let b = encode_utf8(s);
    let n = s.len() as int;
    assert forall|i: int| 0 <= i < n implies (#[trigger] b[i] == 0x2b <==> s[i] == '+') && (b[i]
        == 0x2d <==> s[i] == '-') && b[i] <= 127 by {
        assert(s[i] as u8 == b[i]);
        assert(s[i] as nat <= 127);
    }
    if n > 10 {
        is_char_boundary_iff_not_is_continuation_byte(b, 10);
    } else if n == 10 {
        is_char_boundary_start_end_of_seq(b);
    } else {
        assert(!is_char_boundary(b, 10));
    }
}

} // verus!
