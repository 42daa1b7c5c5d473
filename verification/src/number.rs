//! Whole numbers in decimal notation.

use crate::text::chars_of;
use vstd::prelude::*;

verus! {

/// `c` is one of the ten ASCII digits.
pub open spec fn is_digit(c: char) -> bool {
    '0' <= c <= '9'
}

/// `s` is a run of at least one digit.
pub open spec fn is_number(s: Seq<char>) -> bool {
    &&& s.len() > 0
    &&& forall|i: int| 0 <= i < s.len() ==> is_digit(#[trigger] s[i])
}

/// The number that a run of digits stands for.
pub open spec fn number_value(s: Seq<char>) -> nat
    decreases s.len(),
{
    if s.len() == 0 {
        0
    } else {
        number_value(s.drop_last()) * 10 + (s.last() as nat - '0' as nat) as nat
    }
}

/// `s` without a leading plus sign.
pub open spec fn unsigned_body(s: Seq<char>) -> Seq<char> {
    if s.len() > 0 && s[0] == '+' {
        s.drop_first()
    } else {
        s
    }
}

/// What a text says as a number from 0 to `max`: digits, with or without a plus sign in front.
pub open spec fn unsigned_value(s: Seq<char>, max: nat) -> Option<nat> {
    let body = unsigned_body(s);
    if is_number(body) && number_value(body) <= max {
        Some(number_value(body))
    } else {
        None
    }
}

/// What a text says as a signed 32 bit number.
pub open spec fn signed_value(s: Seq<char>) -> Option<int> {
    if s.len() > 0 && s[0] == '-' {
        let body = s.drop_first();
        if is_number(body) && number_value(body) <= 0x8000_0000 {
            Some(-(number_value(body) as int))
        } else {
            None
        }
    } else {
        match unsigned_value(s, i32::MAX as nat) {
            Some(n) => Some(n as int),
            None => None,
        }
    }
}

/// The digit for a number below ten.
pub open spec fn digit_char(d: nat) -> char {
    (d + '0' as nat) as char
}

/// The decimal notation of `n`, without leading zeros.
pub open spec fn decimal(n: nat) -> Seq<char>
    decreases n,
{
    if n < 10 {
        seq![digit_char(n)]
    } else {
        decimal(n / 10).push(digit_char(n % 10))
    }
}

proof fn lemma_value_grows(s: Seq<char>, i: int)
    requires
        0 <= i <= s.len(),
        forall|k: int| 0 <= k < s.len() ==> is_digit(#[trigger] s[k]),
    ensures
        number_value(s.take(i)) <= number_value(s),
    decreases s.len() - i,
{
    if i < s.len() {
        assert(s.take(i + 1).drop_last() == s.take(i));
        lemma_value_grows(s, i + 1);
    } else {
        assert(s.take(i) == s);
    }
}

/// The number in the digits from position `from` on, when it is at most `max`.
fn read_digits(v: &Vec<char>, from: usize, max: u64) -> (r: Option<u64>)
    requires
        from <= v@.len(),
    ensures
        match r {
            Some(n) => is_number(v@.skip(from as int)) && number_value(v@.skip(from as int)) == n
                && n <= max,
            None => !(is_number(v@.skip(from as int)) && number_value(v@.skip(from as int))
                <= max),
        },
{
    let ghost body = v@.skip(from as int);
    if from == v.len() {
        return None;
    }
    let mut acc: u64 = 0;
    let mut i: usize = from;
    assert(body.take(0) == Seq::<char>::empty());
    while i < v.len()
        invariant
            from <= i <= v@.len(),
            body == v@.skip(from as int),
            forall|k: int| 0 <= k < i - from ==> is_digit(#[trigger] body[k]),
            acc == number_value(body.take(i - from)),
            acc <= max,
        decreases v@.len() - i,
    {
        let c = v[i];
        assert(body[i - from] == c);
        if !('0' <= c && c <= '9') {
            return None;
        }
        let d: u64 = c as u64 - 48;
        assert(body.take(i - from + 1).drop_last() == body.take(i - from));
        assert(number_value(body.take(i - from + 1)) == acc * 10 + d);
        if d > max || acc > max / 10 || acc * 10 > max - d {
            proof {
                assert(acc * 10 + d > max);
                if is_number(body) {
                    lemma_value_grows(body, i - from + 1);
                }
            }
            return None;
        }
        acc = acc * 10 + d;
        i += 1;
    }
    assert(body.take(i - from) == body);
    Some(acc)
}

/// `str::parse` for an unsigned type whose largest value is `max`.
pub fn parse_unsigned(s: &str, max: u64) -> (r: Option<u64>)
    ensures
        match r {
            Some(n) => unsigned_value(s@, max as nat) == Some(n as nat),
            None => unsigned_value(s@, max as nat) is None,
        },
{
    let v = chars_of(s);
    if v.len() > 0 && v[0] == '+' {
        assert(v@.skip(1) == v@.drop_first());
        read_digits(&v, 1, max)
    } else {
        assert(v@.skip(0) == v@);
        read_digits(&v, 0, max)
    }
}

/// `str::parse` for `i32`.
pub fn parse_signed(s: &str) -> (r: Option<i32>)
    ensures
        match r {
            Some(n) => signed_value(s@) == Some(n as int),
            None => signed_value(s@) is None,
        },
{
    let v = chars_of(s);
    if v.len() > 0 && v[0] == '-' {
        assert(v@.skip(1) == v@.drop_first());
        match read_digits(&v, 1, 0x8000_0000) {
            Some(n) => {
                let m: i64 = n as i64;
                Some((0 - m) as i32)
            },
            None => None,
        }
    } else {
        match parse_unsigned(s, 0x7fff_ffff) {
            Some(n) => Some(n as i32),
            None => None,
        }
    }
}

/// `u64::to_string`.
pub fn to_decimal(n: u64) -> (r: String)
    ensures
        r@ == decimal(n as nat),
    decreases n,
{
    let d: u8 = (n % 10) as u8 + 48;
    assert(d as char == digit_char((n % 10) as nat));
    if n < 10 {
        let mut r = String::new();
        r.push(d as char);
        assert(r@ == seq![digit_char(n as nat)]);
        r
    } else {
        let mut r = to_decimal(n / 10);
        r.push(d as char);
        r
    }
}

/// The decimal notation of a number that may be negative.
pub open spec fn signed_decimal(n: int) -> Seq<char> {
    if n < 0 {
        seq!['-'] + decimal((-n) as nat)
    } else {
        decimal(n as nat)
    }
}

/// `i32::to_string`.
pub fn to_signed_decimal(n: i32) -> (r: String)
    ensures
        r@ == signed_decimal(n as int),
{
    if n < 0 {
        let m: i64 = 0 - (n as i64);
        let digits = to_decimal(m as u64);
        let mut r = String::new();
        r.push('-');
        r.append(digits.as_str());
        assert(r@ == seq!['-'] + digits@);
        r
    } else {
        to_decimal(n as u64)
    }
}

/// The decimal notation of a number is a run of digits that stands for that number.
pub proof fn law_decimal_value(n: nat)
    ensures
        is_number(decimal(n)),
        number_value(decimal(n)) == n,
    decreases n,
{
    if n < 10 {
        assert(decimal(n).drop_last() == Seq::<char>::empty());
        assert(number_value(Seq::<char>::empty()) == 0);
    } else {
        law_decimal_value(n / 10);
        assert(decimal(n).drop_last() == decimal(n / 10));
        assert(is_digit(digit_char(n % 10)));
    }
}

/// Reading the decimal notation of a number gives the number back.
pub proof fn law_parse_undoes_decimal(n: nat, max: nat)
    requires
        n <= max,
    ensures
        unsigned_value(decimal(n), max) == Some(n),
{
    law_decimal_value(n);
    assert(is_digit(decimal(n)[0]));
}

/// Different numbers have different decimal notations.
pub proof fn law_decimal_injective(a: nat, b: nat)
    requires
        decimal(a) == decimal(b),
    ensures
        a == b,
{
    law_decimal_value(a);
    law_decimal_value(b);
}

/// A text states a number exactly as far as it can be held: its decimal notation is read where the
/// number is at most `max`, with a plus sign or a zero in front as without, and refused where it is
/// more.
pub proof fn law_unsigned_exact(n: nat, max: nat)
    ensures
        unsigned_value(decimal(n), max) == if n <= max {
            Some(n)
        } else {
            None
        },
        unsigned_value(seq!['+'] + decimal(n), max) == unsigned_value(decimal(n), max),
        unsigned_value(seq!['0'] + decimal(n), max) == unsigned_value(decimal(n), max),
{
    law_decimal_value(n);
    let d = decimal(n);
    assert(is_digit(d[0]));
    assert((seq!['+'] + d).drop_first() == d);
    let z = seq!['0'] + d;
    assert forall|i: int| 0 <= i < z.len() implies is_digit(#[trigger] z[i]) by {
        if i > 0 {
            assert(z[i] == d[i - 1]);
        }
    }
    lemma_leading_zero(d);
}

proof fn lemma_leading_zero(s: Seq<char>)
    ensures
        number_value(seq!['0'] + s) == number_value(s),
    decreases s.len(),
{
    let z = seq!['0'] + s;
    if s.len() == 0 {
        assert(z.drop_last() == Seq::<char>::empty());
        assert(number_value(z.drop_last()) == 0);
    } else {
        assert(z.drop_last() == seq!['0'] + s.drop_last());
        lemma_leading_zero(s.drop_last());
    }
}

/// A signed number is read back from its decimal notation where 32 bits hold it, and refused where
/// they do not.
pub proof fn law_signed_exact(n: int)
    ensures
        signed_value(signed_decimal(n)) == if i32::MIN <= n <= i32::MAX {
            Some(n)
        } else {
            None
        },
{
    if n < 0 {
        let d = decimal((-n) as nat);
        law_decimal_value((-n) as nat);
        assert((seq!['-'] + d).drop_first() == d);
    } else {
        law_unsigned_exact(n as nat, i32::MAX as nat);
        law_decimal_value(n as nat);
        assert(is_digit(decimal(n as nat)[0]));
    }
}

/// Nothing is no number, and neither is a text with a character that is neither a digit nor a sign
/// at its start.
pub proof fn law_other_text_refused(s: Seq<char>, i: int, max: nat)
    requires
        s.len() == 0 || (0 <= i < s.len() && !is_digit(s[i]) && (i > 0 || (s[0] != '+' && s[0]
            != '-'))),
    ensures
        unsigned_value(s, max) is None,
        signed_value(s) is None,
{
    if s.len() > 0 && (s[0] == '+' || s[0] == '-') {
        assert(s.drop_first()[i - 1] == s[i]);
    }
}

/// The ten digits are those of ASCII, and each stands for its own value.
pub proof fn law_digit_values(c: char)
    ensures
        is_digit(c) <==> 48 <= c as nat <= 57,
        is_digit(c) ==> number_value(seq![c]) == c as nat - 48,
{
    assert(seq![c].drop_last() == Seq::<char>::empty());
    assert(number_value(Seq::<char>::empty()) == 0);
}

/// Zeros in front of a number play no part in it.
pub proof fn law_leading_zero_ignored(s: Seq<char>, max: nat)
    requires
        is_number(s),
    ensures
        unsigned_value(seq!['0'] + s, max) == unsigned_value(s, max),
        signed_value(seq!['0'] + s) == signed_value(s),
{
    let z = seq!['0'] + s;
    assert(is_digit(s[0]));
    assert forall|i: int| 0 <= i < z.len() implies is_digit(#[trigger] z[i]) by {
        if i > 0 {
            assert(z[i] == s[i - 1]);
        }
    }
    lemma_leading_zero(s);
}

} // verus!
