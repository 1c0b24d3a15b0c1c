use vstd::prelude::*;

use crate::num::{all_digits, all_digits_range, digit_of, digit_val, digits_val, is_digit,
    is_digit_char, digits_value_bounded};
use crate::text::{chars_to_string, str_chars, subvec};

verus! {

// ---------------------------------------------------------------------------
// Date grammar: exactly two digits, `/`, two digits, `/`, four digits.
// ---------------------------------------------------------------------------

/// The date grammar: `DD/MM/YYYY`, nothing more — no other characters and no
/// whitespace anywhere.
pub open spec fn is_date_text_spec(s: Seq<char>) -> bool {
    &&& s.len() == 10
    &&& is_digit_char(s[0])
    &&& is_digit_char(s[1])
    &&& s[2] == '/'
    &&& is_digit_char(s[3])
    &&& is_digit_char(s[4])
    &&& s[5] == '/'
    &&& is_digit_char(s[6])
    &&& is_digit_char(s[7])
    &&& is_digit_char(s[8])
    &&& is_digit_char(s[9])
}

pub fn is_date_chars(v: &Vec<char>) -> (r: bool)
    ensures
        r == is_date_text_spec(v@),
{
    v.len() == 10 && is_digit(v[0]) && is_digit(v[1]) && v[2] == '/' && is_digit(v[3]) && is_digit(
        v[4],
    ) && v[5] == '/' && is_digit(v[6]) && is_digit(v[7]) && is_digit(v[8]) && is_digit(v[9])
}

/// Does a text fragment match the date grammar?
pub fn is_date_text(s: &str) -> (r: bool)
    ensures
        r == is_date_text_spec(s@),
{
    let v = str_chars(s);
    is_date_chars(&v)
}

// ---------------------------------------------------------------------------
// Payment-code grammar: an 18-digit numeral beginning with `30` or `1` plus a
// digit, optionally grouped 2+2+4+4+4+2 with a single optional space before
// each of the three middle 4-digit groups and before the trailing 2-digit
// group.
// ---------------------------------------------------------------------------

/// The tail of the payment-code grammar after the first four digits: `n`
/// four-digit groups, then the final two-digit group, each group preceded by
/// at most one optional space.
pub open spec fn code_tail_groups(s: Seq<char>, n: nat) -> bool
    decreases n,
{
    let body = if s.len() > 0 && s[0] == ' ' {
        s.drop_first()
    } else {
        s
    };
    if n == 0 {
        body.len() == 2 && is_digit_char(body[0]) && is_digit_char(body[1])
    } else {
        &&& body.len() >= 4
        &&& is_digit_char(body[0])
        &&& is_digit_char(body[1])
        &&& is_digit_char(body[2])
        &&& is_digit_char(body[3])
        &&& code_tail_groups(body.skip(4), (n - 1) as nat)
    }
}

/// The first two digits must read `30`, or `1` followed by any digit.
pub open spec fn code_prefix_ok(s: Seq<char>) -> bool {
    (digit_val(s[0]) == 3 && digit_val(s[1]) == 0) || digit_val(s[0]) == 1
}

/// The payment-code grammar over a whole text fragment.
pub open spec fn is_pagopa_text_spec(s: Seq<char>) -> bool {
    &&& s.len() >= 4
    &&& is_digit_char(s[0])
    &&& is_digit_char(s[1])
    &&& is_digit_char(s[2])
    &&& is_digit_char(s[3])
    &&& code_prefix_ok(s)
    &&& code_tail_groups(s.skip(4), 3)
}

fn code_tail_groups_at(v: &Vec<char>, i: usize, n: u8) -> (r: bool)
    requires
        i <= v@.len(),
    ensures
        r == code_tail_groups(v@.skip(i as int), n as nat),
    decreases n,
{
    let ghost s: Seq<char> = v@.skip(i as int);
    let b: usize = if i < v.len() && v[i] == ' ' {
        i + 1
    } else {
        i
    };
    proof {
        if s.len() > 0 && s[0] == ' ' {
            assert(v@.skip(i as int).drop_first() =~= v@.skip(i + 1));
            assert(b == i + 1);
        } else {
            assert(b == i);
        }
    }
    let ghost body: Seq<char> = v@.skip(b as int);
    if n == 0 {
        v.len() - b == 2 && is_digit(v[b]) && is_digit(v[b + 1])
    } else {
        if v.len() - b >= 4 && is_digit(v[b]) && is_digit(v[b + 1]) && is_digit(v[b + 2])
            && is_digit(v[b + 3]) {
            proof {
                assert(v@.skip(b as int).skip(4) =~= v@.skip(b + 4));
            }
            code_tail_groups_at(v, b + 4, n - 1)
        } else {
            false
        }
    }
}

pub fn is_pagopa_chars(v: &Vec<char>) -> (r: bool)
    ensures
        r == is_pagopa_text_spec(v@),
{
    if v.len() >= 4 && is_digit(v[0]) && is_digit(v[1]) && is_digit(v[2]) && is_digit(v[3]) {
        let d0 = digit_of(v[0]);
        let d1 = digit_of(v[1]);
        if (d0 == 3 && d1 == 0) || d0 == 1 {
            code_tail_groups_at(v, 4, 3)
        } else {
            false
        }
    } else {
        false
    }
}

/// Does a text fragment match the payment-code grammar?
pub fn is_pagopa_text(s: &str) -> (r: bool)
    ensures
        r == is_pagopa_text_spec(s@),
{
    let v = str_chars(s);
    is_pagopa_chars(&v)
}

// ---------------------------------------------------------------------------
// Page container identifiers: `page` followed by decimal digits.
// ---------------------------------------------------------------------------

/// The page index encoded by a container identifier: `page` followed by one
/// or more decimal digits whose value fits a `u32`; anything else is not a
/// page container.
pub open spec fn page_index_spec(s: Seq<char>) -> Option<u32> {
    if s.len() > 4 && s[0] == 'p' && s[1] == 'a' && s[2] == 'g' && s[3] == 'e' && all_digits(
        s.skip(4),
    ) && digits_val(s.skip(4)) <= 0xffff_ffff {
        Some(digits_val(s.skip(4)) as u32)
    } else {
        None
    }
}

pub fn page_index_of_chars(v: &Vec<char>) -> (r: Option<u32>)
    ensures
        r == page_index_spec(v@),
{
    if !(v.len() > 4 && v[0] == 'p' && v[1] == 'a' && v[2] == 'g' && v[3] == 'e') {
        return None;
    }
    let n = v.len();
    proof {
        assert(v@.subrange(4, n as int) =~= v@.skip(4));
    }
    if !all_digits_range(v, 4, n) {
        return None;
    }
    let r = digits_value_bounded(v, 4, n, 0xffff_ffff);
    proof {
        crate::num::lemma_digits_val_bound(v@.skip(4));
    }
    match r {
        Some(val) => Some(val as u32),
        None => None,
    }
}

/// The page index encoded by a container identifier, if any.
pub fn page_index_of(s: &str) -> (r: Option<u32>)
    ensures
        r == page_index_spec(s@),
{
    let v = str_chars(s);
    page_index_of_chars(&v)
}

// ---------------------------------------------------------------------------
// Barcode payload grammars.
// ---------------------------------------------------------------------------

/// The prefixed payload form: literal `PAGOPA|002|`, an 18-digit code, `|`,
/// 11 digits, `|`, then at least one digit.
pub open spec fn qr_prefixed_form(s: Seq<char>) -> bool {
    &&& s.len() >= 43
    &&& s[0] == 'P'
    &&& s[1] == 'A'
    &&& s[2] == 'G'
    &&& s[3] == 'O'
    &&& s[4] == 'P'
    &&& s[5] == 'A'
    &&& s[6] == '|'
    &&& s[7] == '0'
    &&& s[8] == '0'
    &&& s[9] == '2'
    &&& s[10] == '|'
    &&& all_digits(s.subrange(11, 29))
    &&& s[29] == '|'
    &&& all_digits(s.subrange(30, 41))
    &&& s[41] == '|'
    &&& is_digit_char(s[42])
}

/// A character allowed in the 16-character block of the structural payload
/// form: an uppercase letter, a digit, or a space.
pub open spec fn is_block16_char(c: char) -> bool {
    (65 <= c as u32 <= 90) || is_digit_char(c) || c == ' '
}

/// The structural payload form: literal `codfase=NBPA;18`, an 18-digit code,
/// `12` and 12 digits, `10` and 10 digits, `38961P1` and 11 digits, 16
/// characters drawn from uppercase letters, digits and space, any 162
/// characters, and a final `A`.
pub open spec fn qr_structural_form(s: Seq<char>) -> bool {
    &&& s.len() == 256
    &&& s[0] == 'c'
    &&& s[1] == 'o'
    &&& s[2] == 'd'
    &&& s[3] == 'f'
    &&& s[4] == 'a'
    &&& s[5] == 's'
    &&& s[6] == 'e'
    &&& s[7] == '='
    &&& s[8] == 'N'
    &&& s[9] == 'B'
    &&& s[10] == 'P'
    &&& s[11] == 'A'
    &&& s[12] == ';'
    &&& s[13] == '1'
    &&& s[14] == '8'
    &&& all_digits(s.subrange(15, 33))
    &&& s[33] == '1'
    &&& s[34] == '2'
    &&& all_digits(s.subrange(35, 47))
    &&& s[47] == '1'
    &&& s[48] == '0'
    &&& all_digits(s.subrange(49, 59))
    &&& s[59] == '3'
    &&& s[60] == '8'
    &&& s[61] == '9'
    &&& s[62] == '6'
    &&& s[63] == '1'
    &&& s[64] == 'P'
    &&& s[65] == '1'
    &&& all_digits(s.subrange(66, 77))
    &&& (forall|j: int| 77 <= j < 93 ==> is_block16_char(s[j]))
    &&& s[255] == 'A'
}

/// The 18-digit code embedded in a decoded barcode payload, if the payload
/// matches one of the two recognized grammars; the prefixed form is tried
/// first.
pub open spec fn extract_code_spec(s: Seq<char>) -> Option<Seq<char>> {
    if qr_prefixed_form(s) {
        Some(s.subrange(11, 29))
    } else if qr_structural_form(s) {
        Some(s.subrange(15, 33))
    } else {
        None
    }
}

fn qr_prefixed_chars(v: &Vec<char>) -> (r: bool)
    ensures
        r == qr_prefixed_form(v@),
{
    v.len() >= 43 && v[0] == 'P' && v[1] == 'A' && v[2] == 'G' && v[3] == 'O' && v[4] == 'P'
        && v[5] == 'A' && v[6] == '|' && v[7] == '0' && v[8] == '0' && v[9] == '2' && v[10] == '|'
        && all_digits_range(v, 11, 29) && v[29] == '|' && all_digits_range(v, 30, 41)
        && v[41] == '|' && is_digit(v[42])
}

fn block16_ok(v: &Vec<char>) -> (r: bool)
    requires
        v@.len() >= 93,
    ensures
        r == (forall|j: int| 77 <= j < 93 ==> is_block16_char(v@[j])),
{
    let mut i: usize = 77;
    while i < 93
        invariant
            77 <= i <= 93,
            v@.len() >= 93,
            forall|j: int| 77 <= j < i ==> is_block16_char(v@[j]),
        decreases 93 - i,
    {
        let c = v[i];
        let u = c as u32;
        if !((65 <= u && u <= 90) || (48 <= u && u <= 57) || c == ' ') {
            return false;
        }
        i = i + 1;
    }
    true
}

fn qr_structural_chars(v: &Vec<char>) -> (r: bool)
    ensures
        r == qr_structural_form(v@),
{
    v.len() == 256 && v[0] == 'c' && v[1] == 'o' && v[2] == 'd' && v[3] == 'f' && v[4] == 'a'
        && v[5] == 's' && v[6] == 'e' && v[7] == '=' && v[8] == 'N' && v[9] == 'B' && v[10] == 'P'
        && v[11] == 'A' && v[12] == ';' && v[13] == '1' && v[14] == '8' && all_digits_range(
        v,
        15,
        33,
    ) && v[33] == '1' && v[34] == '2' && all_digits_range(v, 35, 47) && v[47] == '1'
        && v[48] == '0' && all_digits_range(v, 49, 59) && v[59] == '3' && v[60] == '8'
        && v[61] == '9' && v[62] == '6' && v[63] == '1' && v[64] == 'P' && v[65] == '1'
        && all_digits_range(v, 66, 77) && block16_ok(v) && v[255] == 'A'
}

/// Extracts the embedded 18-digit payment code from a decoded barcode
/// payload, recognizing the two fixed payload grammars; `None` for any other
/// payload.
pub fn pagopa_qr_code_from_payload(payload: &str) -> (r: Option<String>)
    ensures
        r is Some <==> extract_code_spec(payload@) is Some,
        r matches Some(code) ==> extract_code_spec(payload@) == Some(code@),
{
    let v = str_chars(payload);
    if qr_prefixed_chars(&v) {
        let code = subvec(&v, 11, 29);
        Some(chars_to_string(&code))
    } else if qr_structural_chars(&v) {
        let code = subvec(&v, 15, 33);
        Some(chars_to_string(&code))
    } else {
        None
    }
}

} // verus!
