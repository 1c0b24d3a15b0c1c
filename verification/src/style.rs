use vstd::prelude::*;

use crate::num::{all_digits, digit_of, digit_val, digits_val, is_digit, is_digit_char,
    lemma_digits_val_bound, lemma_digits_val_skip_zeros, pow10};
use crate::text::{str_chars, subvec, trim_chars, trim_spec};

verus! {

// ---------------------------------------------------------------------------
// Numeric tokens: an optional sign, digits, and an optional decimal
// fraction; any trailing unit suffix is ignored.  A coordinate is held in
// millionths, so fraction digits beyond the sixth are ignored, and
// magnitudes with more than twelve significant integer digits saturate.
// ---------------------------------------------------------------------------

/// Length of the longest all-digit prefix.
pub open spec fn digit_run(s: Seq<char>) -> nat
    decreases s.len(),
{
    if s.len() > 0 && is_digit_char(s[0]) {
        1 + digit_run(s.drop_first())
    } else {
        0
    }
}

pub proof fn lemma_digit_run_is(s: Seq<char>, n: int)
    requires
        0 <= n <= s.len(),
        forall|j: int| 0 <= j < n ==> is_digit_char(s[j]),
        n < s.len() ==> !is_digit_char(s[n]),
    ensures
        digit_run(s) == n,
    decreases n,
{
    if n == 0 {
    } else {
        assert(is_digit_char(s[0]));
        lemma_digit_run_is(s.drop_first(), n - 1);
    }
}

/// Length of the longest prefix of zero digits.
pub open spec fn lead_zeros(s: Seq<char>) -> nat
    decreases s.len(),
{
    if s.len() > 0 && is_digit_char(s[0]) && digit_val(s[0]) == 0 {
        1 + lead_zeros(s.drop_first())
    } else {
        0
    }
}

pub proof fn lemma_lead_zeros_is(s: Seq<char>, n: int)
    requires
        0 <= n <= s.len(),
        forall|j: int| 0 <= j < n ==> is_digit_char(s[j]) && digit_val(s[j]) == 0,
        n < s.len() ==> !(is_digit_char(s[n]) && digit_val(s[n]) == 0),
    ensures
        lead_zeros(s) == n,
    decreases n,
{
    if n == 0 {
    } else {
        lemma_lead_zeros_is(s.drop_first(), n - 1);
    }
}

/// The scaled value of the fraction digits: the first six fraction digits,
/// read as millionths.
pub open spec fn frac6_val(f: Seq<char>) -> int {
    if f.len() >= 6 {
        digits_val(f.take(6))
    } else {
        digits_val(f) * pow10((6 - f.len()) as nat)
    }
}

/// The greatest coordinate magnitude, in millionths.
pub open spec fn coord_max() -> int {
    0x7fff_ffff_ffff_ffff
}

/// The value of the numeric token that starts at the head of `v` (which must
/// start with a digit): integer digits scaled by one million plus the first
/// six fraction digits, negated when the token carried a minus sign;
/// magnitudes with more than twelve significant integer digits saturate.
pub open spec fn token_from(v: Seq<char>, neg: bool) -> int {
    let r = digit_run(v) as int;
    let ints = v.take(r);
    let rest = v.skip(r);
    let fracs = if rest.len() >= 2 && rest[0] == '.' && is_digit_char(rest[1]) {
        rest.drop_first().take(digit_run(rest.drop_first()) as int)
    } else {
        Seq::<char>::empty()
    };
    let mag = if ints.len() - lead_zeros(ints) > 12 {
        coord_max()
    } else {
        digits_val(ints) * 1000000 + frac6_val(fracs)
    };
    if neg {
        -mag
    } else {
        mag
    }
}

/// The value of the first numeric token of a string, if one occurs: the
/// leftmost place where a digit, or a minus sign directly followed by a
/// digit, begins a token.
pub open spec fn first_token(v: Seq<char>) -> Option<int>
    decreases v.len(),
{
    if v.len() == 0 {
        None
    } else if is_digit_char(v[0]) {
        Some(token_from(v, false))
    } else if v[0] == '-' && v.len() > 1 && is_digit_char(v[1]) {
        Some(token_from(v.drop_first(), true))
    } else {
        first_token(v.drop_first())
    }
}

/// Scans the digit run of `v` beginning at `start`.
#[verifier::loop_isolation(false)]
fn digit_run_end(v: &Vec<char>, start: usize) -> (e: usize)
    requires
        start <= v@.len(),
    ensures
        start <= e <= v@.len(),
        digit_run(v@.skip(start as int)) == e - start,
        forall|j: int| start <= j < e ==> is_digit_char(v@[j]),
        e < v@.len() ==> !is_digit_char(v@[e as int]),
{
    let mut e: usize = start;
    while e < v.len() && is_digit(v[e])
        invariant
            start <= e <= v@.len(),
            forall|j: int| start <= j < e ==> is_digit_char(v@[j]),
        decreases v@.len() - e,
    {
        e = e + 1;
    }
    proof {
        let s = v@.skip(start as int);
        assert(forall|j: int| 0 <= j < e - start ==> is_digit_char(s[j]));
        lemma_digit_run_is(s, e - start);
    }
    e
}

/// Scans the zero digits of `v` from `start` up to `stop` (an all-digit
/// range).
#[verifier::loop_isolation(false)]
fn zeros_end(v: &Vec<char>, start: usize, stop: usize) -> (z: usize)
    requires
        start <= stop <= v@.len(),
        forall|j: int| start <= j < stop ==> is_digit_char(v@[j]),
        stop < v@.len() ==> !is_digit_char(v@[stop as int]),
    ensures
        start <= z <= stop,
        lead_zeros(v@.skip(start as int)) == z - start,
        forall|j: int| start <= j < z ==> digit_val(v@[j]) == 0,
        z < stop ==> digit_val(v@[z as int]) != 0,
{
    let mut z: usize = start;
    while z < stop && digit_of(v[z]) == 0
        invariant
            start <= z <= stop,
            forall|j: int| start <= j < z ==> is_digit_char(v@[j]) && digit_val(v@[j]) == 0,
        decreases stop - z,
    {
        z = z + 1;
    }
    proof {
        let s = v@.skip(start as int);
        assert(forall|j: int|
            0 <= j < z - start ==> is_digit_char(s[j]) && digit_val(s[j]) == 0);
        if z - start < s.len() {
            assert(s[z - start] == v@[z as int]);
        }
        lemma_lead_zeros_is(s, z - start);
    }
    z
}

proof fn lemma_pow10_12()
    ensures
        pow10(12) == 1000000000000,
        pow10(6) == 1000000,
{
    reveal_with_fuel(pow10, 13);
}

/// Computes the value of the numeric token starting at `start` (a digit).
#[verifier::loop_isolation(false)]
#[verifier::rlimit(60)]
fn token_value_at(v: &Vec<char>, start: usize, neg: bool) -> (r: i64)
    requires
        start < v@.len(),
        is_digit_char(v@[start as int]),
    ensures
        r as int == token_from(v@.skip(start as int), neg),
        -coord_max() <= r as int <= coord_max(),
{
    let ghost s: Seq<char> = v@.skip(start as int);
    let e = digit_run_end(v, start);
    proof {
        assert(s.len() > 0 && is_digit_char(s[0]));
        assert(digit_run(s) > 0) by {
            assert(s.drop_first().len() >= 0);
        }
    }
    let ghost ints: Seq<char> = s.take(e - start);
    proof {
        assert(ints =~= v@.subrange(start as int, e as int));
        assert(forall|j: int| 0 <= j < ints.len() ==> is_digit_char(ints[j]));
    }
    let z = zeros_end(v, start, e);
    proof {
        // lead zeros of the token's integer digits
        assert(forall|j: int|
            0 <= j < z - start ==> is_digit_char(ints[j]) && digit_val(ints[j]) == 0);
        if z - start < ints.len() {
            assert(ints[z - start] == v@[z as int]);
        }
        lemma_lead_zeros_is(ints, z - start);
    }
    // fraction digits
    let mut fs: usize = e;
    let mut fe: usize = e;
    if e < v.len() {
        if v[e] == '.' && e + 1 < v.len() && is_digit(v[e + 1]) {
            fs = e + 1;
            fe = digit_run_end(v, e + 1);
        }
    }
    let ghost rest: Seq<char> = s.skip(e - start);
    let ghost fracs: Seq<char> = if rest.len() >= 2 && rest[0] == '.' && is_digit_char(rest[1]) {
        rest.drop_first().take(digit_run(rest.drop_first()) as int)
    } else {
        Seq::<char>::empty()
    };
    proof {
        assert(rest =~= v@.skip(e as int));
        assert(rest.len() >= 2 ==> rest[0] == v@[e as int] && rest[1] == v@[e + 1]);
        if rest.len() >= 2 && rest[0] == '.' && is_digit_char(rest[1]) {
            assert(fs == e + 1);
            assert(rest.drop_first() =~= v@.skip(e + 1));
            assert(digit_run(v@.skip(e + 1)) == fe - (e + 1));
            assert(fracs =~= v@.subrange(fs as int, fe as int));
        } else {
            assert(fs == e && fe == e);
            assert(fracs =~= v@.subrange(fs as int, fe as int));
        }
        assert(all_digits(fracs));
    }
    // fraction value, in millionths
    let m: usize = if fe - fs > 6 {
        6
    } else {
        fe - fs
    };
    let mut fv: u64 = 0;
    let mut j: usize = fs;
    while j < fs + m
        invariant
            fs <= j <= fs + m,
            fs + m <= fe <= v@.len(),
            forall|k: int| fs <= k < fe ==> is_digit_char(v@[k]),
            fv == digits_val(v@.subrange(fs as int, j as int)),
            fv < pow10((j - fs) as nat),
            m <= 6,
        decreases fs + m - j,
    {
        proof {
            assert(v@.subrange(fs as int, j + 1).drop_last() =~= v@.subrange(fs as int, j as int));
            assert(v@.subrange(fs as int, j + 1).last() == v@[j as int]);
            lemma_pow10_12();
            assert(pow10(((j + 1) - fs) as nat) == 10 * pow10((j - fs) as nat));
            assert(pow10((j - fs) as nat) <= pow10(6)) by {
                reveal_with_fuel(pow10, 13);
            }
        }
        let d = digit_of(v[j]) as u64;
        fv = fv * 10 + d;
        j = j + 1;
    }
    let scale: u64 = if m == 0 {
        1000000
    } else if m == 1 {
        100000
    } else if m == 2 {
        10000
    } else if m == 3 {
        1000
    } else if m == 4 {
        100
    } else if m == 5 {
        10
    } else {
        1
    };
    proof {
        lemma_pow10_12();
        reveal_with_fuel(pow10, 13);
        assert(scale == pow10((6 - m) as nat));
        assert(fv < pow10(m as nat));
    }
    let frac_scaled: u64 = fv * scale;
    proof {
        // fv * scale < pow10(m) * pow10(6-m) == pow10(6)
        assert(fv * scale < pow10(m as nat) * pow10((6 - m) as nat)) by (nonlinear_arith)
            requires
                fv < pow10(m as nat),
                scale == pow10((6 - m) as nat),
                pow10((6 - m) as nat) >= 1,
        ;
        assert(pow10(m as nat) * pow10((6 - m) as nat) == pow10(6)) by {
            reveal_with_fuel(pow10, 13);
        }
        // frac_scaled == frac6_val(fracs)
        if fracs.len() >= 6 {
            assert(m == 6);
            assert(fracs.take(6) =~= v@.subrange(fs as int, fs + 6));
            assert(frac_scaled == digits_val(fracs.take(6)));
        } else {
            assert(m == fracs.len());
            assert(fracs =~= v@.subrange(fs as int, fs + m));
            assert(frac_scaled == digits_val(fracs) * pow10((6 - fracs.len()) as nat));
        }
        assert(frac_scaled == frac6_val(fracs));
        assert(frac_scaled < 1000000);
    }
    // integer part
    let sig = e - z;
    let mag: i64 = if sig > 12 {
        i64::MAX
    } else {
        let mut iv: u64 = 0;
        let mut k: usize = z;
        while k < e
            invariant
                z <= k <= e <= v@.len(),
                e - z <= 12,
                forall|q: int| z <= q < e ==> is_digit_char(v@[q]),
                iv == digits_val(v@.subrange(z as int, k as int)),
                iv < pow10((k - z) as nat),
            decreases e - k,
        {
            proof {
                assert(v@.subrange(z as int, k + 1).drop_last() =~= v@.subrange(
                    z as int,
                    k as int,
                ));
                assert(v@.subrange(z as int, k + 1).last() == v@[k as int]);
                assert(pow10(((k + 1) - z) as nat) == 10 * pow10((k - z) as nat));
                assert(pow10((k - z) as nat) <= pow10(12)) by {
                    reveal_with_fuel(pow10, 13);
                }
                lemma_pow10_12();
            }
            let d = digit_of(v[k]) as u64;
            iv = iv * 10 + d;
            k = k + 1;
        }
        proof {
            lemma_pow10_12();
            assert(pow10((e - z) as nat) <= pow10(12)) by {
                reveal_with_fuel(pow10, 13);
            }
            assert(iv <= 999999999999);
            // the zero prefix does not change the value
            assert(ints.skip(z - start) =~= v@.subrange(z as int, e as int));
            lemma_digits_val_skip_zeros(ints, z - start);
            assert(digits_val(ints) == iv);
        }
        iv as i64 * 1000000 + frac_scaled as i64
    };
    proof {
        assert(digit_run(s) == e - start);
        assert(ints == s.take(digit_run(s) as int));
        assert(rest == s.skip(digit_run(s) as int));
        if ints.len() - lead_zeros(ints) > 12 {
            assert(mag as int == coord_max());
        } else {
            assert(mag as int == digits_val(ints) * 1000000 + frac6_val(fracs));
        }
        assert(0 <= mag as int <= coord_max());
    }
    if neg {
        -mag
    } else {
        mag
    }
}

/// Relates an executable optional coordinate to its mathematical value.
pub open spec fn opt_val(o: Option<i64>) -> Option<int> {
    match o {
        Some(x) => Some(x as int),
        None => None,
    }
}

/// Finds the first numeric token of a string and returns its value in
/// millionths.
#[verifier::loop_isolation(false)]
pub fn first_numeric_token(v: &Vec<char>) -> (r: Option<i64>)
    ensures
        opt_val(r) == first_token(v@),
{
    let n = v.len();
    let mut i: usize = 0;
    proof {
        assert(v@.skip(0) =~= v@);
    }
    while i < n
        invariant
            0 <= i <= n,
            n == v@.len(),
            first_token(v@) == first_token(v@.skip(i as int)),
        decreases n - i,
    {
        let ghost s: Seq<char> = v@.skip(i as int);
        proof {
            assert(s.len() > 0);
            assert(s[0] == v@[i as int]);
            if s.len() > 1 {
                assert(s[1] == v@[i + 1]);
            }
        }
        if is_digit(v[i]) {
            let x = token_value_at(v, i, false);
            return Some(x);
        }
        if v[i] == '-' && i + 1 < n && is_digit(v[i + 1]) {
            proof {
                assert(s.drop_first() =~= v@.skip(i + 1));
            }
            let x = token_value_at(v, i + 1, true);
            return Some(x);
        }
        proof {
            assert(s.drop_first() =~= v@.skip(i + 1));
        }
        i = i + 1;
    }
    proof {
        assert(v@.skip(n as int).len() == 0);
    }
    None
}

// ---------------------------------------------------------------------------
// Inline style declarations: a `;`-separated list of `key: value` pairs.
// ---------------------------------------------------------------------------

/// The segments of `s` between occurrences of the separator `c`.
pub open spec fn split_ch(s: Seq<char>, c: char) -> Seq<Seq<char>>
    decreases s.len(),
{
    if s.len() == 0 {
        seq![Seq::<char>::empty()]
    } else if s[0] == c {
        seq![Seq::<char>::empty()] + split_ch(s.drop_first(), c)
    } else {
        let rest = split_ch(s.drop_first(), c);
        seq![seq![s[0]] + rest[0]] + rest.drop_first()
    }
}

proof fn lemma_split_ch_len(s: Seq<char>, c: char)
    ensures
        split_ch(s, c).len() >= 1,
    decreases s.len(),
{
    if s.len() > 0 {
        lemma_split_ch_len(s.drop_first(), c);
    }
}

/// How `split_ch` consumes its first segment: up to the first separator, or
/// the whole string when none occurs.
proof fn lemma_split_ch_first(s: Seq<char>, c: char, i: int)
    requires
        0 <= i <= s.len(),
        forall|j: int| 0 <= j < i ==> s[j] != c,
        i < s.len() ==> s[i] == c,
    ensures
        i == s.len() ==> split_ch(s, c) == seq![s],
        i < s.len() ==> split_ch(s, c) == seq![s.take(i)] + split_ch(s.skip(i + 1), c),
    decreases i,
{
    if i == 0 {
        if s.len() == 0 {
            assert(split_ch(s, c) =~~= seq![s]);
        } else {
            assert(s[0] == c);
            assert(s.drop_first() =~= s.skip(1));
            assert(s.take(0) =~= Seq::<char>::empty());
            assert(split_ch(s, c) =~~= seq![s.take(0)] + split_ch(s.skip(1), c));
        }
    } else {
        assert(s[0] != c);
        lemma_split_ch_first(s.drop_first(), c, i - 1);
        let rest = split_ch(s.drop_first(), c);
        if i == s.len() {
            assert(rest == seq![s.drop_first()]);
            assert(rest[0] == s.drop_first());
            assert(seq![s[0]] + rest[0] =~= s);
            assert(rest.drop_first() =~= Seq::<Seq<char>>::empty());
            assert(split_ch(s, c) == seq![seq![s[0]] + rest[0]] + rest.drop_first());
            assert(split_ch(s, c) =~~= seq![s]);
        } else {
            assert(rest == seq![s.drop_first().take(i - 1)] + split_ch(
                s.drop_first().skip(i),
                c,
            ));
            assert(rest[0] == s.drop_first().take(i - 1));
            assert(seq![s[0]] + rest[0] =~= s.take(i));
            assert(rest.drop_first() =~= split_ch(s.drop_first().skip(i), c));
            assert(s.drop_first().skip(i) =~= s.skip(i + 1));
            assert(split_ch(s, c) == seq![seq![s[0]] + rest[0]] + rest.drop_first());
            assert(split_ch(s, c) =~~= seq![s.take(i)] + split_ch(s.skip(i + 1), c));
        }
    }
}

/// Splits a string at every occurrence of the separator.
#[verifier::loop_isolation(false)]
#[verifier::rlimit(30)]
pub fn split_chars(v: &Vec<char>, c: char) -> (r: Vec<Vec<char>>)
    ensures
        r.deep_view() == split_ch(v@, c),
{
    let n = v.len();
    let mut parts: Vec<Vec<char>> = Vec::new();
    let mut pos: usize = 0;
    proof {
        assert(v@.skip(0) =~= v@);
    }
    loop
        invariant
            pos <= n,
            n == v@.len(),
            split_ch(v@, c) == parts.deep_view() + split_ch(v@.skip(pos as int), c),
        decreases n - pos,
    {
        let mut q: usize = pos;
        while q < n && v[q] != c
            invariant
                pos <= q <= n,
                forall|j: int| pos <= j < q ==> v@[j] != c,
            decreases n - q,
        {
            q = q + 1;
        }
        let ghost tail: Seq<char> = v@.skip(pos as int);
        proof {
            assert(forall|j: int| 0 <= j < q - pos ==> tail[j] != c);
            if q < n {
                assert(tail[q - pos] == v@[q as int]);
            }
            lemma_split_ch_first(tail, c, q - pos);
        }
        let part = subvec(v, pos, q);
        let ghost old_parts: Seq<Seq<char>> = parts.deep_view();
        parts.push(part);
        proof {
            assert(parts.deep_view() =~= old_parts.push(part.deep_view()));
            assert(part.deep_view() == part@);
            assert(part@ =~= tail.take(q - pos));
        }
        if q == n {
            proof {
                assert(tail.take(q - pos) =~= tail);
                assert(split_ch(tail, c) == seq![tail]);
                assert(old_parts.push(tail) =~= old_parts + seq![tail]);
                assert(parts.deep_view() =~= split_ch(v@, c));
            }
            return parts;
        }
        proof {
            assert(split_ch(tail, c) == seq![tail.take(q - pos)] + split_ch(
                tail.skip(q - pos + 1),
                c,
            ));
            assert(tail.skip(q - pos + 1) =~= v@.skip(q + 1));
            assert(old_parts.push(tail.take(q - pos)) + split_ch(v@.skip(q + 1), c) =~= old_parts
                + (seq![tail.take(q - pos)] + split_ch(v@.skip(q + 1), c)));
        }
        pos = q + 1;
    }
}

/// The two positioning axes an inline style can declare.
#[derive(Clone, Copy, PartialEq, Eq, Structural, Debug)]
pub enum Axis {
    Top,
    Left,
}

/// The lowercase name of an axis key.
pub open spec fn axis_key(a: Axis) -> Seq<char> {
    match a {
        Axis::Top => seq!['t', 'o', 'p'],
        Axis::Left => seq!['l', 'e', 'f', 't'],
    }
}

/// ASCII-case-insensitive match of a character against a lowercase letter.
pub open spec fn ci_eq(a: char, b: char) -> bool {
    a == b || (65 <= a as u32 <= 90 && a as u32 + 32 == b as u32)
}

/// ASCII-case-insensitive equality of a key against a lowercase name.
pub open spec fn key_matches(k: Seq<char>, key: Seq<char>) -> bool {
    k.len() == key.len() && forall|i: int| 0 <= i < k.len() ==> ci_eq(k[i], key[i])
}

fn ci_eq_exec(a: char, b: char) -> (r: bool)
    ensures
        r == ci_eq(a, b),
{
    let ua = a as u32;
    let ub = b as u32;
    a == b || (65 <= ua && ua <= 90 && ua + 32 == ub)
}

fn key_matches_axis(k: &Vec<char>, axis: Axis) -> (r: bool)
    ensures
        r == key_matches(k@, axis_key(axis)),
{
    match axis {
        Axis::Top => {
            if k.len() != 3 {
                return false;
            }
            let r = ci_eq_exec(k[0], 't') && ci_eq_exec(k[1], 'o') && ci_eq_exec(k[2], 'p');
            proof {
                let key = axis_key(axis);
                if r {
                    assert forall|i: int| 0 <= i < k@.len() implies ci_eq(k@[i], key[i]) by {
                        if i == 0 {
                        } else if i == 1 {
                        } else {
                            assert(i == 2);
                        }
                    }
                }
            }
            r
        },
        Axis::Left => {
            if k.len() != 4 {
                return false;
            }
            let r = ci_eq_exec(k[0], 'l') && ci_eq_exec(k[1], 'e') && ci_eq_exec(k[2], 'f')
                && ci_eq_exec(k[3], 't');
            proof {
                let key = axis_key(axis);
                if r {
                    assert forall|i: int| 0 <= i < k@.len() implies ci_eq(k@[i], key[i]) by {
                        if i == 0 {
                        } else if i == 1 {
                        } else if i == 2 {
                        } else {
                            assert(i == 3);
                        }
                    }
                }
            }
            r
        },
    }
}

/// The coordinate a single `key: value` declaration yields for an axis: the
/// key before the first `:` must match the axis name up to ASCII case and
/// surrounding whitespace, and the value after it must hold a numeric token.
pub open spec fn part_axis_value(part: Seq<char>, axis: Axis) -> Option<int> {
    let ps = split_ch(part, ':');
    if ps.len() < 2 {
        None
    } else if key_matches(trim_spec(ps[0]), axis_key(axis)) {
        first_token(part.skip(ps[0].len() as int + 1))
    } else {
        None
    }
}

/// The coordinate a declaration list yields for an axis: the first
/// declaration that matches the axis and holds a numeric token.
pub open spec fn parts_axis(ps: Seq<Seq<char>>, axis: Axis) -> Option<int>
    decreases ps.len(),
{
    if ps.len() == 0 {
        None
    } else if part_axis_value(ps[0], axis) is Some {
        part_axis_value(ps[0], axis)
    } else {
        parts_axis(ps.drop_first(), axis)
    }
}

/// The coordinate an inline style attribute declares for an axis.
pub open spec fn style_axis(s: Seq<char>, axis: Axis) -> Option<int> {
    parts_axis(split_ch(s, ';'), axis)
}

#[verifier::loop_isolation(false)]
fn part_axis(part: &Vec<char>, axis: Axis) -> (r: Option<i64>)
    ensures
        opt_val(r) == part_axis_value(part@, axis),
{
    let n = part.len();
    let mut q: usize = 0;
    while q < n && part[q] != ':'
        invariant
            0 <= q <= n,
            forall|j: int| 0 <= j < q ==> part@[j] != ':',
        decreases n - q,
    {
        q = q + 1;
    }
    proof {
        lemma_split_ch_first(part@, ':', q as int);
    }
    if q == n {
        proof {
            assert(part@.take(n as int) =~= part@);
            assert(split_ch(part@, ':').len() < 2);
        }
        return None;
    }
    proof {
        lemma_split_ch_len(part@.skip(q + 1), ':');
        assert(split_ch(part@, ':')[0] == part@.take(q as int));
        assert(split_ch(part@, ':').len() >= 2);
    }
    let kraw = subvec(part, 0, q);
    let k = trim_chars(&kraw);
    if !key_matches_axis(&k, axis) {
        return None;
    }
    let value = subvec(part, q + 1, n);
    proof {
        assert(value@ =~= part@.skip(q + 1));
    }
    first_numeric_token(&value)
}

/// The coordinates (top, left) declared by one inline style attribute.
#[verifier::loop_isolation(false)]
pub fn parse_style(style: &str) -> (r: (Option<i64>, Option<i64>))
    ensures
        opt_val(r.0) == style_axis(style@, Axis::Top),
        opt_val(r.1) == style_axis(style@, Axis::Left),
{
    let v = str_chars(style);
    let parts = split_chars(&v, ';');
    let ghost ps: Seq<Seq<char>> = parts.deep_view();
    let mut top: Option<i64> = None;
    let mut left: Option<i64> = None;
    let mut i: usize = 0;
    proof {
        assert(ps.skip(0) =~= ps);
    }
    while i < parts.len()
        invariant
            0 <= i <= parts@.len(),
            ps == parts.deep_view(),
            ps.len() == parts@.len(),
            forall|j: int| 0 <= j < parts@.len() ==> #[trigger] parts@[j]@ == ps[j],
            match top {
                Some(x) => parts_axis(ps, Axis::Top) == Some(x as int),
                None => parts_axis(ps, Axis::Top) == parts_axis(ps.skip(i as int), Axis::Top),
            },
            match left {
                Some(x) => parts_axis(ps, Axis::Left) == Some(x as int),
                None => parts_axis(ps, Axis::Left) == parts_axis(ps.skip(i as int), Axis::Left),
            },
        decreases parts@.len() - i,
    {
        let pv_top = part_axis(&parts[i], Axis::Top);
        let pv_left = part_axis(&parts[i], Axis::Left);
        proof {
            assert(ps.skip(i as int)[0] == ps[i as int]);
            assert(ps.skip(i as int).drop_first() =~= ps.skip(i + 1));
        }
        if top.is_none() {
            if pv_top.is_some() {
                top = pv_top;
            }
        }
        if left.is_none() {
            if pv_left.is_some() {
                left = pv_left;
            }
        }
        i = i + 1;
    }
    proof {
        assert(ps.skip(parts@.len() as int).len() == 0);
    }
    (top, left)
}

// ---------------------------------------------------------------------------
// Position resolution over an ancestor chain, and proximity scores.
// ---------------------------------------------------------------------------

/// The coordinate an axis resolves to over a chain of inline styles, nearest
/// first: the first style that declares the axis wins, and a farther style
/// never overwrites it.
pub open spec fn styles_axis(ss: Seq<Seq<char>>, axis: Axis) -> Option<int>
    decreases ss.len(),
{
    if ss.len() == 0 {
        None
    } else if style_axis(ss[0], axis) is Some {
        style_axis(ss[0], axis)
    } else {
        styles_axis(ss.drop_first(), axis)
    }
}

/// The coordinates of an element: each axis resolved independently along the
/// chain of inline styles of the element and its ancestors, nearest first.
#[verifier::loop_isolation(false)]
pub fn find_coordinates(styles: &Vec<String>) -> (r: (Option<i64>, Option<i64>))
    ensures
        opt_val(r.0) == styles_axis(styles.deep_view(), Axis::Top),
        opt_val(r.1) == styles_axis(styles.deep_view(), Axis::Left),
{
    let ghost ss: Seq<Seq<char>> = styles.deep_view();
    let mut top: Option<i64> = None;
    let mut left: Option<i64> = None;
    let mut i: usize = 0;
    proof {
        assert(ss.skip(0) =~= ss);
    }
    while i < styles.len()
        invariant
            0 <= i <= styles@.len(),
            ss == styles.deep_view(),
            ss.len() == styles@.len(),
            forall|j: int| 0 <= j < styles@.len() ==> #[trigger] styles@[j]@ == ss[j],
            match top {
                Some(x) => styles_axis(ss, Axis::Top) == Some(x as int),
                None => styles_axis(ss, Axis::Top) == styles_axis(ss.skip(i as int), Axis::Top),
            },
            match left {
                Some(x) => styles_axis(ss, Axis::Left) == Some(x as int),
                None => styles_axis(ss, Axis::Left) == styles_axis(ss.skip(i as int), Axis::Left),
            },
        decreases styles@.len() - i,
    {
        let (t, l) = parse_style(styles[i].as_str());
        proof {
            assert(ss.skip(i as int)[0] == ss[i as int]);
            assert(ss.skip(i as int).drop_first() =~= ss.skip(i + 1));
        }
        if top.is_none() {
            if t.is_some() {
                top = t;
            }
        }
        if left.is_none() {
            if l.is_some() {
                left = l;
            }
        }
        i = i + 1;
    }
    proof {
        assert(ss.skip(styles@.len() as int).len() == 0);
    }
    (top, left)
}

/// A candidate's proximity score: the squared Euclidean distance from the
/// coordinate origin, in squared millionths, when both axes are present;
/// `Infinite` (least confident, sorts last) when either axis is absent.
#[derive(Clone, Copy, PartialEq, Eq, Structural, Debug)]
pub enum Score {
    Finite(u128),
    Infinite,
}

/// The score of a pair of optional coordinates.
pub open spec fn score_of(top: Option<int>, left: Option<int>) -> Score {
    match (top, left) {
        (Some(t), Some(l)) => Score::Finite((t * t + l * l) as u128),
        _ => Score::Infinite,
    }
}

/// Score order: finite scores by squared distance, `Infinite` last.
pub open spec fn score_le(a: Score, b: Score) -> bool {
    match (a, b) {
        (Score::Finite(x), Score::Finite(y)) => x <= y,
        (Score::Finite(_), Score::Infinite) => true,
        (Score::Infinite, Score::Infinite) => true,
        (Score::Infinite, Score::Finite(_)) => false,
    }
}

/// Strict score order.
pub open spec fn score_lt(a: Score, b: Score) -> bool {
    !score_le(b, a)
}

pub fn score_le_exec(a: Score, b: Score) -> (r: bool)
    ensures
        r == score_le(a, b),
{
    match (a, b) {
        (Score::Finite(x), Score::Finite(y)) => x <= y,
        (Score::Finite(_), Score::Infinite) => true,
        (Score::Infinite, Score::Infinite) => true,
        (Score::Infinite, Score::Finite(_)) => false,
    }
}

proof fn lemma_sq_bound(a: int)
    requires
        -0x8000_0000_0000_0000 <= a <= 0x7fff_ffff_ffff_ffff,
    ensures
        0 <= a * a <= 0x4000_0000_0000_0000_0000_0000_0000_0000,
{
    assert(0 <= a * a && a * a <= 0x4000_0000_0000_0000_0000_0000_0000_0000)
        by (nonlinear_arith)
        requires
            -0x8000_0000_0000_0000 <= a <= 0x7fff_ffff_ffff_ffff,
    ;
}

/// Computes the proximity score from the resolved coordinates.
pub fn calculate_score(top: Option<i64>, left: Option<i64>) -> (s: Score)
    ensures
        s == score_of(opt_val(top), opt_val(left)),
{
    match (top, left) {
        (Some(t), Some(l)) => {
            proof {
                lemma_sq_bound(t as int);
                lemma_sq_bound(l as int);
            }
            let tt: u128 = ((t as i128) * (t as i128)) as u128;
            let ll: u128 = ((l as i128) * (l as i128)) as u128;
            Score::Finite(tt + ll)
        },
        _ => Score::Infinite,
    }
}

} // verus!
