//! Reading SNBT text back into tags. So far numbers are read; compounds,
//! lists, quoted and unquoted strings are not yet.
use vstd::prelude::*;

use crate::text::{chars_of, digits_value, is_digit, is_radix_digit, is_whitespace, is_whitespace_char};
use crate::types::Tag;

verus! {

/// std's `ParseIntError`, which the decoder carries in `SnbtError::ParseInt`
/// without looking inside.
#[verifier::external_type_specification]
#[verifier::external_body]
pub struct ExParseIntError(std::num::ParseIntError);

/// Why SNBT text could not be read.
#[derive(Debug, PartialEq, Eq)]
pub enum SnbtError {
    /// There is nothing but white space.
    EmptyInput,
    /// The digits of a number do not make an `i64`.
    ParseInt(std::num::ParseIntError),
    /// No tag starts with this character.
    UnknownChar(char),
}

impl From<std::num::ParseIntError> for SnbtError {
    fn from(e: std::num::ParseIntError) -> (r: Self) {
        SnbtError::ParseInt(e)
    }
}

impl vstd::std_specs::convert::FromSpecImpl<std::num::ParseIntError> for SnbtError {
    open spec fn obeys_from_spec() -> bool {
        true
    }

    open spec fn from_spec(e: std::num::ParseIntError) -> SnbtError {
        SnbtError::ParseInt(e)
    }
}

type Res<'a, T> = Result<(&'a str, T), SnbtError>;

/// `s` without its leading white space.
pub open spec fn skip_space(s: Seq<char>) -> Seq<char>
    decreases s.len(),
{
    if s.len() > 0 && is_whitespace_char(s[0]) {
        skip_space(s.drop_first())
    } else {
        s
    }
}

/// Skipping white space twice is skipping it once: what is left starts with
/// no white space.
pub proof fn lemma_skip_space_idempotent(s: Seq<char>)
    ensures
        skip_space(skip_space(s)) == skip_space(s),
        skip_space(s).len() > 0 ==> !is_whitespace_char(skip_space(s)[0]),
    decreases s.len(),
{
    if s.len() > 0 && is_whitespace_char(s[0]) {
        lemma_skip_space_idempotent(s.drop_first());
    }
}

/// Skipping white space drops only white space from the front: what is
/// left is the end of `s`.
pub proof fn lemma_skip_space_suffix(s: Seq<char>)
    ensures
        skip_space(s).len() <= s.len(),
        skip_space(s) == s.skip(s.len() - skip_space(s).len()),
        forall|j: int| 0 <= j < s.len() - skip_space(s).len() ==> is_whitespace_char(s[j]),
    decreases s.len(),
{
    if s.len() > 0 && is_whitespace_char(s[0]) {
        lemma_skip_space_suffix(s.drop_first());
        let t = s.drop_first();
        assert(s.skip(s.len() - skip_space(s).len()) =~= t.skip(t.len() - skip_space(t).len()));
        assert forall|j: int| 0 <= j < s.len() - skip_space(s).len() implies is_whitespace_char(s[j]) by {
            if j > 0 {
                assert(s[j] == t[j - 1]);
            }
        }
    } else {
        assert(s.skip(0) =~= s);
    }
}

/// Whether a number starts with `c`.
pub open spec fn is_number_start(c: char) -> bool {
    ||| 0x30 <= c as u32 <= 0x39
    ||| c == '-'
    ||| c == '.'
    ||| c == '+'
}

/// Whether a tag that is not yet read starts with `c`: a compound, a list,
/// a quoted string, or an unquoted string or boolean.
pub open spec fn is_unread_start(c: char) -> bool {
    let u = c as u32;
    ||| c == '{'
    ||| c == '['
    ||| c == '"'
    ||| c == '\''
    ||| c == '_'
    ||| 0x61 <= u <= 0x7a
    ||| 0x41 <= u <= 0x5a
}

/// Whether the number that `s` starts with is negative.
pub open spec fn number_negative(s: Seq<char>) -> bool {
    s.len() > 0 && s[0] == '-'
}

/// Where a number's text goes on after its sign.
pub open spec fn sign_end(s: Seq<char>) -> int {
    if s.len() > 0 && (s[0] == '-' || s[0] == '+') {
        1
    } else {
        0
    }
}

/// Whether a number's digits follow a `0`.
pub open spec fn has_zero(s: Seq<char>) -> bool {
    sign_end(s) < s.len() && s[sign_end(s)] == '0'
}

/// The letter after that `0`, where there is one.
pub open spec fn has_prefix_letter(s: Seq<char>, letter: char) -> bool {
    has_zero(s) && sign_end(s) + 1 < s.len() && s[sign_end(s) + 1] == letter
}

/// The radix of a number: 2 after `0b`, 16 after `0x`, else 10.
pub open spec fn number_radix(s: Seq<char>) -> nat {
    if has_prefix_letter(s, 'b') {
        2
    } else if has_prefix_letter(s, 'x') {
        16
    } else {
        10
    }
}

/// Where a number's digits start: after its sign, and after a leading `0`,
/// `0b` or `0x`.
pub open spec fn digits_start(s: Seq<char>) -> int {
    if has_prefix_letter(s, 'b') || has_prefix_letter(s, 'x') {
        sign_end(s) + 2
    } else if has_zero(s) {
        sign_end(s) + 1
    } else {
        sign_end(s)
    }
}

/// Where the run of digits in `radix` and underscores that starts at `from`
/// ends.
pub open spec fn digits_run_end(s: Seq<char>, from: int, radix: nat) -> int
    decreases s.len() - from,
{
    if 0 <= from < s.len() && (is_radix_digit(s[from], radix) || s[from] == '_') {
        digits_run_end(s, from + 1, radix)
    } else {
        from
    }
}

/// A run of digits and underscores that stops at `end` ends there.
pub proof fn lemma_digits_run_end(s: Seq<char>, from: int, end: int, radix: nat)
    requires
        0 <= from <= end <= s.len(),
        forall|j: int| from <= j < end ==> is_radix_digit(s[j], radix) || s[j] == '_',
        end == s.len() || !(is_radix_digit(s[end], radix) || s[end] == '_'),
    ensures
        digits_run_end(s, from, radix) == end,
    decreases end - from,
{
    if from < end {
        lemma_digits_run_end(s, from + 1, end, radix);
    }
}

/// Where a number's digits end.
pub open spec fn digits_end(s: Seq<char>) -> int {
    digits_run_end(s, digits_start(s), number_radix(s))
}

/// A number's digits, underscores included.
pub open spec fn number_digits(s: Seq<char>) -> Seq<char> {
    s.subrange(digits_start(s), digits_end(s))
}

/// Whether a decimal point follows a number's digits: reading such a number
/// is not done yet.
pub open spec fn number_has_point(s: Seq<char>) -> bool {
    digits_end(s) < s.len() && s[digits_end(s)] == '.'
}

/// Whether a number's digits make an `i64`: they hold no underscore and
/// their value is at most `i64::MAX`.
pub open spec fn number_fits(s: Seq<char>) -> bool {
    &&& !number_digits(s).contains('_')
    &&& digits_value(number_digits(s), number_radix(s)) <= i64::MAX
}

/// The value of a number with its sign.
pub open spec fn number_value(s: Seq<char>) -> int {
    let v = digits_value(number_digits(s), number_radix(s)) as int;
    if number_negative(s) {
        -v
    } else {
        v
    }
}

/// What std's `i64::from_str_radix` gives for the text `src` in `radix`.
pub uninterp spec fn i64_from_str_radix(src: Seq<char>, radix: u32) -> Result<
    i64,
    std::num::ParseIntError,
>;

/// What reading the number at the start of `s` gives: with no digits, a
/// byte 0 and the text after the sign and prefix; with digits that make an
/// `i64`, that long and the text after the digits; else the error that
/// `i64::from_str_radix` gives for the digits.
pub open spec fn number_read(s: Seq<char>, r: Result<(&str, Tag), SnbtError>) -> bool {
    if digits_start(s) == digits_end(s) {
        r matches Ok((rest, tag)) && rest@ == s.skip(digits_start(s)) && tag == Tag::Byte(0)
    } else if number_fits(s) {
        r matches Ok((rest, tag)) && rest@ == s.skip(digits_end(s)) && tag == Tag::Long(
            number_value(s) as i64,
        )
    } else {
        match i64_from_str_radix(number_digits(s), number_radix(s) as u32) {
            Err(e) => r == Err::<(&str, Tag), SnbtError>(SnbtError::ParseInt(e)),
            Ok(_) => false,
        }
    }
}

/// What reading a tag that starts with `c` from `s` gives: a number, or
/// else `UnknownChar(c)`.
pub open spec fn char_read(s: Seq<char>, c: char, r: Result<(&str, Tag), SnbtError>) -> bool {
    if is_number_start(c) {
        number_read(s, r)
    } else {
        r == Err::<(&str, Tag), SnbtError>(SnbtError::UnknownChar(c))
    }
}

/// What reading the tag at the start of `s`, white space skipped, gives.
pub open spec fn tag_read(s: Seq<char>, r: Result<(&str, Tag), SnbtError>) -> bool {
    let t = skip_space(s);
    if t.len() == 0 {
        r == Err::<(&str, Tag), SnbtError>(SnbtError::EmptyInput)
    } else {
        char_read(t, t[0], r)
    }
}

/// Whether the tag at the start of `s` is of a kind that can be read yet:
/// it is not a compound, list or string, nor a number with a decimal point.
pub open spec fn tag_readable(s: Seq<char>) -> bool {
    let t = skip_space(s);
    t.len() > 0 ==> !is_unread_start(t[0]) && (is_number_start(t[0]) ==> !number_has_point(t))
}

/// Reading a tag moves on: what `decode_tag` gives back with the tag is the
/// end of its input, shorter than the input without its leading white
/// space.
pub proof fn lemma_read_moves_on(s: Seq<char>, r: Result<(&str, Tag), SnbtError>)
    requires
        tag_readable(s),
        tag_read(s, r),
    ensures
        r matches Ok((rest, _)) ==> rest@.len() < skip_space(s).len() && rest@ == s.skip(
            s.len() - rest@.len(),
        ),
{
    lemma_skip_space_suffix(s);
    let t = skip_space(s);
    if let Ok((rest, _)) = r {
        let k: int = if digits_start(t) == digits_end(t) {
            digits_start(t)
        } else {
            digits_end(t)
        };
        lemma_digits_run_bounds(t, digits_start(t), number_radix(t));
        assert(rest@ == t.skip(k));
        assert(0 < k) by {
            if k == 0 {
                assert(digits_start(t) == 0);
                assert(0x30 <= t[0] as u32 <= 0x39 && t[0] != '0');
                assert(is_radix_digit(t[0], number_radix(t)));
                lemma_digits_run_step(t, 0, number_radix(t));
            }
        }
        assert(rest@ =~= s.skip(s.len() - rest@.len()));
    }
}

proof fn lemma_digits_run_bounds(s: Seq<char>, from: int, radix: nat)
    requires
        0 <= from,
    ensures
        from <= digits_run_end(s, from, radix),
        from <= s.len() ==> digits_run_end(s, from, radix) <= s.len(),
    decreases s.len() - from,
{
    if 0 <= from < s.len() && (is_radix_digit(s[from], radix) || s[from] == '_') {
        lemma_digits_run_bounds(s, from + 1, radix);
    }
}

proof fn lemma_digits_run_step(s: Seq<char>, from: int, radix: nat)
    requires
        0 <= from < s.len(),
        is_radix_digit(s[from], radix),
    ensures
        from < digits_run_end(s, from, radix),
{
    lemma_digits_run_bounds(s, from + 1, radix);
}

/// White space before a tag changes nothing: the text to read, whether it
/// can be read, and what reading it gives are the same with it and without.
pub proof fn lemma_leading_space(w: Seq<char>, s: Seq<char>)
    requires
        forall|j: int| 0 <= j < w.len() ==> is_whitespace_char(w[j]),
    ensures
        skip_space(w + s) == skip_space(s),
        tag_readable(w + s) == tag_readable(s),
        forall|r: Result<(&str, Tag), SnbtError>| #[trigger] tag_read(w + s, r) == tag_read(s, r),
    decreases w.len(),
{
    if w.len() > 0 {
        lemma_leading_space(w.drop_first(), s);
        assert((w + s).drop_first() =~= w.drop_first() + s);
        assert((w + s)[0] == w[0]);
    } else {
        assert(w + s =~= s);
    }
}

/// The result of reading a long with its sign turned: any other result
/// stays as it is.
pub open spec fn negate_long(r: Result<(&str, Tag), SnbtError>) -> Result<(&str, Tag), SnbtError> {
    match r {
        Ok((rest, Tag::Long(n))) => Ok((rest, Tag::Long((-n) as i64))),
        _ => r,
    }
}

proof fn lemma_digits_run_shift(s: Seq<char>, t: Seq<char>, from: int, radix: nat)
    requires
        t.len() == s.len() + 1,
        forall|j: int| 0 <= j < s.len() ==> t[j + 1] == s[j],
        0 <= from,
    ensures
        digits_run_end(t, from + 1, radix) == digits_run_end(s, from, radix) + 1,
    decreases s.len() - from,
{
    if 0 <= from < s.len() && (is_radix_digit(s[from], radix) || s[from] == '_') {
        lemma_digits_run_shift(s, t, from + 1, radix);
    }
}

/// A sign before a number that starts with a digit: with `+`, reading it
/// gives just what reading the number alone gives; with `-`, it gives the
/// same but for a long, whose sign is turned.
pub proof fn lemma_sign(s: Seq<char>)
    requires
        s.len() > 0,
        0x30 <= s[0] as u32 <= 0x39,
    ensures
        forall|r: Result<(&str, Tag), SnbtError>| #[trigger]
            number_read(seq!['+'] + s, r) == number_read(s, r),
        forall|r: Result<(&str, Tag), SnbtError>| #[trigger]
            number_read(s, r) ==> number_read(seq!['-'] + s, negate_long(r)),
        number_has_point(seq!['+'] + s) == number_has_point(s),
        number_has_point(seq!['-'] + s) == number_has_point(s),
{
    lemma_signed(s, '+');
    lemma_signed(s, '-');
    assert forall|r: Result<(&str, Tag), SnbtError>| #[trigger]
        number_read(s, r) implies number_read(seq!['-'] + s, negate_long(r)) by {
        let t = seq!['-'] + s;
        if digits_start(s) != digits_end(s) && number_fits(s) {
            assert(number_value(t) == -number_value(s));
        }
    }
}

/// A sign before a number that starts with a digit, read by `decode_tag`:
/// with `+`, the result is just what it is without the sign, and the text
/// is as readable; with `-`, the result is the same but for a long, whose
/// sign is turned.
pub proof fn lemma_sign_tag_read(s: Seq<char>)
    requires
        s.len() > 0,
        0x30 <= s[0] as u32 <= 0x39,
    ensures
        tag_readable(seq!['+'] + s) == tag_readable(s),
        tag_readable(seq!['-'] + s) == tag_readable(s),
        forall|r: Result<(&str, Tag), SnbtError>| #[trigger]
            tag_read(seq!['+'] + s, r) == tag_read(s, r),
        forall|r: Result<(&str, Tag), SnbtError>| #[trigger]
            tag_read(s, r) ==> tag_read(seq!['-'] + s, negate_long(r)),
{
    lemma_sign(s);
    let p = seq!['+'] + s;
    let m = seq!['-'] + s;
    assert(p[0] == '+' && m[0] == '-');
    assert(!is_whitespace_char(s[0]) && !is_whitespace_char('+') && !is_whitespace_char('-'));
    assert(skip_space(p) == p);
    assert(skip_space(m) == m);
    assert(skip_space(s) == s);
    assert(is_number_start(s[0]) && !is_unread_start(s[0]));
}

proof fn lemma_signed(s: Seq<char>, sign: char)
    requires
        s.len() > 0,
        0x30 <= s[0] as u32 <= 0x39,
        sign == '+' || sign == '-',
    ensures
        ({
            let t = seq![sign] + s;
            &&& number_radix(t) == number_radix(s)
            &&& digits_start(t) == digits_start(s) + 1
            &&& digits_end(t) == digits_end(s) + 1
            &&& number_digits(t) == number_digits(s)
            &&& number_fits(t) == number_fits(s)
            &&& number_has_point(t) == number_has_point(s)
            &&& t.skip(digits_start(t)) == s.skip(digits_start(s))
            &&& t.skip(digits_end(t)) == s.skip(digits_end(s))
            &&& !number_negative(s)
            &&& number_negative(t) == (sign == '-')
            &&& number_value(s) >= 0
            &&& number_value(t) == if sign == '-' {
                -number_value(s)
            } else {
                number_value(s)
            }
        }),
{
    let t = seq![sign] + s;
    assert(forall|j: int| 0 <= j < s.len() ==> t[j + 1] == s[j]);
    assert(sign_end(t) == 1);
    assert(s[0] != '-' && s[0] != '+');
    assert(sign_end(s) == 0);
    assert(has_zero(t) == has_zero(s));
    assert(has_prefix_letter(t, 'b') == has_prefix_letter(s, 'b'));
    assert(has_prefix_letter(t, 'x') == has_prefix_letter(s, 'x'));
    lemma_digits_run_bounds(s, digits_start(s), number_radix(s));
    lemma_digits_run_shift(s, t, digits_start(s), number_radix(s));
    assert(number_digits(t) =~= number_digits(s));
    assert(t.skip(digits_start(t)) =~= s.skip(digits_start(s)));
    assert(t.skip(digits_end(t)) =~= s.skip(digits_end(s)));
}

/// Calls std's `i64::from_str_radix`. Trusted, as its documentation states
/// it: on a string of digits in `radix` (here also underscores, and no
/// sign), it gives the value that the digits write when there is no
/// underscore and the value fits in an `i64`, and an error otherwise. Which
/// `ParseIntError` comes back is left unsaid. It panics for a radix outside
/// 2 to 36, which `requires` leaves out.
#[verifier::external_body]
fn parse_i64_radix(src: &str, radix: u32) -> (r: Result<i64, std::num::ParseIntError>)
    requires
        2 <= radix <= 36,
        src@.len() > 0,
        forall|i: int|
            0 <= i < src@.len() ==> is_radix_digit(src@[i], radix as nat) || src@[i] == '_',
    ensures
        r == i64_from_str_radix(src@, radix),
        match r {
            Ok(v) => !src@.contains('_') && v == digits_value(src@, radix as nat),
            Err(_) => src@.contains('_') || digits_value(src@, radix as nat) > i64::MAX,
        },
{
    i64::from_str_radix(src, radix)
}

/// Reads the tag at the start of `input`, after any white space, and gives
/// it back with the text that follows it.
pub fn decode_tag<'a>(input: &'a str) -> (r: Res<'a, Tag>)
    requires
        tag_readable(input@),
    ensures
        tag_read(input@, r),
{
    let ghost given = input@;
    let input = space(input);
    proof {
        lemma_skip_space_idempotent(given);
    }
    if input.unicode_len() > 0 {
        let c = input.get_char(0);
        decode_tag_internal(input, c)
    } else {
        Err(SnbtError::EmptyInput)
    }
}

fn decode_tag_internal<'a>(input: &'a str, c: char) -> (r: Res<'a, Tag>)
    requires
        !is_unread_start(c),
        is_number_start(c) ==> input@.len() > 0 && is_number_start(input@[0])
            && !number_has_point(input@),
    ensures
        char_read(input@, c, r),
{
    match c {
        '0'..='9' | '-' | '.' | '+' => decode_number(input),
        _ => Err(SnbtError::UnknownChar(c)),
    }
}

/// Scans the number at the start of `input`: whether it is negative, its
/// radix, and where its digits start and end.
fn scan_number(input: &str) -> (r: (bool, u32, usize, usize))
    requires
        input@.len() > 0,
    ensures
        r.0 == number_negative(input@),
        r.1 == number_radix(input@),
        r.2 == digits_start(input@),
        r.3 == digits_end(input@),
        r.2 <= r.3 <= input@.len(),
        forall|j: int|
            r.2 <= j < r.3 ==> is_radix_digit(input@[j], r.1 as nat) || input@[j] == '_',
{
    let ghost s = input@;
    let cs = chars_of(input);
    let n = cs.len();
    let mut pos: usize = 0;
    let first = cs[0];
    let negative = if first == '-' {
        pos = 1;
        true
    } else if first == '+' {
        pos = 1;
        false
    } else {
        false
    };
    let radix: u32 = if pos < n && cs[pos] == '0' {
        pos = pos + 1;
        if pos < n && cs[pos] == 'b' {
            pos = pos + 1;
            2
        } else if pos < n && cs[pos] == 'x' {
            pos = pos + 1;
            16
        } else {
            10
        }
    } else {
        10
    };
    assert(pos == digits_start(s));
    assert(radix == number_radix(s));
    let num_start = pos;
    while pos < n && (is_digit(cs[pos], radix) || cs[pos] == '_')
        invariant
            s == input@,
            cs@ == s,
            n == s.len(),
            num_start <= pos <= n,
            radix == number_radix(s),
            num_start == digits_start(s),
            digits_run_end(s, pos as int, radix as nat) == digits_end(s),
            forall|j: int|
                num_start <= j < pos ==> is_radix_digit(s[j], radix as nat) || s[j] == '_',
        decreases n - pos,
    {
        pos = pos + 1;
    }
    (negative, radix, num_start, pos)
}

/// Reads the number at the start of `input`: an optional sign, an optional
/// `0b` or `0x` prefix (or a leading `0`), then digits in that radix.
pub fn decode_number<'a>(input: &'a str) -> (r: Res<'a, Tag>)
    requires
        input@.len() > 0,
        is_number_start(input@[0]),
        !number_has_point(input@),
    ensures
        number_read(input@, r),
{
    let n = input.unicode_len();
    let (negative, radix, num_start, num_end) = scan_number(input);
    if num_start == num_end {
        return Ok((input.substring_char(num_start, n), Tag::Byte(0)));
    }
    let digits = input.substring_char(num_start, num_end);
    match parse_i64_radix(digits, radix) {
        Ok(num) => Ok((input.substring_char(num_end, n), Tag::Long(if negative { -num } else { num }))),
        Err(e) => Err(SnbtError::from(e)),
    }
}

/// Whether the tag at the start of `input` can be read yet, which
/// `decode_tag` needs: it is not a compound, list or string, nor a number
/// with a decimal point.
pub fn tag_is_readable(input: &str) -> (r: bool)
    ensures
        r == tag_readable(input@),
{
    let input = space(input);
    let n = input.unicode_len();
    if n == 0 {
        return true;
    }
    let c = input.get_char(0);
    match c {
        '{' | '[' | '"' | '\'' | '_' | 'a'..='z' | 'A'..='Z' => false,
        '0'..='9' | '-' | '.' | '+' => {
            let (_, _, _, end) = scan_number(input);
            !(end < n && input.get_char(end) == '.')
        },
        _ => true,
    }
}

/// `input` without its leading white space.
pub fn space(input: &str) -> (r: &str)
    ensures
        r@ == skip_space(input@),
{
    let cs = chars_of(input);
    let n = cs.len();
    let mut pos: usize = 0;
    assert(input@.skip(0) =~= input@);
    while pos < n && is_whitespace(cs[pos])
        invariant
            cs@ == input@,
            n == input@.len(),
            pos <= n,
            skip_space(input@.skip(pos as int)) == skip_space(input@),
        decreases n - pos,
    {
        assert(input@.skip(pos as int).drop_first() =~= input@.skip(pos + 1));
        pos = pos + 1;
    }
    input.substring_char(pos, n)
}

} // verus!
