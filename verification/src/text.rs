//! Characters and numbers as text: the classes of characters that SNBT
//! reads, and the decimal form in which it writes integers.
use vstd::prelude::*;

verus! {

broadcast use vstd::string::group_string_axioms;

/// The characters of `s`, read in one pass.
pub fn chars_of(s: &str) -> (v: Vec<char>)
    ensures
        v@ == s@,
{
    let mut v: Vec<char> = Vec::new();
    for c in it: s.chars()
        invariant
            it.seq() == s@,
            v@ == it.seq().take(it.index() as int),
    {
        v.push(c);
    }
    v
}

/// std's `String::push`, trusted as its documentation states it: the
/// character is appended to the end of the text.
pub assume_specification[ std::string::String::push ](s: &mut std::string::String, ch: char)
    ensures
        final(s)@ == old(s)@.push(ch),
;

/// Unicode's `White_Space` property, which is what `char::is_whitespace`
/// tests.
pub open spec fn is_whitespace_char(c: char) -> bool {
    let u = c as u32;
    ||| 0x9 <= u <= 0xd
    ||| u == 0x20
    ||| u == 0x85
    ||| u == 0xa0
    ||| u == 0x1680
    ||| 0x2000 <= u <= 0x200a
    ||| u == 0x2028
    ||| u == 0x2029
    ||| u == 0x202f
    ||| u == 0x205f
    ||| u == 0x3000
}

/// Whether `c` is white space.
pub fn is_whitespace(c: char) -> (r: bool)
    ensures
        r == is_whitespace_char(c),
{
    let u = c as u32;
    (0x9 <= u && u <= 0xd) || u == 0x20 || u == 0x85 || u == 0xa0 || u == 0x1680 || (0x2000
        <= u && u <= 0x200a) || u == 0x2028 || u == 0x2029 || u == 0x202f || u == 0x205f || u
        == 0x3000
}

/// The value of `c` as a digit in any radix up to 36: `0`-`9`, then the
/// letters in either case from 10 on.
pub open spec fn digit_value(c: char) -> Option<nat> {
    let u = c as u32;
    if 0x30 <= u <= 0x39 {
        Some((u - 0x30) as nat)
    } else if 0x61 <= u <= 0x7a {
        Some((u - 0x61 + 10) as nat)
    } else if 0x41 <= u <= 0x5a {
        Some((u - 0x41 + 10) as nat)
    } else {
        None
    }
}

/// Whether `c` is a digit in `radix`, as `char::is_digit(radix)` tells.
pub open spec fn is_radix_digit(c: char, radix: nat) -> bool {
    digit_value(c) matches Some(d) && d < radix
}

/// Whether `c` is a digit in `radix`.
pub fn is_digit(c: char, radix: u32) -> (r: bool)
    requires
        2 <= radix <= 36,
    ensures
        r == is_radix_digit(c, radix as nat),
{
    let u = c as u32;
    if 0x30 <= u && u <= 0x39 {
        u - 0x30 < radix
    } else if 0x61 <= u && u <= 0x7a {
        u - 0x61 + 10 < radix
    } else if 0x41 <= u && u <= 0x5a {
        u - 0x41 + 10 < radix
    } else {
        false
    }
}

/// The number that a string of digits in `radix` writes, most significant
/// digit first.
pub open spec fn digits_value(s: Seq<char>, radix: nat) -> nat
    decreases s.len(),
{
    if s.len() == 0 {
        0
    } else {
        digits_value(s.drop_last(), radix) * radix + match digit_value(s.last()) {
            Some(d) => d,
            None => 0,
        }
    }
}

/// The character of a decimal digit.
pub open spec fn digit_char(d: nat) -> char {
    (d + 0x30) as char
}

/// The decimal digits of `n`, most significant first, with no leading zero.
pub open spec fn decimal_digits(n: nat) -> Seq<char>
    decreases n,
{
    if n < 10 {
        seq![digit_char(n)]
    } else {
        decimal_digits(n / 10).push(digit_char(n % 10))
    }
}

/// The decimal text of an integer, as `Display` writes it: a `-` before a
/// negative number, no sign before any other.
pub open spec fn decimal_text(v: int) -> Seq<char> {
    if v < 0 {
        seq!['-'] + decimal_digits((-v) as nat)
    } else {
        decimal_digits(v as nat)
    }
}

/// The decimal digits of `n` are digits in radix 10 that write `n`, and
/// the first of them is not `0` unless `n` is.
pub proof fn lemma_decimal_digits(n: nat)
    ensures
        decimal_digits(n).len() >= 1,
        forall|j: int|
            0 <= j < decimal_digits(n).len() ==> is_radix_digit(#[trigger] decimal_digits(n)[j], 10),
        digits_value(decimal_digits(n), 10) == n,
        n > 0 ==> decimal_digits(n)[0] != '0',
        n == 0 ==> decimal_digits(n) == seq!['0'],
    decreases n,
{
    if n < 10 {
        assert(digit_char(n) as u32 == n + 0x30);
        assert(decimal_digits(n).drop_last() =~= Seq::<char>::empty());
        assert(digit_value(digit_char(n)) == Some(n));
        assert(digits_value(decimal_digits(n), 10) == digits_value(Seq::<char>::empty(), 10) * 10 + n);
    } else {
        lemma_decimal_digits(n / 10);
        let d = digit_char(n % 10);
        assert(d as u32 == n % 10 + 0x30);
        let t = decimal_digits(n);
        assert(t.drop_last() =~= decimal_digits(n / 10));
        assert(digit_value(d) == Some(n % 10));
        assert(t.last() == d);
        assert(digits_value(t, 10) == digits_value(decimal_digits(n / 10), 10) * 10 + n % 10);
        assert((n / 10) * 10 + n % 10 == n);
        assert(t[0] == decimal_digits(n / 10)[0]);
        assert(forall|j: int| 0 <= j < t.len() - 1 ==> t[j] == decimal_digits(n / 10)[j]);
    }
}

/// Whether text `a` comes before text `b` in the order of `str`'s `<`:
/// character by character, by code point, a proper prefix first.
pub open spec fn precedes(a: Seq<char>, b: Seq<char>) -> bool
    decreases a.len(),
{
    if a.len() == 0 {
        b.len() > 0
    } else if b.len() == 0 {
        false
    } else if a[0] != b[0] {
        (a[0] as int) < (b[0] as int)
    } else {
        precedes(a.drop_first(), b.drop_first())
    }
}

/// Of two texts, exactly one comes first, or they are the same.
pub proof fn lemma_precedes_total(a: Seq<char>, b: Seq<char>)
    ensures
        a == b ==> !precedes(a, b),
        a != b ==> precedes(a, b) != precedes(b, a),
    decreases a.len(),
{
    if a.len() > 0 && b.len() > 0 {
        if a[0] == b[0] {
            lemma_precedes_total(a.drop_first(), b.drop_first());
            if a != b {
                assert(a.drop_first() != b.drop_first()) by {
                    if a.drop_first() == b.drop_first() {
                        assert(a =~= seq![a[0]] + a.drop_first());
                        assert(b =~= seq![b[0]] + b.drop_first());
                    }
                }
            }
        } else {
            assert((a[0] as int) != (b[0] as int));
        }
    } else if a.len() == 0 && b.len() == 0 {
        assert(a =~= b);
    }
}

/// Coming first is transitive.
pub proof fn lemma_precedes_transitive(a: Seq<char>, b: Seq<char>, c: Seq<char>)
    requires
        precedes(a, b),
        precedes(b, c),
    ensures
        precedes(a, c),
    decreases a.len(),
{
    if a.len() > 0 && b.len() > 0 && c.len() > 0 && a[0] == b[0] && b[0] == c[0] {
        lemma_precedes_transitive(a.drop_first(), b.drop_first(), c.drop_first());
    }
}

/// Whether text `a` comes before text `b`.
pub fn name_precedes(a: &str, b: &str) -> (r: bool)
    ensures
        r == precedes(a@, b@),
{
    let ac = chars_of(a);
    let bc = chars_of(b);
    let n = ac.len();
    let m = bc.len();
    let mut i: usize = 0;
    assert(a@.skip(0) =~= a@ && b@.skip(0) =~= b@);
    while i < n && i < m && ac[i] == bc[i]
        invariant
            ac@ == a@,
            bc@ == b@,
            n == a@.len(),
            m == b@.len(),
            i <= n,
            i <= m,
            precedes(a@, b@) == precedes(a@.skip(i as int), b@.skip(i as int)),
        decreases n - i,
    {
        assert(a@.skip(i as int).drop_first() =~= a@.skip(i + 1));
        assert(b@.skip(i as int).drop_first() =~= b@.skip(i + 1));
        i = i + 1;
    }
    if i == n {
        i < m
    } else if i == m {
        false
    } else {
        let x = ac[i];
        let y = bc[i];
        assert(a@.skip(i as int)[0] == x && b@.skip(i as int)[0] == y);
        x < y
    }
}

/// The decimal text of `v` starts with `-` exactly when `v` is negative;
/// the rest is decimal digits that write the size of `v`, the first of them
/// `0` only when `v` is 0.
pub proof fn lemma_decimal_text(v: int)
    ensures
        decimal_text(v).len() >= 1,
        (decimal_text(v)[0] == '-') == (v < 0),
        ({
            let d = if v < 0 {
                decimal_text(v).drop_first()
            } else {
                decimal_text(v)
            };
            &&& d.len() >= 1
            &&& forall|j: int| 0 <= j < d.len() ==> is_radix_digit(#[trigger] d[j], 10)
            &&& digits_value(d, 10) == (if v < 0 {
                -v
            } else {
                v
            })
            &&& (d[0] == '0') == (v == 0)
        }),
{
    let n: nat = if v < 0 {
        (-v) as nat
    } else {
        v as nat
    };
    lemma_decimal_digits(n);
    let d = decimal_digits(n);
    assert(is_radix_digit(d[0], 10));
    if v < 0 {
        assert(decimal_text(v).drop_first() =~= d);
    }
}

fn digit_to_char(d: u64) -> (c: char)
    requires
        d < 10,
    ensures
        c == digit_char(d as nat),
{
    ((d as u8) + 0x30u8) as char
}

fn push_digits(buf: &mut String, n: u64)
    ensures
        final(buf)@ == old(buf)@ + decimal_digits(n as nat),
    decreases n,
{
    if n >= 10 {
        push_digits(buf, n / 10);
    }
    buf.push(digit_to_char(n % 10));
    proof {
        if n >= 10 {
            assert(old(buf)@ + decimal_digits(n as nat) =~= old(buf)@ + decimal_digits(
                (n / 10) as nat,
            ) + seq![digit_char((n % 10) as nat)]);
        }
    }
}

/// Appends the decimal text of `v` to `buf`.
pub fn push_decimal(buf: &mut String, v: i64)
    ensures
        final(buf)@ == old(buf)@ + decimal_text(v as int),
{
    if v < 0 {
        buf.push('-');
        let m: u64 = (-(v as i128)) as u64;
        push_digits(buf, m);
        assert(old(buf)@ + decimal_text(v as int) =~= old(buf)@.push('-') + decimal_digits(
            m as nat,
        ));
    } else {
        push_digits(buf, v as u64);
    }
}

} // verus!
