//! SNBT, the textual form of NBT: writing tags as text, and reading them
//! back (`decoder`).
use vstd::prelude::*;

use crate::snbt::decoder::{
    digits_end, digits_start, is_number_start, lemma_digits_run_end, number_digits,
    number_fits, number_has_point, number_radix, number_read, number_value, skip_space,
    tag_read, tag_readable, SnbtError,
};
use crate::text::{
    decimal_digits, decimal_text, is_radix_digit, is_whitespace_char, lemma_decimal_digits,
    push_decimal,
};
use crate::types::{entries_view, lemma_compound_view, Compound, Tag, TagType};

pub mod decoder;

verus! {

/// The characters that stand for one character of a quoted string, given
/// out one at a time by `next`.
#[derive(Debug, Clone, Copy, PartialEq, Eq, Structural)]
pub enum EscapedIterator {
    /// A backslash, then the character.
    Escaped(char),
    /// The character alone.
    Literal(char),
    /// Nothing more.
    Empty,
}

impl EscapedIterator {
    /// Gives out the next character, if there is one.
    pub fn next(&mut self) -> (r: Option<char>)
        ensures
            match *old(self) {
                EscapedIterator::Escaped(c) => r == Some('\\') && *final(self)
                    == EscapedIterator::Literal(c),
                EscapedIterator::Literal(c) => r == Some(c) && *final(self)
                    == EscapedIterator::Empty,
                EscapedIterator::Empty => r is None && *final(self) == EscapedIterator::Empty,
            },
            match r {
                Some(x) => pending(*old(self)) == seq![x] + pending(*final(self)),
                None => pending(*old(self)).len() == 0,
            },
    {
        match *self {
            EscapedIterator::Escaped(c) => {
                *self = EscapedIterator::Literal(c);
                Some('\\')
            },
            EscapedIterator::Literal(c) => {
                *self = EscapedIterator::Empty;
                Some(c)
            },
            EscapedIterator::Empty => None,
        }
    }
}

/// What `escape` makes of a character inside a quoted string: the
/// characters that a quoted string cannot hold as they are come out as a
/// backslash and a letter (`\b`, `\f`, `\n`, `\r`, `\t`) or a backslash
/// and themselves (`\\`, `\'`, `\"`).
pub open spec fn escape_of(c: char) -> EscapedIterator {
    if c == '\x08' {
        EscapedIterator::Escaped('b')
    } else if c == '\x0C' {
        EscapedIterator::Escaped('f')
    } else if c == '\x0A' {
        EscapedIterator::Escaped('n')
    } else if c == '\x0D' {
        EscapedIterator::Escaped('r')
    } else if c == '\x09' {
        EscapedIterator::Escaped('t')
    } else if c == '\\' {
        EscapedIterator::Escaped('\\')
    } else if c == '\'' {
        EscapedIterator::Escaped('\'')
    } else if c == '"' {
        EscapedIterator::Escaped('"')
    } else {
        EscapedIterator::Literal(c)
    }
}

/// The characters that an escape sequence still has to give out.
pub open spec fn pending(e: EscapedIterator) -> Seq<char> {
    match e {
        EscapedIterator::Escaped(c) => seq!['\\', c],
        EscapedIterator::Literal(c) => seq![c],
        EscapedIterator::Empty => seq![],
    }
}

/// The text that stands for `c` inside a quoted string.
pub open spec fn escape_char(c: char) -> Seq<char> {
    pending(escape_of(c))
}

/// The text of `s` inside a quoted string: each character escaped.
pub open spec fn escaped(s: Seq<char>) -> Seq<char>
    decreases s.len(),
{
    if s.len() == 0 {
        seq![]
    } else {
        escaped(s.drop_last()) + escape_char(s.last())
    }
}

/// A string as SNBT writes it: escaped, between double quotes.
pub open spec fn quoted(s: Seq<char>) -> Seq<char> {
    seq!['"'] + escaped(s) + seq!['"']
}

/// The character that a backslash and `c` stand for in a quoted string.
pub open spec fn unescape_letter(c: char) -> char {
    if c == 'b' {
        '\x08'
    } else if c == 'f' {
        '\x0C'
    } else if c == 'n' {
        '\x0A'
    } else if c == 'r' {
        '\x0D'
    } else if c == 't' {
        '\x09'
    } else {
        c
    }
}

/// The text that the inside of a quoted string stands for: a backslash and
/// the character after it stand for one character, any other character for
/// itself.
pub open spec fn unescaped(e: Seq<char>) -> Seq<char>
    decreases e.len(),
{
    if e.len() >= 2 && e[0] == '\\' {
        seq![unescape_letter(e[1])] + unescaped(e.skip(2))
    } else if e.len() >= 1 {
        seq![e[0]] + unescaped(e.skip(1))
    } else {
        seq![]
    }
}

proof fn lemma_escaped_first(s: Seq<char>)
    requires
        s.len() > 0,
    ensures
        escaped(s) == escape_char(s[0]) + escaped(s.drop_first()),
    decreases s.len(),
{
    if s.len() == 1 {
        assert(s.drop_last() =~= Seq::<char>::empty());
        assert(s.drop_first() =~= Seq::<char>::empty());
        assert(escaped(s) =~= escape_char(s[0]) + escaped(s.drop_first()));
    } else {
        lemma_escaped_first(s.drop_last());
        assert(s.drop_last().drop_first() =~= s.drop_first().drop_last());
        assert(s.drop_first().last() == s.last());
        assert(escaped(s) =~= escape_char(s[0]) + escaped(s.drop_first()));
    }
}

/// Escaping can be undone: the inside of the quoted form of `s` stands for
/// `s` itself, so no two strings are written alike.
pub proof fn lemma_unescape_escaped(s: Seq<char>)
    ensures
        unescaped(escaped(s)) == s,
    decreases s.len(),
{
    if s.len() > 0 {
        lemma_escaped_first(s);
        lemma_unescape_escaped(s.drop_first());
        let c = s[0];
        let e = escape_char(c) + escaped(s.drop_first());
        if escape_char(c).len() == 2 {
            assert(e.skip(2) =~= escaped(s.drop_first()));
        } else {
            assert(c != '\\');
            assert(e.skip(1) =~= escaped(s.drop_first()));
        }
        assert(s =~= seq![c] + s.drop_first());
    } else {
        assert(escaped(s) =~= Seq::<char>::empty());
    }
}

/// Whether `c` is one of the characters that stand alone in text but are
/// written with a backslash inside a quoted string.
pub open spec fn needs_escape(c: char) -> bool {
    escape_of(c) is Escaped
}

/// Whether `c` can follow a backslash inside a quoted string.
pub open spec fn is_escape_letter(c: char) -> bool {
    ||| c == 'b'
    ||| c == 'f'
    ||| c == 'n'
    ||| c == 'r'
    ||| c == 't'
    ||| c == '\\'
    ||| c == '\''
    ||| c == '"'
}

/// Whether `c` is one of the control characters that quoted strings write
/// with a letter: backspace, form feed, line feed, carriage return, tab.
pub open spec fn is_escaped_control(c: char) -> bool {
    ||| c == '\x08'
    ||| c == '\x0C'
    ||| c == '\x0A'
    ||| c == '\x0D'
    ||| c == '\x09'
}

/// Whether `e` is well formed as the inside of a quoted string: each
/// backslash starts a pair with an escape letter, and no character that
/// needs escaping stands alone.
pub open spec fn well_escaped(e: Seq<char>) -> bool
    decreases e.len(),
{
    if e.len() == 0 {
        true
    } else if e[0] == '\\' {
        e.len() >= 2 && is_escape_letter(e[1]) && well_escaped(e.skip(2))
    } else {
        !needs_escape(e[0]) && well_escaped(e.skip(1))
    }
}

proof fn lemma_escaped_well_formed(s: Seq<char>)
    ensures
        well_escaped(escaped(s)),
    decreases s.len(),
{
    if s.len() > 0 {
        lemma_escaped_first(s);
        lemma_escaped_well_formed(s.drop_first());
        let c = s[0];
        let e = escape_char(c) + escaped(s.drop_first());
        if escape_char(c).len() == 2 {
            assert(e.skip(2) =~= escaped(s.drop_first()));
        } else {
            assert(e.skip(1) =~= escaped(s.drop_first()));
        }
    } else {
        assert(escaped(s) =~= Seq::<char>::empty());
    }
}

proof fn lemma_well_escaped_chars(e: Seq<char>)
    requires
        well_escaped(e),
    ensures
        forall|j: int| 0 <= j < e.len() ==> !is_escaped_control(#[trigger] e[j]),
        forall|j: int| 0 <= j < e.len() && #[trigger] e[j] == '"' ==> j > 0 && e[j - 1] == '\\',
    decreases e.len(),
{
    if e.len() > 0 {
        let k: int = if e[0] == '\\' {
            2
        } else {
            1
        };
        let rest = e.skip(k);
        lemma_well_escaped_chars(rest);
        assert forall|j: int| 0 <= j < e.len() implies !is_escaped_control(#[trigger] e[j]) by {
            if j >= k {
                assert(e[j] == rest[j - k]);
            }
        }
        assert forall|j: int| 0 <= j < e.len() && #[trigger] e[j] == '"' implies j > 0 && e[j
            - 1] == '\\' by {
            if j >= k {
                assert(e[j] == rest[j - k]);
                if j - k > 0 {
                    assert(e[j - 1] == rest[j - k - 1]);
                }
            }
        }
    }
}

/// The form of a quoted string: it starts and ends with `"`, what is
/// between is the escaped text, which stands for the string again, holds
/// no backspace, form feed, line feed, carriage return or tab, and has a
/// backslash before each `"`.
pub proof fn lemma_quoted_form(s: Seq<char>)
    ensures
        ({
            let q = quoted(s);
            let inner = q.subrange(1, q.len() - 1);
            &&& q.len() >= 2
            &&& q[0] == '"'
            &&& q[q.len() - 1] == '"'
            &&& inner == escaped(s)
            &&& unescaped(inner) == s
            &&& well_escaped(inner)
            &&& forall|j: int| 0 <= j < inner.len() ==> !is_escaped_control(#[trigger] inner[j])
            &&& forall|j: int|
                0 <= j < inner.len() && #[trigger] inner[j] == '"' ==> j > 0 && inner[j - 1]
                    == '\\'
        }),
{
    let q = quoted(s);
    assert(q.subrange(1, q.len() - 1) =~= escaped(s));
    lemma_unescape_escaped(s);
    lemma_escaped_well_formed(s);
    lemma_well_escaped_chars(escaped(s));
}

/// The numbers of an array, each in decimal followed by `suffix`, with a
/// comma between two of them.
pub open spec fn number_items(s: Seq<int>, suffix: Seq<char>) -> Seq<char>
    decreases s.len(),
{
    if s.len() == 0 {
        seq![]
    } else if s.len() == 1 {
        decimal_text(s[0]) + suffix
    } else {
        number_items(s.drop_last(), suffix) + seq![','] + decimal_text(s.last()) + suffix
    }
}

/// The SNBT text of a tag.
pub closed spec fn snbt_text(t: Tag) -> Seq<char>
    decreases t,
{
    match t {
        Tag::Byte(v) => decimal_text(v as int).push('b'),
        Tag::Short(v) => decimal_text(v as int).push('s'),
        Tag::Int(v) => decimal_text(v as int).push('i'),
        Tag::Long(v) => decimal_text(v as int).push('l'),
        Tag::Float(text) => text@.push('f'),
        Tag::Double(text) => text@.push('d'),
        Tag::ByteArray(items) => seq!['[', 'B', ';'] + number_items(
            items@.map_values(|x: i8| x as int),
            seq!['b'],
        ) + seq![']'],
        Tag::IntArray(items) => seq!['[', 'I', ';'] + number_items(
            items@.map_values(|x: i32| x as int),
            seq![],
        ) + seq![']'],
        Tag::LongArray(items) => seq!['[', 'L', ';'] + number_items(
            items@.map_values(|x: i64| x as int),
            seq!['l'],
        ) + seq![']'],
        Tag::String(s) => quoted(s@),
        Tag::List(_, tags) => seq!['['] + tag_items(tags@) + seq![']'],
        Tag::Compound(c) => seq!['{'] + entry_items(c.entries@) + seq!['}'],
    }
}

spec fn tag_items(s: Seq<Tag>) -> Seq<char>
    decreases s,
{
    if s.len() == 0 {
        seq![]
    } else if s.len() == 1 {
        snbt_text(s[0])
    } else {
        tag_items(s.drop_last()) + seq![','] + snbt_text(s[s.len() - 1])
    }
}

spec fn entry_items(s: Seq<(String, Tag)>) -> Seq<char>
    decreases s,
{
    if s.len() == 0 {
        seq![]
    } else if s.len() == 1 {
        quoted(s[0].0@) + seq![':'] + snbt_text(s[0].1)
    } else {
        entry_items(s.drop_last()) + seq![','] + quoted(s[s.len() - 1].0@) + seq![':']
            + snbt_text(s[s.len() - 1].1)
    }
}

/// The SNBT texts of the tags of a list, with a comma between two of them.
pub open spec fn list_text(s: Seq<Tag>) -> Seq<char>
    decreases s.len(),
{
    if s.len() == 0 {
        seq![]
    } else if s.len() == 1 {
        snbt_text(s[0])
    } else {
        list_text(s.drop_last()) + seq![','] + snbt_text(s.last())
    }
}

/// The entries of a compound, each as its quoted name, a colon and the
/// SNBT text of its value, with a comma between two of them.
pub open spec fn compound_text(s: Seq<(Seq<char>, Tag)>) -> Seq<char>
    decreases s.len(),
{
    if s.len() == 0 {
        seq![]
    } else if s.len() == 1 {
        quoted(s[0].0) + seq![':'] + snbt_text(s[0].1)
    } else {
        compound_text(s.drop_last()) + seq![','] + quoted(s.last().0) + seq![':'] + snbt_text(
            s.last().1,
        )
    }
}

/// The SNBT text of a tag, one level at a time: a number in decimal with
/// the letter of its type, a float's text with `f` or `d`, an array as
/// `[B;`, `[I;` or `[L;` and its numbers, a string quoted, a list as its
/// tags between brackets, a compound as its entries between braces.
pub open spec fn snbt_unfolded(t: Tag) -> Seq<char> {
    match t {
        Tag::Byte(v) => decimal_text(v as int).push('b'),
        Tag::Short(v) => decimal_text(v as int).push('s'),
        Tag::Int(v) => decimal_text(v as int).push('i'),
        Tag::Long(v) => decimal_text(v as int).push('l'),
        Tag::Float(text) => text@.push('f'),
        Tag::Double(text) => text@.push('d'),
        Tag::ByteArray(items) => seq!['[', 'B', ';'] + number_items(
            items@.map_values(|x: i8| x as int),
            seq!['b'],
        ) + seq![']'],
        Tag::IntArray(items) => seq!['[', 'I', ';'] + number_items(
            items@.map_values(|x: i32| x as int),
            seq![],
        ) + seq![']'],
        Tag::LongArray(items) => seq!['[', 'L', ';'] + number_items(
            items@.map_values(|x: i64| x as int),
            seq!['l'],
        ) + seq![']'],
        Tag::String(s) => quoted(s@),
        Tag::List(_, tags) => seq!['['] + list_text(tags@) + seq![']'],
        Tag::Compound(c) => seq!['{'] + compound_text(c@) + seq!['}'],
    }
}

proof fn lemma_tag_items(s: Seq<Tag>)
    ensures
        tag_items(s) == list_text(s),
    decreases s.len(),
{
    if s.len() > 1 {
        lemma_tag_items(s.drop_last());
    }
}

proof fn lemma_entry_items(s: Seq<(String, Tag)>)
    ensures
        entry_items(s) == compound_text(entries_view(s)),
    decreases s.len(),
{
    if s.len() > 1 {
        lemma_entry_items(s.drop_last());
        assert(entries_view(s.drop_last()) =~= entries_view(s).drop_last());
    }
}

/// What `snbt_text` is, one level down: the text of a tag is made from the
/// texts of the tags in it as `snbt_unfolded` says.
pub proof fn lemma_snbt_text(t: Tag)
    ensures
        snbt_text(t) == snbt_unfolded(t),
{
    match t {
        Tag::List(_, tags) => lemma_tag_items(tags@),
        Tag::Compound(c) => {
            lemma_entry_items(c.entries@);
            lemma_compound_view(&c);
        },
        _ => {},
    }
}

/// The SNBT text of each kind of tag: a number is its signed decimal text
/// followed by the letter of its type; a float its text followed by `f` or
/// `d`; an array `[B;`, `[I;` or `[L;`, then its numbers, each in signed
/// decimal with `b`, nothing or `l` after it and commas between, then `]`;
/// a string quoted; a list its tags between brackets with commas between;
/// a compound its entries, each a quoted name, `:` and its value, between
/// braces with commas between.
pub proof fn lemma_snbt_text_cases()
    ensures
        forall|v: i8| #[trigger] snbt_text(Tag::Byte(v)) == decimal_text(v as int).push('b'),
        forall|v: i16| #[trigger] snbt_text(Tag::Short(v)) == decimal_text(v as int).push('s'),
        forall|v: i32| #[trigger] snbt_text(Tag::Int(v)) == decimal_text(v as int).push('i'),
        forall|v: i64| #[trigger] snbt_text(Tag::Long(v)) == decimal_text(v as int).push('l'),
        forall|t: String| #[trigger] snbt_text(Tag::Float(t)) == t@.push('f'),
        forall|t: String| #[trigger] snbt_text(Tag::Double(t)) == t@.push('d'),
        forall|v: Vec<i8>|
            #[trigger] snbt_text(Tag::ByteArray(v)) == seq!['[', 'B', ';'] + number_items(
                v@.map_values(|x: i8| x as int),
                seq!['b'],
            ) + seq![']'],
        forall|v: Vec<i32>|
            #[trigger] snbt_text(Tag::IntArray(v)) == seq!['[', 'I', ';'] + number_items(
                v@.map_values(|x: i32| x as int),
                seq![],
            ) + seq![']'],
        forall|v: Vec<i64>|
            #[trigger] snbt_text(Tag::LongArray(v)) == seq!['[', 'L', ';'] + number_items(
                v@.map_values(|x: i64| x as int),
                seq!['l'],
            ) + seq![']'],
        forall|s: String| #[trigger] snbt_text(Tag::String(s)) == quoted(s@),
        forall|t: TagType, v: Vec<Tag>|
            #[trigger] snbt_text(Tag::List(t, v)) == seq!['['] + list_text(v@) + seq![']'],
        forall|c: Compound|
            #[trigger] snbt_text(Tag::Compound(c)) == seq!['{'] + compound_text(c@) + seq!['}'],
{
    assert forall|t: TagType, v: Vec<Tag>|
        #[trigger] snbt_text(Tag::List(t, v)) == seq!['['] + list_text(v@) + seq![']'] by {
        lemma_snbt_text(Tag::List(t, v));
    }
    assert forall|c: Compound|
        #[trigger] snbt_text(Tag::Compound(c)) == seq!['{'] + compound_text(c@) + seq!['}'] by {
        lemma_snbt_text(Tag::Compound(c));
    }
}

/// The numbers of an array in SNBT: one item, a number in signed decimal
/// followed by `suffix`, per number in order, with a comma between two.
pub proof fn lemma_number_items(s: Seq<int>, x: int, suffix: Seq<char>)
    ensures
        number_items(seq![x], suffix) == decimal_text(x) + suffix,
        s.len() > 0 ==> number_items(s.push(x), suffix) == number_items(s, suffix) + seq![',']
            + decimal_text(x) + suffix,
{
    assert(s.push(x).drop_last() =~= s);
}

/// Reading back what the encoder writes for a long: `decode_tag` on the
/// text of `Tag::Long(v)` reads the digits and leaves the suffix `l`. It
/// gives back `Tag::Long(v)` for every `v` but two: `0`, which is written
/// `0l` and read as the byte 0 (a lone leading `0` is taken as a prefix),
/// and `i64::MIN`, whose digits do not make an `i64` without the sign.
pub proof fn lemma_long_read_back(v: i64)
    ensures
        tag_readable(snbt_text(Tag::Long(v))),
        forall|r: Result<(&str, Tag), SnbtError>|
            #[trigger] tag_read(snbt_text(Tag::Long(v)), r) ==> {
                &&& v != 0 && v != i64::MIN ==> (r matches Ok((rest, tag)) && rest@ == seq!['l']
                    && tag == Tag::Long(v))
                &&& v == 0 ==> (r matches Ok((rest, tag)) && rest@ == seq!['l'] && tag
                    == Tag::Byte(0))
                &&& v == i64::MIN ==> r matches Err(SnbtError::ParseInt(_))
            },
{
    let s = snbt_text(Tag::Long(v));
    let m: nat = if v < 0 {
        (-v) as nat
    } else {
        v as nat
    };
    let d = decimal_digits(m);
    lemma_decimal_digits(m);
    let p: int = if v < 0 {
        1
    } else {
        0
    };
    assert(s =~= (if v < 0 {
        seq!['-']
    } else {
        seq![]
    }) + d + seq!['l']);
    assert(s.len() == p + d.len() + 1);
    assert(forall|j: int| 0 <= j < d.len() ==> s[p + j] == d[j]);
    assert(s[p + d.len()] == 'l');
    assert(!is_radix_digit('l', 10));
    assert(!is_whitespace_char(s[0]));
    assert(skip_space(s) == s);
    if m > 0 {
        assert(s[p] == d[0]);
        assert(number_radix(s) == 10);
        assert(digits_start(s) == p);
        assert forall|j: int| p <= j < p + d.len() implies is_radix_digit(s[j], 10) || s[j] == '_' by {
            assert(s[j] == d[j - p]);
            assert(is_radix_digit(d[j - p], 10));
        }
        lemma_digits_run_end(s, p, p + d.len(), 10);
        assert(digits_end(s) == p + d.len());
        assert(number_digits(s) =~= d);
        assert(!d.contains('_')) by {
            if d.contains('_') {
                let j = choose|j: int| 0 <= j < d.len() && d[j] == '_';
                assert(is_radix_digit(d[j], 10));
            }
        }
        assert(s.skip(digits_end(s)) =~= seq!['l']);
        assert(v == i64::MIN <==> m > i64::MAX);
    } else {
        assert(d =~= seq!['0']);
        assert(s =~= seq!['0', 'l']);
        assert(digits_start(s) == 1);
        lemma_digits_run_end(s, 1, 1, 10);
        assert(digits_end(s) == 1);
        assert(s.skip(1) =~= seq!['l']);
    }
}

/// Writes tags as SNBT text into a buffer of its own.
pub struct Encoder {
    buffer: String,
}

impl View for Encoder {
    type V = Seq<char>;

    closed spec fn view(&self) -> Seq<char> {
        self.buffer@
    }
}

impl Encoder {
    /// An encoder with an empty buffer.
    pub fn new() -> (r: Self)
        ensures
            r@ == Seq::<char>::empty(),
    {
        Self { buffer: String::new() }
    }

    /// Appends the SNBT text of `tag`.
    #[verifier::rlimit(60)]
    pub fn encode_tag(&mut self, tag: &Tag)
        ensures
            final(self)@ == old(self)@ + snbt_text(*tag),
        decreases tag,
    {
        match tag {
            Tag::Byte(value) => {
                push_decimal(&mut self.buffer, *value as i64);
                self.buffer.push('b');
            },
            Tag::Short(value) => {
                push_decimal(&mut self.buffer, *value as i64);
                self.buffer.push('s');
            },
            Tag::Int(value) => {
                push_decimal(&mut self.buffer, *value as i64);
                self.buffer.push('i');
            },
            Tag::Long(value) => {
                push_decimal(&mut self.buffer, *value);
                self.buffer.push('l');
            },
            Tag::Float(text) => {
                self.buffer.append(text.as_str());
                self.buffer.push('f');
            },
            Tag::Double(text) => {
                self.buffer.append(text.as_str());
                self.buffer.push('d');
            },
            Tag::ByteArray(items) => {
                self.buffer.push('[');
                self.buffer.push('B');
                self.buffer.push(';');
                let ghost start = self.buffer@;
                let ghost nums = items@.map_values(|x: i8| x as int);
                let mut first = true;
                let mut i: usize = 0;
                while i < items.len()
                    invariant
                        i <= items.len(),
                        nums == items@.map_values(|x: i8| x as int),
                        first == (i == 0),
                        self.buffer@ == start + number_items(nums.take(i as int), seq!['b']),
                    decreases items.len() - i,
                {
                    if first {
                        first = false;
                    } else {
                        self.buffer.push(',');
                    }
                    push_decimal(&mut self.buffer, items[i] as i64);
                    self.buffer.push('b');
                    proof {
                        assert(nums.take(i + 1).drop_last() =~= nums.take(i as int));
                        assert(self.buffer@ =~= start + number_items(
                            nums.take(i + 1),
                            seq!['b'],
                        ));
                    }
                    i += 1;
                }
                self.buffer.push(']');
                proof {
                    assert(nums.take(items.len() as int) =~= nums);
                    assert(self.buffer@ =~= old(self)@ + snbt_text(*tag));
                }
            },
            Tag::IntArray(items) => {
                self.buffer.push('[');
                self.buffer.push('I');
                self.buffer.push(';');
                let ghost start = self.buffer@;
                let ghost nums = items@.map_values(|x: i32| x as int);
                let mut first = true;
                let mut i: usize = 0;
                while i < items.len()
                    invariant
                        i <= items.len(),
                        nums == items@.map_values(|x: i32| x as int),
                        first == (i == 0),
                        self.buffer@ == start + number_items(nums.take(i as int), seq![]),
                    decreases items.len() - i,
                {
                    if first {
                        first = false;
                    } else {
                        self.buffer.push(',');
                    }
                    push_decimal(&mut self.buffer, items[i] as i64);
                    proof {
                        assert(nums.take(i + 1).drop_last() =~= nums.take(i as int));
                        assert(self.buffer@ =~= start + number_items(nums.take(i + 1), seq![]));
                    }
                    i += 1;
                }
                self.buffer.push(']');
                proof {
                    assert(nums.take(items.len() as int) =~= nums);
                    assert(self.buffer@ =~= old(self)@ + snbt_text(*tag));
                }
            },
            Tag::LongArray(items) => {
                self.buffer.push('[');
                self.buffer.push('L');
                self.buffer.push(';');
                let ghost start = self.buffer@;
                let ghost nums = items@.map_values(|x: i64| x as int);
                let mut first = true;
                let mut i: usize = 0;
                while i < items.len()
                    invariant
                        i <= items.len(),
                        nums == items@.map_values(|x: i64| x as int),
                        first == (i == 0),
                        self.buffer@ == start + number_items(nums.take(i as int), seq!['l']),
                    decreases items.len() - i,
                {
                    if first {
                        first = false;
                    } else {
                        self.buffer.push(',');
                    }
                    push_decimal(&mut self.buffer, items[i]);
                    self.buffer.push('l');
                    proof {
                        assert(nums.take(i + 1).drop_last() =~= nums.take(i as int));
                        assert(self.buffer@ =~= start + number_items(
                            nums.take(i + 1),
                            seq!['l'],
                        ));
                    }
                    i += 1;
                }
                self.buffer.push(']');
                proof {
                    assert(nums.take(items.len() as int) =~= nums);
                    assert(self.buffer@ =~= old(self)@ + snbt_text(*tag));
                }
            },
            Tag::String(string) => {
                self.encode_string(string);
            },
            Tag::List(_tag_type, tags) => {
                self.buffer.push('[');
                let ghost start = self.buffer@;
                let mut first = true;
                let mut i: usize = 0;
                while i < tags.len()
                    invariant
                        i <= tags.len(),
                        first == (i == 0),
                        *tag == Tag::List(*_tag_type, *tags),
                        self@ == start + tag_items(tags@.take(i as int)),
                    decreases tags.len() - i,
                {
                    if first {
                        first = false;
                    } else {
                        self.buffer.push(',');
                    }
                    proof {
                        assert(decreases_to!(*tag => tag->List_1));
                        assert(decreases_to!(*tags => tags@));
                        assert(decreases_to!(tags@ => tags@[i as int]));
                    }
                    self.encode_tag(&tags[i]);
                    proof {
                        assert(tags@.take(i + 1).drop_last() =~= tags@.take(i as int));
                        assert(self@ =~= start + tag_items(tags@.take(i + 1)));
                    }
                    i += 1;
                }
                self.buffer.push(']');
                proof {
                    assert(tags@.take(tags.len() as int) =~= tags@);
                    assert(self.buffer@ =~= old(self)@ + snbt_text(*tag));
                }
            },
            Tag::Compound(compound) => {
                self.buffer.push('{');
                let ghost start = self.buffer@;
                let entries = &compound.entries;
                let mut first = true;
                let mut i: usize = 0;
                while i < entries.len()
                    invariant
                        i <= entries.len(),
                        first == (i == 0),
                        *tag == Tag::Compound(*compound),
                        *entries == compound.entries,
                        self@ == start + entry_items(entries@.take(i as int)),
                    decreases entries.len() - i,
                {
                    if first {
                        first = false;
                    } else {
                        self.buffer.push(',');
                    }
                    let (name, value) = &entries[i];
                    self.encode_string(name);
                    self.buffer.push(':');
                    proof {
                        assert(decreases_to!(*tag => tag->Compound_0));
                        assert(decreases_to!(*compound => compound.entries));
                        assert(decreases_to!(compound.entries => compound.entries@));
                        assert(decreases_to!(compound.entries@ => compound.entries@[i as int]));
                        assert(decreases_to!(compound.entries@[i as int] => compound.entries@[i as int].1));
                    }
                    self.encode_tag(value);
                    proof {
                        assert(entries@.take(i + 1).drop_last() =~= entries@.take(i as int));
                        assert(self@ =~= start + entry_items(entries@.take(i + 1)));
                    }
                    i += 1;
                }
                self.buffer.push('}');
                proof {
                    assert(entries@.take(entries.len() as int) =~= entries@);
                    assert(self.buffer@ =~= old(self)@ + snbt_text(*tag));
                }
            },
        }
    }

    /// The characters that stand for `c` inside a quoted string.
    pub fn escape(c: char) -> (r: EscapedIterator)
        ensures
            r == escape_of(c),
    {
        match c {
            '\x08' => EscapedIterator::Escaped('b'),
            '\x0C' => EscapedIterator::Escaped('f'),
            '\x0A' => EscapedIterator::Escaped('n'),
            '\x0D' => EscapedIterator::Escaped('r'),
            '\x09' => EscapedIterator::Escaped('t'),
            '\\' => EscapedIterator::Escaped('\\'),
            '\'' => EscapedIterator::Escaped('\''),
            '"' => EscapedIterator::Escaped('"'),
            _ => EscapedIterator::Literal(c),
        }
    }

    /// Appends `string`, escaped and quoted.
    pub fn encode_string(&mut self, string: &String)
        ensures
            final(self)@ == old(self)@ + quoted(string@),
    {
        self.buffer.push('"');
        let ghost start = self.buffer@;
        let s: &str = string.as_str();
        let cs = crate::text::chars_of(s);
        let n = cs.len();
        let mut i: usize = 0;
        while i < n
            invariant
                n == s@.len(),
                cs@ == s@,
                s@ == string@,
                i <= n,
                self.buffer@ == start + escaped(s@.take(i as int)),
            decreases n - i,
        {
            let c = cs[i];
            let ghost before = self.buffer@;
            let mut e = Self::escape(c);
            let mut next = e.next();
            while next.is_some()
                invariant
                    self.buffer@ + (match next {
                        Some(x) => seq![x],
                        None => seq![],
                    }) + pending(e) == before + escape_char(c),
                    next is None ==> pending(e).len() == 0,
                decreases pending(e).len() + (if next is Some { 1int } else { 0 }),
            {
                let x = next.unwrap();
                self.buffer.push(x);
                next = e.next();
                assert(self.buffer@ + (match next {
                    Some(x) => seq![x],
                    None => seq![],
                }) + pending(e) =~= before + escape_char(c));
            }
            assert(self.buffer@ =~= before + escape_char(c));
            assert(s@.take(i + 1).drop_last() =~= s@.take(i as int));
            i += 1;
        }
        assert(s@.take(n as int) =~= s@);
        self.buffer.push('"');
        assert(self.buffer@ =~= old(self)@ + quoted(string@));
    }

    /// The text written so far.
    pub fn buffer(&self) -> (r: &str)
        ensures
            r@ == self@,
    {
        self.buffer.as_str()
    }
}

} // verus!
