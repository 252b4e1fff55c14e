use vstd::prelude::*;

use crate::text::{
    chars_of, lemma_precedes_total, lemma_precedes_transitive, name_precedes, precedes,
};

verus! {

/// The kind of an NBT tag, as it is numbered in the binary format.
#[derive(Debug, Copy, Clone, PartialEq, Eq, Structural)]
pub enum TagType {
    End,
    Byte,
    Short,
    Int,
    Long,
    Float,
    Double,
    ByteArray,
    String,
    List,
    Compound,
    IntArray,
    LongArray,
}

/// The number that identifies a tag type in the binary format.
pub open spec fn type_id(t: TagType) -> u8 {
    match t {
        TagType::End => 0,
        TagType::Byte => 1,
        TagType::Short => 2,
        TagType::Int => 3,
        TagType::Long => 4,
        TagType::Float => 5,
        TagType::Double => 6,
        TagType::ByteArray => 7,
        TagType::String => 8,
        TagType::List => 9,
        TagType::Compound => 10,
        TagType::IntArray => 11,
        TagType::LongArray => 12,
    }
}

/// The tag type with number `id`, if there is one.
pub open spec fn type_with_id(id: u8) -> Option<TagType> {
    match id {
        0 => Some(TagType::End),
        1 => Some(TagType::Byte),
        2 => Some(TagType::Short),
        3 => Some(TagType::Int),
        4 => Some(TagType::Long),
        5 => Some(TagType::Float),
        6 => Some(TagType::Double),
        7 => Some(TagType::ByteArray),
        8 => Some(TagType::String),
        9 => Some(TagType::List),
        10 => Some(TagType::Compound),
        11 => Some(TagType::IntArray),
        12 => Some(TagType::LongArray),
        _ => None,
    }
}

/// The largest number that identifies a tag type.
pub const MAX_TYPE_ID: u8 = 12;

impl TagType {
    /// The tag type with the given number, if there is one.
    pub fn from_id(id: u8) -> (r: Option<Self>)
        ensures
            r == type_with_id(id),
    {
        match id {
            0 => Some(Self::End),
            1 => Some(Self::Byte),
            2 => Some(Self::Short),
            3 => Some(Self::Int),
            4 => Some(Self::Long),
            5 => Some(Self::Float),
            6 => Some(Self::Double),
            7 => Some(Self::ByteArray),
            8 => Some(Self::String),
            9 => Some(Self::List),
            10 => Some(Self::Compound),
            11 => Some(Self::IntArray),
            12 => Some(Self::LongArray),
            _ => None,
        }
    }

    /// The number of this tag type.
    pub fn as_id(&self) -> (r: u8)
        ensures
            r == type_id(*self),
    {
        match self {
            TagType::End => 0,
            TagType::Byte => 1,
            TagType::Short => 2,
            TagType::Int => 3,
            TagType::Long => 4,
            TagType::Float => 5,
            TagType::Double => 6,
            TagType::ByteArray => 7,
            TagType::String => 8,
            TagType::List => 9,
            TagType::Compound => 10,
            TagType::IntArray => 11,
            TagType::LongArray => 12,
        }
    }
}

/// A tag type's number leads back to it, and each number up to
/// `MAX_TYPE_ID`, and no other, is the number of a tag type: so
/// `from_id(t.as_id())` is `Some(t)`, and `as_id` of what `from_id(id)`
/// gives is `id`.
pub proof fn lemma_type_id_round_trip(t: TagType, id: u8)
    ensures
        type_id(t) <= MAX_TYPE_ID,
        type_with_id(type_id(t)) == Some(t),
        type_with_id(id) is Some <==> id <= MAX_TYPE_ID,
        type_with_id(id) matches Some(u) ==> type_id(u) == id,
{
}

/// The numbers of the tag types are those of the NBT binary format: End 0,
/// Byte 1, Short 2, Int 3, Long 4, Float 5, Double 6, ByteArray 7, String
/// 8, List 9, Compound 10, IntArray 11, LongArray 12; `from_id` and `as_id`
/// go by them.
pub proof fn lemma_type_ids()
    ensures
        type_id(TagType::End) == 0 && type_with_id(0) == Some(TagType::End),
        type_id(TagType::Byte) == 1 && type_with_id(1) == Some(TagType::Byte),
        type_id(TagType::Short) == 2 && type_with_id(2) == Some(TagType::Short),
        type_id(TagType::Int) == 3 && type_with_id(3) == Some(TagType::Int),
        type_id(TagType::Long) == 4 && type_with_id(4) == Some(TagType::Long),
        type_id(TagType::Float) == 5 && type_with_id(5) == Some(TagType::Float),
        type_id(TagType::Double) == 6 && type_with_id(6) == Some(TagType::Double),
        type_id(TagType::ByteArray) == 7 && type_with_id(7) == Some(TagType::ByteArray),
        type_id(TagType::String) == 8 && type_with_id(8) == Some(TagType::String),
        type_id(TagType::List) == 9 && type_with_id(9) == Some(TagType::List),
        type_id(TagType::Compound) == 10 && type_with_id(10) == Some(TagType::Compound),
        type_id(TagType::IntArray) == 11 && type_with_id(11) == Some(TagType::IntArray),
        type_id(TagType::LongArray) == 12 && type_with_id(12) == Some(TagType::LongArray),
{
}

/// One NBT value. A `Float` or `Double` tag holds its value as the decimal
/// text that Rust's `Display` writes for the `f32` or `f64` (for example
/// `1.5`, `-0`, `NaN`): that text is all that the SNBT encoder reads of it.
#[derive(Debug)]
pub enum Tag {
    Byte(i8),
    Short(i16),
    Int(i32),
    Long(i64),
    Float(String),
    Double(String),
    ByteArray(Vec<i8>),
    String(String),
    List(TagType, Vec<Tag>),
    Compound(Compound),
    IntArray(Vec<i32>),
    LongArray(Vec<i64>),
}

/// The type of a tag value; `End` marks the end of a compound in the binary
/// format and is never the type of a value.
pub open spec fn tag_type_of(t: Tag) -> TagType {
    match t {
        Tag::Byte(_) => TagType::Byte,
        Tag::Short(_) => TagType::Short,
        Tag::Int(_) => TagType::Int,
        Tag::Long(_) => TagType::Long,
        Tag::Float(_) => TagType::Float,
        Tag::Double(_) => TagType::Double,
        Tag::ByteArray(_) => TagType::ByteArray,
        Tag::String(_) => TagType::String,
        Tag::List(..) => TagType::List,
        Tag::Compound(_) => TagType::Compound,
        Tag::IntArray(_) => TagType::IntArray,
        Tag::LongArray(_) => TagType::LongArray,
    }
}

impl Tag {
    /// The type of this tag.
    pub fn tag_type(&self) -> (r: TagType)
        ensures
            r == tag_type_of(*self),
            r != TagType::End,
    {
        match self {
            Tag::Byte(_) => TagType::Byte,
            Tag::Short(_) => TagType::Short,
            Tag::Int(_) => TagType::Int,
            Tag::Long(_) => TagType::Long,
            Tag::Float(_) => TagType::Float,
            Tag::Double(_) => TagType::Double,
            Tag::ByteArray(_) => TagType::ByteArray,
            Tag::String(_) => TagType::String,
            Tag::List(..) => TagType::List,
            Tag::Compound(_) => TagType::Compound,
            Tag::IntArray(_) => TagType::IntArray,
            Tag::LongArray(_) => TagType::LongArray,
        }
    }
}

/// A tag together with its name.
#[derive(Debug, PartialEq)]
pub struct NamedTag(pub String, pub Tag);

/// The named entries of a compound tag. No two entries have the same name,
/// and the entries are kept in the order of their names, so that two
/// compounds with the same entries are equal.
#[derive(Debug)]
pub struct Compound {
    pub(crate) entries: Vec<(String, Tag)>,
}

/// The entries of a compound, each name taken as its text.
pub open spec fn entries_view(e: Seq<(String, Tag)>) -> Seq<(Seq<char>, Tag)> {
    e.map_values(|p: (String, Tag)| (p.0@, p.1))
}

/// No two entries have the same name.
pub open spec fn names_distinct(s: Seq<(Seq<char>, Tag)>) -> bool {
    forall|i: int, j: int| 0 <= i < s.len() && 0 <= j < s.len() && i != j ==> s[i].0 != s[j].0
}

/// Each name comes before the names after it.
pub open spec fn names_sorted(s: Seq<(Seq<char>, Tag)>) -> bool {
    forall|i: int, j: int| 0 <= i < j < s.len() ==> precedes(s[i].0, s[j].0)
}

/// Where the entry named `k` stands, if there is one.
pub open spec fn name_index(s: Seq<(Seq<char>, Tag)>, k: Seq<char>) -> Option<int> {
    if exists|i: int| 0 <= i < s.len() && s[i].0 == k {
        Some(choose|i: int| 0 <= i < s.len() && s[i].0 == k)
    } else {
        None
    }
}

/// The value of the entry named `k`, if there is one.
pub open spec fn lookup(s: Seq<(Seq<char>, Tag)>, k: Seq<char>) -> Option<Tag> {
    match name_index(s, k) {
        Some(i) => Some(s[i].1),
        None => None,
    }
}

/// How many entries at the front have names that come before `k`.
pub open spec fn names_before(s: Seq<(Seq<char>, Tag)>, k: Seq<char>) -> nat
    decreases s.len(),
{
    if s.len() > 0 && precedes(s[0].0, k) {
        1 + names_before(s.drop_first(), k)
    } else {
        0
    }
}

/// The entries after the value of `k` is set to `v`: an entry of that name
/// gets the new value in its place, else a new entry goes in after the
/// names that come before `k`.
pub open spec fn inserted(s: Seq<(Seq<char>, Tag)>, k: Seq<char>, v: Tag) -> Seq<(Seq<char>, Tag)> {
    match name_index(s, k) {
        Some(i) => s.update(i, (k, v)),
        None => s.insert(names_before(s, k) as int, (k, v)),
    }
}

/// Sorted names are distinct.
pub proof fn lemma_sorted_distinct(s: Seq<(Seq<char>, Tag)>)
    requires
        names_sorted(s),
    ensures
        names_distinct(s),
{
    assert forall|i: int, j: int|
        0 <= i < s.len() && 0 <= j < s.len() && i != j implies s[i].0 != s[j].0 by {
        if i < j {
            lemma_precedes_total(s[i].0, s[j].0);
        } else {
            lemma_precedes_total(s[j].0, s[i].0);
        }
    }
}

/// In sorted entries, the names before `k` are the first `i` where the
/// first `i` names come before `k` and the next one does not.
proof fn lemma_names_before(s: Seq<(Seq<char>, Tag)>, k: Seq<char>, i: int)
    requires
        0 <= i <= s.len(),
        forall|j: int| 0 <= j < i ==> precedes(s[j].0, k),
        i < s.len() ==> !precedes(s[i].0, k),
    ensures
        names_before(s, k) == i,
    decreases i,
{
    if i > 0 {
        let t = s.drop_first();
        assert forall|j: int| 0 <= j < i - 1 implies precedes(t[j].0, k) by {
            assert(t[j] == s[j + 1]);
        }
        lemma_names_before(t, k, i - 1);
    }
}

/// Setting a value and looking it up again: after the value of `k` is set
/// to `v`, looking up `k` gives `v`, every other name gives what it gave
/// before, and the names are still sorted, so still distinct.
pub proof fn lemma_insert_lookup(s: Seq<(Seq<char>, Tag)>, k: Seq<char>, v: Tag, other: Seq<char>)
    requires
        names_sorted(s),
    ensures
        names_sorted(inserted(s, k, v)),
        names_distinct(inserted(s, k, v)),
        lookup(inserted(s, k, v), k) == Some(v),
        other != k ==> lookup(inserted(s, k, v), other) == lookup(s, other),
{
    lemma_sorted_distinct(s);
    let t = inserted(s, k, v);
    match name_index(s, k) {
        Some(i) => {
            assert(0 <= i < s.len() && s[i].0 == k);
            assert(forall|j: int| 0 <= j < t.len() ==> t[j].0 == s[j].0);
            assert(names_sorted(t));
            lemma_sorted_distinct(t);
            assert(t[i].0 == k);
            let j = choose|j: int| 0 <= j < t.len() && t[j].0 == k;
            assert(j == i);
            if other != k {
                if exists|j: int| 0 <= j < s.len() && s[j].0 == other {
                    let a = choose|j: int| 0 <= j < s.len() && s[j].0 == other;
                    assert(0 <= a < t.len() && t[a].0 == other && t[a].1 == s[a].1);
                    let b = choose|j: int| 0 <= j < t.len() && t[j].0 == other;
                    assert(b == a);
                } else {
                    assert forall|j: int| 0 <= j < t.len() implies t[j].0 != other by {
                        assert(t[j].0 == s[j].0);
                    }
                }
            }
        },
        None => {
            let p = names_before(s, k) as int;
            lemma_names_before_bounds(s, k);
            assert(forall|j: int| 0 <= j < s.len() ==> s[j].0 != k);
            assert forall|j: int| 0 <= j < p implies precedes(s[j].0, k) by {
                lemma_names_before_prefix(s, k, j);
            }
            assert forall|j: int| p <= j < s.len() implies precedes(k, s[j].0) by {
                lemma_names_before_stop(s, k);
                lemma_precedes_total(s[p].0, k);
                if j > p {
                    lemma_precedes_transitive(k, s[p].0, s[j].0);
                }
            }
            assert forall|a: int, b: int| 0 <= a < b < t.len() implies precedes(t[a].0, t[b].0) by {
                if b < p {
                    assert(t[a] == s[a] && t[b] == s[b]);
                } else if b == p {
                    assert(t[a] == s[a] && t[b].0 == k);
                } else if a < p {
                    assert(t[a] == s[a] && t[b] == s[b - 1]);
                    lemma_precedes_transitive(s[a].0, k, s[b - 1].0);
                } else if a == p {
                    assert(t[a].0 == k && t[b] == s[b - 1]);
                } else {
                    assert(t[a] == s[a - 1] && t[b] == s[b - 1]);
                }
            }
            lemma_sorted_distinct(t);
            assert(t[p].0 == k);
            let j = choose|j: int| 0 <= j < t.len() && t[j].0 == k;
            assert(j == p);
            if other != k {
                if exists|j: int| 0 <= j < s.len() && s[j].0 == other {
                    let a = choose|j: int| 0 <= j < s.len() && s[j].0 == other;
                    let a2 = if a < p {
                        a
                    } else {
                        a + 1
                    };
                    assert(t[a2] == s[a]);
                    let b = choose|j: int| 0 <= j < t.len() && t[j].0 == other;
                    assert(b == a2);
                } else {
                    assert forall|j: int| 0 <= j < t.len() implies t[j].0 != other by {
                        if j < p {
                            assert(t[j] == s[j]);
                        } else if j > p {
                            assert(t[j] == s[j - 1]);
                        }
                    }
                }
            }
        },
    }
}

proof fn lemma_names_before_bounds(s: Seq<(Seq<char>, Tag)>, k: Seq<char>)
    ensures
        names_before(s, k) <= s.len(),
    decreases s.len(),
{
    if s.len() > 0 && precedes(s[0].0, k) {
        lemma_names_before_bounds(s.drop_first(), k);
    }
}

proof fn lemma_names_before_prefix(s: Seq<(Seq<char>, Tag)>, k: Seq<char>, j: int)
    requires
        0 <= j < names_before(s, k),
    ensures
        precedes(s[j].0, k),
    decreases j,
{
    lemma_names_before_bounds(s, k);
    if j > 0 {
        lemma_names_before_prefix(s.drop_first(), k, j - 1);
        assert(s.drop_first()[j - 1] == s[j]);
    }
}

proof fn lemma_names_before_stop(s: Seq<(Seq<char>, Tag)>, k: Seq<char>)
    ensures
        names_before(s, k) < s.len() ==> !precedes(s[names_before(s, k) as int].0, k),
    decreases s.len(),
{
    if s.len() > 0 && precedes(s[0].0, k) {
        lemma_names_before_stop(s.drop_first(), k);
    }
}

impl View for Compound {
    type V = Seq<(Seq<char>, Tag)>;

    closed spec fn view(&self) -> Seq<(Seq<char>, Tag)> {
        entries_view(self.entries@)
    }
}

/// A compound's view is its entries, each name taken as its text.
pub(crate) proof fn lemma_compound_view(c: &Compound)
    ensures
        c@ == entries_view(c.entries@),
{
}

impl Compound {
    #[verifier::type_invariant]
    spec fn well_formed(self) -> bool {
        names_sorted(entries_view(self.entries@))
    }

    /// A compound with no entries.
    pub fn new() -> (r: Self)
        ensures
            r@ == Seq::<(Seq<char>, Tag)>::empty(),
    {
        let r = Compound { entries: Vec::new() };
        assert(r@ =~= Seq::<(Seq<char>, Tag)>::empty());
        r
    }

    /// The entries, in the order of their names, each as its name and
    /// value.
    pub fn into_entries(self) -> (r: Vec<(String, Tag)>)
        ensures
            entries_view(r@) == self@,
            names_sorted(entries_view(r@)),
    {
        proof {
            use_type_invariant(&self);
        }
        self.entries
    }

    /// Sets the value of the entry named `key`, and gives back the value it
    /// replaced, if there was one.
    pub fn insert(&mut self, key: String, value: Tag) -> (r: Option<Tag>)
        ensures
            names_sorted(final(self)@),
            final(self)@ == inserted(old(self)@, key@, value),
            r == lookup(old(self)@, key@),
    {
        proof {
            use_type_invariant(&*self);
        }
        let mut entries: Vec<(String, Tag)> = Vec::new();
        std::mem::swap(&mut entries, &mut self.entries);
        let ghost old_view = entries_view(entries@);
        proof {
            lemma_sorted_distinct(old_view);
            lemma_insert_lookup(old_view, key@, value, key@);
        }
        let mut i: usize = 0;
        while i < entries.len() && name_precedes(entries[i].0.as_str(), key.as_str())
            invariant
                i <= entries.len(),
                old_view == entries_view(entries@),
                old_view == old(self)@,
                names_sorted(old_view),
                names_distinct(old_view),
                forall|j: int| 0 <= j < i ==> precedes(old_view[j].0, key@),
            decreases entries.len() - i,
        {
            i += 1;
        }
        proof {
            assert forall|j: int| 0 <= j < i implies old_view[j].0 != key@ by {
                lemma_precedes_total(old_view[j].0, key@);
            }
        }
        if i < entries.len() && entries[i].0 == key {
            let old_entry = entries.remove(i);
            assert(old_entry.1 == old_view[i as int].1);
            entries.insert(i, (key, value));
            proof {
                assert(name_index(old_view, key@) == Some(i as int));
                assert(entries_view(entries@) =~= old_view.update(i as int, (key@, value)));
            }
            self.entries = entries;
            return Some(old_entry.1);
        }
        proof {
            assert forall|j: int| i <= j < old_view.len() implies old_view[j].0 != key@ by {
                if j == i {
                } else {
                    lemma_precedes_total(old_view[i as int].0, key@);
                    lemma_precedes_transitive(key@, old_view[i as int].0, old_view[j].0);
                    lemma_precedes_total(key@, old_view[j].0);
                }
            }
            assert(name_index(old_view, key@) is None);
            lemma_names_before(old_view, key@, i as int);
        }
        entries.insert(i, (key, value));
        assert(entries_view(entries@) =~= old_view.insert(i as int, (key@, value)));
        self.entries = entries;
        None
    }
}


/// Whether two float texts stand for equal values, as `==` on floats
/// tells: `NaN` equals nothing, `0` and `-0` are equal, and any other two
/// are equal when their texts are.
pub open spec fn float_text_eq(a: Seq<char>, b: Seq<char>) -> bool {
    if a == seq!['N', 'a', 'N'] || b == seq!['N', 'a', 'N'] {
        false
    } else if (a == seq!['0'] || a == seq!['-', '0']) && (b == seq!['0'] || b == seq!['-', '0']) {
        true
    } else {
        a == b
    }
}

/// Whether two tags are equal: of the same kind, with equal numbers, equal
/// float values, equal texts, and equal tags in the same places.
pub closed spec fn tag_eq(a: Tag, b: Tag) -> bool
    decreases a,
{
    match a {
        Tag::Byte(x) => b matches Tag::Byte(y) && x == y,
        Tag::Short(x) => b matches Tag::Short(y) && x == y,
        Tag::Int(x) => b matches Tag::Int(y) && x == y,
        Tag::Long(x) => b matches Tag::Long(y) && x == y,
        Tag::Float(x) => b matches Tag::Float(y) && float_text_eq(x@, y@),
        Tag::Double(x) => b matches Tag::Double(y) && float_text_eq(x@, y@),
        Tag::ByteArray(x) => b matches Tag::ByteArray(y) && x@ == y@,
        Tag::String(x) => b matches Tag::String(y) && x@ == y@,
        Tag::List(t, x) => b matches Tag::List(u, y) && t == u && tags_eq(x@, y@),
        Tag::Compound(x) => b matches Tag::Compound(y) && entries_eq(x.entries@, y.entries@),
        Tag::IntArray(x) => b matches Tag::IntArray(y) && x@ == y@,
        Tag::LongArray(x) => b matches Tag::LongArray(y) && x@ == y@,
    }
}

/// Whether two lists of tags have equal tags in the same places.
pub closed spec fn tags_eq(a: Seq<Tag>, b: Seq<Tag>) -> bool
    decreases a,
{
    if a.len() != b.len() {
        false
    } else if a.len() == 0 {
        true
    } else {
        tag_eq(a[0], b[0]) && tags_eq(a.drop_first(), b.drop_first())
    }
}

/// Whether two lists of entries have the same names and equal values in
/// the same places.
pub closed spec fn entries_eq(a: Seq<(String, Tag)>, b: Seq<(String, Tag)>) -> bool
    decreases a,
{
    if a.len() != b.len() {
        false
    } else if a.len() == 0 {
        true
    } else {
        a[0].0@ == b[0].0@ && tag_eq(a[0].1, b[0].1) && entries_eq(a.drop_first(), b.drop_first())
    }
}

/// Whether two compounds have the same names with equal values.
pub closed spec fn compound_eq(a: Compound, b: Compound) -> bool {
    entries_eq(a.entries@, b.entries@)
}

proof fn lemma_tags_eq_pointwise(a: Seq<Tag>, b: Seq<Tag>)
    ensures
        tags_eq(a, b) == (a.len() == b.len() && forall|i: int|
            0 <= i < a.len() ==> tag_eq(#[trigger] a[i], b[i])),
    decreases a.len(),
{
    if a.len() == b.len() && a.len() > 0 {
        lemma_tags_eq_pointwise(a.drop_first(), b.drop_first());
        if forall|i: int| 0 <= i < a.len() ==> tag_eq(#[trigger] a[i], b[i]) {
            assert forall|i: int| 0 <= i < a.len() - 1 implies tag_eq(
                #[trigger] a.drop_first()[i],
                b.drop_first()[i],
            ) by {
                assert(a.drop_first()[i] == a[i + 1] && b.drop_first()[i] == b[i + 1]);
            }
        }
        if tags_eq(a, b) {
            assert forall|i: int| 0 <= i < a.len() implies tag_eq(#[trigger] a[i], b[i]) by {
                if i > 0 {
                    assert(a.drop_first()[i - 1] == a[i] && b.drop_first()[i - 1] == b[i]);
                }
            }
        }
    }
}

proof fn lemma_entries_eq_pointwise(a: Seq<(String, Tag)>, b: Seq<(String, Tag)>)
    ensures
        entries_eq(a, b) == (a.len() == b.len() && forall|i: int|
            0 <= i < a.len() ==> (#[trigger] a[i]).0@ == b[i].0@ && tag_eq(a[i].1, b[i].1)),
    decreases a.len(),
{
    if a.len() == b.len() && a.len() > 0 {
        lemma_entries_eq_pointwise(a.drop_first(), b.drop_first());
        if forall|i: int| 0 <= i < a.len() ==> (#[trigger] a[i]).0@ == b[i].0@ && tag_eq(a[i].1, b[i].1) {
            assert forall|i: int| 0 <= i < a.len() - 1 implies (#[trigger] a.drop_first()[i]).0@
                == b.drop_first()[i].0@ && tag_eq(a.drop_first()[i].1, b.drop_first()[i].1) by {
                assert(a.drop_first()[i] == a[i + 1] && b.drop_first()[i] == b[i + 1]);
            }
        }
        if entries_eq(a, b) {
            assert forall|i: int| 0 <= i < a.len() implies (#[trigger] a[i]).0@ == b[i].0@
                && tag_eq(a[i].1, b[i].1) by {
                if i > 0 {
                    assert(a.drop_first()[i - 1] == a[i] && b.drop_first()[i - 1] == b[i]);
                }
            }
        }
    }
}

/// Tags of different types are never equal. Numbers, arrays and strings
/// are equal exactly when their values are; lists when their element types
/// are and they have equal tags in the same places.
pub proof fn lemma_tag_eq_values()
    ensures
        forall|a: Tag, b: Tag|
            tag_type_of(a) != tag_type_of(b) ==> !#[trigger] tag_eq(a, b),
        forall|x: i8, y: i8| #[trigger] tag_eq(Tag::Byte(x), Tag::Byte(y)) == (x == y),
        forall|x: i16, y: i16| #[trigger] tag_eq(Tag::Short(x), Tag::Short(y)) == (x == y),
        forall|x: i32, y: i32| #[trigger] tag_eq(Tag::Int(x), Tag::Int(y)) == (x == y),
        forall|x: i64, y: i64| #[trigger] tag_eq(Tag::Long(x), Tag::Long(y)) == (x == y),
        forall|x: Vec<i8>, y: Vec<i8>|
            #[trigger] tag_eq(Tag::ByteArray(x), Tag::ByteArray(y)) == (x@ == y@),
        forall|x: Vec<i32>, y: Vec<i32>|
            #[trigger] tag_eq(Tag::IntArray(x), Tag::IntArray(y)) == (x@ == y@),
        forall|x: Vec<i64>, y: Vec<i64>|
            #[trigger] tag_eq(Tag::LongArray(x), Tag::LongArray(y)) == (x@ == y@),
        forall|x: String, y: String| #[trigger] tag_eq(Tag::String(x), Tag::String(y)) == (x@ == y@),
        forall|t: TagType, u: TagType, x: Vec<Tag>, y: Vec<Tag>|
            #[trigger] tag_eq(Tag::List(t, x), Tag::List(u, y)) == (t == u && x@.len() == y@.len()
                && forall|i: int| 0 <= i < x@.len() ==> tag_eq(#[trigger] x@[i], y@[i])),
        forall|x: Compound, y: Compound|
            #[trigger] tag_eq(Tag::Compound(x), Tag::Compound(y)) == compound_eq(x, y),
{
    assert forall|t: TagType, u: TagType, x: Vec<Tag>, y: Vec<Tag>|
        #[trigger] tag_eq(Tag::List(t, x), Tag::List(u, y)) == (t == u && x@.len() == y@.len()
            && forall|i: int| 0 <= i < x@.len() ==> tag_eq(#[trigger] x@[i], y@[i])) by {
        lemma_tags_eq_pointwise(x@, y@);
    }
}

/// Two compounds are equal exactly when they hold the same names, in the
/// same order, with equal values; equal compounds have a value for the
/// same names.
pub proof fn lemma_compound_eq(a: Compound, b: Compound)
    ensures
        compound_eq(a, b) == (a@.len() == b@.len() && forall|i: int|
            0 <= i < a@.len() ==> (#[trigger] a@[i]).0 == b@[i].0 && tag_eq(a@[i].1, b@[i].1)),
        compound_eq(a, b) ==> forall|k: Seq<char>|
            (#[trigger] lookup(a@, k) is Some) == (lookup(b@, k) is Some),
{
    lemma_entries_eq_pointwise(a.entries@, b.entries@);
    assert(a@.len() == a.entries@.len() && b@.len() == b.entries@.len());
    assert(forall|i: int| 0 <= i < a@.len() ==> (#[trigger] a@[i]) == (a.entries@[i].0@, a.entries@[i].1));
    assert(forall|i: int| 0 <= i < b@.len() ==> (#[trigger] b@[i]) == (b.entries@[i].0@, b.entries@[i].1));
    if a@.len() == b@.len() {
        if forall|i: int| 0 <= i < a@.len() ==> (#[trigger] a@[i]).0 == b@[i].0 && tag_eq(a@[i].1, b@[i].1) {
            assert forall|i: int| 0 <= i < a.entries@.len() implies (#[trigger] a.entries@[i]).0@
                == b.entries@[i].0@ && tag_eq(a.entries@[i].1, b.entries@[i].1) by {
                assert(a@[i] == (a.entries@[i].0@, a.entries@[i].1));
                assert(b@[i] == (b.entries@[i].0@, b.entries@[i].1));
            }
        }
        if compound_eq(a, b) {
            assert forall|i: int| 0 <= i < a@.len() implies (#[trigger] a@[i]).0 == b@[i].0 && tag_eq(
                a@[i].1,
                b@[i].1,
            ) by {
                assert(a.entries@[i].0@ == b.entries@[i].0@);
            }
        }
    }
    if compound_eq(a, b) {
        assert forall|k: Seq<char>| (#[trigger] lookup(a@, k) is Some) == (lookup(b@, k) is Some) by {
            if exists|i: int| 0 <= i < a@.len() && a@[i].0 == k {
                let i = choose|i: int| 0 <= i < a@.len() && a@[i].0 == k;
                assert(b@[i].0 == k);
            }
            if exists|i: int| 0 <= i < b@.len() && b@[i].0 == k {
                let i = choose|i: int| 0 <= i < b@.len() && b@[i].0 == k;
                assert(a@[i].0 == k);
            }
        }
    }
}

/// Float and double tags are equal as their values are under `==` on
/// floats.
pub proof fn lemma_float_tags_eq(a: String, b: String)
    ensures
        tag_eq(Tag::Float(a), Tag::Float(b)) == float_text_eq(a@, b@),
        tag_eq(Tag::Double(a), Tag::Double(b)) == float_text_eq(a@, b@),
{
}

fn float_texts_equal(a: &String, b: &String) -> (r: bool)
    ensures
        r == float_text_eq(a@, b@),
{
    let x = chars_of(a.as_str());
    let y = chars_of(b.as_str());
    let x_nan = x.len() == 3 && x[0] == 'N' && x[1] == 'a' && x[2] == 'N';
    let y_nan = y.len() == 3 && y[0] == 'N' && y[1] == 'a' && y[2] == 'N';
    assert(x_nan == (a@ == seq!['N', 'a', 'N'])) by {
        if x_nan {
            assert(a@ =~= seq!['N', 'a', 'N']);
        }
    }
    assert(y_nan == (b@ == seq!['N', 'a', 'N'])) by {
        if y_nan {
            assert(b@ =~= seq!['N', 'a', 'N']);
        }
    }
    let x_zero = (x.len() == 1 && x[0] == '0') || (x.len() == 2 && x[0] == '-' && x[1] == '0');
    let y_zero = (y.len() == 1 && y[0] == '0') || (y.len() == 2 && y[0] == '-' && y[1] == '0');
    assert(x_zero == (a@ == seq!['0'] || a@ == seq!['-', '0'])) by {
        if x.len() == 1 && x[0] == '0' {
            assert(a@ =~= seq!['0']);
        }
        if x.len() == 2 && x[0] == '-' && x[1] == '0' {
            assert(a@ =~= seq!['-', '0']);
        }
    }
    assert(y_zero == (b@ == seq!['0'] || b@ == seq!['-', '0'])) by {
        if y.len() == 1 && y[0] == '0' {
            assert(b@ =~= seq!['0']);
        }
        if y.len() == 2 && y[0] == '-' && y[1] == '0' {
            assert(b@ =~= seq!['-', '0']);
        }
    }
    if x_nan || y_nan {
        false
    } else if x_zero && y_zero {
        true
    } else {
        *a == *b
    }
}

/// Whether two tags are equal.
pub fn tags_equal(a: &Tag, b: &Tag) -> (r: bool)
    ensures
        r == tag_eq(*a, *b),
    decreases a,
{
    match a {
        Tag::Byte(x) => match b {
            Tag::Byte(y) => *x == *y,
            _ => false,
        },
        Tag::Short(x) => match b {
            Tag::Short(y) => *x == *y,
            _ => false,
        },
        Tag::Int(x) => match b {
            Tag::Int(y) => *x == *y,
            _ => false,
        },
        Tag::Long(x) => match b {
            Tag::Long(y) => *x == *y,
            _ => false,
        },
        Tag::Float(x) => match b {
            Tag::Float(y) => float_texts_equal(x, y),
            _ => false,
        },
        Tag::Double(x) => match b {
            Tag::Double(y) => float_texts_equal(x, y),
            _ => false,
        },
        Tag::ByteArray(x) => match b {
            Tag::ByteArray(y) => {
                let r = *x == *y;
                assert(r == (x@ == y@)) by {
                    if r {
                        assert(x@ =~= y@);
                    }
                }
                r
            },
            _ => false,
        },
        Tag::String(x) => match b {
            Tag::String(y) => *x == *y,
            _ => false,
        },
        Tag::IntArray(x) => match b {
            Tag::IntArray(y) => {
                let r = *x == *y;
                assert(r == (x@ == y@)) by {
                    if r {
                        assert(x@ =~= y@);
                    }
                }
                r
            },
            _ => false,
        },
        Tag::LongArray(x) => match b {
            Tag::LongArray(y) => {
                let r = *x == *y;
                assert(r == (x@ == y@)) by {
                    if r {
                        assert(x@ =~= y@);
                    }
                }
                r
            },
            _ => false,
        },
        Tag::List(t, x) => match b {
            Tag::List(u, y) => {
                if *t != *u || x.len() != y.len() {
                    return false;
                }
                let mut i: usize = 0;
                assert(x@.skip(0) =~= x@ && y@.skip(0) =~= y@);
                while i < x.len()
                    invariant
                        i <= x.len(),
                        x.len() == y.len(),
                        *a == Tag::List(*t, *x),
                        tag_eq(*a, *b) == tags_eq(x@.skip(i as int), y@.skip(i as int)),
                    decreases x.len() - i,
                {
                    proof {
                        assert(decreases_to!(*a => a->List_1));
                        assert(decreases_to!(*x => x@));
                        assert(decreases_to!(x@ => x@[i as int]));
                        assert(x@.skip(i as int).drop_first() =~= x@.skip(i + 1));
                        assert(y@.skip(i as int).drop_first() =~= y@.skip(i + 1));
                    }
                    if !tags_equal(&x[i], &y[i]) {
                        return false;
                    }
                    i += 1;
                }
                true
            },
            _ => false,
        },
        Tag::Compound(x) => match b {
            Tag::Compound(y) => {
                proof {
                    assert(decreases_to!(*a => a->Compound_0));
                    assert(decreases_to!(*x => x.entries));
                }
                entries_equal(&x.entries, &y.entries)
            },
            _ => false,
        },
    }
}

/// Whether two lists of entries have the same names and equal values in
/// the same places.
fn entries_equal(e: &Vec<(String, Tag)>, f: &Vec<(String, Tag)>) -> (r: bool)
    ensures
        r == entries_eq(e@, f@),
    decreases e,
{
    if e.len() != f.len() {
        return false;
    }
    let mut i: usize = 0;
    assert(e@.skip(0) =~= e@ && f@.skip(0) =~= f@);
    while i < e.len()
        invariant
            i <= e.len(),
            e.len() == f.len(),
            entries_eq(e@, f@) == entries_eq(e@.skip(i as int), f@.skip(i as int)),
        decreases e.len() - i,
    {
        proof {
            assert(decreases_to!(*e => e@));
            assert(decreases_to!(e@ => e@[i as int]));
            assert(decreases_to!(e@[i as int] => e@[i as int].1));
            assert(e@.skip(i as int).drop_first() =~= e@.skip(i + 1));
            assert(f@.skip(i as int).drop_first() =~= f@.skip(i + 1));
        }
        if !(e[i].0 == f[i].0) || !tags_equal(&e[i].1, &f[i].1) {
            return false;
        }
        i += 1;
    }
    true
}

impl PartialEq for Tag {
    fn eq(&self, other: &Self) -> (r: bool) {
        tags_equal(self, other)
    }
}

impl vstd::std_specs::cmp::PartialEqSpecImpl for Tag {
    open spec fn obeys_eq_spec() -> bool {
        true
    }

    open spec fn eq_spec(&self, other: &Tag) -> bool {
        tag_eq(*self, *other)
    }
}

impl PartialEq for Compound {
    fn eq(&self, other: &Self) -> (r: bool) {
        entries_equal(&self.entries, &other.entries)
    }
}

impl vstd::std_specs::cmp::PartialEqSpecImpl for Compound {
    open spec fn obeys_eq_spec() -> bool {
        true
    }

    open spec fn eq_spec(&self, other: &Compound) -> bool {
        compound_eq(*self, *other)
    }
}

} // verus!
