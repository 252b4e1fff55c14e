use ocelot_nbt::{Compound, NamedTag, Tag, TagType};

#[test]
fn tag_fromid_toid() {
    for i in 0..=12 {
        assert_eq!(TagType::from_id(i).map(|tag| tag.as_id()), Some(i));
    }
}

#[test]
fn from_id_rejects_numbers_past_long_array() {
    for i in 13..=255u8 {
        assert_eq!(TagType::from_id(i), None);
    }
    assert_eq!(TagType::from_id(0), Some(TagType::End));
    assert_eq!(TagType::from_id(8), Some(TagType::String));
    assert_eq!(TagType::LongArray.as_id(), 12);
}

#[test]
fn tag_type_of_each_variant() {
    let tags = vec![
        (Tag::Byte(1), TagType::Byte),
        (Tag::Short(1), TagType::Short),
        (Tag::Int(1), TagType::Int),
        (Tag::Long(1), TagType::Long),
        (Tag::Float(1.5f32.to_string()), TagType::Float),
        (Tag::Double(2.5f64.to_string()), TagType::Double),
        (Tag::ByteArray(vec![1]), TagType::ByteArray),
        (Tag::String("x".to_string()), TagType::String),
        (Tag::List(TagType::Byte, vec![]), TagType::List),
        (Tag::Compound(Compound::new()), TagType::Compound),
        (Tag::IntArray(vec![]), TagType::IntArray),
        (Tag::LongArray(vec![]), TagType::LongArray),
    ];
    for (tag, ty) in tags {
        assert_eq!(tag.tag_type(), ty);
        assert_ne!(tag.tag_type(), TagType::End);
    }
}

#[test]
fn compound_insert_replaces_and_returns_old_value() {
    let mut c = Compound::new();
    assert_eq!(c.insert("a".to_string(), Tag::Byte(1)), None);
    assert_eq!(c.insert("b".to_string(), Tag::Byte(2)), None);
    assert_eq!(c.insert("a".to_string(), Tag::Byte(3)), Some(Tag::Byte(1)));
    assert_eq!(c.insert("a".to_string(), Tag::Int(4)), Some(Tag::Byte(3)));
    assert_eq!(c.insert("b".to_string(), Tag::Byte(5)), Some(Tag::Byte(2)));
}

#[test]
fn named_tag_holds_name_and_tag() {
    let n = NamedTag("level".to_string(), Tag::Int(3));
    assert_eq!(n.0, "level");
    assert_eq!(n.1, Tag::Int(3));
}

#[test]
fn compound_entries_sorted_by_name() {
    let mut c = Compound::new();
    c.insert("z".to_string(), Tag::Byte(1));
    c.insert("a".to_string(), Tag::Byte(2));
    c.insert("z".to_string(), Tag::Byte(3));
    assert_eq!(
        c.into_entries(),
        vec![("a".to_string(), Tag::Byte(2)), ("z".to_string(), Tag::Byte(3))]
    );
    assert_eq!(Compound::new().into_entries(), vec![]);
}

#[test]
fn compounds_with_the_same_entries_are_equal() {
    let mut a = Compound::new();
    a.insert("x".to_string(), Tag::Byte(1));
    a.insert("ab".to_string(), Tag::Byte(2));
    a.insert("a".to_string(), Tag::Byte(3));
    let mut b = Compound::new();
    b.insert("a".to_string(), Tag::Byte(3));
    b.insert("x".to_string(), Tag::Byte(1));
    b.insert("ab".to_string(), Tag::Byte(2));
    assert_eq!(a, b);
    b.insert("ab".to_string(), Tag::Byte(9));
    assert_ne!(a, b);
    let names: Vec<String> = a.into_entries().into_iter().map(|(n, _)| n).collect();
    assert_eq!(names, vec!["a".to_string(), "ab".to_string(), "x".to_string()]);
}

#[test]
fn float_tags_compare_as_floats() {
    let nan = Tag::Float(f32::NAN.to_string());
    assert_ne!(nan, Tag::Float(f32::NAN.to_string()));
    assert_eq!(Tag::Float(0.0f32.to_string()), Tag::Float((-0.0f32).to_string()));
    assert_eq!(Tag::Double((-0.0f64).to_string()), Tag::Double(0.0f64.to_string()));
    assert_eq!(Tag::Double(0.1f64.to_string()), Tag::Double(0.1f64.to_string()));
    assert_ne!(Tag::Double(0.1f64.to_string()), Tag::Double(0.2f64.to_string()));
    assert_ne!(Tag::Double(1.0f64.to_string()), Tag::Float(1.0f32.to_string()));
    assert_ne!(Tag::Double(f64::NAN.to_string()), Tag::Double(f64::NAN.to_string()));
}

#[test]
fn nested_tags_compare_element_by_element() {
    let a = Tag::List(TagType::Float, vec![Tag::Float("1".to_string()), Tag::Float("-0".to_string())]);
    let b = Tag::List(TagType::Float, vec![Tag::Float("1".to_string()), Tag::Float("0".to_string())]);
    assert_eq!(a, b);
    let c = Tag::List(TagType::Double, vec![Tag::Float("1".to_string()), Tag::Float("0".to_string())]);
    assert_ne!(b, c);
    let d = Tag::List(TagType::Float, vec![Tag::Float("1".to_string())]);
    assert_ne!(b, d);
    let mut x = Compound::new();
    x.insert("k".to_string(), Tag::Double("NaN".to_string()));
    let mut y = Compound::new();
    y.insert("k".to_string(), Tag::Double("NaN".to_string()));
    assert_ne!(Tag::Compound(x), Tag::Compound(y));
    assert_eq!(Tag::ByteArray(vec![1, 2]), Tag::ByteArray(vec![1, 2]));
    assert_ne!(Tag::ByteArray(vec![1, 2]), Tag::ByteArray(vec![1]));
    assert_ne!(Tag::Byte(1), Tag::Short(1));
}
