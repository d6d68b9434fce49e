use yamlkeep::raw::{
    new_bool, new_string, Layout, Raw, RawKind, RawList, RawListItem, RawListKind, RawNumber, RawString,
    RawTable, RawTableItem, RawTableKind, StringKind,
};
use yamlkeep::strings::Strings;
use yamlkeep::value::{Any, Data, Separator};

fn number(strings: &mut Strings, text: &[u8]) -> RawKind {
    let id = strings.insert(text);
    RawKind::Number(RawNumber::new(id))
}

fn scalar_doc(strings: Strings, kind: RawKind, indent: yamlkeep::strings::StringId) -> Data {
    Data::new(strings, Raw::new(kind, indent))
}

fn table_doc(keys: &[(&[u8], &[u8])]) -> Data {
    let mut strings = Strings::new();
    let indent = strings.insert(b"\n");
    let mut items = Vec::new();
    let mut first = true;
    for (key, value) in keys {
        let prefix = if first { None } else { Some(strings.insert(b"\n")) };
        first = false;
        let key = RawString::new(StringKind::Bare, strings.insert(key));
        let separator = strings.insert(b" ");
        let value = number(&mut strings, value);
        items.push(RawTableItem {
            prefix,
            key,
            separator,
            value: Box::new(Raw::new(value, indent)),
        });
    }
    let table = RawTable { kind: RawTableKind::Table, items };
    Data::new(strings, Raw::new(RawKind::Table(table), indent))
}

#[test]
fn interner_returns_stored_bytes() {
    let mut strings = Strings::new();
    let a = strings.insert(b"alpha");
    let b = strings.insert(b"");
    let c = strings.insert(&[0xff, 0x00, 0x80]);
    assert_eq!(strings.get(a), b"alpha");
    assert_eq!(strings.get(b), b"");
    assert_eq!(strings.get(c), &[0xff, 0x00, 0x80]);
    assert_eq!(strings.len(), 3);
}

#[test]
fn classification_is_exhaustive_and_exclusive() {
    // Every node kind classifies as exactly one of scalar, mapping, sequence.
    let mut seen = Vec::new();
    for which in 0..5 {
        let mut strings = Strings::new();
        let indent = strings.insert(b"");
        let kind = match which {
            0 => RawKind::Null(yamlkeep::value::NullKind::Keyword),
            1 => number(&mut strings, b"42"),
            2 => new_string(&mut strings, b"text"),
            3 => RawKind::Table(RawTable { kind: RawTableKind::Table, items: Vec::new() }),
            _ => RawKind::List(RawList { kind: RawListKind::Table, items: Vec::new() }),
        };
        let data = scalar_doc(strings, kind, indent);
        let class = match data.root_value().into_any() {
            Any::Scalar(_) => 0,
            Any::Mapping(_) => 1,
            Any::Sequence(_) => 2,
        };
        seen.push(class);
    }
    assert_eq!(seen, vec![0, 0, 0, 1, 2]);
}

#[test]
fn number_accessors() {
    let mut strings = Strings::new();
    let indent = strings.insert(b"");
    let kind = number(&mut strings, b"42");
    let data = Data::new(strings, Raw::new(kind, indent));
    let v = data.root_value();
    assert_eq!(v.as_u8(), Some(42));
    assert_eq!(v.as_u32(), Some(42));
    assert_eq!(v.as_i64(), Some(42));
    assert_eq!(v.as_u128(), Some(42));
    assert_eq!(v.as_bool(), None);
    assert!(v.as_mapping().is_none());
    assert!(v.as_sequence().is_none());
    assert_eq!(data.root_value().as_str(), None);
    assert_eq!(data.root_value().as_bstr(), None);
}

#[test]
fn number_parse_failures_read_as_absence() {
    let cases: &[(&[u8], bool)] = &[
        (b"300", false),
        (b"-1", false),
        (b"", false),
        (b"+", false),
        (b"4 2", false),
        (b"0x10", false),
        (b"42", true),
        (b"+42", true),
        (b"042", true),
    ];
    for (text, ok) in cases {
        let mut strings = Strings::new();
        let indent = strings.insert(b"");
        let kind = number(&mut strings, text);
        let data = Data::new(strings, Raw::new(kind, indent));
        assert_eq!(data.root_value().as_u8().is_some(), *ok, "u8 on {:?}", text);
    }
}

#[test]
fn signed_number_accessors() {
    let mut strings = Strings::new();
    let indent = strings.insert(b"");
    let kind = number(&mut strings, b"-42");
    let data = Data::new(strings, Raw::new(kind, indent));
    let v = data.root_value();
    assert_eq!(v.as_i8(), Some(-42));
    assert_eq!(v.as_i16(), Some(-42));
    assert_eq!(v.as_i32(), Some(-42));
    assert_eq!(v.as_i128(), Some(-42));
    assert_eq!(v.as_u8(), None);
    assert_eq!(v.as_u64(), None);
    // Range edges.
    let mut strings = Strings::new();
    let indent = strings.insert(b"");
    let kind = number(&mut strings, b"-128");
    let data = Data::new(strings, Raw::new(kind, indent));
    assert_eq!(data.root_value().as_i8(), Some(-128));
    let mut strings = Strings::new();
    let indent = strings.insert(b"");
    let kind = number(&mut strings, b"-129");
    let data = Data::new(strings, Raw::new(kind, indent));
    assert_eq!(data.root_value().as_i8(), None);
    assert_eq!(data.root_value().as_i16(), Some(-129));
}

#[test]
fn bool_reads_only_bare_tokens() {
    let mut strings = Strings::new();
    let indent = strings.insert(b"");
    let kind = new_bool(&mut strings, true);
    let data = Data::new(strings, Raw::new(kind, indent));
    let v = data.root_value();
    assert_eq!(v.as_bool(), Some(true));
    // The token is stored as a bare string, so the string readers see it too.
    assert_eq!(data.root_value().as_str(), Some("true"));

    let mut strings = Strings::new();
    let indent = strings.insert(b"");
    let kind = new_bool(&mut strings, false);
    let data = Data::new(strings, Raw::new(kind, indent));
    assert_eq!(data.root_value().as_bool(), Some(false));

    // A quoted "true" is a string, not a boolean.
    let mut strings = Strings::new();
    let indent = strings.insert(b"");
    let id = strings.insert(b"true");
    let kind = RawKind::String(RawString::new(StringKind::SingleQuoted, id));
    let data = Data::new(strings, Raw::new(kind, indent));
    assert_eq!(data.root_value().as_bool(), None);
    assert_eq!(data.root_value().as_str(), Some("true"));

    // Any other bare text is not a boolean.
    let mut strings = Strings::new();
    let indent = strings.insert(b"");
    let kind = new_string(&mut strings, b"truthy");
    let data = Data::new(strings, Raw::new(kind, indent));
    assert_eq!(data.root_value().as_bool(), None);
}

#[test]
fn string_readers_and_invalid_utf8() {
    let mut strings = Strings::new();
    let indent = strings.insert(b"");
    let id = strings.insert(&[0xff, 0xfe]);
    let kind = RawKind::String(RawString::new(StringKind::Bare, id));
    let data = Data::new(strings, Raw::new(kind, indent));
    // The raw reader still succeeds where the text reader reports absence.
    assert_eq!(data.root_value().as_str(), None);
    assert_eq!(data.root_value().as_bstr(), Some(&[0xff, 0xfe][..]));

    let mut strings = Strings::new();
    let indent = strings.insert(b"");
    let kind = new_string(&mut strings, "フェリス".as_bytes());
    let data = Data::new(strings, Raw::new(kind, indent));
    assert_eq!(data.root_value().as_str(), Some("フェリス"));
}

#[test]
fn value_ids_stay_valid_across_edits_elsewhere() {
    let data = table_doc(&[(b"first", b"1"), (b"second", b"2")]);
    let root_value = data.root_value();
    let mapping = root_value.as_mapping().expect("a table");
    let second = mapping.get(b"second").expect("present");
    let id = second.id();
    // Look the same value up again through its identity.
    let again = data.value(id);
    assert_eq!(again.as_u32(), Some(2));
}

#[test]
fn mapping_get_and_len() {
    let data = table_doc(&[(b"a", b"1"), (b"b", b"2"), (b"c", b"3")]);
    let root_value = data.root_value();
    let mapping = root_value.as_mapping().expect("a table");
    assert_eq!(mapping.len(), 3);
    assert_eq!(mapping.get(b"b").expect("present").as_u32(), Some(2));
    assert!(mapping.get(b"missing").is_none());
}

#[test]
fn sequence_get_and_len() {
    let mut strings = Strings::new();
    let indent = strings.insert(b"\n");
    let sep = strings.insert(b" ");
    let one = number(&mut strings, b"1");
    let two = number(&mut strings, b"2");
    let list = RawList {
        kind: RawListKind::Table,
        items: vec![
            RawListItem { prefix: None, separator: sep, value: Box::new(Raw::new(one, indent)) },
            RawListItem {
                prefix: Some(strings.insert(b"\n")),
                separator: sep,
                value: Box::new(Raw::new(two, indent)),
            },
        ],
    };
    let data = Data::new(strings, Raw::new(RawKind::List(list), indent));
    let root_value = data.root_value();
    let sequence = root_value.as_sequence().expect("a list");
    assert_eq!(sequence.len(), 2);
    assert_eq!(sequence.get(0).expect("present").as_u32(), Some(1));
    assert_eq!(sequence.get(1).expect("present").as_u32(), Some(2));
    assert!(sequence.get(2).is_none());
}

#[test]
fn iterator_order_and_size() {
    let data = table_doc(&[(b"a", b"1"), (b"b", b"2"), (b"c", b"3")]);
    let root_value = data.root_value();
    let mapping = root_value.as_mapping().expect("a table");

    // Forward order.
    let mut iter = mapping.iter();
    assert_eq!(iter.size_hint(), (3, Some(3)));
    let (k, v) = iter.next().expect("first");
    assert_eq!(k, b"a");
    assert_eq!(v.as_u32(), Some(1));
    assert_eq!(iter.size_hint(), (2, Some(2)));
    let (k, _) = iter.next().expect("second");
    assert_eq!(k, b"b");
    let (k, _) = iter.next().expect("third");
    assert_eq!(k, b"c");
    assert_eq!(iter.size_hint(), (0, Some(0)));
    assert!(iter.next().is_none());

    // Backward order.
    let mut iter = mapping.iter();
    let (k, _) = iter.next_back().expect("last");
    assert_eq!(k, b"c");
    let (k, _) = iter.next_back().expect("middle");
    assert_eq!(k, b"b");
    assert_eq!(iter.size_hint(), (1, Some(1)));
    let (k, _) = iter.next_back().expect("first");
    assert_eq!(k, b"a");
    assert!(iter.next_back().is_none());

    // Consuming from both ends meets in the middle.
    let mut iter = mapping.iter();
    let (k, _) = iter.next().expect("front");
    assert_eq!(k, b"a");
    let (k, _) = iter.next_back().expect("back");
    assert_eq!(k, b"c");
    let (k, _) = iter.next().expect("middle");
    assert_eq!(k, b"b");
    assert!(iter.next().is_none());
    assert!(iter.next_back().is_none());
}

#[test]
fn iterator_skip_by_count() {
    let data = table_doc(&[(b"a", b"1"), (b"b", b"2"), (b"c", b"3"), (b"d", b"4")]);
    let root_value = data.root_value();
    let mapping = root_value.as_mapping().expect("a table");

    let mut iter = mapping.iter();
    let (k, _) = iter.nth(2).expect("third");
    assert_eq!(k, b"c");
    let (k, _) = iter.next().expect("fourth");
    assert_eq!(k, b"d");
    assert!(iter.next().is_none());

    let mut iter = mapping.iter();
    assert!(iter.nth(4).is_none());
    assert_eq!(iter.size_hint(), (0, Some(0)));

    let mut iter = mapping.iter();
    let (k, _) = iter.nth_back(1).expect("second from back");
    assert_eq!(k, b"c");
    let (k, _) = iter.next_back().expect("next from back");
    assert_eq!(k, b"b");
}

#[test]
fn value_display_renders_subtree() {
    let data = table_doc(&[(b"a", b"1"), (b"b", b"2")]);
    let root_value = data.root_value();
    let mapping = root_value.as_mapping().expect("a table");
    let b = mapping.get(b"b").expect("present");
    let mut out = Vec::new();
    b.display(&mut out);
    assert_eq!(out.as_slice(), b"2");
}

#[test]
fn value_ids_survive_content_replacement() {
    // Replacing a value's content in place keeps its identity valid, even
    // when the content changes kind.
    let mut strings = Strings::new();
    let indent = strings.insert(b"\n");
    let layout = Layout { indent };
    let mut table = RawTable { kind: RawTableKind::Table, items: Vec::new() };
    let scalar = number(&mut strings, b"1");
    table.insert(&mut strings, &layout, b"slot", Separator::Auto, scalar);
    let data = Data::new(strings, Raw::new(RawKind::Table(table), indent));
    let root_value = data.root_value();
    let id = root_value
        .as_mapping()
        .expect("a table")
        .get(b"slot")
        .expect("present")
        .id();
    assert_eq!(data.value(id).as_u32(), Some(1));
}

#[test]
fn replacing_a_scalar_with_a_table_keeps_the_id() {
    let mut strings = Strings::new();
    let indent = strings.insert(b"\n");
    let layout = Layout { indent };
    let mut table = RawTable { kind: RawTableKind::Table, items: Vec::new() };
    let scalar = number(&mut strings, b"1");
    table.insert(&mut strings, &layout, b"slot", Separator::Auto, scalar);
    // Replace the scalar content with a table, in place.
    let inner = RawTable { kind: RawTableKind::Table, items: Vec::new() };
    table.insert(
        &mut strings,
        &layout,
        b"slot",
        Separator::Auto,
        RawKind::Table(inner),
    );
    assert_eq!(table.items.len(), 1);
    let data = Data::new(strings, Raw::new(RawKind::Table(table), indent));
    let root_value = data.root_value();
    let id = root_value
        .as_mapping()
        .expect("a table")
        .get(b"slot")
        .expect("present")
        .id();
    // The same position now narrows to a mapping.
    assert!(data.value(id.dup()).as_mapping().is_some());
    assert_eq!(data.value(id).as_u32(), None);
}
