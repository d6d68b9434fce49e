use yamlkeep::raw::{
    new_string, unescape_double_quoted, unescape_single_quoted, Raw, RawKind, RawList,
    RawListItem, RawListKind, RawNumber, RawString, RawTable, RawTableItem, RawTableKind,
    StringKind,
};
use yamlkeep::strings::Strings;
use yamlkeep::value::{Data, NullKind};

fn bare(strings: &mut Strings, text: &[u8]) -> RawKind {
    let id = strings.insert(text);
    RawKind::String(RawString::new(StringKind::Bare, id))
}

fn number(strings: &mut Strings, text: &[u8]) -> RawKind {
    let id = strings.insert(text);
    RawKind::Number(RawNumber::new(id))
}

#[test]
fn round_trip_flat_table() {
    // The tree a scanner would build for this document renders back
    // byte-identically.
    let source: &[u8] = b"name: foo\ncount:   12";
    let mut strings = Strings::new();
    let indent = strings.insert(b"\n");
    let key_name = strings.insert(b"name");
    let sep1 = strings.insert(b" ");
    let value_foo = bare(&mut strings, b"foo");
    let prefix2 = strings.insert(b"\n");
    let key_count = strings.insert(b"count");
    let sep2 = strings.insert(b"   ");
    let value_12 = number(&mut strings, b"12");
    let table = RawTable {
        kind: RawTableKind::Table,
        items: vec![
            RawTableItem {
                prefix: None,
                key: RawString::new(StringKind::Bare, key_name),
                separator: sep1,
                value: Box::new(Raw::new(value_foo, indent)),
            },
            RawTableItem {
                prefix: Some(prefix2),
                key: RawString::new(StringKind::Bare, key_count),
                separator: sep2,
                value: Box::new(Raw::new(value_12, indent)),
            },
        ],
    };
    let root = Raw::new(RawKind::Table(table), indent);
    let data = Data::new(strings, root);
    assert_eq!(data.render().as_slice(), source);
}

#[test]
fn round_trip_nested_list() {
    let source: &[u8] = b"list:\n  - one\n  - two";
    let mut strings = Strings::new();
    let indent = strings.insert(b"\n  ");
    let item_sep = strings.insert(b" ");
    let one = bare(&mut strings, b"one");
    let two = bare(&mut strings, b"two");
    let first_prefix = strings.insert(b"\n  ");
    let list = RawList {
        kind: RawListKind::Table,
        items: vec![
            RawListItem {
                prefix: Some(first_prefix),
                separator: item_sep,
                value: Box::new(Raw::new(one, indent)),
            },
            RawListItem {
                prefix: Some(first_prefix),
                separator: item_sep,
                value: Box::new(Raw::new(two, indent)),
            },
        ],
    };
    let key_list = strings.insert(b"list");
    let empty_sep = strings.insert(b"");
    let root_indent = strings.insert(b"\n");
    let table = RawTable {
        kind: RawTableKind::Table,
        items: vec![RawTableItem {
            prefix: None,
            key: RawString::new(StringKind::Bare, key_list),
            separator: empty_sep,
            value: Box::new(Raw::new(RawKind::List(list), indent)),
        }],
    };
    let root = Raw::new(RawKind::Table(table), root_indent);
    let data = Data::new(strings, root);
    assert_eq!(data.render().as_slice(), source);
}

#[test]
fn round_trip_inline_containers() {
    let source: &[u8] = b"{a: 1, b: 2}";
    let mut strings = Strings::new();
    let indent = strings.insert(b"");
    let key_a = strings.insert(b"a");
    let key_b = strings.insert(b"b");
    let sep = strings.insert(b" ");
    let one = number(&mut strings, b"1");
    let two = number(&mut strings, b"2");
    let space_prefix = strings.insert(b" ");
    let suffix = strings.insert(b"");
    let table = RawTable {
        kind: RawTableKind::Inline { trailing: false, suffix },
        items: vec![
            RawTableItem {
                prefix: None,
                key: RawString::new(StringKind::Bare, key_a),
                separator: sep,
                value: Box::new(Raw::new(one, indent)),
            },
            RawTableItem {
                prefix: Some(space_prefix),
                key: RawString::new(StringKind::Bare, key_b),
                separator: sep,
                value: Box::new(Raw::new(two, indent)),
            },
        ],
    };
    let root = Raw::new(RawKind::Table(table), indent);
    let data = Data::new(strings, root);
    assert_eq!(data.render().as_slice(), source);
}

#[test]
fn null_kinds_render() {
    let mut out = Vec::new();
    NullKind::Keyword.display(&mut out);
    assert_eq!(out.as_slice(), b"null");
    out.clear();
    NullKind::Tilde.display(&mut out);
    assert_eq!(out.as_slice(), b"~");
    out.clear();
    NullKind::Empty.display(&mut out);
    assert_eq!(out.as_slice(), b"");
}

#[test]
fn single_quote_rendering_and_decoding() {
    let mut strings = Strings::new();
    let indent = strings.insert(b"");
    let kind = new_string(&mut strings, b"It's a bargain!");
    let raw = Raw::new(kind, indent);
    let mut out = Vec::new();
    raw.display(&strings, &mut out);
    assert_eq!(out.as_slice(), b"'It''s a bargain!'");
    // Decoding the rendered interior yields the original content.
    let interior = &out[1..out.len() - 1];
    let decoded = unescape_single_quoted(interior).expect("well-formed");
    assert_eq!(decoded.as_slice(), b"It's a bargain!");
}

#[test]
fn double_quote_rendering_and_decoding() {
    let mut strings = Strings::new();
    let indent = strings.insert(b"");
    let kind = new_string(&mut strings, b"line\nnul\0end");
    let raw = Raw::new(kind, indent);
    let mut out = Vec::new();
    raw.display(&strings, &mut out);
    assert_eq!(out.as_slice(), b"\"line\\nnul\\0end\"");
    let interior = &out[1..out.len() - 1];
    let decoded = unescape_double_quoted(interior).expect("well-formed");
    assert_eq!(decoded.as_slice(), b"line\nnul\0end");
}

#[test]
fn double_quote_escapes_all_controls() {
    let mut strings = Strings::new();
    let indent = strings.insert(b"");
    let content: &[u8] = b"\x00\x07\x08\t\n\x0b\x0c\r\x1b\"\x01\x7f";
    let id = strings.insert(content);
    let raw = Raw::new(
        RawKind::String(RawString::new(StringKind::DoubleQuoted, id)),
        indent,
    );
    let mut out = Vec::new();
    raw.display(&strings, &mut out);
    assert_eq!(
        out.as_slice(),
        b"\"\\0\\a\\b\\t\\n\\v\\f\\r\\e\\\"\\x01\\x7f\"".as_slice()
    );
    let interior = &out[1..out.len() - 1];
    let decoded = unescape_double_quoted(interior).expect("well-formed");
    assert_eq!(decoded.as_slice(), content);
}

#[test]
fn non_ascii_passes_through() {
    let mut strings = Strings::new();
    let indent = strings.insert(b"");
    let content = "caf\u{e9} \u{1f600}".as_bytes();
    let id = strings.insert(content);
    let raw = Raw::new(
        RawKind::String(RawString::new(StringKind::DoubleQuoted, id)),
        indent,
    );
    let mut out = Vec::new();
    raw.display(&strings, &mut out);
    let mut expected = Vec::new();
    expected.push(b'"');
    expected.extend_from_slice(content);
    expected.push(b'"');
    assert_eq!(out, expected);
}

#[test]
fn malformed_quoted_text_decodes_to_nothing() {
    assert!(unescape_single_quoted(b"lone ' quote").is_none());
    assert!(unescape_double_quoted(b"bad \\q escape").is_none());
    assert!(unescape_double_quoted(b"truncated \\").is_none());
    assert!(unescape_double_quoted(b"bad hex \\xg1").is_none());
    assert!(unescape_double_quoted(b"short hex \\x1").is_none());
}

#[test]
fn string_kind_detection() {
    let mut strings = Strings::new();
    assert!(matches!(
        new_string(&mut strings, b"plain"),
        RawKind::String(s) if s.kind == StringKind::Bare
    ));
    assert!(matches!(
        new_string(&mut strings, b"It's quoted"),
        RawKind::String(s) if s.kind == StringKind::SingleQuoted
    ));
    assert!(matches!(
        new_string(&mut strings, b" leading space"),
        RawKind::String(s) if s.kind == StringKind::SingleQuoted
    ));
    assert!(matches!(
        new_string(&mut strings, b""),
        RawKind::String(s) if s.kind == StringKind::SingleQuoted
    ));
    assert!(matches!(
        new_string(&mut strings, b"has\nnewline"),
        RawKind::String(s) if s.kind == StringKind::DoubleQuoted
    ));
}
