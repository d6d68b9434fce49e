use yamlkeep::raw::{
    Layout, Raw, RawKind, RawList, RawListItem, RawListKind, RawNumber, RawString, RawTable,
    RawTableItem, RawTableKind, StringKind,
};
use yamlkeep::strings::Strings;
use yamlkeep::value::{Data, Separator};

fn number(strings: &mut Strings, text: &[u8]) -> RawKind {
    let id = strings.insert(text);
    RawKind::Number(RawNumber::new(id))
}

fn entry(
    strings: &mut Strings,
    prefix: Option<&[u8]>,
    key: &[u8],
    sep: &[u8],
    value: RawKind,
) -> RawTableItem {
    let prefix = prefix.map(|p| strings.insert(p));
    let key = RawString::new(StringKind::Bare, strings.insert(key));
    let separator = strings.insert(sep);
    let indent = strings.insert(b"\n");
    RawTableItem {
        prefix,
        key,
        separator,
        value: Box::new(Raw::new(value, indent)),
    }
}

#[test]
fn replace_existing_key_is_idempotent() {
    let mut strings = Strings::new();
    let indent = strings.insert(b"\n");
    let layout = Layout { indent };
    let v1 = number(&mut strings, b"1");
    let e_a = entry(&mut strings, None, b"a", b" ", v1);
    let e_b_v = number(&mut strings, b"9");
    let e_b = entry(&mut strings, Some(b"\n"), b"b", b" ", e_b_v);
    let mut table = RawTable {
        kind: RawTableKind::Table,
        items: vec![e_a, e_b],
    };
    let first = number(&mut strings, b"41");
    let i1 = table.insert(&mut strings, &layout, b"a", Separator::Auto, first);
    let second = number(&mut strings, b"42");
    let i2 = table.insert(&mut strings, &layout, b"a", Separator::Auto, second);
    assert_eq!(i1, 0);
    assert_eq!(i2, 0);
    assert_eq!(table.items.len(), 2);
    assert!(table.items[0].prefix.is_none());
    // A read of the key now sees the second value.
    let root = Raw::new(RawKind::Table(table), indent);
    let data = Data::new(strings, root);
    let root_value = data.root_value();
    let mapping = root_value.as_mapping().expect("a table");
    let got = mapping.get(b"a").expect("key present");
    assert_eq!(got.as_u32(), Some(42));
}

#[test]
fn append_preserves_prior_text() {
    let mut strings = Strings::new();
    let indent = strings.insert(b"\n");
    let layout = Layout { indent };
    let v1 = number(&mut strings, b"1");
    let e_a = entry(&mut strings, None, b"a", b" ", v1);
    let v2 = number(&mut strings, b"2");
    let e_b = entry(&mut strings, Some(b"\n"), b"b", b"   ", v2);
    let mut table = RawTable {
        kind: RawTableKind::Table,
        items: vec![e_a, e_b],
    };
    let v3 = number(&mut strings, b"3");
    let index = table.insert(&mut strings, &layout, b"c", Separator::Auto, v3);
    assert_eq!(index, 2);
    // The new entry takes the container indentation as its prefix and the
    // last entry's separator.
    let root = Raw::new(RawKind::Table(table), indent);
    let data = Data::new(strings, root);
    assert_eq!(data.render().as_slice(), b"a: 1\nb:   2\nc:   3");
}

#[test]
fn append_into_empty_table_uses_single_space() {
    let mut strings = Strings::new();
    let indent = strings.insert(b"\n");
    let layout = Layout { indent };
    let mut table = RawTable {
        kind: RawTableKind::Table,
        items: Vec::new(),
    };
    let v = number(&mut strings, b"7");
    let index = table.insert(&mut strings, &layout, b"only", Separator::Auto, v);
    assert_eq!(index, 0);
    let root = Raw::new(RawKind::Table(table), indent);
    let data = Data::new(strings, root);
    assert_eq!(data.render().as_slice(), b"only: 7");
}

#[test]
fn custom_separator_is_stored_verbatim() {
    let mut strings = Strings::new();
    let indent = strings.insert(b"\n");
    let layout = Layout { indent };
    let mut table = RawTable {
        kind: RawTableKind::Table,
        items: Vec::new(),
    };
    let v = number(&mut strings, b"7");
    table.insert(&mut strings, &layout, b"k", Separator::Custom(b"\t"), v);
    let root = Raw::new(RawKind::Table(table), indent);
    let data = Data::new(strings, root);
    assert_eq!(data.render().as_slice(), b"k:\t7");
}

#[test]
fn push_keeps_compact_list_compact() {
    let mut strings = Strings::new();
    let indent = strings.insert(b"");
    let layout = Layout { indent };
    let suffix = strings.insert(b"");
    let empty_sep = strings.insert(b"");
    let space_sep = strings.insert(b" ");
    let one = number(&mut strings, b"1");
    let two = number(&mut strings, b"2");
    let three = number(&mut strings, b"3");
    let mut list = RawList {
        kind: RawListKind::Inline {
            trailing: false,
            suffix,
        },
        items: vec![
            RawListItem {
                prefix: None,
                separator: empty_sep,
                value: Box::new(Raw::new(one, indent)),
            },
            RawListItem {
                prefix: None,
                separator: space_sep,
                value: Box::new(Raw::new(two, indent)),
            },
            RawListItem {
                prefix: None,
                separator: space_sep,
                value: Box::new(Raw::new(three, indent)),
            },
        ],
    };
    let four = number(&mut strings, b"4");
    list.push(&mut strings, &layout, Separator::Auto, four);
    assert!(matches!(list.kind, RawListKind::Inline { .. }));
    let root = Raw::new(RawKind::List(list), indent);
    let data = Data::new(strings, root);
    assert_eq!(data.render().as_slice(), b"[1, 2, 3, 4]");
}

#[test]
fn push_keeps_trailing_comma() {
    let mut strings = Strings::new();
    let indent = strings.insert(b"");
    let layout = Layout { indent };
    let suffix = strings.insert(b"");
    let empty_sep = strings.insert(b"");
    let space_sep = strings.insert(b" ");
    let one = number(&mut strings, b"1");
    let two = number(&mut strings, b"2");
    let mut list = RawList {
        kind: RawListKind::Inline {
            trailing: true,
            suffix,
        },
        items: vec![
            RawListItem {
                prefix: None,
                separator: empty_sep,
                value: Box::new(Raw::new(one, indent)),
            },
            RawListItem {
                prefix: None,
                separator: space_sep,
                value: Box::new(Raw::new(two, indent)),
            },
        ],
    };
    let three = number(&mut strings, b"3");
    list.push(&mut strings, &layout, Separator::Auto, three);
    let root = Raw::new(RawKind::List(list), indent);
    let data = Data::new(strings, root);
    assert_eq!(data.render().as_slice(), b"[1, 2, 3,]");
}

#[test]
fn push_keeps_expanded_list_expanded() {
    let mut strings = Strings::new();
    let indent = strings.insert(b"\n");
    let layout = Layout { indent };
    let space_sep = strings.insert(b" ");
    let one = number(&mut strings, b"1");
    let mut list = RawList {
        kind: RawListKind::Table,
        items: vec![RawListItem {
            prefix: None,
            separator: space_sep,
            value: Box::new(Raw::new(one, indent)),
        }],
    };
    let two = number(&mut strings, b"2");
    list.push(&mut strings, &layout, Separator::Auto, two);
    assert!(matches!(list.kind, RawListKind::Table));
    let root = Raw::new(RawKind::List(list), indent);
    let data = Data::new(strings, root);
    assert_eq!(data.render().as_slice(), b"- 1\n- 2");
}

#[test]
fn push_into_empty_list_has_no_prefix() {
    let mut strings = Strings::new();
    let indent = strings.insert(b"\n");
    let layout = Layout { indent };
    let mut list = RawList {
        kind: RawListKind::Table,
        items: Vec::new(),
    };
    let one = number(&mut strings, b"1");
    list.push(&mut strings, &layout, Separator::Auto, one);
    assert!(list.items[0].prefix.is_none());
    let root = Raw::new(RawKind::List(list), indent);
    let data = Data::new(strings, root);
    assert_eq!(data.render().as_slice(), b"- 1");
}

#[test]
fn insert_keeps_compact_table_compact() {
    let mut strings = Strings::new();
    let indent = strings.insert(b" ");
    let layout = Layout { indent };
    let suffix = strings.insert(b"");
    let sep = strings.insert(b" ");
    let one = number(&mut strings, b"1");
    let key_a = RawString::new(StringKind::Bare, strings.insert(b"a"));
    let mut table = RawTable {
        kind: RawTableKind::Inline { trailing: false, suffix },
        items: vec![RawTableItem {
            prefix: None,
            key: key_a,
            separator: sep,
            value: Box::new(Raw::new(one, indent)),
        }],
    };
    let two = number(&mut strings, b"2");
    let index = table.insert(&mut strings, &layout, b"b", Separator::Auto, two);
    assert_eq!(index, 1);
    assert!(matches!(table.kind, RawTableKind::Inline { .. }));
    let root = Raw::new(RawKind::Table(table), indent);
    let data = Data::new(strings, root);
    assert_eq!(data.render().as_slice(), b"{a: 1, b: 2}");
}
