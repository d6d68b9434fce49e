//! The raw document tree: tagged nodes plus the layout metadata that makes
//! re-rendering byte-faithful, the rendering rules themselves, and the
//! in-place mutation operations on tables and lists.

use vstd::prelude::*;

use crate::strings::{spec_extends, wf_prefix, wf_sid, StringId, Strings};
use crate::value::{NullKind, Separator};

verus! {

broadcast use vstd::std_specs::vec::group_vec_axioms;

/// How a string value is quoted when rendered.  Quoting governs escape
/// handling on render only; the stored text is always the logical, unescaped
/// content.
#[derive(Debug, Clone, Copy, PartialEq, Eq, Structural)]
pub enum StringKind {
    /// An unquoted string, rendered verbatim.
    Bare,
    /// A single-quoted string; embedded `'` are doubled.
    SingleQuoted,
    /// A double-quoted string; control characters are escaped.
    DoubleQuoted,
}

/// Layout metadata carried by every node: the indentation fragment that
/// applies to new entries introduced under it.
#[derive(Debug, Clone, Copy, PartialEq, Eq, Structural)]
pub struct Layout {
    pub indent: StringId,
}

/// A raw node: a tagged value together with its layout.
#[derive(Debug)]
pub struct Raw {
    pub kind: RawKind,
    pub layout: Layout,
}

/// A tagged raw value.
#[derive(Debug)]
pub enum RawKind {
    /// A null value.
    Null(NullKind),
    /// A number, kept as its original text.
    Number(RawNumber),
    /// A string.
    String(RawString),
    /// An ordered key/value table.
    Table(RawTable),
    /// An ordered list.
    List(RawList),
}

/// A number value: an opaque text span holding the numeric literal, never
/// normalized on store.
#[derive(Debug, Clone, Copy, PartialEq, Eq, Structural)]
pub struct RawNumber {
    pub string: StringId,
}

impl RawNumber {
    /// A number from its stored text.
    pub fn new(string: StringId) -> (r: RawNumber)
        ensures
            r == (RawNumber { string }),
    {
        RawNumber { string }
    }
}

/// A string value: its logical text and the quoting used when rendering.
#[derive(Debug, Clone, Copy, PartialEq, Eq, Structural)]
pub struct RawString {
    pub kind: StringKind,
    pub string: StringId,
}

impl RawString {
    /// A string from its quoting kind and stored text.
    pub fn new(kind: StringKind, string: StringId) -> (r: RawString)
        ensures
            r == (RawString { kind, string }),
    {
        RawString { kind, string }
    }
}

/// The kind of a raw list.
#[derive(Debug, Clone, Copy, PartialEq, Eq, Structural)]
pub enum RawListKind {
    /// An expanded block list, one `- item` per line.
    Table,
    /// A compact inline list, `[a, b]`.
    Inline {
        /// Whether a trailing `,` separator was present.
        trailing: bool,
        /// The inner suffix, before the closing `]`.
        suffix: StringId,
    },
}

/// An element in a list.
#[derive(Debug)]
pub struct RawListItem {
    /// The text preceding the item on its own line; absent for the first
    /// item of a container.
    pub prefix: Option<StringId>,
    /// The text between the item marker and the value.
    pub separator: StringId,
    /// The item's value, owned exclusively by this entry.
    pub value: Box<Raw>,
}

/// A list node.
#[derive(Debug)]
pub struct RawList {
    /// Whether the list renders expanded or inline; fixed once created.
    pub kind: RawListKind,
    /// The items, in document order.
    pub items: Vec<RawListItem>,
}

/// An element in a table.
#[derive(Debug)]
pub struct RawTableItem {
    /// The text preceding the entry on its own line; absent for the first
    /// entry of a container.
    pub prefix: Option<StringId>,
    /// The entry's key, rendered verbatim.
    pub key: RawString,
    /// The text between the `:` and the value.
    pub separator: StringId,
    /// The entry's value, owned exclusively by this entry.
    pub value: Box<Raw>,
}

/// The kind of a raw table.
#[derive(Debug, Clone, Copy, PartialEq, Eq, Structural)]
pub enum RawTableKind {
    /// An expanded table, one `key: value` per line.
    Table,
    /// A compact inline table, `{a: 1, b: 2}`.
    Inline {
        /// Whether a trailing `,` separator was present.
        trailing: bool,
        /// The inner suffix, before the closing `}`.
        suffix: StringId,
    },
}

/// A table node.
#[derive(Debug)]
pub struct RawTable {
    /// Whether the table renders expanded or inline; fixed once created.
    pub kind: RawTableKind,
    /// The entries, in document order.
    pub items: Vec<RawTableItem>,
}

// ----------------------------------------------------------------------------
// Well-formedness: every string handle in a tree refers to a fragment of the
// interner it is read against.

pub open spec fn wf_titem(item: RawTableItem, n: int) -> bool
    decreases item,
{
    wf_prefix(item.prefix, n) && wf_sid(item.key.string, n) && wf_sid(item.separator, n)
        && wf_raw(*item.value, n)
}

pub open spec fn wf_titems(items: Seq<RawTableItem>, n: int) -> bool
    decreases items,
{
    forall|i: int| 0 <= i < items.len() ==> wf_titem(#[trigger] items[i], n)
}

pub open spec fn wf_litem(item: RawListItem, n: int) -> bool
    decreases item,
{
    wf_prefix(item.prefix, n) && wf_sid(item.separator, n) && wf_raw(*item.value, n)
}

pub open spec fn wf_litems(items: Seq<RawListItem>, n: int) -> bool
    decreases items,
{
    forall|i: int| 0 <= i < items.len() ==> wf_litem(#[trigger] items[i], n)
}

pub open spec fn wf_tkind(kind: RawTableKind, n: int) -> bool {
    match kind {
        RawTableKind::Table => true,
        RawTableKind::Inline { trailing, suffix } => wf_sid(suffix, n),
    }
}

pub open spec fn wf_lkind(kind: RawListKind, n: int) -> bool {
    match kind {
        RawListKind::Table => true,
        RawListKind::Inline { trailing, suffix } => wf_sid(suffix, n),
    }
}

pub open spec fn wf_table(table: RawTable, n: int) -> bool
    decreases table,
{
    wf_tkind(table.kind, n) && wf_titems(table.items@, n)
}

pub open spec fn wf_list(list: RawList, n: int) -> bool
    decreases list,
{
    wf_lkind(list.kind, n) && wf_litems(list.items@, n)
}

pub open spec fn wf_kind(kind: RawKind, n: int) -> bool
    decreases kind,
{
    match kind {
        RawKind::Null(_) => true,
        RawKind::Number(number) => wf_sid(number.string, n),
        RawKind::String(string) => wf_sid(string.string, n),
        RawKind::Table(table) => wf_table(table, n),
        RawKind::List(list) => wf_list(list, n),
    }
}

pub open spec fn wf_raw(raw: Raw, n: int) -> bool
    decreases raw,
{
    wf_sid(raw.layout.indent, n) && wf_kind(raw.kind, n)
}

/// A well-formed tree stays well-formed when the interner grows.
pub proof fn lemma_wf_raw_grow(raw: Raw, n1: int, n2: int)
    requires
        wf_raw(raw, n1),
        n1 <= n2,
    ensures
        wf_raw(raw, n2),
    decreases raw,
{
    lemma_wf_kind_grow(raw.kind, n1, n2);
}

pub proof fn lemma_wf_kind_grow(kind: RawKind, n1: int, n2: int)
    requires
        wf_kind(kind, n1),
        n1 <= n2,
    ensures
        wf_kind(kind, n2),
    decreases kind,
{
    match kind {
        RawKind::Table(table) => {
            assert forall|i: int| 0 <= i < table.items@.len() implies wf_titem(
                #[trigger] table.items@[i],
                n2,
            ) by {
                assert(wf_titem(table.items@[i], n1));
                lemma_wf_raw_grow(*table.items@[i].value, n1, n2);
            }
        }
        RawKind::List(list) => {
            assert forall|i: int| 0 <= i < list.items@.len() implies wf_litem(
                #[trigger] list.items@[i],
                n2,
            ) by {
                assert(wf_litem(list.items@[i], n1));
                lemma_wf_raw_grow(*list.items@[i].value, n1, n2);
            }
        }
        _ => {}
    }
}

// ----------------------------------------------------------------------------
// The rendering rules, as a specification.  Rendering replays stored
// fragments verbatim; the only text the renderer itself contributes is the
// fixed punctuation of each form.

/// The text of a null value: its keyword, a tilde, or nothing.
pub open spec fn spec_null_text(kind: NullKind) -> Seq<u8> {
    match kind {
        NullKind::Keyword => seq![0x6eu8, 0x75u8, 0x6cu8, 0x6cu8],
        NullKind::Tilde => seq![0x7eu8],
        NullKind::Empty => Seq::<u8>::empty(),
    }
}

/// Whether a byte is an ASCII control byte (including delete).
pub open spec fn spec_is_control(b: u8) -> bool {
    b < 0x20 || b == 0x7f
}

/// The lower-case hexadecimal digit for a value below sixteen.
pub open spec fn spec_hex_digit(n: u8) -> u8 {
    if n < 10 {
        (0x30u8 + n) as u8
    } else {
        (0x61u8 + (n - 10)) as u8
    }
}

/// The single-quoted rendering of one byte: a quote is doubled, anything
/// else passes through.
pub open spec fn spec_escape_single_byte(b: u8) -> Seq<u8> {
    if b == 0x27u8 {
        seq![0x27u8, 0x27u8]
    } else {
        seq![b]
    }
}

/// The single-quoted rendering of a text, without the surrounding quotes.
pub open spec fn spec_escape_single(s: Seq<u8>) -> Seq<u8>
    decreases s.len(),
{
    if s.len() == 0 {
        Seq::<u8>::empty()
    } else {
        spec_escape_single_byte(s[0]) + spec_escape_single(s.drop_first())
    }
}

/// The double-quoted rendering of one byte: the named control characters and
/// the double quote take their short escape, any other ASCII control byte a
/// two-digit hexadecimal escape, and everything else passes through.
pub open spec fn spec_escape_double_byte(b: u8) -> Seq<u8> {
    if b == 0x00 {
        seq![0x5cu8, 0x30u8]
    } else if b == 0x07 {
        seq![0x5cu8, 0x61u8]
    } else if b == 0x08 {
        seq![0x5cu8, 0x62u8]
    } else if b == 0x09 {
        seq![0x5cu8, 0x74u8]
    } else if b == 0x0a {
        seq![0x5cu8, 0x6eu8]
    } else if b == 0x0b {
        seq![0x5cu8, 0x76u8]
    } else if b == 0x0c {
        seq![0x5cu8, 0x66u8]
    } else if b == 0x0d {
        seq![0x5cu8, 0x72u8]
    } else if b == 0x1b {
        seq![0x5cu8, 0x65u8]
    } else if b == 0x22u8 {
        seq![0x5cu8, 0x22u8]
    } else if spec_is_control(b) {
        seq![0x5cu8, 0x78u8, spec_hex_digit(b / 16), spec_hex_digit(b % 16)]
    } else {
        seq![b]
    }
}

/// The double-quoted rendering of a text, without the surrounding quotes.
pub open spec fn spec_escape_double(s: Seq<u8>) -> Seq<u8>
    decreases s.len(),
{
    if s.len() == 0 {
        Seq::<u8>::empty()
    } else {
        spec_escape_double_byte(s[0]) + spec_escape_double(s.drop_first())
    }
}

/// The rendered text of a string value under a quoting kind.
pub open spec fn spec_string_text(kind: StringKind, s: Seq<u8>) -> Seq<u8> {
    match kind {
        StringKind::Bare => s,
        StringKind::SingleQuoted => seq![0x27u8] + spec_escape_single(s) + seq![0x27u8],
        StringKind::DoubleQuoted => seq![0x22u8] + spec_escape_double(s) + seq![0x22u8],
    }
}

/// The text of an optional line prefix.
pub open spec fn spec_prefix_text(prefix: Option<StringId>, strings: Seq<Seq<u8>>) -> Seq<u8> {
    match prefix {
        Some(id) => strings[id@],
        None => Seq::<u8>::empty(),
    }
}

/// The rendered text of one table entry: its line prefix, the key verbatim,
/// a colon, the separator, then the value.
pub open spec fn spec_render_titem(item: RawTableItem, strings: Seq<Seq<u8>>) -> Seq<u8>
    decreases item,
{
    spec_prefix_text(item.prefix, strings) + strings[item.key.string@] + seq![0x3au8]
        + strings[item.separator@] + spec_render(*item.value, strings)
}

/// The rendered text of a run of table entries; in inline form a comma
/// stands between consecutive entries.
pub open spec fn spec_render_titems(items: Seq<RawTableItem>, strings: Seq<Seq<u8>>, inline: bool) -> Seq<u8>
    decreases items,
{
    if items.len() == 0 {
        Seq::<u8>::empty()
    } else {
        spec_render_titem(items[0], strings) + (
        if inline && items.len() > 1 {
            seq![0x2cu8]
        } else {
            Seq::<u8>::empty()
        }) + spec_render_titems(items.drop_first(), strings, inline)
    }
}

/// The rendered text of one list item: its line prefix, a `-` marker in
/// expanded form, the separator, then the value.
pub open spec fn spec_render_litem(item: RawListItem, strings: Seq<Seq<u8>>, marker: bool) -> Seq<u8>
    decreases item,
{
    spec_prefix_text(item.prefix, strings) + (
    if marker {
        seq![0x2du8]
    } else {
        Seq::<u8>::empty()
    }) + strings[item.separator@] + spec_render(*item.value, strings)
}

/// The rendered text of a run of list items; in inline form a comma stands
/// between consecutive items, in expanded form each carries a `-` marker.
pub open spec fn spec_render_litems(items: Seq<RawListItem>, strings: Seq<Seq<u8>>, inline: bool) -> Seq<u8>
    decreases items,
{
    if items.len() == 0 {
        Seq::<u8>::empty()
    } else {
        spec_render_litem(items[0], strings, !inline) + (
        if inline && items.len() > 1 {
            seq![0x2cu8]
        } else {
            Seq::<u8>::empty()
        }) + spec_render_litems(items.drop_first(), strings, inline)
    }
}

/// The rendered text of a table node.
pub open spec fn spec_render_table(table: RawTable, strings: Seq<Seq<u8>>) -> Seq<u8>
    decreases table,
{
    match table.kind {
        RawTableKind::Table => spec_render_titems(table.items@, strings, false),
        RawTableKind::Inline { trailing, suffix } => seq![0x7bu8] + spec_render_titems(
            table.items@,
            strings,
            true,
        ) + (
        if trailing {
            seq![0x2cu8]
        } else {
            Seq::<u8>::empty()
        }) + strings[suffix@] + seq![0x7du8],
    }
}

/// The rendered text of a list node.
pub open spec fn spec_render_list(list: RawList, strings: Seq<Seq<u8>>) -> Seq<u8>
    decreases list,
{
    match list.kind {
        RawListKind::Table => spec_render_litems(list.items@, strings, false),
        RawListKind::Inline { trailing, suffix } => seq![0x5bu8] + spec_render_litems(
            list.items@,
            strings,
            true,
        ) + (
        if trailing {
            seq![0x2cu8]
        } else {
            Seq::<u8>::empty()
        }) + strings[suffix@] + seq![0x5du8],
    }
}

/// The rendered text of a tagged value.
pub open spec fn spec_render_kind(kind: RawKind, strings: Seq<Seq<u8>>) -> Seq<u8>
    decreases kind,
{
    match kind {
        RawKind::Null(null) => spec_null_text(null),
        RawKind::Number(number) => strings[number.string@],
        RawKind::String(string) => spec_string_text(string.kind, strings[string.string@]),
        RawKind::Table(table) => spec_render_table(table, strings),
        RawKind::List(list) => spec_render_list(list, strings),
    }
}

/// The rendered text of a node.
pub open spec fn spec_render(raw: Raw, strings: Seq<Seq<u8>>) -> Seq<u8>
    decreases raw,
{
    spec_render_kind(raw.kind, strings)
}

// ----------------------------------------------------------------------------
// Rendering only reads fragments the tree refers to, so it is unchanged when
// the interner grows at the end.

pub proof fn lemma_render_titems_grow(
    items: Seq<RawTableItem>,
    s1: Seq<Seq<u8>>,
    s2: Seq<Seq<u8>>,
    inline: bool,
)
    requires
        wf_titems(items, s1.len() as int),
        spec_extends(s2, s1),
    ensures
        spec_render_titems(items, s2, inline) == spec_render_titems(items, s1, inline),
    decreases items,
{
    if items.len() > 0 {
        assert(wf_titem(items[0], s1.len() as int));
        lemma_render_grow(*items[0].value, s1, s2);
        assert(spec_prefix_text(items[0].prefix, s2) == spec_prefix_text(items[0].prefix, s1));
        assert(spec_render_titem(items[0], s2) == spec_render_titem(items[0], s1));
        assert(wf_titems(items.drop_first(), s1.len() as int)) by {
            assert forall|i: int| 0 <= i < items.drop_first().len() implies wf_titem(
                #[trigger] items.drop_first()[i],
                s1.len() as int,
            ) by {
                assert(items.drop_first()[i] == items[i + 1]);
            }
        }
        lemma_render_titems_grow(items.drop_first(), s1, s2, inline);
        assert(spec_render_titems(items, s2, inline) =~= spec_render_titems(items, s1, inline));
    } else {
        assert(spec_render_titems(items, s2, inline) =~= spec_render_titems(items, s1, inline));
    }
}

pub proof fn lemma_render_litems_grow(
    items: Seq<RawListItem>,
    s1: Seq<Seq<u8>>,
    s2: Seq<Seq<u8>>,
    inline: bool,
)
    requires
        wf_litems(items, s1.len() as int),
        spec_extends(s2, s1),
    ensures
        spec_render_litems(items, s2, inline) == spec_render_litems(items, s1, inline),
    decreases items,
{
    if items.len() > 0 {
        assert(wf_litem(items[0], s1.len() as int));
        lemma_render_grow(*items[0].value, s1, s2);
        assert(spec_prefix_text(items[0].prefix, s2) == spec_prefix_text(items[0].prefix, s1));
        assert(spec_render_litem(items[0], s2, !inline) == spec_render_litem(items[0], s1, !inline));
        assert(wf_litems(items.drop_first(), s1.len() as int)) by {
            assert forall|i: int| 0 <= i < items.drop_first().len() implies wf_litem(
                #[trigger] items.drop_first()[i],
                s1.len() as int,
            ) by {
                assert(items.drop_first()[i] == items[i + 1]);
            }
        }
        lemma_render_litems_grow(items.drop_first(), s1, s2, inline);
        assert(spec_render_litems(items, s2, inline) =~= spec_render_litems(items, s1, inline));
    } else {
        assert(spec_render_litems(items, s2, inline) =~= spec_render_litems(items, s1, inline));
    }
}

pub proof fn lemma_render_kind_grow(kind: RawKind, s1: Seq<Seq<u8>>, s2: Seq<Seq<u8>>)
    requires
        wf_kind(kind, s1.len() as int),
        spec_extends(s2, s1),
    ensures
        spec_render_kind(kind, s2) == spec_render_kind(kind, s1),
    decreases kind,
{
    match kind {
        RawKind::Table(table) => {
            lemma_render_titems_grow(table.items@, s1, s2, table.kind is Inline);
        }
        RawKind::List(list) => {
            lemma_render_litems_grow(list.items@, s1, s2, list.kind is Inline);
        }
        _ => {}
    }
}

/// Rendering a well-formed node is unchanged by growing the interner.
pub proof fn lemma_render_grow(raw: Raw, s1: Seq<Seq<u8>>, s2: Seq<Seq<u8>>)
    requires
        wf_raw(raw, s1.len() as int),
        spec_extends(s2, s1),
    ensures
        spec_render(raw, s2) == spec_render(raw, s1),
    decreases raw,
{
    lemma_render_kind_grow(raw.kind, s1, s2);
}

/// Appending an entry renders as the old run followed by the new entry, with
/// a comma joining them in inline form.
pub proof fn lemma_render_titems_snoc(
    items: Seq<RawTableItem>,
    item: RawTableItem,
    strings: Seq<Seq<u8>>,
    inline: bool,
)
    ensures
        spec_render_titems(items.push(item), strings, inline) == if items.len() == 0 {
            spec_render_titem(item, strings)
        } else {
            spec_render_titems(items, strings, inline) + (
            if inline {
                seq![0x2cu8]
            } else {
                Seq::<u8>::empty()
            }) + spec_render_titem(item, strings)
        },
    decreases items,
{
    let pushed = items.push(item);
    if items.len() == 0 {
        assert(pushed[0] == item);
        assert(pushed.drop_first() =~= Seq::<RawTableItem>::empty());
        assert(spec_render_titems(Seq::<RawTableItem>::empty(), strings, inline)
            == Seq::<u8>::empty());
        assert(spec_render_titems(pushed, strings, inline) =~= spec_render_titem(item, strings));
    } else {
        assert(pushed[0] == items[0]);
        assert(pushed.drop_first() =~= items.drop_first().push(item));
        lemma_render_titems_snoc(items.drop_first(), item, strings, inline);
        let comma: Seq<u8> = if inline {
            seq![0x2cu8]
        } else {
            Seq::<u8>::empty()
        };
        assert(pushed.len() > 1);
        assert(spec_render_titems(pushed, strings, inline) == spec_render_titem(items[0], strings)
            + comma + spec_render_titems(items.drop_first().push(item), strings, inline));
        assert(spec_render_titems(items, strings, inline) == spec_render_titem(items[0], strings)
            + (
        if inline && items.len() > 1 {
            seq![0x2cu8]
        } else {
            Seq::<u8>::empty()
        }) + spec_render_titems(items.drop_first(), strings, inline));
        assert(spec_render_titems(pushed, strings, inline) =~= spec_render_titems(
            items,
            strings,
            inline,
        ) + (
        if inline {
            seq![0x2cu8]
        } else {
            Seq::<u8>::empty()
        }) + spec_render_titem(item, strings));
    }
}

/// Appending an item renders as the old run followed by the new item, with a
/// comma joining them in inline form.
pub proof fn lemma_render_litems_snoc(
    items: Seq<RawListItem>,
    item: RawListItem,
    strings: Seq<Seq<u8>>,
    inline: bool,
)
    ensures
        spec_render_litems(items.push(item), strings, inline) == if items.len() == 0 {
            spec_render_litem(item, strings, !inline)
        } else {
            spec_render_litems(items, strings, inline) + (
            if inline {
                seq![0x2cu8]
            } else {
                Seq::<u8>::empty()
            }) + spec_render_litem(item, strings, !inline)
        },
    decreases items,
{
    let pushed = items.push(item);
    if items.len() == 0 {
        assert(pushed[0] == item);
        assert(pushed.drop_first() =~= Seq::<RawListItem>::empty());
        assert(spec_render_litems(Seq::<RawListItem>::empty(), strings, inline)
            == Seq::<u8>::empty());
        assert(spec_render_litems(pushed, strings, inline) =~= spec_render_litem(
            item,
            strings,
            !inline,
        ));
    } else {
        assert(pushed[0] == items[0]);
        assert(pushed.drop_first() =~= items.drop_first().push(item));
        lemma_render_litems_snoc(items.drop_first(), item, strings, inline);
        let comma: Seq<u8> = if inline {
            seq![0x2cu8]
        } else {
            Seq::<u8>::empty()
        };
        assert(pushed.len() > 1);
        assert(spec_render_litems(pushed, strings, inline) == spec_render_litem(
            items[0],
            strings,
            !inline,
        ) + comma + spec_render_litems(items.drop_first().push(item), strings, inline));
        assert(spec_render_litems(items, strings, inline) == spec_render_litem(
            items[0],
            strings,
            !inline,
        ) + (
        if inline && items.len() > 1 {
            seq![0x2cu8]
        } else {
            Seq::<u8>::empty()
        }) + spec_render_litems(items.drop_first(), strings, inline));
        assert(spec_render_litems(pushed, strings, inline) =~= spec_render_litems(
            items,
            strings,
            inline,
        ) + (
        if inline {
            seq![0x2cu8]
        } else {
            Seq::<u8>::empty()
        }) + spec_render_litem(item, strings, !inline));
    }
}

// ----------------------------------------------------------------------------
// The executable renderer.

/// Appends a byte slice to the output buffer.
fn append_bytes(out: &mut Vec<u8>, bytes: &[u8])
    ensures
        final(out)@ == old(out)@ + bytes@,
{
    let mut i: usize = 0;
    while i < bytes.len()
        invariant
            i <= bytes@.len(),
            out@ == old(out)@ + bytes@.subrange(0, i as int),
        decreases bytes@.len() - i,
    {
        out.push(bytes[i]);
        proof {
            assert(old(out)@ + bytes@.subrange(0, i + 1) =~= (old(out)@ + bytes@.subrange(
                0,
                i as int,
            )).push(bytes@[i as int]));
        }
        i = i + 1;
    }
    proof {
        assert(bytes@.subrange(0, bytes@.len() as int) =~= bytes@);
    }
}

/// The lower-case hexadecimal digit for a value below sixteen.
fn hex_digit(n: u8) -> (r: u8)
    requires
        n < 16,
    ensures
        r == spec_hex_digit(n),
{
    if n < 10 {
        0x30 + n
    } else {
        0x61 + (n - 10)
    }
}

/// Writes the single-quoted escaping of `bytes`, without surrounding quotes.
fn escape_single_quoted(bytes: &[u8], out: &mut Vec<u8>)
    ensures
        final(out)@ == old(out)@ + spec_escape_single(bytes@),
{
    proof {
        assert(bytes@.skip(0) =~= bytes@);
    }
    let mut i: usize = 0;
    while i < bytes.len()
        invariant
            i <= bytes@.len(),
            out@ + spec_escape_single(bytes@.skip(i as int)) == old(out)@ + spec_escape_single(
                bytes@,
            ),
        decreases bytes@.len() - i,
    {
        let ghost rest = bytes@.skip(i as int);
        let b = bytes[i];
        if b == 0x27 {
            out.push(0x27);
            out.push(0x27);
        } else {
            out.push(b);
        }
        proof {
            assert(rest[0] == bytes@[i as int]);
            assert(rest.drop_first() =~= bytes@.skip(i + 1));
            assert(out@ + spec_escape_single(bytes@.skip(i + 1)) =~= old(out)@
                + spec_escape_single(bytes@));
        }
        i = i + 1;
    }
    proof {
        assert(bytes@.skip(bytes@.len() as int) =~= Seq::<u8>::empty());
        assert(out@ =~= old(out)@ + spec_escape_single(bytes@));
    }
}

/// Writes the double-quoted escaping of `bytes`, without surrounding quotes.
fn escape_double_quoted(bytes: &[u8], out: &mut Vec<u8>)
    ensures
        final(out)@ == old(out)@ + spec_escape_double(bytes@),
{
    proof {
        assert(bytes@.skip(0) =~= bytes@);
    }
    let mut i: usize = 0;
    while i < bytes.len()
        invariant
            i <= bytes@.len(),
            out@ + spec_escape_double(bytes@.skip(i as int)) == old(out)@ + spec_escape_double(
                bytes@,
            ),
        decreases bytes@.len() - i,
    {
        let ghost rest = bytes@.skip(i as int);
        let b = bytes[i];
        if b == 0x00 {
            out.push(0x5c);
            out.push(0x30);
        } else if b == 0x07 {
            out.push(0x5c);
            out.push(0x61);
        } else if b == 0x08 {
            out.push(0x5c);
            out.push(0x62);
        } else if b == 0x09 {
            out.push(0x5c);
            out.push(0x74);
        } else if b == 0x0a {
            out.push(0x5c);
            out.push(0x6e);
        } else if b == 0x0b {
            out.push(0x5c);
            out.push(0x76);
        } else if b == 0x0c {
            out.push(0x5c);
            out.push(0x66);
        } else if b == 0x0d {
            out.push(0x5c);
            out.push(0x72);
        } else if b == 0x1b {
            out.push(0x5c);
            out.push(0x65);
        } else if b == 0x22 {
            out.push(0x5c);
            out.push(0x22);
        } else if b < 0x20 || b == 0x7f {
            out.push(0x5c);
            out.push(0x78);
            out.push(hex_digit(b / 16));
            out.push(hex_digit(b % 16));
        } else {
            out.push(b);
        }
        proof {
            assert(rest[0] == bytes@[i as int]);
            assert(rest.drop_first() =~= bytes@.skip(i + 1));
            assert(out@ + spec_escape_double(bytes@.skip(i + 1)) =~= old(out)@
                + spec_escape_double(bytes@));
        }
        i = i + 1;
    }
    proof {
        assert(bytes@.skip(bytes@.len() as int) =~= Seq::<u8>::empty());
        assert(out@ =~= old(out)@ + spec_escape_double(bytes@));
    }
}

impl Raw {
    /// A node from a tagged value and the indentation that applies under it.
    pub fn new(kind: RawKind, indent: StringId) -> (r: Raw)
        ensures
            r.kind == kind,
            r.layout == (Layout { indent }),
    {
        Raw { kind, layout: Layout { indent } }
    }

    /// Renders this node and its subtree, appending the exact document text
    /// to `out`.
    pub fn display(&self, strings: &Strings, out: &mut Vec<u8>)
        requires
            wf_raw(*self, strings@.len() as int),
        ensures
            final(out)@ == old(out)@ + spec_render(*self, strings@),
        decreases *self,
    {
        match &self.kind {
            RawKind::Null(null) => {
                match null {
                    NullKind::Keyword => {
                        out.push(0x6e);
                        out.push(0x75);
                        out.push(0x6c);
                        out.push(0x6c);
                        proof {
                            assert(out@ =~= old(out)@ + spec_render(*self, strings@));
                        }
                    }
                    NullKind::Tilde => {
                        out.push(0x7e);
                        proof {
                            assert(out@ =~= old(out)@ + spec_render(*self, strings@));
                        }
                    }
                    NullKind::Empty => {
                        proof {
                            assert(out@ =~= old(out)@ + spec_render(*self, strings@));
                        }
                    }
                }
            }
            RawKind::Number(number) => {
                append_bytes(out, strings.get(number.string));
            }
            RawKind::String(string) => {
                let text = strings.get(string.string);
                match string.kind {
                    StringKind::Bare => {
                        append_bytes(out, text);
                    }
                    StringKind::SingleQuoted => {
                        out.push(0x27);
                        escape_single_quoted(text, out);
                        out.push(0x27);
                        proof {
                            assert(out@ =~= old(out)@ + spec_render(*self, strings@));
                        }
                    }
                    StringKind::DoubleQuoted => {
                        out.push(0x22);
                        escape_double_quoted(text, out);
                        out.push(0x22);
                        proof {
                            assert(out@ =~= old(out)@ + spec_render(*self, strings@));
                        }
                    }
                }
            }
            RawKind::Table(table) => {
                let ghost base = out@;
                let inline = matches!(table.kind, RawTableKind::Inline { .. });
                let ghost opening: Seq<u8> = if inline {
                    seq![0x7bu8]
                } else {
                    Seq::<u8>::empty()
                };
                if inline {
                    out.push(0x7b);
                }
                proof {
                    assert(table.items@.skip(0) =~= table.items@);
                    assert(out@ =~= base + opening);
                }
                let n = table.items.len();
                let mut i: usize = 0;
                while i < n
                    invariant
                        i <= n,
                        n == table.items@.len(),
                        self.kind == RawKind::Table(*table),
                        wf_raw(*self, strings@.len() as int),
                        inline == (table.kind is Inline),
                        out@ + spec_render_titems(table.items@.skip(i as int), strings@, inline)
                            == base + opening + spec_render_titems(table.items@, strings@, inline),
                    decreases n - i,
                {
                    let ghost rest = table.items@.skip(i as int);
                    let ghost entry = out@;
                    proof {
                        assert(wf_titem(table.items@[i as int], strings@.len() as int));
                        assert(rest[0] == table.items@[i as int]);
                    }
                    let item = &table.items[i];
                    match &item.prefix {
                        Some(prefix) => {
                            append_bytes(out, strings.get(*prefix));
                        }
                        None => {}
                    }
                    append_bytes(out, strings.get(item.key.string));
                    out.push(0x3a);
                    append_bytes(out, strings.get(item.separator));
                    proof {
                        assert(decreases_to!(*self => self.kind));
                        assert(decreases_to!(self.kind => self.kind->Table_0));
                        assert(self.kind->Table_0 == *table);
                        assert(decreases_to!(*table => table.items));
                        assert(decreases_to!(table.items => table.items@[i as int]));
                        assert(decreases_to!(table.items@[i as int] => *table.items@[
                            i as int
                        ].value));
                    }
                    item.value.display(strings, out);
                    if i + 1 < n {
                        if inline {
                            out.push(0x2c);
                        }
                    }
                    proof {
                        let item_g = table.items@[i as int];
                        let comma: Seq<u8> = if inline && i + 1 < n {
                            seq![0x2cu8]
                        } else {
                            Seq::<u8>::empty()
                        };
                        assert(out@ =~= entry + spec_render_titem(item_g, strings@) + comma);
                        assert(rest.drop_first() =~= table.items@.skip(i + 1));
                        assert(rest.len() > 1 <==> i + 1 < n);
                        assert(spec_render_titems(rest, strings@, inline) == spec_render_titem(
                            item_g,
                            strings@,
                        ) + comma + spec_render_titems(table.items@.skip(i + 1), strings@, inline));
                        assert(out@ + spec_render_titems(table.items@.skip(i + 1), strings@, inline)
                            =~= base + opening + spec_render_titems(
                            table.items@,
                            strings@,
                            inline,
                        ));
                    }
                    i = i + 1;
                }
                proof {
                    assert(table.items@.skip(n as int) =~= Seq::<RawTableItem>::empty());
                }
                match &table.kind {
                    RawTableKind::Table => {
                        proof {
                            assert(out@ =~= old(out)@ + spec_render(*self, strings@));
                        }
                    }
                    RawTableKind::Inline { trailing, suffix } => {
                        if *trailing {
                            out.push(0x2c);
                        }
                        append_bytes(out, strings.get(*suffix));
                        out.push(0x7d);
                        proof {
                            assert(out@ =~= old(out)@ + spec_render(*self, strings@));
                        }
                    }
                }
            }
            RawKind::List(list) => {
                let ghost base = out@;
                let inline = matches!(list.kind, RawListKind::Inline { .. });
                let ghost opening: Seq<u8> = if inline {
                    seq![0x5bu8]
                } else {
                    Seq::<u8>::empty()
                };
                if inline {
                    out.push(0x5b);
                }
                proof {
                    assert(list.items@.skip(0) =~= list.items@);
                    assert(out@ =~= base + opening);
                }
                let n = list.items.len();
                let mut i: usize = 0;
                while i < n
                    invariant
                        i <= n,
                        n == list.items@.len(),
                        self.kind == RawKind::List(*list),
                        wf_raw(*self, strings@.len() as int),
                        inline == (list.kind is Inline),
                        out@ + spec_render_litems(list.items@.skip(i as int), strings@, inline)
                            == base + opening + spec_render_litems(list.items@, strings@, inline),
                    decreases n - i,
                {
                    let ghost rest = list.items@.skip(i as int);
                    let ghost entry = out@;
                    proof {
                        assert(wf_litem(list.items@[i as int], strings@.len() as int));
                        assert(rest[0] == list.items@[i as int]);
                    }
                    let item = &list.items[i];
                    match &item.prefix {
                        Some(prefix) => {
                            append_bytes(out, strings.get(*prefix));
                        }
                        None => {}
                    }
                    if !inline {
                        out.push(0x2d);
                    }
                    append_bytes(out, strings.get(item.separator));
                    proof {
                        assert(decreases_to!(*self => self.kind));
                        assert(decreases_to!(self.kind => self.kind->List_0));
                        assert(self.kind->List_0 == *list);
                        assert(decreases_to!(*list => list.items));
                        assert(decreases_to!(list.items => list.items@[i as int]));
                        assert(decreases_to!(list.items@[i as int] => *list.items@[
                            i as int
                        ].value));
                    }
                    item.value.display(strings, out);
                    if i + 1 < n {
                        if inline {
                            out.push(0x2c);
                        }
                    }
                    proof {
                        let item_g = list.items@[i as int];
                        let comma: Seq<u8> = if inline && i + 1 < n {
                            seq![0x2cu8]
                        } else {
                            Seq::<u8>::empty()
                        };
                        assert(out@ =~= entry + spec_render_litem(item_g, strings@, !inline)
                            + comma);
                        assert(rest.drop_first() =~= list.items@.skip(i + 1));
                        assert(rest.len() > 1 <==> i + 1 < n);
                        assert(spec_render_litems(rest, strings@, inline) == spec_render_litem(
                            item_g,
                            strings@,
                            !inline,
                        ) + comma + spec_render_litems(list.items@.skip(i + 1), strings@, inline));
                        assert(out@ + spec_render_litems(list.items@.skip(i + 1), strings@, inline)
                            =~= base + opening + spec_render_litems(list.items@, strings@, inline));
                    }
                    i = i + 1;
                }
                proof {
                    assert(list.items@.skip(n as int) =~= Seq::<RawListItem>::empty());
                }
                match &list.kind {
                    RawListKind::Table => {
                        proof {
                            assert(out@ =~= old(out)@ + spec_render(*self, strings@));
                        }
                    }
                    RawListKind::Inline { trailing, suffix } => {
                        if *trailing {
                            out.push(0x2c);
                        }
                        append_bytes(out, strings.get(*suffix));
                        out.push(0x5d);
                        proof {
                            assert(out@ =~= old(out)@ + spec_render(*self, strings@));
                        }
                    }
                }
            }
        }
    }
}

// ----------------------------------------------------------------------------
// Mutation: in-place table insert and list push.  New entries derive their
// separator and line prefix from the entries already present, so the
// container's established style is kept.

/// The separator handle of the last entry, if any.
pub open spec fn spec_last_tsep(items: Seq<RawTableItem>) -> Option<StringId> {
    if items.len() == 0 {
        None
    } else {
        Some(items.last().separator)
    }
}

/// The separator handle of the last item, if any.
pub open spec fn spec_last_lsep(items: Seq<RawListItem>) -> Option<StringId> {
    if items.len() == 0 {
        None
    } else {
        Some(items.last().separator)
    }
}

/// Holds whether `id` is the separator handle derived from the policy `sep`
/// against a container whose last entry's separator is `last`, and `post` the
/// interner state after the derivation: the policy reuses the last entry's
/// handle, interns a single space for an empty container, or interns the
/// custom bytes verbatim.
pub open spec fn spec_sep_derived(
    sep: Separator,
    last: Option<StringId>,
    pre: Seq<Seq<u8>>,
    post: Seq<Seq<u8>>,
    id: StringId,
) -> bool {
    match sep {
        Separator::Auto => match last {
            Some(prev) => post == pre && id == prev,
            None => post == pre.push(seq![0x20u8]) && id@ == pre.len(),
        },
        Separator::Custom(text) => post == pre.push(text@) && id@ == pre.len(),
    }
}

/// The position of the first entry whose key bytes equal `key`, if any.
pub open spec fn spec_find_key(items: Seq<RawTableItem>, strings: Seq<Seq<u8>>, key: Seq<u8>) -> Option<int>
    decreases items,
{
    if items.len() == 0 {
        None::<int>
    } else if strings[items[0].key.string@] == key {
        Some(0int)
    } else {
        match spec_find_key(items.drop_first(), strings, key) {
            Some(j) => Some(j + 1),
            None => None::<int>,
        }
    }
}

/// The found position is the first whose key bytes match; a miss means no
/// entry matches.
pub proof fn lemma_find_key_props(items: Seq<RawTableItem>, strings: Seq<Seq<u8>>, key: Seq<u8>)
    ensures
        (match spec_find_key(items, strings, key) {
            Some(j) => 0 <= j < items.len() && strings[items[j].key.string@] == key && (forall|
                i: int,
            |
                0 <= i < j ==> strings[#[trigger] items[i].key.string@] != key),
            None => forall|i: int|
                0 <= i < items.len() ==> strings[#[trigger] items[i].key.string@] != key,
        }),
    decreases items,
{
    if items.len() > 0 {
        let d = items.drop_first();
        lemma_find_key_props(d, strings, key);
        if strings[items[0].key.string@] == key {
        } else {
            match spec_find_key(d, strings, key) {
                Some(j) => {
                    assert(items[j + 1] == d[j]);
                    assert forall|i: int| 0 <= i < j + 1 implies strings[#[trigger] items[
                        i
                    ].key.string@] != key by {
                        if i > 0 {
                            assert(items[i] == d[i - 1]);
                        }
                    }
                }
                None => {
                    assert forall|i: int| 0 <= i < items.len() implies strings[#[trigger] items[
                        i
                    ].key.string@] != key by {
                        if i > 0 {
                            assert(items[i] == d[i - 1]);
                        }
                    }
                }
            }
        }
    }
}

/// Holds whether `(post, post_s)` is the table and interner state after
/// inserting `value` under `key` into `(pre, pre_s)`: an existing entry keeps
/// its position, prefix and key text and has only its separator and value
/// overwritten; otherwise a new entry is appended whose prefix is the
/// container indentation (absent for a first entry) and whose separator
/// follows the derivation rule.  `index` reports the entry's position.
pub open spec fn spec_table_inserted(
    pre: RawTable,
    pre_s: Seq<Seq<u8>>,
    post: RawTable,
    post_s: Seq<Seq<u8>>,
    indent: StringId,
    sep: Separator,
    key: Seq<u8>,
    value: RawKind,
    index: int,
) -> bool {
    post.kind == pre.kind && match spec_find_key(pre.items@, pre_s, key) {
        Some(j) => index == j && post.items@.len() == pre.items@.len() && (forall|i: int|
            0 <= i < pre.items@.len() && i != j ==> post.items@[i] == pre.items@[i])
            && post.items@[j].prefix == pre.items@[j].prefix && post.items@[j].key
            == pre.items@[j].key && (*post.items@[j].value).kind == value && (*post.items@[
            j
        ].value).layout == (*pre.items@[j].value).layout && spec_sep_derived(
            sep,
            spec_last_tsep(pre.items@),
            pre_s,
            post_s,
            post.items@[j].separator,
        ),
        None => {
            let key_s = pre_s.push(key);
            index == pre.items@.len() && post.items@.len() == pre.items@.len() + 1 && (forall|
                i: int,
            | 0 <= i < pre.items@.len() ==> post.items@[i] == pre.items@[i]) && {
                let item = post.items@[index];
                item.key.kind == StringKind::Bare && item.key.string@ == pre_s.len()
                    && item.prefix == (
                if pre.items@.len() > 0 {
                    Some(indent)
                } else {
                    None::<StringId>
                }) && spec_sep_derived(sep, spec_last_tsep(pre.items@), key_s, post_s, item.separator)
                    && (*item.value).kind == value && (*item.value).layout == (Layout { indent })
            }
        }
    }
}

/// Holds whether `(post, post_s)` is the list and interner state after
/// pushing `value` onto `(pre, pre_s)`: a new item is appended whose prefix
/// is the container indentation (absent for a first item) and whose
/// separator follows the derivation rule.
pub open spec fn spec_list_pushed(
    pre: RawList,
    pre_s: Seq<Seq<u8>>,
    post: RawList,
    post_s: Seq<Seq<u8>>,
    indent: StringId,
    sep: Separator,
    value: RawKind,
) -> bool {
    post.kind == pre.kind && post.items@.len() == pre.items@.len() + 1 && (forall|i: int|
        0 <= i < pre.items@.len() ==> post.items@[i] == pre.items@[i]) && {
        let item = post.items@.last();
        item.prefix == (
        if pre.items@.len() > 0 {
            Some(indent)
        } else {
            None::<StringId>
        }) && spec_sep_derived(sep, spec_last_lsep(pre.items@), pre_s, post_s, item.separator)
            && (*item.value).kind == value && (*item.value).layout == (Layout { indent })
    }
}

/// Compares two byte slices for content equality.
pub(crate) fn bytes_eq(a: &[u8], b: &[u8]) -> (r: bool)
    ensures
        r <==> a@ == b@,
{
    if a.len() != b.len() {
        return false;
    }
    let mut i: usize = 0;
    while i < a.len()
        invariant
            i <= a@.len(),
            a@.len() == b@.len(),
            forall|k: int| 0 <= k < i ==> a@[k] == b@[k],
        decreases a@.len() - i,
    {
        if a[i] != b[i] {
            return false;
        }
        i = i + 1;
    }
    proof {
        assert(a@ =~= b@);
    }
    true
}

/// Finds the first entry whose key bytes equal `key`.
pub(crate) fn find_key(items: &Vec<RawTableItem>, strings: &Strings, key: &[u8]) -> (r: Option<
    usize,
>)
    requires
        wf_titems(items@, strings@.len() as int),
    ensures
        (match r {
            Some(j) => spec_find_key(items@, strings@, key@) == Some(j as int),
            None => spec_find_key(items@, strings@, key@) is None,
        }),
{
    let mut i: usize = 0;
    while i < items.len()
        invariant
            i <= items@.len(),
            wf_titems(items@, strings@.len() as int),
            forall|k: int| 0 <= k < i ==> strings@[#[trigger] items@[k].key.string@] != key@,
        decreases items@.len() - i,
    {
        proof {
            assert(wf_titem(items@[i as int], strings@.len() as int));
        }
        if bytes_eq(strings.get(items[i].key.string), key) {
            proof {
                lemma_find_key_props(items@, strings@, key@);
            }
            return Some(i);
        }
        i = i + 1;
    }
    proof {
        lemma_find_key_props(items@, strings@, key@);
    }
    None
}

/// Interns a single space: the default separator for an empty container.
fn intern_space(strings: &mut Strings) -> (id: StringId)
    ensures
        final(strings)@ == old(strings)@.push(seq![0x20u8]),
        id@ == old(strings)@.len(),
{
    let space: [u8; 1] = [0x20];
    let id = strings.insert(space.as_slice());
    proof {
        assert(space@ =~= seq![0x20u8]);
    }
    id
}

impl RawTable {
    /// Inserts `value` under `key`.  An entry whose key bytes already match
    /// has its separator and value overwritten in place, keeping its
    /// position, prefix and key text; otherwise a new entry is appended.
    /// Returns the entry's position.
    pub fn insert(
        &mut self,
        strings: &mut Strings,
        layout: &Layout,
        key: &[u8],
        separator: Separator,
        value: RawKind,
    ) -> (index: usize)
        requires
            wf_table(*old(self), old(strings)@.len() as int),
            wf_kind(value, old(strings)@.len() as int),
            wf_sid(layout.indent, old(strings)@.len() as int),
        ensures
            spec_table_inserted(
                *old(self),
                old(strings)@,
                *final(self),
                final(strings)@,
                layout.indent,
                separator,
                key@,
                value,
                index as int,
            ),
            spec_extends(final(strings)@, old(strings)@),
            wf_table(*final(self), final(strings)@.len() as int),
            index < final(self).items@.len(),
    {
        let found = find_key(&self.items, strings, key);
        match found {
            Some(index) => {
                proof {
                    lemma_find_key_props(self.items@, strings@, key@);
                }
                let sep = match separator {
                    Separator::Auto => self.items[self.items.len() - 1].separator,
                    Separator::Custom(text) => strings.insert(text),
                };
                let prefix = self.items[index].prefix;
                let entry_key = self.items[index].key;
                let lay = self.items[index].value.layout;
                let item = RawTableItem {
                    prefix,
                    key: entry_key,
                    separator: sep,
                    value: Box::new(Raw { kind: value, layout: lay }),
                };
                self.items[index] = item;
                proof {
                    let n2 = strings@.len() as int;
                    lemma_wf_kind_grow(value, old(strings)@.len() as int, n2);
                    assert forall|i: int| 0 <= i < self.items@.len() implies wf_titem(
                        #[trigger] self.items@[i],
                        n2,
                    ) by {
                        assert(wf_titem(old(self).items@[i], old(strings)@.len() as int));
                        lemma_wf_raw_grow(*old(self).items@[i].value, old(strings)@.len() as int, n2);
                    }
                }
                index
            }
            None => {
                proof {
                    lemma_find_key_props(self.items@, strings@, key@);
                }
                let key_id = strings.insert(key);
                let sep = match separator {
                    Separator::Auto => {
                        if self.items.len() > 0 {
                            self.items[self.items.len() - 1].separator
                        } else {
                            intern_space(strings)
                        }
                    }
                    Separator::Custom(text) => strings.insert(text),
                };
                let prefix = if self.items.len() > 0 {
                    Some(layout.indent)
                } else {
                    None
                };
                let item = RawTableItem {
                    prefix,
                    key: RawString { kind: StringKind::Bare, string: key_id },
                    separator: sep,
                    value: Box::new(Raw { kind: value, layout: Layout { indent: layout.indent } }),
                };
                let index = self.items.len();
                self.items.push(item);
                proof {
                    let n2 = strings@.len() as int;
                    lemma_wf_kind_grow(value, old(strings)@.len() as int, n2);
                    assert forall|i: int| 0 <= i < self.items@.len() implies wf_titem(
                        #[trigger] self.items@[i],
                        n2,
                    ) by {
                        if i < index {
                            assert(self.items@[i] == old(self).items@[i]);
                            assert(wf_titem(old(self).items@[i], old(strings)@.len() as int));
                            lemma_wf_raw_grow(
                                *old(self).items@[i].value,
                                old(strings)@.len() as int,
                                n2,
                            );
                        }
                    }
                }
                index
            }
        }
    }
}

impl RawList {
    /// Pushes `value` onto the end of the list, deriving the new item's
    /// separator and line prefix from the items already present.
    pub fn push(
        &mut self,
        strings: &mut Strings,
        layout: &Layout,
        separator: Separator,
        value: RawKind,
    )
        requires
            wf_list(*old(self), old(strings)@.len() as int),
            wf_kind(value, old(strings)@.len() as int),
            wf_sid(layout.indent, old(strings)@.len() as int),
        ensures
            spec_list_pushed(
                *old(self),
                old(strings)@,
                *final(self),
                final(strings)@,
                layout.indent,
                separator,
                value,
            ),
            spec_extends(final(strings)@, old(strings)@),
            wf_list(*final(self), final(strings)@.len() as int),
    {
        let sep = match separator {
            Separator::Auto => {
                if self.items.len() > 0 {
                    self.items[self.items.len() - 1].separator
                } else {
                    intern_space(strings)
                }
            }
            Separator::Custom(text) => strings.insert(text),
        };
        let prefix = if self.items.len() > 0 {
            Some(layout.indent)
        } else {
            None
        };
        let item = RawListItem {
            prefix,
            separator: sep,
            value: Box::new(Raw { kind: value, layout: Layout { indent: layout.indent } }),
        };
        self.items.push(item);
        proof {
            let n2 = strings@.len() as int;
            lemma_wf_kind_grow(value, old(strings)@.len() as int, n2);
            assert forall|i: int| 0 <= i < self.items@.len() implies wf_litem(
                #[trigger] self.items@[i],
                n2,
            ) by {
                if i < old(self).items@.len() {
                    assert(self.items@[i] == old(self).items@[i]);
                    assert(wf_litem(old(self).items@[i], old(strings)@.len() as int));
                    lemma_wf_raw_grow(*old(self).items@[i].value, old(strings)@.len() as int, n2);
                }
            }
        }
    }
}

/// The stored text of a boolean value.
pub open spec fn spec_bool_bytes(value: bool) -> Seq<u8> {
    if value {
        seq![0x74u8, 0x72u8, 0x75u8, 0x65u8]
    } else {
        seq![0x66u8, 0x61u8, 0x6cu8, 0x73u8, 0x65u8]
    }
}

/// Constructs the raw kind of a boolean: a bare string holding its keyword.
pub fn new_bool(strings: &mut Strings, value: bool) -> (r: RawKind)
    ensures
        final(strings)@ == old(strings)@.push(spec_bool_bytes(value)),
        (r matches RawKind::String(s) && s.kind == StringKind::Bare && s.string@ == old(
            strings,
        )@.len()),
        wf_kind(r, final(strings)@.len() as int),
{
    let id = if value {
        let word: [u8; 4] = [0x74, 0x72, 0x75, 0x65];
        proof {
            assert(word@ =~= spec_bool_bytes(true));
        }
        strings.insert(word.as_slice())
    } else {
        let word: [u8; 5] = [0x66, 0x61, 0x6c, 0x73, 0x65];
        proof {
            assert(word@ =~= spec_bool_bytes(false));
        }
        strings.insert(word.as_slice())
    };
    RawKind::String(RawString { kind: StringKind::Bare, string: id })
}

/// Whether a byte forces a bare string into quotes.
pub open spec fn spec_is_special(b: u8) -> bool {
    b == 0x27 || b == 0x22 || b == 0x3a || b == 0x23 || b == 0x2c || b == 0x5b || b == 0x5d || b
        == 0x7b || b == 0x7d
}

/// The quoting kind detected for a new string: double quotes when a control
/// byte must be escaped, single quotes when the text is empty, starts or
/// ends with a space, or holds a special byte, and bare otherwise.
pub open spec fn spec_detect(s: Seq<u8>) -> StringKind {
    if exists|i: int| 0 <= i < s.len() && spec_is_control(#[trigger] s[i]) {
        StringKind::DoubleQuoted
    } else if s.len() == 0 || s[0] == 0x20 || s[s.len() - 1] == 0x20 || (exists|i: int|
        0 <= i < s.len() && spec_is_special(#[trigger] s[i])) {
        StringKind::SingleQuoted
    } else {
        StringKind::Bare
    }
}

impl StringKind {
    /// Detects the quoting a new string value needs.
    pub fn detect(bytes: &[u8]) -> (r: StringKind)
        ensures
            r == spec_detect(bytes@),
    {
        let mut has_control = false;
        let mut has_special = false;
        let mut i: usize = 0;
        while i < bytes.len()
            invariant
                i <= bytes@.len(),
                has_control == (exists|k: int|
                    0 <= k < i && spec_is_control(#[trigger] bytes@[k])),
                has_special == (exists|k: int|
                    0 <= k < i && spec_is_special(#[trigger] bytes@[k])),
            decreases bytes@.len() - i,
        {
            let b = bytes[i];
            if b < 0x20 || b == 0x7f {
                has_control = true;
            }
            if b == 0x27 || b == 0x22 || b == 0x3a || b == 0x23 || b == 0x2c || b == 0x5b || b
                == 0x5d || b == 0x7b || b == 0x7d {
                has_special = true;
            }
            i = i + 1;
        }
        if has_control {
            StringKind::DoubleQuoted
        } else if bytes.len() == 0 || bytes[0] == 0x20 || bytes[bytes.len() - 1] == 0x20
            || has_special {
            StringKind::SingleQuoted
        } else {
            StringKind::Bare
        }
    }
}

/// Constructs the raw kind of a new string value, detecting its quoting.
pub fn new_string(strings: &mut Strings, string: &[u8]) -> (r: RawKind)
    ensures
        final(strings)@ == old(strings)@.push(string@),
        (r matches RawKind::String(s) && s.kind == spec_detect(string@) && s.string@ == old(
            strings,
        )@.len()),
        wf_kind(r, final(strings)@.len() as int),
{
    let kind = StringKind::detect(string);
    let id = strings.insert(string);
    RawKind::String(RawString { kind, string: id })
}

// ----------------------------------------------------------------------------
// Decoding quoted text: the inverse of the two escape forms, used to read a
// rendered string back into its logical content.

/// The byte a short double-quote escape stands for, keyed by the byte after
/// the backslash.
pub open spec fn spec_short_unescape(b: u8) -> Option<u8> {
    if b == 0x30 {
        Some(0x00u8)
    } else if b == 0x61 {
        Some(0x07u8)
    } else if b == 0x62 {
        Some(0x08u8)
    } else if b == 0x74 {
        Some(0x09u8)
    } else if b == 0x6e {
        Some(0x0au8)
    } else if b == 0x76 {
        Some(0x0bu8)
    } else if b == 0x66 {
        Some(0x0cu8)
    } else if b == 0x72 {
        Some(0x0du8)
    } else if b == 0x65 {
        Some(0x1bu8)
    } else if b == 0x22 {
        Some(0x22u8)
    } else {
        None::<u8>
    }
}

/// Whether a byte is a lower-case hexadecimal digit.
pub open spec fn spec_is_hex(b: u8) -> bool {
    (0x30 <= b && b <= 0x39) || (0x61 <= b && b <= 0x66)
}

/// The value of a lower-case hexadecimal digit.
pub open spec fn spec_hex_val(b: u8) -> u8 {
    if 0x30 <= b && b <= 0x39 {
        (b - 0x30) as u8
    } else {
        ((b - 0x61) + 10) as u8
    }
}

/// The hexadecimal digit of a value below sixteen reads back as itself.
pub proof fn lemma_hex_digit_val(n: u8)
    requires
        n < 16,
    ensures
        spec_is_hex(spec_hex_digit(n)),
        spec_hex_val(spec_hex_digit(n)) == n,
{
}

/// Decodes the interior of a single-quoted rendering: a doubled quote reads
/// as one quote, a lone quote is malformed, anything else passes through.
pub open spec fn spec_unescape_single(s: Seq<u8>) -> Option<Seq<u8>>
    decreases s.len(),
{
    if s.len() == 0 {
        Some(Seq::<u8>::empty())
    } else if s[0] == 0x27 {
        if s.len() >= 2 && s[1] == 0x27 {
            match spec_unescape_single(s.skip(2)) {
                Some(r) => Some(seq![0x27u8] + r),
                None => None::<Seq<u8>>,
            }
        } else {
            None::<Seq<u8>>
        }
    } else {
        match spec_unescape_single(s.drop_first()) {
            Some(r) => Some(seq![s[0]] + r),
            None => None::<Seq<u8>>,
        }
    }
}

/// Decodes the interior of a double-quoted rendering: a backslash starts a
/// short escape or a two-digit hexadecimal escape, anything else passes
/// through.
pub open spec fn spec_unescape_double(s: Seq<u8>) -> Option<Seq<u8>>
    decreases s.len(),
{
    if s.len() == 0 {
        Some(Seq::<u8>::empty())
    } else if s[0] == 0x5c {
        if s.len() >= 2 {
            if s[1] == 0x78 {
                if s.len() >= 4 && spec_is_hex(s[2]) && spec_is_hex(s[3]) {
                    match spec_unescape_double(s.skip(4)) {
                        Some(r) => Some(
                            seq![((spec_hex_val(s[2]) * 16 + spec_hex_val(s[3])) as u8)] + r,
                        ),
                        None => None::<Seq<u8>>,
                    }
                } else {
                    None::<Seq<u8>>
                }
            } else {
                match spec_short_unescape(s[1]) {
                    Some(b) => match spec_unescape_double(s.skip(2)) {
                        Some(r) => Some(seq![b] + r),
                        None => None::<Seq<u8>>,
                    },
                    None => None::<Seq<u8>>,
                }
            }
        } else {
            None::<Seq<u8>>
        }
    } else {
        match spec_unescape_double(s.drop_first()) {
            Some(r) => Some(seq![s[0]] + r),
            None => None::<Seq<u8>>,
        }
    }
}

/// The value of a lower-case hexadecimal digit.
fn hex_val(b: u8) -> (r: u8)
    requires
        spec_is_hex(b),
    ensures
        r == spec_hex_val(b),
        r < 16,
{
    if b <= 0x39 {
        b - 0x30
    } else {
        (b - 0x61) + 10
    }
}

/// Decodes the interior of a single-quoted rendering back into the logical
/// string content; nothing when the text is malformed.
pub fn unescape_single_quoted(bytes: &[u8]) -> (r: Option<Vec<u8>>)
    ensures
        (match spec_unescape_single(bytes@) {
            Some(s) => r matches Some(v) && v@ == s,
            None => r is None,
        }),
{
    proof {
        assert(bytes@.skip(0) =~= bytes@);
    }
    let mut out: Vec<u8> = Vec::new();
    let mut i: usize = 0;
    while i < bytes.len()
        invariant
            i <= bytes@.len(),
            (match spec_unescape_single(bytes@.skip(i as int)) {
                Some(rest) => spec_unescape_single(bytes@) == Some(out@ + rest),
                None => spec_unescape_single(bytes@) is None,
            }),
        decreases bytes@.len() - i,
    {
        let ghost rest = bytes@.skip(i as int);
        proof {
            assert(rest[0] == bytes@[i as int]);
        }
        let b = bytes[i];
        if b == 0x27 {
            if i + 1 < bytes.len() && bytes[i + 1] == 0x27 {
                proof {
                    assert(rest[1] == bytes@[i + 1]);
                    assert(rest.skip(2) =~= bytes@.skip(i + 2));
                }
                out.push(0x27);
                proof {
                    match spec_unescape_single(bytes@.skip(i + 2)) {
                        Some(tail) => {
                            assert(spec_unescape_single(rest) == Some(seq![0x27u8] + tail));
                            assert(out@ + tail =~= (out@.drop_last()) + (seq![0x27u8] + tail));
                        }
                        None => {}
                    }
                }
                i = i + 2;
            } else {
                proof {
                    assert(rest.len() >= 2 ==> rest[1] == bytes@[i + 1]);
                    assert(spec_unescape_single(rest) is None);
                }
                return None;
            }
        } else {
            out.push(b);
            proof {
                assert(rest.drop_first() =~= bytes@.skip(i + 1));
                match spec_unescape_single(bytes@.skip(i + 1)) {
                    Some(tail) => {
                        assert(spec_unescape_single(rest) == Some(seq![b] + tail));
                        assert(out@ + tail =~= (out@.drop_last()) + (seq![b] + tail));
                    }
                    None => {}
                }
            }
            i = i + 1;
        }
    }
    proof {
        assert(bytes@.skip(bytes@.len() as int) =~= Seq::<u8>::empty());
        assert(out@ + Seq::<u8>::empty() =~= out@);
    }
    Some(out)
}

/// Decodes the interior of a double-quoted rendering back into the logical
/// string content; nothing when the text is malformed.
pub fn unescape_double_quoted(bytes: &[u8]) -> (r: Option<Vec<u8>>)
    ensures
        (match spec_unescape_double(bytes@) {
            Some(s) => r matches Some(v) && v@ == s,
            None => r is None,
        }),
{
    proof {
        assert(bytes@.skip(0) =~= bytes@);
    }
    let mut out: Vec<u8> = Vec::new();
    let mut i: usize = 0;
    while i < bytes.len()
        invariant
            i <= bytes@.len(),
            (match spec_unescape_double(bytes@.skip(i as int)) {
                Some(rest) => spec_unescape_double(bytes@) == Some(out@ + rest),
                None => spec_unescape_double(bytes@) is None,
            }),
        decreases bytes@.len() - i,
    {
        let ghost rest = bytes@.skip(i as int);
        proof {
            assert(rest[0] == bytes@[i as int]);
        }
        let b = bytes[i];
        if b == 0x5c {
            if i + 1 >= bytes.len() {
                proof {
                    assert(spec_unescape_double(rest) is None);
                }
                return None;
            }
            proof {
                assert(rest[1] == bytes@[i + 1]);
            }
            let c = bytes[i + 1];
            if c == 0x78 {
                if bytes.len() - i >= 4 {
                    proof {
                        assert(rest[2] == bytes@[i + 2]);
                        assert(rest[3] == bytes@[i + 3]);
                    }
                    let h1 = bytes[i + 2];
                    let h2 = bytes[i + 3];
                    let h1_ok = (0x30 <= h1 && h1 <= 0x39) || (0x61 <= h1 && h1 <= 0x66);
                    let h2_ok = (0x30 <= h2 && h2 <= 0x39) || (0x61 <= h2 && h2 <= 0x66);
                    if h1_ok && h2_ok {
                        let decoded = hex_val(h1) * 16 + hex_val(h2);
                        out.push(decoded);
                        proof {
                            assert(rest.skip(4) =~= bytes@.skip(i + 4));
                            match spec_unescape_double(bytes@.skip(i + 4)) {
                                Some(tail) => {
                                    assert(spec_unescape_double(rest) == Some(
                                        seq![decoded] + tail,
                                    ));
                                    assert(out@ + tail =~= (out@.drop_last()) + (
                                    seq![decoded] + tail));
                                }
                                None => {}
                            }
                        }
                        i = i + 4;
                    } else {
                        proof {
                            assert(spec_unescape_double(rest) is None);
                        }
                        return None;
                    }
                } else {
                    proof {
                        assert(rest.len() >= 4 ==> rest[2] == bytes@[i + 2] && rest[3] == bytes@[
                            i + 3
                        ]);
                        assert(spec_unescape_double(rest) is None);
                    }
                    return None;
                }
            } else {
                let decoded_opt: Option<u8> = if c == 0x30 {
                    Some(0x00)
                } else if c == 0x61 {
                    Some(0x07)
                } else if c == 0x62 {
                    Some(0x08)
                } else if c == 0x74 {
                    Some(0x09)
                } else if c == 0x6e {
                    Some(0x0a)
                } else if c == 0x76 {
                    Some(0x0b)
                } else if c == 0x66 {
                    Some(0x0c)
                } else if c == 0x72 {
                    Some(0x0d)
                } else if c == 0x65 {
                    Some(0x1b)
                } else if c == 0x22 {
                    Some(0x22)
                } else {
                    None
                };
                match decoded_opt {
                    Some(decoded) => {
                        out.push(decoded);
                        proof {
                            assert(rest.skip(2) =~= bytes@.skip(i + 2));
                            match spec_unescape_double(bytes@.skip(i + 2)) {
                                Some(tail) => {
                                    assert(spec_unescape_double(rest) == Some(
                                        seq![decoded] + tail,
                                    ));
                                    assert(out@ + tail =~= (out@.drop_last()) + (
                                    seq![decoded] + tail));
                                }
                                None => {}
                            }
                        }
                        i = i + 2;
                    }
                    None => {
                        proof {
                            assert(spec_unescape_double(rest) is None);
                        }
                        return None;
                    }
                }
            }
        } else {
            out.push(b);
            proof {
                assert(rest.drop_first() =~= bytes@.skip(i + 1));
                match spec_unescape_double(bytes@.skip(i + 1)) {
                    Some(tail) => {
                        assert(spec_unescape_double(rest) == Some(seq![b] + tail));
                        assert(out@ + tail =~= (out@.drop_last()) + (seq![b] + tail));
                    }
                    None => {}
                }
            }
            i = i + 1;
        }
    }
    proof {
        assert(bytes@.skip(bytes@.len() as int) =~= Seq::<u8>::empty());
        assert(out@ + Seq::<u8>::empty() =~= out@);
    }
    Some(out)
}

} // verus!
