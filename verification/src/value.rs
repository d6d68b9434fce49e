//! The accessor layer: a document handed over by the scanner (an interner,
//! a root node), opaque value identities, and the typed read views used to
//! navigate and narrow values without copying.

use vstd::prelude::*;

use crate::ext;
use crate::raw::{
    bytes_eq, find_key, spec_bool_bytes, spec_find_key, spec_null_text, spec_render, wf_raw,
    wf_titem, Raw, RawKind, RawTable, RawTableItem, StringKind,
};
use crate::iter::Iter;
use crate::strings::{wf_sid, StringId, Strings};
use vstd::pervasive::unreached;
use vstd::slice::slice_to_vec;
use vstd::string::StringSliceAdditionalSpecFns;
use vstd::utf8::valid_utf8;

verus! {

broadcast use vstd::std_specs::vec::group_vec_axioms;

/// Separator to use between a key or sequence marker and its value.
#[derive(Debug, Clone, Copy)]
#[non_exhaustive]
pub enum Separator<'a> {
    /// Reuse the separator of the last element in the collection, or a single
    /// space if the collection is empty.
    Auto,
    /// A custom separator.
    ///
    /// The only document-legal separator is spaces, but any bytes given here
    /// are stored verbatim and reproduced literally when rendering; keeping
    /// them legal is the caller's responsibility.
    Custom(&'a [u8]),
}

/// The kind of a null value.
#[derive(Debug, Clone, Copy, PartialEq, Eq, Structural)]
#[non_exhaustive]
pub enum NullKind {
    /// A keyword `null` value.
    Keyword,
    /// A tilde `~` null value.
    Tilde,
    /// An empty null value: no text at all.
    Empty,
}

impl NullKind {
    /// Appends the rendering of this null kind: its keyword, a tilde, or
    /// nothing.
    pub fn display(self, out: &mut Vec<u8>)
        ensures
            final(out)@ == old(out)@ + spec_null_text(self),
    {
        match self {
            NullKind::Keyword => {
                out.push(0x6e);
                out.push(0x75);
                out.push(0x6c);
                out.push(0x6c);
                proof {
                    assert(out@ =~= old(out)@ + spec_null_text(self));
                }
            }
            NullKind::Tilde => {
                out.push(0x7e);
                proof {
                    assert(out@ =~= old(out)@ + spec_null_text(self));
                }
            }
            NullKind::Empty => {
                proof {
                    assert(out@ =~= old(out)@ + spec_null_text(self));
                }
            }
        }
    }
}

/// An opaque, copyable identity of a value inside a document: the path of
/// child positions leading from the root to the value.  It stays valid
/// across edits elsewhere in the tree, and across in-place replacement of
/// the value's own content.
#[derive(Debug, Clone, PartialEq, Eq)]
pub struct ValueId {
    path: Vec<usize>,
}

impl View for ValueId {
    type V = Seq<usize>;

    closed spec fn view(&self) -> Seq<usize> {
        self.path@
    }
}

impl ValueId {
    /// The identity of the document root.
    pub fn root() -> (r: ValueId)
        ensures
            r@ == Seq::<usize>::empty(),
    {
        let r = ValueId { path: Vec::new() };
        proof {
            assert(r@ =~= Seq::<usize>::empty());
        }
        r
    }

    /// The identity of the child at `index` under this value.
    pub fn child(&self, index: usize) -> (r: ValueId)
        ensures
            r@ == self@.push(index),
    {
        let mut path = slice_to_vec(self.path.as_slice());
        path.push(index);
        ValueId { path }
    }

    /// A copy of this identity.
    pub fn dup(&self) -> (r: ValueId)
        ensures
            r@ == self@,
    {
        ValueId { path: slice_to_vec(self.path.as_slice()) }
    }
}

/// The node a path denotes inside a tree: each step selects a child of a
/// table or list, and a path into any other kind denotes nothing.
pub open spec fn spec_node_at(raw: Raw, path: Seq<usize>) -> Option<Raw>
    decreases path.len(),
{
    if path.len() == 0 {
        Some(raw)
    } else {
        match raw.kind {
            RawKind::Table(table) => {
                if (path[0] as int) < table.items@.len() {
                    spec_node_at(*table.items@[path[0] as int].value, path.drop_first())
                } else {
                    None::<Raw>
                }
            }
            RawKind::List(list) => {
                if (path[0] as int) < list.items@.len() {
                    spec_node_at(*list.items@[path[0] as int].value, path.drop_first())
                } else {
                    None::<Raw>
                }
            }
            _ => None::<Raw>,
        }
    }
}

/// Extending a path that denotes a table node by a valid entry position
/// denotes that entry's value.
pub proof fn lemma_node_at_table_child(raw: Raw, path: Seq<usize>, j: usize)
    requires
        spec_node_at(raw, path) is Some,
        spec_node_at(raw, path).unwrap().kind is Table,
        (j as int) < spec_node_at(raw, path).unwrap().kind->Table_0.items@.len(),
    ensures
        spec_node_at(raw, path.push(j)) == Some(
            *spec_node_at(raw, path).unwrap().kind->Table_0.items@[j as int].value,
        ),
    decreases path.len(),
{
    let pj = path.push(j);
    if path.len() == 0 {
        assert(spec_node_at(raw, path) == Some(raw));
        assert(pj.drop_first() =~= Seq::<usize>::empty());
        assert(pj[0] == j);
        let table = raw.kind->Table_0;
        let child = *table.items@[j as int].value;
        assert(spec_node_at(child, pj.drop_first()) == Some(child));
        assert(spec_node_at(raw, pj) == Some(child));
    } else {
        assert(pj[0] == path[0]);
        assert(pj.drop_first() =~= path.drop_first().push(j));
        match raw.kind {
            RawKind::Table(table) => {
                let c1 = *table.items@[path[0] as int].value;
                assert(spec_node_at(raw, path) == spec_node_at(c1, path.drop_first()));
                lemma_node_at_table_child(c1, path.drop_first(), j);
                assert(spec_node_at(raw, pj) == spec_node_at(c1, pj.drop_first()));
            }
            RawKind::List(list) => {
                let c1 = *list.items@[path[0] as int].value;
                assert(spec_node_at(raw, path) == spec_node_at(c1, path.drop_first()));
                lemma_node_at_table_child(c1, path.drop_first(), j);
                assert(spec_node_at(raw, pj) == spec_node_at(c1, pj.drop_first()));
            }
            _ => {}
        }
    }
}

/// Extending a path that denotes a list node by a valid item position
/// denotes that item's value.
pub proof fn lemma_node_at_list_child(raw: Raw, path: Seq<usize>, j: usize)
    requires
        spec_node_at(raw, path) is Some,
        spec_node_at(raw, path).unwrap().kind is List,
        (j as int) < spec_node_at(raw, path).unwrap().kind->List_0.items@.len(),
    ensures
        spec_node_at(raw, path.push(j)) == Some(
            *spec_node_at(raw, path).unwrap().kind->List_0.items@[j as int].value,
        ),
    decreases path.len(),
{
    let pj = path.push(j);
    if path.len() == 0 {
        assert(spec_node_at(raw, path) == Some(raw));
        assert(pj.drop_first() =~= Seq::<usize>::empty());
        assert(pj[0] == j);
        let list = raw.kind->List_0;
        let child = *list.items@[j as int].value;
        assert(spec_node_at(child, pj.drop_first()) == Some(child));
        assert(spec_node_at(raw, pj) == Some(child));
    } else {
        assert(pj[0] == path[0]);
        assert(pj.drop_first() =~= path.drop_first().push(j));
        match raw.kind {
            RawKind::Table(table) => {
                let c1 = *table.items@[path[0] as int].value;
                assert(spec_node_at(raw, path) == spec_node_at(c1, path.drop_first()));
                lemma_node_at_list_child(c1, path.drop_first(), j);
                assert(spec_node_at(raw, pj) == spec_node_at(c1, pj.drop_first()));
            }
            RawKind::List(list) => {
                let c1 = *list.items@[path[0] as int].value;
                assert(spec_node_at(raw, path) == spec_node_at(c1, path.drop_first()));
                lemma_node_at_list_child(c1, path.drop_first(), j);
                assert(spec_node_at(raw, pj) == spec_node_at(c1, pj.drop_first()));
            }
            _ => {}
        }
    }
}

/// A node of a well-formed tree is itself well-formed.
pub proof fn lemma_node_at_wf(raw: Raw, path: Seq<usize>, n: int)
    requires
        wf_raw(raw, n),
        spec_node_at(raw, path) is Some,
    ensures
        wf_raw(spec_node_at(raw, path).unwrap(), n),
    decreases path.len(),
{
    if path.len() > 0 {
        match raw.kind {
            RawKind::Table(table) => {
                assert(wf_titem(table.items@[path[0] as int], n));
                lemma_node_at_wf(*table.items@[path[0] as int].value, path.drop_first(), n);
            }
            RawKind::List(list) => {
                lemma_node_at_wf(*list.items@[path[0] as int].value, path.drop_first(), n);
            }
            _ => {}
        }
    }
}

/// A document: the interner and the fully parsed root node, as handed over
/// by the scanner/builder.  The document owns every node and fragment for
/// its whole lifetime.
#[derive(Debug)]
pub struct Data {
    pub(crate) strings: Strings,
    pub(crate) root: Raw,
}

impl Data {
    /// The stored fragments, as a sequence of byte sequences.
    pub closed spec fn spec_strings(&self) -> Seq<Seq<u8>> {
        self.strings@
    }

    /// The root node.
    pub closed spec fn spec_root(&self) -> Raw {
        self.root
    }

    /// Every handle in the tree refers to a stored fragment.
    pub open spec fn wf(&self) -> bool {
        wf_raw(self.spec_root(), self.spec_strings().len() as int)
    }

    /// A document from a populated interner and a root node.
    pub fn new(strings: Strings, root: Raw) -> (r: Data)
        requires
            wf_raw(root, strings@.len() as int),
        ensures
            r.wf(),
            r.spec_strings() == strings@,
            r.spec_root() == root,
    {
        Data { strings, root }
    }

    /// The bytes stored under a string handle.
    pub fn str(&self, id: StringId) -> (r: &[u8])
        requires
            wf_sid(id, self.spec_strings().len() as int),
        ensures
            r@ == self.spec_strings()[id@],
    {
        self.strings.get(id)
    }

    /// The node a valid identity denotes.
    pub fn raw(&self, id: &ValueId) -> (r: &Raw)
        requires
            spec_node_at(self.spec_root(), id@) is Some,
        ensures
            Some(*r) == spec_node_at(self.spec_root(), id@),
    {
        let mut cur: &Raw = &self.root;
        let mut i: usize = 0;
        proof {
            assert(id@.skip(0) =~= id@);
        }
        while i < id.path.len()
            invariant
                i <= id@.len(),
                spec_node_at(self.spec_root(), id@) is Some,
                spec_node_at(*cur, id@.skip(i as int)) == spec_node_at(self.spec_root(), id@),
            decreases id@.len() - i,
        {
            let ghost rest = id@.skip(i as int);
            proof {
                assert(rest[0] == id@[i as int]);
                assert(rest.drop_first() =~= id@.skip(i + 1));
            }
            let k = id.path[i];
            match &cur.kind {
                RawKind::Table(table) => {
                    cur = &table.items[k].value;
                }
                RawKind::List(list) => {
                    cur = &list.items[k].value;
                }
                _ => {
                    proof {
                        assert(false);
                    }
                    return unreached();
                }
            }
            i = i + 1;
        }
        proof {
            assert(id@.skip(id@.len() as int) =~= Seq::<usize>::empty());
        }
        cur
    }

    /// The root value view of this document.
    pub fn root_value(&self) -> (r: Value<'_>)
        requires
            self.wf(),
        ensures
            r.wf(),
            r.spec_data() == *self,
            r.spec_id() == Seq::<usize>::empty(),
    {
        let r = Value { data: self, id: ValueId::root() };
        r
    }

    /// The value view a valid identity denotes.
    pub fn value(&self, id: ValueId) -> (r: Value<'_>)
        requires
            self.wf(),
            spec_node_at(self.spec_root(), id@) is Some,
        ensures
            r.wf(),
            r.spec_data() == *self,
            r.spec_id() == id@,
    {
        Value { data: self, id }
    }

    /// Renders the whole document, byte-identical to its source for
    /// everything that was not structurally changed.
    pub fn render(&self) -> (r: Vec<u8>)
        requires
            self.wf(),
        ensures
            r@ == spec_render(self.spec_root(), self.spec_strings()),
    {
        let mut out: Vec<u8> = Vec::new();
        self.root.display(&self.strings, &mut out);
        proof {
            assert(out@ =~= spec_render(self.spec_root(), self.spec_strings()));
        }
        out
    }
}

/// The result a boolean read yields for a tagged value: the recognized bare
/// boolean tokens and nothing else.
pub open spec fn spec_as_bool(kind: RawKind, strings: Seq<Seq<u8>>) -> Option<bool> {
    match kind {
        RawKind::String(s) => {
            if s.kind == StringKind::Bare && strings[s.string@] == spec_bool_bytes(true) {
                Some(true)
            } else if s.kind == StringKind::Bare && strings[s.string@] == spec_bool_bytes(false) {
                Some(false)
            } else {
                None::<bool>
            }
        }
        _ => None::<bool>,
    }
}

/// A value inside of a document: a borrow of the document paired with the
/// value's identity.
#[derive(Debug)]
pub struct Value<'a> {
    pub(crate) data: &'a Data,
    pub(crate) id: ValueId,
}

/// A three-way discrimination of a value: scalar, table view, or list view.
#[derive(Debug)]
pub enum Any<'a> {
    /// A scalar value: null, number, string, or boolean token.
    Scalar(Value<'a>),
    /// An ordered key/value table view.
    Mapping(Mapping<'a>),
    /// An ordered list view.
    Sequence(Sequence<'a>),
}

impl<'a> Value<'a> {
    /// The document this view reads.
    pub closed spec fn spec_data(&self) -> Data {
        *self.data
    }

    /// The path this view denotes.
    pub closed spec fn spec_id(&self) -> Seq<usize> {
        self.id@
    }

    /// The stored fragments of the document.
    pub open spec fn spec_strings(&self) -> Seq<Seq<u8>> {
        self.spec_data().spec_strings()
    }

    /// The node this view denotes.
    pub open spec fn spec_raw(&self) -> Raw {
        spec_node_at(self.spec_data().spec_root(), self.spec_id()).unwrap()
    }

    /// The view is over a well-formed document and denotes a node.
    pub open spec fn wf(&self) -> bool {
        self.spec_data().wf() && spec_node_at(self.spec_data().spec_root(), self.spec_id()) is Some
    }

    /// A view of the value a valid identity denotes.
    pub fn new(data: &'a Data, id: ValueId) -> (r: Value<'a>)
        ensures
            r.spec_data() == *data,
            r.spec_id() == id@,
    {
        Value { data, id }
    }

    /// The opaque identity of this value, usable to look the value up again.
    #[must_use]
    pub fn id(&self) -> (r: ValueId)
        ensures
            r@ == self.spec_id(),
    {
        self.id.dup()
    }

    /// Coerces into [`Any`] to discriminate the value's shape: exactly one
    /// of scalar, mapping, or sequence applies to every value.
    #[must_use]
    pub fn into_any(self) -> (r: Any<'a>)
        requires
            self.wf(),
        ensures
            (match self.spec_raw().kind {
                RawKind::Table(_) => r matches Any::Mapping(m) && m.spec_data()
                    == self.spec_data() && m.spec_id() == self.spec_id() && m.wf(),
                RawKind::List(_) => r matches Any::Sequence(s) && s.spec_data()
                    == self.spec_data() && s.spec_id() == self.spec_id() && s.wf(),
                _ => r matches Any::Scalar(v) && v.spec_data() == self.spec_data() && v.spec_id()
                    == self.spec_id() && v.wf(),
            }),
    {
        let raw = self.data.raw(&self.id);
        match &raw.kind {
            RawKind::Table(_) => Any::Mapping(Mapping { data: self.data, id: self.id }),
            RawKind::List(_) => Any::Sequence(Sequence { data: self.data, id: self.id }),
            _ => Any::Scalar(self),
        }
    }

    /// The raw bytes of a string value; nothing for any other kind.
    #[must_use]
    pub fn as_bstr(self) -> (r: Option<&'a [u8]>)
        requires
            self.wf(),
        ensures
            (match self.spec_raw().kind {
                RawKind::String(s) => r matches Some(b) && b@ == self.spec_strings()[s.string@],
                _ => r is None,
            }),
    {
        proof {
            crate::value::lemma_node_at_wf(
                self.spec_data().spec_root(),
                self.spec_id(),
                self.spec_strings().len() as int,
            );
        }
        let raw = self.data.raw(&self.id);
        match &raw.kind {
            RawKind::String(s) => Some(self.data.str(s.string)),
            _ => None,
        }
    }

    /// The stored text of a number value, exactly as it appeared; nothing
    /// for any other kind.  Numeric interpretation is performed lazily on
    /// read, never normalized on store.
    #[must_use]
    pub fn number_bstr(self) -> (r: Option<&'a [u8]>)
        requires
            self.wf(),
        ensures
            (match self.spec_raw().kind {
                RawKind::Number(number) => r matches Some(b) && b@ == self.spec_strings()[
                    number.string@
                ],
                _ => r is None,
            }),
    {
        proof {
            crate::value::lemma_node_at_wf(
                self.spec_data().spec_root(),
                self.spec_id(),
                self.spec_strings().len() as int,
            );
        }
        let raw = self.data.raw(&self.id);
        match &raw.kind {
            RawKind::Number(number) => Some(self.data.str(number.string)),
            _ => None,
        }
    }

    /// The text of a string value, when its bytes are valid UTF-8; nothing
    /// for any other kind, and nothing for a string whose bytes are not
    /// valid text.
    #[must_use]
    pub fn as_str(self) -> (r: Option<&'a str>)
        requires
            self.wf(),
        ensures
            (match self.spec_raw().kind {
                RawKind::String(s) => {
                    let text = self.spec_strings()[s.string@];
                    (r is Some <==> valid_utf8(text)) && (r matches Some(t) ==> t.spec_bytes()
                        == text)
                }
                _ => r is None,
            }),
    {
        proof {
            crate::value::lemma_node_at_wf(
                self.spec_data().spec_root(),
                self.spec_id(),
                self.spec_strings().len() as int,
            );
        }
        let raw = self.data.raw(&self.id);
        match &raw.kind {
            RawKind::String(s) => ext::bytes_to_str(self.data.str(s.string)),
            _ => None,
        }
    }

    /// The value of a recognized bare boolean token; nothing for any other
    /// shape, with no coercion.
    #[must_use]
    pub fn as_bool(&self) -> (r: Option<bool>)
        requires
            self.wf(),
        ensures
            r == spec_as_bool(self.spec_raw().kind, self.spec_strings()),
    {
        proof {
            crate::value::lemma_node_at_wf(
                self.spec_data().spec_root(),
                self.spec_id(),
                self.spec_strings().len() as int,
            );
        }
        let raw = self.data.raw(&self.id);
        match &raw.kind {
            RawKind::String(s) => {
                match s.kind {
                    StringKind::Bare => {
                        let text = self.data.str(s.string);
                        let word_true: [u8; 4] = [0x74, 0x72, 0x75, 0x65];
                        let word_false: [u8; 5] = [0x66, 0x61, 0x6c, 0x73, 0x65];
                        proof {
                            assert(word_true@ =~= spec_bool_bytes(true));
                            assert(word_false@ =~= spec_bool_bytes(false));
                        }
                        if bytes_eq(text, word_true.as_slice()) {
                            Some(true)
                        } else if bytes_eq(text, word_false.as_slice()) {
                            Some(false)
                        } else {
                            None
                        }
                    }
                    _ => None,
                }
            }
            _ => None,
        }
    }

    /// A table view of this value; nothing when it is not a table.
    #[must_use]
    pub fn as_mapping(&self) -> (r: Option<Mapping<'a>>)
        requires
            self.wf(),
        ensures
            (match self.spec_raw().kind {
                RawKind::Table(_) => r matches Some(m) && m.spec_data() == self.spec_data()
                    && m.spec_id() == self.spec_id() && m.wf(),
                _ => r is None,
            }),
    {
        let raw = self.data.raw(&self.id);
        match &raw.kind {
            RawKind::Table(_) => Some(Mapping { data: self.data, id: self.id.dup() }),
            _ => None,
        }
    }

    /// A list view of this value; nothing when it is not a list.
    #[must_use]
    pub fn as_sequence(&self) -> (r: Option<Sequence<'a>>)
        requires
            self.wf(),
        ensures
            (match self.spec_raw().kind {
                RawKind::List(_) => r matches Some(s) && s.spec_data() == self.spec_data()
                    && s.spec_id() == self.spec_id() && s.wf(),
                _ => r is None,
            }),
    {
        let raw = self.data.raw(&self.id);
        match &raw.kind {
            RawKind::List(_) => Some(Sequence { data: self.data, id: self.id.dup() }),
            _ => None,
        }
    }


    /// The stored text of a number node read as a `u8`; nothing for any
    /// other kind, and nothing when the text does not lexically parse as
    /// that type (an out-of-range literal is indistinguishable from a
    /// non-number).
    #[must_use]
    pub fn as_u8(&self) -> (r: Option<u8>)
        requires
            self.wf(),
        ensures
            (match self.spec_raw().kind {
                RawKind::Number(number) => (match ext::spec_parse_int(
                    self.spec_strings()[number.string@],
                    false,
                    0,
                    u8::MAX as int,
                ) {
                    Some(v) => r == Some(v as u8),
                    None => r is None,
                }),
                _ => r is None,
            }),
    {
        proof {
            crate::value::lemma_node_at_wf(
                self.spec_data().spec_root(),
                self.spec_id(),
                self.spec_strings().len() as int,
            );
        }
        let raw = self.data.raw(&self.id);
        match &raw.kind {
            RawKind::Number(number) => ext::parse_u8(self.data.str(number.string)),
            _ => None,
        }
    }

    /// The stored text of a number node read as a `i8`; nothing for any
    /// other kind, and nothing when the text does not lexically parse as
    /// that type (an out-of-range literal is indistinguishable from a
    /// non-number).
    #[must_use]
    pub fn as_i8(&self) -> (r: Option<i8>)
        requires
            self.wf(),
        ensures
            (match self.spec_raw().kind {
                RawKind::Number(number) => (match ext::spec_parse_int(
                    self.spec_strings()[number.string@],
                    true,
                    i8::MIN as int,
                    i8::MAX as int,
                ) {
                    Some(v) => r == Some(v as i8),
                    None => r is None,
                }),
                _ => r is None,
            }),
    {
        proof {
            crate::value::lemma_node_at_wf(
                self.spec_data().spec_root(),
                self.spec_id(),
                self.spec_strings().len() as int,
            );
        }
        let raw = self.data.raw(&self.id);
        match &raw.kind {
            RawKind::Number(number) => ext::parse_i8(self.data.str(number.string)),
            _ => None,
        }
    }

    /// The stored text of a number node read as a `u16`; nothing for any
    /// other kind, and nothing when the text does not lexically parse as
    /// that type (an out-of-range literal is indistinguishable from a
    /// non-number).
    #[must_use]
    pub fn as_u16(&self) -> (r: Option<u16>)
        requires
            self.wf(),
        ensures
            (match self.spec_raw().kind {
                RawKind::Number(number) => (match ext::spec_parse_int(
                    self.spec_strings()[number.string@],
                    false,
                    0,
                    u16::MAX as int,
                ) {
                    Some(v) => r == Some(v as u16),
                    None => r is None,
                }),
                _ => r is None,
            }),
    {
        proof {
            crate::value::lemma_node_at_wf(
                self.spec_data().spec_root(),
                self.spec_id(),
                self.spec_strings().len() as int,
            );
        }
        let raw = self.data.raw(&self.id);
        match &raw.kind {
            RawKind::Number(number) => ext::parse_u16(self.data.str(number.string)),
            _ => None,
        }
    }

    /// The stored text of a number node read as a `i16`; nothing for any
    /// other kind, and nothing when the text does not lexically parse as
    /// that type (an out-of-range literal is indistinguishable from a
    /// non-number).
    #[must_use]
    pub fn as_i16(&self) -> (r: Option<i16>)
        requires
            self.wf(),
        ensures
            (match self.spec_raw().kind {
                RawKind::Number(number) => (match ext::spec_parse_int(
                    self.spec_strings()[number.string@],
                    true,
                    i16::MIN as int,
                    i16::MAX as int,
                ) {
                    Some(v) => r == Some(v as i16),
                    None => r is None,
                }),
                _ => r is None,
            }),
    {
        proof {
            crate::value::lemma_node_at_wf(
                self.spec_data().spec_root(),
                self.spec_id(),
                self.spec_strings().len() as int,
            );
        }
        let raw = self.data.raw(&self.id);
        match &raw.kind {
            RawKind::Number(number) => ext::parse_i16(self.data.str(number.string)),
            _ => None,
        }
    }

    /// The stored text of a number node read as a `u32`; nothing for any
    /// other kind, and nothing when the text does not lexically parse as
    /// that type (an out-of-range literal is indistinguishable from a
    /// non-number).
    #[must_use]
    pub fn as_u32(&self) -> (r: Option<u32>)
        requires
            self.wf(),
        ensures
            (match self.spec_raw().kind {
                RawKind::Number(number) => (match ext::spec_parse_int(
                    self.spec_strings()[number.string@],
                    false,
                    0,
                    u32::MAX as int,
                ) {
                    Some(v) => r == Some(v as u32),
                    None => r is None,
                }),
                _ => r is None,
            }),
    {
        proof {
            crate::value::lemma_node_at_wf(
                self.spec_data().spec_root(),
                self.spec_id(),
                self.spec_strings().len() as int,
            );
        }
        let raw = self.data.raw(&self.id);
        match &raw.kind {
            RawKind::Number(number) => ext::parse_u32(self.data.str(number.string)),
            _ => None,
        }
    }

    /// The stored text of a number node read as a `i32`; nothing for any
    /// other kind, and nothing when the text does not lexically parse as
    /// that type (an out-of-range literal is indistinguishable from a
    /// non-number).
    #[must_use]
    pub fn as_i32(&self) -> (r: Option<i32>)
        requires
            self.wf(),
        ensures
            (match self.spec_raw().kind {
                RawKind::Number(number) => (match ext::spec_parse_int(
                    self.spec_strings()[number.string@],
                    true,
                    i32::MIN as int,
                    i32::MAX as int,
                ) {
                    Some(v) => r == Some(v as i32),
                    None => r is None,
                }),
                _ => r is None,
            }),
    {
        proof {
            crate::value::lemma_node_at_wf(
                self.spec_data().spec_root(),
                self.spec_id(),
                self.spec_strings().len() as int,
            );
        }
        let raw = self.data.raw(&self.id);
        match &raw.kind {
            RawKind::Number(number) => ext::parse_i32(self.data.str(number.string)),
            _ => None,
        }
    }

    /// The stored text of a number node read as a `u64`; nothing for any
    /// other kind, and nothing when the text does not lexically parse as
    /// that type (an out-of-range literal is indistinguishable from a
    /// non-number).
    #[must_use]
    pub fn as_u64(&self) -> (r: Option<u64>)
        requires
            self.wf(),
        ensures
            (match self.spec_raw().kind {
                RawKind::Number(number) => (match ext::spec_parse_int(
                    self.spec_strings()[number.string@],
                    false,
                    0,
                    u64::MAX as int,
                ) {
                    Some(v) => r == Some(v as u64),
                    None => r is None,
                }),
                _ => r is None,
            }),
    {
        proof {
            crate::value::lemma_node_at_wf(
                self.spec_data().spec_root(),
                self.spec_id(),
                self.spec_strings().len() as int,
            );
        }
        let raw = self.data.raw(&self.id);
        match &raw.kind {
            RawKind::Number(number) => ext::parse_u64(self.data.str(number.string)),
            _ => None,
        }
    }

    /// The stored text of a number node read as a `i64`; nothing for any
    /// other kind, and nothing when the text does not lexically parse as
    /// that type (an out-of-range literal is indistinguishable from a
    /// non-number).
    #[must_use]
    pub fn as_i64(&self) -> (r: Option<i64>)
        requires
            self.wf(),
        ensures
            (match self.spec_raw().kind {
                RawKind::Number(number) => (match ext::spec_parse_int(
                    self.spec_strings()[number.string@],
                    true,
                    i64::MIN as int,
                    i64::MAX as int,
                ) {
                    Some(v) => r == Some(v as i64),
                    None => r is None,
                }),
                _ => r is None,
            }),
    {
        proof {
            crate::value::lemma_node_at_wf(
                self.spec_data().spec_root(),
                self.spec_id(),
                self.spec_strings().len() as int,
            );
        }
        let raw = self.data.raw(&self.id);
        match &raw.kind {
            RawKind::Number(number) => ext::parse_i64(self.data.str(number.string)),
            _ => None,
        }
    }

    /// The stored text of a number node read as a `u128`; nothing for any
    /// other kind, and nothing when the text does not lexically parse as
    /// that type (an out-of-range literal is indistinguishable from a
    /// non-number).
    #[must_use]
    pub fn as_u128(&self) -> (r: Option<u128>)
        requires
            self.wf(),
        ensures
            (match self.spec_raw().kind {
                RawKind::Number(number) => (match ext::spec_parse_int(
                    self.spec_strings()[number.string@],
                    false,
                    0,
                    u128::MAX as int,
                ) {
                    Some(v) => r == Some(v as u128),
                    None => r is None,
                }),
                _ => r is None,
            }),
    {
        proof {
            crate::value::lemma_node_at_wf(
                self.spec_data().spec_root(),
                self.spec_id(),
                self.spec_strings().len() as int,
            );
        }
        let raw = self.data.raw(&self.id);
        match &raw.kind {
            RawKind::Number(number) => ext::parse_u128(self.data.str(number.string)),
            _ => None,
        }
    }

    /// The stored text of a number node read as a `i128`; nothing for any
    /// other kind, and nothing when the text does not lexically parse as
    /// that type (an out-of-range literal is indistinguishable from a
    /// non-number).
    #[must_use]
    pub fn as_i128(&self) -> (r: Option<i128>)
        requires
            self.wf(),
        ensures
            (match self.spec_raw().kind {
                RawKind::Number(number) => (match ext::spec_parse_int(
                    self.spec_strings()[number.string@],
                    true,
                    i128::MIN as int,
                    i128::MAX as int,
                ) {
                    Some(v) => r == Some(v as i128),
                    None => r is None,
                }),
                _ => r is None,
            }),
    {
        proof {
            crate::value::lemma_node_at_wf(
                self.spec_data().spec_root(),
                self.spec_id(),
                self.spec_strings().len() as int,
            );
        }
        let raw = self.data.raw(&self.id);
        match &raw.kind {
            RawKind::Number(number) => ext::parse_i128(self.data.str(number.string)),
            _ => None,
        }
    }

    /// Renders this value and its subtree, appending the exact document
    /// text to `out`.
    pub fn display(&self, out: &mut Vec<u8>)
        requires
            self.wf(),
        ensures
            final(out)@ == old(out)@ + spec_render(self.spec_raw(), self.spec_strings()),
    {
        proof {
            crate::value::lemma_node_at_wf(
                self.spec_data().spec_root(),
                self.spec_id(),
                self.spec_strings().len() as int,
            );
        }
        let raw = self.data.raw(&self.id);
        raw.display(&self.data.strings, out);
    }
}

/// An ordered key/value table view.
#[derive(Debug)]
pub struct Mapping<'a> {
    pub(crate) data: &'a Data,
    pub(crate) id: ValueId,
}

impl<'a> Mapping<'a> {
    /// The document this view reads.
    pub closed spec fn spec_data(&self) -> Data {
        *self.data
    }

    /// The path this view denotes.
    pub closed spec fn spec_id(&self) -> Seq<usize> {
        self.id@
    }

    /// The stored fragments of the document.
    pub open spec fn spec_strings(&self) -> Seq<Seq<u8>> {
        self.spec_data().spec_strings()
    }

    /// The table node this view denotes.
    pub open spec fn spec_table(&self) -> RawTable {
        spec_node_at(self.spec_data().spec_root(), self.spec_id()).unwrap().kind->Table_0
    }

    /// The view is over a well-formed document and denotes a table node.
    pub open spec fn wf(&self) -> bool {
        self.spec_data().wf() && spec_node_at(self.spec_data().spec_root(), self.spec_id()) is Some
            && spec_node_at(self.spec_data().spec_root(), self.spec_id()).unwrap().kind is Table
    }

    /// The number of entries, known exactly in advance.
    pub fn len(&self) -> (r: usize)
        requires
            self.wf(),
        ensures
            r == self.spec_table().items@.len(),
    {
        let raw = self.data.raw(&self.id);
        match &raw.kind {
            RawKind::Table(table) => table.items.len(),
            _ => {
                proof {
                    assert(false);
                }
                unreached()
            }
        }
    }

    /// An iterator over this table's entries, in storage order.
    pub fn iter(&self) -> (r: Iter<'a>)
        requires
            self.wf(),
        ensures
            r.wf(),
            r.spec_data() == self.spec_data(),
            r.spec_base() == self.spec_id(),
            r.spec_start() == 0,
            r.spec_end() == self.spec_table().items@.len(),
    {
        Iter::new(self.data, self.id.dup())
    }

    /// The value stored under the first entry whose key bytes equal `key`,
    /// if any.
    pub fn get(&self, key: &[u8]) -> (r: Option<Value<'a>>)
        requires
            self.wf(),
        ensures
            (match spec_find_key(self.spec_table().items@, self.spec_strings(), key@) {
                Some(j) => r matches Some(v) && v.wf() && v.spec_data() == self.spec_data()
                    && v.spec_id() == self.spec_id().push(j as usize) && v.spec_raw()
                    == *self.spec_table().items@[j].value,
                None => r is None,
            }),
    {
        proof {
            crate::value::lemma_node_at_wf(
                self.spec_data().spec_root(),
                self.spec_id(),
                self.spec_strings().len() as int,
            );
        }
        let raw = self.data.raw(&self.id);
        match &raw.kind {
            RawKind::Table(table) => {
                match find_key(&table.items, &self.data.strings, key) {
                    Some(j) => {
                        proof {
                            crate::raw::lemma_find_key_props(
                                table.items@,
                                self.spec_strings(),
                                key@,
                            );
                            lemma_node_at_table_child(
                                self.spec_data().spec_root(),
                                self.spec_id(),
                                j,
                            );
                        }
                        Some(Value { data: self.data, id: self.id.child(j) })
                    }
                    None => None,
                }
            }
            _ => {
                proof {
                    assert(false);
                }
                unreached()
            }
        }
    }
}

/// An ordered list view.
#[derive(Debug)]
pub struct Sequence<'a> {
    pub(crate) data: &'a Data,
    pub(crate) id: ValueId,
}

impl<'a> Sequence<'a> {
    /// The document this view reads.
    pub closed spec fn spec_data(&self) -> Data {
        *self.data
    }

    /// The path this view denotes.
    pub closed spec fn spec_id(&self) -> Seq<usize> {
        self.id@
    }

    /// The stored fragments of the document.
    pub open spec fn spec_strings(&self) -> Seq<Seq<u8>> {
        self.spec_data().spec_strings()
    }

    /// The list node this view denotes.
    pub open spec fn spec_list(&self) -> crate::raw::RawList {
        spec_node_at(self.spec_data().spec_root(), self.spec_id()).unwrap().kind->List_0
    }

    /// The view is over a well-formed document and denotes a list node.
    pub open spec fn wf(&self) -> bool {
        self.spec_data().wf() && spec_node_at(self.spec_data().spec_root(), self.spec_id()) is Some
            && spec_node_at(self.spec_data().spec_root(), self.spec_id()).unwrap().kind is List
    }

    /// The number of items, known exactly in advance.
    pub fn len(&self) -> (r: usize)
        requires
            self.wf(),
        ensures
            r == self.spec_list().items@.len(),
    {
        let raw = self.data.raw(&self.id);
        match &raw.kind {
            RawKind::List(list) => list.items.len(),
            _ => {
                proof {
                    assert(false);
                }
                unreached()
            }
        }
    }

    /// The value of the item at `index`, if the list is that long.
    pub fn get(&self, index: usize) -> (r: Option<Value<'a>>)
        requires
            self.wf(),
        ensures
            (if (index as int) < self.spec_list().items@.len() {
                r matches Some(v) && v.wf() && v.spec_data() == self.spec_data() && v.spec_id()
                    == self.spec_id().push(index) && v.spec_raw() == *self.spec_list().items@[
                    index as int
                ].value
            } else {
                r is None
            }),
    {
        let raw = self.data.raw(&self.id);
        match &raw.kind {
            RawKind::List(list) => {
                if index < list.items.len() {
                    proof {
                        lemma_node_at_list_child(
                            self.spec_data().spec_root(),
                            self.spec_id(),
                            index,
                        );
                    }
                    Some(Value { data: self.data, id: self.id.child(index) })
                } else {
                    None
                }
            }
            _ => {
                proof {
                    assert(false);
                }
                unreached()
            }
        }
    }
}

} // verus!
