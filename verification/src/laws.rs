//! The laws this library states of itself, each proved from the public
//! contracts: what a repeated insert leaves in place, what an append adds to
//! the rendered text, that quoted renderings decode back to their content,
//! how values classify, and that a push never changes a container's form.

use vstd::prelude::*;

use crate::raw::{
    lemma_find_key_props, lemma_render_litems_grow, lemma_render_litems_snoc,
    lemma_render_titems_grow, lemma_render_titems_snoc, spec_escape_double,
    spec_escape_double_byte, spec_escape_single, spec_escape_single_byte, spec_find_key,
    spec_hex_digit, spec_hex_val, spec_is_control, spec_is_hex, spec_list_pushed,
    spec_prefix_text, spec_render, spec_render_list, spec_render_litem, spec_render_litems,
    spec_render_table, spec_render_titem, spec_render_titems, spec_sep_derived,
    spec_short_unescape, spec_table_inserted, spec_unescape_double, spec_unescape_single,
    wf_list, wf_litem, wf_table, wf_titem, RawKind, RawList, RawListKind, RawTable,
    RawTableItem, RawTableKind,
};
use crate::strings::{spec_extends, wf_sid, StringId};
use crate::value::{spec_as_bool, Separator};

verus! {

broadcast use vstd::std_specs::vec::group_vec_axioms;

// ----------------------------------------------------------------------------
// Key lookup depends only on the key bytes of the entries.

proof fn lemma_find_key_same(
    a: Seq<RawTableItem>,
    sa: Seq<Seq<u8>>,
    b: Seq<RawTableItem>,
    sb: Seq<Seq<u8>>,
    key: Seq<u8>,
)
    requires
        a.len() == b.len(),
        forall|i: int|
            0 <= i < a.len() ==> sb[#[trigger] b[i].key.string@] == sa[a[i].key.string@],
    ensures
        spec_find_key(b, sb, key) == spec_find_key(a, sa, key),
    decreases a,
{
    if a.len() > 0 {
        assert(sb[b[0].key.string@] == sa[a[0].key.string@]);
        let da = a.drop_first();
        let db = b.drop_first();
        assert forall|i: int|
            0 <= i < da.len() implies sb[#[trigger] db[i].key.string@] == sa[da[i].key.string@] by {
            assert(da[i] == a[i + 1]);
            assert(db[i] == b[i + 1]);
        }
        lemma_find_key_same(da, sa, db, sb, key);
    }
}

/// Inserting under a key that already exists, and then inserting under the
/// same key again, leaves the entry count unchanged, keeps the entry's
/// position, line prefix and key text, and leaves the second value in place:
/// a subsequent lookup of the key finds it there.
pub proof fn lemma_insert_replace_idempotent(
    t0: RawTable,
    s0: Seq<Seq<u8>>,
    t1: RawTable,
    s1: Seq<Seq<u8>>,
    t2: RawTable,
    s2: Seq<Seq<u8>>,
    indent1: StringId,
    indent2: StringId,
    sep1: Separator,
    sep2: Separator,
    key: Seq<u8>,
    v1: RawKind,
    v2: RawKind,
    i1: int,
    i2: int,
)
    requires
        wf_table(t0, s0.len() as int),
        spec_find_key(t0.items@, s0, key) is Some,
        spec_table_inserted(t0, s0, t1, s1, indent1, sep1, key, v1, i1),
        spec_table_inserted(t1, s1, t2, s2, indent2, sep2, key, v2, i2),
    ensures
        i1 == spec_find_key(t0.items@, s0, key).unwrap(),
        i2 == i1,
        t1.items@.len() == t0.items@.len(),
        t2.items@.len() == t0.items@.len(),
        t2.items@[i1].prefix == t0.items@[i1].prefix,
        t2.items@[i1].key == t0.items@[i1].key,
        (*t2.items@[i1].value).kind == v2,
        spec_find_key(t2.items@, s2, key) == Some(i1),
{
    let j = spec_find_key(t0.items@, s0, key).unwrap();
    lemma_find_key_props(t0.items@, s0, key);
    assert(i1 == j);
    // The interner only grows across the first insert.
    assert(spec_extends(s1, s0)) by {
        match sep1 {
            Separator::Auto => {}
            Separator::Custom(_) => {}
        }
    }
    // Key bytes are untouched, so the second lookup finds the same entry.
    assert forall|i: int|
        0 <= i < t0.items@.len() implies s1[#[trigger] t1.items@[i].key.string@] == s0[t0.items@[
        i
    ].key.string@] by {
        assert(wf_titem(t0.items@[i], s0.len() as int));
        if i != j {
            assert(t1.items@[i] == t0.items@[i]);
        }
    }
    lemma_find_key_same(t0.items@, s0, t1.items@, s1, key);
    assert(spec_find_key(t1.items@, s1, key) == Some(j));
    assert(i2 == j);
    assert(spec_extends(s2, s1)) by {
        match sep2 {
            Separator::Auto => {}
            Separator::Custom(_) => {}
        }
    }
    assert forall|i: int|
        0 <= i < t1.items@.len() implies s2[#[trigger] t2.items@[i].key.string@] == s1[t1.items@[
        i
    ].key.string@] by {
        assert(wf_titem(t0.items@[i], s0.len() as int));
        if i != j {
            assert(t2.items@[i] == t1.items@[i]);
            assert(t1.items@[i] == t0.items@[i]);
        } else {
            assert(t2.items@[j].key == t1.items@[j].key);
            assert(t1.items@[j].key == t0.items@[j].key);
        }
    }
    lemma_find_key_same(t1.items@, s1, t2.items@, s2, key);
}

/// Inserting a fresh key into an expanded table appends at the old entry
/// count, re-renders every prior entry's text unchanged, and adds exactly
/// one new entry: its derived prefix, the key, a colon, the derived
/// separator (the last entry's, or a single space in an empty table, or the
/// custom bytes verbatim), and the value's rendering.
pub proof fn lemma_insert_append_render(
    t0: RawTable,
    s0: Seq<Seq<u8>>,
    t1: RawTable,
    s1: Seq<Seq<u8>>,
    indent: StringId,
    sep: Separator,
    key: Seq<u8>,
    value: RawKind,
    i: int,
)
    requires
        t0.kind == RawTableKind::Table,
        wf_table(t0, s0.len() as int),
        spec_find_key(t0.items@, s0, key) is None,
        spec_table_inserted(t0, s0, t1, s1, indent, sep, key, value, i),
    ensures
        i == t0.items@.len(),
        t1.items@.len() == t0.items@.len() + 1,
        spec_render_table(t1, s1) == spec_render_table(t0, s0) + spec_prefix_text(
            t1.items@.last().prefix,
            s1,
        ) + key + seq![0x3au8] + s1[t1.items@.last().separator@] + spec_render(
            *t1.items@.last().value,
            s1,
        ),
        t0.items@.len() > 0 ==> t1.items@.last().prefix == Some(indent),
        t0.items@.len() == 0 ==> t1.items@.last().prefix is None,
        (sep is Auto && t0.items@.len() > 0) ==> s1[t1.items@.last().separator@] == s0[t0.items@.last().separator@],
        (sep is Auto && t0.items@.len() == 0) ==> s1[t1.items@.last().separator@] == seq![0x20u8],
        sep matches Separator::Custom(text) ==> s1[t1.items@.last().separator@] == text@,
{
    let items0 = t0.items@;
    let item = t1.items@.last();
    let key_s = s0.push(key);
    assert(t1.items@ =~= items0.push(item));
    assert(spec_extends(s1, s0)) by {
        match sep {
            Separator::Auto => {}
            Separator::Custom(_) => {}
        }
    }
    assert(s1[item.key.string@] == key) by {
        match sep {
            Separator::Auto => {}
            Separator::Custom(_) => {}
        }
    }
    if t0.items@.len() > 0 {
        assert(wf_titem(items0.last(), s0.len() as int));
    }
    lemma_render_titems_grow(items0, s0, s1, false);
    lemma_render_titems_snoc(items0, item, s1, false);
    assert(spec_render_titem(item, s1) == spec_prefix_text(item.prefix, s1) + key + seq![0x3au8]
        + s1[item.separator@] + spec_render(*item.value, s1));
    if items0.len() == 0 {
        assert(spec_render_titems(items0, s1, false) =~= Seq::<u8>::empty());
        assert(spec_render_table(t1, s1) =~= spec_render_table(t0, s0) + spec_prefix_text(
            item.prefix,
            s1,
        ) + key + seq![0x3au8] + s1[item.separator@] + spec_render(*item.value, s1));
    } else {
        assert(spec_render_table(t1, s1) =~= spec_render_table(t0, s0) + spec_prefix_text(
            item.prefix,
            s1,
        ) + key + seq![0x3au8] + s1[item.separator@] + spec_render(*item.value, s1));
    }
}

/// Inserting a fresh key into a compact table keeps its compact form,
/// trailing comma and suffix, and renders as the old entries, a comma when
/// the table was not empty, and the new entry, inside the same braces.
pub proof fn lemma_insert_append_render_inline(
    t0: RawTable,
    s0: Seq<Seq<u8>>,
    t1: RawTable,
    s1: Seq<Seq<u8>>,
    indent: StringId,
    sep: Separator,
    key: Seq<u8>,
    value: RawKind,
    i: int,
)
    requires
        t0.kind is Inline,
        wf_table(t0, s0.len() as int),
        spec_find_key(t0.items@, s0, key) is None,
        spec_table_inserted(t0, s0, t1, s1, indent, sep, key, value, i),
    ensures
        i == t0.items@.len(),
        t1.kind == t0.kind,
        spec_render_table(t1, s1) == seq![0x7bu8] + spec_render_titems(t0.items@, s0, true) + (
        if t0.items@.len() > 0 {
            seq![0x2cu8]
        } else {
            Seq::<u8>::empty()
        }) + spec_render_titem(t1.items@.last(), s1) + (
        if t0.kind->Inline_trailing {
            seq![0x2cu8]
        } else {
            Seq::<u8>::empty()
        }) + s0[t0.kind->Inline_suffix@] + seq![0x7du8],
{
    let items0 = t0.items@;
    let item = t1.items@.last();
    assert(t1.items@ =~= items0.push(item));
    assert(spec_extends(s1, s0)) by {
        match sep {
            Separator::Auto => {}
            Separator::Custom(_) => {}
        }
    }
    lemma_render_titems_grow(items0, s0, s1, true);
    lemma_render_titems_snoc(items0, item, s1, true);
    assert(wf_sid(t0.kind->Inline_suffix, s0.len() as int));
    assert(s1[t0.kind->Inline_suffix@] == s0[t0.kind->Inline_suffix@]);
    if items0.len() == 0 {
        assert(spec_render_titems(items0, s1, true) =~= Seq::<u8>::empty());
        assert(spec_render_table(t1, s1) =~= seq![0x7bu8] + spec_render_titems(items0, s0, true)
            + spec_render_titem(item, s1) + (
        if t0.kind->Inline_trailing {
            seq![0x2cu8]
        } else {
            Seq::<u8>::empty()
        }) + s0[t0.kind->Inline_suffix@] + seq![0x7du8]);
    } else {
        assert(spec_render_table(t1, s1) =~= seq![0x7bu8] + spec_render_titems(items0, s0, true)
            + seq![0x2cu8] + spec_render_titem(item, s1) + (
        if t0.kind->Inline_trailing {
            seq![0x2cu8]
        } else {
            Seq::<u8>::empty()
        }) + s0[t0.kind->Inline_suffix@] + seq![0x7du8]);
    }
}

/// A push onto a compact list keeps its compact form, trailing comma and
/// suffix, and renders as the old items, a comma when the list was not
/// empty, and the new item, inside the same brackets.
pub proof fn lemma_push_render_inline(
    l0: RawList,
    s0: Seq<Seq<u8>>,
    l1: RawList,
    s1: Seq<Seq<u8>>,
    indent: StringId,
    sep: Separator,
    value: RawKind,
)
    requires
        l0.kind is Inline,
        wf_list(l0, s0.len() as int),
        spec_list_pushed(l0, s0, l1, s1, indent, sep, value),
    ensures
        l1.kind == l0.kind,
        spec_render_list(l1, s1) == seq![0x5bu8] + spec_render_litems(l0.items@, s0, true) + (
        if l0.items@.len() > 0 {
            seq![0x2cu8]
        } else {
            Seq::<u8>::empty()
        }) + spec_render_litem(l1.items@.last(), s1, false) + (
        if l0.kind->Inline_trailing {
            seq![0x2cu8]
        } else {
            Seq::<u8>::empty()
        }) + s0[l0.kind->Inline_suffix@] + seq![0x5du8],
{
    let items0 = l0.items@;
    let item = l1.items@.last();
    assert(l1.items@ =~= items0.push(item));
    assert(spec_extends(s1, s0)) by {
        match sep {
            Separator::Auto => {}
            Separator::Custom(_) => {}
        }
    }
    lemma_render_litems_grow(items0, s0, s1, true);
    lemma_render_litems_snoc(items0, item, s1, true);
    assert(wf_sid(l0.kind->Inline_suffix, s0.len() as int));
    assert(s1[l0.kind->Inline_suffix@] == s0[l0.kind->Inline_suffix@]);
    if items0.len() == 0 {
        assert(spec_render_litems(items0, s1, true) =~= Seq::<u8>::empty());
        assert(spec_render_list(l1, s1) =~= seq![0x5bu8] + spec_render_litems(items0, s0, true)
            + spec_render_litem(item, s1, false) + (
        if l0.kind->Inline_trailing {
            seq![0x2cu8]
        } else {
            Seq::<u8>::empty()
        }) + s0[l0.kind->Inline_suffix@] + seq![0x5du8]);
    } else {
        assert(spec_render_list(l1, s1) =~= seq![0x5bu8] + spec_render_litems(items0, s0, true)
            + seq![0x2cu8] + spec_render_litem(item, s1, false) + (
        if l0.kind->Inline_trailing {
            seq![0x2cu8]
        } else {
            Seq::<u8>::empty()
        }) + s0[l0.kind->Inline_suffix@] + seq![0x5du8]);
    }
}

/// A push onto an expanded list keeps its expanded form and renders as the
/// old list followed by the new item with its `-` marker.
pub proof fn lemma_push_render_expanded(
    l0: RawList,
    s0: Seq<Seq<u8>>,
    l1: RawList,
    s1: Seq<Seq<u8>>,
    indent: StringId,
    sep: Separator,
    value: RawKind,
)
    requires
        l0.kind == RawListKind::Table,
        wf_list(l0, s0.len() as int),
        spec_list_pushed(l0, s0, l1, s1, indent, sep, value),
    ensures
        l1.kind == l0.kind,
        spec_render_list(l1, s1) == spec_render_list(l0, s0) + spec_render_litem(
            l1.items@.last(),
            s1,
            true,
        ),
{
    let items0 = l0.items@;
    let item = l1.items@.last();
    assert(l1.items@ =~= items0.push(item));
    assert(spec_extends(s1, s0)) by {
        match sep {
            Separator::Auto => {}
            Separator::Custom(_) => {}
        }
    }
    lemma_render_litems_grow(items0, s0, s1, false);
    lemma_render_litems_snoc(items0, item, s1, false);
    if items0.len() == 0 {
        assert(spec_render_litems(items0, s1, false) =~= Seq::<u8>::empty());
        assert(spec_render_list(l1, s1) =~= spec_render_list(l0, s0) + spec_render_litem(
            item,
            s1,
            true,
        ));
    } else {
        assert(spec_render_list(l1, s1) =~= spec_render_list(l0, s0) + spec_render_litem(
            item,
            s1,
            true,
        ));
    }
}

// ----------------------------------------------------------------------------
// Quoting round trips.

/// Decoding the single-quoted rendering of any content yields that content.
pub proof fn lemma_single_quote_roundtrip(s: Seq<u8>)
    ensures
        spec_unescape_single(spec_escape_single(s)) == Some(s),
    decreases s.len(),
{
    if s.len() == 0 {
        assert(spec_escape_single(s) =~= Seq::<u8>::empty());
    } else {
        let rest = s.drop_first();
        lemma_single_quote_roundtrip(rest);
        let eb = spec_escape_single_byte(s[0]);
        let er = spec_escape_single(rest);
        let e = spec_escape_single(s);
        assert(e == eb + er);
        if s[0] == 0x27 {
            assert(eb =~= seq![0x27u8, 0x27u8]);
            assert(e[0] == 0x27 && e.len() >= 2 && e[1] == 0x27);
            assert(e.skip(2) =~= er);
            assert(spec_unescape_single(e) == Some(seq![0x27u8] + rest));
            assert(seq![0x27u8] + rest =~= s);
        } else {
            assert(eb =~= seq![s[0]]);
            assert(e[0] == s[0]);
            assert(e.drop_first() =~= er);
            assert(spec_unescape_single(e) == Some(seq![s[0]] + rest));
            assert(seq![s[0]] + rest =~= s);
        }
    }
}

/// Decoding the double-quoted rendering of a content yields that content,
/// for any content free of backslash bytes.  A literal backslash passes
/// through the escaper unchanged, so its rendering reads back as an escape
/// sequence: such contents are the one exclusion.
pub proof fn lemma_double_quote_roundtrip(s: Seq<u8>)
    requires
        forall|i: int| 0 <= i < s.len() ==> s[i] != 0x5c,
    ensures
        spec_unescape_double(spec_escape_double(s)) == Some(s),
    decreases s.len(),
{
    if s.len() == 0 {
        assert(spec_escape_double(s) =~= Seq::<u8>::empty());
    } else {
        let b = s[0];
        let rest = s.drop_first();
        assert forall|i: int| 0 <= i < rest.len() implies rest[i] != 0x5c by {
            assert(rest[i] == s[i + 1]);
        }
        lemma_double_quote_roundtrip(rest);
        let eb = spec_escape_double_byte(b);
        let er = spec_escape_double(rest);
        let e = spec_escape_double(s);
        assert(e == eb + er);
        if b == 0x00 {
            assert(eb =~= seq![0x5cu8, 0x30u8]);
            assert(e[0] == 0x5c && e.len() >= 2 && e[1] == 0x30);
            assert(e.skip(2) =~= er);
            assert(spec_short_unescape(0x30) == Some(0x00u8));
            assert(spec_unescape_double(e) == Some(seq![b] + rest));
            assert(seq![b] + rest =~= s);
        } else if b == 0x07 {
            assert(eb =~= seq![0x5cu8, 0x61u8]);
            assert(e[0] == 0x5c && e.len() >= 2 && e[1] == 0x61);
            assert(e.skip(2) =~= er);
            assert(spec_short_unescape(0x61) == Some(0x07u8));
            assert(spec_unescape_double(e) == Some(seq![b] + rest));
            assert(seq![b] + rest =~= s);
        } else if b == 0x08 {
            assert(eb =~= seq![0x5cu8, 0x62u8]);
            assert(e[0] == 0x5c && e.len() >= 2 && e[1] == 0x62);
            assert(e.skip(2) =~= er);
            assert(spec_short_unescape(0x62) == Some(0x08u8));
            assert(spec_unescape_double(e) == Some(seq![b] + rest));
            assert(seq![b] + rest =~= s);
        } else if b == 0x09 {
            assert(eb =~= seq![0x5cu8, 0x74u8]);
            assert(e[0] == 0x5c && e.len() >= 2 && e[1] == 0x74);
            assert(e.skip(2) =~= er);
            assert(spec_short_unescape(0x74) == Some(0x09u8));
            assert(spec_unescape_double(e) == Some(seq![b] + rest));
            assert(seq![b] + rest =~= s);
        } else if b == 0x0a {
            assert(eb =~= seq![0x5cu8, 0x6eu8]);
            assert(e[0] == 0x5c && e.len() >= 2 && e[1] == 0x6e);
            assert(e.skip(2) =~= er);
            assert(spec_short_unescape(0x6e) == Some(0x0au8));
            assert(spec_unescape_double(e) == Some(seq![b] + rest));
            assert(seq![b] + rest =~= s);
        } else if b == 0x0b {
            assert(eb =~= seq![0x5cu8, 0x76u8]);
            assert(e[0] == 0x5c && e.len() >= 2 && e[1] == 0x76);
            assert(e.skip(2) =~= er);
            assert(spec_short_unescape(0x76) == Some(0x0bu8));
            assert(spec_unescape_double(e) == Some(seq![b] + rest));
            assert(seq![b] + rest =~= s);
        } else if b == 0x0c {
            assert(eb =~= seq![0x5cu8, 0x66u8]);
            assert(e[0] == 0x5c && e.len() >= 2 && e[1] == 0x66);
            assert(e.skip(2) =~= er);
            assert(spec_short_unescape(0x66) == Some(0x0cu8));
            assert(spec_unescape_double(e) == Some(seq![b] + rest));
            assert(seq![b] + rest =~= s);
        } else if b == 0x0d {
            assert(eb =~= seq![0x5cu8, 0x72u8]);
            assert(e[0] == 0x5c && e.len() >= 2 && e[1] == 0x72);
            assert(e.skip(2) =~= er);
            assert(spec_short_unescape(0x72) == Some(0x0du8));
            assert(spec_unescape_double(e) == Some(seq![b] + rest));
            assert(seq![b] + rest =~= s);
        } else if b == 0x1b {
            assert(eb =~= seq![0x5cu8, 0x65u8]);
            assert(e[0] == 0x5c && e.len() >= 2 && e[1] == 0x65);
            assert(e.skip(2) =~= er);
            assert(spec_short_unescape(0x65) == Some(0x1bu8));
            assert(spec_unescape_double(e) == Some(seq![b] + rest));
            assert(seq![b] + rest =~= s);
        } else if b == 0x22 {
            assert(eb =~= seq![0x5cu8, 0x22u8]);
            assert(e[0] == 0x5c && e.len() >= 2 && e[1] == 0x22);
            assert(e.skip(2) =~= er);
            assert(spec_short_unescape(0x22) == Some(0x22u8));
            assert(spec_unescape_double(e) == Some(seq![b] + rest));
            assert(seq![b] + rest =~= s);
        } else if spec_is_control(b) {
            let h1 = spec_hex_digit(b / 16);
            let h2 = spec_hex_digit(b % 16);
            assert(eb =~= seq![0x5cu8, 0x78u8, h1, h2]);
            crate::raw::lemma_hex_digit_val(b / 16);
            crate::raw::lemma_hex_digit_val(b % 16);
            assert(e[0] == 0x5c && e.len() >= 4 && e[1] == 0x78);
            assert(e[2] == h1 && e[3] == h2);
            assert(spec_is_hex(e[2]) && spec_is_hex(e[3]));
            assert(e.skip(4) =~= er);
            assert(spec_hex_val(h1) * 16 + spec_hex_val(h2) == b);
            assert(spec_unescape_double(e) == Some(seq![b] + rest));
            assert(seq![b] + rest =~= s);
        } else {
            assert(eb =~= seq![b]);
            assert(e[0] == b && b != 0x5c);
            assert(e.drop_first() =~= er);
            assert(spec_unescape_double(e) == Some(seq![b] + rest));
            assert(seq![b] + rest =~= s);
        }
    }
}

// ----------------------------------------------------------------------------
// Type narrowing.

/// Whether a tagged value is a scalar: not a table and not a list.
pub open spec fn spec_is_scalar(kind: RawKind) -> bool {
    kind is Null || kind is Number || kind is String
}

/// Every tagged value falls in exactly one of the three classes the
/// any-coercion reports: scalar, mapping (table), or sequence (list); and
/// the scalar readers respect the tag: only a string can read as a boolean
/// token, and a number reads as no boolean.  The one overlap among scalar
/// readers is by design: a bare boolean token is stored as a string, so the
/// raw string reader yields it as well.
pub proof fn lemma_type_narrowing(kind: RawKind, strings: Seq<Seq<u8>>)
    ensures
        spec_is_scalar(kind) || kind is Table || kind is List,
        spec_is_scalar(kind) ==> !(kind is Table) && !(kind is List),
        kind is Table ==> !(kind is List) && !spec_is_scalar(kind),
        kind is List ==> !(kind is Table) && !spec_is_scalar(kind),
        spec_as_bool(kind, strings) is Some ==> kind is String,
        kind is Number ==> spec_as_bool(kind, strings) is None,
        kind is Null ==> spec_as_bool(kind, strings) is None,
        kind is Table || kind is List ==> spec_as_bool(kind, strings) is None,
{
}

} // verus!
