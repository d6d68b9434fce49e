//! An immutable iterator over a table's entries, yielding `(key bytes,
//! value view)` pairs in storage order.  It traverses forward and backward,
//! skips by count, and its size is known exactly in advance.

use vstd::prelude::*;

use crate::raw::{wf_titem, Raw, RawKind, RawTableItem};
use crate::value::{lemma_node_at_table_child, lemma_node_at_wf, spec_node_at, Data, Value, ValueId};

verus! {

broadcast use vstd::std_specs::vec::group_vec_axioms;

/// An immutable iterator over a table.  A structural mutation of the same
/// container invalidates it; construct a fresh one from the container view.
pub struct Iter<'a> {
    data: &'a Data,
    items: &'a Vec<RawTableItem>,
    base: ValueId,
    start: usize,
    end: usize,
}

impl<'a> Iter<'a> {
    /// The document this iterator reads.
    pub closed spec fn spec_data(&self) -> Data {
        *self.data
    }

    /// The path of the table node iterated over.
    pub closed spec fn spec_base(&self) -> Seq<usize> {
        self.base@
    }

    /// The table's entries.
    pub closed spec fn spec_items(&self) -> Seq<RawTableItem> {
        self.items@
    }

    /// The position of the next entry yielded from the front.
    pub closed spec fn spec_start(&self) -> int {
        self.start as int
    }

    /// One past the position of the next entry yielded from the back.
    pub closed spec fn spec_end(&self) -> int {
        self.end as int
    }

    /// The iterator reads a well-formed document, its entries are those of
    /// the table node its path denotes, and its cursors are in bounds.
    pub open spec fn wf(&self) -> bool {
        &&& self.spec_data().wf()
        &&& spec_node_at(self.spec_data().spec_root(), self.spec_base()) is Some
        &&& spec_node_at(self.spec_data().spec_root(), self.spec_base()).unwrap().kind is Table
        &&& self.spec_items() == spec_node_at(
            self.spec_data().spec_root(),
            self.spec_base(),
        ).unwrap().kind->Table_0.items@
        &&& 0 <= self.spec_start() <= self.spec_end() <= self.spec_items().len()
    }

    /// The key bytes and value of the entry at position `i`.
    pub open spec fn spec_entry(&self, i: int) -> (Seq<u8>, Raw) {
        (
            self.spec_data().spec_strings()[self.spec_items()[i].key.string@],
            *self.spec_items()[i].value,
        )
    }

    /// A fresh iterator over the table node that `id` denotes, covering all
    /// its entries.
    pub fn new(data: &'a Data, id: ValueId) -> (r: Iter<'a>)
        requires
            data.wf(),
            spec_node_at(data.spec_root(), id@) is Some,
            spec_node_at(data.spec_root(), id@).unwrap().kind is Table,
        ensures
            r.wf(),
            r.spec_data() == *data,
            r.spec_base() == id@,
            r.spec_start() == 0,
            r.spec_end() == spec_node_at(
                data.spec_root(),
                id@,
            ).unwrap().kind->Table_0.items@.len(),
    {
        let raw = data.raw(&id);
        match &raw.kind {
            RawKind::Table(table) => {
                let end = table.items.len();
                Iter { data, items: &table.items, base: id, start: 0, end }
            }
            _ => {
                proof {
                    assert(false);
                }
                vstd::pervasive::unreached()
            }
        }
    }

    /// The number of entries not yet consumed, exact on both components.
    pub fn size_hint(&self) -> (r: (usize, Option<usize>))
        requires
            self.wf(),
        ensures
            r.0 == self.spec_end() - self.spec_start(),
            r.1 == Some((self.spec_end() - self.spec_start()) as usize),
    {
        (self.end - self.start, Some(self.end - self.start))
    }

    /// Yields the next entry from the front: its key bytes and a view of
    /// its value.
    pub fn next(&mut self) -> (r: Option<(&'a [u8], Value<'a>)>)
        requires
            old(self).wf(),
        ensures
            final(self).wf(),
            final(self).spec_data() == old(self).spec_data(),
            final(self).spec_base() == old(self).spec_base(),
            final(self).spec_items() == old(self).spec_items(),
            final(self).spec_end() == old(self).spec_end(),
            old(self).spec_start() < old(self).spec_end() ==> {
                &&& final(self).spec_start() == old(self).spec_start() + 1
                &&& r matches Some((k, v)) && k@ == old(self).spec_entry(
                    old(self).spec_start(),
                ).0 && v.wf() && v.spec_data() == old(self).spec_data() && v.spec_id() == old(self).spec_base().push(old(self).spec_start() as usize) && v.spec_raw() == old(self).spec_entry(old(self).spec_start()).1
            },
            old(self).spec_start() >= old(self).spec_end() ==> r is None && final(self).spec_start()
                == old(self).spec_start(),
    {
        if self.start < self.end {
            let i = self.start;
            proof {
                lemma_node_at_wf(
                    self.spec_data().spec_root(),
                    self.spec_base(),
                    self.spec_data().spec_strings().len() as int,
                );
                assert(wf_titem(self.items@[i as int], self.spec_data().spec_strings().len() as int));
                lemma_node_at_table_child(self.spec_data().spec_root(), self.spec_base(), i);
            }
            let item = &self.items[i];
            let key = self.data.str(item.key.string);
            let value = Value::new(self.data, self.base.child(i));
            self.start = i + 1;
            Some((key, value))
        } else {
            None
        }
    }

    /// Skips `n` entries from the front and yields the one after them, as
    /// consuming `n + 1` entries would; when fewer remain, consumes them
    /// all and yields nothing.
    pub fn nth(&mut self, n: usize) -> (r: Option<(&'a [u8], Value<'a>)>)
        requires
            old(self).wf(),
        ensures
            final(self).wf(),
            final(self).spec_data() == old(self).spec_data(),
            final(self).spec_base() == old(self).spec_base(),
            final(self).spec_items() == old(self).spec_items(),
            final(self).spec_end() == old(self).spec_end(),
            old(self).spec_start() + n < old(self).spec_end() ==> {
                &&& final(self).spec_start() == old(self).spec_start() + n + 1
                &&& r matches Some((k, v)) && k@ == old(self).spec_entry(
                    old(self).spec_start() + n,
                ).0 && v.wf() && v.spec_data() == old(self).spec_data() && v.spec_id() == old(self).spec_base().push((old(self).spec_start() + n) as usize) && v.spec_raw() == old(self).spec_entry(old(self).spec_start() + n).1
            },
            old(self).spec_start() + n >= old(self).spec_end() ==> r is None && final(self).spec_start() == final(self).spec_end(),
    {
        if n < self.end - self.start {
            let i = self.start + n;
            proof {
                lemma_node_at_wf(
                    self.spec_data().spec_root(),
                    self.spec_base(),
                    self.spec_data().spec_strings().len() as int,
                );
                assert(wf_titem(self.items@[i as int], self.spec_data().spec_strings().len() as int));
                lemma_node_at_table_child(self.spec_data().spec_root(), self.spec_base(), i);
            }
            let item = &self.items[i];
            let key = self.data.str(item.key.string);
            let value = Value::new(self.data, self.base.child(i));
            self.start = i + 1;
            Some((key, value))
        } else {
            self.start = self.end;
            None
        }
    }

    /// Yields the next entry from the back: its key bytes and a view of its
    /// value.
    pub fn next_back(&mut self) -> (r: Option<(&'a [u8], Value<'a>)>)
        requires
            old(self).wf(),
        ensures
            final(self).wf(),
            final(self).spec_data() == old(self).spec_data(),
            final(self).spec_base() == old(self).spec_base(),
            final(self).spec_items() == old(self).spec_items(),
            final(self).spec_start() == old(self).spec_start(),
            old(self).spec_start() < old(self).spec_end() ==> {
                &&& final(self).spec_end() == old(self).spec_end() - 1
                &&& r matches Some((k, v)) && k@ == old(self).spec_entry(
                    old(self).spec_end() - 1,
                ).0 && v.wf() && v.spec_data() == old(self).spec_data() && v.spec_id() == old(self).spec_base().push((old(self).spec_end() - 1) as usize) && v.spec_raw() == old(self).spec_entry(old(self).spec_end() - 1).1
            },
            old(self).spec_start() >= old(self).spec_end() ==> r is None && final(self).spec_end()
                == old(self).spec_end(),
    {
        if self.start < self.end {
            let i = self.end - 1;
            proof {
                lemma_node_at_wf(
                    self.spec_data().spec_root(),
                    self.spec_base(),
                    self.spec_data().spec_strings().len() as int,
                );
                assert(wf_titem(self.items@[i as int], self.spec_data().spec_strings().len() as int));
                lemma_node_at_table_child(self.spec_data().spec_root(), self.spec_base(), i);
            }
            let item = &self.items[i];
            let key = self.data.str(item.key.string);
            let value = Value::new(self.data, self.base.child(i));
            self.end = i;
            Some((key, value))
        } else {
            None
        }
    }

    /// Skips `n` entries from the back and yields the one before them, as
    /// consuming `n + 1` entries from the back would; when fewer remain,
    /// consumes them all and yields nothing.
    pub fn nth_back(&mut self, n: usize) -> (r: Option<(&'a [u8], Value<'a>)>)
        requires
            old(self).wf(),
        ensures
            final(self).wf(),
            final(self).spec_data() == old(self).spec_data(),
            final(self).spec_base() == old(self).spec_base(),
            final(self).spec_items() == old(self).spec_items(),
            final(self).spec_start() == old(self).spec_start(),
            old(self).spec_start() + n < old(self).spec_end() ==> {
                &&& final(self).spec_end() == old(self).spec_end() - n - 1
                &&& r matches Some((k, v)) && k@ == old(self).spec_entry(
                    old(self).spec_end() - 1 - n,
                ).0 && v.wf() && v.spec_data() == old(self).spec_data() && v.spec_id() == old(self).spec_base().push((old(self).spec_end() - 1 - n) as usize) && v.spec_raw() == old(self).spec_entry(old(self).spec_end() - 1 - n).1
            },
            old(self).spec_start() + n >= old(self).spec_end() ==> r is None && final(self).spec_end() == final(self).spec_start(),
    {
        if n < self.end - self.start {
            let i = self.end - 1 - n;
            proof {
                lemma_node_at_wf(
                    self.spec_data().spec_root(),
                    self.spec_base(),
                    self.spec_data().spec_strings().len() as int,
                );
                assert(wf_titem(self.items@[i as int], self.spec_data().spec_strings().len() as int));
                lemma_node_at_table_child(self.spec_data().spec_root(), self.spec_base(), i);
            }
            let item = &self.items[i];
            let key = self.data.str(item.key.string);
            let value = Value::new(self.data, self.base.child(i));
            self.end = i;
            Some((key, value))
        } else {
            self.end = self.start;
            None
        }
    }
}

} // verus!
