//! The string interner: owns every byte fragment of a document (semantic
//! string values as well as incidental layout text such as indentation and
//! separators) and hands out small copyable handles to them.

use vstd::prelude::*;

verus! {

/// An opaque, copyable handle to a byte fragment stored in [`Strings`].
///
/// Handle equality implies equality of the underlying bytes, but two
/// insertions of identical bytes need not share a handle; compare contents
/// through [`Strings::get`].
#[derive(Debug, Clone, Copy, PartialEq, Eq, Structural)]
pub struct StringId {
    idx: usize,
}

impl View for StringId {
    type V = int;

    closed spec fn view(&self) -> int {
        self.idx as int
    }
}

/// Holds whether a handle refers to a fragment of an interner with `n`
/// fragments.
pub open spec fn wf_sid(id: StringId, n: int) -> bool {
    0 <= id@ < n
}

/// Holds whether an optional line prefix, if present, refers to a fragment of
/// an interner with `n` fragments.
pub open spec fn wf_prefix(prefix: Option<StringId>, n: int) -> bool {
    match prefix {
        Some(id) => wf_sid(id, n),
        None => true,
    }
}

/// Holds whether the interner state `post` keeps every fragment of `pre`
/// unchanged, merely adding fragments at the end.
pub open spec fn spec_extends(post: Seq<Seq<u8>>, pre: Seq<Seq<u8>>) -> bool {
    pre.len() <= post.len() && forall|i: int| 0 <= i < pre.len() ==> post[i] == pre[i]
}

/// The interner.  Fragments are immutable once inserted and live as long as
/// the interner; there is no removal.  Its view is the sequence of stored
/// fragments, and a [`StringId`]'s view is an index into that sequence.
#[derive(Debug)]
pub struct Strings {
    fragments: Vec<Vec<u8>>,
}

impl View for Strings {
    type V = Seq<Seq<u8>>;

    closed spec fn view(&self) -> Seq<Seq<u8>> {
        Seq::new(self.fragments@.len(), |i: int| self.fragments@[i]@)
    }
}

impl Strings {
    /// An interner with no fragments.
    pub fn new() -> (r: Strings)
        ensures
            r@ == Seq::<Seq<u8>>::empty(),
    {
        let r = Strings { fragments: Vec::new() };
        proof {
            assert(r@ =~= Seq::<Seq<u8>>::empty());
        }
        r
    }

    /// Stores a byte fragment and returns a fresh handle to it.  Infallible
    /// for any byte sequence; earlier fragments are never moved or changed.
    pub fn insert(&mut self, bytes: &[u8]) -> (id: StringId)
        ensures
            final(self)@ == old(self)@.push(bytes@),
            id@ == old(self)@.len(),
            wf_sid(id, final(self)@.len() as int),
            spec_extends(final(self)@, old(self)@),
    {
        let id = StringId { idx: self.fragments.len() };
        let mut fragment: Vec<u8> = Vec::new();
        let mut i: usize = 0;
        while i < bytes.len()
            invariant
                i <= bytes@.len(),
                fragment@ == bytes@.subrange(0, i as int),
            decreases bytes@.len() - i,
        {
            fragment.push(bytes[i]);
            proof {
                assert(fragment@ =~= bytes@.subrange(0, i + 1));
            }
            i = i + 1;
        }
        proof {
            assert(fragment@ =~= bytes@);
        }
        self.fragments.push(fragment);
        proof {
            assert(self@ =~= old(self)@.push(bytes@));
        }
        id
    }

    /// Retrieves the bytes stored under a handle, valid for the interner's
    /// lifetime.
    pub fn get(&self, id: StringId) -> (r: &[u8])
        requires
            wf_sid(id, self@.len() as int),
        ensures
            r@ == self@[id@],
    {
        self.fragments[id.idx].as_slice()
    }

    /// The number of fragments stored so far.
    pub fn len(&self) -> (r: usize)
        ensures
            r == self@.len(),
    {
        self.fragments.len()
    }
}

} // verus!
