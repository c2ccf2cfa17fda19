//! The result of a lookup: the byte records stored under one key, in
//! insertion order, with a cursor that reads them back as UTF-8 strings.
use vstd::prelude::*;
use vstd::utf8::{valid_utf8, decode_utf8};
use crate::store::clone_bytes;

verus! {

/// The values found under one key, oldest first. Each record is an opaque
/// byte string; UTF-8 interpretation is left to the reader.
#[derive(Debug)]
pub struct Items {
    records: Vec<Vec<u8>>,
}

impl View for Items {
    type V = Seq<Seq<u8>>;

    closed spec fn view(&self) -> Seq<Seq<u8>> {
        self.records.deep_view()
    }
}

impl Items {
    /// Wraps already-decoded records.
    pub fn from_records(records: Vec<Vec<u8>>) -> (r: Items)
        ensures
            r@ == records.deep_view(),
    {
        Items { records }
    }

    /// How many values were found.
    pub fn len(&self) -> (r: usize)
        ensures
            r == self@.len(),
    {
        self.records.len()
    }

    /// The `i`th value, oldest first.
    pub fn record(&self, i: usize) -> (r: &Vec<u8>)
        requires
            i < self@.len(),
        ensures
            r@ == self@[i as int],
    {
        proof {
            assert(self.records@[i as int].deep_view() =~= self.records@[i as int]@);
        }
        &self.records[i]
    }

    /// A cursor over the values read as UTF-8 strings.
    pub fn as_str(&self) -> (it: ItemsStrIter<'_>)
        ensures
            it.items == self,
            it.pos == 0,
    {
        ItemsStrIter { pos: 0, items: self }
    }
}

/// Cursor over an [`Items`], yielding each record as a string; a record that
/// is not valid UTF-8 yields nothing but is still skipped.
pub struct ItemsStrIter<'a> {
    /// Index of the next record to read.
    pub pos: usize,
    /// The records being read.
    pub items: &'a Items,
}

impl<'a> ItemsStrIter<'a> {
    /// Reads the next record as a UTF-8 string and moves past it.
    pub fn next(&mut self) -> (r: Option<String>)
        ensures
            final(self).items == old(self).items,
            old(self).pos < old(self).items@.len() ==> {
                &&& final(self).pos == old(self).pos + 1
                &&& r is Some <==> valid_utf8(old(self).items@[old(self).pos as int])
                &&& r matches Some(s) ==> s@ == decode_utf8(old(self).items@[old(self).pos as int])
            },
            old(self).pos >= old(self).items@.len() ==> *final(self) == *old(self) && r is None,
    {
        if self.pos >= self.items.len() {
            return None;
        }
        let bytes = clone_bytes(self.items.record(self.pos));
        self.pos = self.pos + 1;
        utf8_to_string(bytes)
    }
}

/// Relies on `String::from_utf8`: it succeeds exactly on valid UTF-8 input
/// and returns the string whose characters are that input's UTF-8 decoding.
#[verifier::external_body]
fn utf8_to_string(bytes: Vec<u8>) -> (r: Option<String>)
    ensures
        r is Some <==> valid_utf8(bytes@),
        r matches Some(s) ==> s@ == decode_utf8(bytes@),
{
    String::from_utf8(bytes).ok()
}

} // verus!
