use std::sync::Arc;
use vstd::prelude::*;
use vstd::slice::slice_to_vec;
use vstd::utf8::{encode_utf8, valid_utf8};

use crate::any::CloneableIndexedReader;
use crate::error::Error;
use crate::index::{decoded_offsets, header_value, parse_failure, persisted_len, Index};
use crate::lines::line_starts;
use crate::{Indexable, IndexableFile, ReadByLine, Result};

verus! {

/// Relies on `String::from_utf8`: it accepts exactly the valid UTF-8 byte sequences,
/// and the string it returns is made of those bytes.
#[verifier::external_body]
pub(crate) fn string_from_utf8(bytes: Vec<u8>) -> (r: Option<String>)
    ensures
        r is Some <==> valid_utf8(bytes@),
        r matches Some(s) ==> encode_utf8(s@) == bytes@,
{
    String::from_utf8(bytes).ok()
}

/// The UTF-8 bytes of `s`.
fn bytes_of(s: &String) -> (r: Vec<u8>)
    ensures
        r@ == encode_utf8(s@),
{
    slice_to_vec(s.as_str().as_bytes())
}

/// A line reader over a string, with a shared index. Clones share the text and the
/// index and keep their own position.
#[derive(Debug)]
pub struct IndexedString {
    reader: CloneableIndexedReader,
}

impl IndexedString {
    /// A reader over text that starts with a persisted index, which it reads.
    ///
    /// Fails with `MissingIndex` or `MalformedIndex` as `Index::parse_index` does.
    pub fn new(s: String) -> (r: Result<IndexedString>)
        ensures
            match parse_failure(encode_utf8(s@)) {
                Some(e) => r == Err::<IndexedString, Error>(e),
                None => r matches Ok(rd) && rd.spec_source() == encode_utf8(s@)
                    && rd.spec_index()@ == decoded_offsets(
                    encode_utf8(s@),
                    header_value(encode_utf8(s@)),
                ) && rd.spec_index().spec_len_bytes() == persisted_len(
                    header_value(encode_utf8(s@)),
                ),
            },
    {
        match CloneableIndexedReader::new(bytes_of(&s)) {
            Ok(reader) => Ok(IndexedString { reader }),
            Err(e) => Err(e),
        }
    }

    /// A reader over text without a persisted index; it builds one by a scan.
    pub fn new_raw(s: String) -> (r: IndexedString)
        requires
            encode_utf8(s@).len() <= u32::MAX,
        ensures
            r.spec_source() == encode_utf8(s@),
            r.spec_index()@.len() == line_starts(encode_utf8(s@)).len(),
            forall|k: int|
                0 <= k < r.spec_index()@.len() ==> r.spec_index()@[k] as int == line_starts(
                    encode_utf8(s@),
                )[k],
            r.spec_index().spec_len_bytes() == 0,
    {
        let bytes = bytes_of(&s);
        let index = Index::build(bytes.as_slice());
        IndexedString { reader: CloneableIndexedReader::new_custom(bytes, Arc::new(index)) }
    }

    /// A reader over text with a ready index, taken as it is. For text without a
    /// persisted index, the index must describe no persisted prefix (see
    /// `Index::zero_len`).
    pub fn new_custom(s: String, index: Arc<Index>) -> (r: IndexedString)
        ensures
            r.spec_source() == encode_utf8(s@),
            r.spec_index() == *index,
    {
        IndexedString { reader: CloneableIndexedReader::new_custom(bytes_of(&s), index) }
    }

    /// Puts the whole text, from the start of its first line, into `buf`; the result is
    /// its length.
    pub fn read_all(&mut self, buf: &mut Vec<u8>) -> (r: Result<usize>)
        ensures
            final(self).spec_source() == old(self).spec_source(),
            final(self).spec_index() == old(self).spec_index(),
            old(self).spec_index()@.len() == 0 ==> (r matches Err(Error::OutOfBounds)),
            old(self).spec_index()@.len() > 0 ==> {
                let a = old(self).spec_index().spec_len_bytes() + old(self).spec_index()@[0];
                if a <= old(self).spec_source().len() {
                    &&& final(buf)@ == old(self).spec_source().subrange(
                        a,
                        old(self).spec_source().len() as int,
                    )
                    &&& r == Ok::<usize, Error>(final(buf)@.len() as usize)
                } else {
                    (r matches Err(Error::MalformedIndex))
                }
            },
    {
        self.reader.read_all(buf)
    }
}

impl Clone for IndexedString {
    /// A second reader over the same text and index, at the start.
    fn clone(&self) -> Self {
        IndexedString { reader: self.reader.duplicate() }
    }
}

impl Indexable for IndexedString {
    closed spec fn spec_index(&self) -> Index {
        self.reader.spec_index()
    }

    fn get_index(&self) -> (r: &Index) {
        self.reader.get_index()
    }
}

impl IndexableFile for IndexedString {
    closed spec fn spec_source(&self) -> Seq<u8> {
        self.reader.spec_source()
    }

    closed spec fn spec_pos(&self) -> int {
        self.reader.spec_pos()
    }

    fn read_current_line(&mut self, buf: &mut Vec<u8>, line: usize) -> (r: Result<usize>) {
        self.reader.read_current_line(buf, line)
    }

    fn seek_line(&mut self, line: usize) -> (r: Result<()>) {
        self.reader.seek_line(line)
    }

    fn write_to(&mut self, out: &mut Vec<u8>) -> (r: Result<usize>) {
        self.reader.write_to(out)
    }
}

impl ReadByLine for IndexedString {

}

} // verus!
