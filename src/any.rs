use std::sync::Arc;
use vstd::prelude::*;

use crate::error::Error;
use crate::index::{decoded_offsets, header_value, parse_failure, persisted_len, Index};
use crate::lines::{line_starts, strip_newline, NEWLINE};
use crate::{Indexable, IndexableFile, ReadByLine, Result};

verus! {

/// Relies on `Arc::clone`: the new handle points at the same value.
#[verifier::external_body]
fn share<T>(a: &Arc<T>) -> (r: Arc<T>)
    ensures
        r == *a,
{
    Arc::clone(a)
}

/// A cheaply cloneable handle to immutable bytes shared between readers.
#[derive(Debug)]
pub struct ArcAny(Arc<Vec<u8>>);

impl View for ArcAny {
    type V = Seq<u8>;

    closed spec fn view(&self) -> Seq<u8> {
        self.0@
    }
}

impl ArcAny {
    /// Shares `data`.
    pub fn new(data: Vec<u8>) -> (r: ArcAny)
        ensures
            r@ == data@,
    {
        ArcAny(Arc::new(data))
    }

    /// A second handle to the same bytes.
    pub fn share(&self) -> (r: ArcAny)
        ensures
            r@ == self@,
    {
        ArcAny(share(&self.0))
    }

    /// The shared bytes.
    pub fn as_slice(&self) -> (r: &[u8])
        ensures
            r@ == self@,
    {
        self.0.as_slice()
    }

    /// The number of shared bytes.
    pub fn len(&self) -> (r: usize)
        ensures
            r == self@.len(),
    {
        self.0.len()
    }
}

/// Appends `src[a..b]` to `buf`.
pub(crate) fn copy_range(src: &[u8], a: usize, b: usize, buf: &mut Vec<u8>)
    requires
        a <= b <= src@.len(),
    ensures
        final(buf)@ == old(buf)@ + src@.subrange(a as int, b as int),
{
    let mut i: usize = a;
    while i < b
        invariant
            a <= i <= b <= src@.len(),
            buf@ == old(buf)@ + src@.subrange(a as int, i as int),
        decreases b - i,
    {
        buf.push(src[i]);
        assert(buf@ =~= old(buf)@ + src@.subrange(a as int, i + 1));
        i = i + 1;
    }
}

/// Whether `line` directly follows the line just read, `last`.
pub fn follows(last: Option<usize>, line: usize) -> (r: bool)
    ensures
        r == (last matches Some(k) && line == k + 1),
{
    match last {
        Some(k) => k < line && line - k == 1,
        None => false,
    }
}

/// Removes a final line break from `buf`, if it ends with one.
pub fn strip_line_break(buf: &mut Vec<u8>)
    ensures
        final(buf)@ == strip_newline(old(buf)@),
{
    let n = buf.len();
    if n > 0 && buf[n - 1] == NEWLINE {
        buf.pop();
    }
}

/// A line reader over shared in-memory bytes, with a shared index. Clones share the
/// bytes and the index and keep their own position.
#[derive(Debug)]
pub struct CloneableIndexedReader {
    data: ArcAny,
    index: Arc<Index>,
    /// Where the next read starts.
    pos: usize,
    /// The line whose bytes were read last, when the position is right after them.
    last_line: Option<usize>,
}

impl CloneableIndexedReader {
    #[verifier::type_invariant]
    spec fn inv(self) -> bool {
        &&& self.pos <= self.data@.len()
        &&& match self.last_line {
            Some(k) => k + 1 < self.index@.len() ==> self.pos == self.index.spec_len_bytes()
                + self.index@[k + 1],
            None => true,
        }
    }

    /// Where the reader stands: at the start, with no line read.
    pub closed spec fn at_start(&self) -> bool {
        self.pos == 0 && self.last_line is None
    }

    fn from_reader(data: ArcAny, index: Arc<Index>) -> (r: CloneableIndexedReader)
        ensures
            r.spec_source() == data@,
            r.spec_index() == *index,
            r.at_start(),
    {
        CloneableIndexedReader { data, index, pos: 0, last_line: None }
    }

    /// A reader over bytes that start with a persisted index, which it reads.
    ///
    /// Fails with `MissingIndex` or `MalformedIndex` as `Index::parse_index` does.
    pub fn new(data: Vec<u8>) -> (r: Result<CloneableIndexedReader>)
        ensures
            match parse_failure(data@) {
                Some(e) => r == Err::<CloneableIndexedReader, Error>(e),
                None => r matches Ok(rd) && rd.spec_source() == data@ && rd.spec_index()@
                    == decoded_offsets(data@, header_value(data@))
                    && rd.spec_index().spec_len_bytes() == persisted_len(header_value(data@))
                    && rd.at_start(),
            },
    {
        let index = match Index::parse_index(data.as_slice()) {
            Ok(i) => i,
            Err(e) => return Err(e),
        };
        Ok(Self::from_reader(ArcAny::new(data), Arc::new(index)))
    }

    /// A reader over bytes without a persisted index; it builds one by a scan.
    pub fn new_raw(data: Vec<u8>) -> (r: Result<CloneableIndexedReader>)
        requires
            data@.len() <= u32::MAX,
        ensures
            r matches Ok(rd) && rd.spec_source() == data@ && rd.spec_index()@.len()
                == line_starts(data@).len() && (forall|k: int|
                0 <= k < rd.spec_index()@.len() ==> rd.spec_index()@[k] as int == line_starts(
                    data@,
                )[k]) && rd.spec_index().spec_len_bytes() == 0 && rd.at_start(),
    {
        let index = Index::build(data.as_slice());
        Ok(Self::from_reader(ArcAny::new(data), Arc::new(index)))
    }

    /// A reader over `data` with a ready index, taken as it is. For bytes without a
    /// persisted index, the index must describe no persisted prefix (see
    /// `Index::zero_len`).
    pub fn new_custom(data: Vec<u8>, index: Arc<Index>) -> (r: CloneableIndexedReader)
        ensures
            r.spec_source() == data@,
            r.spec_index() == *index,
            r.at_start(),
    {
        Self::from_reader(ArcAny::new(data), index)
    }

    /// A second reader over the same bytes and index, at the start.
    pub fn duplicate(&self) -> (r: CloneableIndexedReader)
        ensures
            r.spec_source() == self.spec_source(),
            r.spec_index() == self.spec_index(),
            r.at_start(),
    {
        Self::from_reader(self.data.share(), share(&self.index))
    }

    /// Puts the whole content, from the start of its first line, into `buf`; the
    /// result is its length.
    pub fn read_all(&mut self, buf: &mut Vec<u8>) -> (r: Result<usize>)
        ensures
            final(self).spec_source() == old(self).spec_source(),
            final(self).spec_index() == old(self).spec_index(),
            old(self).spec_index()@.len() == 0 ==> (r matches Err(Error::OutOfBounds)),
            old(self).spec_index()@.len() > 0 ==> {
                let a = old(self).spec_index().spec_len_bytes() + old(self).spec_index()@[0];
                if a <= old(self).spec_source().len() {
                    &&& final(buf)@ == old(self).spec_source().subrange(
                        a,
                        old(self).spec_source().len() as int,
                    )
                    &&& r == Ok::<usize, Error>(final(buf)@.len() as usize)
                } else {
                    (r matches Err(Error::MalformedIndex))
                }
            },
    {
        proof {
            use_type_invariant(&*self);
        }
        let len = self.data.len();
        let start = match self.index.seek_position(0) {
            Ok(p) => p,
            Err(e) => return Err(e),
        };
        if start > len as u64 {
            return Err(Error::MalformedIndex);
        }
        buf.clear();
        copy_range(self.data.as_slice(), start as usize, len, buf);
        self.last_line = None;
        self.pos = len;
        Ok(len - start as usize)
    }
}

impl Clone for CloneableIndexedReader {
    /// A second reader over the same bytes and index, at the start.
    fn clone(&self) -> Self {
        self.duplicate()
    }
}

impl Indexable for CloneableIndexedReader {
    closed spec fn spec_index(&self) -> Index {
        *self.index
    }

    fn get_index(&self) -> (r: &Index) {
        &self.index
    }
}

impl IndexableFile for CloneableIndexedReader {
    closed spec fn spec_source(&self) -> Seq<u8> {
        self.data@
    }

    closed spec fn spec_pos(&self) -> int {
        self.pos as int
    }

    fn read_current_line(&mut self, buf: &mut Vec<u8>, line: usize) -> (r: Result<usize>) {
        proof {
            use_type_invariant(&*self);
        }
        let extent = match self.index.line_extent(line) {
            Ok(e) => e,
            Err(e) => return Err(e),
        };
        let len = self.data.len();
        let start = self.pos;
        let k = match extent {
            Some(k) => {
                if k > len - start {
                    return Err(Error::MalformedIndex);
                }
                k
            },
            None => len - start,
        };
        let at_line = match self.index.seek_position(line) {
            Ok(p) => p == start as u64,
            Err(_) => false,
        };
        buf.clear();
        copy_range(self.data.as_slice(), start, start + k, buf);
        strip_line_break(buf);
        self.last_line = None;
        self.pos = start + k;
        if at_line {
            self.last_line = Some(line);
        }
        Ok(k)
    }

    fn seek_line(&mut self, line: usize) -> (r: Result<()>) {
        proof {
            use_type_invariant(&*self);
        }
        if line >= self.index.len() {
            return Err(Error::OutOfBounds);
        }
        if follows(self.last_line, line) {
            return Ok(());
        }
        let len = self.data.len();
        let target = match self.index.seek_position(line) {
            Ok(p) => p,
            Err(e) => return Err(e),
        };
        if target > len as u64 {
            return Err(Error::MalformedIndex);
        }
        self.last_line = None;
        self.pos = target as usize;
        Ok(())
    }

    fn write_to(&mut self, out: &mut Vec<u8>) -> (r: Result<usize>) {
        proof {
            use_type_invariant(&*self);
        }
        let lb = self.index.len_bytes();
        let len = self.data.len();
        if lb > len {
            return Err(Error::MalformedIndex);
        }
        let before = out.len();
        let encoded = self.index.encode();
        copy_range(encoded.as_slice(), 0, encoded.len(), out);
        copy_range(self.data.as_slice(), lb, len, out);
        proof {
            assert(encoded@.subrange(0, encoded@.len() as int) =~= encoded@);
        }
        self.last_line = None;
        self.pos = 0;
        Ok(out.len() - before)
    }
}

impl ReadByLine for CloneableIndexedReader {

}

} // verus!
