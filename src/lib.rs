//! Random access to the lines of a byte source through a persisted index of line offsets.
pub mod any;
pub mod error;
pub mod index;
pub mod lines;
pub mod mem_file;
pub mod search;
pub mod text;

pub use any::{ArcAny, CloneableIndexedReader};
pub use error::Error;
pub use index::{Header, Index};
pub use mem_file::{MemFile, MemFileIter};
pub use text::IndexedString;

use core::cmp::Ordering;
use vstd::prelude::*;
use vstd::utf8::{encode_utf8, valid_utf8};

use crate::index::{
    decoded_offsets, encoded_index, fits_persisted, header_value, lemma_codec_round_trip,
    parse_failure, persisted_len,
};
use crate::index::{entry_start, ENTRY_SIZE};
use crate::lines::{all_lines_readable, current_span, line_bytes, line_end, strip_newline};
use crate::search::{compare_bytes, lemma_lex_cmp_equal, lex_cmp, ord_rank};
use crate::text::string_from_utf8;

verus! {

/// The result type of every fallible operation of the library.
pub type Result<T> = core::result::Result<T, Error>;

/// Line `n` of the source that `r` reads, as the index describes it.
pub open spec fn line_of<R: IndexableFile>(r: R, n: int) -> Option<Seq<u8>> {
    line_bytes(r.spec_source(), r.spec_index()@, r.spec_index().spec_len_bytes() as int, n)
}

/// Whether every line of the source that `r` reads lies within the source.
pub open spec fn readable<R: IndexableFile>(r: R) -> bool {
    all_lines_readable(r.spec_source(), r.spec_index()@, r.spec_index().spec_len_bytes() as int)
}

/// Whether every line of the source that `r` reads is readable UTF-8 text.
pub open spec fn readable_text<R: IndexableFile>(r: R) -> bool {
    forall|n: int|
        0 <= n < r.spec_index()@.len() ==> (#[trigger] line_of(r, n) matches Some(b) && valid_utf8(
            b,
        ))
}

/// Whether `f` orders the lines of `r`: no outcome on a line is above an outcome on
/// the same or a later line.
pub open spec fn sorted_raw<R: IndexableFile, F: Fn(&[u8]) -> Ordering>(r: R, f: F) -> bool {
    forall|i: int, j: int, x: &[u8], y: &[u8], oi: Ordering, oj: Ordering|
        #![trigger line_of(r, i), line_of(r, j), f.ensures((x,), oi), f.ensures((y,), oj)]
        0 <= i <= j < r.spec_index()@.len() && line_of(r, i) == Some(x@) && line_of(r, j) == Some(
            y@,
        ) && f.ensures((x,), oi) && f.ensures((y,), oj) ==> ord_rank(oi) <= ord_rank(oj)
}

/// Whether `f` never answers `Equal` on a line of `r`.
pub open spec fn never_equal_raw<R: IndexableFile, F: Fn(&[u8]) -> Ordering>(r: R, f: F) -> bool {
    forall|i: int, x: &[u8], o: Ordering|
        #![trigger line_of(r, i), f.ensures((x,), o)]
        0 <= i < r.spec_index()@.len() && line_of(r, i) == Some(x@) && f.ensures((x,), o) ==> o
            != Ordering::Equal
}

/// Whether `f` orders the text lines of `r`: no outcome on a line is above an outcome
/// on the same or a later line.
pub open spec fn sorted_text<R: IndexableFile, F: Fn(&str) -> Ordering>(r: R, f: F) -> bool {
    forall|i: int, j: int, x: &str, y: &str, oi: Ordering, oj: Ordering|
        #![trigger line_of(r, i), line_of(r, j), f.ensures((x,), oi), f.ensures((y,), oj)]
        0 <= i <= j < r.spec_index()@.len() && line_of(r, i) == Some(encode_utf8(x@)) && line_of(
            r,
            j,
        ) == Some(encode_utf8(y@)) && f.ensures((x,), oi) && f.ensures((y,), oj) ==> ord_rank(oi)
            <= ord_rank(oj)
}

/// Whether `f` never answers `Equal` on a text line of `r`.
pub open spec fn never_equal_text<R: IndexableFile, F: Fn(&str) -> Ordering>(r: R, f: F) -> bool {
    forall|i: int, x: &str, o: Ordering|
        #![trigger line_of(r, i), f.ensures((x,), o)]
        0 <= i < r.spec_index()@.len() && line_of(r, i) == Some(encode_utf8(x@)) && f.ensures(
            (x,),
            o,
        ) ==> o != Ordering::Equal
}

/// Whether the lines of `r` compare with `needle` in order: lexicographically below it
/// first, then equal, then above.
pub open spec fn sorted_around<R: IndexableFile>(r: R, needle: Seq<u8>) -> bool {
    forall|i: int, j: int, a: Seq<u8>, b: Seq<u8>|
        #![trigger line_of(r, i), line_of(r, j), lex_cmp(a, needle), lex_cmp(b, needle)]
        0 <= i <= j < r.spec_index()@.len() && line_of(r, i) == Some(a) && line_of(r, j) == Some(b)
            ==> ord_rank(lex_cmp(a, needle)) <= ord_rank(lex_cmp(b, needle))
}

/// Whether some line of `r` is exactly `needle`.
pub open spec fn has_line<R: IndexableFile>(r: R, needle: Seq<u8>) -> bool {
    exists|i: int| 0 <= i < r.spec_index()@.len() && #[trigger] line_of(r, i) == Some(needle)
}

/// Writing the persisted index of a source and its content, then reading what was
/// written as an indexed source, gives back the same index and the same line for every
/// line number.
pub proof fn lemma_persisted_lines(source: Seq<u8>, offs: Seq<u32>, prefix: nat)
    requires
        offs.len() > 0,
        fits_persisted(offs.len()),
        prefix <= source.len(),
    ensures
        ({
            let written = encoded_index(offs) + source.subrange(prefix as int, source.len() as int);
            &&& parse_failure(written) is None
            &&& header_value(written) == offs.len()
            &&& decoded_offsets(written, header_value(written)) == offs
            &&& forall|n: int|
                0 <= n < offs.len() ==> #[trigger] line_bytes(
                    written,
                    offs,
                    persisted_len(offs.len()) as int,
                    n,
                ) == line_bytes(source, offs, prefix as int, n)
        }),
{
    let enc = encoded_index(offs);
    let rest = source.subrange(prefix as int, source.len() as int);
    let written = enc + rest;
    let p = persisted_len(offs.len()) as int;
    lemma_codec_round_trip(offs);
    assert(written.subrange(0, 8) =~= enc.subrange(0, 8));
    assert(decoded_offsets(written, offs.len()) =~= decoded_offsets(enc, offs.len())) by {
        assert forall|j: int| 0 <= j < offs.len() implies written.subrange(
            entry_start(j),
            entry_start(j) + ENTRY_SIZE,
        ) =~= enc.subrange(entry_start(j), entry_start(j) + ENTRY_SIZE) by {}
    }
    assert forall|n: int| 0 <= n < offs.len() implies #[trigger] line_bytes(written, offs, p, n)
        == line_bytes(source, offs, prefix as int, n) by {
        let a = offs[n] as int;
        let b = line_end(offs, 0, n, rest.len() as int);
        if a <= b <= rest.len() {
            assert(written.subrange(p + a, p + b) =~= source.subrange(prefix + a, prefix + b));
        }
    }
}

/// Reading lines in any order gives the same lines: in a run of reads, where each read
/// leaves the source and the index as they were (as every read of this library does),
/// the read of line `order[i]` from the state `states[i]` yields what the first state
/// holds for that line. The sequential fast path therefore changes no outcome.
pub proof fn lemma_read_order_irrelevant<R: IndexableFile>(states: Seq<R>, order: Seq<int>)
    requires
        states.len() == order.len() + 1,
        forall|i: int|
            0 <= i < order.len() ==> (#[trigger] states[i + 1]).spec_source()
                == states[i].spec_source() && states[i + 1].spec_index()
                == states[i].spec_index(),
    ensures
        forall|i: int|
            0 <= i < order.len() ==> #[trigger] line_of(states[i], order[i]) == line_of(
                states[0],
                order[i],
            ),
{
    assert forall|i: int| 0 <= i < order.len() implies #[trigger] line_of(states[i], order[i])
        == line_of(states[0], order[i]) by {
        lemma_same_source_from_start(states, order, i);
    }
}

proof fn lemma_same_source_from_start<R: IndexableFile>(states: Seq<R>, order: Seq<int>, i: int)
    requires
        states.len() == order.len() + 1,
        forall|i: int|
            0 <= i < order.len() ==> (#[trigger] states[i + 1]).spec_source()
                == states[i].spec_source() && states[i + 1].spec_index()
                == states[i].spec_index(),
        0 <= i <= order.len(),
    ensures
        states[i].spec_source() == states[0].spec_source(),
        states[i].spec_index() == states[0].spec_index(),
    decreases i,
{
    if i > 0 {
        lemma_same_source_from_start(states, order, i - 1);
        assert(states[(i - 1) + 1].spec_source() == states[i - 1].spec_source());
    }
}

/// A line source with an index of its line offsets.
pub trait Indexable {
    /// The index of the source.
    spec fn spec_index(&self) -> Index;

    /// The index of the source.
    fn get_index(&self) -> (r: &Index)
        ensures
            *r == self.spec_index(),
    ;

    /// The number of lines of the content, not counting the persisted index.
    fn total_lines(&self) -> (r: usize)
        ensures
            r == self.spec_index()@.len(),
    {
        self.get_index().len()
    }

    /// The number of bytes of persisted header and body in front of the content.
    fn get_index_byte_len(&self) -> (r: usize)
        ensures
            r == self.spec_index().spec_len_bytes(),
    {
        self.get_index().len_bytes()
    }
}

/// A positioned byte source whose lines an index describes.
pub trait IndexableFile: Indexable {
    /// All bytes of the source, persisted header and body included.
    spec fn spec_source(&self) -> Seq<u8>;

    /// The position in the source at which the next read starts.
    spec fn spec_pos(&self) -> int;

    /// Reads line `line` from the current position: as many bytes as separate its
    /// offset from the next line's, or up to the end for the last line. `buf` receives
    /// them without the final line break; the result is the number of bytes consumed.
    fn read_current_line(&mut self, buf: &mut Vec<u8>, line: usize) -> (r: Result<usize>)
        ensures
            final(self).spec_index() == old(self).spec_index(),
            final(self).spec_source() == old(self).spec_source(),
            line >= old(self).spec_index()@.len() ==> {
                &&& (r matches Err(Error::OutOfBounds))
                &&& final(self).spec_pos() == old(self).spec_pos()
                &&& final(buf)@ == old(buf)@
            },
            line < old(self).spec_index()@.len() ==> match current_span(
                old(self).spec_source(),
                old(self).spec_index()@,
                old(self).spec_pos(),
                line as int,
            ) {
                Some(k) => {
                    &&& r == Ok::<usize, Error>(k as usize)
                    &&& final(buf)@ == strip_newline(
                        old(self).spec_source().subrange(
                            old(self).spec_pos(),
                            old(self).spec_pos() + k,
                        ),
                    )
                    &&& final(self).spec_pos() == old(self).spec_pos() + k
                },
                None => (r matches Err(Error::MalformedIndex)) && final(self).spec_pos() == old(
                    self,
                ).spec_pos(),
            },
    ;

    /// Positions the source at the start of line `line`. When the line just read is
    /// the one before, the source already stands there and is not moved.
    fn seek_line(&mut self, line: usize) -> (r: Result<()>)
        ensures
            final(self).spec_index() == old(self).spec_index(),
            final(self).spec_source() == old(self).spec_source(),
            line >= old(self).spec_index()@.len() ==> (r matches Err(Error::OutOfBounds))
                && final(self).spec_pos() == old(self).spec_pos(),
            line < old(self).spec_index()@.len() ==> {
                let target = old(self).spec_index().spec_len_bytes() + old(
                    self,
                ).spec_index()@[line as int];
                if target <= old(self).spec_source().len() {
                    r is Ok && final(self).spec_pos() == target
                } else {
                    (r matches Err(Error::MalformedIndex)) && final(self).spec_pos() == old(
                        self,
                    ).spec_pos()
                }
            },
    ;

    /// Appends the persisted index followed by the whole content to `out`, which makes
    /// an indexed source; the result is the number of bytes written.
    ///
    /// Fails with `MalformedIndex` when the persisted prefix that the index declares is
    /// longer than the source.
    fn write_to(&mut self, out: &mut Vec<u8>) -> (r: Result<usize>)
        ensures
            final(self).spec_index() == old(self).spec_index(),
            final(self).spec_source() == old(self).spec_source(),
            old(self).spec_index().spec_len_bytes() <= old(self).spec_source().len() ==> {
                let written = encoded_index(old(self).spec_index()@) + old(
                    self,
                ).spec_source().subrange(
                    old(self).spec_index().spec_len_bytes() as int,
                    old(self).spec_source().len() as int,
                );
                &&& final(out)@ == old(out)@ + written
                &&& r == Ok::<usize, Error>(written.len() as usize)
            },
            old(self).spec_index().spec_len_bytes() > old(self).spec_source().len() ==> (r matches Err(Error::MalformedIndex)) && final(out)@ == old(out)@,
    ;

    /// The offset at which line `line` starts within the content.
    fn get_offset(&self, line: usize) -> (r: Result<u64>)
        ensures
            line < self.spec_index()@.len() ==> r == Ok::<u64, Error>(
                self.spec_index()@[line as int] as u64,
            ),
            line >= self.spec_index()@.len() ==> (r matches Err(Error::OutOfBounds)),
    {
        match self.get_index().get(line) {
            Ok(v) => Ok(v as u64),
            Err(e) => Err(e),
        }
    }
}

/// Reading lines by their number, and searching sorted lines.
pub trait ReadByLine: IndexableFile + Sized {
    /// Reads line `line` into `buf`, without its line break; the result is the number
    /// of bytes the line takes in the source, its line break included.
    fn read_line_raw(&mut self, line: usize, buf: &mut Vec<u8>) -> (r: Result<usize>)
        ensures
            final(self).spec_index() == old(self).spec_index(),
            final(self).spec_source() == old(self).spec_source(),
            line >= old(self).spec_index()@.len() ==> (r matches Err(Error::OutOfBounds)),
            line < old(self).spec_index()@.len() ==> match line_of(*old(self), line as int) {
                Some(b) => r is Ok && final(buf)@ == b,
                None => (r matches Err(Error::MalformedIndex)),
            },
    {
        read_raw(self, line, buf)
    }

    /// Reads line `line` as text, without its line break.
    ///
    /// Fails with `UTF8Error` when the line is not valid UTF-8.
    fn read_line(&mut self, line: usize) -> (r: Result<String>)
        ensures
            final(self).spec_index() == old(self).spec_index(),
            final(self).spec_source() == old(self).spec_source(),
            line >= old(self).spec_index()@.len() ==> (r matches Err(Error::OutOfBounds)),
            line < old(self).spec_index()@.len() ==> match line_of(*old(self), line as int) {
                Some(b) => if valid_utf8(b) {
                    r matches Ok(s) && encode_utf8(s@) == b
                } else {
                    (r matches Err(Error::UTF8Error))
                },
                None => (r matches Err(Error::MalformedIndex)),
            },
    {
        let mut buf: Vec<u8> = Vec::new();
        match self.read_line_raw(line, &mut buf) {
            Ok(_) => {},
            Err(e) => return Err(e),
        }
        match string_from_utf8(buf) {
            Some(s) => Ok(s),
            None => Err(Error::UTF8Error),
        }
    }

    /// Binary search over the lines with `f`, which tells whether a line is below
    /// (`Less`), at (`Equal`) or above (`Greater`) what is sought. Returns a line on
    /// which `f` answered `Equal`, or `NotFound`; on lines that `f` orders, `NotFound`
    /// means that `f` answers `Equal` on none.
    fn binary_search_raw_by<F: Fn(&[u8]) -> Ordering>(&mut self, f: F) -> (r: Result<usize>)
        requires
            forall|x: &[u8]| #[trigger] f.requires((x,)),
        ensures
            final(self).spec_index() == old(self).spec_index(),
            final(self).spec_source() == old(self).spec_source(),
            r matches Ok(i) ==> i < old(self).spec_index()@.len() && exists|x: &[u8]|
                #[trigger] f.ensures((x,), Ordering::Equal) && line_of(*old(self), i as int)
                    == Some(x@),
            (r matches Err(Error::NotFound)) ==> (sorted_raw(*old(self), f) ==> never_equal_raw(
                *old(self),
                f,
            )),
            r is Err ==> (r matches Err(Error::NotFound)) || ((r matches Err(Error::MalformedIndex))
                && !readable(*old(self))),
    {
        let ghost start = *self;
        let total = self.total_lines();
        let mut left: usize = 0;
        let mut right: usize = total;
        let mut buf: Vec<u8> = Vec::new();
        while left < right
            invariant
                left <= right <= total == start.spec_index()@.len(),
                self.spec_index() == start.spec_index(),
                self.spec_source() == start.spec_source(),
                start == *old(self),
                forall|x: &[u8]| #[trigger] f.requires((x,)),
                sorted_raw(start, f) ==> forall|i: int, x: &[u8], o: Ordering|
                    #![trigger line_of(start, i), f.ensures((x,), o)]
                    0 <= i < left && line_of(start, i) == Some(x@) && f.ensures((x,), o) ==> o
                        == Ordering::Less,
                sorted_raw(start, f) ==> forall|i: int, x: &[u8], o: Ordering|
                    #![trigger line_of(start, i), f.ensures((x,), o)]
                    right <= i < total && line_of(start, i) == Some(x@) && f.ensures((x,), o)
                        ==> o == Ordering::Greater,
            decreases right - left,
        {
            let mid = left + (right - left) / 2;
            assert(line_of(*self, mid as int) == line_of(start, mid as int));
            match self.read_line_raw(mid, &mut buf) {
                Ok(_) => {},
                Err(e) => {
                    assert(line_of(start, mid as int) is None);
                    return Err(e);
                },
            }
            let s = buf.as_slice();
            let cmp = f(s);
            proof {
                assert(line_of(start, mid as int) == Some(s@));
            }
            match cmp {
                Ordering::Less => {
                    assert forall|i: int, x: &[u8], o: Ordering|
                        #![trigger line_of(start, i), f.ensures((x,), o)]
                        sorted_raw(start, f) && 0 <= i < mid + 1 && line_of(start, i) == Some(x@)
                            && f.ensures((x,), o) implies o == Ordering::Less by {
                        assert(line_of(start, mid as int) == Some(s@));
                        assert(f.ensures((s,), cmp));
                    }
                    left = mid + 1;
                },
                Ordering::Greater => {
                    assert forall|i: int, x: &[u8], o: Ordering|
                        #![trigger line_of(start, i), f.ensures((x,), o)]
                        sorted_raw(start, f) && mid <= i < total && line_of(start, i) == Some(x@)
                            && f.ensures((x,), o) implies o == Ordering::Greater by {
                        assert(line_of(start, mid as int) == Some(s@));
                        assert(f.ensures((s,), cmp));
                    }
                    right = mid;
                },
                Ordering::Equal => {
                    assert(f.ensures((s,), Ordering::Equal) && line_of(start, mid as int) == Some(
                        s@,
                    ));
                    return Ok(mid);
                },
            }
        }
        Err(Error::NotFound)
    }

    /// Binary search over the text lines with `f`, which tells whether a line is below
    /// (`Less`), at (`Equal`) or above (`Greater`) what is sought. Returns a line on
    /// which `f` answered `Equal`, or `NotFound`; on lines that `f` orders, `NotFound`
    /// means that `f` answers `Equal` on none.
    ///
    /// Fails with `UTF8Error` when a line it looks at is not valid UTF-8.
    fn binary_search_by<F: Fn(&str) -> Ordering>(&mut self, f: F) -> (r: Result<usize>)
        requires
            forall|x: &str| #[trigger] f.requires((x,)),
        ensures
            final(self).spec_index() == old(self).spec_index(),
            final(self).spec_source() == old(self).spec_source(),
            r matches Ok(i) ==> i < old(self).spec_index()@.len() && exists|x: &str|
                #[trigger] f.ensures((x,), Ordering::Equal) && line_of(*old(self), i as int)
                    == Some(encode_utf8(x@)),
            (r matches Err(Error::NotFound)) ==> (sorted_text(*old(self), f) ==> never_equal_text(
                *old(self),
                f,
            )),
            r is Err ==> (r matches Err(Error::NotFound)) || ((r matches Err(Error::MalformedIndex))
                && !readable(*old(self))) || ((r matches Err(Error::UTF8Error)) && !readable_text(
                *old(self),
            )),
    {
        let ghost start = *self;
        let total = self.total_lines();
        let mut left: usize = 0;
        let mut right: usize = total;
        while left < right
            invariant
                left <= right <= total == start.spec_index()@.len(),
                self.spec_index() == start.spec_index(),
                self.spec_source() == start.spec_source(),
                start == *old(self),
                forall|x: &str| #[trigger] f.requires((x,)),
                sorted_text(start, f) ==> forall|i: int, x: &str, o: Ordering|
                    #![trigger line_of(start, i), f.ensures((x,), o)]
                    0 <= i < left && line_of(start, i) == Some(encode_utf8(x@)) && f.ensures(
                        (x,),
                        o,
                    ) ==> o == Ordering::Less,
                sorted_text(start, f) ==> forall|i: int, x: &str, o: Ordering|
                    #![trigger line_of(start, i), f.ensures((x,), o)]
                    right <= i < total && line_of(start, i) == Some(encode_utf8(x@)) && f.ensures(
                        (x,),
                        o,
                    ) ==> o == Ordering::Greater,
            decreases right - left,
        {
            let mid = left + (right - left) / 2;
            assert(line_of(*self, mid as int) == line_of(start, mid as int));
            let line = match self.read_line(mid) {
                Ok(l) => l,
                Err(e) => {
                    return Err(e);
                },
            };
            let s = line.as_str();
            let cmp = f(s);
            proof {
                assert(line_of(start, mid as int) == Some(encode_utf8(s@)));
            }
            match cmp {
                Ordering::Less => {
                    assert forall|i: int, x: &str, o: Ordering|
                        #![trigger line_of(start, i), f.ensures((x,), o)]
                        sorted_text(start, f) && 0 <= i < mid + 1 && line_of(start, i) == Some(
                            encode_utf8(x@),
                        ) && f.ensures((x,), o) implies o == Ordering::Less by {
                        assert(line_of(start, mid as int) == Some(encode_utf8(s@)));
                        assert(f.ensures((s,), cmp));
                    }
                    left = mid + 1;
                },
                Ordering::Greater => {
                    assert forall|i: int, x: &str, o: Ordering|
                        #![trigger line_of(start, i), f.ensures((x,), o)]
                        sorted_text(start, f) && mid <= i < total && line_of(start, i) == Some(
                            encode_utf8(x@),
                        ) && f.ensures((x,), o) implies o == Ordering::Greater by {
                        assert(line_of(start, mid as int) == Some(encode_utf8(s@)));
                        assert(f.ensures((s,), cmp));
                    }
                    right = mid;
                },
                Ordering::Equal => {
                    assert(f.ensures((s,), Ordering::Equal) && line_of(start, mid as int) == Some(
                        encode_utf8(s@),
                    ));
                    return Ok(mid);
                },
            }
        }
        Err(Error::NotFound)
    }

    /// Binary search over the lines, compared bytewise with `x`.
    fn binary_search_raw(&mut self, x: &[u8]) -> (r: Result<usize>)
        ensures
            final(self).spec_index() == old(self).spec_index(),
            final(self).spec_source() == old(self).spec_source(),
            r matches Ok(i) ==> i < old(self).spec_index()@.len() && line_of(*old(self), i as int)
                == Some(x@),
            (r matches Err(Error::NotFound)) ==> (sorted_around(*old(self), x@) ==> !has_line(
                *old(self),
                x@,
            )),
            r is Err ==> (r matches Err(Error::NotFound)) || ((r matches Err(Error::MalformedIndex))
                && !readable(*old(self))),
    {
        search_sorted(self, x, false)
    }

    /// Binary search over the lines for a line that reads `x` exactly.
    ///
    /// Fails with `UTF8Error` when a line it looks at is not valid UTF-8.
    fn binary_search(&mut self, x: &str) -> (r: Result<usize>)
        ensures
            final(self).spec_index() == old(self).spec_index(),
            final(self).spec_source() == old(self).spec_source(),
            r matches Ok(i) ==> i < old(self).spec_index()@.len() && line_of(*old(self), i as int)
                == Some(encode_utf8(x@)),
            (r matches Err(Error::NotFound)) ==> (sorted_around(*old(self), encode_utf8(x@))
                ==> !has_line(*old(self), encode_utf8(x@))),
            r is Err ==> (r matches Err(Error::NotFound)) || ((r matches Err(Error::MalformedIndex))
                && !readable(*old(self))) || ((r matches Err(Error::UTF8Error)) && !readable_text(
                *old(self),
            )),
    {
        search_sorted(self, x.as_bytes(), true)
    }

}

/// Binary search over the lines, compared bytewise with `needle`; with `text`,
/// each line looked at must also be valid UTF-8.
fn search_sorted<R: IndexableFile>(reader: &mut R, needle: &[u8], text: bool) -> (r: Result<usize>)
    ensures
        final(reader).spec_index() == old(reader).spec_index(),
        final(reader).spec_source() == old(reader).spec_source(),
        r matches Ok(i) ==> i < old(reader).spec_index()@.len() && line_of(*old(reader), i as int)
            == Some(needle@),
        (r matches Err(Error::NotFound)) ==> (sorted_around(*old(reader), needle@) ==> !has_line(
            *old(reader),
            needle@,
        )),
        r is Err ==> (r matches Err(Error::NotFound)) || ((r matches Err(Error::MalformedIndex))
            && !readable(*old(reader))) || (text && (r matches Err(Error::UTF8Error))
            && !readable_text(*old(reader))),
{
    let ghost start = *reader;
    let total = reader.total_lines();
    let mut left: usize = 0;
    let mut right: usize = total;
    let mut buf: Vec<u8> = Vec::new();
    while left < right
        invariant
            left <= right <= total == start.spec_index()@.len(),
            reader.spec_index() == start.spec_index(),
            reader.spec_source() == start.spec_source(),
            start == *old(reader),
            sorted_around(start, needle@) ==> forall|i: int, a: Seq<u8>|
                #![trigger line_of(start, i), lex_cmp(a, needle@)]
                0 <= i < left && line_of(start, i) == Some(a) ==> lex_cmp(a, needle@)
                    == Ordering::Less,
            sorted_around(start, needle@) ==> forall|i: int, a: Seq<u8>|
                #![trigger line_of(start, i), lex_cmp(a, needle@)]
                right <= i < total && line_of(start, i) == Some(a) ==> lex_cmp(a, needle@)
                    == Ordering::Greater,
        decreases right - left,
    {
        let mid = left + (right - left) / 2;
        assert(line_of(*reader, mid as int) == line_of(start, mid as int));
        match read_raw(reader, mid, &mut buf) {
            Ok(_) => {},
            Err(e) => {
                assert(line_of(start, mid as int) is None);
                return Err(e);
            },
        }
        let ghost line = buf@;
        assert(line_of(start, mid as int) == Some(line));
        if text {
            let copy = copy_bytes(&buf);
            if string_from_utf8(copy).is_none() {
                assert(!valid_utf8(line));
                return Err(Error::UTF8Error);
            }
        }
        let cmp = compare_bytes(buf.as_slice(), needle);
        match cmp {
            Ordering::Less => {
                assert forall|i: int, a: Seq<u8>|
                    #![trigger line_of(start, i), lex_cmp(a, needle@)]
                    sorted_around(start, needle@) && 0 <= i < mid + 1 && line_of(start, i)
                        == Some(a) implies lex_cmp(a, needle@) == Ordering::Less by {
                    assert(line_of(start, mid as int) == Some(line));
                    assert(lex_cmp(line, needle@) == cmp);
                }
                left = mid + 1;
            },
            Ordering::Greater => {
                assert forall|i: int, a: Seq<u8>|
                    #![trigger line_of(start, i), lex_cmp(a, needle@)]
                    sorted_around(start, needle@) && mid <= i < total && line_of(start, i)
                        == Some(a) implies lex_cmp(a, needle@) == Ordering::Greater by {
                    assert(line_of(start, mid as int) == Some(line));
                    assert(lex_cmp(line, needle@) == cmp);
                }
                right = mid;
            },
            Ordering::Equal => {
                proof {
                    lemma_lex_cmp_equal(line, needle@);
                }
                return Ok(mid);
            },
        }
    }
    proof {
        if sorted_around(start, needle@) && has_line(start, needle@) {
            let i = choose|i: int|
                0 <= i < start.spec_index()@.len() && #[trigger] line_of(start, i) == Some(
                    needle@,
                );
            lemma_lex_cmp_equal(needle@, needle@);
            assert(lex_cmp(needle@, needle@) == Ordering::Equal);
        }
    }
    Err(Error::NotFound)
}

/// Reads line `line` of `reader` into `buf`, without its line break.
fn read_raw<R: IndexableFile>(reader: &mut R, line: usize, buf: &mut Vec<u8>) -> (r: Result<usize>)
    ensures
        final(reader).spec_index() == old(reader).spec_index(),
        final(reader).spec_source() == old(reader).spec_source(),
        line >= old(reader).spec_index()@.len() ==> (r matches Err(Error::OutOfBounds)),
        line < old(reader).spec_index()@.len() ==> match line_of(*old(reader), line as int) {
            Some(b) => r is Ok && final(buf)@ == b,
            None => (r matches Err(Error::MalformedIndex)),
        },
{
    match reader.seek_line(line) {
        Ok(()) => {},
        Err(e) => return Err(e),
    }
    reader.read_current_line(buf, line)
}

/// A copy of `v`.
fn copy_bytes(v: &Vec<u8>) -> (r: Vec<u8>)
    ensures
        r@ == v@,
{
    let mut out: Vec<u8> = Vec::new();
    let mut i: usize = 0;
    while i < v.len()
        invariant
            i <= v@.len(),
            out@ == v@.subrange(0, i as int),
        decreases v@.len() - i,
    {
        out.push(v[i]);
        assert(out@ =~= v@.subrange(0, i + 1));
        i = i + 1;
    }
    assert(v@.subrange(0, v@.len() as int) =~= v@);
    out
}

} // verus!
