use vstd::prelude::*;

use crate::error::Error;
use crate::lines::{line_starts, lemma_line_starts_step, NEWLINE};
use crate::Result;

verus! {

/// Length of the persisted header in bytes.
pub const HEADER_SIZE: usize = 8;

/// Size in bytes of one persisted offset.
pub const ENTRY_SIZE: usize = 4;

/// `256` raised to the power `n`.
pub open spec fn pow256(n: nat) -> nat
    decreases n,
{
    if n == 0 {
        1
    } else {
        256 * pow256((n - 1) as nat)
    }
}

/// The `n` lowest bytes of `v`, least significant first.
pub open spec fn le_bytes(v: nat, n: nat) -> Seq<u8>
    decreases n,
{
    if n == 0 {
        Seq::empty()
    } else {
        seq![(v % 256) as u8] + le_bytes(v / 256, (n - 1) as nat)
    }
}

/// The number that `b` spells out, least significant byte first.
pub open spec fn le_value(b: Seq<u8>) -> nat
    decreases b.len(),
{
    if b.len() == 0 {
        0
    } else {
        b[0] as nat + 256 * le_value(b.drop_first())
    }
}

/// The persisted body: each offset as four little-endian bytes, in order.
pub open spec fn encode_offsets(offs: Seq<u32>) -> Seq<u8>
    decreases offs.len(),
{
    if offs.len() == 0 {
        Seq::empty()
    } else {
        encode_offsets(offs.drop_last()) + le_bytes(offs.last() as nat, 4)
    }
}

/// The persisted form of an index: the entry count on eight bytes, then the body.
pub open spec fn encoded_index(offs: Seq<u32>) -> Seq<u8> {
    le_bytes(offs.len(), 8) + encode_offsets(offs)
}

/// The entry count that the header at the start of `data` declares.
pub open spec fn header_value(data: Seq<u8>) -> nat {
    le_value(data.subrange(0, HEADER_SIZE as int))
}

/// Where the `j`-th persisted offset starts.
pub open spec fn entry_start(j: int) -> int {
    HEADER_SIZE + ENTRY_SIZE * j
}

/// The `count` offsets that follow the header in `data`.
pub open spec fn decoded_offsets(data: Seq<u8>, count: nat) -> Seq<u32> {
    Seq::new(
        count,
        |j: int| le_value(data.subrange(entry_start(j), entry_start(j) + ENTRY_SIZE)) as u32,
    )
}

/// Size of the persisted header and body of an index with `count` entries.
pub open spec fn persisted_len(count: nat) -> nat {
    (HEADER_SIZE + ENTRY_SIZE * count) as nat
}

/// Whether the persisted size of an index with `count` entries can be counted in a `usize`.
pub open spec fn fits_persisted(count: nat) -> bool {
    persisted_len(count) <= usize::MAX
}

pub proof fn lemma_le_value_bound(b: Seq<u8>)
    ensures
        le_value(b) < pow256(b.len()),
    decreases b.len(),
{
    if b.len() > 0 {
        lemma_le_value_bound(b.drop_first());
        let r = le_value(b.drop_first());
        let p = pow256((b.len() - 1) as nat);
        assert(b[0] as nat + 256 * r < 256 * p) by (nonlinear_arith)
            requires
                b[0] < 256,
                r < p,
        ;
    }
}

pub proof fn lemma_le_round_trip(v: nat, n: nat)
    requires
        v < pow256(n),
    ensures
        le_bytes(v, n).len() == n,
        le_value(le_bytes(v, n)) == v,
    decreases n,
{
    if n > 0 {
        let p = pow256((n - 1) as nat);
        assert(v / 256 < p) by (nonlinear_arith)
            requires
                v < 256 * p,
        ;
        lemma_le_round_trip(v / 256, (n - 1) as nat);
        let b = le_bytes(v, n);
        assert(b.drop_first() =~= le_bytes(v / 256, (n - 1) as nat));
        assert(v == v % 256 + 256 * (v / 256)) by (nonlinear_arith);
    }
}

proof fn lemma_pow256_facts()
    ensures
        pow256(4) == 0x1_0000_0000,
        pow256(8) == 0x1_0000_0000_0000_0000,
{
    reveal_with_fuel(pow256, 9);
}

proof fn lemma_encode_offsets(offs: Seq<u32>)
    ensures
        encode_offsets(offs).len() == ENTRY_SIZE * offs.len(),
        forall|j: int|
            0 <= j < offs.len() ==> #[trigger] encode_offsets(offs).subrange(
                ENTRY_SIZE * j,
                ENTRY_SIZE * j + ENTRY_SIZE,
            ) == le_bytes(offs[j] as nat, 4),
    decreases offs.len(),
{
    if offs.len() > 0 {
        let init = offs.drop_last();
        lemma_encode_offsets(init);
        lemma_pow256_facts();
        lemma_le_round_trip(offs.last() as nat, 4);
        let e = encode_offsets(offs);
        let ei = encode_offsets(init);
        assert forall|j: int| 0 <= j < offs.len() implies #[trigger] e.subrange(
            ENTRY_SIZE * j,
            ENTRY_SIZE * j + ENTRY_SIZE,
        ) == le_bytes(offs[j] as nat, 4) by {
            if j < init.len() {
                assert(e.subrange(ENTRY_SIZE * j, ENTRY_SIZE * j + ENTRY_SIZE) =~= ei.subrange(
                    ENTRY_SIZE * j,
                    ENTRY_SIZE * j + ENTRY_SIZE,
                ));
            } else {
                assert(e.subrange(ENTRY_SIZE * j, ENTRY_SIZE * j + ENTRY_SIZE) =~= le_bytes(
                    offs.last() as nat,
                    4,
                ));
            }
        }
    }
}

/// Decoding what encoding wrote gives back the entry count and every offset; an index
/// with at least one entry is read back without error.
pub proof fn lemma_codec_round_trip(offs: Seq<u32>)
    requires
        fits_persisted(offs.len()),
    ensures
        encoded_index(offs).len() == persisted_len(offs.len()),
        offs.len() > 0 ==> parse_failure(encoded_index(offs)) is None,
        header_value(encoded_index(offs)) == offs.len(),
        decoded_offsets(encoded_index(offs), offs.len()) == offs,
{
    let e = encoded_index(offs);
    let body = encode_offsets(offs);
    lemma_pow256_facts();
    lemma_le_round_trip(offs.len(), 8);
    lemma_encode_offsets(offs);
    assert(e.subrange(0, HEADER_SIZE as int) =~= le_bytes(offs.len(), 8));
    let d = decoded_offsets(e, offs.len());
    assert forall|j: int| 0 <= j < offs.len() implies d[j] == offs[j] by {
        assert(e.subrange(entry_start(j), entry_start(j) + ENTRY_SIZE) =~= body.subrange(
            ENTRY_SIZE * j,
            ENTRY_SIZE * j + ENTRY_SIZE,
        ));
        lemma_pow256_facts();
        lemma_le_round_trip(offs[j] as nat, 4);
    }
    assert(d =~= offs);
}

/// Appends the `n` lowest bytes of `v` to `out`, least significant first.
fn push_le(out: &mut Vec<u8>, v: u64, n: usize)
    ensures
        final(out)@ == old(out)@ + le_bytes(v as nat, n as nat),
{
    let mut x: u64 = v;
    let mut k: usize = 0;
    while k < n
        invariant
            k <= n,
            out@ + le_bytes(x as nat, (n - k) as nat) == old(out)@ + le_bytes(v as nat, n as nat),
        decreases n - k,
    {
        let ghost before = out@;
        assert(le_bytes(x as nat, (n - k) as nat) == seq![(x % 256) as u8] + le_bytes(
            (x / 256) as nat,
            (n - k - 1) as nat,
        ));
        out.push((x % 256) as u8);
        assert(out@ + le_bytes((x / 256) as nat, (n - k - 1) as nat) =~= before + le_bytes(
            x as nat,
            (n - k) as nat,
        ));
        x = x / 256;
        k = k + 1;
    }
}

/// Reads the number spelled by `data[start..start + n]`, least significant byte first.
fn read_le(data: &[u8], start: usize, n: usize) -> (r: u64)
    requires
        n <= 8,
        start + n <= data@.len(),
    ensures
        r as nat == le_value(data@.subrange(start as int, start + n)),
{
    let mut v: u64 = 0;
    let mut k: usize = n;
    let len = data.len();
    proof {
        lemma_pow256_facts();
    }
    while k > 0
        invariant
            k <= n <= 8,
            start + n <= data@.len() == len,
            v as nat == le_value(data@.subrange(start + k, start + n)),
        decreases k,
    {
        k = k - 1;
        let ghost tail = data@.subrange(start + k + 1, start + n);
        let ghost s = data@.subrange(start + k, start + n);
        assert(s.drop_first() =~= tail);
        proof {
            lemma_le_value_bound(tail);
            lemma_pow_mono((n - k - 1) as nat, 7);
            lemma_pow256_facts();
        }
        let b = data[start + k];
        assert(v < 0x100_0000_0000_0000);
        v = (b as u64) + 256 * v;
    }
    v
}

proof fn lemma_pow_mono(a: nat, b: nat)
    requires
        a <= b,
    ensures
        pow256(a) <= pow256(b),
    decreases b,
{
    if a < b {
        lemma_pow_mono(a, (b - 1) as nat);
    }
}

/// The persisted header: how many index entries follow it.
#[derive(Debug, Clone, Copy, PartialEq, Eq, Structural)]
pub struct Header {
    /// The number of index entries, which is the number of lines.
    pub items: usize,
}

impl Header {
    /// A header for `items` entries.
    pub(crate) fn new(items: usize) -> (r: Header)
        ensures
            r.items == items,
    {
        Header { items }
    }

    /// The header as it is persisted: the entry count on eight little-endian bytes.
    pub(crate) fn encode(&self) -> (r: Vec<u8>)
        ensures
            r@ == le_bytes(self.items as nat, 8),
    {
        let mut out: Vec<u8> = Vec::new();
        push_le(&mut out, self.items as u64, HEADER_SIZE);
        proof {
            assert(out@ =~= le_bytes(self.items as nat, 8));
        }
        out
    }

    /// Reads the header at the start of `data`.
    ///
    /// Fails with `MissingIndex` when `data` is shorter than a header, and with
    /// `MalformedIndex` when the declared count does not fit a `usize`.
    pub fn decode(data: &[u8]) -> (r: Result<Header>)
        ensures
            data@.len() < HEADER_SIZE ==> r matches Err(Error::MissingIndex),
            data@.len() >= HEADER_SIZE ==> match r {
                Ok(h) => h.items == header_value(data@),
                Err(e) => header_value(data@) > usize::MAX && e is MalformedIndex,
            },
    {
        if data.len() < HEADER_SIZE {
            return Err(Error::MissingIndex);
        }
        let v = read_le(data, 0, HEADER_SIZE);
        if v > usize::MAX as u64 {
            return Err(Error::MalformedIndex);
        }
        Ok(Header { items: v as usize })
    }
}

/// An in-memory line index: the offset at which each line starts, in line order,
/// and the size of the persisted header and body that precede the content, if any.
#[derive(Debug, Clone)]
pub struct Index {
    inner: Vec<u32>,
    len_bytes: usize,
}

impl View for Index {
    type V = Seq<u32>;

    /// The line offsets, in line order.
    closed spec fn view(&self) -> Seq<u32> {
        self.inner@
    }
}

impl Index {
    /// The number of bytes of persisted header and body in front of the content.
    pub closed spec fn spec_len_bytes(&self) -> usize {
        self.len_bytes
    }

    /// An index with the given line offsets, describing content that is preceded by
    /// its persisted header and body.
    pub fn new(lines: Vec<u32>) -> (r: Index)
        requires
            fits_persisted(lines@.len()),
        ensures
            r@ == lines@,
            r.spec_len_bytes() == persisted_len(lines@.len()),
    {
        let n = lines.len();
        Index { inner: lines, len_bytes: HEADER_SIZE + ENTRY_SIZE * n }
    }

    /// Scans `data` once and records the offset at which each line starts.
    ///
    /// A line ends after a line break; an empty piece after a final line break is
    /// not a line. The index describes content without a persisted prefix.
    pub fn build(data: &[u8]) -> (r: Index)
        requires
            data@.len() <= u32::MAX,
        ensures
            r@.len() == line_starts(data@).len(),
            forall|k: int| 0 <= k < r@.len() ==> r@[k] as int == line_starts(data@)[k],
            r.spec_len_bytes() == 0,
    {
        let mut inner: Vec<u32> = Vec::new();
        let n = data.len();
        let mut i: usize = 0;
        while i < n
            invariant
                i <= n == data@.len() <= u32::MAX,
                inner@.len() == line_starts(data@.subrange(0, i as int)).len(),
                forall|k: int|
                    0 <= k < inner@.len() ==> inner@[k] as int == line_starts(
                        data@.subrange(0, i as int),
                    )[k],
            decreases n - i,
        {
            proof {
                lemma_line_starts_step(data@, i as int);
            }
            if i == 0 || data[i - 1] == NEWLINE {
                inner.push(i as u32);
            }
            i = i + 1;
        }
        assert(data@.subrange(0, n as int) =~= data@);
        Index { inner, len_bytes: 0 }
    }

    /// An index of no lines, describing content with no persisted prefix.
    pub fn empty() -> (r: Index)
        ensures
            r@ == Seq::<u32>::empty(),
            r.spec_len_bytes() == 0,
    {
        Index { inner: Vec::new(), len_bytes: 0 }
    }

    /// A copy of this index.
    pub(crate) fn copy(&self) -> (r: Index)
        ensures
            r@ == self@,
            r.spec_len_bytes() == self.spec_len_bytes(),
    {
        let mut inner: Vec<u32> = Vec::new();
        let mut i: usize = 0;
        while i < self.inner.len()
            invariant
                i <= self.inner@.len(),
                inner@ == self.inner@.subrange(0, i as int),
            decreases self.inner@.len() - i,
        {
            inner.push(self.inner[i]);
            assert(inner@ =~= self.inner@.subrange(0, i + 1));
            i = i + 1;
        }
        assert(inner@ =~= self.inner@);
        Index { inner, len_bytes: self.len_bytes }
    }

    /// Appends an offset, leaving the persisted size as it is.
    pub(crate) fn push_offset(&mut self, pos: u32)
        ensures
            final(self)@ == old(self)@.push(pos),
            final(self).spec_len_bytes() == old(self).spec_len_bytes(),
    {
        self.inner.push(pos);
    }

    /// Replaces the offset of line `i`, leaving the persisted size as it is.
    pub(crate) fn set_offset(&mut self, i: usize, pos: u32)
        requires
            i < old(self)@.len(),
        ensures
            final(self)@ == old(self)@.update(i as int, pos),
            final(self).spec_len_bytes() == old(self).spec_len_bytes(),
    {
        self.inner.set(i, pos);
    }

    /// Appends the offset of one more line.
    pub fn add(&mut self, pos: u32)
        requires
            fits_persisted(old(self)@.len() + 1),
        ensures
            final(self)@ == old(self)@.push(pos),
            final(self).spec_len_bytes() == persisted_len(final(self)@.len()),
    {
        self.inner.push(pos);
        self.len_bytes = self.calc_length();
    }

    /// Appends the offsets of several more lines.
    pub fn extend(&mut self, values: &[u32])
        requires
            fits_persisted(old(self)@.len() + values@.len()),
        ensures
            final(self)@ == old(self)@ + values@,
            final(self).spec_len_bytes() == persisted_len(final(self)@.len()),
    {
        let mut i: usize = 0;
        while i < values.len()
            invariant
                i <= values@.len(),
                self.inner@ == old(self)@ + values@.subrange(0, i as int),
                fits_persisted(old(self)@.len() + values@.len()),
            decreases values@.len() - i,
        {
            self.inner.push(values[i]);
            assert(self.inner@ =~= old(self)@ + values@.subrange(0, i + 1));
            i = i + 1;
        }
        assert(values@.subrange(0, values@.len() as int) =~= values@);
        self.len_bytes = self.calc_length();
    }

    /// The header and body of the index as they are persisted in front of the content.
    pub fn encode(&self) -> (r: Vec<u8>)
        ensures
            r@ == encoded_index(self@),
    {
        let mut out = self.get_header().encode();
        let mut i: usize = 0;
        while i < self.inner.len()
            invariant
                i <= self.inner@.len(),
                out@ == le_bytes(self.inner@.len() as nat, 8) + encode_offsets(
                    self.inner@.subrange(0, i as int),
                ),
            decreases self.inner@.len() - i,
        {
            let ghost before = out@;
            push_le(&mut out, self.inner[i] as u64, ENTRY_SIZE);
            proof {
                let s = self.inner@.subrange(0, i + 1);
                assert(s.drop_last() =~= self.inner@.subrange(0, i as int));
                assert(out@ =~= le_bytes(self.inner@.len() as nat, 8) + encode_offsets(s));
            }
            i = i + 1;
        }
        assert(self.inner@.subrange(0, self.inner@.len() as int) =~= self.inner@);
        out
    }

    /// Whether there is a line at position `pos`.
    pub fn has(&self, pos: usize) -> (r: bool)
        ensures
            r == (pos < self@.len()),
    {
        pos < self.inner.len()
    }

    /// The size in bytes of the persisted header and body of this index.
    pub fn calc_length(&self) -> (r: usize)
        requires
            fits_persisted(self@.len()),
        ensures
            r == persisted_len(self@.len()),
    {
        HEADER_SIZE + ENTRY_SIZE * self.inner.len()
    }

    /// Reads the `header.items` offsets that follow the header in `data`.
    ///
    /// Fails with `MalformedIndex` when `data` is too short to hold them all.
    pub fn decode(data: &[u8], header: &Header) -> (r: Result<Index>)
        ensures
            match r {
                Ok(idx) => {
                    &&& persisted_len(header.items as nat) <= data@.len()
                    &&& idx@ == decoded_offsets(data@, header.items as nat)
                    &&& idx.spec_len_bytes() == persisted_len(header.items as nat)
                },
                Err(e) => persisted_len(header.items as nat) > data@.len() && e is MalformedIndex,
            },
    {
        let n = header.items;
        if data.len() < HEADER_SIZE || n > (data.len() - HEADER_SIZE) / ENTRY_SIZE {
            return Err(Error::MalformedIndex);
        }
        let mut inner: Vec<u32> = Vec::new();
        let mut j: usize = 0;
        let len = data.len();
        proof {
            lemma_pow256_facts();
        }
        while j < n
            invariant
                j <= n == header.items,
                persisted_len(n as nat) <= data@.len() == len,
                inner@ == decoded_offsets(data@, j as nat),
            decreases n - j,
        {
            let start = HEADER_SIZE + ENTRY_SIZE * j;
            let v = read_le(data, start, ENTRY_SIZE);
            proof {
                lemma_le_value_bound(data@.subrange(start as int, start + ENTRY_SIZE));
                lemma_pow256_facts();
            }
            inner.push(v as u32);
            assert(inner@ =~= decoded_offsets(data@, (j + 1) as nat));
            j = j + 1;
        }
        Ok(Index { inner, len_bytes: HEADER_SIZE + ENTRY_SIZE * n })
    }

    /// The same offsets, describing content with no persisted prefix in front of it.
    pub fn zero_len(self) -> (r: Index)
        ensures
            r@ == self@,
            r.spec_len_bytes() == 0,
    {
        Index { inner: self.inner, len_bytes: 0 }
    }

    /// The header that persists this index.
    pub(crate) fn get_header(&self) -> (r: Header)
        ensures
            r.items == self@.len(),
    {
        Header::new(self.inner.len())
    }

    /// The offset at which line `pos` starts.
    pub fn get(&self, pos: usize) -> (r: Result<u32>)
        ensures
            pos < self@.len() ==> r == Ok::<u32, Error>(self@[pos as int]),
            pos >= self@.len() ==> r matches Err(Error::OutOfBounds),
    {
        if pos < self.inner.len() {
            Ok(self.inner[pos])
        } else {
            Err(Error::OutOfBounds)
        }
    }

    /// The line offsets, in line order.
    pub fn offsets(&self) -> (r: &[u32])
        ensures
            r@ == self@,
    {
        self.inner.as_slice()
    }

    /// The number of lines.
    pub fn len(&self) -> (r: usize)
        ensures
            r == self@.len(),
    {
        self.inner.len()
    }

    /// The number of bytes of persisted header and body in front of the content.
    pub fn len_bytes(&self) -> (r: usize)
        ensures
            r == self.spec_len_bytes(),
    {
        self.len_bytes
    }

    /// Whether no persisted header and body precede the content.
    pub fn is_empty(&self) -> (r: bool)
        ensures
            r == (self.spec_len_bytes() == 0),
    {
        self.len_bytes == 0
    }

    /// Reads a persisted index from the start of `data`.
    ///
    /// Fails with `MissingIndex` when `data` is shorter than a header or declares no
    /// entries, and with `MalformedIndex` when the declared entries do not fit.
    pub fn parse_index(data: &[u8]) -> (r: Result<Index>)
        ensures
            match parse_failure(data@) {
                Some(e) => r == Err::<Index, Error>(e),
                None => r matches Ok(idx) && idx@ == decoded_offsets(data@, header_value(data@))
                    && idx.spec_len_bytes() == persisted_len(header_value(data@)),
            },
    {
        let header = match Header::decode(data) {
            Ok(h) => h,
            Err(e) => return Err(e),
        };
        if header.items == 0 {
            return Err(Error::MissingIndex);
        }
        Index::decode(data, &header)
    }

    /// The position in the source at which line `line` starts: its offset plus the
    /// persisted prefix.
    pub fn seek_position(&self, line: usize) -> (r: Result<u64>)
        ensures
            line >= self@.len() ==> r matches Err(Error::OutOfBounds),
            line < self@.len() ==> if self.spec_len_bytes() + self@[line as int] <= u64::MAX {
                r == Ok::<u64, Error>((self.spec_len_bytes() + self@[line as int]) as u64)
            } else {
                r matches Err(Error::MalformedIndex)
            },
    {
        if line >= self.inner.len() {
            return Err(Error::OutOfBounds);
        }
        let off = self.inner[line] as u64;
        let lb = self.len_bytes as u64;
        if lb > u64::MAX - off {
            return Err(Error::MalformedIndex);
        }
        Ok(lb + off)
    }

    /// How many bytes line `line` takes up to the start of the next line, or `None`
    /// for the last line, which runs to the end of the source.
    ///
    /// Fails with `MalformedIndex` when the next line starts before this one.
    pub fn line_extent(&self, line: usize) -> (r: Result<Option<usize>>)
        ensures
            line >= self@.len() ==> r matches Err(Error::OutOfBounds),
            line < self@.len() ==> if line + 1 < self@.len() {
                if self@[line as int] <= self@[line + 1] {
                    r == Ok::<Option<usize>, Error>(
                        Some((self@[line + 1] - self@[line as int]) as usize),
                    )
                } else {
                    r matches Err(Error::MalformedIndex)
                }
            } else {
                r == Ok::<Option<usize>, Error>(None)
            },
    {
        if line >= self.inner.len() {
            return Err(Error::OutOfBounds);
        }
        if line + 1 < self.inner.len() {
            let start = self.inner[line];
            let next = self.inner[line + 1];
            if next < start {
                return Err(Error::MalformedIndex);
            }
            Ok(Some((next - start) as usize))
        } else {
            Ok(None)
        }
    }
}

/// The error that reading a persisted index from the start of `data` meets, or `None`
/// when it succeeds.
pub open spec fn parse_failure(data: Seq<u8>) -> Option<Error> {
    if data.len() < HEADER_SIZE {
        Some(Error::MissingIndex)
    } else if header_value(data) == 0 {
        Some(Error::MissingIndex)
    } else if header_value(data) > usize::MAX || persisted_len(header_value(data)) > data.len() {
        Some(Error::MalformedIndex)
    } else {
        None
    }
}

impl Default for Index {
    /// An index of no lines, describing content with no persisted prefix.
    fn default() -> (r: Index)
        ensures
            r@ == Seq::<u32>::empty(),
            r.spec_len_bytes() == 0,
    {
        Index::empty()
    }
}

} // verus!
